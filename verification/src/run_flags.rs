//! Validation of the `run` command's flags that the argument parser cannot
//! express: the selective-log flags and the betting-only flags.
use vstd::prelude::*;
use crate::text::push_str;

verus! {

/// The log flags as given on the command line.
#[derive(Clone, Copy, Debug, PartialEq, Eq, Structural)]
pub struct LogFlags {
    /// `--log FILE` was given.
    pub log: bool,
    pub log_sample: Option<u64>,
    pub log_top: Option<usize>,
    pub log_faults: Option<u64>,
}

impl LogFlags {
    pub open spec fn spec_selective(&self) -> bool {
        self.log_sample is Some || self.log_top is Some || self.log_faults is Some
    }

    /// Selective mode is on once any selective-log flag is set.
    pub fn selective(&self) -> (r: bool)
        ensures
            r == self.spec_selective(),
    {
        self.log_sample.is_some() || self.log_top.is_some() || self.log_faults.is_some()
    }

    /// Refuses selective flags without a log file, and a sample of zero.
    pub fn check_log(&self) -> (r: Result<(), String>)
        ensures
            self.spec_selective() && !self.log ==> (r matches Err(m) && m@
                == "--log-sample/--log-top/--log-faults require --log FILE"@),
            !(self.spec_selective() && !self.log) && self.log_sample == Some(0u64) ==> (r matches Err(m)
                && m@ == "--log-sample must be >= 1"@),
            !(self.spec_selective() && !self.log) && self.log_sample != Some(0u64) ==> r is Ok,
    {
        if self.selective() && !self.log {
            return Err("--log-sample/--log-top/--log-faults require --log FILE".to_owned());
        }
        if let Some(0) = self.log_sample {
            return Err("--log-sample must be >= 1".to_owned());
        }
        Ok(())
    }
}

/// Which betting-only flags were given, in the order they are checked.
#[derive(Clone, Copy, Debug, PartialEq, Eq, Structural)]
pub struct BettingFlags {
    pub sb: bool,
    pub bb: bool,
    pub ante: bool,
    pub bring_in: bool,
    pub small_bet: bool,
    pub big_bet: bool,
    pub raise_cap: bool,
    pub stack_bb: bool,
    pub dealing: bool,
}

/// The first betting-only flag given, with why an OFC game refuses it.
pub open spec fn first_betting_flag(f: BettingFlags) -> Option<(Seq<char>, Seq<char>)> {
    if f.sb {
        Some(("--sb"@, "OFC games have no stakes"@))
    } else if f.bb {
        Some(("--bb"@, "OFC games have no stakes"@))
    } else if f.ante {
        Some(("--ante"@, "OFC games have no stakes"@))
    } else if f.bring_in {
        Some(("--bring-in"@, "OFC games have no stakes"@))
    } else if f.small_bet {
        Some(("--small-bet"@, "OFC games have no stakes"@))
    } else if f.big_bet {
        Some(("--big-bet"@, "OFC games have no stakes"@))
    } else if f.raise_cap {
        Some(("--raise-cap"@, "OFC has no betting"@))
    } else if f.stack_bb {
        Some(("--stack-bb"@, "OFC has no chips"@))
    } else if f.dealing {
        Some(("--dealing"@, "OFC deals one hand per deck"@))
    } else {
        None
    }
}

/// Refuses the first betting-only flag given for the OFC game `game`.
pub fn reject_betting_flags(flags: &BettingFlags, game: &str) -> (r: Result<(), String>)
    ensures
        match first_betting_flag(*flags) {
            None => r is Ok,
            Some((flag, why)) => r matches Err(m) && m@ == flag + " is not valid for "@ + game@ + " ("@ + why
                + ")"@,
        },
{
    let no_stakes = "OFC games have no stakes";
    let (flag, why): (&str, &str) = if flags.sb {
        ("--sb", no_stakes)
    } else if flags.bb {
        ("--bb", no_stakes)
    } else if flags.ante {
        ("--ante", no_stakes)
    } else if flags.bring_in {
        ("--bring-in", no_stakes)
    } else if flags.small_bet {
        ("--small-bet", no_stakes)
    } else if flags.big_bet {
        ("--big-bet", no_stakes)
    } else if flags.raise_cap {
        ("--raise-cap", "OFC has no betting")
    } else if flags.stack_bb {
        ("--stack-bb", "OFC has no chips")
    } else if flags.dealing {
        ("--dealing", "OFC deals one hand per deck")
    } else {
        return Ok(());
    };
    let mut m = String::new();
    push_str(&mut m, flag);
    push_str(&mut m, " is not valid for ");
    push_str(&mut m, game);
    push_str(&mut m, " (");
    push_str(&mut m, why);
    push_str(&mut m, ")");
    proof {
        assert(m@ =~= flag@ + " is not valid for "@ + game@ + " ("@ + why@ + ")"@);
    }
    Err(m)
}


/// The value following a flag on the command line: the next argument, or
/// the message that the flag expects one.
pub fn next_value(next: Option<String>, flag: &str) -> (r: Result<String, String>)
    ensures
        match next {
            Some(v) => r matches Ok(x) && x@ == v@,
            None => r matches Err(m) && m@ == flag@ + " expects a value"@,
        },
{
    match next {
        Some(v) => Ok(v),
        None => {
            let mut m = String::new();
            push_str(&mut m, flag);
            push_str(&mut m, " expects a value");
            Err(m)
        },
    }
}

} // verus!
