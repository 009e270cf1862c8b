//! The betting family's builtin `--bot` vocabulary:
//! `builtin:folder|caller|shover|random[:seed]`, and how a field of builtin
//! bots is named.
use vstd::prelude::*;
use crate::botspec::{
    debug_text, has_prefix, parse_unsigned, parse_unsigned_text, push_debug, split_first,
    split_once_char, starts_with, tail_from, count_of,
};
use crate::text::{decimal, push_char, push_decimal, push_str, str_eq};

verus! {

/// A builtin betting bot kind.
#[derive(Clone, Copy, Debug, PartialEq, Eq, Structural)]
pub enum BuiltinKind {
    Folder,
    Caller,
    Shover,
    /// The uniform-random bot, with its seed when one was given.
    Random(Option<u64>),
}

impl BuiltinKind {
    pub open spec fn spec_base_name(&self) -> Seq<char> {
        match self {
            BuiltinKind::Folder => "folder"@,
            BuiltinKind::Caller => "caller"@,
            BuiltinKind::Shover => "shover"@,
            BuiltinKind::Random(_) => "random"@,
        }
    }

    /// The name a bot of this kind is given.
    pub fn base_name(&self) -> (r: &'static str)
        ensures
            r@ == self.spec_base_name(),
    {
        match self {
            BuiltinKind::Folder => "folder",
            BuiltinKind::Caller => "caller",
            BuiltinKind::Shover => "shover",
            BuiltinKind::Random(_) => "random",
        }
    }
}

/// `r` is what parsing the builtin spec `s` gives.
pub open spec fn kind_parsed_as(s: Seq<char>, r: Result<BuiltinKind, String>) -> bool {
    if has_prefix(s, "tcp:"@) || has_prefix(s, "cmd:"@) {
        r matches Err(m) && m@ == "wire bots arrive in M2"@
    } else if has_prefix(s, "builtin:"@) {
        let (name, arg) = split_first(s.skip(8), ':');
        if name == "folder"@ {
            r == Ok::<BuiltinKind, String>(BuiltinKind::Folder)
        } else if name == "caller"@ {
            r == Ok::<BuiltinKind, String>(BuiltinKind::Caller)
        } else if name == "shover"@ {
            r == Ok::<BuiltinKind, String>(BuiltinKind::Shover)
        } else if name == "random"@ {
            match arg {
                None => r == Ok::<BuiltinKind, String>(BuiltinKind::Random(None)),
                Some(a) => match parse_unsigned(a, u64::MAX as nat) {
                    Some(v) => r == Ok::<BuiltinKind, String>(BuiltinKind::Random(Some(v as u64))),
                    None => r matches Err(m) && m@ == "invalid seed "@ + debug_text(a) + " in --bot "@
                        + debug_text(s),
                },
            }
        } else {
            r matches Err(m) && m@ == "unknown builtin bot "@ + debug_text(name) + " in --bot "@ + debug_text(s)
                + " (expected folder/caller/shover/random)"@
        }
    } else {
        r matches Err(m) && m@ == "unrecognized --bot spec "@ + debug_text(s)
            + " (expected builtin:<name>, tcp:*, or cmd:*)"@
    }
}

/// Parses a builtin `--bot` spec; wire bots are refused.
pub fn parse_bot_kind(spec: &str) -> (r: Result<BuiltinKind, String>)
    ensures
        kind_parsed_as(spec@, r),
{
    if starts_with(spec, "tcp:") || starts_with(spec, "cmd:") {
        return Err("wire bots arrive in M2".to_owned());
    }
    if !starts_with(spec, "builtin:") {
        let mut m = String::new();
        push_str(&mut m, "unrecognized --bot spec ");
        push_debug(&mut m, spec);
        push_str(&mut m, " (expected builtin:<name>, tcp:*, or cmd:*)");
        proof {
            assert(m@ =~= "unrecognized --bot spec "@ + debug_text(spec@)
                + " (expected builtin:<name>, tcp:*, or cmd:*)"@);
        }
        return Err(m);
    }
    proof {
        reveal_strlit("builtin:");
    }
    let rest = tail_from(spec, 8);
    let (name, arg) = split_once_char(rest, ':');
    if str_eq(name, "folder") {
        return Ok(BuiltinKind::Folder);
    }
    if str_eq(name, "caller") {
        return Ok(BuiltinKind::Caller);
    }
    if str_eq(name, "shover") {
        return Ok(BuiltinKind::Shover);
    }
    if str_eq(name, "random") {
        return match arg {
            None => Ok(BuiltinKind::Random(None)),
            Some(a) => match parse_unsigned_text(a, u64::MAX) {
                Some(v) => Ok(BuiltinKind::Random(Some(v))),
                None => {
                    let mut m = String::new();
                    push_str(&mut m, "invalid seed ");
                    push_debug(&mut m, a);
                    push_str(&mut m, " in --bot ");
                    push_debug(&mut m, spec);
                    proof {
                        assert(m@ =~= "invalid seed "@ + debug_text(a@) + " in --bot "@ + debug_text(spec@));
                    }
                    Err(m)
                },
            },
        };
    }
    let mut m = String::new();
    push_str(&mut m, "unknown builtin bot ");
    push_debug(&mut m, name);
    push_str(&mut m, " in --bot ");
    push_debug(&mut m, spec);
    push_str(&mut m, " (expected folder/caller/shover/random)");
    proof {
        assert(m@ =~= "unknown builtin bot "@ + debug_text(name@) + " in --bot "@ + debug_text(spec@)
            + " (expected folder/caller/shover/random)"@);
    }
    Err(m)
}

/// The base names of a field of kinds.
pub open spec fn kind_names(kinds: Seq<BuiltinKind>) -> Seq<Seq<char>> {
    kinds.map_values(|k: BuiltinKind| k.spec_base_name())
}

/// The name of bot `i` of a field: its base name on that base's first use,
/// else the base suffixed `-N` where this is the base's `N`th use.
pub open spec fn field_name(kinds: Seq<BuiltinKind>, i: int) -> Seq<char> {
    let n = count_of(kind_names(kinds).take(i + 1), kinds[i].spec_base_name());
    if n == 1 {
        kinds[i].spec_base_name()
    } else {
        kinds[i].spec_base_name() + seq!['-'] + decimal(n)
    }
}

/// Names a field of builtin bots in `--bot` order.
pub fn field_names(kinds: &[BuiltinKind]) -> (r: Vec<String>)
    ensures
        r@.len() == kinds@.len(),
        forall|i: int| 0 <= i < kinds@.len() ==> #[trigger] r@[i]@ == field_name(kinds@, i),
{
    let ghost names = kind_names(kinds@);
    let mut out: Vec<String> = Vec::new();
    let mut i: usize = 0;
    while i < kinds.len()
        invariant
            i <= kinds@.len(),
            names == kind_names(kinds@),
            out@.len() == i,
            forall|p: int| 0 <= p < i ==> #[trigger] out@[p]@ == field_name(kinds@, p),
        decreases kinds@.len() - i,
    {
        let base = kinds[i].base_name();
        let mut count: u64 = 0;
        let mut j: usize = 0;
        while j <= i
            invariant
                j <= i + 1,
                i < kinds@.len(),
                names == kind_names(kinds@),
                base@ == kinds@[i as int].spec_base_name(),
                count == count_of(names.take(j as int), base@),
                count <= j,
            decreases i + 1 - j,
        {
            proof {
                assert(names.take(j as int + 1) =~= names.take(j as int).push(names[j as int]));
                assert(names.take(j as int + 1).drop_last() =~= names.take(j as int));
            }
            if str_eq(kinds[j].base_name(), base) {
                count = count + 1;
            }
            j = j + 1;
        }
        let mut name = String::new();
        push_str(&mut name, base);
        if count != 1 {
            push_char(&mut name, '-');
            push_decimal(&mut name, count);
        }
        proof {
            assert(name@ =~= field_name(kinds@, i as int));
        }
        out.push(name);
        i = i + 1;
    }
    out
}

} // verus!
