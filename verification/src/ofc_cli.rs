//! The OFC family's `--bot` vocabulary: `builtin:greedy|filler|random[:seed]`,
//! `tcp:PORT` and `cmd:COMMAND`, each optionally prefixed `NAME@`.
use vstd::prelude::*;
use crate::botspec::{
    blank, debug_text, has_prefix, is_blank, named_prefix, parse_unsigned,
    parse_unsigned_text, push_debug, split_first, split_named_spec, split_once_char, starts_with,
    tail_from, valid_bot_name, invalid_name_message,
};
use crate::text::{decimal, push_decimal, push_str, str_eq};

verus! {

/// A builtin OFC bot kind.
#[derive(Clone, Copy, Debug, PartialEq, Eq, Structural)]
pub enum BuiltinKind {
    Greedy,
    Filler,
    /// The uniform-random bot, with its seed when one was given.
    Random(Option<u64>),
}

impl BuiltinKind {
    pub open spec fn spec_base_name(&self) -> Seq<char> {
        match self {
            BuiltinKind::Greedy => "greedy"@,
            BuiltinKind::Filler => "filler"@,
            BuiltinKind::Random(_) => "random"@,
        }
    }

    /// The name a bot of this kind gets when the operator names none.
    pub fn base_name(&self) -> (r: &'static str)
        ensures
            r@ == self.spec_base_name(),
    {
        match self {
            BuiltinKind::Greedy => "greedy",
            BuiltinKind::Filler => "filler",
            BuiltinKind::Random(_) => "random",
        }
    }
}

/// A parsed `--bot` spec, not yet named or connected.
#[derive(Clone, Debug, PartialEq, Eq)]
pub enum BotSpec {
    Builtin(BuiltinKind),
    /// Wait for a bot to connect on `127.0.0.1:PORT`.
    Tcp(u16),
    /// Spawn a bot process and talk over its stdio.
    Cmd(String),
}

/// The message for a spec of no known kind.
pub open spec fn unrecognized_message(s: Seq<char>) -> Seq<char> {
    "unrecognized --bot spec "@ + debug_text(s) + " (expected builtin:<name>, tcp:*, or cmd:*)"@
}

/// `r` is what parsing the spec `s` gives.
pub open spec fn parsed_as(s: Seq<char>, r: Result<BotSpec, String>) -> bool {
    if has_prefix(s, "tcp:"@) {
        let port = s.skip(4);
        match parse_unsigned(port, 65535) {
            Some(v) => r matches Ok(BotSpec::Tcp(p)) && p == v,
            None => r matches Err(m) && m@ == "invalid port "@ + debug_text(port) + " in --bot "@ + debug_text(s),
        }
    } else if has_prefix(s, "cmd:"@) {
        let command = s.skip(4);
        if blank(command) {
            r matches Err(m) && m@ == "empty command in --bot "@ + debug_text(s)
        } else {
            r matches Ok(BotSpec::Cmd(c)) && c@ == command
        }
    } else if has_prefix(s, "builtin:"@) {
        let (name, arg) = split_first(s.skip(8), ':');
        if name == "greedy"@ {
            r == Ok::<BotSpec, String>(BotSpec::Builtin(BuiltinKind::Greedy))
        } else if name == "filler"@ {
            r == Ok::<BotSpec, String>(BotSpec::Builtin(BuiltinKind::Filler))
        } else if name == "random"@ {
            match arg {
                None => r == Ok::<BotSpec, String>(BotSpec::Builtin(BuiltinKind::Random(None))),
                Some(a) => match parse_unsigned(a, u64::MAX as nat) {
                    Some(v) => r == Ok::<BotSpec, String>(BotSpec::Builtin(BuiltinKind::Random(Some(v as u64)))),
                    None => r matches Err(m) && m@ == "invalid seed "@ + debug_text(a) + " in --bot "@
                        + debug_text(s),
                },
            }
        } else {
            r matches Err(m) && m@ == "unknown builtin bot "@ + debug_text(name) + " in --bot "@ + debug_text(s)
                + " (expected greedy/filler/random)"@
        }
    } else {
        r matches Err(m) && m@ == unrecognized_message(s)
    }
}

/// Parses a `--bot` spec of this family (after any `NAME@` prefix).
pub fn parse_bot_spec(spec: &str) -> (r: Result<BotSpec, String>)
    ensures
        parsed_as(spec@, r),
{
    if starts_with(spec, "tcp:") {
        proof {
            reveal_strlit("tcp:");
        }
        let port = tail_from(spec, 4);
        return match parse_unsigned_text(port, 65535) {
            Some(v) => Ok(BotSpec::Tcp(v as u16)),
            None => {
                let mut m = String::new();
                push_str(&mut m, "invalid port ");
                push_debug(&mut m, port);
                push_str(&mut m, " in --bot ");
                push_debug(&mut m, spec);
                proof {
                    assert(m@ =~= "invalid port "@ + debug_text(port@) + " in --bot "@ + debug_text(spec@));
                }
                Err(m)
            },
        };
    }
    proof {
        reveal_strlit("tcp:");
    }
    if starts_with(spec, "cmd:") {
        proof {
            reveal_strlit("cmd:");
        }
        let command = tail_from(spec, 4);
        if is_blank(command) {
            let mut m = String::new();
            push_str(&mut m, "empty command in --bot ");
            push_debug(&mut m, spec);
            proof {
                assert(m@ =~= "empty command in --bot "@ + debug_text(spec@));
            }
            return Err(m);
        }
        return Ok(BotSpec::Cmd(command.to_owned()));
    }
    proof {
        reveal_strlit("cmd:");
    }
    if !starts_with(spec, "builtin:") {
        let mut m = String::new();
        push_str(&mut m, "unrecognized --bot spec ");
        push_debug(&mut m, spec);
        push_str(&mut m, " (expected builtin:<name>, tcp:*, or cmd:*)");
        proof {
            assert(m@ =~= unrecognized_message(spec@));
        }
        return Err(m);
    }
    proof {
        reveal_strlit("builtin:");
    }
    let rest = tail_from(spec, 8);
    let (name, arg) = split_once_char(rest, ':');
    if str_eq(name, "greedy") {
        return Ok(BotSpec::Builtin(BuiltinKind::Greedy));
    }
    if str_eq(name, "filler") {
        return Ok(BotSpec::Builtin(BuiltinKind::Filler));
    }
    if str_eq(name, "random") {
        return match arg {
            None => Ok(BotSpec::Builtin(BuiltinKind::Random(None))),
            Some(a) => match parse_unsigned_text(a, u64::MAX) {
                Some(v) => Ok(BotSpec::Builtin(BuiltinKind::Random(Some(v)))),
                None => {
                    let mut m = String::new();
                    push_str(&mut m, "invalid seed ");
                    push_debug(&mut m, a);
                    push_str(&mut m, " in --bot ");
                    push_debug(&mut m, spec);
                    proof {
                        assert(m@ =~= "invalid seed "@ + debug_text(a@) + " in --bot "@ + debug_text(spec@));
                    }
                    Err(m)
                },
            },
        };
    }
    let mut m = String::new();
    push_str(&mut m, "unknown builtin bot ");
    push_debug(&mut m, name);
    push_str(&mut m, " in --bot ");
    push_debug(&mut m, spec);
    push_str(&mut m, " (expected greedy/filler/random)");
    proof {
        assert(m@ =~= "unknown builtin bot "@ + debug_text(name@) + " in --bot "@ + debug_text(spec@)
            + " (expected greedy/filler/random)"@);
    }
    Err(m)
}

/// The `NAME@` prefix split off (see [`split_named_spec`]) and the rest
/// parsed as this family's spec.
pub fn parse_named_bot_spec(spec: &str) -> (r: Result<(Option<String>, BotSpec), String>)
    ensures
        match named_prefix(spec@) {
            None => match r {
                Ok((name, parsed)) => name is None && parsed_as(spec@, Ok(parsed)),
                Err(m) => parsed_as(spec@, Err(m)),
            },
            Some((n, rest)) => if valid_bot_name(n) {
                match r {
                    Ok((name, parsed)) => name matches Some(x) && x@ == n && parsed_as(rest, Ok(parsed)),
                    Err(m) => parsed_as(rest, Err(m)),
                }
            } else {
                r matches Err(m) && m@ == invalid_name_message(n)
            },
        },
{
    let (name, rest) = split_named_spec(spec)?;
    let parsed = parse_bot_spec(rest);
    match parsed {
        Ok(p) => Ok((name, p)),
        Err(m) => Err(m),
    }
}

/// The bot-spec kind carried into the machine-readable report:
/// `builtin:<base name>`, `tcp` or `cmd`.
pub open spec fn spec_kind_text(spec: BotSpec) -> Seq<char> {
    match spec {
        BotSpec::Builtin(kind) => "builtin:"@ + kind.spec_base_name(),
        BotSpec::Tcp(_) => "tcp"@,
        BotSpec::Cmd(_) => "cmd"@,
    }
}

pub fn spec_kind(spec: &BotSpec) -> (r: String)
    ensures
        r@ == spec_kind_text(*spec),
{
    match spec {
        BotSpec::Builtin(kind) => {
            let mut s = String::new();
            push_str(&mut s, "builtin:");
            push_str(&mut s, kind.base_name());
            s
        },
        BotSpec::Tcp(_) => "tcp".to_owned(),
        BotSpec::Cmd(_) => "cmd".to_owned(),
    }
}

/// The name an unnamed spec at position `i` (from zero) defaults to: the
/// builtin kind, `tcp-PORT`, or `bot-N` counting from one.
pub open spec fn default_name_text(spec: BotSpec, i: nat) -> Seq<char> {
    match spec {
        BotSpec::Builtin(kind) => kind.spec_base_name(),
        BotSpec::Tcp(port) => "tcp-"@ + decimal(port as nat),
        BotSpec::Cmd(_) => "bot-"@ + decimal(i + 1),
    }
}

pub fn default_name(spec: &BotSpec, i: usize) -> (r: String)
    requires
        i < usize::MAX,
    ensures
        r@ == default_name_text(*spec, i as nat),
{
    let mut s = String::new();
    match spec {
        BotSpec::Builtin(kind) => push_str(&mut s, kind.base_name()),
        BotSpec::Tcp(port) => {
            push_str(&mut s, "tcp-");
            push_decimal(&mut s, *port as u64);
        },
        BotSpec::Cmd(_) => {
            push_str(&mut s, "bot-");
            push_decimal(&mut s, (i + 1) as u64);
        },
    }
    s
}

} // verus!
