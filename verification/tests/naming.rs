use poker_arena::arena_cli::{field_names, parse_bot_kind, BuiltinKind as BettingKind};
use poker_arena::botspec::{disambiguate, entropy_seed, resolve_seed, split_named_spec};
use poker_arena::ofc_cli::{default_name, parse_bot_spec, parse_named_bot_spec, spec_kind, BotSpec, BuiltinKind};
use poker_arena::run_flags::{reject_betting_flags, BettingFlags, LogFlags};

#[test]
fn duplicate_names_get_unique_suffixes_without_colliding() {
    let names = |v: &[&str]| v.iter().map(|s| s.to_string()).collect::<Vec<_>>();
    assert_eq!(
        disambiguate(&names(&["caller", "random", "caller"])),
        names(&["caller", "random", "caller-2"])
    );
    assert_eq!(
        disambiguate(&names(&["caller", "caller", "caller-2"])),
        names(&["caller", "caller-3", "caller-2"])
    );
    let out = disambiguate(&names(&["x", "x", "x", "x"]));
    let set: std::collections::HashSet<_> = out.iter().collect();
    assert_eq!(set.len(), 4);
}

#[test]
fn later_uses_skip_every_taken_suffix() {
    let names = |v: &[&str]| v.iter().map(|s| s.to_string()).collect::<Vec<_>>();
    assert_eq!(
        disambiguate(&names(&["a", "a-2", "a-3", "a", "a"])),
        names(&["a", "a-2", "a-3", "a-4", "a-5"])
    );
    assert_eq!(disambiguate(&[]), Vec::<String>::new());
}

#[test]
fn a_name_prefix_is_split_off_and_checked() {
    let (name, rest) = split_named_spec("alice@cmd:python3 bot.py").unwrap();
    assert_eq!(name.as_deref(), Some("alice"));
    assert_eq!(rest, "cmd:python3 bot.py");

    let (name, rest) = split_named_spec("cmd:ssh me@host").unwrap();
    assert_eq!(name, None, "an @ after a colon belongs to the spec");
    assert_eq!(rest, "cmd:ssh me@host");

    let (name, rest) = split_named_spec("@builtin:filler").unwrap();
    assert_eq!(name, None);
    assert_eq!(rest, "@builtin:filler");

    let long = format!("{}@builtin:filler", "n".repeat(33));
    let err = split_named_spec(&long).unwrap_err();
    assert_eq!(
        err,
        format!("invalid bot name {:?}: 1..=32 characters, no control characters", "n".repeat(33))
    );
    let err = split_named_spec("a\tb@builtin:filler").unwrap_err();
    assert_eq!(err, "invalid bot name \"a\\tb\": 1..=32 characters, no control characters");
    assert!(split_named_spec(&format!("{}@builtin:filler", "n".repeat(32))).is_ok());
}

#[test]
fn ofc_specs_parse_into_their_kinds() {
    assert_eq!(parse_bot_spec("builtin:greedy"), Ok(BotSpec::Builtin(BuiltinKind::Greedy)));
    assert_eq!(parse_bot_spec("builtin:filler"), Ok(BotSpec::Builtin(BuiltinKind::Filler)));
    assert_eq!(parse_bot_spec("builtin:random"), Ok(BotSpec::Builtin(BuiltinKind::Random(None))));
    assert_eq!(parse_bot_spec("builtin:random:+42"), Ok(BotSpec::Builtin(BuiltinKind::Random(Some(42)))));
    assert_eq!(parse_bot_spec("tcp:9000"), Ok(BotSpec::Tcp(9000)));
    assert_eq!(parse_bot_spec("cmd: python3 bot.py"), Ok(BotSpec::Cmd(" python3 bot.py".to_string())));
}

#[test]
fn an_unknown_builtin_lists_the_chosen_games_family() {
    assert_eq!(
        parse_bot_spec("builtin:folder"),
        Err("unknown builtin bot \"folder\" in --bot \"builtin:folder\" (expected greedy/filler/random)".to_string())
    );
    assert_eq!(
        parse_bot_kind("builtin:greedy"),
        Err("unknown builtin bot \"greedy\" in --bot \"builtin:greedy\" (expected folder/caller/shover/random)".to_string())
    );
}

#[test]
fn malformed_specs_are_refused_with_their_reason() {
    assert_eq!(parse_bot_spec("tcp:70000"), Err("invalid port \"70000\" in --bot \"tcp:70000\"".to_string()));
    assert_eq!(parse_bot_spec("tcp:-1"), Err("invalid port \"-1\" in --bot \"tcp:-1\"".to_string()));
    assert_eq!(parse_bot_spec("cmd:  "), Err("empty command in --bot \"cmd:  \"".to_string()));
    assert_eq!(
        parse_bot_spec("builtin:random:x"),
        Err("invalid seed \"x\" in --bot \"builtin:random:x\"".to_string())
    );
    assert_eq!(
        parse_bot_spec("bogus"),
        Err("unrecognized --bot spec \"bogus\" (expected builtin:<name>, tcp:*, or cmd:*)".to_string())
    );
    assert_eq!(
        parse_bot_spec("builtin:random:18446744073709551616"),
        Err("invalid seed \"18446744073709551616\" in --bot \"builtin:random:18446744073709551616\"".to_string())
    );
    assert_eq!(
        parse_bot_spec("builtin:random:18446744073709551615"),
        Ok(BotSpec::Builtin(BuiltinKind::Random(Some(u64::MAX))))
    );
}

#[test]
fn named_specs_carry_their_name() {
    assert_eq!(
        parse_named_bot_spec("bob@builtin:greedy"),
        Ok((Some("bob".to_string()), BotSpec::Builtin(BuiltinKind::Greedy)))
    );
    assert_eq!(parse_named_bot_spec("tcp:1"), Ok((None, BotSpec::Tcp(1))));
}

#[test]
fn report_kinds_and_default_names() {
    assert_eq!(spec_kind(&BotSpec::Builtin(BuiltinKind::Random(Some(3)))), "builtin:random");
    assert_eq!(spec_kind(&BotSpec::Tcp(5)), "tcp");
    assert_eq!(spec_kind(&BotSpec::Cmd("x".to_string())), "cmd");
    assert_eq!(default_name(&BotSpec::Tcp(9000), 0), "tcp-9000");
    assert_eq!(default_name(&BotSpec::Cmd("x".to_string()), 2), "bot-3");
    assert_eq!(default_name(&BotSpec::Builtin(BuiltinKind::Filler), 1), "filler");
}

#[test]
fn betting_specs_parse_and_wire_bots_wait() {
    assert_eq!(parse_bot_kind("builtin:shover"), Ok(BettingKind::Shover));
    assert_eq!(parse_bot_kind("builtin:random:7"), Ok(BettingKind::Random(Some(7))));
    assert_eq!(parse_bot_kind("tcp:9000"), Err("wire bots arrive in M2".to_string()));
    assert_eq!(parse_bot_kind("cmd:x"), Err("wire bots arrive in M2".to_string()));
}

#[test]
fn a_builtin_field_is_numbered_per_kind() {
    let kinds = [BettingKind::Caller, BettingKind::Random(None), BettingKind::Caller, BettingKind::Caller];
    assert_eq!(field_names(&kinds), vec!["caller", "random", "caller-2", "caller-3"]);
}

#[test]
fn betting_only_flags_are_rejected_for_an_ofc_game() {
    let none = BettingFlags {
        sb: false,
        bb: false,
        ante: false,
        bring_in: false,
        small_bet: false,
        big_bet: false,
        raise_cap: false,
        stack_bb: false,
        dealing: false,
    };
    assert_eq!(reject_betting_flags(&none, "ofc"), Ok(()));
    let err = reject_betting_flags(&BettingFlags { bb: true, ..none }, "ofc").unwrap_err();
    assert_eq!(err, "--bb is not valid for ofc (OFC games have no stakes)");
    let err = reject_betting_flags(&BettingFlags { dealing: true, raise_cap: true, ..none }, "ofc").unwrap_err();
    assert_eq!(err, "--raise-cap is not valid for ofc (OFC has no betting)");
}

#[test]
fn selective_log_flags_need_a_log_file() {
    let flags = LogFlags { log: false, log_sample: None, log_top: Some(3), log_faults: None };
    assert!(flags.selective());
    assert_eq!(flags.check_log(), Err("--log-sample/--log-top/--log-faults require --log FILE".to_string()));
    let zero = LogFlags { log: true, log_sample: Some(0), log_top: None, log_faults: None };
    assert_eq!(zero.check_log(), Err("--log-sample must be >= 1".to_string()));
    let plain = LogFlags { log: true, log_sample: None, log_top: None, log_faults: None };
    assert!(!plain.selective());
    assert_eq!(plain.check_log(), Ok(()));
}

#[test]
fn a_pinned_seed_is_announced_as_is() {
    let (seed, line) = resolve_seed(Some(42), 123, 7);
    assert_eq!(seed, 42);
    assert_eq!(line, "seed: 42");
}

#[test]
fn a_fresh_seed_is_stirred_and_announced_with_how_to_reproduce() {
    // splitmix64 of zero is its well-known first output.
    assert_eq!(entropy_seed(0, 0), 16294208416658607535);
    let (seed, line) = resolve_seed(None, 1_700_000_000_123_456_789, 4242);
    assert_eq!(seed, 7193885497681572261);
    assert_eq!(line, "seed: 7193885497681572261 (pass --seed 7193885497681572261 to reproduce this match)");
    // The process id lands in the high half, so it changes the seed.
    assert_ne!(entropy_seed(5, 1), entropy_seed(5, 2));
}
