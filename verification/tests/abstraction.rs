use poker_arena::abstraction::{
    bet_sequences, bucket_table, menu, plan, BettingKind, ForcedBets, GameSpec, StreetSpec,
};

#[test]
fn fixed_limit_street_has_17_sequences() {
    assert_eq!(bet_sequences(1, 4, false), 17);
}

#[test]
fn big_bet_street_has_25_sequences() {
    assert_eq!(bet_sequences(2, 2, false), 25);
}

#[test]
fn bring_in_street_has_16_sequences() {
    assert_eq!(bet_sequences(1, 4, true), 16);
}

#[test]
fn capped_fixed_limit_streets_shrink_with_the_cap() {
    assert_eq!(bet_sequences(1, 1, false), 5);
    assert_eq!(bet_sequences(1, 2, false), 9);
    assert!(bet_sequences(1, 3, false) < bet_sequences(1, 4, false));
}

#[test]
fn menus_follow_the_betting_structure() {
    assert_eq!(menu(BettingKind::FixedLimit { raise_cap: None }), (1, 4));
    assert_eq!(menu(BettingKind::FixedLimit { raise_cap: Some(3) }), (1, 3));
    assert_eq!(menu(BettingKind::NoLimit), (2, 2));
    assert_eq!(menu(BettingKind::PotLimit), (2, 2));
}

#[test]
fn every_known_game_has_a_bucket_table() {
    assert_eq!(bucket_table("holdem-fl"), Some(vec![169, 40, 40, 40]));
    assert_eq!(bucket_table("stud8-fl"), Some(vec![1, 30, 12, 12, 12, 12]));
    assert_eq!(bucket_table("drawmaha-dugi-fl"), Some(vec![30, 15, 12, 15, 15]));
    assert_eq!(bucket_table("no-such-game"), None);
}

#[test]
fn every_game_has_an_explicit_bucket_table() {
    // The registered betting variants (the game engine's registry is not
    // linked here, so they are listed).
    let known_ids = [
        "holdem-nl", "holdem-fl", "omaha-pl", "omaha8-pl", "omaha8-fl", "bigo-pl", "stud-fl",
        "stud8-fl", "razz-fl", "27td-fl", "a5td-fl", "badugi-fl", "5cd-nl", "badacey-fl",
        "badeucy-fl", "archie-fl", "drawmaha-fl", "drawmaha-27-fl", "drawmaha-dugi-fl", "27sd-nl",
    ];
    for id in known_ids {
        assert!(bucket_table(id).is_some(), "{id} missing bucket table");
    }
}

#[test]
fn stud_plan_opens_with_a_bring_in_street() {
    let street = |label: &'static str, betting: bool| StreetSpec {
        label,
        betting,
        draw_max: None,
    };
    let spec = GameSpec {
        id: "stud-fl",
        betting: BettingKind::FixedLimit { raise_cap: None },
        forced_bets: ForcedBets::BringIn,
        streets: vec![
            street("deal", false),
            street("third", true),
            street("fourth", true),
            street("fifth", true),
            street("sixth", true),
            street("seventh", true),
        ],
    };
    let p = plan(&spec);
    assert_eq!(p.game_id, "stud-fl");
    assert_eq!(p.streets.len(), 6);
    assert_eq!(p.streets[0].bet_sequences, 1);
    assert_eq!(p.streets[0].buckets, 1);
    assert_eq!(p.streets[1].bet_sequences, 16);
    assert_eq!(p.streets[1].buckets, 30);
    assert_eq!(p.streets[2].bet_sequences, 17);
    assert_eq!(p.streets[5].label, "seventh");
}

#[test]
fn draw_streets_branch_on_the_discard_count() {
    let spec = GameSpec {
        id: "27td-fl",
        betting: BettingKind::FixedLimit { raise_cap: None },
        forced_bets: ForcedBets::Blinds,
        streets: vec![
            StreetSpec { label: "predraw", betting: true, draw_max: None },
            StreetSpec { label: "draw 1", betting: true, draw_max: Some(5) },
        ],
    };
    let p = plan(&spec);
    assert_eq!(p.streets[0].draw_options, 1);
    assert_eq!(p.streets[1].draw_options, 6);
    assert_eq!(p.streets[0].bet_sequences, 17);
    assert_eq!(p.streets[0].buckets, 50);
    assert_eq!(p.streets[1].buckets, 10);
}

#[test]
fn an_unknown_game_plans_one_bucket_per_street() {
    let spec = GameSpec {
        id: "mystery",
        betting: BettingKind::NoLimit,
        forced_bets: ForcedBets::Blinds,
        streets: vec![StreetSpec { label: "only", betting: true, draw_max: None }],
    };
    let p = plan(&spec);
    assert_eq!(p.streets[0].buckets, 1);
    assert_eq!(p.streets[0].bet_sequences, 25);
}
