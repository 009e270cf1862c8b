use poker_arena::bot::{
    caller_action, samples, sized_to, Decision, check_fold_substitute, families, random_action, Action, BetBounds, Caller, DrawBounds, Family, Folder,
    LegalActions, Shover,
};

fn facing_bet() -> LegalActions {
    LegalActions {
        fold: true,
        check: false,
        call: Some(50),
        bet: None,
        raise: Some(BetBounds { min_to: 100, max_to: 1000 }),
        bring_in: None,
        draw: None,
    }
}

fn free_check() -> LegalActions {
    LegalActions {
        fold: false,
        check: true,
        call: None,
        bet: Some(BetBounds { min_to: 20, max_to: 1000 }),
        raise: None,
        bring_in: None,
        draw: None,
    }
}

fn bet_available_only() -> LegalActions {
    LegalActions {
        fold: false,
        check: true,
        call: None,
        bet: Some(BetBounds { min_to: 20, max_to: 500 }),
        raise: None,
        bring_in: None,
        draw: None,
    }
}

fn raise_capped() -> LegalActions {
    LegalActions {
        fold: true,
        check: false,
        call: Some(30),
        bet: None,
        raise: Some(BetBounds { min_to: 45, max_to: 45 }),
        bring_in: None,
        draw: None,
    }
}

fn draw_only(max: u8) -> LegalActions {
    LegalActions {
        fold: false,
        check: false,
        call: None,
        bet: None,
        raise: None,
        bring_in: None,
        draw: Some(DrawBounds { max_discards: max }),
    }
}

fn bring_in_offered(bring_in: u64, completion: u64) -> LegalActions {
    LegalActions {
        fold: false,
        check: false,
        call: None,
        bet: Some(BetBounds { min_to: completion, max_to: completion }),
        raise: None,
        bring_in: Some(bring_in),
        draw: None,
    }
}

#[test]
fn folder_checks_when_free() {
    let bot = Folder::new("folder".to_string());
    assert_eq!(bot.act(&free_check()).unwrap(), Action::Check);
}

#[test]
fn folder_folds_when_facing_bet() {
    let bot = Folder::new("folder".to_string());
    assert_eq!(bot.act(&facing_bet()).unwrap(), Action::Fold);
}

#[test]
fn folder_stands_pat_on_draw() {
    let bot = Folder::new("folder".to_string());
    assert_eq!(bot.act(&draw_only(3)).unwrap(), Action::Discard { cards: Vec::new() });
}

#[test]
fn folder_posts_bring_in() {
    let bot = Folder::new("folder".to_string());
    assert_eq!(bot.act(&bring_in_offered(5, 10)).unwrap(), Action::BringIn);
}

#[test]
fn caller_checks_when_free() {
    let bot = Caller::new("caller".to_string());
    assert_eq!(bot.act(&free_check()).unwrap(), Action::Check);
}

#[test]
fn caller_calls_when_facing_bet() {
    let bot = Caller::new("caller".to_string());
    assert_eq!(bot.act(&facing_bet()).unwrap(), Action::Call);
}

#[test]
fn caller_stands_pat_on_draw() {
    let bot = Caller::new("caller".to_string());
    assert_eq!(bot.act(&draw_only(5)).unwrap(), Action::Discard { cards: Vec::new() });
}

#[test]
fn caller_posts_bring_in() {
    let bot = Caller::new("caller".to_string());
    assert_eq!(bot.act(&bring_in_offered(5, 10)).unwrap(), Action::BringIn);
}

#[test]
fn shover_raises_to_max_when_facing_bet() {
    let bot = Shover::new("shover".to_string());
    assert_eq!(bot.act(&facing_bet()).unwrap(), Action::Raise { to: 1000 });
}

#[test]
fn shover_bets_to_max_when_bet_available() {
    let bot = Shover::new("shover".to_string());
    assert_eq!(bot.act(&bet_available_only()).unwrap(), Action::Bet { to: 500 });
}

#[test]
fn shover_handles_min_eq_max_short_allin_raise() {
    let bot = Shover::new("shover".to_string());
    assert_eq!(bot.act(&raise_capped()).unwrap(), Action::Raise { to: 45 });
}

#[test]
fn shover_calls_when_no_bet_or_raise_offered() {
    let legal = LegalActions {
        fold: true,
        check: false,
        call: Some(20),
        bet: None,
        raise: None,
        bring_in: None,
        draw: None,
    };
    let bot = Shover::new("shover".to_string());
    assert_eq!(bot.act(&legal).unwrap(), Action::Call);
}

#[test]
fn shover_checks_when_nothing_else_offered() {
    let legal = LegalActions {
        fold: false,
        check: true,
        call: None,
        bet: None,
        raise: None,
        bring_in: None,
        draw: None,
    };
    let bot = Shover::new("shover".to_string());
    assert_eq!(bot.act(&legal).unwrap(), Action::Check);
}

#[test]
fn shover_stands_pat_on_draw() {
    let bot = Shover::new("shover".to_string());
    assert_eq!(bot.act(&draw_only(4)).unwrap(), Action::Discard { cards: Vec::new() });
}

#[test]
fn shover_completes_the_bring_in() {
    let bot = Shover::new("shover".to_string());
    assert_eq!(bot.act(&bring_in_offered(5, 10)).unwrap(), Action::Bet { to: 10 });
}

#[test]
fn the_fault_substitute_is_the_folders_answer() {
    let folder = Folder::new("folder".to_string());
    for legal in [
        facing_bet(),
        free_check(),
        bet_available_only(),
        raise_capped(),
        draw_only(2),
        bring_in_offered(5, 10),
    ] {
        assert_eq!(check_fold_substitute(&legal), folder.act(&legal).unwrap());
    }
}

#[test]
fn bots_keep_their_names() {
    assert_eq!(Folder::new("f".to_string()).name(), "f");
    assert_eq!(Caller::new("c".to_string()).name(), "c");
    assert_eq!(Shover::new("s".to_string()).name(), "s");
}


#[test]
fn sized_to_respects_bounds() {
    let bounds = BetBounds { min_to: 200, max_to: 500 };
    assert_eq!(sized_to(bounds, 10_000, 100), 500, "clamped to max");
    assert_eq!(sized_to(bounds, 0, 0), 200, "clamped to min");
    let single = BetBounds { min_to: 300, max_to: 300 };
    assert_eq!(sized_to(single, 1_000, 100), 300, "single legal total");
}

#[test]
fn pot_sized_totals_inside_the_bounds_are_kept() {
    let bounds = BetBounds { min_to: 0, max_to: 10_000 };
    assert_eq!(sized_to(bounds, 300, 0), 200, "two thirds of the pot");
    assert_eq!(sized_to(bounds, 300, 100), 500, "call, then the pot after calling");
}

#[test]
fn the_floor_strategy_checks_calls_or_folds() {
    assert_eq!(caller_action(&Decision::Wager { check: true, call: None }), Action::Check);
    assert_eq!(caller_action(&Decision::Wager { check: false, call: Some(5) }), Action::Call);
    assert_eq!(caller_action(&Decision::Wager { check: false, call: None }), Action::Fold);
    assert_eq!(caller_action(&Decision::Draw { max_discards: 3 }), Action::Discard { cards: Vec::new() });
    assert_eq!(caller_action(&Decision::BringIn), Action::BringIn);
}

/// The random bot's source of draws in these tests: splitmix64 from a seed.
struct Draws(u64);

impl Draws {
    fn below(&mut self, n: u64) -> u64 {
        self.0 = self.0.wrapping_add(0x9E37_79B9_7F4A_7C15);
        let mut z = self.0;
        z = (z ^ (z >> 30)).wrapping_mul(0xBF58_476D_1CE4_E5B9);
        z = (z ^ (z >> 27)).wrapping_mul(0x94D0_49BB_1331_11EB);
        (z ^ (z >> 31)) % n
    }

    /// Draws what the random bot needs for `legal` and returns its action.
    fn act(&mut self, legal: &LegalActions, hole: &[u8]) -> Action {
        if let Some(bounds) = legal.draw {
            let k = self.below(bounds.max_discards as u64 + 1);
            let mut shuffled = hole.to_vec();
            for i in (1..shuffled.len()).rev() {
                let j = self.below(i as u64 + 1) as usize;
                shuffled.swap(i, j);
            }
            return random_action(legal, &shuffled, k, 0);
        }
        if legal.bring_in.is_some() {
            let coin = self.below(2);
            return random_action(legal, &[], coin, 0);
        }
        let offered = families(legal);
        let pick = self.below(offered.len() as u64);
        let offset = match offered[pick as usize] {
            Family::Bet(b) | Family::Raise(b) => self.below(b.max_to - b.min_to + 1),
            _ => 0,
        };
        random_action(legal, &[], pick, offset)
    }
}

fn full_menu() -> LegalActions {
    facing_bet()
}

#[test]
fn random_stays_in_bounds_and_covers_families() {
    let mut draws = Draws(7);
    let legal = full_menu();
    let mut saw_check = false;
    let mut saw_call = false;
    let mut saw_fold = false;
    let mut saw_raise = false;

    for _ in 0..2000 {
        match draws.act(&legal, &[]) {
            Action::Check => saw_check = true,
            Action::Call => saw_call = true,
            Action::Fold => saw_fold = true,
            Action::Raise { to } => {
                saw_raise = true;
                assert!((100..=1000).contains(&to), "raise `to` out of bounds: {to}");
            }
            other => panic!("unexpected action from full menu: {other:?}"),
        }
    }

    // `full_menu` offers fold/call/raise only (no free check).
    assert!(!saw_check);
    assert!(saw_call);
    assert!(saw_fold);
    assert!(saw_raise);
}

#[test]
fn random_bet_to_stays_in_bounds() {
    let mut draws = Draws(99);
    let legal = bet_available_only();
    for _ in 0..500 {
        match draws.act(&legal, &[]) {
            Action::Check => {}
            Action::Bet { to } => assert!((20..=500).contains(&to)),
            other => panic!("unexpected action: {other:?}"),
        }
    }
}

#[test]
fn random_handles_min_eq_max_bounds() {
    let mut draws = Draws(3);
    let legal = raise_capped();
    for _ in 0..200 {
        match draws.act(&legal, &[]) {
            Action::Fold | Action::Call => {}
            Action::Raise { to } => assert_eq!(to, 45),
            other => panic!("unexpected action: {other:?}"),
        }
    }
}

#[test]
fn random_draw_discards_a_distinct_subset_of_its_hole_within_bounds() {
    let mut draws = Draws(11);
    let legal = draw_only(3);
    // 2c 5d 9h Js Ac as deck indices.
    let hole: Vec<u8> = vec![0, 13, 30, 39, 48];
    let mut saw_zero = false;
    let mut saw_nonzero = false;

    for _ in 0..500 {
        match draws.act(&legal, &hole) {
            Action::Discard { cards } => {
                assert!(cards.len() <= 3, "discarded more than max_discards");
                let mut seen = Vec::new();
                for c in &cards {
                    assert!(!seen.contains(c), "duplicate card discarded: {c:?}");
                    assert!(hole.contains(c), "discarded a card not held");
                    seen.push(*c);
                }
                if cards.is_empty() {
                    saw_zero = true;
                } else {
                    saw_nonzero = true;
                }
            }
            other => panic!("unexpected action from a draw decision: {other:?}"),
        }
    }
    assert!(saw_zero, "never stood pat over 500 draws");
    assert!(saw_nonzero, "never discarded anything over 500 draws");
}

#[test]
fn random_bring_in_covers_both_choices_and_stays_in_bounds() {
    let mut draws = Draws(4);
    let legal = bring_in_offered(5, 10);
    let mut saw_bring_in = false;
    let mut saw_completion = false;

    for _ in 0..200 {
        match draws.act(&legal, &[]) {
            Action::BringIn => saw_bring_in = true,
            Action::Bet { to } => {
                assert_eq!(to, 10);
                saw_completion = true;
            }
            other => panic!("unexpected action from a bring-in decision: {other:?}"),
        }
    }
    assert!(saw_bring_in);
    assert!(saw_completion);
}

#[test]
fn random_draws_map_to_exact_actions() {
    let legal = full_menu();
    assert_eq!(families(&legal), vec![Family::Call, Family::Fold, Family::Raise(BetBounds { min_to: 100, max_to: 1000 })]);
    assert_eq!(random_action(&legal, &[], 0, 0), Action::Call);
    assert_eq!(random_action(&legal, &[], 1, 0), Action::Fold);
    assert_eq!(random_action(&legal, &[], 2, 250), Action::Raise { to: 350 });
    assert_eq!(random_action(&bet_available_only(), &[], 1, 480), Action::Bet { to: 500 });
    assert_eq!(random_action(&bring_in_offered(5, 10), &[], 0, 0), Action::BringIn);
    assert_eq!(random_action(&bring_in_offered(5, 10), &[], 1, 0), Action::Bet { to: 10 });
    assert_eq!(random_action(&draw_only(3), &[7, 3, 9], 2, 0), Action::Discard { cards: vec![7, 3] });
    assert_eq!(random_action(&draw_only(5), &[7, 3], 5, 0), Action::Discard { cards: vec![7, 3] });
}

#[test]
fn tight_deadlines_shrink_the_rollout_budget() {
    assert_eq!(samples(320, None), 320);
    assert_eq!(samples(320, Some(1000)), 320);
    assert_eq!(samples(320, Some(499)), 160);
    assert_eq!(samples(320, Some(149)), 80);
    assert_eq!(samples(60, Some(100)), 16, "never fewer than 16");
}
