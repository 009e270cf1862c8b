use poker_arena::abstraction::BettingKind;
use poker_arena::blueprint::{Abs, Kind};
use poker_arena::discards::EvalKind;
use poker_arena::sim::{final_counts, DealSpec, FirstToAct, ForcedBets, RoundSpec, Sim, SimGame, State, StreetRules};
use poker_arena::table::Card;

/// A small deterministic generator (splitmix64) for decks and playouts.
struct TestRng(u64);

impl TestRng {
    fn below(&mut self, n: u64) -> u64 {
        self.0 = self.0.wrapping_add(0x9E37_79B9_7F4A_7C15);
        let mut z = self.0;
        z = (z ^ (z >> 30)).wrapping_mul(0xBF58_476D_1CE4_E5B9);
        z = (z ^ (z >> 27)).wrapping_mul(0x94D0_49BB_1331_11EB);
        (z ^ (z >> 31)) % n
    }

    fn deck(&mut self) -> Vec<Card> {
        let mut deck: Vec<Card> =
            (0..52u8).map(|i| Card { rank: i / 4, suit: i % 4 }).collect();
        for i in (1..deck.len()).rev() {
            let j = self.below(i as u64 + 1) as usize;
            deck.swap(i, j);
        }
        deck
    }
}

fn street(deal: DealSpec, betting: Option<(u64, FirstToAct)>) -> StreetRules {
    StreetRules {
        deal,
        betting: betting.map(|(tier_size, first_to_act)| RoundSpec { tier_size, first_to_act }),
    }
}

fn holdem(betting: BettingKind) -> SimGame {
    SimGame {
        betting,
        forced_bets: ForcedBets::Blinds { ante: 0 },
        small_blind: 50,
        big_blind: 100,
        hi_kind: EvalKind::High,
        streets: vec![
            street(DealSpec::HolePrivate(2), Some((100, FirstToAct::AfterBlinds))),
            street(DealSpec::Community(3), Some((100, FirstToAct::LeftOfButton))),
            street(DealSpec::Community(1), Some((200, FirstToAct::LeftOfButton))),
            street(DealSpec::Community(1), Some((200, FirstToAct::LeftOfButton))),
        ],
    }
}

fn stud() -> SimGame {
    SimGame {
        betting: BettingKind::FixedLimit { raise_cap: Some(4) },
        forced_bets: ForcedBets::BringIn { ante: 10, bring_in: 25, low: false },
        small_blind: 50,
        big_blind: 100,
        hi_kind: EvalKind::High,
        streets: vec![
            street(DealSpec::HolePrivate(2), None),
            street(DealSpec::HoleUp(1), Some((100, FirstToAct::ByUpcards))),
            street(DealSpec::HoleUp(1), Some((100, FirstToAct::ByUpcards))),
            street(DealSpec::HoleUp(1), Some((200, FirstToAct::ByUpcards))),
            street(DealSpec::HoleUp(1), Some((200, FirstToAct::ByUpcards))),
            street(DealSpec::HolePrivate(1), Some((200, FirstToAct::ByUpcards))),
        ],
    }
}

fn triple_draw() -> SimGame {
    SimGame {
        betting: BettingKind::FixedLimit { raise_cap: Some(4) },
        forced_bets: ForcedBets::Blinds { ante: 0 },
        small_blind: 50,
        big_blind: 100,
        hi_kind: EvalKind::DeuceToSevenLow,
        streets: vec![
            street(DealSpec::HolePrivate(5), Some((100, FirstToAct::AfterBlinds))),
            street(DealSpec::Draw { max: 5 }, Some((100, FirstToAct::LeftOfButton))),
            street(DealSpec::Draw { max: 5 }, Some((200, FirstToAct::LeftOfButton))),
            street(DealSpec::Draw { max: 5 }, Some((200, FirstToAct::LeftOfButton))),
        ],
    }
}

fn sim(game: SimGame) -> Sim {
    Sim::new(game, 10_000)
}

/// Plays a full hand with uniform action choice; the walk must end.
fn random_playout(sim: &Sim, rng: &mut TestRng) {
    let mut state = State::new_hand(sim, rng.deck());
    let mut steps = 0;
    while !state.is_terminal() {
        let actions = state.actions(sim);
        assert!(!actions.is_empty(), "decision point with no actions");
        let pick = actions[rng.below(actions.len() as u64) as usize];
        state = state.apply(sim, pick);
        steps += 1;
        assert!(steps < 200, "hand did not terminate");
    }
    // Nothing beyond the stacks is ever committed.
    assert!(state.committed(0) <= 10_000 && state.committed(1) <= 10_000);
}

#[test]
fn every_game_plays_random_hands_to_completion() {
    let games = [
        holdem(BettingKind::NoLimit),
        holdem(BettingKind::FixedLimit { raise_cap: Some(4) }),
        holdem(BettingKind::PotLimit),
        stud(),
        triple_draw(),
    ];
    for game in games {
        let sim = sim(game);
        let mut rng = TestRng(11);
        for _ in 0..200 {
            random_playout(&sim, &mut rng);
        }
    }
}

#[test]
fn preflop_starts_with_blinds_and_button_to_act() {
    let sim = sim(holdem(BettingKind::NoLimit));
    let mut rng = TestRng(1);
    let state = State::new_hand(&sim, rng.deck());
    assert_eq!(state.actor(), 0, "heads-up button acts first preflop");
    assert_eq!(state.kind(&sim), Kind::Wager);
    let actions = state.actions(&sim);
    assert!(actions.contains(&Abs::Fold));
    assert!(actions.contains(&Abs::CheckCall));
    assert!(actions.contains(&Abs::BetPot));
    assert!(actions.contains(&Abs::AllIn));
    assert_eq!(state.committed(0), 50);
    assert_eq!(state.committed(1), 100);
}

#[test]
fn fixed_limit_offers_one_size_and_respects_the_cap() {
    let sim = sim(holdem(BettingKind::FixedLimit { raise_cap: Some(4) }));
    let mut rng = TestRng(2);
    let mut state = State::new_hand(&sim, rng.deck());
    // Raise the maximum number of times; the menu must run dry.
    let mut raises = 0;
    loop {
        let actions = state.actions(&sim);
        if let Some(bet) = actions.iter().find(|a| matches!(a, Abs::BetFixed)) {
            state = state.apply(&sim, *bet);
            raises += 1;
            assert!(raises <= 4, "cap of 4 wagers exceeded");
        } else {
            break;
        }
    }
    assert_eq!(raises, 3, "blind counts as the first of 4 wagers");
}

#[test]
fn stud_hands_open_with_a_bring_in_decision() {
    let sim = sim(stud());
    let mut rng = TestRng(3);
    let state = State::new_hand(&sim, rng.deck());
    assert_eq!(state.kind(&sim), Kind::BringIn);
    assert_eq!(state.actions(&sim), vec![Abs::BringIn, Abs::BetFixed]);
}

#[test]
fn draw_games_ask_for_counts_in_seat_order() {
    let sim = sim(triple_draw());
    let mut rng = TestRng(4);
    let mut state = State::new_hand(&sim, rng.deck());
    // Call/check through predraw betting to reach the draw phase.
    let mut steps = 0;
    while state.kind(&sim) != Kind::Draw {
        state = state.apply(&sim, Abs::CheckCall);
        steps += 1;
        assert!(steps < 10, "never reached a draw phase");
    }
    assert_eq!(state.actor(), 1, "left of the button draws first");
    assert_eq!(state.actions(&sim).len(), 6, "0..=5 discards");
    let hand_before: Vec<Card> = state.hole(1).clone();
    let after = state.apply(&sim, Abs::Draw(2));
    assert_eq!(after.hole(1).len(), 5);
    assert_ne!(after.hole(1), &hand_before);
    assert!(after.path().contains("g2"));
}

#[test]
fn utilities_are_zero_sum_on_folds() {
    let sim = sim(holdem(BettingKind::NoLimit));
    let mut rng = TestRng(5);
    let state = State::new_hand(&sim, rng.deck());
    let folded = state.apply(&sim, Abs::Fold);
    assert!(folded.is_terminal());
    // The folder loses what it committed, the other seat wins it.
    assert_eq!(folded.folded(), Some(0));
    assert_eq!(-(folded.committed(0) as i64), -50, "button folds the small blind");
}

#[test]
fn a_stud_round_completes_to_the_small_bet_and_all_in_locks_betting() {
    let stud_sim = sim(stud());
    let mut rng = TestRng(6);
    let state = State::new_hand(&stud_sim, rng.deck());
    let opener = state.actor();
    let completed = state.apply(&stud_sim, Abs::BetFixed);
    assert_eq!(completed.committed(opener), 10 + 100, "ante plus a completion to one small bet");
    assert_eq!(completed.path(), "b");

    let nl = sim(holdem(BettingKind::NoLimit));
    let state = State::new_hand(&nl, rng.deck());
    let shoved = state.apply(&nl, Abs::AllIn);
    assert_eq!(shoved.committed(0), 10_000);
    let called = shoved.apply(&nl, Abs::CheckCall);
    // Nothing left to bet: the board runs out to the end of the hand.
    assert!(called.is_terminal());
    assert_eq!(called.board().len(), 5);
    assert_eq!(called.folded(), None);
}

#[test]
fn final_counts_match_the_specs() {
    let omaha = SimGame {
        streets: vec![
            street(DealSpec::HolePrivate(4), Some((100, FirstToAct::AfterBlinds))),
            street(DealSpec::Community(3), Some((100, FirstToAct::LeftOfButton))),
            street(DealSpec::Community(1), Some((200, FirstToAct::LeftOfButton))),
            street(DealSpec::Community(1), Some((200, FirstToAct::LeftOfButton))),
        ],
        ..holdem(BettingKind::PotLimit)
    };
    let drawmaha = SimGame {
        streets: vec![
            street(DealSpec::HolePrivate(5), Some((100, FirstToAct::AfterBlinds))),
            street(DealSpec::Community(3), Some((100, FirstToAct::LeftOfButton))),
            street(DealSpec::Community(1), Some((200, FirstToAct::LeftOfButton))),
            street(DealSpec::Community(1), Some((200, FirstToAct::LeftOfButton))),
            street(DealSpec::Draw { max: 5 }, Some((200, FirstToAct::LeftOfButton))),
        ],
        ..holdem(BettingKind::FixedLimit { raise_cap: Some(4) })
    };
    assert_eq!(final_counts(&holdem(BettingKind::NoLimit)), (2, 5));
    assert_eq!(final_counts(&omaha), (4, 5));
    assert_eq!(final_counts(&stud()), (7, 0));
    assert_eq!(final_counts(&triple_draw()), (5, 0));
    assert_eq!(final_counts(&drawmaha), (5, 5));
}
