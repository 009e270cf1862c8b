use poker_arena::bot::{DealingMode, Progress};
use poker_arena::ledger::{
    bot_record_by_seat, check_bot_entries, check_start, nets_by_bot, points_by_bot, rotations, seat_record_by_bot,
    MatchLedger, OfcLedger, StartError,
};
use poker_arena::seating::{seat_of_bot, Seating};

#[test]
fn seeded_decks_play_one_rotation_and_duplicate_decks_play_all() {
    assert_eq!(rotations(DealingMode::Seeded, 7, 3), vec![1]);
    assert_eq!(rotations(DealingMode::Seeded, 9, 3), vec![0]);
    assert_eq!(rotations(DealingMode::Duplicate, 7, 3), vec![0, 1, 2]);
    assert_eq!(rotations(DealingMode::Duplicate, 0, 1), vec![0]);
}

#[test]
fn settlements_reach_the_bots_that_held_the_seats() {
    // Bot 0 sits at seat 2, bot 1 at seat 0, bot 2 at seat 1 (rotation 0).
    let seating = Seating::from_arrangement(vec![2, 0, 1]);
    let seat_nets = [150, -100, -50];
    assert_eq!(nets_by_bot(&seating, 0, &seat_nets), vec![-50, 150, -100]);
    // Rotation 1 moves every bot one seat on.
    assert_eq!(nets_by_bot(&seating, 1, &seat_nets), vec![150, -100, -50]);
    assert_eq!(nets_by_bot(&seating, 1, &seat_nets).iter().sum::<i64>(), 0);
}

#[test]
fn the_ledger_keeps_totals_deck_sums_and_progress() {
    let mut ledger = MatchLedger::new(2);
    ledger.record_hand(&[100, -100]);
    ledger.record_hand(&[-30, 30]);
    assert_eq!(ledger.totals, vec![70, -70]);
    let (sums, progress) = ledger.finish_deck();
    assert_eq!(sums, vec![70, -70]);
    assert_eq!(progress, Progress { decks_done: 1, hands_done: 2 });
    assert_eq!(ledger.deck_sums, vec![0, 0]);
    ledger.record_hand(&[5, -5]);
    ledger.forfeit(1);
    assert_eq!(ledger.forfeited_by, Some(1));
    assert_eq!(ledger.totals, vec![75, -75]);
    assert_eq!(ledger.deck_sums, vec![0, 0], "a forfeit discards the interrupted deck");
    assert_eq!(ledger.hands_played, 3);
    assert_eq!(ledger.decks_done, 1);
}

#[test]
fn ofc_points_reach_the_bots_that_held_the_seats() {
    // Hand 1 of three: bot b sits at seat (b + 1) % 3.
    let by_bot = points_by_bot(1, &[6, -2, -4]);
    assert_eq!(by_bot, vec![-2, -4, 6]);
    for bot in 0..3 {
        assert_eq!(by_bot[bot], [6, -2, -4][seat_of_bot(1, bot, 3)]);
    }
    assert_eq!(seat_record_by_bot(1, &[true, false, false]), vec![false, false, true]);
    // Fantasyland counts by bot are dealt to the seats they hold.
    assert_eq!(bot_record_by_seat(1, &[Some(14), None, None]), vec![None, Some(14), None]);
}

#[test]
fn the_ofc_ledger_counts_fouls_fantasylands_scoops_and_royalties() {
    let mut ledger = OfcLedger::new(2);
    ledger.start_hand();
    assert_eq!(ledger.fantasylands, vec![0, 0]);
    ledger.record_hand(&[7, -7], &[false, true], &[1, 0], &[4, 0], vec![Some(14), None]);
    ledger.start_hand();
    assert_eq!(ledger.fantasylands, vec![1, 0]);
    ledger.record_hand(&[-3, 3], &[false, false], &[0, 0], &[2, 6], vec![None, None]);
    assert_eq!(ledger.totals, vec![4, -4]);
    assert_eq!(ledger.fouls, vec![0, 1]);
    assert_eq!(ledger.scoops, vec![1, 0]);
    assert_eq!(ledger.royalties, vec![6, 6]);
    assert_eq!(ledger.fantasyland, vec![None, None]);
    assert_eq!(ledger.hands_played, 2);
    ledger.forfeit(0);
    assert_eq!(ledger.forfeited_by, Some(0));
}

#[test]
fn rejects_bot_count_outside_seat_range() {
    let r = check_start(1, "holdem-nl", 2, 9, 1);
    assert!(matches!(r, Err(StartError::SeatCount { bots: 1, .. })));
    assert_eq!(check_start(10, "holdem-nl", 2, 9, 1), Err(StartError::SeatCount { bots: 10, game: "holdem-nl", min: 2, max: 9 }));
    assert_eq!(check_start(2, "holdem-nl", 2, 9, 1), Ok(()));
}

#[test]
fn rejects_bot_count_outside_the_seat_range() {
    let r = check_start(1, "ofc", 2, 3, 5);
    assert!(matches!(r, Err(StartError::SeatCount { bots: 1, .. })));
}

#[test]
fn runner_rejects_empty_match() {
    assert_eq!(check_start(2, "holdem-nl", 2, 9, 0), Err(StartError::Empty));
    // The seat check comes first.
    assert!(matches!(check_start(1, "holdem-nl", 2, 9, 0), Err(StartError::SeatCount { .. })));
}

#[test]
fn start_errors_read_as_the_runner_words_them() {
    let e = StartError::SeatCount { bots: 1, game: "ofc", min: 2, max: 3 };
    assert_eq!(e.message("hands"), "1 bots given, but ofc supports 2..=3 seats");
    assert_eq!(StartError::Empty.message("decks"), "match config has no decks to play (decks == 0)");
    assert_eq!(check_bot_entries(4, "ofc-pineapple", 2, 3), Err("4 --bot entries given, but ofc-pineapple supports 2..=3 seats".to_string()));
    assert_eq!(check_bot_entries(2, "ofc-pineapple", 2, 3), Ok(()));
}
