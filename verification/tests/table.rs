use poker_arena::bot::Action;
use poker_arena::discards::{bring_in_seat, can_still_qualify, lead_seat, ranked_discards, EvalKind};
use poker_arena::table::{Card, Table, TableEvent};

fn card(text: &str) -> Card {
    let mut chars = text.chars();
    let rank = "23456789TJQKA".find(chars.next().unwrap()).unwrap() as u8;
    let suit = "cdhs".find(chars.next().unwrap()).unwrap() as u8;
    Card { rank, suit }
}

fn parse_cards(text: &str) -> Vec<Card> {
    text.split_whitespace().map(card).collect()
}

fn deal(seat: usize, cards: &str, table: &mut Table) {
    let cards = parse_cards(cards);
    let count = cards.len() as u8;
    let cards = if seat == table.seat { cards } else { Vec::new() };
    table.observe(&TableEvent::DealHole { seat, cards, count });
}

fn blind(seat: usize, amount: u64) -> TableEvent {
    TableEvent::Post { seat, ante: false, amount }
}

#[test]
fn blinds_and_preflop_action_produce_the_right_pot() {
    let mut table = Table::default();
    table.hand_start(0, 2);
    table.observe(&TableEvent::HandStart { stacks: vec![10_000, 10_000] });
    table.observe(&blind(0, 50));
    table.observe(&blind(1, 100));
    table.observe(&TableEvent::StreetStart);
    deal(0, "As Kd", &mut table);
    deal(1, "2c 2d", &mut table);

    assert_eq!(table.pot(), 150);
    assert_eq!(table.hole, parse_cards("As Kd"));
    assert_eq!(table.hidden_counts[1], 2);

    table.observe(&TableEvent::Acted { seat: 0, action: Action::Call, street_commit: 100 });
    assert_eq!(table.pot(), 200);
    assert_eq!(table.my_street_commit(), 100);

    table.observe(&TableEvent::Acted { seat: 1, action: Action::Raise { to: 300 }, street_commit: 300 });
    assert_eq!(table.pot(), 400);
}

#[test]
fn street_start_rebases_commitments() {
    let mut table = Table::default();
    table.hand_start(1, 2);
    table.observe(&blind(0, 50));
    table.observe(&blind(1, 100));
    table.observe(&TableEvent::StreetStart);
    table.observe(&TableEvent::Acted { seat: 0, action: Action::Call, street_commit: 100 });
    table.observe(&TableEvent::StreetStart);
    assert_eq!(table.my_street_commit(), 0);

    table.observe(&TableEvent::Acted { seat: 1, action: Action::Bet { to: 200 }, street_commit: 200 });
    assert_eq!(table.pot(), 400);
    assert_eq!(table.my_street_commit(), 200);
}

#[test]
fn draw_results_replace_hole_cards_and_folds_are_tracked() {
    let mut table = Table::default();
    table.hand_start(0, 2);
    deal(0, "2c 3c 4c 5c Kd", &mut table);
    table.observe(&TableEvent::DrawResult {
        seat: 0,
        discarded: parse_cards("Kd"),
        drawn: parse_cards("6c"),
    });
    assert_eq!(table.hole, parse_cards("2c 3c 4c 5c 6c"));

    table.observe(&TableEvent::Acted { seat: 1, action: Action::Fold, street_commit: 0 });
    assert!(table.folded[1]);
    assert_eq!(table.live_opponents(), 0);
}

#[test]
fn antes_join_the_pot_but_not_the_street() {
    let mut table = Table::default();
    table.hand_start(0, 3);
    for seat in 0..3 {
        table.observe(&TableEvent::Post { seat, ante: true, amount: 5 });
    }
    assert_eq!(table.pot(), 15);
    assert_eq!(table.my_street_commit(), 0);
    assert_eq!(table.live_opponents(), 2);
}

#[test]
fn visible_cards_cover_hole_board_and_upcards() {
    let mut table = Table::default();
    table.hand_start(1, 2);
    deal(1, "As", &mut table);
    table.observe(&TableEvent::DealCommunity { cards: parse_cards("2c 3d") });
    table.observe(&TableEvent::DealUp { seat: 0, cards: parse_cards("Kh") });
    table.observe(&TableEvent::DealUp { seat: 1, cards: parse_cards("Qs") });
    assert_eq!(table.visible_cards(), parse_cards("As 2c 3d Kh Qs"));
}


#[test]
fn ranked_discards_keep_pairs_in_high_and_shed_them_in_lowball() {
    let hand = parse_cards("Kc Kd 7h 4s 2c");
    let high = ranked_discards(EvalKind::High, &hand);
    assert_eq!(high[0], parse_cards("2c")[0], "low singleton first");
    assert!(high[3..].iter().all(|c| c.rank == 11), "kings kept last");

    let low = ranked_discards(EvalKind::DeuceToSevenLow, &hand);
    assert_eq!(low[0].rank, 11, "a duplicated king goes first in 2-7");

    let badugi = ranked_discards(EvalKind::Badugi, &hand);
    assert!(badugi[..2].iter().any(|c| c.rank == 11));
}

#[test]
fn ace_to_five_sheds_the_king_before_the_ace() {
    let hand = parse_cards("As Kd 5h 4s 3c");
    let low = ranked_discards(EvalKind::AceToFiveLow, &hand);
    assert_eq!(low, parse_cards("Kd 5h 4s 3c As"));
}

#[test]
fn ties_keep_the_dealt_order() {
    let hand = parse_cards("9c 9d 9h");
    assert_eq!(ranked_discards(EvalKind::High, &hand), hand);
    assert_eq!(ranked_discards(EvalKind::DeuceToSevenLow, &hand), hand);
}


#[test]
fn a_partial_two_seven_middle_dies_on_a_pair_or_a_high_card() {
    assert!(can_still_qualify(&parse_cards("2c 5d 7h")));
    assert!(can_still_qualify(&parse_cards("Tc 9d")));
    assert!(can_still_qualify(&Vec::new()));
    assert!(!can_still_qualify(&parse_cards("2c 2d")));
    assert!(!can_still_qualify(&parse_cards("2c Jd")));
}

#[test]
fn the_worst_door_card_brings_it_in() {
    let up = [parse_cards("2c"), parse_cards("2d")];
    assert_eq!(bring_in_seat(false, &up), 0, "clubs is the lowest suit");
    assert_eq!(bring_in_seat(true, &up), 1, "razz: the highest door brings it in");
    let up = [parse_cards("Ks"), parse_cards("3h")];
    assert_eq!(bring_in_seat(false, &up), 1);
}

#[test]
fn the_best_showing_hand_leads() {
    let pair = parse_cards("9c 9d");
    let high = parse_cards("Ac Kd");
    assert_eq!(lead_seat(Some(false), &[high.clone(), pair.clone()]), 1, "a pair beats ace-king");
    assert_eq!(lead_seat(Some(false), &[pair.clone(), high.clone()]), 0);
    assert_eq!(lead_seat(Some(true), &[pair.clone(), high.clone()]), 1, "razz: no pair leads");
    assert_eq!(lead_seat(Some(false), &[high.clone(), high.clone()]), 0, "ties go to seat 0");
    assert_eq!(lead_seat(None, &[high.clone(), pair]), 1);
}

#[test]
fn a_street_start_keeps_the_pot() {
    let mut table = Table::default();
    table.hand_start(0, 3);
    table.observe(&blind(1, 50));
    table.observe(&blind(2, 100));
    table.observe(&TableEvent::StreetStart);
    table.observe(&TableEvent::Acted { seat: 0, action: Action::Call, street_commit: 100 });
    let before = table.pot();
    table.observe(&TableEvent::StreetStart);
    assert_eq!(table.pot(), before);
    assert_eq!(table.street, vec![0, 0, 0]);
    assert_eq!(table.prev_streets, vec![100, 50, 100]);
}
