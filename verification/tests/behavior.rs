use poker_arena::behavior::{BehaviorStats, Event};
use poker_arena::bot::Action;

fn street_start(street: u8) -> Event {
    Event::StreetStart { street }
}

fn acted(seat: usize, action: Action) -> Event {
    Event::Acted { seat, action }
}

fn showdown(seat: usize) -> Event {
    Event::ShowdownShow { seat }
}

fn post() -> Event {
    Event::Other
}

/// `num / den`, zero when `den` is zero.
fn ratio(num: u64, den: u64) -> f64 {
    if den == 0 {
        0.0
    } else {
        num as f64 / den as f64
    }
}

fn vpip(bs: &BehaviorStats) -> f64 {
    ratio(bs.vpip_hands(), bs.hands())
}

fn pfr(bs: &BehaviorStats) -> f64 {
    ratio(bs.pfr_hands(), bs.hands())
}

fn af(bs: &BehaviorStats) -> f64 {
    if bs.call_actions() == 0 {
        if bs.aggressive_actions() == 0 {
            0.0
        } else {
            f64::INFINITY
        }
    } else {
        bs.aggressive_actions() as f64 / bs.call_actions() as f64
    }
}

fn wtsd(bs: &BehaviorStats) -> f64 {
    ratio(bs.showdown_hands(), bs.hands())
}

fn wsd(bs: &BehaviorStats) -> f64 {
    ratio(bs.showdown_wins(), bs.showdown_hands())
}

fn fold_rate(bs: &BehaviorStats) -> f64 {
    ratio(bs.fold_hands(), bs.hands())
}

#[test]
fn vpip_counts_call_but_not_blind_posts() {
    let events = vec![post(), post(), street_start(0), acted(0, Action::Call), acted(1, Action::Check)];
    let mut bs = BehaviorStats::new();
    bs.record_hand(&events, 0, -50);
    assert_eq!(bs.hands(), 1);
    assert_eq!(vpip(&bs), 1.0);
    assert_eq!(pfr(&bs), 0.0);
}

#[test]
fn blind_check_through_hand_has_zero_vpip() {
    let events = vec![post(), post(), street_start(0), acted(0, Action::Call), acted(1, Action::Check)];
    let mut bs = BehaviorStats::new();
    bs.record_hand(&events, 1, 50);
    assert_eq!(vpip(&bs), 0.0);
    assert_eq!(fold_rate(&bs), 0.0);
}

#[test]
fn raise_counts_as_both_vpip_and_pfr() {
    let events = vec![street_start(0), acted(0, Action::Raise { to: 300 }), acted(1, Action::Fold)];
    let mut bs = BehaviorStats::new();
    bs.record_hand(&events, 0, 150);
    assert_eq!(vpip(&bs), 1.0);
    assert_eq!(pfr(&bs), 1.0);
}

#[test]
fn bring_in_excluded_from_vpip() {
    let events = vec![
        street_start(0),
        street_start(1),
        acted(0, Action::BringIn),
        acted(1, Action::Call),
    ];
    let mut bs = BehaviorStats::new();
    bs.record_hand(&events, 0, -10);
    assert_eq!(vpip(&bs), 0.0, "a forced bring-in must not count as vpip");
    assert_eq!(pfr(&bs), 0.0);

    let mut bs1 = BehaviorStats::new();
    bs1.record_hand(&events, 1, 10);
    assert_eq!(vpip(&bs1), 1.0, "a voluntary call on the same street still counts");
}

#[test]
fn stud_first_betting_street_is_detected_not_hardcoded() {
    let events = vec![
        street_start(0),
        street_start(1),
        acted(0, Action::BringIn),
        acted(1, Action::Raise { to: 40 }),
    ];
    let mut bs = BehaviorStats::new();
    bs.record_hand(&events, 1, 20);
    assert_eq!(vpip(&bs), 1.0);
    assert_eq!(pfr(&bs), 1.0);

    let events2 = vec![
        street_start(0),
        street_start(1),
        acted(0, Action::BringIn),
        acted(1, Action::Call),
        street_start(2),
        acted(0, Action::Raise { to: 80 }),
    ];
    let mut bs2 = BehaviorStats::new();
    bs2.record_hand(&events2, 0, -40);
    assert_eq!(vpip(&bs2), 0.0, "bring-in alone is not voluntary");
    assert_eq!(pfr(&bs2), 0.0, "the raise happened after street 0");
}

#[test]
fn af_math_including_inf_and_zero() {
    let mut bs = BehaviorStats::new();
    bs.record_hand(
        &[
            street_start(0),
            acted(0, Action::Bet { to: 100 }),
            acted(1, Action::Call),
            street_start(1),
            acted(0, Action::Raise { to: 300 }),
            acted(1, Action::Call),
        ],
        0,
        200,
    );
    assert_eq!(af(&bs), f64::INFINITY);

    let mut bs_caller = BehaviorStats::new();
    bs_caller.record_hand(
        &[street_start(0), acted(0, Action::Bet { to: 100 }), acted(1, Action::Call)],
        1,
        -100,
    );
    assert_eq!(af(&bs_caller), 0.0);

    let mut bs_neither = BehaviorStats::new();
    bs_neither.record_hand(&[street_start(0), acted(0, Action::Check)], 1, 0);
    assert_eq!(af(&bs_neither), 0.0);

    let mut bs_mixed = BehaviorStats::new();
    bs_mixed.record_hand(
        &[
            street_start(0),
            acted(0, Action::Bet { to: 100 }),
            acted(1, Action::Call),
            street_start(1),
            acted(0, Action::Check),
            acted(1, Action::Bet { to: 50 }),
            acted(0, Action::Call),
        ],
        0,
        -50,
    );
    assert_eq!(af(&bs_mixed), 1.0);
}

#[test]
fn wtsd_and_wsd_track_showdown_appearance_and_net_sign() {
    let mut bs = BehaviorStats::new();
    bs.record_hand(&[street_start(0), acted(0, Action::Check), showdown(0)], 0, 100);
    bs.record_hand(&[street_start(0), acted(0, Action::Check), showdown(0)], 0, -100);
    bs.record_hand(&[street_start(0), acted(0, Action::Fold)], 0, -50);
    assert_eq!(bs.hands(), 3);
    assert_eq!(wtsd(&bs), 2.0 / 3.0);
    assert_eq!(wsd(&bs), 0.5);
    assert_eq!(fold_rate(&bs), 1.0 / 3.0);
}

#[test]
fn wsd_is_zero_with_no_showdowns() {
    let mut bs = BehaviorStats::new();
    bs.record_hand(&[street_start(0), acted(0, Action::Fold)], 0, -50);
    assert_eq!(wtsd(&bs), 0.0);
    assert_eq!(wsd(&bs), 0.0);
}

#[test]
fn fold_rate_counts_any_street_fold() {
    let mut bs = BehaviorStats::new();
    bs.record_hand(
        &[street_start(0), acted(0, Action::Call), street_start(1), acted(0, Action::Fold)],
        0,
        -50,
    );
    assert_eq!(fold_rate(&bs), 1.0);
    assert_eq!(vpip(&bs), 1.0, "the street-0 call still counts");
}

#[test]
fn empty_accumulator_reports_zero_not_nan() {
    let bs = BehaviorStats::new();
    assert_eq!(bs.hands(), 0);
    assert_eq!(vpip(&bs), 0.0);
    assert_eq!(pfr(&bs), 0.0);
    assert_eq!(af(&bs), 0.0);
    assert_eq!(wtsd(&bs), 0.0);
    assert_eq!(wsd(&bs), 0.0);
    assert_eq!(fold_rate(&bs), 0.0);
}

#[test]
fn other_seats_actions_are_not_counted() {
    let mut bs = BehaviorStats::new();
    bs.record_hand(
        &[street_start(0), acted(1, Action::Raise { to: 10 }), acted(1, Action::Call), showdown(1)],
        0,
        5,
    );
    assert_eq!(bs.aggressive_actions(), 0);
    assert_eq!(bs.call_actions(), 0);
    assert_eq!(bs.showdown_hands(), 0);
    assert_eq!(bs.hands(), 1);
}

#[test]
fn every_recording_counts_one_hand_even_without_events() {
    let mut bs = BehaviorStats::new();
    for k in 0..5u64 {
        assert_eq!(bs.hands(), k);
        let events: Vec<Event> = if k % 2 == 0 { Vec::new() } else { vec![street_start(0), acted(0, Action::Call)] };
        bs.record_hand(&events, 0, 0);
    }
    assert_eq!(bs.hands(), 5);
}
