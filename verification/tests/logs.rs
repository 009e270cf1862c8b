use poker_arena::log::{kept_header_line, HandMeta, JsonLog, LogSelection, OfcHandMeta, OfcJsonLog, OfcLogSelection};
use poker_arena::selective::{KeptHand, OfcSelectiveLog, SelectiveLog};
use serde_json::Value;

fn push_hand(log: &mut SelectiveLog<Vec<u8>>, hand_no: u64, deck_no: u64, pot: u64, faulted: bool, forfeited: bool) {
    log.hand_start(hand_no, deck_no);
    log.hand_end(&HandMeta { pot_total: pot, faulted, forfeited });
}

fn push_ofc_hand(log: &mut OfcSelectiveLog<Vec<u8>>, hand_no: u64, swing: i64, faulted: bool, forfeited: bool) {
    log.hand_start(hand_no);
    log.hand_end(&OfcHandMeta {
        points: vec![swing, -swing],
        faulted: if faulted { vec![0] } else { Vec::new() },
        forfeited,
    });
}

fn labels(h: &KeptHand, top: &'static str) -> Vec<&'static str> {
    h.reasons.labels(top)
}

fn summary(line: &str) -> Value {
    serde_json::from_str::<Value>(line).unwrap()["log_summary"].clone()
}

#[test]
fn full_log_counts_every_hand_in_its_summary() {
    let mut log = JsonLog::new(Vec::<u8>::new());
    let seats = vec!["a".to_string(), "b".to_string()];
    log.hand_start(0, 0, &seats);
    log.hand_end();
    log.hand_start(1, 0, &seats);
    log.hand_end();
    let s = summary(&log.summary_line());
    assert_eq!(s["hands_seen"], 2);
    assert_eq!(s["hands_kept"], 2);
}

#[test]
fn ofc_full_log_counts_every_hand_in_its_summary() {
    let mut log = OfcJsonLog::new(Vec::<u8>::new());
    let seats = vec!["a".to_string(), "b".to_string()];
    for hand in 0..3 {
        log.hand_start(hand, &seats);
        log.hand_end();
    }
    assert_eq!(log.summary_line(), "{\"log_summary\":{\"hands_seen\":3,\"hands_kept\":3}}");
}

#[test]
fn top_pots_keeps_the_k_biggest_with_deterministic_tie_break() {
    let mut log = SelectiveLog::new(
        Vec::new(),
        LogSelection { sample_first_hands: None, top_pots: Some(2), fault_hands: 0 },
    );
    push_hand(&mut log, 0, 0, 10, false, false);
    push_hand(&mut log, 1, 0, 30, false, false);
    push_hand(&mut log, 2, 0, 30, false, false);
    push_hand(&mut log, 3, 0, 20, false, false);
    let headers = log.finish();
    assert_eq!(headers.len(), 2);
    assert_eq!(headers[0].hand_no, 1);
    assert_eq!(headers[1].hand_no, 2);
    for h in &headers {
        assert_eq!(labels(h, "top-pot"), vec!["top-pot"]);
    }
    let s = summary(&log.summary_line());
    assert_eq!(s["hands_seen"], 4);
    assert_eq!(s["hands_kept"], 2);
}

#[test]
fn fault_cap_keeps_only_the_first_k_fault_hands() {
    let mut log = SelectiveLog::new(
        Vec::new(),
        LogSelection { sample_first_hands: None, top_pots: None, fault_hands: 2 },
    );
    push_hand(&mut log, 0, 0, 1, true, false);
    push_hand(&mut log, 1, 0, 1, true, false);
    push_hand(&mut log, 2, 0, 1, true, false);
    let headers = log.finish();
    assert_eq!(headers.len(), 2);
    assert_eq!(headers[0].hand_no, 0);
    assert_eq!(headers[1].hand_no, 1);
    let s = summary(&log.summary_line());
    assert_eq!(s["fault_hands_kept"], 2);
}

#[test]
fn forfeit_always_kept_regardless_of_fault_cap() {
    let mut log = SelectiveLog::new(
        Vec::new(),
        LogSelection { sample_first_hands: None, top_pots: None, fault_hands: 0 },
    );
    push_hand(&mut log, 0, 0, 1, true, true);
    let headers = log.finish();
    assert_eq!(headers.len(), 1);
    assert_eq!(labels(&headers[0], "top-pot"), vec!["forfeit"]);
}

#[test]
fn log_union_of_reasons_is_tagged_on_one_header() {
    let mut log = SelectiveLog::new(
        Vec::new(),
        LogSelection { sample_first_hands: Some(u64::MAX), top_pots: Some(1), fault_hands: 0 },
    );
    push_hand(&mut log, 0, 0, 5, false, false);
    push_hand(&mut log, 1, 0, 1, false, false);
    let headers = log.finish();
    assert_eq!(headers.len(), 2, "sample keeps both hands");
    let hand0 = headers.iter().find(|h| h.hand_no == 0).unwrap();
    assert_eq!(labels(hand0, "top-pot"), vec!["sample", "top-pot"]);
    let hand1 = headers.iter().find(|h| h.hand_no == 1).unwrap();
    assert_eq!(labels(hand1, "top-pot"), vec!["sample"]);
}

#[test]
fn sampling_never_splits_a_deck() {
    let mut log = SelectiveLog::new(
        Vec::new(),
        LogSelection { sample_first_hands: Some(1), top_pots: None, fault_hands: 0 },
    );
    push_hand(&mut log, 0, 0, 1, false, false);
    push_hand(&mut log, 1, 0, 1, false, false);
    push_hand(&mut log, 2, 1, 1, false, false);
    let kept: Vec<u64> = log.finish().iter().map(|h| h.hand_no).collect();
    assert_eq!(kept, vec![0, 1]);
}

#[test]
fn sample_keeps_exactly_the_first_n_hands() {
    let mut log = OfcSelectiveLog::new(
        Vec::new(),
        OfcLogSelection { sample_first_hands: Some(2), top_swings: None, fault_hands: 0 },
    );
    for hand_no in 0..5 {
        push_ofc_hand(&mut log, hand_no, 1, false, false);
    }
    let headers = log.finish();
    assert_eq!(headers.len(), 2);
    assert_eq!(headers[0].hand_no, 0);
    assert_eq!(headers[1].hand_no, 1);
    for header in &headers {
        assert_eq!(labels(header, "top-swing"), vec!["sample"]);
    }
}

#[test]
fn top_swings_keeps_the_k_biggest_with_deterministic_tie_break() {
    let mut log = OfcSelectiveLog::new(
        Vec::new(),
        OfcLogSelection { sample_first_hands: None, top_swings: Some(2), fault_hands: 0 },
    );
    push_ofc_hand(&mut log, 0, 3, false, false);
    push_ofc_hand(&mut log, 1, 30, false, false);
    push_ofc_hand(&mut log, 2, -30, false, false);
    push_ofc_hand(&mut log, 3, 20, false, false);
    let headers = log.finish();
    assert_eq!(headers.len(), 2);
    assert_eq!(headers[0].hand_no, 1);
    assert_eq!(headers[1].hand_no, 2);
    for header in &headers {
        assert_eq!(labels(header, "top-swing"), vec!["top-swing"]);
    }
    let s = summary(&log.summary_line());
    assert_eq!(s["hands_seen"], 4, "every hand is still counted");
}

#[test]
fn fault_cap_keeps_only_the_first_k_and_forfeit_is_always_kept() {
    let mut log = OfcSelectiveLog::new(
        Vec::new(),
        OfcLogSelection { sample_first_hands: None, top_swings: None, fault_hands: 1 },
    );
    push_ofc_hand(&mut log, 0, 1, true, false);
    push_ofc_hand(&mut log, 1, 1, true, false);
    push_ofc_hand(&mut log, 2, 1, true, true);
    let headers = log.finish();
    assert_eq!(headers.len(), 2, "one fault hand plus the forfeit");
    assert_eq!(labels(&headers[0], "top-swing"), vec!["fault"]);
    assert_eq!(labels(&headers[1], "top-swing"), vec!["forfeit"]);
    let s = summary(&log.summary_line());
    assert_eq!(s["fault_hands_kept"], 1);
}

#[test]
fn ofc_log_union_of_reasons_is_tagged_on_one_header() {
    let mut log = OfcSelectiveLog::new(
        Vec::new(),
        OfcLogSelection { sample_first_hands: Some(u64::MAX), top_swings: Some(1), fault_hands: 0 },
    );
    push_ofc_hand(&mut log, 0, 5, false, false);
    push_ofc_hand(&mut log, 1, 1, false, false);
    let headers = log.finish();
    assert_eq!(headers.len(), 2);
    assert_eq!(labels(&headers[0], "top-swing"), vec!["sample", "top-swing"]);
    assert_eq!(labels(&headers[1], "top-swing"), vec!["sample"]);
}

#[test]
fn selective_summary_echoes_the_selection() {
    let mut log = OfcSelectiveLog::new(
        Vec::new(),
        OfcLogSelection { sample_first_hands: None, top_swings: Some(3), fault_hands: 4 },
    );
    push_ofc_hand(&mut log, 0, 2, false, false);
    assert_eq!(
        log.summary_line(),
        "{\"log_summary\":{\"hands_seen\":1,\"hands_kept\":1,\"sample_first_hands\":null,\"top_swings\":3,\"fault_hands_kept\":0}}"
    );
}

#[test]
fn swing_is_the_largest_absolute_result() {
    let meta = OfcHandMeta { points: vec![-7, 3, 4], faulted: Vec::new(), forfeited: false };
    assert_eq!(meta.swing(), 7);
    let extreme = OfcHandMeta { points: vec![i64::MIN, 5], faulted: Vec::new(), forfeited: false };
    assert_eq!(extreme.swing(), 1u64 << 63);
    let empty = OfcHandMeta { points: Vec::new(), faulted: Vec::new(), forfeited: false };
    assert_eq!(empty.swing(), 0);
}

#[test]
fn full_log_header_names_hand_deck_and_seats() {
    let mut log = JsonLog::new(Vec::<u8>::new());
    let seats = vec!["a".to_string(), "b".to_string()];
    let header = log.hand_start(3, 1, &seats);
    assert_eq!(header, "{\"hand\":3,\"deck\":1,\"seats\":[\"a\",\"b\"]}");
    let swapped = vec!["b".to_string(), "a".to_string()];
    let v: Value = serde_json::from_str(&log.hand_start(4, 1, &swapped)).unwrap();
    assert_eq!(v["hand"], 4);
    assert_eq!(v["seats"][0], "b");
    assert_eq!(v["seats"][1], "a");
}

#[test]
fn ofc_header_has_no_deck() {
    let mut log = OfcJsonLog::new(Vec::<u8>::new());
    let seats = vec!["x".to_string()];
    assert_eq!(log.hand_start(0, &seats), "{\"hand\":0,\"seats\":[\"x\"]}");
}

#[test]
fn header_escapes_awkward_names() {
    let mut log = OfcJsonLog::new(Vec::<u8>::new());
    let seats = vec!["a\"b\\c\u{1}\n".to_string()];
    let header = log.hand_start(2, &seats);
    assert_eq!(header, "{\"hand\":2,\"seats\":[\"a\\\"b\\\\c\\u0001\\n\"]}");
    let v: Value = serde_json::from_str(&header).unwrap();
    assert_eq!(v["seats"][0], "a\"b\\c\u{1}\n");
}

#[test]
fn kept_header_lists_the_reasons() {
    let mut log = SelectiveLog::new(
        Vec::new(),
        LogSelection { sample_first_hands: Some(1), top_pots: Some(1), fault_hands: 0 },
    );
    push_hand(&mut log, 0, 2, 50, false, false);
    let kept = log.finish();
    assert_eq!(kept.len(), 1);
    let seats = vec!["p".to_string(), "q".to_string()];
    let line = kept_header_line(kept[0].hand_no, Some(2), &seats, kept[0].reasons, "top-pot");
    let v: Value = serde_json::from_str(&line).unwrap();
    assert_eq!(v["hand"], 0);
    assert_eq!(v["deck"], 2);
    assert_eq!(v["kept"].as_array().unwrap().len(), 2);
    assert_eq!(v["kept"][1], "top-pot");
}

#[test]
fn log_nothing_written_until_finish() {
    let mut log = SelectiveLog::new(
        Vec::<u8>::new(),
        LogSelection { sample_first_hands: Some(u64::MAX), top_pots: None, fault_hands: 0 },
    );
    push_hand(&mut log, 0, 0, 10, false, false);
    assert!(log.out().is_empty(), "nothing should be written pre-finish");
    let mut ofc = OfcSelectiveLog::new(
        Vec::<u8>::new(),
        OfcLogSelection { sample_first_hands: Some(u64::MAX), top_swings: None, fault_hands: 0 },
    );
    push_ofc_hand(&mut ofc, 0, 3, false, false);
    assert!(ofc.out().is_empty(), "nothing should be written pre-finish");
}
