use poker_arena::blueprint::{file_name, infoset_key, Abs, Kind};
use poker_arena::iso::suit_permutations;
use std::collections::HashSet;

#[test]
fn keys_are_stable_and_distinct() {
    assert_eq!(infoset_key(1, Kind::Wager, 12, "cb", 3), "1|w|12|cb|3");
    assert_ne!(infoset_key(1, Kind::Wager, 12, "", 2), infoset_key(1, Kind::Draw, 12, "", 2));
    assert_ne!(
        infoset_key(1, Kind::Wager, 12, "", 2),
        infoset_key(1, Kind::Wager, 12, "", 3),
        "menu length is part of the address"
    );
}

#[test]
fn letters_name_kinds_and_actions() {
    assert_eq!(Kind::BringIn.letter(), 'i');
    assert_eq!(Kind::Draw.letter(), 'd');
    assert_eq!(Abs::Draw(3).letter(), 'g');
    assert_eq!(Abs::AllIn.letter(), 'a');
    assert_eq!(Abs::CheckCall.letter(), 'c');
    assert_eq!(infoset_key(0, Kind::BringIn, 0, "i", 1), "0|i|0|i|1");
}

#[test]
fn permutations_are_24_distinct() {
    let perms = suit_permutations();
    let set: HashSet<[u8; 4]> = perms.iter().copied().collect();
    assert_eq!(set.len(), 24);
}

#[test]
fn permutations_come_in_lexicographic_order() {
    let perms = suit_permutations();
    assert_eq!(perms[0], [0, 1, 2, 3]);
    assert_eq!(perms[1], [0, 1, 3, 2]);
    assert_eq!(perms[23], [3, 2, 1, 0]);
    for pair in perms.windows(2) {
        assert!(pair[0] < pair[1]);
    }
}

#[test]
fn blueprint_files_are_named_by_game() {
    assert_eq!(file_name("holdem-nl"), "holdem-nl.json");
    assert_eq!(file_name(""), ".json");
}
