use poker_arena::deuce::deuce_class;
use poker_arena::iso::suit_permutations;
use poker_arena::table::Card;

/// A card from its text: rank character then suit character.
fn card(text: &str) -> Card {
    let b = text.as_bytes();
    let rank = b"23456789TJQKA".iter().position(|&r| r == b[0]).unwrap() as u8;
    let suit = b"cdhs".iter().position(|&s| s == b[1]).unwrap() as u8;
    Card { rank, suit }
}

fn cards(text: &str) -> Vec<Card> {
    text.split_whitespace().map(card).collect()
}

#[test]
fn deuce_classes_pack_sorted_ranks_and_the_flush_bit() {
    assert_eq!(deuce_class(&cards("7c 5d 4h 3s 2c")), 0x53210);
    assert_eq!(deuce_class(&cards("2c 3d 4h 5s 7c")), 0x53210);
    assert_eq!(deuce_class(&cards("7c 5c 4c 3c 2c")), 0x153210);
    assert_eq!(deuce_class(&cards("Ac Ad Ah As Kc")), 0xCCCCB);
    assert_eq!(deuce_class(&cards("Kc Qd 9h 5s 3c")), 0xBA731);
}

#[test]
fn deuce_classes_ignore_order_and_suit_names() {
    let hand = cards("8c 9d Th Js 2c");
    let base = deuce_class(&hand);
    for perm in suit_permutations() {
        let mut mapped: Vec<Card> =
            hand.iter().map(|c| Card { rank: c.rank, suit: perm[c.suit as usize] }).collect();
        mapped.rotate_left(2);
        assert_eq!(deuce_class(&mapped), base);
    }
    // Same ranks, but now a flush: a different class.
    assert_ne!(deuce_class(&cards("8c 9c Tc Jc 2c")), base);
}
