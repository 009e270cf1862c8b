use poker_arena::iso::{canonical, canonical_key, suit_permutations};
use std::collections::HashSet;

/// A card index from its text: rank character then suit character.
fn card(text: &str) -> u8 {
    let b = text.as_bytes();
    let rank = b"23456789TJQKA".iter().position(|&r| r == b[0]).unwrap() as u8;
    let suit = b"cdhs".iter().position(|&s| s == b[1]).unwrap() as u8;
    4 * rank + suit
}

fn cards(text: &str) -> Vec<u8> {
    text.split_whitespace().map(card).collect()
}

fn relabel(perm: &[u8; 4], c: u8) -> u8 {
    4 * (c / 4) + perm[(c % 4) as usize]
}

/// A small deterministic generator (splitmix64) for shuffles in tests.
struct TestRng(u64);

impl TestRng {
    fn next(&mut self) -> u64 {
        self.0 = self.0.wrapping_add(0x9E37_79B9_7F4A_7C15);
        let mut z = self.0;
        z = (z ^ (z >> 30)).wrapping_mul(0xBF58_476D_1CE4_E5B9);
        z = (z ^ (z >> 27)).wrapping_mul(0x94D0_49BB_1331_11EB);
        z ^ (z >> 31)
    }

    fn below(&mut self, n: u64) -> u64 {
        self.next() % n
    }

    fn shuffle(&mut self, deck: &mut [u8]) {
        for i in (1..deck.len()).rev() {
            let j = self.below(i as u64 + 1) as usize;
            deck.swap(i, j);
        }
    }
}

#[test]
fn holdem_starting_hands_collapse_to_169() {
    let mut classes = HashSet::new();
    for i in 0..52u8 {
        for j in (i + 1)..52u8 {
            classes.insert(canonical_key(&[vec![i, j]]));
        }
    }
    assert_eq!(classes.len(), 169);
}

#[test]
fn flops_collapse_to_1755() {
    let mut classes = HashSet::new();
    for i in 0..52u8 {
        for j in (i + 1)..52u8 {
            for k in (j + 1)..52u8 {
                classes.insert(canonical_key(&[vec![i, j, k]]));
            }
        }
    }
    assert_eq!(classes.len(), 1755);
}

#[test]
fn random_suit_permutations_share_a_canonical_form() {
    let mut rng = TestRng(7);
    let perms = suit_permutations();
    for _ in 0..200 {
        let mut deck: Vec<u8> = (0..52).collect();
        rng.shuffle(&mut deck);
        let hole = deck[0..2].to_vec();
        let board = deck[2..7].to_vec();
        let reference = canonical(&[hole.clone(), board.clone()]);

        let perm = perms[rng.below(24) as usize];
        let mut hole_mapped: Vec<u8> = hole.iter().map(|c| relabel(&perm, *c)).collect();
        let board_mapped: Vec<u8> = board.iter().map(|c| relabel(&perm, *c)).collect();
        hole_mapped.reverse();
        assert_eq!(reference, canonical(&[hole_mapped, board_mapped]));
    }
}

#[test]
fn group_boundaries_are_preserved_and_meaningful() {
    let hole = cards("As Kd");
    let board = cards("2c");
    let split = canonical_key(&[hole.clone(), board.clone()]);
    let merged = canonical_key(&[vec![hole[0], hole[1], board[0]]]);
    assert_ne!(split, merged, "a separator must distinguish group shapes");
}

#[test]
fn the_canonical_form_relabels_to_the_smallest_sorted_cards() {
    // Ace-king of different suits: the smallest relabeling puts the king on
    // suit 0 and the ace on suit 1.
    assert_eq!(canonical(&[cards("As Kd")]), vec![vec![44, 49]]);
    assert_eq!(canonical(&[cards("Kh Ac")]), vec![vec![44, 49]]);
    // Suited cards share suit 0.
    assert_eq!(canonical(&[cards("7h 2h")]), vec![vec![0, 20]]);
    // Groups stay apart and each is sorted.
    assert_eq!(canonical(&[cards("As Kd"), cards("2d")]), vec![vec![44, 49], vec![0]]);
    assert_eq!(canonical(&[]), Vec::<Vec<u8>>::new());
}

#[test]
fn keys_pack_six_bits_per_card_with_separators() {
    assert_eq!(canonical_key(&[cards("As Kd")]), (44 << 6) | 49);
    assert_eq!(canonical_key(&[cards("As Kd"), cards("2d")]), (((44 << 6) | 49) << 12) | (63 << 6));
    assert_eq!(canonical_key(&[vec![], vec![]]), 63);
}
