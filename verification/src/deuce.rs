//! The 2-7 lowball value class of a five-card hand: the evaluator reads
//! only the rank multiset and whether the hand is a flush, so those two
//! facts, packed into one integer, name the hand's showdown class.
use vstd::prelude::*;
use vstd::relations::{sorted_by, total_ordering};
use crate::discards::valid_card;
use crate::ofc::{sort_cards, sorted_cards};
use crate::table::Card;

verus! {

/// The ranks of `cards` (0 = deuce .. 12 = ace), in order.
pub open spec fn rank_seq(cards: Seq<Card>) -> Seq<u8> {
    cards.map_values(|c: Card| c.rank)
}

/// Every card of `cards` shares the first card's suit.
pub open spec fn is_flush(cards: Seq<Card>) -> bool {
    forall|i: int| 0 <= i < cards.len() ==> (#[trigger] cards[i]).suit == cards[0].suit
}

/// The ascending order on ranks.
pub open spec fn rank_le() -> spec_fn(u8, u8) -> bool {
    |a: u8, b: u8| a <= b
}

/// Base-16 digits read with the last entry most significant: for ranks in
/// ascending order, the highest rank leads.
pub open spec fn pack_desc(asc: Seq<u8>) -> nat
    decreases asc.len(),
{
    if asc.len() == 0 {
        0
    } else {
        asc[0] as nat + 16 * pack_desc(asc.drop_first())
    }
}

/// The class of a five-card hand: its five ranks as 4-bit digits, highest
/// first, with bit 20 set when the hand is a flush.
pub open spec fn deuce_key(cards: Seq<Card>) -> nat {
    pack_desc(rank_seq(cards).sort_by(rank_le())) + if is_flush(cards) {
        0x10_0000nat
    } else {
        0nat
    }
}

/// A five-card hand of cards of the deck.
pub open spec fn five_card_hand(cards: Seq<Card>) -> bool {
    cards.len() == 5 && forall|i: int| 0 <= i < 5 ==> valid_card(#[trigger] cards[i])
}

/// Sixteen to the `n`.
pub open spec fn pow16(n: nat) -> nat
    decreases n,
{
    if n == 0 {
        1
    } else {
        16 * pow16((n - 1) as nat)
    }
}

proof fn lemma_rank_le_total()
    ensures
        total_ordering(rank_le()),
{
}

proof fn lemma_pack_bound(s: Seq<u8>)
    requires
        forall|i: int| 0 <= i < s.len() ==> #[trigger] s[i] < 16,
    ensures
        pack_desc(s) < pow16(s.len()),
    decreases s.len(),
{
    if s.len() > 0 {
        lemma_pack_bound(s.drop_first());
    }
}

proof fn lemma_pack_injective(s: Seq<u8>, t: Seq<u8>)
    requires
        s.len() == t.len(),
        forall|i: int| 0 <= i < s.len() ==> #[trigger] s[i] < 16,
        forall|i: int| 0 <= i < t.len() ==> #[trigger] t[i] < 16,
        pack_desc(s) == pack_desc(t),
    ensures
        s == t,
    decreases s.len(),
{
    if s.len() > 0 {
        lemma_pack_injective(s.drop_first(), t.drop_first());
        assert(s =~= seq![s[0]] + s.drop_first());
        assert(t =~= seq![t[0]] + t.drop_first());
    } else {
        assert(s =~= t);
    }
}

/// The sorted ranks of a hand: ascending, with the hand's rank multiset.
proof fn lemma_sorted_ranks(cards: Seq<Card>)
    requires
        five_card_hand(cards),
    ensures
        sorted_by(rank_seq(cards).sort_by(rank_le()), rank_le()),
        rank_seq(cards).sort_by(rank_le()).to_multiset() == rank_seq(cards).to_multiset(),
        rank_seq(cards).sort_by(rank_le()).len() == 5,
        forall|i: int| 0 <= i < 5 ==> #[trigger] rank_seq(cards).sort_by(rank_le())[i] < 13,
{
    broadcast use vstd::seq_lib::group_to_multiset_ensures;

    let r = rank_seq(cards);
    lemma_rank_le_total();
    r.lemma_sort_by_ensures(rank_le());
    let s = r.sort_by(rank_le());
    vstd::seq_lib::to_multiset_len(s);
    vstd::seq_lib::to_multiset_len(r);
    assert forall|i: int| 0 <= i < 5 implies #[trigger] s[i] < 13 by {
        assert(s.contains(s[i]));
        assert(r.contains(s[i]));
    }
}

fn pack_step(key: u32, rank: u8) -> (r: u32)
    requires
        key < 0x1_0000,
        rank < 16,
    ensures
        r == key * 16 + rank,
{
    let x: u32 = rank as u32;
    assert((key << 4u32) | x == key * 16 + x) by (bit_vector)
        requires
            key < 0x1_0000,
            x < 16,
    ;
    (key << 4u32) | x
}

/// The 2-7 value class of a five-card hand, packed into a `u32`: the five
/// rank indices sorted descending as 4-bit digits, with bit 20 set when the
/// hand is a flush.
pub fn deuce_class(cards: &[Card]) -> (r: u32)
    requires
        five_card_hand(cards@),
    ensures
        r == deuce_key(cards@),
{
    let mut ranks: Vec<u8> = Vec::new();
    let mut i: usize = 0;
    while i < cards.len()
        invariant
            i <= cards@.len(),
            cards@.len() == 5,
            ranks@ == rank_seq(cards@.take(i as int)),
        decreases cards@.len() - i,
    {
        ranks.push(cards[i].rank);
        i = i + 1;
        proof {
            assert(rank_seq(cards@.take(i as int)) =~= rank_seq(cards@.take(i - 1)).push(cards@[i - 1].rank));
        }
    }
    proof {
        assert(cards@.take(5) =~= cards@);
    }
    let asc = sort_cards(ranks.as_slice());
    let ghost want = rank_seq(cards@).sort_by(rank_le());
    proof {
        lemma_sorted_ranks(cards@);
        lemma_rank_le_total();
        assert(sorted_by(asc@, rank_le()));
        vstd::seq_lib::lemma_sorted_unique(asc@, want, rank_le());
        assert(asc@ == want);
        lemma_pack_bound(asc@);
        assert(pow16(5) == 0x10_0000) by {
            reveal_with_fuel(pow16, 6);
        }
    }
    let mut key: u32 = 0;
    let mut j: usize = 5;
    while j > 0
        invariant
            j <= 5,
            asc@ == want,
            asc@.len() == 5,
            forall|k: int| 0 <= k < 5 ==> #[trigger] asc@[k] < 13,
            key == pack_desc(asc@.subrange(j as int, 5)),
            key < pow16((5 - j) as nat),
        decreases j,
    {
        proof {
            assert(pow16(4) == 0x1_0000) by {
                reveal_with_fuel(pow16, 5);
            }
            if j < 5 {
                assert(pow16((5 - j) as nat) <= pow16(4)) by {
                    reveal_with_fuel(pow16, 5);
                }
            }
        }
        key = pack_step(key, asc[j - 1]);
        j = j - 1;
        proof {
            assert(asc@.subrange(j as int, 5).drop_first() =~= asc@.subrange(j + 1, 5));
        }
    }
    proof {
        assert(asc@.subrange(0, 5) =~= asc@);
    }
    let mut flush = true;
    let mut k: usize = 1;
    while k < 5
        invariant
            1 <= k <= 5,
            cards@.len() == 5,
            flush == forall|q: int| 0 <= q < k ==> (#[trigger] cards@[q]).suit == cards@[0].suit,
        decreases 5 - k,
    {
        let same = cards[k].suit == cards[0].suit;
        if !same {
            flush = false;
        }
        k = k + 1;
    }
    if flush {
        assert(key | 0x10_0000u32 == key + 0x10_0000u32) by (bit_vector)
            requires
                key < 0x10_0000u32,
        ;
        key | 0x10_0000u32
    } else {
        key
    }
}

/// Two hands share a 2-7 class exactly when they have the same rank
/// multiset and are both flushes or both not.
pub proof fn lemma_class_is_ranks_and_flush(a: Seq<Card>, b: Seq<Card>)
    requires
        five_card_hand(a),
        five_card_hand(b),
    ensures
        deuce_key(a) == deuce_key(b) <==> (rank_seq(a).to_multiset() == rank_seq(b).to_multiset()
            && is_flush(a) == is_flush(b)),
{
    let sa = rank_seq(a).sort_by(rank_le());
    let sb = rank_seq(b).sort_by(rank_le());
    lemma_sorted_ranks(a);
    lemma_sorted_ranks(b);
    lemma_rank_le_total();
    lemma_pack_bound(sa);
    lemma_pack_bound(sb);
    assert(pow16(5) == 0x10_0000) by {
            reveal_with_fuel(pow16, 6);
        }
    if rank_seq(a).to_multiset() == rank_seq(b).to_multiset() {
        vstd::seq_lib::lemma_sorted_unique(sa, sb, rank_le());
    }
    if deuce_key(a) == deuce_key(b) {
        assert(is_flush(a) == is_flush(b));
        lemma_pack_injective(sa, sb);
    }
}

} // verus!
