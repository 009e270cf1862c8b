//! Card-order heuristics of the simulator: which cards a draw sheds first,
//! which seat posts a stud bring-in, and which seat leads a later stud
//! street.
use vstd::prelude::*;
use crate::table::Card;

verus! {

/// The evaluator a game ranks hands by.
#[derive(Clone, Copy, Debug, PartialEq, Eq, Structural)]
pub enum EvalKind {
    High,
    SixesOrBetterHigh,
    DeuceToSevenLow,
    AceToFiveLow,
    EightOrBetterLow,
    Badugi,
    BadugiAceHigh,
}

/// A card of a standard deck: rank below 13, suit below 4.
pub open spec fn valid_card(c: Card) -> bool {
    c.rank < 13 && c.suit < 4
}

/// How many cards of `hand` have rank `r`.
pub open spec fn rank_count(hand: Seq<Card>, r: u8) -> nat
    decreases hand.len(),
{
    if hand.len() == 0 {
        0
    } else {
        rank_count(hand.drop_last(), r) + if hand.last().rank == r {
            1nat
        } else {
            0
        }
    }
}

/// A card's rank with the ace low (ace 0, deuce 1, ..., king 12).
pub open spec fn low_rank(c: Card) -> nat {
    if c.rank == 12 {
        0
    } else {
        (c.rank + 1) as nat
    }
}

/// A card's badugi value: ace low (0) for plain badugi, otherwise the
/// rank plus one when aces are low.
pub open spec fn badugi_value(ace_low: bool, c: Card) -> nat {
    if ace_low && c.rank == 12 {
        0
    } else {
        (c.rank + if ace_low {
            1nat
        } else {
            0
        }) as nat
    }
}

/// `c` shares a suit or a rank with a card of `keep`.
pub open spec fn clashes(keep: Seq<Card>, c: Card) -> bool {
    exists|i: int| 0 <= i < keep.len() && (keep[i].suit == c.suit || keep[i].rank == c.rank)
}

/// The greedy badugi keep: walking `pool` in order, each card that clashes
/// with no card kept so far is kept.
pub open spec fn greedy_keep(pool: Seq<Card>) -> Seq<Card>
    decreases pool.len(),
{
    if pool.len() == 0 {
        Seq::empty()
    } else {
        let keep = greedy_keep(pool.drop_last());
        if clashes(keep, pool.last()) {
            keep
        } else {
            keep.push(pool.last())
        }
    }
}

/// `out` is `input` stably sorted by `key`: a rearrangement, by the
/// distinct positions `perm`, in ascending key order, equal keys keeping
/// their input order.
pub open spec fn stably_sorted<T>(input: Seq<T>, key: spec_fn(T) -> int, out: Seq<T>, perm: Seq<int>) -> bool {
    &&& perm.len() == input.len()
    &&& out.len() == input.len()
    &&& forall|i: int| 0 <= i < perm.len() ==> 0 <= #[trigger] perm[i] < input.len() && out[i] == input[perm[i]]
    &&& forall|i: int, j: int| 0 <= i < j < perm.len() ==> perm[i] != perm[j]
    &&& forall|i: int, j: int| 0 <= i < j < out.len() ==> key(#[trigger] out[i]) <= key(#[trigger] out[j])
    &&& forall|i: int, j: int|
        0 <= i < j < out.len() && key(#[trigger] out[i]) == key(#[trigger] out[j]) ==> perm[i] < perm[j]
}

/// Positions ordered by the key of the input card there, positions
/// breaking ties: the order a stable sort lists positions in.
pub open spec fn position_order<T>(input: Seq<T>, key: spec_fn(T) -> int) -> spec_fn(int, int) -> bool {
    |a: int, b: int| key(input[a]) < key(input[b]) || (key(input[a]) == key(input[b]) && a <= b)
}

proof fn lemma_positions_cover<T>(input: Seq<T>, key: spec_fn(T) -> int, out: Seq<T>, perm: Seq<int>)
    requires
        stably_sorted(input, key, out, perm),
        input.len() <= usize::MAX,
    ensures
        forall|v: int| #[trigger] perm.to_multiset().count(v) == if 0 <= v < input.len() {
            1nat
        } else {
            0nat
        },
{
    broadcast use vstd::seq_lib::group_to_multiset_ensures;

    let n = input.len();
    let q = perm.map_values(|x: int| x as usize);
    assert(crate::seating::is_arrangement(q)) by {
        assert forall|i: int, j: int| 0 <= i < j < q.len() implies q[i] != q[j] by {
            assert(perm[i] != perm[j]);
            assert(0 <= perm[i] < n && 0 <= perm[j] < n);
            assert(q[i] == perm[i] && q[j] == perm[j]);
        }
        assert forall|i: int| 0 <= i < q.len() implies (#[trigger] q[i]) < q.len() by {
            assert(0 <= perm[i] < n);
            assert(q[i] == perm[i]);
        }
    }
    crate::seating::lemma_arrangement_onto(q);
    assert(perm.no_duplicates()) by {
        assert forall|i: int, j: int| 0 <= i < perm.len() && 0 <= j < perm.len() && i != j implies perm[i] != perm[j] by {
            if i < j {
                assert(perm[i] != perm[j]);
            } else {
                assert(perm[j] != perm[i]);
            }
        }
    }
    perm.lemma_multiset_has_no_duplicates();
    assert forall|v: int| #[trigger] perm.to_multiset().count(v) == if 0 <= v < n {
        1nat
    } else {
        0nat
    } by {
        if 0 <= v < n {
            assert(crate::seating::reaches(q, v));
            let b = choose|b: int| 0 <= b < q.len() && q[b] == v;
            assert(0 <= perm[b] < n);
            assert(q[b] == perm[b]);
            assert(perm[b] == v);
            assert(perm.contains(v));
        } else {
            assert(!perm.contains(v));
        }
    }
}

/// A stable sort has one result: two stable sorts of the same input by the
/// same key agree, positions and all.
pub proof fn lemma_stably_sorted_unique<T>(
    input: Seq<T>,
    key: spec_fn(T) -> int,
    out1: Seq<T>,
    perm1: Seq<int>,
    out2: Seq<T>,
    perm2: Seq<int>,
)
    requires
        stably_sorted(input, key, out1, perm1),
        stably_sorted(input, key, out2, perm2),
        input.len() <= usize::MAX,
    ensures
        out1 == out2,
        perm1 == perm2,
{
    let leq = position_order(input, key);
    assert(vstd::relations::total_ordering(leq));
    assert(vstd::relations::sorted_by(perm1, leq)) by {
        assert forall|i: int, j: int| 0 <= i < j < perm1.len() implies #[trigger] leq(perm1[i], perm1[j]) by {
            assert(out1[i] == input[perm1[i]] && out1[j] == input[perm1[j]]);
            assert(key(out1[i]) <= key(out1[j]));
        }
    }
    assert(vstd::relations::sorted_by(perm2, leq)) by {
        assert forall|i: int, j: int| 0 <= i < j < perm2.len() implies #[trigger] leq(perm2[i], perm2[j]) by {
            assert(out2[i] == input[perm2[i]] && out2[j] == input[perm2[j]]);
            assert(key(out2[i]) <= key(out2[j]));
        }
    }
    lemma_positions_cover(input, key, out1, perm1);
    lemma_positions_cover(input, key, out2, perm2);
    assert(perm1.to_multiset() =~= perm2.to_multiset());
    vstd::seq_lib::lemma_sorted_unique(perm1, perm2, leq);
    assert forall|i: int| 0 <= i < out1.len() implies out1[i] == out2[i] by {
        assert(out1[i] == input[perm1[i]]);
        assert(out2[i] == input[perm2[i]]);
    }
    assert(out1 =~= out2);
}

/// The stable sort of `input` by `key`.
pub open spec fn sorted_by_key<T>(input: Seq<T>, key: spec_fn(T) -> int) -> Seq<T> {
    (choose|o: Seq<T>, p: Seq<int>| stably_sorted(input, key, o, p)).0
}

/// Whatever stably sorts `input` by `key` is its stable sort.
pub proof fn lemma_sorted_by_key<T>(input: Seq<T>, key: spec_fn(T) -> int, out: Seq<T>, perm: Seq<int>)
    requires
        stably_sorted(input, key, out, perm),
        input.len() <= usize::MAX,
    ensures
        out == sorted_by_key(input, key),
{
    let (o, p) = choose|o: Seq<T>, p: Seq<int>| stably_sorted(input, key, o, p);
    lemma_stably_sorted_unique(input, key, out, perm, o, p);
}

/// The pair `(a, b)` ordered lexicographically, as one number.
pub open spec fn pair_key(a: nat, b: nat) -> int {
    (a * 65536 + b) as int
}

/// The order key `ranked_discards` sorts `c` of `hand` by, the lowest key
/// shed first; `keep` is the greedy badugi keep for the badugi kinds.
pub open spec fn discard_key(kind: EvalKind, hand: Seq<Card>, keep: Seq<Card>, c: Card) -> int {
    let single = if rank_count(hand, c.rank) < 2 {
        1nat
    } else {
        0
    };
    match kind {
        EvalKind::High | EvalKind::SixesOrBetterHigh => pair_key(rank_count(hand, c.rank), c.rank as nat),
        EvalKind::DeuceToSevenLow => pair_key(single, (13 - c.rank) as nat),
        EvalKind::AceToFiveLow | EvalKind::EightOrBetterLow => pair_key(single, (13 - low_rank(c)) as nat),
        EvalKind::Badugi | EvalKind::BadugiAceHigh => {
            let v = badugi_value(kind == EvalKind::Badugi, c);
            pair_key(
                if keep.contains(c) {
                    1nat
                } else {
                    0
                },
                if v == 0 {
                    0nat
                } else {
                    (256 - v) as nat
                },
            )
        },
    }
}

/// Cards ordered by badugi value.
pub open spec fn value_order(kind: EvalKind) -> spec_fn(Card) -> int {
    |c: Card| badugi_value(kind == EvalKind::Badugi, c) as int
}

/// Cards ordered by [`discard_key`].
pub open spec fn discard_order(kind: EvalKind, hand: Seq<Card>, keep: Seq<Card>) -> spec_fn(Card) -> int {
    |c: Card| discard_key(kind, hand, keep, c)
}

fn count_rank(hand: &Vec<Card>, r: u8) -> (n: u64)
    ensures
        n == rank_count(hand@, r),
        n <= hand@.len(),
{
    let mut n: u64 = 0;
    let mut k: usize = 0;
    while k < hand.len()
        invariant
            k <= hand@.len(),
            n == rank_count(hand@.take(k as int), r),
            n <= k,
        decreases hand@.len() - k,
    {
        proof {
            assert(hand@.take(k as int + 1).drop_last() =~= hand@.take(k as int));
        }
        if hand[k].rank == r {
            n = n + 1;
        }
        k = k + 1;
    }
    proof {
        assert(hand@.take(k as int) =~= hand@);
    }
    n
}

/// Stable insertion of `keys`-ordered items: returns the positions of
/// `keys` in stably sorted order.
fn stable_order(keys: &Vec<u64>) -> (perm: Vec<usize>)
    ensures
        perm@.len() == keys@.len(),
        forall|i: int| 0 <= i < perm@.len() ==> (#[trigger] perm@[i]) < keys@.len(),
        forall|i: int, j: int| 0 <= i < j < perm@.len() ==> perm@[i] != perm@[j],
        forall|i: int, j: int| 0 <= i < j < perm@.len() ==> keys@[#[trigger] perm@[i] as int] <= keys@[#[trigger] perm@[j] as int],
        forall|i: int, j: int|
            0 <= i < j < perm@.len() && keys@[#[trigger] perm@[i] as int] == keys@[#[trigger] perm@[j] as int] ==> perm@[i]
                < perm@[j],
{
    let mut perm: Vec<usize> = Vec::new();
    let mut i: usize = 0;
    while i < keys.len()
        invariant
            i <= keys@.len(),
            perm@.len() == i,
            forall|a: int| 0 <= a < perm@.len() ==> (#[trigger] perm@[a]) < i,
            forall|a: int, b: int| 0 <= a < b < perm@.len() ==> perm@[a] != perm@[b],
            forall|a: int, b: int| 0 <= a < b < perm@.len() ==> keys@[#[trigger] perm@[a] as int] <= keys@[#[trigger] perm@[b] as int],
            forall|a: int, b: int|
                0 <= a < b < perm@.len() && keys@[#[trigger] perm@[a] as int] == keys@[#[trigger] perm@[b] as int] ==> perm@[a]
                    < perm@[b],
        decreases keys@.len() - i,
    {
        let k = keys[i];
        let mut p: usize = 0;
        while p < perm.len() && keys[perm[p]] <= k
            invariant
                p <= perm@.len(),
                forall|a: int| 0 <= a < perm@.len() ==> (#[trigger] perm@[a]) < i,
                i < keys@.len(),
                k == keys@[i as int],
                forall|a: int| 0 <= a < p ==> keys@[#[trigger] perm@[a] as int] <= k,
            decreases perm@.len() - p,
        {
            p = p + 1;
        }
        let ghost before = perm@;
        proof {
            assert forall|a: int| p <= a < before.len() implies k < keys@[#[trigger] before[a] as int] by {
                if a > p {
                    assert(keys@[before[p as int] as int] <= keys@[before[a] as int]);
                }
            }
        }
        perm.insert(p, i);
        proof {
            assert(perm@ == before.insert(p as int, i));
            assert forall|a: int| 0 <= a < perm@.len() implies (#[trigger] perm@[a]) < i + 1 by {
                if a < p {
                    assert(perm@[a] == before[a]);
                } else if a > p {
                    assert(perm@[a] == before[a - 1]);
                }
            }
            assert forall|a: int, b: int| 0 <= a < b < perm@.len() implies perm@[a] != perm@[b] by {
                if a < p && b < p {
                    assert(perm@[a] == before[a] && perm@[b] == before[b]);
                } else if a < p && b == p {
                    assert(perm@[a] == before[a]);
                } else if a < p {
                    assert(perm@[a] == before[a] && perm@[b] == before[b - 1]);
                } else if a == p {
                    assert(perm@[b] == before[b - 1]);
                } else {
                    assert(perm@[a] == before[a - 1] && perm@[b] == before[b - 1]);
                }
            }
            assert forall|a: int, b: int| 0 <= a < b < perm@.len() implies keys@[#[trigger] perm@[a] as int]
                <= keys@[#[trigger] perm@[b] as int] && (keys@[perm@[a] as int] == keys@[perm@[b] as int] ==> perm@[a]
                < perm@[b]) by {
                if a < p && b < p {
                    assert(perm@[a] == before[a] && perm@[b] == before[b]);
                } else if a < p && b == p {
                    assert(perm@[a] == before[a]);
                } else if a < p {
                    assert(perm@[a] == before[a] && perm@[b] == before[b - 1]);
                } else if a == p {
                    assert(perm@[b] == before[b - 1]);
                } else {
                    assert(perm@[a] == before[a - 1] && perm@[b] == before[b - 1]);
                }
            }
        }
        i = i + 1;
    }
    perm
}


fn holds(cards: &Vec<Card>, c: Card) -> (r: bool)
    ensures
        r == cards@.contains(c),
{
    let mut k: usize = 0;
    while k < cards.len()
        invariant
            k <= cards@.len(),
            forall|j: int| 0 <= j < k ==> cards@[j] != c,
        decreases cards@.len() - k,
    {
        if cards[k] == c {
            return true;
        }
        k = k + 1;
    }
    false
}

fn clashes_exec(keep: &Vec<Card>, c: Card) -> (r: bool)
    ensures
        r == clashes(keep@, c),
{
    let mut k: usize = 0;
    while k < keep.len()
        invariant
            k <= keep@.len(),
            forall|j: int| 0 <= j < k ==> !(keep@[j].suit == c.suit || keep@[j].rank == c.rank),
        decreases keep@.len() - k,
    {
        if keep[k].suit == c.suit || keep[k].rank == c.rank {
            return true;
        }
        k = k + 1;
    }
    false
}

/// `hand` rearranged by the positions `perm`.
fn arrange(hand: &Vec<Card>, perm: &Vec<usize>) -> (r: Vec<Card>)
    requires
        forall|i: int| 0 <= i < perm@.len() ==> (#[trigger] perm@[i]) < hand@.len(),
    ensures
        r@.len() == perm@.len(),
        forall|i: int| 0 <= i < perm@.len() ==> #[trigger] r@[i] == hand@[perm@[i] as int],
{
    let mut out: Vec<Card> = Vec::new();
    let mut i: usize = 0;
    while i < perm.len()
        invariant
            i <= perm@.len(),
            forall|a: int| 0 <= a < perm@.len() ==> (#[trigger] perm@[a]) < hand@.len(),
            out@.len() == i,
            forall|a: int| 0 <= a < i ==> #[trigger] out@[a] == hand@[perm@[a] as int],
        decreases perm@.len() - i,
    {
        out.push(hand[perm[i]]);
        i = i + 1;
    }
    out
}

/// `out` lists cards of `hand` worst-first for `kind`, stated card against
/// card: in high games fewer copies of a rank come first, and among equal
/// copies the lower rank; in 2-7 lowball paired cards come first, then the
/// unpaired ones from the highest rank down; ace-to-five and eight-or-better
/// lows likewise with the ace ranked lowest; in badugi the cards outside the
/// keep `keep` come first, and among cards both in or both out of it an ace
/// played low comes first, then the higher values.
pub open spec fn worst_first(kind: EvalKind, hand: Seq<Card>, keep: Seq<Card>, out: Seq<Card>) -> bool {
    forall|i: int, j: int|
        #![trigger out[i], out[j]]
        0 <= i < j < out.len() ==> {
            let a = out[i];
            let b = out[j];
            let ca = rank_count(hand, a.rank);
            let cb = rank_count(hand, b.rank);
            match kind {
                EvalKind::High | EvalKind::SixesOrBetterHigh => ca < cb || (ca == cb && a.rank <= b.rank),
                EvalKind::DeuceToSevenLow => (cb >= 2 ==> ca >= 2) && (ca < 2 && cb < 2 ==> a.rank > b.rank),
                EvalKind::AceToFiveLow | EvalKind::EightOrBetterLow => (cb >= 2 ==> ca >= 2) && (ca < 2 && cb < 2
                    ==> low_rank(a) > low_rank(b)),
                EvalKind::Badugi | EvalKind::BadugiAceHigh => {
                    let va = badugi_value(kind == EvalKind::Badugi, a);
                    let vb = badugi_value(kind == EvalKind::Badugi, b);
                    &&& (!keep.contains(b) ==> !keep.contains(a))
                    &&& (keep.contains(a) == keep.contains(b) ==> va == 0 || (vb != 0 && va >= vb))
                }
            }
        }
}

proof fn lemma_rank_seen(hand: Seq<Card>, p: int)
    requires
        0 <= p < hand.len(),
    ensures
        rank_count(hand, hand[p].rank) >= 1,
    decreases hand.len(),
{
    if p < hand.len() - 1 {
        lemma_rank_seen(hand.drop_last(), p);
        assert(hand.drop_last()[p] == hand[p]);
    }
}

/// Two cards of `hand` at different positions with the same rank make that
/// rank paired.
proof fn lemma_rank_twice(hand: Seq<Card>, p: int, q: int)
    requires
        0 <= p < hand.len(),
        0 <= q < hand.len(),
        p != q,
        hand[p].rank == hand[q].rank,
    ensures
        rank_count(hand, hand[p].rank) >= 2,
    decreases hand.len(),
{
    let last = hand.len() - 1;
    let rest = hand.drop_last();
    if p == last {
        lemma_rank_seen(rest, q);
        assert(rest[q] == hand[q]);
    } else if q == last {
        lemma_rank_seen(rest, p);
        assert(rest[p] == hand[p]);
    } else {
        lemma_rank_twice(rest, p, q);
        assert(rest[p] == hand[p] && rest[q] == hand[q]);
    }
}

/// Whatever stably sorts a hand of valid cards by [`discard_key`] lists it
/// worst-first: paired lowball cards before unpaired ones, unpaired ones
/// from the highest down, high-game pairs last, and so on as
/// [`worst_first`] says.
pub proof fn lemma_discard_order_is_worst_first(
    kind: EvalKind,
    hand: Seq<Card>,
    keep: Seq<Card>,
    out: Seq<Card>,
    perm: Seq<int>,
)
    requires
        forall|i: int| 0 <= i < hand.len() ==> valid_card(#[trigger] hand[i]),
        stably_sorted(hand, discard_order(kind, hand, keep), out, perm),
    ensures
        worst_first(kind, hand, keep, out),
{
    let key = discard_order(kind, hand, keep);
    assert forall|i: int, j: int| #![trigger out[i], out[j]] 0 <= i < j < out.len() implies {
        let a = out[i];
        let b = out[j];
        let ca = rank_count(hand, a.rank);
        let cb = rank_count(hand, b.rank);
        match kind {
            EvalKind::High | EvalKind::SixesOrBetterHigh => ca < cb || (ca == cb && a.rank <= b.rank),
            EvalKind::DeuceToSevenLow => (cb >= 2 ==> ca >= 2) && (ca < 2 && cb < 2 ==> a.rank > b.rank),
            EvalKind::AceToFiveLow | EvalKind::EightOrBetterLow => (cb >= 2 ==> ca >= 2) && (ca < 2 && cb < 2
                ==> low_rank(a) > low_rank(b)),
            EvalKind::Badugi | EvalKind::BadugiAceHigh => {
                let va = badugi_value(kind == EvalKind::Badugi, a);
                let vb = badugi_value(kind == EvalKind::Badugi, b);
                &&& (!keep.contains(b) ==> !keep.contains(a))
                &&& (keep.contains(a) == keep.contains(b) ==> va == 0 || (vb != 0 && va >= vb))
            },
        }
    } by {
        let a = out[i];
        let b = out[j];
        assert(key(a) <= key(b));
        assert(0 <= perm[i] < hand.len() && a == hand[perm[i]]);
        assert(0 <= perm[j] < hand.len() && b == hand[perm[j]]);
        assert(valid_card(a) && valid_card(b));
        assert(perm[i] != perm[j]);
        if a.rank == b.rank {
            lemma_rank_twice(hand, perm[i], perm[j]);
        }
        if low_rank(a) == low_rank(b) {
            assert(a.rank == b.rank);
        }
    }
}

/// The cards of `hand` worst-first for `kind`: its stable sort by the
/// discard key, with the badugi keep taken from its stable sort by value.
pub open spec fn ranked_of(kind: EvalKind, hand: Seq<Card>) -> Seq<Card> {
    sorted_by_key(hand, discard_order(kind, hand, greedy_keep(sorted_by_key(hand, value_order(kind)))))
}

/// Cards of `hand` ordered worst-first for the evaluator `kind`, so that
/// discarding `n` means shedding the first `n`: for high games a low
/// singleton first and pairs last; for 2-7 and ace-to-five lows the paired
/// ranks first, then the highest cards (the ace low in ace-to-five); for
/// badugi the cards outside the greedy rank-and-suit-distinct keep first.
/// The order is a stable sort of `hand` by [`discard_key`].
pub fn ranked_discards(kind: EvalKind, hand: &Vec<Card>) -> (r: Vec<Card>)
    requires
        forall|i: int| 0 <= i < hand@.len() ==> valid_card(#[trigger] hand@[i]),
        forall|r: u8| #[trigger] rank_count(hand@, r) <= 255,
    ensures
        exists|pool: Seq<Card>, pool_perm: Seq<int>, perm: Seq<int>|
            #![trigger stably_sorted(hand@, value_order(kind), pool, pool_perm), stably_sorted(hand@, discard_order(kind, hand@, greedy_keep(pool)), r@, perm)]
            stably_sorted(hand@, value_order(kind), pool, pool_perm) && stably_sorted(
                hand@,
                discard_order(kind, hand@, greedy_keep(pool)),
                r@,
                perm,
            ),
        r@ == ranked_of(kind, hand@),
        worst_first(kind, hand@, greedy_keep(sorted_by_key(hand@, value_order(kind))), r@),
{
    let ace_low = match kind {
        EvalKind::Badugi => true,
        _ => false,
    };
    // The badugi keep, from the cards in ascending value order.
    let mut values: Vec<u64> = Vec::new();
    let mut k: usize = 0;
    while k < hand.len()
        invariant
            k <= hand@.len(),
            forall|i: int| 0 <= i < hand@.len() ==> valid_card(#[trigger] hand@[i]),
            ace_low == (kind == EvalKind::Badugi),
            values@.len() == k,
            forall|i: int| 0 <= i < k ==> #[trigger] values@[i] == badugi_value(ace_low, hand@[i]),
        decreases hand@.len() - k,
    {
        let c = hand[k];
        let v: u64 = if ace_low && c.rank == 12 {
            0
        } else if ace_low {
            c.rank as u64 + 1
        } else {
            c.rank as u64
        };
        values.push(v);
        k = k + 1;
    }
    let pool_order = stable_order(&values);
    let pool = arrange(hand, &pool_order);
    let ghost pool_perm = pool_order@.map_values(|x: usize| x as int);
    proof {
        let vk = value_order(kind);
        assert forall|i: int| 0 <= i < pool@.len() implies vk(#[trigger] pool@[i]) == values@[pool_order@[i] as int] by {}
        assert(stably_sorted(hand@, vk, pool@, pool_perm)) by {
            assert forall|i: int, j: int| 0 <= i < j < pool@.len() implies vk(#[trigger] pool@[i]) <= vk(#[trigger] pool@[j]) by {
                assert(values@[pool_order@[i] as int] <= values@[pool_order@[j] as int]);
            }
            assert forall|i: int, j: int|
                0 <= i < j < pool@.len() && vk(#[trigger] pool@[i]) == vk(#[trigger] pool@[j]) implies pool_perm[i]
                    < pool_perm[j] by {
                assert(values@[pool_order@[i] as int] == values@[pool_order@[j] as int]);
                assert(pool_order@[i] < pool_order@[j]);
            }
        }
    }
    let mut keep: Vec<Card> = Vec::new();
    let mut q: usize = 0;
    while q < pool.len()
        invariant
            q <= pool@.len(),
            keep@ == greedy_keep(pool@.take(q as int)),
        decreases pool@.len() - q,
    {
        proof {
            assert(pool@.take(q as int + 1).drop_last() =~= pool@.take(q as int));
            assert(pool@.take(q as int + 1).last() == pool@[q as int]);
        }
        let c = pool[q];
        if !clashes_exec(&keep, c) {
            keep.push(c);
        }
        q = q + 1;
    }
    proof {
        assert(pool@.take(pool@.len() as int) =~= pool@);
    }
    // The order keys.
    let mut keys: Vec<u64> = Vec::new();
    let mut k: usize = 0;
    while k < hand.len()
        invariant
            k <= hand@.len(),
            forall|i: int| 0 <= i < hand@.len() ==> valid_card(#[trigger] hand@[i]),
            ace_low == (kind == EvalKind::Badugi),
            keep@ == greedy_keep(pool@),
            forall|r: u8| #[trigger] rank_count(hand@, r) <= 255,
            keys@.len() == k,
            forall|i: int| 0 <= i < k ==> #[trigger] keys@[i] == discard_key(kind, hand@, keep@, hand@[i]),
        decreases hand@.len() - k,
    {
        let c = hand[k];
        let count = count_rank(hand, c.rank);
        let single: u64 = if count < 2 {
            1
        } else {
            0
        };
        let key: u64 = match kind {
            EvalKind::High | EvalKind::SixesOrBetterHigh => count * 65536 + c.rank as u64,
            EvalKind::DeuceToSevenLow => single * 65536 + (13 - c.rank) as u64,
            EvalKind::AceToFiveLow | EvalKind::EightOrBetterLow => {
                let low: u64 = if c.rank == 12 {
                    0
                } else {
                    c.rank as u64 + 1
                };
                single * 65536 + (13 - low)
            },
            EvalKind::Badugi | EvalKind::BadugiAceHigh => {
                let v: u64 = if ace_low && c.rank == 12 {
                    0
                } else if ace_low {
                    c.rank as u64 + 1
                } else {
                    c.rank as u64
                };
                let kept: u64 = if holds(&keep, c) {
                    1
                } else {
                    0
                };
                let neg: u64 = if v == 0 {
                    0
                } else {
                    256 - v
                };
                kept * 65536 + neg
            },
        };
        proof {
            assert(count <= hand@.len());
        }
        keys.push(key);
        k = k + 1;
    }
    let order = stable_order(&keys);
    let out = arrange(hand, &order);
    let ghost perm = order@.map_values(|x: usize| x as int);
    proof {
        let dk = discard_order(kind, hand@, greedy_keep(pool@));
        assert forall|i: int| 0 <= i < out@.len() implies dk(#[trigger] out@[i]) == keys@[order@[i] as int] by {}
        assert(stably_sorted(hand@, dk, out@, perm) && stably_sorted(hand@, value_order(kind), pool@, pool_perm)) by {
            assert forall|i: int, j: int| 0 <= i < j < out@.len() implies dk(#[trigger] out@[i]) <= dk(#[trigger] out@[j]) by {
                assert(keys@[order@[i] as int] <= keys@[order@[j] as int]);
            }
            assert forall|i: int, j: int|
                0 <= i < j < out@.len() && dk(#[trigger] out@[i]) == dk(#[trigger] out@[j]) implies perm[i] < perm[j] by {
                assert(keys@[order@[i] as int] == keys@[order@[j] as int]);
                assert(order@[i] < order@[j]);
            }
        }
        lemma_sorted_by_key(hand@, value_order(kind), pool@, pool_perm);
        lemma_sorted_by_key(hand@, dk, out@, perm);
        lemma_discard_order_is_worst_first(kind, hand@, greedy_keep(pool@), out@, perm);
    }
    out
}


/// `a` is a lower door card than `b`: lower rank, suits breaking ties.
pub open spec fn door_less(a: Card, b: Card) -> bool {
    a.rank < b.rank || (a.rank == b.rank && a.suit < b.suit)
}

/// Which seat posts the stud bring-in: the worse door card (first upcard),
/// lowest for high games and highest for `low` games, suits breaking ties.
pub fn bring_in_seat(low: bool, up: &[Vec<Card>; 2]) -> (r: usize)
    requires
        up@[0]@.len() > 0,
        up@[1]@.len() > 0,
    ensures
        r == if (if low {
            door_less(up@[1]@[0], up@[0]@[0])
        } else {
            door_less(up@[0]@[0], up@[1]@[0])
        }) {
            0usize
        } else {
            1usize
        },
{
    let d0 = up[0][0];
    let d1 = up[1][0];
    let zero_worse = if low {
        d1.rank < d0.rank || (d1.rank == d0.rank && d1.suit < d0.suit)
    } else {
        d0.rank < d1.rank || (d0.rank == d1.rank && d0.suit < d1.suit)
    };
    if zero_worse {
        0
    } else {
        1
    }
}

/// The ranks showing in `cards` as `(count, rank)` groups, highest rank
/// first.
pub open spec fn rank_groups(cards: Seq<Card>) -> Seq<(u8, u8)> {
    groups_from(cards, 13)
}

/// The groups of the ranks below `r`, highest first.
pub open spec fn groups_from(cards: Seq<Card>, r: nat) -> Seq<(u8, u8)>
    decreases r,
{
    if r == 0 {
        Seq::empty()
    } else {
        let rank = (r - 1) as u8;
        let rest = groups_from(cards, (r - 1) as nat);
        if rank_count(cards, rank) > 0 {
            seq![(rank_count(cards, rank) as u8, rank)] + rest
        } else {
            rest
        }
    }
}

/// Groups ordered by count, larger first.
pub open spec fn count_order() -> spec_fn((u8, u8)) -> int {
    |g: (u8, u8)| 255 - g.0
}

/// `a` against `b` in lexicographic order: negative, zero or positive,
/// a proper prefix ranking first.
pub open spec fn lex_order(a: Seq<u8>, b: Seq<u8>) -> int
    decreases a.len(),
{
    if a.len() == 0 && b.len() == 0 {
        0
    } else if a.len() == 0 {
        -1
    } else if b.len() == 0 {
        1
    } else if a[0] < b[0] {
        -1
    } else if a[0] > b[0] {
        1
    } else {
        lex_order(a.skip(1), b.skip(1))
    }
}

/// A showing hand's score: the largest group's count, then the group ranks
/// in order.
pub open spec fn score_order(a: (u8, Seq<u8>), b: (u8, Seq<u8>)) -> int {
    if a.0 < b.0 {
        -1
    } else if a.0 > b.0 {
        1
    } else {
        lex_order(a.1, b.1)
    }
}

/// `s` is the score of the groups `g` (largest count first).
pub open spec fn score_of(g: Seq<(u8, u8)>, s: (u8, Seq<u8>)) -> bool {
    &&& s.0 == if g.len() > 0 {
        g[0].0
    } else {
        0u8
    }
    &&& s.1 == g.map_values(|x: (u8, u8)| x.1)
}

fn rank_groups_exec(cards: &Vec<Card>) -> (g: Vec<(u8, u8)>)
    requires
        forall|r: u8| #[trigger] rank_count(cards@, r) <= 255,
    ensures
        g@ == rank_groups(cards@),
{
    let mut g: Vec<(u8, u8)> = Vec::new();
    let mut r: u8 = 13;
    while r > 0
        invariant
            r <= 13,
            forall|x: u8| #[trigger] rank_count(cards@, x) <= 255,
            g@ + groups_from(cards@, r as nat) == rank_groups(cards@),
        decreases r,
    {
        let rank = r - 1;
        let n = count_rank(cards, rank);
        if n > 0 {
            g.push((n as u8, rank));
            proof {
                assert(g@ + groups_from(cards@, rank as nat) =~= rank_groups(cards@));
            }
        }
        r = rank;
    }
    proof {
        assert(g@ + Seq::<(u8, u8)>::empty() =~= g@);
    }
    g
}

/// The score of a showing stud hand: its rank groups stably sorted by
/// size, largest first; the largest group's count, then the group ranks.
pub open spec fn showing_score(cards: Seq<Card>) -> (u8, Seq<u8>) {
    let g = sorted_by_key(rank_groups(cards), count_order());
    (if g.len() > 0 {
        g[0].0
    } else {
        0u8
    }, g.map_values(|x: (u8, u8)| x.1))
}

/// The seat that leads a later stud street: the better showing score (the
/// lower for `low` games), ties to seat 0; seat 1 in a game with no bring-in.
pub open spec fn lead_of(low: Option<bool>, up0: Seq<Card>, up1: Seq<Card>) -> int {
    match low {
        None => 1,
        Some(l) => {
            let c = score_order(showing_score(up0), showing_score(up1));
            if (if l {
                c <= 0
            } else {
                c >= 0
            }) {
                0
            } else {
                1
            }
        },
    }
}

/// The score of a showing stud hand and, through the stable sort by group
/// size, its groups.
fn score(cards: &Vec<Card>) -> (s: (u8, Vec<u8>))
    requires
        forall|r: u8| #[trigger] rank_count(cards@, r) <= 255,
    ensures
        exists|g: Seq<(u8, u8)>, perm: Seq<int>|
            #![trigger stably_sorted(rank_groups(cards@), count_order(), g, perm)]
            stably_sorted(rank_groups(cards@), count_order(), g, perm) && score_of(g, (s.0, s.1@)),
        (s.0, s.1@) == showing_score(cards@),
{
    let groups = rank_groups_exec(cards);
    let mut keys: Vec<u64> = Vec::new();
    let mut k: usize = 0;
    while k < groups.len()
        invariant
            k <= groups@.len(),
            keys@.len() == k,
            forall|i: int| 0 <= i < k ==> #[trigger] keys@[i] == 255 - groups@[i].0,
        decreases groups@.len() - k,
    {
        keys.push(255 - groups[k].0 as u64);
        k = k + 1;
    }
    let order = stable_order(&keys);
    let mut sorted: Vec<(u8, u8)> = Vec::new();
    let mut ranks: Vec<u8> = Vec::new();
    let mut i: usize = 0;
    while i < order.len()
        invariant
            i <= order@.len(),
            order@.len() == groups@.len(),
            forall|a: int| 0 <= a < order@.len() ==> (#[trigger] order@[a]) < groups@.len(),
            sorted@.len() == i,
            ranks@.len() == i,
            forall|a: int| 0 <= a < i ==> #[trigger] sorted@[a] == groups@[order@[a] as int],
            forall|a: int| 0 <= a < i ==> #[trigger] ranks@[a] == sorted@[a].1,
        decreases order@.len() - i,
    {
        let e = groups[order[i]];
        sorted.push(e);
        ranks.push(e.1);
        i = i + 1;
    }
    let class: u8 = if sorted.len() > 0 {
        sorted[0].0
    } else {
        0
    };
    let ghost perm = order@.map_values(|x: usize| x as int);
    proof {
        let co = count_order();
        assert forall|a: int| 0 <= a < sorted@.len() implies co(#[trigger] sorted@[a]) == keys@[order@[a] as int] by {}
        assert(stably_sorted(rank_groups(cards@), co, sorted@, perm)) by {
            assert forall|a: int, b: int| 0 <= a < b < sorted@.len() implies co(#[trigger] sorted@[a]) <= co(
                #[trigger] sorted@[b],
            ) by {
                assert(keys@[order@[a] as int] <= keys@[order@[b] as int]);
            }
            assert forall|a: int, b: int|
                0 <= a < b < sorted@.len() && co(#[trigger] sorted@[a]) == co(#[trigger] sorted@[b]) implies perm[a]
                    < perm[b] by {
                assert(keys@[order@[a] as int] == keys@[order@[b] as int]);
                assert(order@[a] < order@[b]);
            }
        }
        assert(ranks@ =~= sorted@.map_values(|x: (u8, u8)| x.1));
        lemma_sorted_by_key(rank_groups(cards@), co, sorted@, perm);
    }
    (class, ranks)
}

fn compare_ranks(a: &Vec<u8>, b: &Vec<u8>) -> (r: i8)
    ensures
        r as int == lex_order(a@, b@),
{
    let mut i: usize = 0;
    proof {
        assert(a@.skip(0) =~= a@);
        assert(b@.skip(0) =~= b@);
    }
    while i < a.len() && i < b.len()
        invariant
            i <= a@.len(),
            i <= b@.len(),
            lex_order(a@, b@) == lex_order(a@.skip(i as int), b@.skip(i as int)),
        decreases a@.len() - i,
    {
        if a[i] < b[i] {
            return -1;
        }
        if a[i] > b[i] {
            return 1;
        }
        proof {
            assert(a@.skip(i as int).skip(1) =~= a@.skip(i as int + 1));
            assert(b@.skip(i as int).skip(1) =~= b@.skip(i as int + 1));
        }
        i = i + 1;
    }
    if i < a.len() {
        1
    } else if i < b.len() {
        -1
    } else {
        0
    }
}

/// Which seat leads a later stud street: the better showing hand (for
/// `low` games the lower), ties to seat 0; seat 1 when the game has no
/// bring-in (`low` is `None`).
pub fn lead_seat(low: Option<bool>, up: &[Vec<Card>; 2]) -> (r: usize)
    requires
        forall|r: u8| #[trigger] rank_count(up@[0]@, r) <= 255,
        forall|r: u8| #[trigger] rank_count(up@[1]@, r) <= 255,
    ensures
        r < 2,
        low is None ==> r == 1,
        low is Some ==> exists|g0: Seq<(u8, u8)>, p0: Seq<int>, s0: (u8, Seq<u8>), g1: Seq<(u8, u8)>, p1: Seq<int>, s1: (u8, Seq<u8>)|
            #![trigger stably_sorted(rank_groups(up@[0]@), count_order(), g0, p0), stably_sorted(rank_groups(up@[1]@), count_order(), g1, p1), score_of(g0, s0), score_of(g1, s1)]
            stably_sorted(rank_groups(up@[0]@), count_order(), g0, p0) && score_of(g0, s0) && stably_sorted(
                rank_groups(up@[1]@),
                count_order(),
                g1,
                p1,
            ) && score_of(g1, s1) && r == if (if low->0 {
                score_order(s0, s1) <= 0
            } else {
                score_order(s0, s1) >= 0
            }) {
                0usize
            } else {
                1usize
            },
        r == lead_of(low, up@[0]@, up@[1]@),
{
    let low = match low {
        None => {
            return 1;
        },
        Some(l) => l,
    };
    let a = score(&up[0]);
    let b = score(&up[1]);
    let c: i8 = if a.0 < b.0 {
        -1
    } else if a.0 > b.0 {
        1
    } else {
        compare_ranks(&a.1, &b.1)
    };
    let zero_leads = if low {
        c <= 0
    } else {
        c >= 0
    };
    if zero_leads {
        0
    } else {
        1
    }
}

/// A partial 2-7 middle can still become a ten-low: no rank repeats and
/// none is above a ten.
pub open spec fn still_qualifies(middle: Seq<Card>) -> bool {
    &&& forall|i: int| 0 <= i < middle.len() ==> (#[trigger] middle[i]).rank <= 8
    &&& forall|i: int, j: int| 0 <= i < j < middle.len() ==> (#[trigger] middle[i]).rank != (#[trigger] middle[j]).rank
}

/// Whether a partial 2-7 middle can still qualify: only the two
/// irreversible losses, a pair or a card above a ten, are checked.
pub fn can_still_qualify(middle: &Vec<Card>) -> (r: bool)
    ensures
        r == still_qualifies(middle@),
{
    let mut seen: Vec<bool> = Vec::new();
    let mut k: usize = 0;
    while k < 13
        invariant
            k <= 13,
            seen@.len() == k,
            forall|i: int| 0 <= i < k ==> !(#[trigger] seen@[i]),
        decreases 13 - k,
    {
        seen.push(false);
        k = k + 1;
    }
    let mut i: usize = 0;
    while i < middle.len()
        invariant
            i <= middle@.len(),
            seen@.len() == 13,
            forall|a: int| 0 <= a < i ==> (#[trigger] middle@[a]).rank <= 8,
            forall|a: int, b: int| 0 <= a < b < i ==> (#[trigger] middle@[a]).rank != (#[trigger] middle@[b]).rank,
            forall|x: int| 0 <= x < 13 ==> (#[trigger] seen@[x] <==> exists|a: int| 0 <= a < i && middle@[a].rank == x),
        decreases middle@.len() - i,
    {
        let rank = middle[i].rank;
        if rank > 8 {
            return false;
        }
        if seen[rank as usize] {
            proof {
                let a = choose|a: int| 0 <= a < i && middle@[a].rank == rank;
                assert(middle@[a].rank == middle@[i as int].rank);
            }
            return false;
        }
        let ghost before = seen@;
        seen.set(rank as usize, true);
        proof {
            assert forall|x: int| 0 <= x < 13 implies (#[trigger] seen@[x] <==> exists|a: int|
                0 <= a < i + 1 && middle@[a].rank == x) by {
                if x != rank {
                    assert(seen@[x] == before[x]);
                    if exists|a: int| 0 <= a < i + 1 && middle@[a].rank == x {
                        let a = choose|a: int| 0 <= a < i + 1 && middle@[a].rank == x;
                        assert(a < i);
                    }
                } else {
                    assert(middle@[i as int].rank == x);
                }
            }
            assert forall|a: int, b: int| 0 <= a < b < i + 1 implies (#[trigger] middle@[a]).rank != (
            #[trigger] middle@[b]).rank by {
                if b == i {
                    if middle@[a].rank == middle@[b].rank {
                        assert(before[rank as int]);
                    }
                }
            }
        }
        i = i + 1;
    }
    true
}

} // verus!
