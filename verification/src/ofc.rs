//! Open Face Chinese placement: boards and rows, the deterministic filler
//! placement the arena substitutes for a faulted decision, and the
//! canonical enumeration of every legal option of a turn.
use vstd::prelude::*;

verus! {

/// `s` is strictly ascending.
pub open spec fn ascending(s: Seq<usize>) -> bool {
    forall|i: int, j: int| 0 <= i < j < s.len() ==> s[i] < s[j]
}

/// `s` is a `k`-subset of `lo..n`, written ascending.
pub open spec fn is_subset_of_range(s: Seq<usize>, lo: int, n: int, k: int) -> bool {
    &&& s.len() == k
    &&& ascending(s)
    &&& forall|i: int| 0 <= i < s.len() ==> lo <= #[trigger] s[i] < n
}

/// `a` comes before `b` in lexicographic order.
pub open spec fn lex_less(a: Seq<usize>, b: Seq<usize>) -> bool {
    exists|i: int|
        0 <= i < a.len() && i < b.len() && (forall|j: int| 0 <= j < i ==> a[j] == b[j]) && #[trigger] a[i]
            < #[trigger] b[i]
}

/// Every `k`-subset of `start..n` as ascending sequences, in lexicographic
/// order: those holding `start` first, then those that skip it.
pub open spec fn combos_from(start: nat, n: nat, k: nat) -> Seq<Seq<usize>>
    decreases n - start,
{
    if k == 0 {
        seq![Seq::empty()]
    } else if start >= n {
        Seq::empty()
    } else {
        combos_from(start + 1, n, (k - 1) as nat).map_values(|c: Seq<usize>| seq![start as usize] + c)
            + combos_from(start + 1, n, k)
    }
}

proof fn lemma_combos_from(start: nat, n: nat, k: nat)
    requires
        n <= usize::MAX,
    ensures
        forall|i: int| 0 <= i < combos_from(start, n, k).len()
            ==> is_subset_of_range(#[trigger] combos_from(start, n, k)[i], start as int, n as int, k as int),
        forall|i: int, j: int| 0 <= i < j < combos_from(start, n, k).len()
            ==> lex_less(#[trigger] combos_from(start, n, k)[i], #[trigger] combos_from(start, n, k)[j]),
        forall|s: Seq<usize>| is_subset_of_range(s, start as int, n as int, k as int)
            ==> #[trigger] combos_from(start, n, k).contains(s),
    decreases n - start,
{
    let all = combos_from(start, n, k);
    if k == 0 {
        assert forall|s: Seq<usize>| is_subset_of_range(s, start as int, n as int, k as int) implies #[trigger] all.contains(
            s,
        ) by {
            assert(s =~= Seq::<usize>::empty());
            assert(all[0] == s);
        }
    } else if start >= n {
        assert forall|s: Seq<usize>| is_subset_of_range(s, start as int, n as int, k as int) implies #[trigger] all.contains(
            s,
        ) by {
            assert(start <= s[0] < n);
        }
    } else {
        lemma_combos_from(start + 1, n, (k - 1) as nat);
        lemma_combos_from(start + 1, n, k);
        let with = combos_from(start + 1, n, (k - 1) as nat);
        let without = combos_from(start + 1, n, k);
        let first = with.map_values(|c: Seq<usize>| seq![start as usize] + c);
        assert(all == first + without);
        assert forall|i: int| 0 <= i < all.len() implies is_subset_of_range(#[trigger] all[i], start as int, n as int, k as int) by {
            if i < first.len() {
                let c = with[i];
                assert(all[i] == seq![start as usize] + c);
                assert(is_subset_of_range(c, (start + 1) as int, n as int, k - 1));
                assert forall|a: int, b: int| 0 <= a < b < all[i].len() implies all[i][a] < all[i][b] by {
                    if a == 0 {
                        assert(c[b - 1] >= start + 1);
                    } else {
                        assert(c[a - 1] < c[b - 1]);
                    }
                }
                assert forall|a: int| 0 <= a < all[i].len() implies start <= #[trigger] all[i][a] < n by {
                    if a > 0 {
                        assert(start + 1 <= c[a - 1] < n);
                    }
                }
            } else {
                assert(all[i] == without[i - first.len()]);
            }
        }
        assert forall|i: int, j: int| 0 <= i < j < all.len() implies lex_less(#[trigger] all[i], #[trigger] all[j]) by {
            if j < first.len() {
                let ci = with[i];
                let cj = with[j];
                assert(lex_less(ci, cj));
                let w = choose|w: int|
                    0 <= w < ci.len() && w < cj.len() && (forall|v: int| 0 <= v < w ==> ci[v] == cj[v])
                        && #[trigger] ci[w] < #[trigger] cj[w];
                assert(all[i] == seq![start as usize] + ci);
                assert(all[j] == seq![start as usize] + cj);
                assert(all[i][w + 1] == ci[w] && all[j][w + 1] == cj[w]);
                assert forall|v: int| 0 <= v < w + 1 implies all[i][v] == all[j][v] by {
                    if v > 0 {
                        assert(ci[v - 1] == cj[v - 1]);
                    }
                }
            } else if i < first.len() {
                let ci = with[i];
                assert(all[i] == seq![start as usize] + ci);
                assert(all[j] == without[j - first.len()]);
                assert(is_subset_of_range(without[j - first.len()], (start + 1) as int, n as int, k as int));
                assert(all[j][0] >= start + 1);
                assert(all[i][0] == start);
            } else {
                assert(all[i] == without[i - first.len()]);
                assert(all[j] == without[j - first.len()]);
            }
        }
        assert forall|s: Seq<usize>| is_subset_of_range(s, start as int, n as int, k as int) implies #[trigger] all.contains(
            s,
        ) by {
            if s[0] == start {
                let rest = s.drop_first();
                assert forall|a: int, b: int| 0 <= a < b < rest.len() implies rest[a] < rest[b] by {
                    assert(s[a + 1] < s[b + 1]);
                }
                assert forall|a: int| 0 <= a < rest.len() implies start + 1 <= #[trigger] rest[a] < n by {
                    assert(s[0] < s[a + 1]);
                }
                assert(is_subset_of_range(rest, (start + 1) as int, n as int, k - 1));
                assert(with.contains(rest));
                let w = choose|w: int| 0 <= w < with.len() && with[w] == rest;
                assert(seq![start as usize] + rest =~= s);
                assert(all[w] == s);
            } else {
                assert forall|a: int| 0 <= a < s.len() implies start + 1 <= #[trigger] s[a] < n by {
                    if a > 0 {
                        assert(s[0] < s[a]);
                    }
                }
                assert(is_subset_of_range(s, (start + 1) as int, n as int, k as int));
                assert(without.contains(s));
                let w = choose|w: int| 0 <= w < without.len() && without[w] == s;
                assert(all[first.len() + w] == s);
            }
        }
    }
}


/// The plain sequences a list of index vectors holds.
pub open spec fn index_lists(v: Seq<Vec<usize>>) -> Seq<Seq<usize>> {
    v.map_values(|x: Vec<usize>| x@)
}

fn combos_exec(start: usize, n: usize, k: usize) -> (r: Vec<Vec<usize>>)
    requires
        start <= n,
    ensures
        index_lists(r@) == combos_from(start as nat, n as nat, k as nat),
    decreases n - start,
{
    if k == 0 {
        let mut out: Vec<Vec<usize>> = Vec::new();
        out.push(Vec::new());
        proof {
            assert(index_lists(out@) =~= seq![Seq::<usize>::empty()]);
        }
        return out;
    }
    if start >= n {
        let out: Vec<Vec<usize>> = Vec::new();
        proof {
            assert(index_lists(out@) =~= Seq::<Seq<usize>>::empty());
        }
        return out;
    }
    let with = combos_exec(start + 1, n, k - 1);
    let ghost with_view = combos_from((start + 1) as nat, n as nat, (k - 1) as nat);
    let ghost first = with_view.map_values(|c: Seq<usize>| seq![start as usize] + c);
    let mut out: Vec<Vec<usize>> = Vec::new();
    let mut i: usize = 0;
    while i < with.len()
        invariant
            i <= with@.len(),
            index_lists(with@) == with_view,
            first == with_view.map_values(|c: Seq<usize>| seq![start as usize] + c),
            index_lists(out@) == first.take(i as int),
        decreases with@.len() - i,
    {
        let c = &with[i];
        let mut v: Vec<usize> = Vec::new();
        v.push(start);
        let mut j: usize = 0;
        while j < c.len()
            invariant
                j <= c@.len(),
                v@ == seq![start as usize] + c@.take(j as int),
            decreases c@.len() - j,
        {
            v.push(c[j]);
            proof {
                assert(c@.take(j as int + 1) =~= c@.take(j as int).push(c@[j as int]));
                assert(v@ =~= seq![start as usize] + c@.take(j as int + 1));
            }
            j = j + 1;
        }
        proof {
            assert(c@.take(c@.len() as int) =~= c@);
            assert(with_view[i as int] == c@);
        }
        let ghost prev = out@;
        out.push(v);
        proof {
            assert(first[i as int] == seq![start as usize] + with_view[i as int]);
            assert(v@ == first[i as int]);
            assert(out@ == prev.push(v));
            assert(index_lists(out@) =~= index_lists(prev).push(v@));
            assert(first.take(i as int + 1) =~= first.take(i as int).push(first[i as int]));
            assert(index_lists(out@) =~= first.take(i as int + 1));
        }
        i = i + 1;
    }
    let mut without = combos_exec(start + 1, n, k);
    let ghost before = out@;
    out.append(&mut without);
    proof {
        assert(first.take(first.len() as int) =~= first);
        assert(index_lists(out@) =~= index_lists(before) + combos_from((start + 1) as nat, n as nat, k as nat));
    }
    out
}

/// Every `k`-subset of `0..n` as ascending index vectors, in lexicographic
/// order (none when `k > n`).
pub fn combinations(n: usize, k: usize) -> (r: Vec<Vec<usize>>)
    ensures
        index_lists(r@) == combos_from(0, n as nat, k as nat),
        r@.len() == binomial(n as nat, k as nat),
        forall|i: int| 0 <= i < r@.len() ==> is_subset_of_range(#[trigger] r@[i]@, 0, n as int, k as int),
        forall|i: int, j: int| 0 <= i < j < r@.len() ==> lex_less(#[trigger] r@[i]@, #[trigger] r@[j]@),
        forall|s: Seq<usize>| is_subset_of_range(s, 0, n as int, k as int) ==> #[trigger] index_lists(r@).contains(s),
{
    let r = combos_exec(0, n, k);
    proof {
        lemma_combinations_count(n as nat, k as nat);
        assert(index_lists(r@).len() == r@.len());
        lemma_combos_from(0, n as nat, k as nat);
        let all = combos_from(0, n as nat, k as nat);
        assert forall|i: int| 0 <= i < r@.len() implies is_subset_of_range(#[trigger] r@[i]@, 0, n as int, k as int) by {
            assert(all[i] == r@[i]@);
        }
        assert forall|i: int, j: int| 0 <= i < j < r@.len() implies lex_less(#[trigger] r@[i]@, #[trigger] r@[j]@) by {
            assert(all[i] == r@[i]@);
            assert(all[j] == r@[j]@);
        }
    }
    r
}


/// The binomial coefficient `m` choose `k`, by Pascal's rule.
pub open spec fn binomial(m: nat, k: nat) -> nat
    decreases m,
{
    if k == 0 {
        1
    } else if m == 0 {
        0
    } else {
        binomial((m - 1) as nat, (k - 1) as nat) + binomial((m - 1) as nat, k)
    }
}

proof fn lemma_combos_count(start: nat, n: nat, k: nat)
    ensures
        combos_from(start, n, k).len() == binomial(if start >= n { 0 } else { (n - start) as nat }, k),
    decreases n - start,
{
    if k != 0 && start < n {
        lemma_combos_count(start + 1, n, (k - 1) as nat);
        lemma_combos_count(start + 1, n, k);
    }
}

/// There are exactly `n` choose `k` of the `k`-subsets that
/// [`combinations`] lists.
pub proof fn lemma_combinations_count(n: nat, k: nat)
    ensures
        combos_from(0, n, k).len() == binomial(n, k),
{
    lemma_combos_count(0, n, k);
}

/// A row of an OFC board, in the declaration order used everywhere:
/// top, middle, bottom.
#[derive(Clone, Copy, Debug, PartialEq, Eq, Structural)]
pub enum Row {
    Top,
    Middle,
    Bottom,
}

/// Cards a full top row holds.
pub const TOP_CAPACITY: usize = 3;
/// Cards a full middle row holds.
pub const MIDDLE_CAPACITY: usize = 5;
/// Cards a full bottom row holds.
pub const BOTTOM_CAPACITY: usize = 5;

/// The cards a row holds when complete.
pub open spec fn row_capacity(row: Row) -> nat {
    match row {
        Row::Top => TOP_CAPACITY as nat,
        Row::Middle => MIDDLE_CAPACITY as nat,
        Row::Bottom => BOTTOM_CAPACITY as nat,
    }
}

/// A player's board: the cards placed in each row, each card by its index
/// in the deck (`0..52`), which is what orders and identifies it.
#[derive(Clone, Debug)]
pub struct OfcBoard {
    pub top: Vec<u8>,
    pub middle: Vec<u8>,
    pub bottom: Vec<u8>,
}

impl OfcBoard {
    /// The cards placed in `row` so far.
    pub open spec fn row_view(&self, row: Row) -> Seq<u8> {
        match row {
            Row::Top => self.top@,
            Row::Middle => self.middle@,
            Row::Bottom => self.bottom@,
        }
    }

    /// Room left in `row`: its capacity less what it holds, never below zero.
    pub open spec fn spec_free(&self, row: Row) -> nat {
        if self.row_view(row).len() >= row_capacity(row) {
            0
        } else {
            (row_capacity(row) - self.row_view(row).len()) as nat
        }
    }

    /// An empty board.
    pub fn new() -> (b: OfcBoard)
        ensures
            b.top@.len() == 0,
            b.middle@.len() == 0,
            b.bottom@.len() == 0,
    {
        OfcBoard { top: Vec::new(), middle: Vec::new(), bottom: Vec::new() }
    }

    /// Room left in `row`.
    pub fn free(&self, row: Row) -> (r: usize)
        ensures
            r == self.spec_free(row),
    {
        let (len, cap) = match row {
            Row::Top => (self.top.len(), TOP_CAPACITY),
            Row::Middle => (self.middle.len(), MIDDLE_CAPACITY),
            Row::Bottom => (self.bottom.len(), BOTTOM_CAPACITY),
        };
        if len >= cap {
            0
        } else {
            cap - len
        }
    }
}

/// One dealt card and the row it goes to.
#[derive(Clone, Copy, Debug, PartialEq, Eq, Structural)]
pub struct OfcPlacement {
    pub card: u8,
    pub row: Row,
}

/// A placement decision: the cards placed, in order, and the cards
/// discarded.
#[derive(Clone, Debug, PartialEq, Eq)]
pub struct OfcAction {
    pub placements: Vec<OfcPlacement>,
    pub discards: Vec<u8>,
}

/// `s` is in ascending (non-decreasing) order.
pub open spec fn sorted_cards(s: Seq<u8>) -> bool {
    forall|i: int, j: int| 0 <= i <= j < s.len() ==> s[i] <= s[j]
}

/// The row the filler gives the `k`-th card it places (counting from
/// zero) when the rows start with `free_top`, `free_middle` and
/// `free_bottom` open slots: bottom while it has room, then middle, then
/// top, where every card beyond the board's room also lands.
pub open spec fn filler_row(k: int, free_top: nat, free_middle: nat, free_bottom: nat) -> Row {
    if k < free_bottom {
        Row::Bottom
    } else if k < free_bottom + free_middle {
        Row::Middle
    } else {
        Row::Top
    }
}

/// Sorts card indices ascending; the result holds exactly the input cards.
pub(crate) fn sort_cards(cards: &[u8]) -> (r: Vec<u8>)
    ensures
        sorted_cards(r@),
        r@.to_multiset() == cards@.to_multiset(),
        r@.len() == cards@.len(),
{
    broadcast use vstd::seq_lib::group_to_multiset_ensures;

    let mut out: Vec<u8> = Vec::new();
    let mut i: usize = 0;
    while i < cards.len()
        invariant
            i <= cards@.len(),
            sorted_cards(out@),
            out@.len() == i,
            out@.to_multiset() == cards@.take(i as int).to_multiset(),
        decreases cards@.len() - i,
    {
        let c = cards[i];
        let mut p: usize = 0;
        while p < out.len() && out[p] <= c
            invariant
                p <= out@.len(),
                forall|q: int| 0 <= q < p ==> out@[q] <= c,
            decreases out@.len() - p,
        {
            p = p + 1;
        }
        proof {
            assert(forall|q: int| p <= q < out@.len() ==> c < out@[q]) by {
                if p < out@.len() {
                    assert(c < out@[p as int]);
                }
            }
        }
        let ghost before = out@;
        out.insert(p, c);
        proof {
            assert(out@ == before.insert(p as int, c));
            assert(cards@.take(i as int + 1) =~= cards@.take(i as int).push(c));
            vstd::seq_lib::to_multiset_insert(before, p as int, c);
            vstd::seq_lib::to_multiset_build(cards@.take(i as int), c);
            assert forall|a: int, b: int| 0 <= a <= b < out@.len() implies out@[a] <= out@[b] by {
                if a < p && b < p {
                    assert(out@[a] == before[a] && out@[b] == before[b]);
                } else if a < p && b == p {
                    assert(out@[a] == before[a]);
                } else if a < p {
                    assert(out@[a] == before[a] && out@[b] == before[b - 1]);
                } else if a == p && b > p {
                    assert(out@[b] == before[b - 1]);
                } else if a > p {
                    assert(out@[a] == before[a - 1] && out@[b] == before[b - 1]);
                }
            }
        }
        i = i + 1;
    }
    proof {
        assert(cards@.take(cards@.len() as int) =~= cards@);
    }
    out
}

/// The deterministic placement used both as the floor bot's whole strategy
/// and as the arena's answer to a faulted placement: the dealt cards sorted
/// ascending by index, the first `place` of them dropped into bottom while
/// it has room, then middle, then top, and the rest discarded (in ascending
/// order).
pub fn filler_action(dealt: &[u8], place: u8, board: &OfcBoard) -> (r: OfcAction)
    requires
        place as int <= dealt@.len(),
    ensures
        r.placements@.len() == place,
        r.discards@.len() == dealt@.len() - place,
        ({
            let all = r.placements@.map_values(|p: OfcPlacement| p.card) + r.discards@;
            &&& sorted_cards(all)
            &&& all.to_multiset() == dealt@.to_multiset()
        }),
        forall|k: int|
            0 <= k < place ==> (#[trigger] r.placements@[k]).row == filler_row(
                k,
                board.spec_free(Row::Top),
                board.spec_free(Row::Middle),
                board.spec_free(Row::Bottom),
            ),
{
    let sorted = sort_cards(dealt);
    let free_top = board.free(Row::Top);
    let free_middle = board.free(Row::Middle);
    let free_bottom = board.free(Row::Bottom);
    let mut left_middle = free_middle;
    let mut left_bottom = free_bottom;
    let mut placements: Vec<OfcPlacement> = Vec::new();
    let mut k: usize = 0;
    while k < place as usize
        invariant
            k <= place,
            place as int <= sorted@.len(),
            free_top == board.spec_free(Row::Top),
            free_middle == board.spec_free(Row::Middle),
            free_bottom == board.spec_free(Row::Bottom),
            placements@.len() == k,
            forall|q: int| 0 <= q < k ==> (#[trigger] placements@[q]).card == sorted@[q],
            forall|q: int|
                0 <= q < k ==> (#[trigger] placements@[q]).row == filler_row(
                    q,
                    free_top as nat,
                    free_middle as nat,
                    free_bottom as nat,
                ),
            left_bottom == if k < free_bottom { free_bottom - k } else { 0 },
            left_middle == if k <= free_bottom { free_middle as int } else if k
                < free_bottom + free_middle { free_bottom + free_middle - k } else { 0 },
        decreases place - k,
    {
        let row = if left_bottom > 0 {
            left_bottom = left_bottom - 1;
            Row::Bottom
        } else if left_middle > 0 {
            left_middle = left_middle - 1;
            Row::Middle
        } else {
            Row::Top
        };
        placements.push(OfcPlacement { card: sorted[k], row });
        k = k + 1;
    }
    let mut discards: Vec<u8> = Vec::new();
    let mut d: usize = place as usize;
    while d < sorted.len()
        invariant
            place <= d <= sorted@.len(),
            discards@ == sorted@.subrange(place as int, d as int),
        decreases sorted@.len() - d,
    {
        discards.push(sorted[d]);
        proof {
            assert(sorted@.subrange(place as int, d as int + 1) =~= sorted@.subrange(place as int, d as int).push(sorted@[d as int]));
        }
        d = d + 1;
    }
    proof {
        let all = placements@.map_values(|p: OfcPlacement| p.card) + discards@;
        assert(all =~= sorted@);
    }
    OfcAction { placements, discards }
}


/// Plays the fault-substitution rule as a strategy: lowest cards first,
/// low rows first. The deterministic floor every other bot must beat.
pub struct OfcFiller {
    name: String,
}

impl OfcFiller {
    pub closed spec fn spec_name(&self) -> Seq<char> {
        self.name@
    }

    pub fn new(name: String) -> (b: OfcFiller)
        ensures
            b.spec_name() == name@,
    {
        OfcFiller { name }
    }

    pub fn name(&self) -> (r: &str)
        ensures
            r@ == self.spec_name(),
    {
        self.name.as_str()
    }

    /// Always answers, with exactly the placement the arena substitutes for
    /// a faulted decision.
    pub fn place(&self, dealt: &[u8], place: u8, board: &OfcBoard) -> (r: Result<OfcAction, crate::bot::BotFault>)
        requires
            place as int <= dealt@.len(),
        ensures
            r matches Ok(a) && filler_action_is(dealt@, place as nat, *board, a),
    {
        Ok(filler_action(dealt, place, board))
    }
}

/// `a` is the filler's placement of `dealt` on `board`, `place` cards
/// placed: everything [`filler_action`] promises.
pub open spec fn filler_action_is(dealt: Seq<u8>, place: nat, board: OfcBoard, a: OfcAction) -> bool {
    &&& a.placements@.len() == place
    &&& a.discards@.len() == dealt.len() - place
    &&& sorted_cards(a.placements@.map_values(|p: OfcPlacement| p.card) + a.discards@)
    &&& (a.placements@.map_values(|p: OfcPlacement| p.card) + a.discards@).to_multiset() == dealt.to_multiset()
    &&& forall|k: int|
        0 <= k < place ==> (#[trigger] a.placements@[k]).row == filler_row(
            k,
            board.spec_free(Row::Top),
            board.spec_free(Row::Middle),
            board.spec_free(Row::Bottom),
        )
}

/// The filler places the lowest of its dealt cards, in ascending order,
/// and discards the rest: every placed card is at most every discarded one.
pub proof fn lemma_filler_places_the_lowest(dealt: Seq<u8>, place: nat, board: OfcBoard, a: OfcAction)
    requires
        filler_action_is(dealt, place, board, a),
    ensures
        forall|i: int, j: int|
            0 <= i <= j < place ==> (#[trigger] a.placements@[i]).card <= (#[trigger] a.placements@[j]).card,
        forall|i: int, j: int|
            0 <= i < place && 0 <= j < a.discards@.len() ==> (#[trigger] a.placements@[i]).card
                <= #[trigger] a.discards@[j],
{
    let cards = a.placements@.map_values(|p: OfcPlacement| p.card);
    let all = cards + a.discards@;
    assert forall|i: int, j: int| 0 <= i <= j < place implies (#[trigger] a.placements@[i]).card
        <= (#[trigger] a.placements@[j]).card by {
        assert(all[i] == cards[i] && all[j] == cards[j]);
    }
    assert forall|i: int, j: int| 0 <= i < place && 0 <= j < a.discards@.len() implies (#[trigger] a.placements@[
        i
    ]).card <= #[trigger] a.discards@[j] by {
        assert(all[i] == cards[i]);
        assert(all[place + j] == a.discards@[j]);
    }
}

/// What happens when an OFC bot misbehaves.
#[derive(Clone, Copy, Debug, PartialEq, Eq, Structural)]
pub enum OfcFaultPolicy {
    /// Substitute the filler placement and continue.
    Substitute,
    /// End the match; the offender forfeits.
    Forfeit,
}

/// Per-hand context given to each OFC bot before any events.
#[derive(Clone, Copy, Debug, PartialEq, Eq, Structural)]
pub struct OfcHandStart {
    pub hand_no: u64,
    /// This bot's seat for this hand.
    pub seat: usize,
    /// Cards dealt at once when this hand is played in fantasyland.
    pub fantasyland: Option<u8>,
}

/// End-of-hand summary delivered to each OFC bot.
#[derive(Clone, Debug)]
pub struct OfcHandEnd {
    pub hand_no: u64,
    /// Net points by seat; they sum to zero.
    pub points: Vec<i64>,
}


/// The row a digit of an assignment names, in declaration order.
pub open spec fn row_of_digit(d: u8) -> Row {
    if d == 0 {
        Row::Top
    } else if d == 1 {
        Row::Middle
    } else {
        Row::Bottom
    }
}

/// Every assignment of `n` placed cards to the three rows, as digit
/// sequences in lexicographic order: the last card varies fastest.
pub open spec fn assignments(n: nat) -> Seq<Seq<u8>>
    decreases n,
{
    if n == 0 {
        seq![Seq::empty()]
    } else {
        let rest = assignments((n - 1) as nat);
        rest.map_values(|a: Seq<u8>| seq![0u8] + a) + rest.map_values(|a: Seq<u8>| seq![1u8] + a) + rest.map_values(
            |a: Seq<u8>| seq![2u8] + a,
        )
    }
}

/// How many digits of `a` are `d`.
pub open spec fn digit_count(a: Seq<u8>, d: u8) -> nat
    decreases a.len(),
{
    if a.len() == 0 {
        0
    } else {
        digit_count(a.drop_last(), d) + if a.last() == d {
            1nat
        } else {
            0
        }
    }
}

/// The assignment fits the rows' room.
pub open spec fn fits(a: Seq<u8>, free: (nat, nat, nat)) -> bool {
    digit_count(a, 0) <= free.0 && digit_count(a, 1) <= free.1 && digit_count(a, 2) <= free.2
}

/// The cards of `pool` at positions outside `s`, in order, among the
/// first `m`.
pub open spec fn left_out(pool: Seq<u8>, s: Seq<usize>, m: nat) -> Seq<u8>
    decreases m,
{
    if m == 0 {
        Seq::empty()
    } else {
        let rest = left_out(pool, s, (m - 1) as nat);
        if s.contains((m - 1) as usize) {
            rest
        } else {
            rest.push(pool[m - 1])
        }
    }
}

/// The option placing `pool`'s cards at positions `s` into the rows `a`
/// names, discarding the rest.
pub open spec fn option_for(pool: Seq<u8>, s: Seq<usize>, a: Seq<u8>) -> (Seq<OfcPlacement>, Seq<u8>) {
    (
        Seq::new(s.len(), |i: int| OfcPlacement { card: pool[s[i] as int], row: row_of_digit(a[i]) }),
        left_out(pool, s, pool.len()),
    )
}

/// The options for the subset `s` over the assignments `asg`, in order,
/// keeping those that fit.
pub open spec fn options_over(pool: Seq<u8>, s: Seq<usize>, asg: Seq<Seq<u8>>, free: (nat, nat, nat)) -> Seq<
    (Seq<OfcPlacement>, Seq<u8>),
>
    decreases asg.len(),
{
    if asg.len() == 0 {
        Seq::empty()
    } else {
        let rest = options_over(pool, s, asg.drop_last(), free);
        if fits(asg.last(), free) {
            rest.push(option_for(pool, s, asg.last()))
        } else {
            rest
        }
    }
}

/// Every legal option over the subsets `subsets`, subset by subset.
pub open spec fn options_for_subsets(
    pool: Seq<u8>,
    subsets: Seq<Seq<usize>>,
    place: nat,
    free: (nat, nat, nat),
) -> Seq<(Seq<OfcPlacement>, Seq<u8>)>
    decreases subsets.len(),
{
    if subsets.len() == 0 {
        Seq::empty()
    } else {
        options_for_subsets(pool, subsets.drop_last(), place, free) + options_over(
            pool,
            subsets.last(),
            assignments(place),
            free,
        )
    }
}

/// An action as plain sequences.
pub open spec fn action_view(a: OfcAction) -> (Seq<OfcPlacement>, Seq<u8>) {
    (a.placements@, a.discards@)
}

/// Every assignment of `n` cards to rows, in lexicographic order.
fn all_assignments(n: usize) -> (r: Vec<Vec<u8>>)
    ensures
        r@.map_values(|a: Vec<u8>| a@) == assignments(n as nat),
    decreases n,
{
    if n == 0 {
        let mut r: Vec<Vec<u8>> = Vec::new();
        r.push(Vec::new());
        proof {
            assert(r@.map_values(|a: Vec<u8>| a@) =~= seq![Seq::<u8>::empty()]);
        }
        return r;
    }
    let rest = all_assignments(n - 1);
    let ghost rv = assignments((n - 1) as nat);
    let mut r: Vec<Vec<u8>> = Vec::new();
    let mut d: u8 = 0;
    while d < 3
        invariant
            d <= 3,
            n >= 1,
            rest@.map_values(|a: Vec<u8>| a@) == rv,
            rv == assignments((n - 1) as nat),
            r@.len() == d * rv.len(),
            forall|i: int| 0 <= i < r@.len() ==> (#[trigger] r@[i])@ == seq![(i / (rv.len() as int)) as u8] + rv[i % (rv.len() as int)],
        decreases 3 - d,
    {
        let mut j: usize = 0;
        while j < rest.len()
            invariant
                j <= rest@.len(),
                d < 3,
                rest@.map_values(|a: Vec<u8>| a@) == rv,
                rest@.len() == rv.len(),
                r@.len() == d * rv.len() + j,
                forall|i: int| 0 <= i < r@.len() ==> (#[trigger] r@[i])@ == seq![(i / (rv.len() as int)) as u8] + rv[i % (rv.len() as int)],
            decreases rest@.len() - j,
        {
            let mut a: Vec<u8> = Vec::new();
            a.push(d);
            let src = &rest[j];
            let mut t: usize = 0;
            while t < src.len()
                invariant
                    t <= src@.len(),
                    a@ == seq![d] + src@.take(t as int),
                decreases src@.len() - t,
            {
                a.push(src[t]);
                proof {
                    assert(src@.take(t as int + 1) =~= src@.take(t as int).push(src@[t as int]));
                    assert(a@ =~= seq![d] + src@.take(t as int + 1));
                }
                t = t + 1;
            }
            proof {
                assert(src@.take(src@.len() as int) =~= src@);
                assert(rv[j as int] == src@);
                let idx = (d * rv.len() + j) as int;
                assert(idx / (rv.len() as int) == d as int && idx % (rv.len() as int) == j as int) by (nonlinear_arith)
                    requires
                        idx == d * rv.len() + j,
                        0 <= j < rv.len(),
                        0 <= d,
                ;
            }
            r.push(a);
            j = j + 1;
        }
        proof {
            assert((d + 1) * rv.len() == d * rv.len() + rv.len()) by (nonlinear_arith);
        }
        d = d + 1;
    }
    proof {
        let rs = r@.map_values(|a: Vec<u8>| a@);
        let want = assignments(n as nat);
        assert(rv.len() >= 1) by {
            lemma_assignments_nonempty((n - 1) as nat);
        }
        assert(rs.len() == want.len());
        assert forall|i: int| 0 <= i < rs.len() implies rs[i] == want[i] by {
            let l = rv.len() as int;
            let q = i / l;
            let m = i % l;
            assert(0 <= q < 3 && 0 <= m < l && i == q * l + m && (q == 0 ==> i < l) && (q == 1 ==> l <= i < 2 * l) && (
            q == 2 ==> 2 * l <= i) && (q == 0 ==> m == i) && (q == 1 ==> m == i - l) && (q == 2 ==> m == i - 2 * l))
                by (nonlinear_arith)
                requires
                    0 <= i < 3 * l,
                    l >= 1,
                    q == i / l,
                    m == i % l,
            ;
            let p0 = rv.map_values(|a: Seq<u8>| seq![0u8] + a);
            let p1 = rv.map_values(|a: Seq<u8>| seq![1u8] + a);
            let p2 = rv.map_values(|a: Seq<u8>| seq![2u8] + a);
            assert(want == p0 + p1 + p2);
            if q == 0 {
                assert(want[i] == p0[i]);
            } else if q == 1 {
                assert(want[i] == (p0 + p1)[i]);
                assert((p0 + p1)[i] == p1[i - l]);
                assert(i - l == m);
            } else {
                assert(want[i] == p2[i - 2 * l]);
                assert(i - 2 * l == m);
            }
        }
        assert(rs =~= want);
    }
    r
}

proof fn lemma_assignments_nonempty(n: nat)
    ensures
        assignments(n).len() >= 1,
    decreases n,
{
    if n > 0 {
        lemma_assignments_nonempty((n - 1) as nat);
    }
}


proof fn lemma_assignment_lengths(n: nat)
    ensures
        forall|i: int| 0 <= i < assignments(n).len() ==> (#[trigger] assignments(n)[i]).len() == n,
    decreases n,
{
    if n > 0 {
        lemma_assignment_lengths((n - 1) as nat);
        let rv = assignments((n - 1) as nat);
        let p0 = rv.map_values(|a: Seq<u8>| seq![0u8] + a);
        let p1 = rv.map_values(|a: Seq<u8>| seq![1u8] + a);
        let p2 = rv.map_values(|a: Seq<u8>| seq![2u8] + a);
        let all = assignments(n);
        assert(all == p0 + p1 + p2);
        assert forall|i: int| 0 <= i < all.len() implies (#[trigger] all[i]).len() == n by {
            let l = rv.len() as int;
            if i < l {
                assert(all[i] == p0[i]);
            } else if i < 2 * l {
                assert(all[i] == (p0 + p1)[i]);
                assert(all[i] == p1[i - l]);
            } else {
                assert(all[i] == p2[i - 2 * l]);
            }
        }
    }
}

fn count_digit(a: &Vec<u8>, d: u8) -> (r: usize)
    ensures
        r == digit_count(a@, d),
        r <= a@.len(),
{
    let mut n: usize = 0;
    let mut t: usize = 0;
    while t < a.len()
        invariant
            t <= a@.len(),
            n == digit_count(a@.take(t as int), d),
            n <= t,
        decreases a@.len() - t,
    {
        proof {
            assert(a@.take(t as int + 1).drop_last() =~= a@.take(t as int));
        }
        if a[t] == d {
            n = n + 1;
        }
        t = t + 1;
    }
    proof {
        assert(a@.take(t as int) =~= a@);
    }
    n
}

fn holds_index(s: &Vec<usize>, x: usize) -> (r: bool)
    ensures
        r == s@.contains(x),
{
    let mut t: usize = 0;
    while t < s.len()
        invariant
            t <= s@.len(),
            forall|j: int| 0 <= j < t ==> s@[j] != x,
        decreases s@.len() - t,
    {
        if s[t] == x {
            return true;
        }
        t = t + 1;
    }
    false
}

fn left_out_exec(pool: &Vec<u8>, s: &Vec<usize>) -> (r: Vec<u8>)
    ensures
        r@ == left_out(pool@, s@, pool@.len()),
{
    let mut out: Vec<u8> = Vec::new();
    let mut m: usize = 0;
    while m < pool.len()
        invariant
            m <= pool@.len(),
            out@ == left_out(pool@, s@, m as nat),
        decreases pool@.len() - m,
    {
        if !holds_index(s, m) {
            out.push(pool[m]);
        }
        m = m + 1;
    }
    out
}

fn option_exec(pool: &Vec<u8>, s: &Vec<usize>, a: &Vec<u8>, discards: &Vec<u8>) -> (r: OfcAction)
    requires
        a@.len() == s@.len(),
        forall|i: int| 0 <= i < s@.len() ==> (#[trigger] s@[i]) < pool@.len(),
        discards@ == left_out(pool@, s@, pool@.len()),
    ensures
        action_view(r) == option_for(pool@, s@, a@),
{
    let mut placements: Vec<OfcPlacement> = Vec::new();
    let mut i: usize = 0;
    while i < s.len()
        invariant
            i <= s@.len(),
            a@.len() == s@.len(),
            forall|j: int| 0 <= j < s@.len() ==> (#[trigger] s@[j]) < pool@.len(),
            placements@.len() == i,
            forall|j: int|
                0 <= j < i ==> #[trigger] placements@[j] == (OfcPlacement {
                    card: pool@[s@[j] as int],
                    row: row_of_digit(a@[j]),
                }),
        decreases s@.len() - i,
    {
        let d = a[i];
        let row = if d == 0 {
            Row::Top
        } else if d == 1 {
            Row::Middle
        } else {
            Row::Bottom
        };
        placements.push(OfcPlacement { card: pool[s[i]], row });
        i = i + 1;
    }
    let r = OfcAction { placements, discards: discards.clone() };
    proof {
        assert(r.placements@ =~= option_for(pool@, s@, a@).0);
    }
    r
}

/// How many of `rows` are `row`.
pub open spec fn row_tally(rows: Seq<Row>, row: Row) -> nat
    decreases rows.len(),
{
    if rows.len() == 0 {
        0
    } else {
        row_tally(rows.drop_last(), row) + if rows.last() == row {
            1nat
        } else {
            0
        }
    }
}

/// The rows `rows` send at most `free.0`, `free.1` and `free.2` cards to
/// the top, middle and bottom rows.
pub open spec fn within_room(rows: Seq<Row>, free: (nat, nat, nat)) -> bool {
    &&& row_tally(rows, Row::Top) <= free.0
    &&& row_tally(rows, Row::Middle) <= free.1
    &&& row_tally(rows, Row::Bottom) <= free.2
}

/// The placements of `pool`'s cards at positions `s` into `rows`.
pub open spec fn placed(pool: Seq<u8>, s: Seq<usize>, rows: Seq<Row>) -> Seq<OfcPlacement> {
    Seq::new(rows.len(), |i: int| OfcPlacement { card: pool[s[i] as int], row: rows[i] })
}

/// The digit naming `row`.
pub open spec fn digit_of_row(row: Row) -> u8 {
    match row {
        Row::Top => 0,
        Row::Middle => 1,
        Row::Bottom => 2,
    }
}

proof fn lemma_assignments_shape(n: nat)
    ensures
        forall|i: int| 0 <= i < assignments(n).len() ==> (#[trigger] assignments(n)[i]).len() == n && forall|j: int|
            0 <= j < n ==> assignments(n)[i][j] < 3,
    decreases n,
{
    if n > 0 {
        lemma_assignments_shape((n - 1) as nat);
        let rest = assignments((n - 1) as nat);
        let m0 = rest.map_values(|a: Seq<u8>| seq![0u8] + a);
        let m1 = rest.map_values(|a: Seq<u8>| seq![1u8] + a);
        let m2 = rest.map_values(|a: Seq<u8>| seq![2u8] + a);
        assert forall|i: int| 0 <= i < assignments(n).len() implies (#[trigger] assignments(n)[i]).len() == n
            && forall|j: int| 0 <= j < n ==> assignments(n)[i][j] < 3 by {
            let k = rest.len() as int;
            let x = if i < k {
                m0[i]
            } else if i < 2 * k {
                m1[i - k]
            } else {
                m2[i - 2 * k]
            };
            assert(assignments(n)[i] == x);
            let base = if i < k { rest[i] } else if i < 2 * k { rest[i - k] } else { rest[i - 2 * k] };
            assert forall|j: int| 0 <= j < n implies assignments(n)[i][j] < 3 by {
                if j > 0 {
                    assert(x[j] == base[j - 1]);
                }
            }
        }
    }
}

proof fn lemma_assignments_complete(n: nat, d: Seq<u8>)
    requires
        d.len() == n,
        forall|j: int| 0 <= j < n ==> d[j] < 3,
    ensures
        assignments(n).contains(d),
    decreases n,
{
    if n > 0 {
        let tail = d.skip(1);
        lemma_assignments_complete((n - 1) as nat, tail);
        let rest = assignments((n - 1) as nat);
        let k = choose|k: int| 0 <= k < rest.len() && rest[k] == tail;
        let m0 = rest.map_values(|a: Seq<u8>| seq![0u8] + a);
        let m1 = rest.map_values(|a: Seq<u8>| seq![1u8] + a);
        let m2 = rest.map_values(|a: Seq<u8>| seq![2u8] + a);
        assert(d =~= seq![d[0]] + tail);
        let len = rest.len() as int;
        let all = m0 + m1 + m2;
        assert(assignments(n) == all);
        assert(rest.contains(tail));
        if d[0] == 0 {
            assert(m0[k] =~= d);
            assert(all[k] == m0[k]);
            assert(assignments(n)[k] == d);
        } else if d[0] == 1 {
            assert(m1[k] =~= d);
            assert(all[len + k] == m1[k]);
            assert(assignments(n)[len + k] == d);
        } else {
            assert(m2[k] =~= d);
            assert(all[2 * len + k] == m2[k]);
            assert(assignments(n)[2 * len + k] == d);
        }
    } else {
        assert(d =~= Seq::<u8>::empty());
        assert(assignments(0)[0] == d);
    }
}

proof fn lemma_digits_tally(d: Seq<u8>, rows: Seq<Row>, row: Row)
    requires
        rows.len() == d.len(),
        forall|j: int| 0 <= j < d.len() ==> d[j] < 3 && #[trigger] rows[j] == row_of_digit(d[j]),
    ensures
        digit_count(d, digit_of_row(row)) == row_tally(rows, row),
    decreases d.len(),
{
    if d.len() > 0 {
        lemma_digits_tally(d.drop_last(), rows.drop_last(), row);
        assert(rows.last() == row_of_digit(d.last()));
    }
}

proof fn lemma_options_over(pool: Seq<u8>, s: Seq<usize>, asg: Seq<Seq<u8>>, free: (nat, nat, nat))
    ensures
        forall|a: Seq<u8>| asg.contains(a) && fits(a, free) ==> #[trigger] options_over(pool, s, asg, free).contains(
            option_for(pool, s, a),
        ),
        forall|x: (Seq<OfcPlacement>, Seq<u8>)| #[trigger] options_over(pool, s, asg, free).contains(x) ==> exists|a: Seq<u8>|
            asg.contains(a) && fits(a, free) && x == option_for(pool, s, a),
    decreases asg.len(),
{
    if asg.len() > 0 {
        let rest = asg.drop_last();
        lemma_options_over(pool, s, rest, free);
        let ro = options_over(pool, s, rest, free);
        assert forall|a: Seq<u8>| asg.contains(a) && fits(a, free) implies #[trigger] options_over(pool, s, asg, free).contains(
            option_for(pool, s, a),
        ) by {
            let k = choose|k: int| 0 <= k < asg.len() && asg[k] == a;
            if k < asg.len() - 1 {
                assert(rest[k] == a);
                assert(rest.contains(a));
                assert(ro.contains(option_for(pool, s, a)));
                let m = choose|m: int| 0 <= m < ro.len() && ro[m] == option_for(pool, s, a);
                if fits(asg.last(), free) {
                    assert(options_over(pool, s, asg, free)[m] == ro[m]);
                }
            } else {
                assert(options_over(pool, s, asg, free) == ro.push(option_for(pool, s, a)));
                assert(options_over(pool, s, asg, free)[ro.len() as int] == option_for(pool, s, a));
            }
        }
        assert forall|x: (Seq<OfcPlacement>, Seq<u8>)| #[trigger] options_over(pool, s, asg, free).contains(x) implies exists|
            a: Seq<u8>,
        | asg.contains(a) && fits(a, free) && x == option_for(pool, s, a) by {
            let all = options_over(pool, s, asg, free);
            let m = choose|m: int| 0 <= m < all.len() && all[m] == x;
            if m < ro.len() {
                assert(all[m] == ro[m]);
                assert(ro.contains(x));
                let a = choose|a: Seq<u8>| rest.contains(a) && fits(a, free) && x == option_for(pool, s, a);
                let k = choose|k: int| 0 <= k < rest.len() && rest[k] == a;
                assert(asg[k] == a);
            } else {
                assert(asg[asg.len() - 1] == asg.last());
            }
        }
    }
}

proof fn lemma_options_for_subsets(pool: Seq<u8>, subsets: Seq<Seq<usize>>, place: nat, free: (nat, nat, nat))
    ensures
        forall|s: Seq<usize>, a: Seq<u8>|
            subsets.contains(s) && assignments(place).contains(a) && fits(a, free) ==> #[trigger] options_for_subsets(
                pool,
                subsets,
                place,
                free,
            ).contains(#[trigger] option_for(pool, s, a)),
        forall|x: (Seq<OfcPlacement>, Seq<u8>)| #[trigger] options_for_subsets(pool, subsets, place, free).contains(x)
            ==> exists|s: Seq<usize>, a: Seq<u8>|
            subsets.contains(s) && assignments(place).contains(a) && fits(a, free) && x == option_for(pool, s, a),
    decreases subsets.len(),
{
    if subsets.len() > 0 {
        let rest = subsets.drop_last();
        let last = subsets.last();
        lemma_options_for_subsets(pool, rest, place, free);
        lemma_options_over(pool, last, assignments(place), free);
        let ro = options_for_subsets(pool, rest, place, free);
        let lo = options_over(pool, last, assignments(place), free);
        let all = options_for_subsets(pool, subsets, place, free);
        assert(all == ro + lo);
        assert forall|s: Seq<usize>, a: Seq<u8>|
            subsets.contains(s) && assignments(place).contains(a) && fits(a, free) implies #[trigger] all.contains(
                #[trigger] option_for(pool, s, a),
            ) by {
            let k = choose|k: int| 0 <= k < subsets.len() && subsets[k] == s;
            if k < subsets.len() - 1 {
                assert(rest[k] == s);
                assert(rest.contains(s));
                assert(ro.contains(option_for(pool, s, a)));
                let m = choose|m: int| 0 <= m < ro.len() && ro[m] == option_for(pool, s, a);
                assert(all[m] == ro[m]);
            } else {
                assert(s == last);
                assert(lo.contains(option_for(pool, s, a)));
                let m = choose|m: int| 0 <= m < lo.len() && lo[m] == option_for(pool, s, a);
                assert(all[ro.len() + m] == lo[m]);
            }
        }
        assert forall|x: (Seq<OfcPlacement>, Seq<u8>)| #[trigger] all.contains(x) implies exists|
            s: Seq<usize>,
            a: Seq<u8>,
        | subsets.contains(s) && assignments(place).contains(a) && fits(a, free) && x == option_for(pool, s, a) by {
            let m = choose|m: int| 0 <= m < all.len() && all[m] == x;
            if m < ro.len() {
                assert(all[m] == ro[m]);
                assert(ro.contains(x));
                let (s, a) = choose|s: Seq<usize>, a: Seq<u8>|
                    rest.contains(s) && assignments(place).contains(a) && fits(a, free) && x == option_for(pool, s, a);
                let k = choose|k: int| 0 <= k < rest.len() && rest[k] == s;
                assert(subsets[k] == s);
            } else {
                assert(all[m] == lo[m - ro.len()]);
                assert(lo.contains(x));
                assert(subsets[subsets.len() - 1] == last);
            }
        }
    }
}

/// Every listed option places exactly `place` cards, into rows with room
/// for them.
pub proof fn lemma_listed_options_fit(pool: Seq<u8>, place: nat, free: (nat, nat, nat))
    requires
        pool.len() <= usize::MAX,
    ensures
        forall|x: (Seq<OfcPlacement>, Seq<u8>)| #[trigger] options_for_subsets(pool, combos_from(0, pool.len(), place), place, free).contains(x)
            ==> x.0.len() == place && within_room(x.0.map_values(|p: OfcPlacement| p.row), free),
{
    let subsets = combos_from(0, pool.len(), place);
    let all = options_for_subsets(pool, subsets, place, free);
    lemma_combos_from(0, pool.len(), place);
    lemma_options_for_subsets(pool, subsets, place, free);
    lemma_assignments_shape(place);
    assert forall|x: (Seq<OfcPlacement>, Seq<u8>)| #[trigger] all.contains(x) implies x.0.len() == place && within_room(
        x.0.map_values(|p: OfcPlacement| p.row),
        free,
    ) by {
        let (s2, a2) = choose|s2: Seq<usize>, a2: Seq<u8>|
            subsets.contains(s2) && assignments(place).contains(a2) && fits(a2, free) && x == option_for(pool, s2, a2);
        let k = choose|k: int| 0 <= k < assignments(place).len() && assignments(place)[k] == a2;
        let ks = choose|ks: int| 0 <= ks < subsets.len() && subsets[ks] == s2;
        assert(a2.len() == place);
        assert(s2.len() == place);
        let rws = x.0.map_values(|p: OfcPlacement| p.row);
        assert forall|j: int| 0 <= j < a2.len() implies a2[j] < 3 && #[trigger] rws[j] == row_of_digit(a2[j]) by {}
        lemma_digits_tally(a2, rws, Row::Top);
        lemma_digits_tally(a2, rws, Row::Middle);
        lemma_digits_tally(a2, rws, Row::Bottom);
    }
}

/// Which options are listed, stated row by row: for every `place`-subset
/// `s` of the pool's positions and every choice `rows` of rows for its
/// cards, the option placing those cards into those rows (and discarding
/// the rest) is listed exactly when no row receives more cards than it has
/// room for; and every listed option places `place` cards into rows with
/// room for them.
pub proof fn lemma_options_are_the_placements_that_fit(
    pool: Seq<u8>,
    place: nat,
    free: (nat, nat, nat),
    s: Seq<usize>,
    rows: Seq<Row>,
)
    requires
        pool.len() <= usize::MAX,
        is_subset_of_range(s, 0, pool.len() as int, place as int),
        rows.len() == place,
    ensures
        options_for_subsets(pool, combos_from(0, pool.len(), place), place, free).contains(
            (placed(pool, s, rows), left_out(pool, s, pool.len())),
        ) <==> within_room(rows, free),
        forall|x: (Seq<OfcPlacement>, Seq<u8>)| #[trigger] options_for_subsets(pool, combos_from(0, pool.len(), place), place, free).contains(x)
            ==> x.0.len() == place && within_room(x.0.map_values(|p: OfcPlacement| p.row), free),
{
    let subsets = combos_from(0, pool.len(), place);
    let all = options_for_subsets(pool, subsets, place, free);
    lemma_combos_from(0, pool.len(), place);
    lemma_options_for_subsets(pool, subsets, place, free);
    lemma_assignments_shape(place);
    let d = Seq::new(place, |i: int| digit_of_row(rows[i]));
    assert forall|j: int| 0 <= j < d.len() implies d[j] < 3 && #[trigger] rows[j] == row_of_digit(d[j]) by {}
    lemma_digits_tally(d, rows, Row::Top);
    lemma_digits_tally(d, rows, Row::Middle);
    lemma_digits_tally(d, rows, Row::Bottom);
    assert(option_for(pool, s, d).0 =~= placed(pool, s, rows));
    assert(option_for(pool, s, d) == (placed(pool, s, rows), left_out(pool, s, pool.len())));
    if within_room(rows, free) {
        lemma_assignments_complete(place, d);
        assert(subsets.contains(s));
        assert(fits(d, free));
    }
    if all.contains((placed(pool, s, rows), left_out(pool, s, pool.len()))) {
        let x = (placed(pool, s, rows), left_out(pool, s, pool.len()));
        let (s2, a2) = choose|s2: Seq<usize>, a2: Seq<u8>|
            subsets.contains(s2) && assignments(place).contains(a2) && fits(a2, free) && x == option_for(pool, s2, a2);
        let k = choose|k: int| 0 <= k < assignments(place).len() && assignments(place)[k] == a2;
        assert(a2.len() == place);
        assert forall|j: int| 0 <= j < a2.len() implies a2[j] < 3 && #[trigger] rows[j] == row_of_digit(a2[j]) by {
            assert(x.0[j] == option_for(pool, s2, a2).0[j]);
            assert(placed(pool, s, rows)[j].row == rows[j]);
        }
        lemma_digits_tally(a2, rows, Row::Top);
        lemma_digits_tally(a2, rows, Row::Middle);
        lemma_digits_tally(a2, rows, Row::Bottom);
    }
    lemma_listed_options_fit(pool, place, free);
}

/// The row-by-row laws of [`lemma_options_are_the_placements_that_fit`],
/// read off a list of actions whose views are the options.
proof fn lemma_actions_fit(r: Seq<OfcAction>, pool: Seq<u8>, place: nat, free: (nat, nat, nat))
    requires
        pool.len() <= usize::MAX,
        r.map_values(|x: OfcAction| action_view(x)) == options_for_subsets(pool, combos_from(0, pool.len(), place), place, free),
    ensures
        forall|i: int|
            0 <= i < r.len() ==> (#[trigger] r[i]).placements@.len() == place && within_room(
                r[i].placements@.map_values(|p: OfcPlacement| p.row),
                free,
            ),
        forall|s: Seq<usize>, rows: Seq<Row>|
            is_subset_of_range(s, 0, pool.len() as int, place as int) && rows.len() == place ==> (r.map_values(
                |x: OfcAction| action_view(x),
            ).contains((#[trigger] placed(pool, s, rows), left_out(pool, s, pool.len()))) <==> within_room(rows, free)),
{
    let views = r.map_values(|x: OfcAction| action_view(x));
    assert forall|i: int| 0 <= i < r.len() implies (#[trigger] r[i]).placements@.len() == place && within_room(
        r[i].placements@.map_values(|p: OfcPlacement| p.row),
        free,
    ) by {
        lemma_listed_options_fit(pool, place, free);
        assert(views[i] == action_view(r[i]));
        assert(views.contains(action_view(r[i])));
    }
    assert forall|s: Seq<usize>, rows: Seq<Row>|
        is_subset_of_range(s, 0, pool.len() as int, place as int) && rows.len() == place implies (views.contains(
        (#[trigger] placed(pool, s, rows), left_out(pool, s, pool.len())),
    ) <==> within_room(rows, free)) by {
        lemma_options_are_the_placements_that_fit(pool, place, free, s, rows);
    }
}

/// Every legal option for an incremental turn, in the canonical order that
/// breaks ties between equally good options: the dealt cards sorted
/// ascending, their `place`-subsets in lexicographic order, and for each
/// subset the row assignments in lexicographic order (the last placed card
/// varying fastest), keeping those that fit the board's room; the cards
/// left out of a subset are discarded in ascending order.
pub fn candidates(dealt: &[u8], place: usize, board: &OfcBoard) -> (r: Vec<OfcAction>)
    ensures
        exists|pool: Seq<u8>|
            #![trigger sorted_cards(pool), pool.to_multiset()]
            sorted_cards(pool) && pool.to_multiset() == dealt@.to_multiset() && r@.map_values(
                |x: OfcAction| action_view(x),
            ) == options_for_subsets(
                pool,
                combos_from(0, pool.len(), place as nat),
                place as nat,
                (board.spec_free(Row::Top), board.spec_free(Row::Middle), board.spec_free(Row::Bottom)),
            ),
        forall|i: int|
            0 <= i < r@.len() ==> (#[trigger] r@[i]).placements@.len() == place && within_room(
                r@[i].placements@.map_values(|p: OfcPlacement| p.row),
                (board.spec_free(Row::Top), board.spec_free(Row::Middle), board.spec_free(Row::Bottom)),
            ),
        exists|pool: Seq<u8>|
            #![trigger sorted_cards(pool), pool.to_multiset()]
            sorted_cards(pool) && pool.to_multiset() == dealt@.to_multiset() && forall|s: Seq<usize>, rows: Seq<Row>|
                is_subset_of_range(s, 0, pool.len() as int, place as int) && rows.len() == place ==> (r@.map_values(
                    |x: OfcAction| action_view(x),
                ).contains((#[trigger] placed(pool, s, rows), left_out(pool, s, pool.len()))) <==> within_room(
                    rows,
                    (board.spec_free(Row::Top), board.spec_free(Row::Middle), board.spec_free(Row::Bottom)),
                )),
{
    let pool = sort_cards(dealt);
    let ghost free = (board.spec_free(Row::Top), board.spec_free(Row::Middle), board.spec_free(Row::Bottom));
    let free_top = board.free(Row::Top);
    let free_middle = board.free(Row::Middle);
    let free_bottom = board.free(Row::Bottom);
    let subsets = combinations(pool.len(), place);
    let ghost subsets_v = index_lists(subsets@);
    let mut out: Vec<OfcAction> = Vec::new();
    if subsets.len() == 0 {
        proof {
            assert(subsets_v.len() == 0);
            assert(out@.map_values(|x: OfcAction| action_view(x)) =~= options_for_subsets(
                pool@,
                subsets_v,
                place as nat,
                free,
            ));
            lemma_actions_fit(out@, pool@, place as nat, free);
        }
        return out;
    }
    let asg = all_assignments(place);
    let ghost asg_v = assignments(place as nat);
    proof {
        lemma_assignment_lengths(place as nat);
    }
    let mut k: usize = 0;
    while k < subsets.len()
        invariant
            k <= subsets@.len(),
            subsets_v == index_lists(subsets@),
            subsets_v == combos_from(0, pool@.len(), place as nat),
            forall|i: int| 0 <= i < subsets@.len() ==> is_subset_of_range(#[trigger] subsets@[i]@, 0, pool@.len() as int, place as int),
            asg@.map_values(|a: Vec<u8>| a@) == asg_v,
            asg_v == assignments(place as nat),
            forall|i: int| 0 <= i < asg_v.len() ==> (#[trigger] asg_v[i]).len() == place,
            free == (board.spec_free(Row::Top), board.spec_free(Row::Middle), board.spec_free(Row::Bottom)),
            free_top == free.0,
            free_middle == free.1,
            free_bottom == free.2,
            out@.map_values(|x: OfcAction| action_view(x)) == options_for_subsets(
                pool@,
                subsets_v.take(k as int),
                place as nat,
                free,
            ),
        decreases subsets@.len() - k,
    {
        let s = &subsets[k];
        proof {
            assert(is_subset_of_range(s@, 0, pool@.len() as int, place as int));
            assert(subsets_v[k as int] == s@);
        }
        let discards = left_out_exec(&pool, s);
        let ghost before = out@.map_values(|x: OfcAction| action_view(x));
        let mut j: usize = 0;
        while j < asg.len()
            invariant
                j <= asg@.len(),
                asg@.map_values(|a: Vec<u8>| a@) == asg_v,
                forall|i: int| 0 <= i < asg_v.len() ==> (#[trigger] asg_v[i]).len() == place,
                s@.len() == place,
                forall|i: int| 0 <= i < s@.len() ==> (#[trigger] s@[i]) < pool@.len(),
                discards@ == left_out(pool@, s@, pool@.len()),
                free_top == free.0,
                free_middle == free.1,
                free_bottom == free.2,
                out@.map_values(|x: OfcAction| action_view(x)) == before + options_over(pool@, s@, asg_v.take(j as int), free),
            decreases asg@.len() - j,
        {
            let a = &asg[j];
            proof {
                assert(asg_v[j as int] == a@);
                assert(asg_v.take(j as int + 1).drop_last() =~= asg_v.take(j as int));
                assert(asg_v.take(j as int + 1).last() == a@);
            }
            let used_top = count_digit(a, 0);
            let used_middle = count_digit(a, 1);
            let used_bottom = count_digit(a, 2);
            if used_top <= free_top && used_middle <= free_middle && used_bottom <= free_bottom {
                let option = option_exec(&pool, s, a, &discards);
                let ghost prev = out@;
                out.push(option);
                proof {
                    assert(out@.map_values(|x: OfcAction| action_view(x)) =~= prev.map_values(
                        |x: OfcAction| action_view(x),
                    ).push(action_view(option)));
                }
            }
            j = j + 1;
        }
        proof {
            assert(asg_v.take(asg_v.len() as int) =~= asg_v);
            assert(subsets_v.take(k as int + 1).drop_last() =~= subsets_v.take(k as int));
            assert(subsets_v.take(k as int + 1).last() == s@);
        }
        k = k + 1;
    }
    proof {
        assert(subsets_v.take(subsets_v.len() as int) =~= subsets_v);
        lemma_actions_fit(out@, pool@, place as nat, free);
    }
    out
}


/// A board's rows as plain sequences.
pub open spec fn board_view(b: OfcBoard) -> (Seq<u8>, Seq<u8>, Seq<u8>) {
    (b.top@, b.middle@, b.bottom@)
}

fn copy_cards(v: &Vec<u8>) -> (r: Vec<u8>)
    ensures
        r@ == v@,
{
    let mut out: Vec<u8> = Vec::new();
    let mut k: usize = 0;
    while k < v.len()
        invariant
            k <= v@.len(),
            out@ == v@.take(k as int),
        decreases v@.len() - k,
    {
        out.push(v[k]);
        proof {
            assert(v@.take(k as int + 1) =~= v@.take(k as int).push(v@[k as int]));
        }
        k = k + 1;
    }
    proof {
        assert(v@.take(k as int) =~= v@);
    }
    out
}

/// The boards as `viewer` may see them: its own as it stands, every other
/// seat's as the table sees it, which is empty while that seat plays the
/// hand in fantasyland.
pub fn visible_boards(boards: &Vec<OfcBoard>, fantasyland: &Vec<Option<u8>>, viewer: usize) -> (r: Vec<OfcBoard>)
    requires
        boards@.len() <= fantasyland@.len(),
    ensures
        r@.len() == boards@.len(),
        forall|s: int|
            0 <= s < boards@.len() ==> board_view(#[trigger] r@[s]) == if s == viewer || fantasyland@[s] is None {
                board_view(boards@[s])
            } else {
                (Seq::<u8>::empty(), Seq::<u8>::empty(), Seq::<u8>::empty())
            },
{
    let mut out: Vec<OfcBoard> = Vec::new();
    let mut s: usize = 0;
    while s < boards.len()
        invariant
            s <= boards@.len(),
            boards@.len() <= fantasyland@.len(),
            out@.len() == s,
            forall|t: int|
                0 <= t < s ==> board_view(#[trigger] out@[t]) == if t == viewer || fantasyland@[t] is None {
                    board_view(boards@[t])
                } else {
                    (Seq::<u8>::empty(), Seq::<u8>::empty(), Seq::<u8>::empty())
                },
        decreases boards@.len() - s,
    {
        let b = &boards[s];
        if s == viewer || fantasyland[s].is_none() {
            out.push(OfcBoard { top: copy_cards(&b.top), middle: copy_cards(&b.middle), bottom: copy_cards(&b.bottom) });
        } else {
            out.push(OfcBoard::new());
            proof {
                assert(board_view(out@[s as int]) =~= (Seq::<u8>::empty(), Seq::<u8>::empty(), Seq::<u8>::empty()));
            }
        }
        s = s + 1;
    }
    out
}


/// Room left in each row, top, middle, bottom.
pub type Room = (nat, nat, nat);

/// The room a board leaves in each row.
pub open spec fn board_room(board: OfcBoard) -> Room {
    (board.spec_free(Row::Top), board.spec_free(Row::Middle), board.spec_free(Row::Bottom))
}

/// The room left in `row`.
pub open spec fn room_in(f: Room, row: Row) -> nat {
    match row {
        Row::Top => f.0,
        Row::Middle => f.1,
        Row::Bottom => f.2,
    }
}

/// The rows with room left, top first.
pub open spec fn open_rows(f: Room) -> Seq<Row> {
    (if f.0 > 0 {
        seq![Row::Top]
    } else {
        seq![]
    }) + (if f.1 > 0 {
        seq![Row::Middle]
    } else {
        seq![]
    }) + (if f.2 > 0 {
        seq![Row::Bottom]
    } else {
        seq![]
    })
}

/// The room after one card goes into `row`.
pub open spec fn take_slot(f: Room, row: Row) -> Room {
    match row {
        Row::Top => ((f.0 - 1) as nat, f.1, f.2),
        Row::Middle => (f.0, (f.1 - 1) as nat, f.2),
        Row::Bottom => (f.0, f.1, (f.2 - 1) as nat),
    }
}

/// Each pick indexes the rows still open when it is made.
pub open spec fn picks_fit(f: Room, picks: Seq<u64>) -> bool
    decreases picks.len(),
{
    if picks.len() == 0 {
        true
    } else {
        &&& picks[0] < open_rows(f).len()
        &&& picks_fit(take_slot(f, open_rows(f)[picks[0] as int]), picks.drop_first())
    }
}

/// The rows the picks choose, one card after another, each pick an index
/// among the rows open at that moment.
pub open spec fn picked_rows(f: Room, picks: Seq<u64>) -> Seq<Row>
    decreases picks.len(),
{
    if picks.len() == 0 {
        seq![]
    } else {
        let r = open_rows(f)[picks[0] as int];
        seq![r] + picked_rows(take_slot(f, r), picks.drop_first())
    }
}

proof fn lemma_picked_rows_len(f: Room, picks: Seq<u64>)
    ensures
        picked_rows(f, picks).len() == picks.len(),
    decreases picks.len(),
{
    if picks.len() > 0 {
        lemma_picked_rows_len(take_slot(f, open_rows(f)[picks[0] as int]), picks.drop_first());
    }
}

/// How many entries of `rows` are `row`.
pub open spec fn count_row(rows: Seq<Row>, row: Row) -> nat
    decreases rows.len(),
{
    if rows.len() == 0 {
        0
    } else {
        (if rows[0] == row {
            1nat
        } else {
            0nat
        }) + count_row(rows.drop_first(), row)
    }
}

/// The uniformly random OFC bot's placement, given what its random source
/// drew: `order` is the dealt cards in the shuffled order it drew, whose
/// first `place` cards it places and the rest it discards; `picks[k]` is
/// the index, among the rows with room at that moment (top, middle,
/// bottom), of the row the `k`-th card goes to.
pub fn random_placement(board: &OfcBoard, order: &[u8], place: u8, picks: &[u64]) -> (r: OfcAction)
    requires
        place as int <= order@.len(),
        picks@.len() == place,
        picks_fit(board_room(*board), picks@),
    ensures
        r.placements@.len() == place,
        forall|k: int|
            0 <= k < place ==> (#[trigger] r.placements@[k]) == (OfcPlacement {
                card: order@[k],
                row: picked_rows(board_room(*board), picks@)[k],
            }),
        r.discards@ == order@.skip(place as int),
{
    let ghost f0 = board_room(*board);
    let mut top = board.free(Row::Top);
    let mut middle = board.free(Row::Middle);
    let mut bottom = board.free(Row::Bottom);
    let mut placements: Vec<OfcPlacement> = Vec::new();
    let mut k: usize = 0;
    proof {
        assert(picks@.skip(0) =~= picks@);
        lemma_picked_rows_len(f0, picks@);
    }
    while k < place as usize
        invariant
            k <= place,
            place as int <= order@.len(),
            picks@.len() == place,
            picked_rows(f0, picks@).len() == place,
            top <= 5 && middle <= 5 && bottom <= 5,
            placements@.len() == k,
            picks_fit((top as nat, middle as nat, bottom as nat), picks@.skip(k as int)),
            picked_rows(f0, picks@).skip(k as int) == picked_rows(
                (top as nat, middle as nat, bottom as nat),
                picks@.skip(k as int),
            ),
            forall|j: int|
                0 <= j < k ==> (#[trigger] placements@[j]) == (OfcPlacement {
                    card: order@[j],
                    row: picked_rows(f0, picks@)[j],
                }),
        decreases place - k,
    {
        let ghost f = (top as nat, middle as nat, bottom as nat);
        let ghost rest = picks@.skip(k as int);
        let mut open: Vec<Row> = Vec::new();
        if top > 0 {
            open.push(Row::Top);
        }
        if middle > 0 {
            open.push(Row::Middle);
        }
        if bottom > 0 {
            open.push(Row::Bottom);
        }
        proof {
            assert(open@ =~= open_rows(f));
            assert(rest[0] == picks@[k as int]);
        }
        let row = open[picks[k] as usize];
        match row {
            Row::Top => top = top - 1,
            Row::Middle => middle = middle - 1,
            Row::Bottom => bottom = bottom - 1,
        }
        placements.push(OfcPlacement { card: order[k], row });
        proof {
            assert(rest.drop_first() =~= picks@.skip(k + 1));
            assert(picked_rows(f0, picks@).skip(k as int)[0] == row);
            assert(picked_rows(f0, picks@).skip(k + 1) =~= picked_rows(f0, picks@).skip(k as int).drop_first());
            assert(picked_rows(f, rest).drop_first() =~= picked_rows(take_slot(f, row), rest.drop_first()));
            assert(take_slot(f, row) == (top as nat, middle as nat, bottom as nat));
        }
        k = k + 1;
    }
    let mut discards: Vec<u8> = Vec::new();
    let mut i: usize = place as usize;
    while i < order.len()
        invariant
            place <= i <= order@.len(),
            discards@ == order@.subrange(place as int, i as int),
        decreases order@.len() - i,
    {
        discards.push(order[i]);
        i = i + 1;
        proof {
            assert(discards@ =~= order@.subrange(place as int, i as int));
        }
    }
    proof {
        assert(order@.subrange(place as int, i as int) =~= order@.skip(place as int));
    }
    OfcAction { placements, discards }
}

/// The random bot never places into a full row: whatever it draws, each row
/// gets at most the room it had.
pub proof fn lemma_random_never_overfills(f: Room, picks: Seq<u64>, row: Row)
    requires
        picks_fit(f, picks),
    ensures
        count_row(picked_rows(f, picks), row) <= room_in(f, row),
    decreases picks.len(),
{
    if picks.len() > 0 {
        let r = open_rows(f)[picks[0] as int];
        lemma_random_never_overfills(take_slot(f, r), picks.drop_first(), row);
        let rows = picked_rows(f, picks);
        assert(rows.drop_first() =~= picked_rows(take_slot(f, r), picks.drop_first()));
        assert(rows[0] == r);
        assert(room_in(f, r) > 0);
    }
}


/// What the OFC table tracker reads of an observed event.
#[derive(Clone, Debug)]
pub enum OfcTableEvent {
    /// `seat` plays this hand in fantasyland, dealt `cards` at once.
    Fantasyland { seat: usize, cards: u8 },
    /// Cards dealt to `seat`.
    Deal { seat: usize, cards: Vec<u8> },
    /// `seat`'s placements (empty for a fantasyland opponent, whose board
    /// stays hidden until showdown).
    Place { seat: usize, placements: Vec<OfcPlacement> },
    /// Anything else.
    Other,
}

/// Every seat's board as three rows of cards.
pub open spec fn rows_of(boards: Seq<OfcBoard>) -> Seq<(Seq<u8>, Seq<u8>, Seq<u8>)> {
    boards.map_values(|b: OfcBoard| (b.top@, b.middle@, b.bottom@))
}

/// `rows` with each of `placements` added, in order.
pub open spec fn rows_after(rows: (Seq<u8>, Seq<u8>, Seq<u8>), placements: Seq<OfcPlacement>) -> (Seq<u8>, Seq<u8>, Seq<u8>)
    decreases placements.len(),
{
    if placements.len() == 0 {
        rows
    } else {
        let p = placements.last();
        let r = rows_after(rows, placements.drop_last());
        match p.row {
            Row::Top => (r.0.push(p.card), r.1, r.2),
            Row::Middle => (r.0, r.1.push(p.card), r.2),
            Row::Bottom => (r.0, r.1, r.2.push(p.card)),
        }
    }
}

/// The OFC table as this seat reconstructs it from the event stream: every
/// seat's visible board, which seats play in fantasyland, and the cards
/// dealt to this seat that it has yet to place.
pub struct OfcTable {
    pub hand_no: u64,
    pub seat: usize,
    pub boards: Vec<OfcBoard>,
    pub fantasyland: Vec<Option<u8>>,
    pub dealt: Vec<u8>,
}

impl OfcTable {
    /// An empty table.
    pub fn new() -> (t: OfcTable)
        ensures
            t.hand_no == 0,
            t.seat == 0,
            t.boards@.len() == 0,
            t.fantasyland@.len() == 0,
            t.dealt@.len() == 0,
    {
        OfcTable { hand_no: 0, seat: 0, boards: Vec::new(), fantasyland: Vec::new(), dealt: Vec::new() }
    }

    /// A new hand: `seats` empty boards, nobody in fantasyland, nothing dealt.
    pub fn hand_start(&mut self, hand_no: u64, seat: usize, seats: usize)
        ensures
            final(self).hand_no == hand_no,
            final(self).seat == seat,
            final(self).boards@.len() == seats,
            forall|s: int|
                0 <= s < seats ==> (#[trigger] final(self).boards@[s]).top@.len() == 0
                    && final(self).boards@[s].middle@.len() == 0 && final(self).boards@[s].bottom@.len() == 0,
            final(self).fantasyland@ == Seq::new(seats as nat, |s: int| None::<u8>),
            final(self).dealt@.len() == 0,
    {
        self.hand_no = hand_no;
        self.seat = seat;
        let mut boards: Vec<OfcBoard> = Vec::new();
        let mut fantasyland: Vec<Option<u8>> = Vec::new();
        let mut k: usize = 0;
        while k < seats
            invariant
                k <= seats,
                boards@.len() == k,
                forall|s: int|
                    0 <= s < k ==> (#[trigger] boards@[s]).top@.len() == 0 && boards@[s].middle@.len() == 0
                        && boards@[s].bottom@.len() == 0,
                fantasyland@ == Seq::new(k as nat, |s: int| None::<u8>),
            decreases seats - k,
        {
            boards.push(OfcBoard::new());
            fantasyland.push(None);
            k = k + 1;
            proof {
                assert(fantasyland@ =~= Seq::new(k as nat, |s: int| None::<u8>));
            }
        }
        self.boards = boards;
        self.fantasyland = fantasyland;
        self.dealt = Vec::new();
    }

    /// Folds one event into the table: a fantasyland deal is recorded for
    /// its seat, cards dealt to this seat wait to be placed, and placements
    /// join their seat's board (this seat's placements also clear what it
    /// was waiting to place).
    pub fn observe(&mut self, ev: &OfcTableEvent)
        requires
            match ev {
                OfcTableEvent::Fantasyland { seat, .. } => *seat < old(self).fantasyland@.len(),
                OfcTableEvent::Place { seat, .. } => *seat < old(self).boards@.len(),
                _ => true,
            },
        ensures
            final(self).hand_no == old(self).hand_no,
            final(self).seat == old(self).seat,
            final(self).boards@.len() == old(self).boards@.len(),
            match ev {
                OfcTableEvent::Fantasyland { seat, cards } => {
                    &&& final(self).fantasyland@ == old(self).fantasyland@.update(*seat as int, Some(*cards))
                    &&& rows_of(final(self).boards@) == rows_of(old(self).boards@)
                    &&& final(self).dealt@ == old(self).dealt@
                },
                OfcTableEvent::Deal { seat, cards } => {
                    &&& final(self).dealt@ == if *seat == old(self).seat {
                        old(self).dealt@ + cards@
                    } else {
                        old(self).dealt@
                    }
                    &&& rows_of(final(self).boards@) == rows_of(old(self).boards@)
                    &&& final(self).fantasyland@ == old(self).fantasyland@
                },
                OfcTableEvent::Place { seat, placements } => {
                    &&& rows_of(final(self).boards@) == rows_of(old(self).boards@).update(
                        *seat as int,
                        rows_after(rows_of(old(self).boards@)[*seat as int], placements@),
                    )
                    &&& final(self).dealt@ == if *seat == old(self).seat {
                        Seq::empty()
                    } else {
                        old(self).dealt@
                    }
                    &&& final(self).fantasyland@ == old(self).fantasyland@
                },
                OfcTableEvent::Other => {
                    &&& rows_of(final(self).boards@) == rows_of(old(self).boards@)
                    &&& final(self).fantasyland@ == old(self).fantasyland@
                    &&& final(self).dealt@ == old(self).dealt@
                },
            },
    {
        match ev {
            OfcTableEvent::Fantasyland { seat, cards } => {
                self.fantasyland.set(*seat, Some(*cards));
                proof {
                    assert(rows_of(self.boards@) =~= rows_of(old(self).boards@));
                }
            },
            OfcTableEvent::Deal { seat, cards } => {
                if *seat == self.seat {
                    let mut k: usize = 0;
                    let ghost start = self.dealt@;
                    while k < cards.len()
                        invariant
                            k <= cards@.len(),
                            self.dealt@ == start + cards@.take(k as int),
                            self.boards == old(self).boards,
                            self.fantasyland == old(self).fantasyland,
                            self.hand_no == old(self).hand_no,
                            self.seat == old(self).seat,
                            start == old(self).dealt@,
                        decreases cards@.len() - k,
                    {
                        self.dealt.push(cards[k]);
                        k = k + 1;
                        proof {
                            assert(self.dealt@ =~= start + cards@.take(k as int));
                        }
                    }
                    proof {
                        assert(cards@.take(k as int) =~= cards@);
                    }
                }
            },
            OfcTableEvent::Place { seat, placements } => {
                let mut board = copy_board(&self.boards[*seat]);
                let ghost start = rows_of(old(self).boards@)[*seat as int];
                let mut k: usize = 0;
                proof {
                    assert(placements@.take(0) =~= Seq::<OfcPlacement>::empty());
                }
                while k < placements.len()
                    invariant
                        k <= placements@.len(),
                        (board.top@, board.middle@, board.bottom@) == rows_after(start, placements@.take(k as int)),
                    decreases placements@.len() - k,
                {
                    let p = placements[k];
                    match p.row {
                        Row::Top => board.top.push(p.card),
                        Row::Middle => board.middle.push(p.card),
                        Row::Bottom => board.bottom.push(p.card),
                    }
                    proof {
                        assert(placements@.take(k + 1).drop_last() =~= placements@.take(k as int));
                    }
                    k = k + 1;
                }
                proof {
                    assert(placements@.take(k as int) =~= placements@);
                }
                self.boards.set(*seat, board);
                if *seat == self.seat {
                    self.dealt = Vec::new();
                }
                proof {
                    assert(rows_of(self.boards@) =~= rows_of(old(self).boards@).update(
                        *seat as int,
                        rows_after(start, placements@),
                    ));
                }
            },
            OfcTableEvent::Other => {},
        }
    }
}

/// What the reference placement bot tracks off the event stream: its seat
/// this hand, its own board (to know each row's room) and the cards dealt
/// to it that it has yet to place.
pub struct PlacerTable {
    pub seat: usize,
    pub board: OfcBoard,
    pub dealt: Vec<u8>,
}

impl PlacerTable {
    /// An empty table.
    pub fn new() -> (t: PlacerTable)
        ensures
            t.seat == 0,
            t.board.top@.len() == 0 && t.board.middle@.len() == 0 && t.board.bottom@.len() == 0,
            t.dealt@.len() == 0,
    {
        PlacerTable { seat: 0, board: OfcBoard::new(), dealt: Vec::new() }
    }

    /// A new hand at `seat`: an empty board, nothing dealt.
    pub fn hand_start(&mut self, seat: usize)
        ensures
            final(self).seat == seat,
            final(self).board.top@.len() == 0 && final(self).board.middle@.len() == 0
                && final(self).board.bottom@.len() == 0,
            final(self).dealt@.len() == 0,
    {
        self.seat = seat;
        self.board = OfcBoard::new();
        self.dealt = Vec::new();
    }

    /// Folds one event in: cards dealt to this seat wait to be placed; this
    /// seat's placements join its board and clear the wait. Other seats'
    /// events change nothing.
    pub fn observe(&mut self, ev: &OfcTableEvent)
        ensures
            final(self).seat == old(self).seat,
            match ev {
                OfcTableEvent::Deal { seat, cards } => if *seat == old(self).seat {
                    &&& final(self).dealt@ == old(self).dealt@ + cards@
                    &&& (final(self).board.top@, final(self).board.middle@, final(self).board.bottom@) == (
                        old(self).board.top@,
                        old(self).board.middle@,
                        old(self).board.bottom@,
                    )
                } else {
                    &&& final(self).dealt@ == old(self).dealt@
                    &&& (final(self).board.top@, final(self).board.middle@, final(self).board.bottom@) == (
                        old(self).board.top@,
                        old(self).board.middle@,
                        old(self).board.bottom@,
                    )
                },
                OfcTableEvent::Place { seat, placements } => if *seat == old(self).seat {
                    &&& final(self).dealt@ == Seq::<u8>::empty()
                    &&& (final(self).board.top@, final(self).board.middle@, final(self).board.bottom@) == rows_after(
                        (old(self).board.top@, old(self).board.middle@, old(self).board.bottom@),
                        placements@,
                    )
                } else {
                    &&& final(self).dealt@ == old(self).dealt@
                    &&& (final(self).board.top@, final(self).board.middle@, final(self).board.bottom@) == (
                        old(self).board.top@,
                        old(self).board.middle@,
                        old(self).board.bottom@,
                    )
                },
                _ => {
                    &&& final(self).dealt@ == old(self).dealt@
                    &&& (final(self).board.top@, final(self).board.middle@, final(self).board.bottom@) == (
                        old(self).board.top@,
                        old(self).board.middle@,
                        old(self).board.bottom@,
                    )
                },
            },
    {
        match ev {
            OfcTableEvent::Deal { seat, cards } => {
                if *seat == self.seat {
                    let mut dealt = copy_row(&self.dealt);
                    let mut k: usize = 0;
                    while k < cards.len()
                        invariant
                            k <= cards@.len(),
                            dealt@ == old(self).dealt@ + cards@.take(k as int),
                        decreases cards@.len() - k,
                    {
                        dealt.push(cards[k]);
                        k = k + 1;
                        proof {
                            assert(dealt@ =~= old(self).dealt@ + cards@.take(k as int));
                        }
                    }
                    proof {
                        assert(cards@.take(k as int) =~= cards@);
                    }
                    self.dealt = dealt;
                }
            },
            OfcTableEvent::Place { seat, placements } => {
                if *seat == self.seat {
                    let ghost start = (self.board.top@, self.board.middle@, self.board.bottom@);
                    let mut board = copy_board(&self.board);
                    let mut k: usize = 0;
                    proof {
                        assert(placements@.take(0) =~= Seq::<OfcPlacement>::empty());
                    }
                    while k < placements.len()
                        invariant
                            k <= placements@.len(),
                            (board.top@, board.middle@, board.bottom@) == rows_after(start, placements@.take(k as int)),
                        decreases placements@.len() - k,
                    {
                        let p = placements[k];
                        match p.row {
                            Row::Top => board.top.push(p.card),
                            Row::Middle => board.middle.push(p.card),
                            Row::Bottom => board.bottom.push(p.card),
                        }
                        proof {
                            assert(placements@.take(k + 1).drop_last() =~= placements@.take(k as int));
                        }
                        k = k + 1;
                    }
                    proof {
                        assert(placements@.take(k as int) =~= placements@);
                    }
                    self.board = board;
                    self.dealt = Vec::new();
                }
            },
            _ => {},
        }
    }

    /// The filler rule on what waits to be placed: the lowest `place` cards,
    /// bottom first as rows have room, the rest discarded. The rows have
    /// room for every card placed.
    pub fn filler_action(&self, place: u8) -> (r: OfcAction)
        requires
            place as int <= self.dealt@.len(),
            place as int <= self.board.spec_free(Row::Top) + self.board.spec_free(Row::Middle)
                + self.board.spec_free(Row::Bottom),
        ensures
            filler_action_is(self.dealt@, place as nat, self.board, r),
    {
        filler_action(self.dealt.as_slice(), place, &self.board)
    }
}

/// A copy of `b`.
fn copy_board(b: &OfcBoard) -> (r: OfcBoard)
    ensures
        r.top@ == b.top@,
        r.middle@ == b.middle@,
        r.bottom@ == b.bottom@,
{
    OfcBoard { top: copy_row(&b.top), middle: copy_row(&b.middle), bottom: copy_row(&b.bottom) }
}

fn copy_row(v: &Vec<u8>) -> (r: Vec<u8>)
    ensures
        r@ == v@,
{
    let mut out: Vec<u8> = Vec::new();
    let mut i: usize = 0;
    while i < v.len()
        invariant
            i <= v@.len(),
            out@ == v@.take(i as int),
        decreases v@.len() - i,
    {
        out.push(v[i]);
        i = i + 1;
        proof {
            assert(out@ =~= v@.take(i as int));
        }
    }
    proof {
        assert(v@.take(i as int) =~= v@);
    }
    out
}

} // verus!
