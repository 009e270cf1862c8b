//! The match runners' bookkeeping around each hand: which rotations a deck
//! is dealt under, how a settlement indexed by seat becomes one indexed by
//! bot, and the running totals a match is judged on. A settlement that only
//! moves chips between seats stays zero-sum through all of it.
use vstd::prelude::*;
use crate::bot::{DealingMode, Progress};
use crate::text::{decimal, push_decimal, push_str};
use crate::seating::{bot_of_seat, lemma_rotation_injective, lemma_seating_bijection, spec_bot_of_seat, spec_seat_of_bot, Seating};

verus! {

/// The sum of `s`.
pub open spec fn total(s: Seq<i64>) -> int
    decreases s.len(),
{
    if s.len() == 0 {
        0
    } else {
        total(s.drop_last()) + s.last()
    }
}

/// `n` zeros.
pub open spec fn zeros(n: nat) -> Seq<i64> {
    Seq::new(n, |i: int| 0i64)
}

proof fn lemma_total_update(s: Seq<i64>, i: int, v: i64)
    requires
        0 <= i < s.len(),
    ensures
        total(s.update(i, v)) == total(s) - s[i] + v,
    decreases s.len(),
{
    if i < s.len() - 1 {
        lemma_total_update(s.drop_last(), i, v);
        assert(s.update(i, v).drop_last() =~= s.drop_last().update(i, v));
    } else {
        assert(s.update(i, v).drop_last() =~= s.drop_last());
    }
}

proof fn lemma_total_zeros(n: nat)
    ensures
        total(zeros(n)) == 0,
    decreases n,
{
    if n > 0 {
        lemma_total_zeros((n - 1) as nat);
        assert(zeros(n).drop_last() =~= zeros((n - 1) as nat));
    }
}

/// Pointwise sum of two sequences of equal length.
pub open spec fn plus(a: Seq<i64>, b: Seq<i64>) -> Seq<int> {
    Seq::new(a.len(), |i: int| a[i] + b[i])
}

proof fn lemma_total_plus(a: Seq<i64>, b: Seq<i64>, c: Seq<i64>)
    requires
        a.len() == b.len(),
        c.len() == a.len(),
        forall|i: int| 0 <= i < a.len() ==> #[trigger] c[i] == a[i] + b[i],
    ensures
        total(c) == total(a) + total(b),
    decreases a.len(),
{
    if a.len() > 0 {
        lemma_total_plus(a.drop_last(), b.drop_last(), c.drop_last());
    }
}

/// The rotations a deck is dealt under: seeded dealing plays the single
/// rotation `deck_no % n`, duplicate dealing replays the deck once per
/// rotation `0..n`.
pub open spec fn deck_rotations(dealing: DealingMode, deck_no: u64, n: nat) -> Seq<usize> {
    match dealing {
        DealingMode::Seeded => seq![(deck_no % (n as u64)) as usize],
        DealingMode::Duplicate => Seq::new(n, |r: int| r as usize),
    }
}

/// The rotations deck `deck_no` is dealt under, for `n` bots.
pub fn rotations(dealing: DealingMode, deck_no: u64, n: usize) -> (r: Vec<usize>)
    requires
        n > 0,
    ensures
        r@ == deck_rotations(dealing, deck_no, n as nat),
{
    match dealing {
        DealingMode::Seeded => {
            let one = (deck_no % (n as u64)) as usize;
            let v = vec![one];
            proof {
                assert(v@ =~= deck_rotations(dealing, deck_no, n as nat));
            }
            v
        },
        DealingMode::Duplicate => {
            let mut v: Vec<usize> = Vec::new();
            let mut r: usize = 0;
            while r < n
                invariant
                    r <= n,
                    v@ == Seq::new(r as nat, |i: int| i as usize),
                decreases n - r,
            {
                v.push(r);
                r = r + 1;
                proof {
                    assert(v@ =~= Seq::new(r as nat, |i: int| i as usize));
                }
            }
            v
        },
    }
}

/// The seat bot `bot` occupies under rotation `r` of `seating`.
pub open spec fn seat_under(seating: Seating, r: usize, bot: int) -> int {
    (seating.arrangement()[bot] + r as int) % (seating.arrangement().len() as int)
}

/// A settled hand's nets by bot: each bot gets the net of the seat it sat
/// at under rotation `r`. The total is unchanged, so a zero-sum settlement
/// stays zero-sum.
pub fn nets_by_bot(seating: &Seating, r: usize, seat_nets: &[i64]) -> (nets: Vec<i64>)
    requires
        seating.wf(),
        seat_nets@.len() == seating.arrangement().len(),
        seat_nets@.len() > 0,
    ensures
        nets@.len() == seat_nets@.len(),
        forall|b: int| 0 <= b < nets@.len() ==> #[trigger] nets@[b] == seat_nets@[seat_under(*seating, r, b)],
        total(nets@) == total(seat_nets@),
{
    let n = seat_nets.len();
    let ghost p = seating.arrangement();
    proof {
        seating.lemma_arrangement();
    }
    let mut nets: Vec<i64> = Vec::new();
    let mut k: usize = 0;
    while k < n
        invariant
            k <= n,
            n == seat_nets@.len(),
            nets@ == zeros(k as nat),
        decreases n - k,
    {
        nets.push(0);
        k = k + 1;
        proof {
            assert(nets@ =~= zeros(k as nat));
        }
    }
    proof {
        lemma_total_zeros(n as nat);
        assert(seat_nets@.take(0) =~= Seq::<i64>::empty());
    }
    let mut seat: usize = 0;
    while seat < n
        invariant
            seating.wf(),
            p == seating.arrangement(),
            crate::seating::is_arrangement(p),
            n == seat_nets@.len(),
            n == p.len(),
            seat <= n,
            nets@.len() == n,
            forall|b: int| 0 <= b < n && seat_under(*seating, r, b) < seat ==> #[trigger] nets@[b]
                == seat_nets@[seat_under(*seating, r, b)],
            forall|b: int| 0 <= b < n && seat_under(*seating, r, b) >= seat ==> #[trigger] nets@[b] == 0,
            total(nets@) == total(seat_nets@.take(seat as int)),
        decreases n - seat,
    {
        let bot = seating.bot_of_seat(r, seat);
        proof {
            assert(seat_under(*seating, r, bot as int) == seat);
            lemma_total_update(nets@, bot as int, seat_nets@[seat as int]);
            assert(seat_nets@.take(seat + 1).drop_last() =~= seat_nets@.take(seat as int));
        }
        nets.set(bot, seat_nets[seat]);
        proof {
            assert forall|b: int| 0 <= b < n && b != bot implies seat_under(*seating, r, b) != seat by {
                if seat_under(*seating, r, b) == seat {
                    lemma_rotation_injective(p, r as int, b, bot as int);
                }
            }
        }
        seat = seat + 1;
    }
    proof {
        assert(seat_nets@.take(n as int) =~= seat_nets@);
        assert forall|b: int| 0 <= b < n implies seat_under(*seating, r, b) < n by {
            assert(p[b] < n);
        }
    }
    nets
}

/// What a betting match has accumulated: each bot's net chips over every
/// hand played, each bot's net over the current deck's rotation set (one
/// duplicate observation once the set completes), hands and decks played,
/// and the bot that forfeited, if any.
pub struct MatchLedger {
    pub totals: Vec<i64>,
    pub deck_sums: Vec<i64>,
    pub hands_played: u64,
    pub decks_done: u64,
    pub forfeited_by: Option<usize>,
}

impl MatchLedger {
    /// A fresh ledger for `n` bots.
    pub fn new(n: usize) -> (l: MatchLedger)
        ensures
            l.totals@ == zeros(n as nat),
            l.deck_sums@ == zeros(n as nat),
            l.hands_played == 0,
            l.decks_done == 0,
            l.forfeited_by is None,
    {
        let mut totals: Vec<i64> = Vec::new();
        let mut deck_sums: Vec<i64> = Vec::new();
        let mut k: usize = 0;
        while k < n
            invariant
                k <= n,
                totals@ == zeros(k as nat),
                deck_sums@ == zeros(k as nat),
            decreases n - k,
        {
            totals.push(0);
            deck_sums.push(0);
            k = k + 1;
            proof {
                assert(totals@ =~= zeros(k as nat));
                assert(deck_sums@ =~= zeros(k as nat));
            }
        }
        MatchLedger { totals, deck_sums, hands_played: 0, decks_done: 0, forfeited_by: None }
    }

    /// Folds one settled hand's nets (by bot) into the totals and the
    /// current deck's sums; the match total moves by the hand's total.
    pub fn record_hand(&mut self, nets: &[i64])
        requires
            old(self).totals@.len() == nets@.len(),
            old(self).deck_sums@.len() == nets@.len(),
            old(self).hands_played < u64::MAX,
            forall|b: int| 0 <= b < nets@.len() ==> i64::MIN <= #[trigger] old(self).totals@[b] + nets@[b] <= i64::MAX,
            forall|b: int| 0 <= b < nets@.len() ==> i64::MIN <= #[trigger] old(self).deck_sums@[b] + nets@[b] <= i64::MAX,
        ensures
            final(self).totals@.len() == nets@.len(),
            final(self).deck_sums@.len() == nets@.len(),
            forall|b: int| 0 <= b < nets@.len() ==> #[trigger] final(self).totals@[b] == old(self).totals@[b] + nets@[b],
            forall|b: int| 0 <= b < nets@.len() ==> #[trigger] final(self).deck_sums@[b] == old(self).deck_sums@[b] + nets@[b],
            final(self).hands_played == old(self).hands_played + 1,
            final(self).decks_done == old(self).decks_done,
            final(self).forfeited_by == old(self).forfeited_by,
            total(final(self).totals@) == total(old(self).totals@) + total(nets@),
            total(final(self).deck_sums@) == total(old(self).deck_sums@) + total(nets@),
    {
        add_into(&mut self.totals, nets);
        add_into(&mut self.deck_sums, nets);
        self.hands_played = self.hands_played + 1;
    }

    /// Closes the current deck: hands back its per-bot sums (the duplicate
    /// observation, once divided by the rotation count), starts the next
    /// deck's sums at zero, and reports progress.
    pub fn finish_deck(&mut self) -> (r: (Vec<i64>, Progress))
        requires
            old(self).decks_done < u64::MAX,
        ensures
            r.0@ == old(self).deck_sums@,
            final(self).deck_sums@ == zeros(old(self).deck_sums@.len()),
            final(self).totals@ == old(self).totals@,
            final(self).decks_done == old(self).decks_done + 1,
            final(self).hands_played == old(self).hands_played,
            final(self).forfeited_by == old(self).forfeited_by,
            r.1 == (Progress { decks_done: final(self).decks_done, hands_done: final(self).hands_played }),
    {
        let n = self.deck_sums.len();
        let mut fresh: Vec<i64> = Vec::new();
        let mut k: usize = 0;
        while k < n
            invariant
                k <= n,
                fresh@ == zeros(k as nat),
            decreases n - k,
        {
            fresh.push(0);
            k = k + 1;
            proof {
                assert(fresh@ =~= zeros(k as nat));
            }
        }
        let mut sums = fresh;
        std::mem::swap(&mut sums, &mut self.deck_sums);
        self.decks_done = self.decks_done + 1;
        (sums, Progress { decks_done: self.decks_done, hands_done: self.hands_played })
    }

    /// Ends the match: `offender` forfeits; the interrupted deck's sums are
    /// discarded.
    pub fn forfeit(&mut self, offender: usize)
        ensures
            final(self).forfeited_by == Some(offender),
            final(self).totals@ == old(self).totals@,
            final(self).hands_played == old(self).hands_played,
            final(self).decks_done == old(self).decks_done,
            final(self).deck_sums@ == zeros(old(self).deck_sums@.len()),
    {
        clear_sums(&mut self.deck_sums);
        self.forfeited_by = Some(offender);
    }
}

/// Sets every entry of `sums` to zero.
fn clear_sums(sums: &mut Vec<i64>)
    ensures
        final(sums)@ == zeros(old(sums)@.len()),
{
    let n = sums.len();
    let mut k: usize = 0;
    while k < n
        invariant
            k <= n,
            n == sums@.len(),
            forall|b: int| 0 <= b < k ==> #[trigger] sums@[b] == 0,
        decreases n - k,
    {
        sums.set(k, 0);
        k = k + 1;
    }
    proof {
        assert(sums@ =~= zeros(n as nat));
    }
}

/// Adds `delta` into `acc`, entry by entry.
fn add_into(acc: &mut Vec<i64>, delta: &[i64])
    requires
        old(acc)@.len() == delta@.len(),
        forall|b: int| 0 <= b < delta@.len() ==> i64::MIN <= #[trigger] old(acc)@[b] + delta@[b] <= i64::MAX,
    ensures
        final(acc)@.len() == delta@.len(),
        forall|b: int| 0 <= b < delta@.len() ==> #[trigger] final(acc)@[b] == old(acc)@[b] + delta@[b],
        total(final(acc)@) == total(old(acc)@) + total(delta@),
{
    let ghost start = acc@;
    let n = acc.len();
    let mut k: usize = 0;
    while k < n
        invariant
            k <= n,
            n == delta@.len(),
            acc@.len() == n,
            start.len() == n,
            forall|b: int| 0 <= b < n ==> i64::MIN <= #[trigger] start[b] + delta@[b] <= i64::MAX,
            forall|b: int| 0 <= b < k ==> #[trigger] acc@[b] == start[b] + delta@[b],
            forall|b: int| k <= b < n ==> #[trigger] acc@[b] == start[b],
        decreases n - k,
    {
        let v = acc[k] + delta[k];
        acc.set(k, v);
        k = k + 1;
    }
    proof {
        lemma_total_plus(start, delta@, acc@);
    }
}


/// An OFC settlement's points by bot: each bot gets the points of the seat
/// it held in hand `hand_no`. The total is unchanged, so points that only
/// move between seats only move between bots.
pub fn points_by_bot(hand_no: u64, seat_points: &[i64]) -> (points: Vec<i64>)
    requires
        seat_points@.len() > 0,
    ensures
        points@.len() == seat_points@.len(),
        forall|b: int|
            0 <= b < points@.len() ==> #[trigger] points@[b] == seat_points@[spec_seat_of_bot(
                hand_no,
                b,
                seat_points@.len() as int,
            )],
        total(points@) == total(seat_points@),
{
    let n = seat_points.len();
    let ghost ni = n as int;
    let mut points: Vec<i64> = Vec::new();
    let mut k: usize = 0;
    while k < n
        invariant
            k <= n,
            points@ == zeros(k as nat),
        decreases n - k,
    {
        points.push(0);
        k = k + 1;
        proof {
            assert(points@ =~= zeros(k as nat));
        }
    }
    proof {
        lemma_total_zeros(n as nat);
        assert(seat_points@.take(0) =~= Seq::<i64>::empty());
    }
    let mut seat: usize = 0;
    while seat < n
        invariant
            n == seat_points@.len(),
            ni == n,
            n > 0,
            seat <= n,
            points@.len() == n,
            forall|b: int| 0 <= b < n && spec_seat_of_bot(hand_no, b, ni) < seat ==> #[trigger] points@[b]
                == seat_points@[spec_seat_of_bot(hand_no, b, ni)],
            forall|b: int| 0 <= b < n && spec_seat_of_bot(hand_no, b, ni) >= seat ==> #[trigger] points@[b] == 0,
            total(points@) == total(seat_points@.take(seat as int)),
        decreases n - seat,
    {
        let bot = bot_of_seat(hand_no, seat, n);
        proof {
            lemma_seating_bijection(hand_no, ni, 0, seat as int);
            assert(spec_seat_of_bot(hand_no, bot as int, ni) == seat);
            lemma_total_update(points@, bot as int, seat_points@[seat as int]);
            assert(seat_points@.take(seat + 1).drop_last() =~= seat_points@.take(seat as int));
        }
        points.set(bot, seat_points[seat]);
        proof {
            assert forall|b: int| 0 <= b < n && b != bot implies spec_seat_of_bot(hand_no, b, ni) != seat by {
                lemma_seating_bijection(hand_no, ni, b, seat as int);
            }
        }
        seat = seat + 1;
    }
    proof {
        assert(seat_points@.take(n as int) =~= seat_points@);
        assert forall|b: int| 0 <= b < n implies spec_seat_of_bot(hand_no, b, ni) < n by {
            lemma_seating_bijection(hand_no, ni, b, 0);
        }
    }
    points
}

/// A per-seat record of hand `hand_no` read by bot: entry `b` is the entry
/// of the seat bot `b` held.
pub fn seat_record_by_bot<T: Copy>(hand_no: u64, per_seat: &[T]) -> (r: Vec<T>)
    requires
        per_seat@.len() > 0,
    ensures
        r@.len() == per_seat@.len(),
        forall|b: int|
            0 <= b < r@.len() ==> #[trigger] r@[b] == per_seat@[spec_seat_of_bot(
                hand_no,
                b,
                per_seat@.len() as int,
            )],
{
    let n = per_seat.len();
    let mut r: Vec<T> = Vec::new();
    let mut b: usize = 0;
    while b < n
        invariant
            n == per_seat@.len(),
            n > 0,
            b <= n,
            r@.len() == b,
            forall|j: int| 0 <= j < b ==> #[trigger] r@[j] == per_seat@[spec_seat_of_bot(hand_no, j, n as int)],
        decreases n - b,
    {
        let seat = crate::seating::seat_of_bot(hand_no, b, n);
        r.push(per_seat[seat]);
        b = b + 1;
    }
    r
}

/// A per-bot record laid out by seat for hand `hand_no`: entry `s` is the
/// entry of the bot holding seat `s` (how the fantasyland counts each bot
/// carries into a hand reach the seats dealing it).
pub fn bot_record_by_seat<T: Copy>(hand_no: u64, per_bot: &[T]) -> (r: Vec<T>)
    requires
        per_bot@.len() > 0,
    ensures
        r@.len() == per_bot@.len(),
        forall|s: int|
            0 <= s < r@.len() ==> #[trigger] r@[s] == per_bot@[spec_bot_of_seat(hand_no, s, per_bot@.len() as int)],
        forall|b: int|
            0 <= b < per_bot@.len() ==> r@[spec_seat_of_bot(hand_no, b, per_bot@.len() as int)] == #[trigger] per_bot@[b],
{
    let n = per_bot.len();
    let mut r: Vec<T> = Vec::new();
    let mut s: usize = 0;
    while s < n
        invariant
            n == per_bot@.len(),
            n > 0,
            s <= n,
            r@.len() == s,
            forall|j: int| 0 <= j < s ==> #[trigger] r@[j] == per_bot@[spec_bot_of_seat(hand_no, j, n as int)],
        decreases n - s,
    {
        let bot = bot_of_seat(hand_no, s, n);
        r.push(per_bot[bot]);
        s = s + 1;
    }
    proof {
        assert forall|b: int| 0 <= b < n implies r@[spec_seat_of_bot(hand_no, b, n as int)] == #[trigger] per_bot@[b] by {
            lemma_seating_bijection(hand_no, n as int, b, 0);
        }
    }
    r
}

/// What an OFC match has accumulated per bot: points, fouls, hands played
/// in fantasyland, scoops and royalties; the fantasyland card count each bot
/// carries into the next hand; hands played; and the forfeiting bot, if any.
pub struct OfcLedger {
    pub totals: Vec<i64>,
    pub fouls: Vec<u64>,
    pub fantasylands: Vec<u64>,
    pub scoops: Vec<u64>,
    pub royalties: Vec<u64>,
    pub fantasyland: Vec<Option<u8>>,
    pub hands_played: u64,
    pub forfeited_by: Option<usize>,
}

/// `n` zero counters.
pub open spec fn no_counts(n: nat) -> Seq<u64> {
    Seq::new(n, |i: int| 0u64)
}

fn zero_counts(n: usize) -> (r: Vec<u64>)
    ensures
        r@ == no_counts(n as nat),
{
    let mut r: Vec<u64> = Vec::new();
    let mut k: usize = 0;
    while k < n
        invariant
            k <= n,
            r@ == no_counts(k as nat),
        decreases n - k,
    {
        r.push(0);
        k = k + 1;
        proof {
            assert(r@ =~= no_counts(k as nat));
        }
    }
    r
}

/// Adds `delta[b]` to `acc[b]` for every `b`.
fn count_into(acc: &mut Vec<u64>, delta: &[u64])
    requires
        old(acc)@.len() == delta@.len(),
        forall|b: int| 0 <= b < delta@.len() ==> #[trigger] old(acc)@[b] + delta@[b] <= u64::MAX,
    ensures
        final(acc)@.len() == delta@.len(),
        forall|b: int| 0 <= b < delta@.len() ==> #[trigger] final(acc)@[b] == old(acc)@[b] + delta@[b],
{
    let ghost start = acc@;
    let n = acc.len();
    let mut k: usize = 0;
    while k < n
        invariant
            k <= n,
            n == delta@.len(),
            acc@.len() == n,
            start.len() == n,
            forall|b: int| 0 <= b < n ==> #[trigger] start[b] + delta@[b] <= u64::MAX,
            forall|b: int| 0 <= b < k ==> #[trigger] acc@[b] == start[b] + delta@[b],
            forall|b: int| k <= b < n ==> #[trigger] acc@[b] == start[b],
        decreases n - k,
    {
        let v = acc[k] + delta[k];
        acc.set(k, v);
        k = k + 1;
    }
}

impl OfcLedger {
    /// A fresh ledger for `n` bots, none in fantasyland.
    pub fn new(n: usize) -> (l: OfcLedger)
        ensures
            l.totals@ == zeros(n as nat),
            l.fouls@ == no_counts(n as nat),
            l.fantasylands@ == no_counts(n as nat),
            l.scoops@ == no_counts(n as nat),
            l.royalties@ == no_counts(n as nat),
            l.fantasyland@ == Seq::new(n as nat, |i: int| None::<u8>),
            l.hands_played == 0,
            l.forfeited_by is None,
    {
        let mut totals: Vec<i64> = Vec::new();
        let mut fantasyland: Vec<Option<u8>> = Vec::new();
        let mut k: usize = 0;
        while k < n
            invariant
                k <= n,
                totals@ == zeros(k as nat),
                fantasyland@ == Seq::new(k as nat, |i: int| None::<u8>),
            decreases n - k,
        {
            totals.push(0);
            fantasyland.push(None);
            k = k + 1;
            proof {
                assert(totals@ =~= zeros(k as nat));
                assert(fantasyland@ =~= Seq::new(k as nat, |i: int| None::<u8>));
            }
        }
        OfcLedger {
            totals,
            fouls: zero_counts(n),
            fantasylands: zero_counts(n),
            scoops: zero_counts(n),
            royalties: zero_counts(n),
            fantasyland,
            hands_played: 0,
            forfeited_by: None,
        }
    }

    /// Counts a hand in fantasyland for every bot entering the next hand
    /// with a fantasyland deal.
    pub fn start_hand(&mut self)
        requires
            old(self).fantasylands@.len() == old(self).fantasyland@.len(),
            forall|b: int| 0 <= b < old(self).fantasylands@.len() ==> #[trigger] old(self).fantasylands@[b] < u64::MAX,
        ensures
            final(self).fantasylands@.len() == old(self).fantasylands@.len(),
            forall|b: int|
                0 <= b < old(self).fantasylands@.len() ==> #[trigger] final(self).fantasylands@[b]
                    == old(self).fantasylands@[b] + if old(self).fantasyland@[b] is Some {
                    1int
                } else {
                    0int
                },
            final(self).totals@ == old(self).totals@,
            final(self).fantasyland@ == old(self).fantasyland@,
            final(self).hands_played == old(self).hands_played,
            final(self).forfeited_by == old(self).forfeited_by,
            final(self).fouls@ == old(self).fouls@,
            final(self).scoops@ == old(self).scoops@,
            final(self).royalties@ == old(self).royalties@,
    {
        let n = self.fantasyland.len();
        let mut entering: Vec<u64> = Vec::new();
        let mut b: usize = 0;
        while b < n
            invariant
                b <= n,
                n == self.fantasyland@.len(),
                entering@.len() == b,
                forall|j: int| 0 <= j < b ==> #[trigger] entering@[j] == if self.fantasyland@[j] is Some {
                    1u64
                } else {
                    0u64
                },
            decreases n - b,
        {
            entering.push(if self.fantasyland[b].is_some() { 1 } else { 0 });
            b = b + 1;
        }
        count_into(&mut self.fantasylands, entering.as_slice());
    }

    /// Folds one settled hand, by bot, into the ledger; the fantasyland
    /// counts carried into the next hand replace the current ones.
    pub fn record_hand(
        &mut self,
        points: &[i64],
        fouled: &[bool],
        scoops: &[u32],
        royalties: &[u32],
        next_fantasyland: Vec<Option<u8>>,
    )
        requires
            old(self).totals@.len() == points@.len(),
            old(self).fouls@.len() == points@.len(),
            old(self).scoops@.len() == points@.len(),
            old(self).royalties@.len() == points@.len(),
            fouled@.len() == points@.len(),
            scoops@.len() == points@.len(),
            royalties@.len() == points@.len(),
            old(self).hands_played < u64::MAX,
            forall|b: int| 0 <= b < points@.len() ==> i64::MIN <= #[trigger] old(self).totals@[b] + points@[b] <= i64::MAX,
            forall|b: int| 0 <= b < points@.len() ==> #[trigger] old(self).fouls@[b] < u64::MAX,
            forall|b: int| 0 <= b < points@.len() ==> #[trigger] old(self).scoops@[b] + scoops@[b] <= u64::MAX,
            forall|b: int| 0 <= b < points@.len() ==> #[trigger] old(self).royalties@[b] + royalties@[b] <= u64::MAX,
        ensures
            forall|b: int| 0 <= b < points@.len() ==> #[trigger] final(self).totals@[b] == old(self).totals@[b] + points@[b],
            forall|b: int|
                0 <= b < points@.len() ==> #[trigger] final(self).fouls@[b] == old(self).fouls@[b] + if fouled@[b] {
                    1int
                } else {
                    0int
                },
            forall|b: int| 0 <= b < points@.len() ==> #[trigger] final(self).scoops@[b] == old(self).scoops@[b] + scoops@[b],
            forall|b: int|
                0 <= b < points@.len() ==> #[trigger] final(self).royalties@[b] == old(self).royalties@[b] + royalties@[b],
            final(self).totals@.len() == points@.len(),
            final(self).fouls@.len() == points@.len(),
            final(self).scoops@.len() == points@.len(),
            final(self).royalties@.len() == points@.len(),
            total(final(self).totals@) == total(old(self).totals@) + total(points@),
            final(self).fantasyland@ == next_fantasyland@,
            final(self).fantasylands@ == old(self).fantasylands@,
            final(self).hands_played == old(self).hands_played + 1,
            final(self).forfeited_by == old(self).forfeited_by,
    {
        add_into(&mut self.totals, points);
        let n = points.len();
        let mut fouled_counts: Vec<u64> = Vec::new();
        let mut scoop_counts: Vec<u64> = Vec::new();
        let mut royalty_counts: Vec<u64> = Vec::new();
        let mut b: usize = 0;
        while b < n
            invariant
                b <= n,
                n == points@.len(),
                fouled@.len() == n,
                scoops@.len() == n,
                royalties@.len() == n,
                fouled_counts@.len() == b,
                scoop_counts@.len() == b,
                royalty_counts@.len() == b,
                forall|j: int| 0 <= j < b ==> #[trigger] fouled_counts@[j] == if fouled@[j] {
                    1u64
                } else {
                    0u64
                },
                forall|j: int| 0 <= j < b ==> #[trigger] scoop_counts@[j] == scoops@[j],
                forall|j: int| 0 <= j < b ==> #[trigger] royalty_counts@[j] == royalties@[j],
            decreases n - b,
        {
            fouled_counts.push(if fouled[b] { 1 } else { 0 });
            scoop_counts.push(scoops[b] as u64);
            royalty_counts.push(royalties[b] as u64);
            b = b + 1;
        }
        count_into(&mut self.fouls, fouled_counts.as_slice());
        count_into(&mut self.scoops, scoop_counts.as_slice());
        count_into(&mut self.royalties, royalty_counts.as_slice());
        self.fantasyland = next_fantasyland;
        self.hands_played = self.hands_played + 1;
    }

    /// Ends the match: `offender` forfeits.
    pub fn forfeit(&mut self, offender: usize)
        ensures
            final(self).forfeited_by == Some(offender),
            final(self).totals@ == old(self).totals@,
            final(self).hands_played == old(self).hands_played,
    {
        self.forfeited_by = Some(offender);
    }
}

/// Why a match cannot start.
#[derive(Clone, Copy, Debug, PartialEq, Eq)]
pub enum StartError {
    /// The game seats `min..=max` players, and `bots` were given.
    SeatCount { bots: u64, game: &'static str, min: u64, max: u64 },
    /// The match has nothing to play.
    Empty,
}

/// The checks before a match deals anything: the bots must fit the game's
/// seat range, then there must be at least one deck (or hand) to play.
pub fn check_start(bots: u64, game: &'static str, min: u64, max: u64, decks: u64) -> (r: Result<(), StartError>)
    ensures
        r == if bots < min || bots > max {
            Err(StartError::SeatCount { bots, game, min, max })
        } else if decks == 0 {
            Err(StartError::Empty)
        } else {
            Ok(())
        },
{
    if bots < min || bots > max {
        return Err(StartError::SeatCount { bots, game, min, max });
    }
    if decks == 0 {
        return Err(StartError::Empty);
    }
    Ok(())
}

/// `count given, but game supports min..=max seats`.
pub open spec fn seat_range_text(count: u64, game: Seq<char>, min: u64, max: u64) -> Seq<char> {
    decimal(count as nat) + " bots given, but "@ + game + " supports "@ + decimal(min as nat) + "..="@ + decimal(
        max as nat,
    ) + " seats"@
}

impl StartError {
    /// The error's message; `unit` names what was counted (betting matches
    /// count decks, OFC matches hands).
    pub fn message(&self, unit: &'static str) -> (m: String)
        ensures
            m@ == match *self {
                StartError::SeatCount { bots, game, min, max } => seat_range_text(bots, game@, min, max),
                StartError::Empty => "match config has no "@ + unit@ + " to play ("@ + unit@ + " == 0)"@,
            },
    {
        let mut m = String::new();
        match *self {
            StartError::SeatCount { bots, game, min, max } => {
                push_decimal(&mut m, bots);
                push_str(&mut m, " bots given, but ");
                push_str(&mut m, game);
                push_str(&mut m, " supports ");
                push_decimal(&mut m, min);
                push_str(&mut m, "..=");
                push_decimal(&mut m, max);
                push_str(&mut m, " seats");
                proof {
                    assert(m@ =~= seat_range_text(bots, game@, min, max));
                }
            },
            StartError::Empty => {
                push_str(&mut m, "match config has no ");
                push_str(&mut m, unit);
                push_str(&mut m, " to play (");
                push_str(&mut m, unit);
                push_str(&mut m, " == 0)");
                proof {
                    assert(m@ =~= "match config has no "@ + unit@ + " to play ("@ + unit@ + " == 0)"@);
                }
            },
        }
        m
    }
}

/// The OFC command's refusal of a bot count outside the game's seat range,
/// before any bot is built: `count --bot entries given, but game supports
/// min..=max seats`.
pub fn check_bot_entries(count: u64, game: &str, min: u64, max: u64) -> (r: Result<(), String>)
    ensures
        count < min || count > max ==> (r matches Err(m) && m@ == decimal(count as nat) + " --bot entries given, but "@
            + game@ + " supports "@ + decimal(min as nat) + "..="@ + decimal(max as nat) + " seats"@),
        min <= count <= max ==> r == Ok::<(), String>(()),
{
    if count < min || count > max {
        let mut m = String::new();
        push_decimal(&mut m, count);
        push_str(&mut m, " --bot entries given, but ");
        push_str(&mut m, game);
        push_str(&mut m, " supports ");
        push_decimal(&mut m, min);
        push_str(&mut m, "..=");
        push_decimal(&mut m, max);
        push_str(&mut m, " seats");
        proof {
            assert(m@ =~= decimal(count as nat) + " --bot entries given, but "@ + game@ + " supports "@ + decimal(
                min as nat,
            ) + "..="@ + decimal(max as nat) + " seats"@);
        }
        return Err(m);
    }
    Ok(())
}

} // verus!
