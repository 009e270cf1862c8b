//! Bot-to-seat rotation.
//!
//! The button is always seat 0: positional fairness comes from rotating
//! bots through seats. In an OFC match bot `b` sits at seat
//! `(b + hand_no) % n`; in a duplicate-dealt betting match each deck draws
//! a base arrangement, composed with a cyclic rotation per replay.
use vstd::prelude::*;
use vstd::arithmetic::div_mod::lemma_small_mod;

verus! {

/// The seat bot `bot` occupies in hand `hand_no` of an `n`-seat OFC match.
pub open spec fn spec_seat_of_bot(hand_no: u64, bot: int, n: int) -> int {
    (bot + (hand_no as int) % n) % n
}

/// The bot at `seat` in hand `hand_no` of an `n`-seat OFC match.
pub open spec fn spec_bot_of_seat(hand_no: u64, seat: int, n: int) -> int {
    (seat + n - (hand_no as int) % n) % n
}

proof fn lemma_wrap(x: int, n: int)
    requires
        0 < n,
        0 <= x < 2 * n,
    ensures
        x % n == if x < n {
            x
        } else {
            x - n
        },
{
    if x < n {
        lemma_small_mod(x as nat, n as nat);
    } else {
        lemma_small_mod((x - n) as nat, n as nat);
        vstd::arithmetic::div_mod::lemma_mod_adds(x - n, n, n);
        vstd::arithmetic::div_mod::lemma_mod_self_0(n);
    }
}

/// The seat bot `bot` occupies in hand `hand_no`.
pub fn seat_of_bot(hand_no: u64, bot: usize, n: usize) -> (r: usize)
    requires
        0 < n,
        bot < n,
    ensures
        r == spec_seat_of_bot(hand_no, bot as int, n as int),
        r < n,
{
    let shift = (hand_no % n as u64) as usize;
    proof {
        lemma_wrap(bot + shift, n as int);
    }
    if bot >= n - shift {
        bot - (n - shift)
    } else {
        bot + shift
    }
}

/// The bot sitting at `seat` in hand `hand_no` - the inverse of
/// [`seat_of_bot`].
pub fn bot_of_seat(hand_no: u64, seat: usize, n: usize) -> (r: usize)
    requires
        0 < n,
        seat < n,
    ensures
        r == spec_bot_of_seat(hand_no, seat as int, n as int),
        r < n,
{
    let shift = (hand_no % n as u64) as usize;
    proof {
        lemma_wrap(seat + n - shift, n as int);
    }
    if seat >= shift {
        seat - shift
    } else {
        seat + (n - shift)
    }
}

/// Seating is a bijection every hand: the seat a bot is given maps back
/// to that bot, every seat is held by the bot it names, and both stay in
/// `0..n`.
pub proof fn lemma_seating_bijection(hand_no: u64, n: int, bot: int, seat: int)
    requires
        0 < n,
        0 <= bot < n,
        0 <= seat < n,
    ensures
        0 <= spec_seat_of_bot(hand_no, bot, n) < n,
        0 <= spec_bot_of_seat(hand_no, seat, n) < n,
        spec_bot_of_seat(hand_no, spec_seat_of_bot(hand_no, bot, n), n) == bot,
        spec_seat_of_bot(hand_no, spec_bot_of_seat(hand_no, seat, n), n) == seat,
{
    let k = (hand_no as int) % n;
    assert(0 <= k < n);
    lemma_wrap(bot + k, n);
    let s = spec_seat_of_bot(hand_no, bot, n);
    lemma_wrap(s + n - k, n);
    lemma_wrap(seat + n - k, n);
    let b = spec_bot_of_seat(hand_no, seat, n);
    lemma_wrap(b + k, n);
}

/// Over any `n` consecutive hands every bot visits every seat: for each
/// seat there is a hand among `first..first + n` that seats the bot there.
pub proof fn lemma_every_seat_visited(first: u64, n: int, bot: int, seat: int)
    requires
        0 < n,
        0 <= bot < n,
        0 <= seat < n,
        first + n <= u64::MAX + 1,
    ensures
        exists|d: int|
            0 <= d < n && #[trigger] spec_seat_of_bot((first + d) as u64, bot, n) == seat,
{
    let k = (first as int) % n;
    let d = (seat - bot - k + 2 * n) % n;
    assert(0 <= k < n);
    assert(0 <= d < n);
    let h = (first + d) as u64;
    assert((bot + k + d) % n == seat) by {
        assert(bot + k + (seat - bot - k + 2 * n) == seat + 2 * n);
        vstd::arithmetic::div_mod::lemma_mod_multiples_vanish(2, seat, n);
        lemma_small_mod(seat as nat, n as nat);
        vstd::arithmetic::div_mod::lemma_add_mod_noop(bot + k, seat - bot - k + 2 * n, n);
        vstd::arithmetic::div_mod::lemma_add_mod_noop(bot + k, d, n);
        vstd::arithmetic::div_mod::lemma_mod_twice(seat - bot - k + 2 * n, n);
    }
    assert((h as int) % n == (k + d) % n) by {
        vstd::arithmetic::div_mod::lemma_add_mod_noop(first as int, d, n);
        lemma_small_mod(d as nat, n as nat);
    }
    assert((bot + (h as int) % n) % n == (bot + k + d) % n) by {
        vstd::arithmetic::div_mod::lemma_add_mod_noop(bot, k + d, n);
        vstd::arithmetic::div_mod::lemma_mod_twice(k + d, n);
        lemma_small_mod(bot as nat, n as nat);
        vstd::arithmetic::div_mod::lemma_add_mod_noop(bot, (k + d) % n, n);
    }
    assert(spec_seat_of_bot(h, bot, n) == seat);
}

/// `p` lists each of `0..p.len()` exactly once.
pub open spec fn is_arrangement(p: Seq<usize>) -> bool {
    &&& forall|i: int| 0 <= i < p.len() ==> (#[trigger] p[i]) < p.len()
    &&& forall|i: int, j: int| 0 <= i < j < p.len() ==> p[i] != p[j]
}

/// One deck's bot-to-seat mapping: a base arrangement (drawn per deck)
/// composed with a cyclic rotation. Cyclic rotation alone preserves the
/// circular order of bots; randomizing the base per deck keeps positional
/// fairness exact within a deck while neighbor arrangements average out
/// across decks.
pub struct Seating {
    /// `base[bot]` = the bot's seat under rotation 0.
    base: Vec<usize>,
    /// `inverse[seat]` = the bot at that seat under rotation 0.
    inverse: Vec<usize>,
}

impl Seating {
    /// The base arrangement and its inverse are mutually inverse
    /// arrangements of `0..n`.
    pub closed spec fn wf(&self) -> bool {
        &&& self.base@.len() == self.inverse@.len()
        &&& is_arrangement(self.base@)
        &&& forall|bot: int| 0 <= bot < self.base@.len() ==> self.inverse@[#[trigger] self.base@[bot] as int] == bot
        &&& forall|seat: int| 0 <= seat < self.inverse@.len() ==> self.base@[#[trigger] self.inverse@[seat] as int] == seat
        &&& forall|seat: int| 0 <= seat < self.inverse@.len() ==> (#[trigger] self.inverse@[seat]) < self.inverse@.len()
    }

    pub closed spec fn arrangement(&self) -> Seq<usize> {
        self.base@
    }

    /// A well-formed seating's base is an arrangement of its seats.
    pub proof fn lemma_arrangement(&self)
        requires
            self.wf(),
        ensures
            is_arrangement(self.arrangement()),
    {
    }

    /// Seats the bots by the base arrangement `base` (bot `b` at seat
    /// `base[b]` under rotation 0).
    pub fn from_arrangement(base: Vec<usize>) -> (r: Seating)
        requires
            is_arrangement(base@),
        ensures
            r.wf(),
            r.arrangement() == base@,
    {
        let n = base.len();
        let mut inverse: Vec<usize> = Vec::new();
        let mut k: usize = 0;
        while k < n
            invariant
                k <= n,
                n == base@.len(),
                inverse@.len() == k,
                forall|s: int| 0 <= s < k ==> inverse@[s] == 0,
            decreases n - k,
        {
            inverse.push(0);
            k = k + 1;
        }
        let mut bot: usize = 0;
        while bot < n
            invariant
                bot <= n,
                n == base@.len(),
                inverse@.len() == n,
                is_arrangement(base@),
                forall|b: int| 0 <= b < bot ==> inverse@[#[trigger] base@[b] as int] == b,
            decreases n - bot,
        {
            let seat = base[bot];
            inverse.set(seat, bot);
            proof {
                assert forall|b: int| 0 <= b < bot + 1 implies inverse@[#[trigger] base@[b] as int] == b by {
                    if b < bot {
                        assert(base@[b] != base@[bot as int]);
                    }
                }
            }
            bot = bot + 1;
        }
        proof {
            // Every seat is some bot's seat: an arrangement of 0..n is onto.
            lemma_arrangement_onto(base@);
            assert forall|seat: int| 0 <= seat < n implies base@[#[trigger] inverse@[seat] as int] == seat by {
                assert(reaches(base@, seat));
                let b = choose|b: int| 0 <= b < n && base@[b] == seat;
                assert(inverse@[base@[b] as int] == b);
            }
            assert forall|seat: int| 0 <= seat < n implies #[trigger] inverse@[seat] < n by {
                assert(reaches(base@, seat));
                let b = choose|b: int| 0 <= b < n && base@[b] == seat;
                assert(inverse@[base@[b] as int] == b);
            }
        }
        Seating { base, inverse }
    }

    /// The seat of `bot` under rotation `r`.
    pub fn seat_of_bot(&self, r: usize, bot: usize) -> (s: usize)
        requires
            self.wf(),
            bot < self.arrangement().len(),
        ensures
            s == (self.arrangement()[bot as int] + r as int) % (self.arrangement().len() as int),
            s < self.arrangement().len(),
    {
        let n = self.base.len();
        let b = self.base[bot];
        let shift = r % n;
        proof {
            lemma_wrap(b + shift, n as int);
            vstd::arithmetic::div_mod::lemma_add_mod_noop(b as int, r as int, n as int);
            lemma_small_mod(b as nat, n as nat);
        }
        if b >= n - shift {
            b - (n - shift)
        } else {
            b + shift
        }
    }

    /// The bot at `seat` under rotation `r` - the inverse of
    /// [`Seating::seat_of_bot`].
    pub fn bot_of_seat(&self, r: usize, seat: usize) -> (b: usize)
        requires
            self.wf(),
            seat < self.arrangement().len(),
        ensures
            b < self.arrangement().len(),
            (self.arrangement()[b as int] + r as int) % (self.arrangement().len() as int) == seat,
    {
        let n = self.base.len();
        let shift = r % n;
        let base_seat = if seat >= shift {
            seat - shift
        } else {
            seat + (n - shift)
        };
        proof {
            lemma_wrap(seat + n - shift, n as int);
            let bot = self.inverse@[base_seat as int];
            assert(self.base@[bot as int] == base_seat);
            lemma_wrap(base_seat + shift, n as int);
            vstd::arithmetic::div_mod::lemma_add_mod_noop(base_seat as int, r as int, n as int);
            lemma_small_mod(base_seat as nat, n as nat);
        }
        self.inverse[base_seat]
    }
}

/// Within one rotation of a deck's arrangement, distinct bots sit at
/// distinct seats: the rotated seating is a bijection of `0..n`, so the
/// bot `bot_of_seat` names is the only one at that seat.
pub proof fn lemma_rotation_injective(p: Seq<usize>, r: int, b1: int, b2: int)
    requires
        is_arrangement(p),
        0 <= r,
        0 <= b1 < p.len(),
        0 <= b2 < p.len(),
        (p[b1] + r) % (p.len() as int) == (p[b2] + r) % (p.len() as int),
    ensures
        b1 == b2,
{
    let n = p.len() as int;
    let k = r % n;
    vstd::arithmetic::div_mod::lemma_add_mod_noop(p[b1] as int, r, n);
    vstd::arithmetic::div_mod::lemma_add_mod_noop(p[b2] as int, r, n);
    lemma_small_mod(p[b1] as nat, n as nat);
    lemma_small_mod(p[b2] as nat, n as nat);
    lemma_wrap(p[b1] + k, n);
    lemma_wrap(p[b2] + k, n);
    if b1 < b2 {
        assert(p[b1] != p[b2]);
    } else if b2 < b1 {
        assert(p[b2] != p[b1]);
    }
}

/// Some position of `p` holds `s`.
pub open spec fn reaches(p: Seq<usize>, s: int) -> bool {
    exists|b: int| 0 <= b < p.len() && p[b] == s
}

/// An arrangement of `0..n` reaches every seat.
pub proof fn lemma_arrangement_onto(p: Seq<usize>)
    requires
        is_arrangement(p),
    ensures
        forall|s: int| 0 <= s < p.len() ==> #[trigger] reaches(p, s),
{
    let n = p.len() as int;
    let f = |b: int| p[b] as int;
    let dom = vstd::set_lib::set_int_range(0, n);
    vstd::set_lib::lemma_int_range(0, n);
    let mapped = dom.map(f);
    assert(vstd::relations::injective_on(f, dom)) by {
        assert forall|x: int, y: int| dom.contains(x) && dom.contains(y) && #[trigger] f(x) == #[trigger] f(y) implies x == y by {
            if x < y {
                assert(p[x] != p[y]);
            } else if y < x {
                assert(p[y] != p[x]);
            }
        }
    }
    vstd::set_lib::lemma_map_size(dom, mapped, f);
    assert(mapped.subset_of(dom)) by {
        assert forall|v: int| mapped.contains(v) implies dom.contains(v) by {
            let b = choose|b: int| dom.contains(b) && f(b) == v;
            assert(p[b] < p.len());
        }
    }
    vstd::set_lib::lemma_subset_equality(mapped, dom);
    assert forall|s: int| 0 <= s < p.len() implies #[trigger] reaches(p, s) by {
        assert(dom.contains(s));
        assert(mapped.contains(s));
        let b = choose|b: int| dom.contains(b) && f(b) == s;
        assert(0 <= b < p.len() && p[b] == s);
    }
}

/// The seat of bot `b` under rotation `r` of the base arrangement `p`.
pub open spec fn rotated_seat(p: Seq<usize>, r: int, b: int) -> int {
    (p[b] + r) % (p.len() as int)
}

/// Under any rotation the two lookups invert each other: every seat holds
/// exactly one bot, and the bot found at a bot's seat is that bot.
pub proof fn lemma_seat_lookups_invert(p: Seq<usize>, r: int, b: int, seat: int)
    requires
        is_arrangement(p),
        0 <= r,
        0 <= b < p.len(),
        0 <= seat < p.len(),
    ensures
        0 <= rotated_seat(p, r, b) < p.len(),
        exists|b2: int| 0 <= b2 < p.len() && #[trigger] rotated_seat(p, r, b2) == seat,
        forall|b2: int| 0 <= b2 < p.len() && #[trigger] rotated_seat(p, r, b2) == rotated_seat(p, r, b) ==> b2 == b,
{
    let n = p.len() as int;
    let k = r % n;
    let base = (seat - k + n) % n;
    lemma_arrangement_onto(p);
    assert(reaches(p, base));
    let b0 = choose|b0: int| 0 <= b0 < p.len() && p[b0] == base;
    assert(rotated_seat(p, r, b0) == seat) by {
        vstd::arithmetic::div_mod::lemma_add_mod_noop(p[b0] as int, r, n);
        lemma_small_mod(p[b0] as nat, n as nat);
        lemma_wrap(seat - k + n, n);
        lemma_wrap(base + k, n);
    }
    assert forall|b2: int| 0 <= b2 < p.len() && #[trigger] rotated_seat(p, r, b2) == rotated_seat(p, r, b) implies b2 == b by {
        lemma_rotation_injective(p, r, b2, b);
    }
}

/// Over a rotation set (rotations `0..n` of one arrangement) every bot
/// sits in every seat exactly once.
pub proof fn lemma_rotation_set_seats_everyone_everywhere(p: Seq<usize>, b: int, seat: int)
    requires
        is_arrangement(p),
        0 <= b < p.len(),
        0 <= seat < p.len(),
    ensures
        exists|r: int| 0 <= r < p.len() && #[trigger] rotated_seat(p, r, b) == seat,
        forall|r1: int, r2: int|
            0 <= r1 < p.len() && 0 <= r2 < p.len() && #[trigger] rotated_seat(p, r1, b) == #[trigger] rotated_seat(
                p,
                r2,
                b,
            ) ==> r1 == r2,
{
    let n = p.len() as int;
    let x = p[b] as int;
    let r0 = (seat - x + n) % n;
    lemma_wrap(seat - x + n, n);
    lemma_wrap(x + r0, n);
    assert(rotated_seat(p, r0, b) == seat);
    assert forall|r1: int, r2: int|
        0 <= r1 < p.len() && 0 <= r2 < p.len() && #[trigger] rotated_seat(p, r1, b) == #[trigger] rotated_seat(p, r2, b)
        implies r1 == r2 by {
        lemma_wrap(x + r1, n);
        lemma_wrap(x + r2, n);
    }
}

} // verus!
