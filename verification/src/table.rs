//! Betting-table state reconstructed from the event stream: this bot's
//! cards, the board, every seat's upcards, per-seat commitments (the pot),
//! folds and stacks.
use vstd::prelude::*;
use crate::bot::Action;

verus! {

/// A playing card by rank (0 = deuce .. 12 = ace) and suit (0..4).
#[derive(Clone, Copy, Debug, PartialEq, Eq, Structural)]
pub struct Card {
    pub rank: u8,
    pub suit: u8,
}

/// What the table tracker reads of an observed event.
#[derive(Clone, Debug, PartialEq, Eq)]
pub enum TableEvent {
    HandStart { stacks: Vec<u64> },
    /// A forced post; antes go to the pot, blinds and bring-ins count as
    /// street commitments.
    Post { seat: usize, ante: bool, amount: u64 },
    StreetStart,
    /// Hole cards: the cards themselves for this seat, only their count for
    /// another.
    DealHole { seat: usize, cards: Vec<Card>, count: u8 },
    DealCommunity { cards: Vec<Card> },
    DealUp { seat: usize, cards: Vec<Card> },
    /// `street_commit` is the seat's absolute total for the street.
    Acted { seat: usize, action: Action, street_commit: u64 },
    DrawResult { seat: usize, discarded: Vec<Card>, drawn: Vec<Card> },
    Other,
}

/// The cards of `s` that are not in `d`, in order.
pub open spec fn without(s: Seq<Card>, d: Seq<Card>) -> Seq<Card>
    decreases s.len(),
{
    if s.len() == 0 {
        s
    } else if d.contains(s.last()) {
        without(s.drop_last(), d)
    } else {
        without(s.drop_last(), d).push(s.last())
    }
}

/// The sum of `s`.
pub open spec fn total(s: Seq<u64>) -> nat
    decreases s.len(),
{
    if s.len() == 0 {
        0
    } else {
        total(s.drop_last()) + s.last() as nat
    }
}

/// The seats other than `me` that have not folded.
pub open spec fn live_others(folded: Seq<bool>, me: usize) -> nat
    decreases folded.len(),
{
    if folded.len() == 0 {
        0
    } else {
        live_others(folded.drop_last(), me) + if (folded.len() - 1) != me && !folded.last() {
            1nat
        } else {
            0
        }
    }
}

/// Every card of every seat's upcards, seat by seat.
pub open spec fn flatten_cards(u: Seq<Seq<Card>>) -> Seq<Card>
    decreases u.len(),
{
    if u.len() == 0 {
        Seq::empty()
    } else {
        flatten_cards(u.drop_last()) + u.last()
    }
}

/// The upcards of each seat as plain sequences.
pub open spec fn upcard_view(u: Seq<Vec<Card>>) -> Seq<Seq<Card>> {
    u.map_values(|v: Vec<Card>| v@)
}

/// Everything this bot knows about the hand in progress.
#[derive(Clone, Debug)]
pub struct Table {
    /// This bot's seat for the current hand.
    pub seat: usize,
    /// This bot's private cards, draw results applied.
    pub hole: Vec<Card>,
    /// Shared community cards.
    pub board: Vec<Card>,
    /// Per-seat face-up cards.
    pub upcards: Vec<Vec<Card>>,
    /// Per-seat count of face-down cards.
    pub hidden_counts: Vec<usize>,
    /// Per-seat chips committed on completed streets, antes included.
    pub prev_streets: Vec<u64>,
    /// Per-seat commitment on the current street.
    pub street: Vec<u64>,
    /// Whether the hand's first street start has passed.
    pub seen_street_start: bool,
    /// Seats that have folded.
    pub folded: Vec<bool>,
    /// Stacks at hand start.
    pub stacks: Vec<u64>,
}

/// `s` is `n` copies of `x`.
pub open spec fn all_same<T>(s: Seq<T>, n: nat, x: T) -> bool {
    s.len() == n && forall|i: int| 0 <= i < n ==> s[i] == x
}

impl Table {
    /// The per-seat lists cover the same seats.
    pub open spec fn seats_agree(&self) -> bool {
        &&& self.upcards@.len() == self.street@.len()
        &&& self.hidden_counts@.len() == self.street@.len()
        &&& self.prev_streets@.len() == self.street@.len()
        &&& self.folded@.len() == self.street@.len()
    }

    /// An empty table for a hand of no seats.
    pub fn new() -> (t: Table)
        ensures
            t.seat == 0,
            t.hole@.len() == 0,
            t.board@.len() == 0,
            t.upcards@.len() == 0,
            t.hidden_counts@.len() == 0,
            t.prev_streets@.len() == 0,
            t.street@.len() == 0,
            !t.seen_street_start,
            t.folded@.len() == 0,
            t.stacks@.len() == 0,
    {
        Table {
            seat: 0,
            hole: Vec::new(),
            board: Vec::new(),
            upcards: Vec::new(),
            hidden_counts: Vec::new(),
            prev_streets: Vec::new(),
            street: Vec::new(),
            seen_street_start: false,
            folded: Vec::new(),
            stacks: Vec::new(),
        }
    }

    /// Resets for a new hand at a table of `seats` seats, this bot at
    /// `seat`.
    pub fn hand_start(&mut self, seat: usize, seats: usize)
        ensures
            final(self).seat == seat,
            final(self).hole@.len() == 0,
            final(self).board@.len() == 0,
            final(self).upcards@.len() == seats,
            forall|s: int| 0 <= s < seats ==> (#[trigger] final(self).upcards@[s])@.len() == 0,
            all_same(final(self).hidden_counts@, seats as nat, 0usize),
            all_same(final(self).prev_streets@, seats as nat, 0u64),
            all_same(final(self).street@, seats as nat, 0u64),
            !final(self).seen_street_start,
            all_same(final(self).folded@, seats as nat, false),
            all_same(final(self).stacks@, seats as nat, 0u64),
            final(self).seats_agree(),
    {
        self.seat = seat;
        self.hole = Vec::new();
        self.board = Vec::new();
        let mut upcards: Vec<Vec<Card>> = Vec::new();
        let mut hidden: Vec<usize> = Vec::new();
        let mut prev: Vec<u64> = Vec::new();
        let mut street: Vec<u64> = Vec::new();
        let mut folded: Vec<bool> = Vec::new();
        let mut stacks: Vec<u64> = Vec::new();
        let mut i: usize = 0;
        while i < seats
            invariant
                i <= seats,
                upcards@.len() == i,
                forall|s: int| 0 <= s < i ==> (#[trigger] upcards@[s])@.len() == 0,
                all_same(hidden@, i as nat, 0usize),
                all_same(prev@, i as nat, 0u64),
                all_same(street@, i as nat, 0u64),
                all_same(folded@, i as nat, false),
                all_same(stacks@, i as nat, 0u64),
            decreases seats - i,
        {
            upcards.push(Vec::new());
            hidden.push(0);
            prev.push(0);
            street.push(0);
            folded.push(false);
            stacks.push(0);
            i = i + 1;
        }
        self.upcards = upcards;
        self.hidden_counts = hidden;
        self.prev_streets = prev;
        self.street = street;
        self.seen_street_start = false;
        self.folded = folded;
        self.stacks = stacks;
    }

    /// The event can be folded in: its seat is at the table and no count
    /// overflows.
    pub open spec fn can_observe(&self, ev: TableEvent) -> bool {
        match ev {
            TableEvent::Post { seat, ante, amount } => seat < self.street@.len() && if ante {
                self.prev_streets@[seat as int] + amount <= u64::MAX
            } else {
                self.street@[seat as int] + amount <= u64::MAX
            },
            TableEvent::StreetStart => self.seen_street_start ==> forall|s: int|
                0 <= s < self.street@.len() ==> #[trigger] self.prev_streets@[s] + self.street@[s] <= u64::MAX,
            TableEvent::DealHole { seat, cards, count } => seat == self.seat || (seat < self.street@.len()
                && self.hidden_counts@[seat as int] + count <= usize::MAX),
            TableEvent::DealUp { seat, .. } => seat < self.street@.len(),
            TableEvent::Acted { seat, .. } => seat < self.street@.len(),
            _ => true,
        }
    }

    /// Folds one observed event into the state.
    pub fn observe(&mut self, ev: &TableEvent)
        requires
            old(self).seats_agree(),
            old(self).can_observe(*ev),
        ensures
            final(self).seats_agree(),
            final(self).seat == old(self).seat,
            match *ev {
                TableEvent::HandStart { stacks } => {
                    &&& final(self).stacks@ == stacks@
                    &&& unchanged_but_stacks(*old(self), *final(self))
                },
                TableEvent::Post { seat, ante, amount } => {
                    &&& final(self).prev_streets@ == if ante {
                        old(self).prev_streets@.update(seat as int, (old(self).prev_streets@[seat as int] + amount) as u64)
                    } else {
                        old(self).prev_streets@
                    }
                    &&& final(self).street@ == if ante {
                        old(self).street@
                    } else {
                        old(self).street@.update(seat as int, (old(self).street@[seat as int] + amount) as u64)
                    }
                    &&& final(self).seen_street_start == old(self).seen_street_start
                    &&& unchanged_but_chips(*old(self), *final(self))
                },
                TableEvent::StreetStart => if old(self).seen_street_start {
                    &&& final(self).street@.len() == old(self).street@.len()
                    &&& forall|s: int|
                        0 <= s < old(self).street@.len() ==> #[trigger] final(self).prev_streets@[s]
                            == old(self).prev_streets@[s] + old(self).street@[s] && final(self).street@[s] == 0
                    &&& final(self).seen_street_start
                    &&& unchanged_but_chips(*old(self), *final(self))
                } else {
                    &&& final(self).seen_street_start
                    &&& final(self).prev_streets@ == old(self).prev_streets@
                    &&& final(self).street@ == old(self).street@
                    &&& unchanged_but_chips(*old(self), *final(self))
                },
                TableEvent::DealHole { seat, cards, count } => {
                    &&& final(self).hole@ == if seat == old(self).seat {
                        old(self).hole@ + cards@
                    } else {
                        old(self).hole@
                    }
                    &&& final(self).hidden_counts@ == if seat == old(self).seat {
                        old(self).hidden_counts@
                    } else {
                        old(self).hidden_counts@.update(seat as int, (old(self).hidden_counts@[seat as int] + count) as usize)
                    }
                    &&& unchanged_but_deal(*old(self), *final(self))
                },
                TableEvent::DealCommunity { cards } => {
                    &&& final(self).board@ == old(self).board@ + cards@
                    &&& final(self).hole@ == old(self).hole@
                    &&& final(self).hidden_counts@ == old(self).hidden_counts@
                    &&& unchanged_but_deal(*old(self), *final(self))
                },
                TableEvent::DealUp { seat, cards } => {
                    &&& upcard_view(final(self).upcards@) == upcard_view(old(self).upcards@).update(
                        seat as int,
                        old(self).upcards@[seat as int]@ + cards@,
                    )
                    &&& final(self).hole@ == old(self).hole@
                    &&& final(self).board@ == old(self).board@
                    &&& final(self).hidden_counts@ == old(self).hidden_counts@
                    &&& final(self).prev_streets@ == old(self).prev_streets@
                    &&& final(self).street@ == old(self).street@
                    &&& final(self).seen_street_start == old(self).seen_street_start
                    &&& final(self).folded@ == old(self).folded@
                    &&& final(self).stacks@ == old(self).stacks@
                },
                TableEvent::Acted { seat, action, street_commit } => {
                    &&& final(self).folded@ == if action == Action::Fold {
                        old(self).folded@.update(seat as int, true)
                    } else {
                        old(self).folded@
                    }
                    &&& final(self).street@ == old(self).street@.update(
                        seat as int,
                        if old(self).street@[seat as int] >= street_commit {
                            old(self).street@[seat as int]
                        } else {
                            street_commit
                        },
                    )
                    &&& final(self).prev_streets@ == old(self).prev_streets@
                    &&& final(self).hole@ == old(self).hole@
                    &&& final(self).board@ == old(self).board@
                    &&& upcard_view(final(self).upcards@) == upcard_view(old(self).upcards@)
                    &&& final(self).hidden_counts@ == old(self).hidden_counts@
                    &&& final(self).seen_street_start == old(self).seen_street_start
                    &&& final(self).stacks@ == old(self).stacks@
                },
                TableEvent::DrawResult { seat, discarded, drawn } => {
                    &&& final(self).hole@ == if seat == old(self).seat {
                        without(old(self).hole@, discarded@) + drawn@
                    } else {
                        old(self).hole@
                    }
                    &&& final(self).hidden_counts@ == old(self).hidden_counts@
                    &&& final(self).board@ == old(self).board@
                    &&& unchanged_but_deal(*old(self), *final(self))
                },
                TableEvent::Other => unchanged_but_stacks(*old(self), *final(self)) && final(self).stacks@
                    == old(self).stacks@,
            },
    {
        match ev {
            TableEvent::HandStart { stacks } => {
                self.stacks = stacks.clone();
            },
            TableEvent::Post { seat, ante, amount } => {
                if *ante {
                    let v = self.prev_streets[*seat] + *amount;
                    self.prev_streets.set(*seat, v);
                } else {
                    let v = self.street[*seat] + *amount;
                    self.street.set(*seat, v);
                }
            },
            TableEvent::StreetStart => {
                if self.seen_street_start {
                    roll_street(&mut self.prev_streets, &mut self.street);
                } else {
                    self.seen_street_start = true;
                }
            },
            TableEvent::DealHole { seat, cards, count } => {
                if *seat == self.seat {
                    append_cards(&mut self.hole, cards);
                } else {
                    let v = self.hidden_counts[*seat] + *count as usize;
                    self.hidden_counts.set(*seat, v);
                }
            },
            TableEvent::DealCommunity { cards } => {
                append_cards(&mut self.board, cards);
            },
            TableEvent::DealUp { seat, cards } => {
                let mut up = self.upcards[*seat].clone();
                let ghost up0 = self.upcards@[*seat as int]@;
                proof {
                    assert(up@ == up0);
                }
                append_cards(&mut up, cards);
                let ghost before = self.upcards@;
                self.upcards.set(*seat, up);
                proof {
                    assert(upcard_view(self.upcards@) =~= upcard_view(before).update(*seat as int, up0 + cards@));
                }
            },
            TableEvent::Acted { seat, action, street_commit } => {
                if let Action::Fold = action {
                    self.folded.set(*seat, true);
                }
                let cur = self.street[*seat];
                let v = if cur >= *street_commit {
                    cur
                } else {
                    *street_commit
                };
                self.street.set(*seat, v);
            },
            TableEvent::DrawResult { seat, discarded, drawn } => {
                if *seat == self.seat {
                    let kept = redraw(&self.hole, discarded, drawn);
                    self.hole = kept;
                }
            },
            TableEvent::Other => {},
        }
    }

    /// Chips in the pot right now.
    pub fn pot(&self) -> (r: u64)
        requires
            total(self.prev_streets@) + total(self.street@) <= u64::MAX,
        ensures
            r == total(self.prev_streets@) + total(self.street@),
    {
        let a = sum_chips(&self.prev_streets);
        let b = sum_chips(&self.street);
        a + b
    }

    /// Opponent seats still contesting the pot.
    pub fn live_opponents(&self) -> (r: usize)
        ensures
            r == live_others(self.folded@, self.seat),
    {
        let mut count: usize = 0;
        let mut s: usize = 0;
        while s < self.folded.len()
            invariant
                s <= self.folded@.len(),
                count == live_others(self.folded@.take(s as int), self.seat),
                count <= s,
            decreases self.folded@.len() - s,
        {
            proof {
                assert(self.folded@.take(s as int + 1).drop_last() =~= self.folded@.take(s as int));
            }
            if s != self.seat && !self.folded[s] {
                count = count + 1;
            }
            s = s + 1;
        }
        proof {
            assert(self.folded@.take(self.folded@.len() as int) =~= self.folded@);
        }
        count
    }

    /// This bot's commitment on the current street.
    pub fn my_street_commit(&self) -> (r: u64)
        requires
            self.seat < self.street@.len(),
        ensures
            r == self.street@[self.seat as int],
    {
        self.street[self.seat]
    }

    /// Every card this bot can see: its own, the board, then every seat's
    /// upcards in seat order.
    pub fn visible_cards(&self) -> (r: Vec<Card>)
        ensures
            r@ == self.hole@ + self.board@ + flatten_cards(upcard_view(self.upcards@)),
    {
        let mut out: Vec<Card> = Vec::new();
        append_cards(&mut out, &self.hole);
        append_cards(&mut out, &self.board);
        let mut s: usize = 0;
        while s < self.upcards.len()
            invariant
                s <= self.upcards@.len(),
                out@ == self.hole@ + self.board@ + flatten_cards(upcard_view(self.upcards@).take(s as int)),
            decreases self.upcards@.len() - s,
        {
            proof {
                assert(upcard_view(self.upcards@).take(s as int + 1).drop_last() =~= upcard_view(self.upcards@).take(
                    s as int,
                ));
                assert(upcard_view(self.upcards@).take(s as int + 1).last() == self.upcards@[s as int]@);
            }
            append_cards(&mut out, &self.upcards[s]);
            proof {
                assert(out@ =~= self.hole@ + self.board@ + flatten_cards(upcard_view(self.upcards@).take(s as int + 1)));
            }
            s = s + 1;
        }
        proof {
            assert(upcard_view(self.upcards@).take(self.upcards@.len() as int) =~= upcard_view(self.upcards@));
        }
        out
    }
}

impl Default for Table {
    /// An empty table for a hand of no seats.
    fn default() -> (t: Table)
        ensures
            t.seat == 0,
            t.hole@.len() == 0,
            t.board@.len() == 0,
            t.upcards@.len() == 0,
            t.street@.len() == 0,
            t.seats_agree(),
    {
        Table::new()
    }
}

/// Nothing but the stacks changed.
pub open spec fn unchanged_but_stacks(a: Table, b: Table) -> bool {
    &&& b.hole@ == a.hole@
    &&& b.board@ == a.board@
    &&& upcard_view(b.upcards@) == upcard_view(a.upcards@)
    &&& b.hidden_counts@ == a.hidden_counts@
    &&& b.prev_streets@ == a.prev_streets@
    &&& b.street@ == a.street@
    &&& b.seen_street_start == a.seen_street_start
    &&& b.folded@ == a.folded@
}

/// Nothing but the chip commitments and the street-start flag changed;
/// each caller states what became of the flag.
pub open spec fn unchanged_but_chips(a: Table, b: Table) -> bool {
    &&& b.hole@ == a.hole@
    &&& b.board@ == a.board@
    &&& upcard_view(b.upcards@) == upcard_view(a.upcards@)
    &&& b.hidden_counts@ == a.hidden_counts@
    &&& b.folded@ == a.folded@
    &&& b.stacks@ == a.stacks@
}

/// Nothing but the dealt cards changed.
pub open spec fn unchanged_but_deal(a: Table, b: Table) -> bool {
    &&& upcard_view(b.upcards@) == upcard_view(a.upcards@)
    &&& b.prev_streets@ == a.prev_streets@
    &&& b.street@ == a.street@
    &&& b.seen_street_start == a.seen_street_start
    &&& b.folded@ == a.folded@
    &&& b.stacks@ == a.stacks@
}

fn roll_street(prev: &mut Vec<u64>, street: &mut Vec<u64>)
    requires
        old(prev)@.len() == old(street)@.len(),
        forall|t: int| 0 <= t < old(street)@.len() ==> #[trigger] old(prev)@[t] + old(street)@[t] <= u64::MAX,
    ensures
        final(prev)@.len() == old(prev)@.len(),
        final(street)@.len() == old(street)@.len(),
        forall|t: int|
            0 <= t < old(street)@.len() ==> #[trigger] final(prev)@[t] == old(prev)@[t] + old(street)@[t]
                && final(street)@[t] == 0,
{
    let n = street.len();
    let ghost prev0 = prev@;
    let ghost street0 = street@;
    let mut s: usize = 0;
    while s < n
        invariant
            s <= n,
            n == street0.len(),
            prev0.len() == n,
            street@.len() == n,
            prev@.len() == n,
            forall|t: int| 0 <= t < n ==> #[trigger] prev0[t] + street0[t] <= u64::MAX,
            forall|t: int| 0 <= t < s ==> #[trigger] prev@[t] == prev0[t] + street0[t] && street@[t] == 0,
            forall|t: int| s <= t < n ==> #[trigger] prev@[t] == prev0[t] && street@[t] == street0[t],
        decreases n - s,
    {
        let v = prev[s] + street[s];
        let ghost p1 = prev@;
        let ghost s1 = street@;
        prev.set(s, v);
        street.set(s, 0);
        proof {
            assert forall|t: int| s + 1 <= t < n implies #[trigger] prev@[t] == prev0[t] && street@[t] == street0[t] by {
                assert(prev@[t] == p1[t]);
                assert(street@[t] == s1[t]);
            }
            assert forall|t: int| 0 <= t < s + 1 implies #[trigger] prev@[t] == prev0[t] + street0[t] && street@[t] == 0 by {
                if t < s {
                    assert(prev@[t] == p1[t]);
                    assert(street@[t] == s1[t]);
                }
            }
        }
        s = s + 1;
    }
}

/// `hole` without the `discarded` cards, then the `drawn` cards.
fn redraw(hole: &Vec<Card>, discarded: &Vec<Card>, drawn: &Vec<Card>) -> (r: Vec<Card>)
    ensures
        r@ == without(hole@, discarded@) + drawn@,
{
    let mut kept: Vec<Card> = Vec::new();
    let mut k: usize = 0;
    while k < hole.len()
        invariant
            k <= hole@.len(),
            kept@ == without(hole@.take(k as int), discarded@),
        decreases hole@.len() - k,
    {
        let c = hole[k];
        proof {
            assert(hole@.take(k as int + 1).drop_last() =~= hole@.take(k as int));
            assert(hole@.take(k as int + 1).last() == c);
        }
        if !holds_card(discarded, c) {
            kept.push(c);
        }
        k = k + 1;
    }
    proof {
        assert(hole@.take(hole@.len() as int) =~= hole@);
    }
    append_cards(&mut kept, drawn);
    kept
}

fn holds_card(cards: &Vec<Card>, c: Card) -> (r: bool)
    ensures
        r == cards@.contains(c),
{
    let mut k: usize = 0;
    while k < cards.len()
        invariant
            k <= cards@.len(),
            forall|j: int| 0 <= j < k ==> cards@[j] != c,
        decreases cards@.len() - k,
    {
        if cards[k] == c {
            return true;
        }
        k = k + 1;
    }
    false
}

fn append_cards(out: &mut Vec<Card>, cards: &Vec<Card>)
    ensures
        final(out)@ == old(out)@ + cards@,
{
    let ghost out0 = out@;
    let mut k: usize = 0;
    while k < cards.len()
        invariant
            k <= cards@.len(),
            out@ == out0 + cards@.take(k as int),
        decreases cards@.len() - k,
    {
        out.push(cards[k]);
        proof {
            assert(cards@.take(k as int + 1) =~= cards@.take(k as int).push(cards@[k as int]));
        }
        k = k + 1;
    }
    proof {
        assert(cards@.take(cards@.len() as int) =~= cards@);
    }
}

proof fn lemma_total_prefix(s: Seq<u64>, k: int)
    requires
        0 <= k <= s.len(),
    ensures
        total(s.take(k)) <= total(s),
    decreases s.len() - k,
{
    if k < s.len() {
        assert(s.take(k + 1).drop_last() =~= s.take(k));
        lemma_total_prefix(s, k + 1);
    } else {
        assert(s.take(k) =~= s);
    }
}

fn sum_chips(v: &Vec<u64>) -> (r: u64)
    requires
        total(v@) <= u64::MAX,
    ensures
        r == total(v@),
{
    let mut acc: u64 = 0;
    let mut k: usize = 0;
    while k < v.len()
        invariant
            k <= v@.len(),
            total(v@) <= u64::MAX,
            acc == total(v@.take(k as int)),
        decreases v@.len() - k,
    {
        proof {
            assert(v@.take(k as int + 1).drop_last() =~= v@.take(k as int));
            lemma_total_prefix(v@, k as int + 1);
        }
        acc = acc + v[k];
        k = k + 1;
    }
    proof {
        assert(v@.take(v@.len() as int) =~= v@);
    }
    acc
}


proof fn lemma_total_pointwise(a: Seq<u64>, b: Seq<u64>, c: Seq<u64>, z: Seq<u64>)
    requires
        a.len() == b.len(),
        c.len() == a.len(),
        z.len() == a.len(),
        forall|t: int| 0 <= t < a.len() ==> #[trigger] c[t] == a[t] + b[t] && z[t] == 0,
    ensures
        total(c) + total(z) == total(a) + total(b),
    decreases a.len(),
{
    if a.len() > 0 {
        lemma_total_pointwise(a.drop_last(), b.drop_last(), c.drop_last(), z.drop_last());
        assert(c[c.len() - 1] == a[a.len() - 1] + b[b.len() - 1]);
    }
}

/// Starting a street moves the street's commitments into the completed
/// streets' without changing the pot.
pub proof fn lemma_street_start_keeps_the_pot(before: Table, after: Table)
    requires
        before.seen_street_start,
        after.street@.len() == before.street@.len(),
        before.prev_streets@.len() == before.street@.len(),
        after.prev_streets@.len() == before.street@.len(),
        forall|s: int|
            0 <= s < before.street@.len() ==> #[trigger] after.prev_streets@[s] == before.prev_streets@[s]
                + before.street@[s] && after.street@[s] == 0,
    ensures
        total(after.prev_streets@) + total(after.street@) == total(before.prev_streets@) + total(before.street@),
{
    let (a, b, c, z) = (before.prev_streets@, before.street@, after.prev_streets@, after.street@);
    assert forall|t: int| 0 <= t < a.len() implies #[trigger] c[t] == a[t] + b[t] && z[t] == 0 by {
        assert(after.prev_streets@[t] == before.prev_streets@[t] + before.street@[t]);
    }
    lemma_total_pointwise(a, b, c, z);
}

proof fn lemma_live_prefix(folded: Seq<bool>, me: usize, k: int)
    requires
        0 <= k <= folded.len(),
    ensures
        live_others(folded.take(k), me) == Seq::new(k as nat, |s: int| s).filter(
            |s: int| s != me as int && !folded[s],
        ).len(),
    decreases k,
{
    let p = |s: int| s != me as int && !folded[s];
    if k == 0 {
        assert(Seq::new(0, |s: int| s) =~= Seq::<int>::empty());
        assert(Seq::<int>::empty().filter(p) =~= Seq::<int>::empty()) by {
            reveal(Seq::filter);
        }
    } else {
        lemma_live_prefix(folded, me, k - 1);
        assert(folded.take(k).drop_last() =~= folded.take(k - 1));
        assert(Seq::new(k as nat, |s: int| s) =~= Seq::new((k - 1) as nat, |s: int| s).push(k - 1));
        Seq::new((k - 1) as nat, |s: int| s).lemma_filter_len_push(p, k - 1);
    }
}

/// The live opponents are exactly the seats other than the bot's own that
/// have not folded, wherever the bot sits: their number is the count of
/// such seats, so with nobody folded it is every other seat.
pub proof fn lemma_live_opponents_are_the_unfolded_others(folded: Seq<bool>, me: usize)
    ensures
        live_others(folded, me) == Seq::new(folded.len(), |s: int| s).filter(
            |s: int| s != me as int && !folded[s],
        ).len(),
        (forall|s: int| 0 <= s < folded.len() ==> !folded[s]) && me < folded.len() ==> live_others(folded, me)
            == folded.len() - 1,
{
    lemma_live_prefix(folded, me, folded.len() as int);
    assert(folded.take(folded.len() as int) =~= folded);
    if (forall|s: int| 0 <= s < folded.len() ==> !folded[s]) && me < folded.len() {
        lemma_all_live(folded, me, folded.len() as int);
    }
}

proof fn lemma_all_live(folded: Seq<bool>, me: usize, k: int)
    requires
        0 <= k <= folded.len(),
        forall|s: int| 0 <= s < folded.len() ==> !folded[s],
    ensures
        live_others(folded.take(k), me) == if me < k { k - 1 } else { k },
    decreases k,
{
    if k > 0 {
        lemma_all_live(folded, me, k - 1);
        assert(folded.take(k).drop_last() =~= folded.take(k - 1));
    }
}

} // verus!
