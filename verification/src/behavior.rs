//! Behavioral statistics: how a bot plays (voluntary money in on the first
//! betting round, raises there, aggression, showdowns, folds), folded over
//! the unredacted event streams of the hands it played.
use vstd::prelude::*;
use crate::bot::Action;

verus! {

/// What the behavioral statistics read of an engine event.
#[derive(Clone, Debug, PartialEq, Eq)]
pub enum Event {
    /// A street begins.
    StreetStart { street: u8 },
    /// A seat acted.
    Acted { seat: usize, action: Action },
    /// A seat showed its cards at showdown.
    ShowdownShow { seat: usize },
    /// Anything else (posts, deals, settlements).
    Other,
}

/// Where one pass over a hand's events stands: the street in effect, the
/// street of the hand's first action, and what the watched seat has done.
pub struct Scan {
    pub current: Option<u8>,
    pub first_acted: Option<u8>,
    pub voluntary: bool,
    pub raised_first: bool,
    pub aggressive: nat,
    pub calls: nat,
    pub folded: bool,
    pub showdown: bool,
}

pub open spec fn scan_start() -> Scan {
    Scan {
        current: None,
        first_acted: None,
        voluntary: false,
        raised_first: false,
        aggressive: 0,
        calls: 0,
        folded: false,
        showdown: false,
    }
}

/// One event folded into the scan for `seat`. The first betting round is
/// whichever street was in effect at the hand's first action, so a street
/// that only deals (the stud opening) is skipped.
pub open spec fn scan_step(st: Scan, ev: Event, seat: usize) -> Scan {
    match ev {
        Event::StreetStart { street } => Scan { current: Some(street), ..st },
        Event::Acted { seat: actor, action } => {
            let first = if st.first_acted is None {
                st.current
            } else {
                st.first_acted
            };
            let st = Scan { first_acted: first, ..st };
            if actor != seat {
                st
            } else {
                let first_round = st.current is Some && st.current == first;
                match action {
                    Action::Call => Scan { calls: st.calls + 1, voluntary: st.voluntary || first_round, ..st },
                    Action::Bet { .. } | Action::Raise { .. } => Scan {
                        aggressive: st.aggressive + 1,
                        voluntary: st.voluntary || first_round,
                        raised_first: st.raised_first || first_round,
                        ..st
                    },
                    Action::Fold => Scan { folded: true, ..st },
                    _ => st,
                }
            }
        },
        Event::ShowdownShow { seat: s } => if s == seat {
            Scan { showdown: true, ..st }
        } else {
            st
        },
        Event::Other => st,
    }
}

/// The scan of a whole event stream for `seat`.
pub open spec fn scan(events: Seq<Event>, seat: usize) -> Scan
    decreases events.len(),
{
    if events.len() == 0 {
        scan_start()
    } else {
        scan_step(scan(events.drop_last(), seat), events.last(), seat)
    }
}

/// A hand that raised first was a voluntary one.
proof fn lemma_scan_raise_is_voluntary(events: Seq<Event>, seat: usize)
    ensures
        scan(events, seat).raised_first ==> scan(events, seat).voluntary,
    decreases events.len(),
{
    if events.len() > 0 {
        lemma_scan_raise_is_voluntary(events.drop_last(), seat);
    }
}

proof fn lemma_scan_counts(events: Seq<Event>, seat: usize)
    ensures
        scan(events, seat).aggressive <= events.len(),
        scan(events, seat).calls <= events.len(),
    decreases events.len(),
{
    if events.len() > 0 {
        lemma_scan_counts(events.drop_last(), seat);
    }
}

/// Per-bot behavioral profile accumulated over a match.
#[derive(Clone, Debug)]
pub struct BehaviorStats {
    hands: u64,
    vpip_hands: u64,
    pfr_hands: u64,
    aggressive_actions: u64,
    call_actions: u64,
    showdown_hands: u64,
    showdown_wins: u64,
    fold_hands: u64,
}

impl BehaviorStats {
    /// Every per-hand count is bounded by the hands recorded, first raises
    /// by voluntary entries, and wins by showdowns.
    pub closed spec fn wf(&self) -> bool {
        &&& self.vpip_hands <= self.hands
        &&& self.pfr_hands <= self.vpip_hands
        &&& self.showdown_hands <= self.hands
        &&& self.fold_hands <= self.hands
        &&& self.showdown_wins <= self.showdown_hands
    }

    pub closed spec fn spec_hands(&self) -> u64 {
        self.hands
    }

    pub closed spec fn spec_vpip_hands(&self) -> u64 {
        self.vpip_hands
    }

    pub closed spec fn spec_pfr_hands(&self) -> u64 {
        self.pfr_hands
    }

    pub closed spec fn spec_aggressive_actions(&self) -> u64 {
        self.aggressive_actions
    }

    pub closed spec fn spec_call_actions(&self) -> u64 {
        self.call_actions
    }

    pub closed spec fn spec_showdown_hands(&self) -> u64 {
        self.showdown_hands
    }

    pub closed spec fn spec_showdown_wins(&self) -> u64 {
        self.showdown_wins
    }

    pub closed spec fn spec_fold_hands(&self) -> u64 {
        self.fold_hands
    }

    /// An empty accumulator.
    pub fn new() -> (r: BehaviorStats)
        ensures
            r.wf(),
            r.spec_hands() == 0,
            r.spec_vpip_hands() == 0,
            r.spec_pfr_hands() == 0,
            r.spec_aggressive_actions() == 0,
            r.spec_call_actions() == 0,
            r.spec_showdown_hands() == 0,
            r.spec_showdown_wins() == 0,
            r.spec_fold_hands() == 0,
    {
        BehaviorStats {
            hands: 0,
            vpip_hands: 0,
            pfr_hands: 0,
            aggressive_actions: 0,
            call_actions: 0,
            showdown_hands: 0,
            showdown_wins: 0,
            fold_hands: 0,
        }
    }

    /// The accumulator after recording one hand of `events` for the bot at
    /// `seat` that netted `net`.
    pub closed spec fn recorded(self, events: Seq<Event>, seat: usize, net: i64) -> BehaviorStats {
        let s = scan(events, seat);
        BehaviorStats {
            hands: (self.hands + 1) as u64,
            vpip_hands: (self.vpip_hands + if s.voluntary { 1int } else { 0 }) as u64,
            pfr_hands: (self.pfr_hands + if s.raised_first { 1int } else { 0 }) as u64,
            aggressive_actions: (self.aggressive_actions + s.aggressive) as u64,
            call_actions: (self.call_actions + s.calls) as u64,
            showdown_hands: (self.showdown_hands + if s.showdown { 1int } else { 0 }) as u64,
            showdown_wins: (self.showdown_wins + if s.showdown && net > 0 { 1int } else { 0 }) as u64,
            fold_hands: (self.fold_hands + if s.folded { 1int } else { 0 }) as u64,
        }
    }

    /// Room to record a hand of `n` events without a counter overflowing.
    pub open spec fn can_record(&self, n: nat) -> bool {
        &&& self.spec_hands() < u64::MAX
        &&& self.spec_aggressive_actions() + n <= u64::MAX
        &&& self.spec_call_actions() + n <= u64::MAX
    }

    /// Folds one hand's unredacted event stream in, for the bot that sat at
    /// `seat` and netted `net`: a hand counts toward vpip when the bot
    /// called, bet or raised on the first betting round, toward pfr when it
    /// bet or raised there, toward showdowns when it showed (a win when
    /// `net > 0`), and toward folds when it folded; every bet or raise and
    /// every call on any street is counted.
    pub fn record_hand(&mut self, events: &[Event], seat: usize, net: i64)
        requires
            old(self).wf(),
            old(self).can_record(events@.len()),
        ensures
            final(self).wf(),
            *final(self) == old(self).recorded(events@, seat, net),
            final(self).spec_aggressive_actions() == old(self).spec_aggressive_actions() + events@.filter(
                |e: Event| is_wager_by(e, seat),
            ).len(),
            final(self).spec_call_actions() == old(self).spec_call_actions() + events@.filter(
                |e: Event| is_call_by(e, seat),
            ).len(),
            ({
                let s = scan(events@, seat);
                &&& final(self).spec_hands() == old(self).spec_hands() + 1
                &&& final(self).spec_vpip_hands() == old(self).spec_vpip_hands() + if s.voluntary { 1int } else { 0 }
                &&& final(self).spec_pfr_hands() == old(self).spec_pfr_hands() + if s.raised_first { 1int } else { 0 }
                &&& final(self).spec_aggressive_actions() == old(self).spec_aggressive_actions() + s.aggressive
                &&& final(self).spec_call_actions() == old(self).spec_call_actions() + s.calls
                &&& final(self).spec_fold_hands() == old(self).spec_fold_hands() + if s.folded { 1int } else { 0 }
                &&& final(self).spec_showdown_hands() == old(self).spec_showdown_hands() + if s.showdown { 1int } else { 0 }
                &&& final(self).spec_showdown_wins() == old(self).spec_showdown_wins() + if s.showdown && net > 0 {
                    1int
                } else {
                    0
                }
            }),
    {
        let mut current: Option<u8> = None;
        let mut first_acted: Option<u8> = None;
        let mut voluntary = false;
        let mut raised_first = false;
        let mut aggressive: u64 = 0;
        let mut calls: u64 = 0;
        let mut folded = false;
        let mut showdown = false;
        let mut k: usize = 0;
        while k < events.len()
            invariant
                k <= events@.len(),
                ({
                    let s = scan(events@.take(k as int), seat);
                    &&& s.current == current
                    &&& s.first_acted == first_acted
                    &&& s.voluntary == voluntary
                    &&& s.raised_first == raised_first
                    &&& s.aggressive == aggressive
                    &&& s.calls == calls
                    &&& s.folded == folded
                    &&& s.showdown == showdown
                }),
                aggressive <= k,
                calls <= k,
            decreases events@.len() - k,
        {
            proof {
                assert(events@.take(k as int + 1).drop_last() =~= events@.take(k as int));
                assert(events@.take(k as int + 1).last() == events@[k as int]);
            }
            match &events[k] {
                Event::StreetStart { street } => {
                    current = Some(*street);
                },
                Event::Acted { seat: actor, action } => {
                    if first_acted.is_none() {
                        first_acted = current;
                    }
                    if *actor == seat {
                        let first_round = current.is_some() && current == first_acted;
                        match action {
                            Action::Call => {
                                calls = calls + 1;
                                voluntary = voluntary || first_round;
                            },
                            Action::Bet { .. } | Action::Raise { .. } => {
                                aggressive = aggressive + 1;
                                voluntary = voluntary || first_round;
                                raised_first = raised_first || first_round;
                            },
                            Action::Fold => {
                                folded = true;
                            },
                            _ => {},
                        }
                    }
                },
                Event::ShowdownShow { seat: s } => {
                    if *s == seat {
                        showdown = true;
                    }
                },
                Event::Other => {},
            }
            k = k + 1;
        }
        proof {
            assert(events@.take(events@.len() as int) =~= events@);
            lemma_scan_counts(events@, seat);
            lemma_scan_raise_is_voluntary(events@, seat);
            lemma_every_wager_and_call_counts(events@, seat);
        }
        self.hands = self.hands + 1;
        if voluntary {
            self.vpip_hands = self.vpip_hands + 1;
        }
        if raised_first {
            self.pfr_hands = self.pfr_hands + 1;
        }
        self.aggressive_actions = self.aggressive_actions + aggressive;
        self.call_actions = self.call_actions + calls;
        if folded {
            self.fold_hands = self.fold_hands + 1;
        }
        if showdown {
            self.showdown_hands = self.showdown_hands + 1;
            if net > 0 {
                self.showdown_wins = self.showdown_wins + 1;
            }
        }
    }

    /// Recording a hand adds exactly one to the hands recorded, whatever
    /// its events (none at all included).
    pub proof fn lemma_recorded_counts_one(self, events: Seq<Event>, seat: usize, net: i64)
        requires
            self.spec_hands() < u64::MAX,
        ensures
            self.recorded(events, seat, net).spec_hands() == self.spec_hands() + 1,
    {
    }

    /// No per-hand count exceeds the hands recorded, every hand the bot
    /// raised first in is one it entered voluntarily (pfr never exceeds
    /// vpip), and no bot wins more showdowns than it reached.
    pub proof fn lemma_counts_bounded(&self)
        requires
            self.wf(),
        ensures
            self.spec_vpip_hands() <= self.spec_hands(),
            self.spec_pfr_hands() <= self.spec_hands(),
            self.spec_pfr_hands() <= self.spec_vpip_hands(),
            self.spec_showdown_hands() <= self.spec_hands(),
            self.spec_fold_hands() <= self.spec_hands(),
            self.spec_showdown_wins() <= self.spec_showdown_hands(),
    {
    }

    /// Hands recorded.
    pub fn hands(&self) -> (r: u64)
        ensures
            r == self.spec_hands(),
    {
        self.hands
    }

    /// Hands with a voluntary call, bet or raise on the first betting round.
    pub fn vpip_hands(&self) -> (r: u64)
        ensures
            r == self.spec_vpip_hands(),
    {
        self.vpip_hands
    }

    /// Hands with a bet or raise on the first betting round.
    pub fn pfr_hands(&self) -> (r: u64)
        ensures
            r == self.spec_pfr_hands(),
    {
        self.pfr_hands
    }

    /// Bets and raises, every street, every hand.
    pub fn aggressive_actions(&self) -> (r: u64)
        ensures
            r == self.spec_aggressive_actions(),
    {
        self.aggressive_actions
    }

    /// Calls, every street, every hand.
    pub fn call_actions(&self) -> (r: u64)
        ensures
            r == self.spec_call_actions(),
    {
        self.call_actions
    }

    /// Hands that reached showdown for this bot.
    pub fn showdown_hands(&self) -> (r: u64)
        ensures
            r == self.spec_showdown_hands(),
    {
        self.showdown_hands
    }

    /// Showdown hands won.
    pub fn showdown_wins(&self) -> (r: u64)
        ensures
            r == self.spec_showdown_wins(),
    {
        self.showdown_wins
    }

    /// Hands folded.
    pub fn fold_hands(&self) -> (r: u64)
        ensures
            r == self.spec_fold_hands(),
    {
        self.fold_hands
    }
}

/// `start` with each of `hands` (events, seat, net) recorded in order.
pub open spec fn recorded_all(start: BehaviorStats, hands: Seq<(Seq<Event>, usize, i64)>) -> BehaviorStats
    decreases hands.len(),
{
    if hands.len() == 0 {
        start
    } else {
        recorded_all(start, hands.drop_last()).recorded(hands.last().0, hands.last().1, hands.last().2)
    }
}

/// After `k` hands are recorded, `k` more hands are counted: a fresh
/// accumulator that has recorded `k` hands reports exactly `k`.
pub proof fn lemma_hands_counted(start: BehaviorStats, hands: Seq<(Seq<Event>, usize, i64)>)
    requires
        start.spec_hands() + hands.len() <= u64::MAX,
    ensures
        recorded_all(start, hands).spec_hands() == start.spec_hands() + hands.len(),
    decreases hands.len(),
{
    if hands.len() > 0 {
        lemma_hands_counted(start, hands.drop_last());
        recorded_all(start, hands.drop_last()).lemma_recorded_counts_one(hands.last().0, hands.last().1, hands.last().2);
    }
}

/// `e` is a bet or raise by `seat`.
pub open spec fn is_wager_by(e: Event, seat: usize) -> bool {
    e matches Event::Acted { seat: actor, action } && actor == seat && (action is Bet || action is Raise)
}

/// `e` is a call by `seat`.
pub open spec fn is_call_by(e: Event, seat: usize) -> bool {
    e matches Event::Acted { seat: actor, action } && actor == seat && action is Call
}

/// Aggression and calls are counted on every street: a hand's scan holds
/// exactly as many aggressive actions as the seat's bets and raises among
/// the events, and exactly as many calls as its calls, so recording the
/// hand adds those numbers to the profile.
pub proof fn lemma_every_wager_and_call_counts(events: Seq<Event>, seat: usize)
    ensures
        scan(events, seat).aggressive == events.filter(|e: Event| is_wager_by(e, seat)).len(),
        scan(events, seat).calls == events.filter(|e: Event| is_call_by(e, seat)).len(),
    decreases events.len(),
{
    let pw = |e: Event| is_wager_by(e, seat);
    let pc = |e: Event| is_call_by(e, seat);
    if events.len() == 0 {
        assert(events.filter(pw) =~= Seq::<Event>::empty()) by {
            reveal(Seq::filter);
        }
        assert(events.filter(pc) =~= Seq::<Event>::empty()) by {
            reveal(Seq::filter);
        }
    } else {
        let rest = events.drop_last();
        lemma_every_wager_and_call_counts(rest, seat);
        assert(events =~= rest.push(events.last()));
        rest.lemma_filter_len_push(pw, events.last());
        rest.lemma_filter_len_push(pc, events.last());
    }
}

/// A hand counts as folded exactly when the seat folded in it, and as a
/// showdown exactly when the seat showed its cards.
pub proof fn lemma_folds_and_showdowns_are_the_seats_own(events: Seq<Event>, seat: usize)
    ensures
        scan(events, seat).folded <==> exists|i: int|
            0 <= i < events.len() && #[trigger] events[i] == (Event::Acted { seat, action: Action::Fold }),
        scan(events, seat).showdown <==> exists|i: int|
            0 <= i < events.len() && #[trigger] events[i] == (Event::ShowdownShow { seat }),
    decreases events.len(),
{
    if events.len() > 0 {
        let rest = events.drop_last();
        lemma_folds_and_showdowns_are_the_seats_own(rest, seat);
        let fold = Event::Acted { seat, action: Action::Fold };
        let show = Event::ShowdownShow { seat };
        if exists|i: int| 0 <= i < rest.len() && #[trigger] rest[i] == fold {
            let i = choose|i: int| 0 <= i < rest.len() && #[trigger] rest[i] == fold;
            assert(events[i] == fold);
        }
        if exists|i: int| 0 <= i < events.len() && #[trigger] events[i] == fold {
            let i = choose|i: int| 0 <= i < events.len() && #[trigger] events[i] == fold;
            if i < rest.len() {
                assert(rest[i] == fold);
            }
        }
        if exists|i: int| 0 <= i < rest.len() && #[trigger] rest[i] == show {
            let i = choose|i: int| 0 <= i < rest.len() && #[trigger] rest[i] == show;
            assert(events[i] == show);
        }
        if exists|i: int| 0 <= i < events.len() && #[trigger] events[i] == show {
            let i = choose|i: int| 0 <= i < events.len() && #[trigger] events[i] == show;
            if i < rest.len() {
                assert(rest[i] == show);
            }
        }
        assert(events[events.len() - 1] == events.last());
    }
}

/// The street in effect at event `i`: the one the latest street start
/// before it opened, if any.
pub open spec fn street_before(events: Seq<Event>, i: int) -> Option<u8>
    decreases i,
{
    if i <= 0 {
        None
    } else {
        match events[i - 1] {
            Event::StreetStart { street } => Some(street),
            _ => street_before(events, i - 1),
        }
    }
}

/// The hand's first betting round, as seen over its first `n` events: the
/// street in effect at the earliest action taken while a street was in
/// effect.
pub open spec fn opening_street(events: Seq<Event>, n: int) -> Option<u8>
    decreases n,
{
    if n <= 0 {
        None
    } else {
        let before = opening_street(events, n - 1);
        if before is Some {
            before
        } else if events[n - 1] is Acted {
            street_before(events, n - 1)
        } else {
            None
        }
    }
}

/// `e` is a call, bet or raise by `seat`.
pub open spec fn is_money_in_by(e: Event, seat: usize) -> bool {
    is_call_by(e, seat) || is_wager_by(e, seat)
}

/// Event `i` is, on the hand's first betting round, a call, bet or raise
/// by `seat` (when `money`) or a bet or raise by it (otherwise).
pub open spec fn on_first_round(events: Seq<Event>, i: int, seat: usize, money: bool) -> bool {
    &&& (if money { is_money_in_by(events[i], seat) } else { is_wager_by(events[i], seat) })
    &&& street_before(events, i) is Some
    &&& street_before(events, i) == opening_street(events, events.len() as int)
}

proof fn lemma_opening_settles(events: Seq<Event>, m: int, k: int)
    requires
        0 <= m <= k,
        opening_street(events, m) is Some,
    ensures
        opening_street(events, k) == opening_street(events, m),
    decreases k - m,
{
    if k > m {
        lemma_opening_settles(events, m, k - 1);
    }
}

proof fn lemma_scan_prefix(events: Seq<Event>, seat: usize, n: int)
    requires
        0 <= n <= events.len(),
    ensures
        scan(events.take(n), seat).current == street_before(events, n),
        scan(events.take(n), seat).first_acted == opening_street(events, n),
        scan(events.take(n), seat).voluntary <==> exists|i: int|
            0 <= i < n && #[trigger] is_money_in_by(events[i], seat) && street_before(events, i) is Some
                && street_before(events, i) == opening_street(events, i + 1),
        scan(events.take(n), seat).raised_first <==> exists|i: int|
            0 <= i < n && #[trigger] is_wager_by(events[i], seat) && street_before(events, i) is Some
                && street_before(events, i) == opening_street(events, i + 1),
    decreases n,
{
    if n == 0 {
        assert(events.take(0) =~= Seq::<Event>::empty());
    } else {
        let m = n - 1;
        lemma_scan_prefix(events, seat, m);
        assert(events.take(n).drop_last() =~= events.take(m));
        assert(events.take(n).last() == events[m]);
        let st = scan(events.take(m), seat);
        let e = events[m];
        let cond = |i: int|
            street_before(events, i) is Some && street_before(events, i) == opening_street(events, i + 1);
        if exists|i: int| 0 <= i < m && #[trigger] is_money_in_by(events[i], seat) && cond(i) {
            let i = choose|i: int| 0 <= i < m && #[trigger] is_money_in_by(events[i], seat) && cond(i);
            assert(0 <= i < n && is_money_in_by(events[i], seat) && cond(i));
        }
        if exists|i: int| 0 <= i < m && #[trigger] is_wager_by(events[i], seat) && cond(i) {
            let i = choose|i: int| 0 <= i < m && #[trigger] is_wager_by(events[i], seat) && cond(i);
            assert(0 <= i < n && is_wager_by(events[i], seat) && cond(i));
        }
        if exists|i: int| 0 <= i < n && #[trigger] is_money_in_by(events[i], seat) && cond(i) {
            let i = choose|i: int| 0 <= i < n && #[trigger] is_money_in_by(events[i], seat) && cond(i);
            if i < m {
                assert(0 <= i < m && is_money_in_by(events[i], seat) && cond(i));
            }
        }
        if exists|i: int| 0 <= i < n && #[trigger] is_wager_by(events[i], seat) && cond(i) {
            let i = choose|i: int| 0 <= i < n && #[trigger] is_wager_by(events[i], seat) && cond(i);
            if i < m {
                assert(0 <= i < m && is_wager_by(events[i], seat) && cond(i));
            }
        }
        if is_money_in_by(e, seat) && cond(m) {
            assert(is_money_in_by(events[m], seat));
        }
        if is_wager_by(e, seat) && cond(m) {
            assert(is_wager_by(events[m], seat));
        }
    }
}

/// Voluntary entries and first raises are read off the hand's first
/// betting round, whichever street that is: a hand counts toward vpip
/// exactly when the seat called, bet or raised while the first round was
/// in effect, and toward pfr exactly when it bet or raised then.
pub proof fn lemma_vpip_and_pfr_are_the_first_round(events: Seq<Event>, seat: usize)
    ensures
        scan(events, seat).voluntary <==> exists|i: int|
            0 <= i < events.len() && #[trigger] on_first_round(events, i, seat, true),
        scan(events, seat).raised_first <==> exists|i: int|
            0 <= i < events.len() && #[trigger] on_first_round(events, i, seat, false),
{
    let n = events.len() as int;
    lemma_scan_prefix(events, seat, n);
    assert(events.take(n) =~= events);
    let cond = |i: int|
        street_before(events, i) is Some && street_before(events, i) == opening_street(events, i + 1);
    if exists|i: int| 0 <= i < n && #[trigger] is_money_in_by(events[i], seat) && cond(i) {
        let i = choose|i: int| 0 <= i < n && #[trigger] is_money_in_by(events[i], seat) && cond(i);
        lemma_opening_settles(events, i + 1, n);
        assert(on_first_round(events, i, seat, true));
    }
    if exists|i: int| 0 <= i < n && #[trigger] on_first_round(events, i, seat, true) {
        let i = choose|i: int| 0 <= i < n && #[trigger] on_first_round(events, i, seat, true);
        assert(events[i] is Acted);
        if opening_street(events, i) is Some {
            lemma_opening_settles(events, i, n);
        }
        assert(opening_street(events, i + 1) is Some);
        lemma_opening_settles(events, i + 1, n);
        assert(is_money_in_by(events[i], seat) && cond(i));
    }
    if exists|i: int| 0 <= i < n && #[trigger] is_wager_by(events[i], seat) && cond(i) {
        let i = choose|i: int| 0 <= i < n && #[trigger] is_wager_by(events[i], seat) && cond(i);
        lemma_opening_settles(events, i + 1, n);
        assert(on_first_round(events, i, seat, false));
    }
    if exists|i: int| 0 <= i < n && #[trigger] on_first_round(events, i, seat, false) {
        let i = choose|i: int| 0 <= i < n && #[trigger] on_first_round(events, i, seat, false);
        assert(events[i] is Acted);
        if opening_street(events, i) is Some {
            lemma_opening_settles(events, i, n);
        }
        assert(opening_street(events, i + 1) is Some);
        lemma_opening_settles(events, i + 1, n);
        assert(is_wager_by(events[i], seat) && cond(i));
    }
}

} // verus!
