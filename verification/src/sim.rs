//! The abstract heads-up game the reference bot's trainer solves: real
//! cards and real chip commitments, abstract actions. Betting uses the
//! lossy menu (fixed limit: the one legal size with capped raises; big-bet:
//! pot or all-in, two wagers per street); a draw decision is only a
//! discard count, the cards shed worst-first.
//!
//! A hand is a state machine: [`State::new_hand`] posts the forced bets and
//! runs to the first decision; [`State::apply`] takes an offered action and
//! runs to the next decision or the end of the hand. Between decisions the
//! state marches through deals, draw setup, betting-round closure and
//! street changes ([`march`]).
use vstd::prelude::*;
use crate::abstraction::BettingKind;
use crate::blueprint::{Abs, Kind};
use crate::discards::{
    bring_in_seat, door_less, lead_of, lead_seat, rank_count, ranked_discards, ranked_of, valid_card, EvalKind,
};
use crate::table::Card;
use crate::text::push_char;

verus! {

/// What a street deals.
#[derive(Clone, Copy, Debug, PartialEq, Eq, Structural)]
pub enum DealSpec {
    /// Nothing is dealt.
    NoDeal,
    /// Cards to each seat, face down.
    HolePrivate(u8),
    /// Cards to each seat, face up.
    HoleUp(u8),
    /// Cards to the board.
    Community(u8),
    /// A draw: each seat may exchange up to `max` cards.
    Draw { max: u8 },
}

/// Who opens a betting round.
#[derive(Clone, Copy, Debug, PartialEq, Eq, Structural)]
pub enum FirstToAct {
    /// Heads-up: the button (small blind).
    AfterBlinds,
    LeftOfButton,
    /// Stud: the bring-in seat, later the best showing hand.
    ByUpcards,
}

/// A street's betting round: the fixed-limit size it bets in, and who opens.
#[derive(Clone, Copy, Debug, PartialEq, Eq, Structural)]
pub struct RoundSpec {
    pub tier_size: u64,
    pub first_to_act: FirstToAct,
}

/// One street of a game: its deal and its betting round, if any.
#[derive(Clone, Copy, Debug, PartialEq, Eq, Structural)]
pub struct StreetRules {
    pub deal: DealSpec,
    pub betting: Option<RoundSpec>,
}

/// How a hand's first betting round is forced.
#[derive(Clone, Copy, Debug, PartialEq, Eq, Structural)]
pub enum ForcedBets {
    Blinds { ante: u64 },
    /// Stud: the worst door card posts `bring_in` (the highest for `low`
    /// games).
    BringIn { ante: u64, bring_in: u64, low: bool },
}

/// The rules of one game as the simulator reads them.
#[derive(Clone, Debug)]
pub struct SimGame {
    pub betting: BettingKind,
    pub forced_bets: ForcedBets,
    pub small_blind: u64,
    pub big_blind: u64,
    /// The showdown's primary evaluator, which orders draw discards.
    pub hi_kind: EvalKind,
    pub streets: Vec<StreetRules>,
}

/// Static per-game context for simulation.
pub struct Sim {
    pub game: SimGame,
    pub stack: u64,
    /// Most wagers per street: the game's cap for fixed limit (4 when
    /// uncapped), 2 for the big-bet abstraction.
    pub wager_cap: u32,
}

/// The wager cap of a betting structure.
pub open spec fn spec_wager_cap(betting: BettingKind) -> u32 {
    match betting {
        BettingKind::FixedLimit { raise_cap } => match raise_cap {
            Some(c) => c as u32,
            None => 4,
        },
        _ => 2,
    }
}

impl Sim {
    pub fn new(game: SimGame, stack: u64) -> (s: Sim)
        ensures
            s.game == game,
            s.stack == stack,
            s.wager_cap == spec_wager_cap(game.betting),
    {
        let wager_cap: u32 = match game.betting {
            BettingKind::FixedLimit { raise_cap } => match raise_cap {
                Some(c) => c as u32,
                None => 4,
            },
            _ => 2,
        };
        Sim { game, stack, wager_cap }
    }
}

/// Cards each player and the board hold once streets `0..i` have dealt:
/// hole and upcards count per player, community cards toward the board,
/// draws exchange without adding.
pub open spec fn counts_before(streets: Seq<StreetRules>, i: int) -> (int, int)
    decreases i,
{
    if i <= 0 || i > streets.len() {
        (0, 0)
    } else {
        let (p, b) = counts_before(streets, i - 1);
        match streets[i - 1].deal {
            DealSpec::HolePrivate(n) => (p + n, b),
            DealSpec::HoleUp(n) => (p + n, b),
            DealSpec::Community(n) => (p, b + n),
            _ => (p, b),
        }
    }
}

/// The card counts a full hand reaches: per player (hole and up) and on
/// the board, straight from the street list.
pub fn final_counts(game: &SimGame) -> (r: (usize, usize))
    requires
        game.streets@.len() <= 0x100_0000,
    ensures
        (r.0 as int, r.1 as int) == counts_before(game.streets@, game.streets@.len() as int),
{
    let mut per_player: usize = 0;
    let mut board: usize = 0;
    let mut i: usize = 0;
    while i < game.streets.len()
        invariant
            i <= game.streets@.len(),
            game.streets@.len() <= 0x100_0000,
            (per_player as int, board as int) == counts_before(game.streets@, i as int),
            per_player <= 255 * i,
            board <= 255 * i,
        decreases game.streets@.len() - i,
    {
        match game.streets[i].deal {
            DealSpec::HolePrivate(n) => per_player = per_player + n as usize,
            DealSpec::HoleUp(n) => per_player = per_player + n as usize,
            DealSpec::Community(n) => board = board + n as usize,
            _ => {},
        }
        i = i + 1;
    }
    (per_player, board)
}

/// The largest chip amount the simulator handles.
pub open spec fn chip_limit() -> int {
    0x100_0000_0000_0000
}

/// Cards street `s` deals at most, both seats and draws included.
pub open spec fn street_cards(s: StreetRules) -> nat {
    match s.deal {
        DealSpec::NoDeal => 0,
        DealSpec::HolePrivate(n) => (2 * n) as nat,
        DealSpec::HoleUp(n) => (2 * n) as nat,
        DealSpec::Community(n) => n as nat,
        DealSpec::Draw { max } => (2 * max) as nat,
    }
}

/// Cards the streets from `i` on deal at most.
pub open spec fn cards_from(streets: Seq<StreetRules>, i: int) -> nat
    decreases streets.len() - i,
{
    if i < 0 || i >= streets.len() {
        0
    } else {
        street_cards(streets[i]) + cards_from(streets, i + 1)
    }
}

/// Upcards each seat holds once streets `0..i` have dealt.
pub open spec fn ups_before(streets: Seq<StreetRules>, i: int) -> nat
    decreases i,
{
    if i <= 0 || i > streets.len() {
        0
    } else {
        ups_before(streets, i - 1) + match streets[i - 1].deal {
            DealSpec::HoleUp(n) => n as nat,
            _ => 0,
        }
    }
}

/// The first street at or after `i` with a betting round, or -1.
pub open spec fn first_betting_from(streets: Seq<StreetRules>, i: int) -> int
    decreases streets.len() - i,
{
    if i < 0 || i >= streets.len() {
        -1
    } else if streets[i].betting is Some {
        i
    } else {
        first_betting_from(streets, i + 1)
    }
}

/// Rules the simulator can run: at least one street, amounts within the
/// chip limit and antes within a stack, draws of at most nine cards (a
/// path digit), and every round opened by upcards preceded by an upcard.
pub open spec fn game_ok(sim: Sim) -> bool {
    let streets = sim.game.streets@;
    &&& streets.len() > 0
    &&& sim.stack <= chip_limit()
    &&& sim.game.small_blind <= chip_limit()
    &&& sim.game.big_blind <= chip_limit()
    &&& match sim.game.forced_bets {
        ForcedBets::Blinds { ante } => ante <= sim.stack,
        ForcedBets::BringIn { ante, bring_in, .. } => ante <= sim.stack && bring_in <= chip_limit(),
    }
    &&& forall|i: int| 0 <= i < streets.len() ==> match (#[trigger] streets[i]).betting {
        Some(r) => r.tier_size <= chip_limit(),
        None => true,
    }
    &&& forall|i: int| 0 <= i < streets.len() ==> match (#[trigger] streets[i]).deal {
        DealSpec::Draw { max } => max <= 9,
        _ => true,
    }
    &&& forall|i: int|
        0 <= i < streets.len() && (#[trigger] streets[i]).betting is Some && streets[i].betting->0.first_to_act
            == FirstToAct::ByUpcards ==> ups_before(streets, i + 1) > 0
}

/// Where a hand stands between decisions.
pub enum PhaseView {
    /// The street's deal is next.
    Deal,
    /// Draw decisions this street, in seat order; the first is next.
    Draws(Seq<int>),
    /// A betting round in progress.
    Betting,
    /// The hand is over (a fold or the last street done).
    Over,
}

/// The whole state of a simulated hand.
#[verifier::ext_equal]
pub struct SimView {
    /// The hand's shuffled deck; `cursor` marks the cards used.
    pub deck: Seq<Card>,
    pub cursor: int,
    pub street: int,
    pub phase: PhaseView,
    /// Each seat's face-down cards.
    pub hole: Seq<Seq<Card>>,
    /// Each seat's face-up cards.
    pub up: Seq<Seq<Card>>,
    pub board: Seq<Card>,
    /// Each seat's commitment over the whole hand, forced bets included.
    pub commit: Seq<int>,
    /// Each seat's commitment this street.
    pub sc: Seq<int>,
    /// Wagers this street (a blind or bring-in counting as the first).
    pub wagers: int,
    pub to_act: int,
    /// Which seats have acted since the last wager this street.
    pub acted: Seq<bool>,
    /// This street's abstract path: draw counts and betting letters.
    pub path: Seq<char>,
    pub folded: Option<int>,
    /// Betting closed for the rest of the hand: a seat is all in.
    pub locked: bool,
}

/// What seat `a` must add to match this street's wager.
pub open spec fn call_amount(v: SimView, a: int) -> int {
    if v.sc[1 - a] > v.sc[a] {
        v.sc[1 - a] - v.sc[a]
    } else {
        0
    }
}

/// Seat `a` commits up to `target` chips this street, at most its stack.
pub open spec fn commit_to(sim: Sim, v: SimView, a: int, target: int) -> SimView {
    let room = v.sc[a] + (sim.stack - v.commit[a]);
    let t = if target < room {
        target
    } else {
        room
    };
    let add = if t > v.sc[a] {
        t - v.sc[a]
    } else {
        0
    };
    let commit = v.commit.update(a, v.commit[a] + add);
    SimView { sc: v.sc.update(a, v.sc[a] + add), commit, locked: v.locked || commit[a] >= sim.stack, ..v }
}

/// The decision pending is the stud bring-in: nobody has wagered on the
/// first betting street of a bring-in game.
pub open spec fn bring_in_due(sim: Sim, v: SimView) -> bool {
    &&& sim.game.forced_bets is BringIn
    &&& v.wagers == 0
    &&& first_betting_from(sim.game.streets@, 0) == v.street
}

/// The seat to act.
pub open spec fn actor(v: SimView) -> int {
    match v.phase {
        PhaseView::Draws(p) => p[0],
        _ => v.to_act,
    }
}

/// The kind of the pending decision.
pub open spec fn decision_kind(sim: Sim, v: SimView) -> Kind {
    match v.phase {
        PhaseView::Draws(_) => Kind::Draw,
        _ => if bring_in_due(sim, v) {
            Kind::BringIn
        } else {
            Kind::Wager
        },
    }
}

/// Whether the seat to act may still wager: betting is live, the street's
/// cap is not reached, and calling would leave chips behind.
pub open spec fn can_wager(sim: Sim, v: SimView) -> bool {
    let a = actor(v);
    !v.locked && v.wagers < sim.wager_cap && v.commit[a] + call_amount(v, a) < sim.stack
}

/// The abstract actions offered at the pending decision.
pub open spec fn offered(sim: Sim, v: SimView) -> Seq<Abs> {
    match v.phase {
        PhaseView::Draws(_) => {
            let max = match sim.game.streets@[v.street].deal {
                DealSpec::Draw { max } => max as int,
                _ => 0,
            };
            let held = v.hole[actor(v)].len() as int;
            let most = if held < max {
                held
            } else {
                max
            };
            Seq::new((most + 1) as nat, |i: int| Abs::Draw(i as u8))
        },
        PhaseView::Betting => if decision_kind(sim, v) == Kind::BringIn {
            seq![Abs::BringIn, Abs::BetFixed]
        } else {
            let a = actor(v);
            (if v.sc[1 - a] > v.sc[a] {
                seq![Abs::Fold]
            } else {
                seq![]
            }) + seq![Abs::CheckCall] + (if can_wager(sim, v) {
                match sim.game.betting {
                    BettingKind::FixedLimit { .. } => seq![Abs::BetFixed],
                    _ => seq![Abs::BetPot, Abs::AllIn],
                }
            } else {
                seq![]
            })
        },
        _ => seq![],
    }
}

/// The street total a wager commits seat `a` to: a fixed-limit open (or a
/// bring-in completion) to one full bet of the street, a fixed-limit raise
/// one bet above the outstanding total; a pot-sized raise (at least a big
/// blind above the call); or all in.
pub open spec fn wager_target(sim: Sim, v: SimView, a: int, action: Abs) -> int {
    let outstanding = if v.sc[1 - a] > v.sc[a] {
        v.sc[1 - a]
    } else {
        v.sc[a]
    };
    match action {
        Abs::BetFixed => {
            let tier = match sim.game.streets@[v.street].betting {
                Some(r) => r.tier_size as int,
                None => sim.game.big_blind as int,
            };
            if bring_in_due(sim, v) || outstanding == 0 {
                if tier > outstanding {
                    tier
                } else {
                    outstanding
                }
            } else {
                outstanding + tier
            }
        },
        Abs::BetPot => {
            let call = call_amount(v, a);
            let pot = v.commit[0] + v.commit[1];
            let to = v.sc[a] + call + (pot + call);
            let least = v.sc[a] + call + sim.game.big_blind;
            if to > least {
                to
            } else {
                least
            }
        },
        _ => v.sc[a] + (sim.stack - v.commit[a]),
    }
}

/// The digit character for `n` (0..=9).
pub open spec fn digit(n: u8) -> char {
    (48 + n) as char
}

/// `hand` without the cards of `gone`, in order.
pub open spec fn without(hand: Seq<Card>, gone: Seq<Card>) -> Seq<Card> {
    hand.filter(|c: Card| !gone.contains(c))
}

/// Seat `seat` exchanges its `n` worst cards for the next `n` of the deck.
pub open spec fn draw_cards(sim: Sim, v: SimView, seat: int, n: u8) -> Seq<Card> {
    without(v.hole[seat], ranked_of(sim.game.hi_kind, v.hole[seat]).take(n as int)) + v.deck.subrange(
        v.cursor,
        v.cursor + n,
    )
}

/// The state right after `action` is taken, before marching on.
pub open spec fn take_action(sim: Sim, v: SimView, action: Abs) -> SimView {
    let a = actor(v);
    match action {
        Abs::Draw(n) => {
            let pending = match v.phase {
                PhaseView::Draws(p) => p,
                _ => seq![],
            };
            SimView {
                hole: v.hole.update(a, draw_cards(sim, v, a, n)),
                cursor: v.cursor + n,
                phase: PhaseView::Draws(pending.drop_first()),
                path: v.path + seq!['g', digit(n)],
                ..v
            }
        },
        Abs::Fold => SimView { folded: Some(a), phase: PhaseView::Over, ..v },
        Abs::CheckCall => {
            let w = commit_to(sim, v, a, v.sc[1 - a]);
            SimView { acted: w.acted.update(a, true), path: w.path.push('c'), to_act: 1 - a, ..w }
        },
        Abs::BringIn => {
            let amount = match sim.game.forced_bets {
                ForcedBets::BringIn { bring_in, .. } => bring_in as int,
                _ => 0,
            };
            let w = commit_to(sim, v, a, amount);
            SimView {
                wagers: 1,
                acted: seq![false, false].update(a, true),
                path: w.path.push('i'),
                to_act: 1 - a,
                ..w
            }
        },
        _ => {
            let w = commit_to(sim, v, a, wager_target(sim, v, a, action));
            SimView {
                wagers: v.wagers + 1,
                acted: seq![false, false].update(a, true),
                path: w.path.push(action.spec_letter()),
                to_act: 1 - a,
                ..w
            }
        },
    }
}

/// The next street: the path starts over; past the last street the hand is
/// over.
pub open spec fn next_street(sim: Sim, v: SimView) -> SimView {
    SimView {
        street: v.street + 1,
        path: seq![],
        phase: if v.street + 1 >= sim.game.streets@.len() {
            PhaseView::Over
        } else {
            PhaseView::Deal
        },
        ..v
    }
}

/// The seat that opens a round opened by upcards.
pub open spec fn upcard_opener(sim: Sim, v: SimView) -> int {
    let low = match sim.game.forced_bets {
        ForcedBets::BringIn { low, .. } => Some(low),
        _ => None,
    };
    if bring_in_due(sim, v) {
        if (if low == Some(true) {
            door_less(v.up[1][0], v.up[0][0])
        } else {
            door_less(v.up[0][0], v.up[1][0])
        }) {
            0
        } else {
            1
        }
    } else {
        lead_of(low, v.up[0], v.up[1])
    }
}

/// Opens the street's betting round when it has one and betting is live;
/// otherwise moves on to the next street. Street 0 keeps the blinds as live
/// commitments (the blind as the first wager); later streets start clean.
pub open spec fn open_betting(sim: Sim, v: SimView) -> SimView {
    match sim.game.streets@[v.street].betting {
        None => next_street(sim, v),
        Some(round) => if v.locked {
            next_street(sim, v)
        } else {
            let w = SimView {
                phase: PhaseView::Betting,
                acted: seq![false, false],
                sc: if v.street != 0 {
                    seq![0, 0]
                } else {
                    v.sc
                },
                wagers: if v.street != 0 {
                    0
                } else {
                    v.wagers
                },
                ..v
            };
            SimView {
                to_act: match round.first_to_act {
                    FirstToAct::AfterBlinds => 0,
                    FirstToAct::LeftOfButton => 1,
                    FirstToAct::ByUpcards => upcard_opener(sim, w),
                },
                ..w
            }
        },
    }
}

/// The round closes: both seats acted since the last wager and the
/// commitments match, or cannot because a seat is all in.
pub open spec fn round_closes(sim: Sim, v: SimView) -> bool {
    &&& v.acted[0] && v.acted[1]
    &&& v.sc[0] == v.sc[1] || (v.locked && (v.commit[0] == sim.stack || v.commit[1] == sim.stack))
}

/// With betting locked and nothing to call, the seat to act checks through
/// without a decision.
pub open spec fn checks_through(v: SimView) -> bool {
    v.locked && call_amount(v, v.to_act) == 0
}

/// Street `v.street` deals its cards.
pub open spec fn deal(sim: Sim, v: SimView) -> SimView {
    match sim.game.streets@[v.street].deal {
        DealSpec::HolePrivate(n) => SimView {
            hole: seq![v.hole[0] + v.deck.subrange(v.cursor, v.cursor + n), v.hole[1] + v.deck.subrange(v.cursor + n, v.cursor + 2 * n)],
            cursor: v.cursor + 2 * n,
            ..v
        },
        DealSpec::HoleUp(n) => SimView {
            up: seq![v.up[0] + v.deck.subrange(v.cursor, v.cursor + n), v.up[1] + v.deck.subrange(v.cursor + n, v.cursor + 2 * n)],
            cursor: v.cursor + 2 * n,
            ..v
        },
        DealSpec::Community(n) => SimView {
            board: v.board + v.deck.subrange(v.cursor, v.cursor + n),
            cursor: v.cursor + n,
            ..v
        },
        _ => v,
    }
}

/// A decision is due, or the hand is over.
pub open spec fn at_rest(sim: Sim, v: SimView) -> bool {
    match v.phase {
        PhaseView::Over => true,
        PhaseView::Draws(p) => p.len() > 0,
        PhaseView::Betting => !round_closes(sim, v) && !checks_through(v),
        PhaseView::Deal => false,
    }
}

/// One move of the march between decisions.
pub open spec fn step(sim: Sim, v: SimView) -> SimView {
    match v.phase {
        PhaseView::Draws(_) => open_betting(sim, v),
        PhaseView::Betting => if round_closes(sim, v) {
            next_street(sim, v)
        } else {
            SimView { acted: v.acted.update(v.to_act, true), to_act: 1 - v.to_act, ..v }
        },
        PhaseView::Deal => match sim.game.streets@[v.street].deal {
            DealSpec::Draw { .. } => SimView { phase: PhaseView::Draws(seq![1, 0]), ..v },
            _ => open_betting(sim, deal(sim, v)),
        },
        PhaseView::Over => v,
    }
}


/// The draw limit of street `i` (zero when it is no draw).
pub open spec fn draw_max(sim: Sim, i: int) -> int {
    match sim.game.streets@[i].deal {
        DealSpec::Draw { max } => max as int,
        _ => 0,
    }
}

/// Every card of `s` is a card of the deck.
pub open spec fn all_valid(s: Seq<Card>) -> bool {
    forall|i: int| 0 <= i < s.len() ==> valid_card(#[trigger] s[i])
}

/// The upcards each seat holds at this point of the hand.
pub open spec fn ups_now(sim: Sim, v: SimView) -> nat {
    match v.phase {
        PhaseView::Deal => ups_before(sim.game.streets@, v.street),
        _ => ups_before(sim.game.streets@, v.street + 1),
    }
}

/// The invariant of a hand between decisions: the deck still holds every
/// card the remaining deals and draws can take, hands hold only dealt deck
/// cards, commitments stay within the stack (the street's within the
/// hand's), a locked round has a seat all in, and the phase fits its
/// street.
pub open spec fn hand_ok(sim: Sim, v: SimView) -> bool {
    common_ok(sim, v) && phase_ok(sim, v)
}

/// The part of [`hand_ok`] that holds whatever the phase.
pub open spec fn common_ok(sim: Sim, v: SimView) -> bool {
    let streets = sim.game.streets@;
    &&& game_ok(sim)
    &&& v.hole.len() == 2 && v.up.len() == 2 && v.commit.len() == 2 && v.sc.len() == 2 && v.acted.len() == 2
    &&& v.deck.len() <= 255
    &&& all_valid(v.deck)
    &&& all_valid(v.hole[0]) && all_valid(v.hole[1])
    &&& 0 <= v.cursor <= v.deck.len()
    &&& v.hole[0].len() + v.hole[1].len() + v.up[0].len() + v.up[1].len() + v.board.len() <= v.cursor
    &&& 0 <= v.street <= streets.len()
    &&& 0 <= v.sc[0] <= v.commit[0] <= sim.stack
    &&& 0 <= v.sc[1] <= v.commit[1] <= sim.stack
    &&& v.locked ==> (v.commit[0] == sim.stack || v.commit[1] == sim.stack)
    &&& 0 <= v.to_act < 2
    &&& 0 <= v.wagers <= if sim.wager_cap > 1 {
        sim.wager_cap as int
    } else {
        1
    }
    &&& v.folded is Some ==> v.phase is Over && 0 <= v.folded->0 < 2
}

/// The part of [`hand_ok`] that fits the phase to its street.
pub open spec fn phase_ok(sim: Sim, v: SimView) -> bool {
    let streets = sim.game.streets@;
    &&& !(v.phase is Over) ==> v.street < streets.len()
    &&& !(v.phase is Over) ==> v.up[0].len() == ups_now(sim, v) && v.up[1].len() == ups_now(sim, v)
    &&& match v.phase {
        PhaseView::Deal => v.cursor + cards_from(streets, v.street) <= v.deck.len(),
        PhaseView::Draws(p) => {
            &&& streets[v.street].deal is Draw
            &&& p.len() <= 2
            &&& forall|k: int| 0 <= k < p.len() ==> 0 <= #[trigger] p[k] < 2
            &&& v.cursor + draw_max(sim, v.street) * p.len() + cards_from(streets, v.street + 1) <= v.deck.len()
        },
        PhaseView::Betting => {
            &&& streets[v.street].betting is Some
            &&& v.cursor + cards_from(streets, v.street + 1) <= v.deck.len()
        },
        PhaseView::Over => true,
    }
}

/// A rank of the march between decisions: streets still to come, then how
/// far the street has got.
pub open spec fn measure(sim: Sim, v: SimView) -> nat {
    let left = sim.game.streets@.len() - v.street;
    let within = match v.phase {
        PhaseView::Deal => 9int,
        PhaseView::Draws(_) => 8,
        PhaseView::Betting => 2 * ((if v.acted[0] {
            0int
        } else {
            1
        }) + (if v.acted[1] {
            0int
        } else {
            1
        })) + if v.acted[v.to_act] {
            1int
        } else {
            0
        },
        PhaseView::Over => 0,
    };
    if left < 0 {
        0
    } else {
        (left * 10 + within) as nat
    }
}

/// The state the hand marches to from `v`: moves on until a decision is due
/// or the hand is over.
pub open spec fn march(sim: Sim, v: SimView) -> SimView
    decreases measure(sim, v),
    when hand_ok(sim, v)
    via march_decreases
{
    if at_rest(sim, v) {
        v
    } else {
        march(sim, step(sim, v))
    }
}

#[via_fn]
proof fn march_decreases(sim: Sim, v: SimView) {
    if !at_rest(sim, v) {
        lemma_step(sim, v);
    }
}

proof fn lemma_cards_from_split(streets: Seq<StreetRules>, i: int)
    requires
        0 <= i < streets.len(),
    ensures
        cards_from(streets, i) == street_cards(streets[i]) + cards_from(streets, i + 1),
{
}

proof fn lemma_filter_len(s: Seq<Card>, gone: Seq<Card>)
    ensures
        without(s, gone).len() <= s.len(),
        all_valid(s) ==> all_valid(without(s, gone)),
    decreases s.len(),
{
    reveal(Seq::filter);
    if s.len() > 0 {
        lemma_filter_len(s.drop_last(), gone);
        assert(without(s, gone) == if !gone.contains(s.last()) {
            without(s.drop_last(), gone).push(s.last())
        } else {
            without(s.drop_last(), gone)
        });
    }
}

/// Opening the street's betting keeps the invariant and reaches a lower
/// rank than the draws or deal it follows.
proof fn lemma_open_betting(sim: Sim, v: SimView)
    requires
        common_ok(sim, v),
        v.folded is None,
        v.street < sim.game.streets@.len(),
        v.cursor + cards_from(sim.game.streets@, v.street + 1) <= v.deck.len(),
        v.up[0].len() == ups_before(sim.game.streets@, v.street + 1),
        v.up[1].len() == ups_before(sim.game.streets@, v.street + 1),
    ensures
        hand_ok(sim, open_betting(sim, v)),
        measure(sim, open_betting(sim, v)) < (sim.game.streets@.len() - v.street) * 10 + 8,
{
    let streets = sim.game.streets@;
    match streets[v.street].betting {
        None => {},
        Some(round) => {
            if !v.locked {
                let w = open_betting(sim, v);
                assert(w.phase is Betting);
                if round.first_to_act == FirstToAct::ByUpcards {
                    assert(ups_before(streets, v.street + 1) > 0);
                }
            }
        },
    }
}

/// Dealing a street (other than a draw) keeps the invariant's common part
/// and leaves the cards and upcards the rest of the street needs.
proof fn lemma_deal_ok(sim: Sim, v: SimView)
    requires
        hand_ok(sim, v),
        v.phase is Deal,
        !(sim.game.streets@[v.street].deal is Draw),
    ensures
        v.cursor + street_cards(sim.game.streets@[v.street]) <= v.deck.len(),
        common_ok(sim, deal(sim, v)),
        deal(sim, v).folded is None,
        deal(sim, v).street == v.street,
        deal(sim, v).cursor + cards_from(sim.game.streets@, v.street + 1) <= deal(sim, v).deck.len(),
        deal(sim, v).up[0].len() == ups_before(sim.game.streets@, v.street + 1),
        deal(sim, v).up[1].len() == ups_before(sim.game.streets@, v.street + 1),
{
    let streets = sim.game.streets@;
    lemma_cards_from_split(streets, v.street);
    let d = deal(sim, v);
    assert(d.up[0].len() == ups_before(streets, v.street + 1));
    assert(d.up[1].len() == ups_before(streets, v.street + 1));
    assert(all_valid(d.hole[0]) && all_valid(d.hole[1]));
}

/// A move of the march keeps the invariant and lowers the rank.
#[verifier::spinoff_prover]
proof fn lemma_step(sim: Sim, v: SimView)
    requires
        hand_ok(sim, v),
        !at_rest(sim, v),
    ensures
        hand_ok(sim, step(sim, v)),
        measure(sim, step(sim, v)) < measure(sim, v),
{
    let streets = sim.game.streets@;
    match v.phase {
        PhaseView::Draws(p) => {
            assert(p.len() == 0);
            assert(draw_max(sim, v.street) * p.len() == 0);
            assert(v.cursor + cards_from(streets, v.street + 1) <= v.deck.len());
            assert(v.folded is None);
            assert(ups_now(sim, v) == ups_before(streets, v.street + 1));
            lemma_open_betting(sim, v);
            assert(step(sim, v) == open_betting(sim, v));
        },
        PhaseView::Betting => {
            if !round_closes(sim, v) {
                assert(v.locked);
                assert(!(v.acted[0] && v.acted[1]));
            }
        },
        PhaseView::Deal => {
            lemma_cards_from_split(streets, v.street);
            match streets[v.street].deal {
                DealSpec::Draw { .. } => {},
                _ => {
                    lemma_deal_ok(sim, v);
                    lemma_open_betting(sim, deal(sim, v));
                },
            }
        },
        PhaseView::Over => {},
    }
}


/// A fresh hand on `deck` with the forced bets posted: antes from both
/// seats, then with blinds the button's small blind and the other seat's
/// big blind (the blind counting as the street's first wager).
pub open spec fn posted(sim: Sim, deck: Seq<Card>) -> SimView {
    let ante: int = match sim.game.forced_bets {
        ForcedBets::Blinds { ante } => ante as int,
        ForcedBets::BringIn { ante, .. } => ante as int,
    };
    let v = SimView {
        deck,
        cursor: 0,
        street: 0,
        phase: PhaseView::Deal,
        hole: seq![seq![], seq![]],
        up: seq![seq![], seq![]],
        board: seq![],
        commit: seq![ante, ante],
        sc: seq![0, 0],
        wagers: 0,
        to_act: 0,
        acted: seq![false, false],
        path: seq![],
        folded: None,
        locked: false,
    };
    match sim.game.forced_bets {
        ForcedBets::Blinds { .. } => {
            let w = commit_to(sim, commit_to(sim, v, 0, sim.game.small_blind as int), 1, sim.game.big_blind as int);
            SimView { wagers: 1, ..w }
        },
        _ => v,
    }
}

proof fn lemma_commit_ok(sim: Sim, v: SimView, a: int, target: int)
    requires
        common_ok(sim, v),
        phase_ok(sim, v),
        0 <= a < 2,
    ensures
        common_ok(sim, commit_to(sim, v, a, target)),
        phase_ok(sim, commit_to(sim, v, a, target)),
        commit_to(sim, v, a, target).phase == v.phase,
{
}

proof fn lemma_without_push(s: Seq<Card>, x: Card, gone: Seq<Card>)
    ensures
        without(s.push(x), gone) == if !gone.contains(x) {
            without(s, gone).push(x)
        } else {
            without(s, gone)
        },
{
    reveal(Seq::filter);
    assert(s.push(x).drop_last() =~= s);
}

/// An offered action keeps the invariant.
#[verifier::spinoff_prover]
proof fn lemma_take(sim: Sim, v: SimView, action: Abs)
    requires
        hand_ok(sim, v),
        at_rest(sim, v),
        !(v.phase is Over),
        offered(sim, v).contains(action),
    ensures
        hand_ok(sim, take_action(sim, v, action)),
{
    let a = actor(v);
    match action {
        Abs::Draw(n) => {
            let p = v.phase->0;
            let i = choose|i: int| 0 <= i < offered(sim, v).len() && offered(sim, v)[i] == action;
            assert(v.phase is Draws);
            assert(n as int == i);
            let gone = ranked_of(sim.game.hi_kind, v.hole[a]).take(n as int);
            lemma_filter_len(v.hole[a], gone);
            let w = take_action(sim, v, action);
            assert(p.len() == 1 || p.len() == 2);
            let kept = without(v.hole[a], gone);
            let fresh = v.deck.subrange(v.cursor, v.cursor + n);
            assert(v.cursor + n <= v.deck.len()) by (nonlinear_arith)
                requires
                    n <= draw_max(sim, v.street),
                    p.len() >= 1,
                    v.cursor + draw_max(sim, v.street) * p.len() + cards_from(sim.game.streets@, v.street + 1)
                        <= v.deck.len(),
            ;
            assert(all_valid(kept + fresh)) by {
                assert forall|k: int| 0 <= k < (kept + fresh).len() implies valid_card(#[trigger] (kept + fresh)[k]) by {
                    if k < kept.len() {
                        assert((kept + fresh)[k] == kept[k]);
                    } else {
                        assert((kept + fresh)[k] == v.deck[v.cursor + (k - kept.len())]);
                    }
                }
            }
            assert(w.hole[a] == kept + fresh);
            assert(all_valid(w.hole[0]) && all_valid(w.hole[1]));
            assert(w.cursor + draw_max(sim, w.street) * w.phase->0.len() + cards_from(sim.game.streets@, w.street + 1)
                <= w.deck.len()) by (nonlinear_arith)
                requires
                    w.cursor == v.cursor + n,
                    n <= draw_max(sim, v.street),
                    w.street == v.street,
                    w.phase->0.len() == p.len() - 1,
                    p.len() >= 1,
                    v.cursor + draw_max(sim, v.street) * p.len() + cards_from(sim.game.streets@, v.street + 1)
                        <= v.deck.len(),
                    w.deck == v.deck,
            ;
        },
        Abs::Fold => {},
        Abs::CheckCall => {
            lemma_commit_ok(sim, v, a, v.sc[1 - a]);
        },
        Abs::BringIn => {
            let amount = match sim.game.forced_bets {
                ForcedBets::BringIn { bring_in, .. } => bring_in as int,
                _ => 0,
            };
            lemma_commit_ok(sim, v, a, amount);
        },
        _ => {
            lemma_commit_ok(sim, v, a, wager_target(sim, v, a, action));
        },
    }
}

/// A pot-sized raise: the acting seat first puts in what it owes to call,
/// then raises by the whole pot as it stands once that call is in (but by
/// at least a big blind); when its stack cannot cover that, it goes all in.
/// Every chip it adds counts both this street and over the hand, and the
/// other seat's chips do not move.
pub proof fn lemma_pot_raise_is_the_pot_after_calling(sim: Sim, v: SimView)
    requires
        common_ok(sim, v),
        v.phase is Betting,
    ensures
        ({
            let a = v.to_act;
            let o = 1 - a;
            let call = if v.sc[o] > v.sc[a] {
                v.sc[o] - v.sc[a]
            } else {
                0
            };
            let pot_after_call = v.commit[0] + v.commit[1] + call;
            let raise = if pot_after_call >= sim.game.big_blind {
                pot_after_call
            } else {
                sim.game.big_blind as int
            };
            let w = take_action(sim, v, Abs::BetPot);
            &&& w.commit[a] - v.commit[a] == w.sc[a] - v.sc[a]
            &&& w.commit[o] == v.commit[o]
            &&& w.sc[o] == v.sc[o]
            &&& v.commit[a] + call + raise <= sim.stack ==> w.sc[a] == v.sc[a] + call + raise
            &&& v.commit[a] + call + raise > sim.stack ==> w.commit[a] == sim.stack
        }),
{
}

/// The other chip-moving answers: a check or call brings the seat up to
/// the other seat's street total (as far as its stack goes); all in
/// commits its whole stack; a fixed-limit wager takes the street total one
/// bet of the street above the highest total so far, or to one full bet
/// when opening (or completing a bring-in). Only the acting seat's chips
/// move.
pub proof fn lemma_calls_shoves_and_fixed_bets(sim: Sim, v: SimView)
    requires
        common_ok(sim, v),
        v.phase is Betting,
    ensures
        ({
            let a = v.to_act;
            let o = 1 - a;
            let room = sim.stack - v.commit[a];
            let c = take_action(sim, v, Abs::CheckCall);
            let s = take_action(sim, v, Abs::AllIn);
            let f = take_action(sim, v, Abs::BetFixed);
            let high = if v.sc[o] > v.sc[a] {
                v.sc[o]
            } else {
                v.sc[a]
            };
            let tier = match sim.game.streets@[v.street].betting {
                Some(r) => r.tier_size as int,
                None => sim.game.big_blind as int,
            };
            let fixed = if bring_in_due(sim, v) || high == 0 {
                if tier > high {
                    tier
                } else {
                    high
                }
            } else {
                high + tier
            };
            &&& c.commit[a] - v.commit[a] == c.sc[a] - v.sc[a]
            &&& c.commit[o] == v.commit[o] && c.sc[o] == v.sc[o]
            &&& v.sc[o] - v.sc[a] <= room ==> c.sc[a] == high
            &&& v.sc[o] - v.sc[a] > room ==> c.commit[a] == sim.stack
            &&& s.commit[a] == sim.stack
            &&& s.sc[a] - v.sc[a] == room
            &&& s.commit[o] == v.commit[o] && s.sc[o] == v.sc[o]
            &&& f.commit[a] - v.commit[a] == f.sc[a] - v.sc[a]
            &&& f.commit[o] == v.commit[o] && f.sc[o] == v.sc[o]
            &&& fixed - v.sc[a] <= room ==> f.sc[a] == if fixed > v.sc[a] {
                fixed
            } else {
                v.sc[a]
            }
            &&& fixed - v.sc[a] > room ==> f.commit[a] == sim.stack
        }),
{
}

/// Every pending decision offers an action: a draw may always stand pat,
/// a bring-in may be posted, and a betting seat may always check or call.
pub proof fn lemma_decisions_offer_actions(sim: Sim, v: SimView)
    requires
        hand_ok(sim, v),
        at_rest(sim, v),
        !(v.phase is Over),
    ensures
        offered(sim, v).len() > 0,
        v.phase is Draws ==> offered(sim, v)[0] == Abs::Draw(0),
        decision_kind(sim, v) == Kind::Wager ==> offered(sim, v).contains(Abs::CheckCall),
{
    if decision_kind(sim, v) == Kind::Wager {
        let a = actor(v);
        let before = if v.sc[1 - a] > v.sc[a] {
            seq![Abs::Fold]
        } else {
            seq![]
        };
        assert(offered(sim, v)[before.len() as int] == Abs::CheckCall);
    }
}

/// The forced bets leave a hand ready to march.
proof fn lemma_posted(sim: Sim, deck: Seq<Card>)
    requires
        game_ok(sim),
        deck.len() <= 255,
        all_valid(deck),
        cards_from(sim.game.streets@, 0) <= deck.len(),
    ensures
        hand_ok(sim, posted(sim, deck)),
{
    let v = posted(sim, deck);
    assert(all_valid(v.hole[0]) && all_valid(v.hole[1]));
    assert(ups_before(sim.game.streets@, 0) == 0);
}

/// Where a hand stands between decisions.
enum Phase {
    Deal,
    Draws(Vec<usize>),
    Betting,
    Over,
}

/// A simulated heads-up hand. Seat 0 is the button.
pub struct State {
    deck: Vec<Card>,
    cursor: usize,
    street: usize,
    phase: Phase,
    hole0: Vec<Card>,
    hole1: Vec<Card>,
    up0: Vec<Card>,
    up1: Vec<Card>,
    board: Vec<Card>,
    commit: [u64; 2],
    sc: [u64; 2],
    wagers: u32,
    to_act: usize,
    acted: [bool; 2],
    path: String,
    folded: Option<usize>,
    all_in_locked: bool,
}

impl View for State {
    type V = SimView;

    closed spec fn view(&self) -> SimView {
        SimView {
            deck: self.deck@,
            cursor: self.cursor as int,
            street: self.street as int,
            phase: match self.phase {
                Phase::Deal => PhaseView::Deal,
                Phase::Draws(p) => PhaseView::Draws(p@.map_values(|x: usize| x as int)),
                Phase::Betting => PhaseView::Betting,
                Phase::Over => PhaseView::Over,
            },
            hole: seq![self.hole0@, self.hole1@],
            up: seq![self.up0@, self.up1@],
            board: self.board@,
            commit: seq![self.commit[0] as int, self.commit[1] as int],
            sc: seq![self.sc[0] as int, self.sc[1] as int],
            wagers: self.wagers as int,
            to_act: self.to_act as int,
            acted: seq![self.acted[0], self.acted[1]],
            path: self.path@,
            folded: match self.folded {
                Some(s) => Some(s as int),
                None => None,
            },
            locked: self.all_in_locked,
        }
    }
}

/// A copy of `cards`.
fn copy_cards(cards: &Vec<Card>) -> (r: Vec<Card>)
    ensures
        r@ == cards@,
{
    let mut out: Vec<Card> = Vec::new();
    let mut i: usize = 0;
    while i < cards.len()
        invariant
            i <= cards@.len(),
            out@ == cards@.take(i as int),
        decreases cards@.len() - i,
    {
        out.push(cards[i]);
        i = i + 1;
        proof {
            assert(out@ =~= cards@.take(i as int));
        }
    }
    proof {
        assert(cards@.take(i as int) =~= cards@);
    }
    out
}

proof fn lemma_rank_count_le(hand: Seq<Card>, r: u8)
    ensures
        rank_count(hand, r) <= hand.len(),
    decreases hand.len(),
{
    if hand.len() > 0 {
        lemma_rank_count_le(hand.drop_last(), r);
    }
}

/// Appends `deck[from..from + n]` to `into`.
fn append_from(deck: &Vec<Card>, from: usize, n: usize, into: &mut Vec<Card>)
    requires
        from + n <= deck@.len(),
    ensures
        final(into)@ == old(into)@ + deck@.subrange(from as int, from + n),
{
    let total = deck.len();
    let mut k: usize = 0;
    while k < n
        invariant
            k <= n,
            total == deck@.len(),
            from + n <= deck@.len(),
            into@ == old(into)@ + deck@.subrange(from as int, from + k),
        decreases n - k,
    {
        into.push(deck[from + k]);
        k = k + 1;
        proof {
            assert(into@ =~= old(into)@ + deck@.subrange(from as int, from + k));
        }
    }
}

impl State {
    /// The street in play.
    pub fn street(&self) -> (r: usize)
        ensures
            r == self@.street,
    {
        self.street
    }

    /// The hand is over.
    pub fn is_terminal(&self) -> (r: bool)
        ensures
            r == self@.phase is Over,
    {
        match self.phase {
            Phase::Over => true,
            _ => false,
        }
    }

    /// Seat `seat`'s face-down cards.
    pub fn hole(&self, seat: usize) -> (r: &Vec<Card>)
        requires
            seat < 2,
        ensures
            r@ == self@.hole[seat as int],
    {
        if seat == 0 {
            &self.hole0
        } else {
            &self.hole1
        }
    }

    /// Seat `seat`'s face-up cards.
    pub fn up(&self, seat: usize) -> (r: &Vec<Card>)
        requires
            seat < 2,
        ensures
            r@ == self@.up[seat as int],
    {
        if seat == 0 {
            &self.up0
        } else {
            &self.up1
        }
    }

    /// The community cards.
    pub fn board(&self) -> (r: &Vec<Card>)
        ensures
            r@ == self@.board,
    {
        &self.board
    }

    /// This street's abstract path.
    pub fn path(&self) -> (r: &str)
        ensures
            r@ == self@.path,
    {
        self.path.as_str()
    }

    /// Each seat's commitment over the whole hand.
    pub fn committed(&self, seat: usize) -> (r: u64)
        requires
            seat < 2,
        ensures
            r == self@.commit[seat as int],
    {
        self.commit[seat]
    }

    /// The seat that folded, if the hand ended by a fold.
    pub fn folded(&self) -> (r: Option<usize>)
        ensures
            r is Some <==> self@.folded is Some,
            r is Some ==> r->0 == self@.folded->0,
    {
        self.folded
    }

    /// Seat to act at the current decision point.
    pub fn actor(&self) -> (r: usize)
        requires
            self@.phase is Draws ==> self@.phase->0.len() > 0,
            self@.phase is Draws ==> self@.phase->0[0] < 2,
            self@.to_act < 2,
        ensures
            r == actor(self@),
            r < 2,
    {
        match &self.phase {
            Phase::Draws(pending) => pending[0],
            _ => self.to_act,
        }
    }

    fn first_betting_street(sim: &Sim) -> (r: Option<usize>)
        ensures
            match r {
                Some(i) => first_betting_from(sim.game.streets@, 0) == i,
                None => first_betting_from(sim.game.streets@, 0) == -1,
            },
    {
        let streets = &sim.game.streets;
        let mut i: usize = 0;
        while i < streets.len()
            invariant
                streets@ == sim.game.streets@,
                i <= streets@.len(),
                first_betting_from(streets@, 0) == first_betting_from(streets@, i as int),
            decreases streets@.len() - i,
        {
            if streets[i].betting.is_some() {
                proof {
                    assert(first_betting_from(streets@, i as int) == i);
                }
                return Some(i);
            }
            i = i + 1;
        }
        None
    }

    fn bring_in_due(&self, sim: &Sim) -> (r: bool)
        ensures
            r == bring_in_due(*sim, self@),
    {
        match sim.game.forced_bets {
            ForcedBets::BringIn { .. } => {
                if self.wagers != 0 {
                    return false;
                }
                match State::first_betting_street(sim) {
                    Some(i) => i == self.street,
                    None => false,
                }
            },
            _ => false,
        }
    }

    /// The kind of the pending decision.
    pub fn kind(&self, sim: &Sim) -> (r: Kind)
        ensures
            r == decision_kind(*sim, self@),
    {
        match &self.phase {
            Phase::Draws(_) => Kind::Draw,
            _ => if self.bring_in_due(sim) {
                Kind::BringIn
            } else {
                Kind::Wager
            },
        }
    }

    fn call_amount(&self, a: usize) -> (r: u64)
        requires
            a < 2,
        ensures
            r == call_amount(self@, a as int),
    {
        let other = 1 - a;
        if self.sc[other] > self.sc[a] {
            self.sc[other] - self.sc[a]
        } else {
            0
        }
    }

    /// Commits seat `a` up to `target` chips this street, at most its stack.
    fn commit_to(&mut self, sim: &Sim, a: usize, target: u64)
        requires
            a < 2,
            common_ok(*sim, old(self)@),
        ensures
            final(self)@ == commit_to(*sim, old(self)@, a as int, target as int),
    {
        let room = self.sc[a] + (sim.stack - self.commit[a]);
        let t = if target < room {
            target
        } else {
            room
        };
        let add = if t > self.sc[a] {
            t - self.sc[a]
        } else {
            0
        };
        let new_sc = self.sc[a] + add;
        let new_commit = self.commit[a] + add;
        self.sc[a] = new_sc;
        self.commit[a] = new_commit;
        if new_commit >= sim.stack {
            self.all_in_locked = true;
        }
        proof {
            assert(self@ =~~= commit_to(*sim, old(self)@, a as int, target as int));
        }
    }

    /// The abstract actions available at the current decision point.
    pub fn actions(&self, sim: &Sim) -> (r: Vec<Abs>)
        requires
            hand_ok(*sim, self@),
            at_rest(*sim, self@),
            !(self@.phase is Over),
        ensures
            r@ == offered(*sim, self@),
    {
        let a = self.actor();
        match &self.phase {
            Phase::Draws(_) => {
                let max: usize = match sim.game.streets[self.street].deal {
                    DealSpec::Draw { max } => max as usize,
                    _ => 0,
                };
                let held = if a == 0 {
                    self.hole0.len()
                } else {
                    self.hole1.len()
                };
                let most = if held < max {
                    held
                } else {
                    max
                };
                let mut out: Vec<Abs> = Vec::new();
                let mut i: usize = 0;
                while i <= most
                    invariant
                        most <= 9,
                        i <= most + 1,
                        out@ == Seq::new(i as nat, |k: int| Abs::Draw(k as u8)),
                    decreases most + 1 - i,
                {
                    out.push(Abs::Draw(i as u8));
                    i = i + 1;
                    proof {
                        assert(out@ =~= Seq::new(i as nat, |k: int| Abs::Draw(k as u8)));
                    }
                }
                out
            },
            _ => {
                if self.kind(sim) == Kind::BringIn {
                    let r = vec![Abs::BringIn, Abs::BetFixed];
                    proof {
                        assert(r@ =~= offered(*sim, self@));
                    }
                    return r;
                }
                let mut out: Vec<Abs> = Vec::new();
                let outstanding = self.sc[1 - a] > self.sc[a];
                if outstanding {
                    out.push(Abs::Fold);
                }
                out.push(Abs::CheckCall);
                let can = !self.all_in_locked && self.wagers < sim.wager_cap && self.commit[a]
                    + self.call_amount(a) < sim.stack;
                if can {
                    match sim.game.betting {
                        BettingKind::FixedLimit { .. } => out.push(Abs::BetFixed),
                        _ => {
                            out.push(Abs::BetPot);
                            out.push(Abs::AllIn);
                        },
                    }
                }
                proof {
                    assert(out@ =~= offered(*sim, self@));
                }
                out
            },
        }
    }

    /// The street total a wager action commits seat `a` to.
    fn wager_target(&self, sim: &Sim, a: usize, action: Abs) -> (r: u64)
        requires
            a < 2,
            common_ok(*sim, self@),
            self@.street < sim.game.streets@.len(),
        ensures
            r == wager_target(*sim, self@, a as int, action),
    {
        let other = 1 - a;
        let outstanding = if self.sc[other] > self.sc[a] {
            self.sc[other]
        } else {
            self.sc[a]
        };
        match action {
            Abs::BetFixed => {
                let tier = match sim.game.streets[self.street].betting {
                    Some(round) => round.tier_size,
                    None => sim.game.big_blind,
                };
                proof {
                    let i = self@.street;
                    assert(sim.game.streets@[i].betting is Some ==> sim.game.streets@[i].betting->0.tier_size
                        <= chip_limit());
                }
                if self.bring_in_due(sim) || outstanding == 0 {
                    if tier > outstanding {
                        tier
                    } else {
                        outstanding
                    }
                } else {
                    outstanding + tier
                }
            },
            Abs::BetPot => {
                let call = self.call_amount(a);
                let pot = self.commit[0] + self.commit[1];
                let to = self.sc[a] + call + (pot + call);
                let least = self.sc[a] + call + sim.game.big_blind;
                if to > least {
                    to
                } else {
                    least
                }
            },
            _ => self.sc[a] + (sim.stack - self.commit[a]),
        }
    }

    /// Moves on to the next street; past the last one the hand is over.
    fn next_street(&mut self, sim: &Sim)
        requires
            old(self)@.street < sim.game.streets@.len(),
        ensures
            final(self)@ == next_street(*sim, old(self)@),
    {
        let count = sim.game.streets.len();
        self.street = self.street + 1;
        self.path = String::new();
        if self.street >= count {
            self.phase = Phase::Over;
        } else {
            self.phase = Phase::Deal;
        }
        proof {
            assert(self@ =~~= next_street(*sim, old(self)@));
        }
    }

    /// Opens this street's betting round if it has one and betting is
    /// still live, and says so; otherwise moves on to the next street.
    #[verifier::spinoff_prover]
    fn open_betting(&mut self, sim: &Sim) -> (opened: bool)
        requires
            common_ok(*sim, old(self)@),
            old(self)@.street < sim.game.streets@.len(),
            old(self)@.up[0].len() == ups_before(sim.game.streets@, old(self)@.street + 1),
            old(self)@.up[1].len() == ups_before(sim.game.streets@, old(self)@.street + 1),
        ensures
            final(self)@ == open_betting(*sim, old(self)@),
            opened == final(self)@.phase is Betting,
    {
        let round = match sim.game.streets[self.street].betting {
            None => {
                self.next_street(sim);
                return false;
            },
            Some(r) => r,
        };
        if self.all_in_locked {
            self.next_street(sim);
            return false;
        }
        self.phase = Phase::Betting;
        self.acted = [false, false];
        if self.street != 0 {
            self.sc = [0, 0];
            self.wagers = 0;
        }
        let ghost w = self@;
        let opener: usize = match round.first_to_act {
            FirstToAct::AfterBlinds => 0,
            FirstToAct::LeftOfButton => 1,
            FirstToAct::ByUpcards => {
                proof {
                    let i = old(self)@.street;
                    assert(ups_before(sim.game.streets@, i + 1) > 0);
                    lemma_rank_count_le(self.up0@, 0);
                    assert forall|r: u8| #[trigger] rank_count(self.up0@, r) <= 255 by {
                        lemma_rank_count_le(self.up0@, r);
                    }
                    assert forall|r: u8| #[trigger] rank_count(self.up1@, r) <= 255 by {
                        lemma_rank_count_le(self.up1@, r);
                    }
                }
                let up = [copy_cards(&self.up0), copy_cards(&self.up1)];
                if self.bring_in_due(sim) {
                    match sim.game.forced_bets {
                        ForcedBets::BringIn { low, .. } => bring_in_seat(low, &up),
                        _ => 1,
                    }
                } else {
                    let low = match sim.game.forced_bets {
                        ForcedBets::BringIn { low, .. } => Some(low),
                        _ => None,
                    };
                    lead_seat(low, &up)
                }
            },
        };
        self.to_act = opener;
        proof {
            assert(self@ =~~= open_betting(*sim, old(self)@));
        }
        true
    }

    /// Deals this street's cards (a draw street deals in its draw turns).
    fn deal_street(&mut self, sim: &Sim)
        requires
            common_ok(*sim, old(self)@),
            old(self)@.street < sim.game.streets@.len(),
            old(self)@.cursor + street_cards(sim.game.streets@[old(self)@.street]) <= old(self)@.deck.len(),
        ensures
            final(self)@ == deal(*sim, old(self)@),
    {
        match sim.game.streets[self.street].deal {
            DealSpec::HolePrivate(n) => {
                let n = n as usize;
                append_from(&self.deck, self.cursor, n, &mut self.hole0);
                append_from(&self.deck, self.cursor + n, n, &mut self.hole1);
                self.cursor = self.cursor + 2 * n;
            },
            DealSpec::HoleUp(n) => {
                let n = n as usize;
                append_from(&self.deck, self.cursor, n, &mut self.up0);
                append_from(&self.deck, self.cursor + n, n, &mut self.up1);
                self.cursor = self.cursor + 2 * n;
            },
            DealSpec::Community(n) => {
                let n = n as usize;
                append_from(&self.deck, self.cursor, n, &mut self.board);
                self.cursor = self.cursor + n;
            },
            _ => {},
        }
        proof {
            assert(self@ =~~= deal(*sim, old(self)@));
        }
    }

    /// Marches through deals, draw setup, betting-round closure and street
    /// changes until the next decision point or the end of the hand.
    #[verifier::spinoff_prover]
    fn advance(&mut self, sim: &Sim)
        requires
            hand_ok(*sim, old(self)@),
        ensures
            final(self)@ == march(*sim, old(self)@),
            hand_ok(*sim, final(self)@),
            at_rest(*sim, final(self)@),
    {
        let ghost start = self@;
        loop
            invariant
                start == old(self)@,
                hand_ok(*sim, start),
                hand_ok(*sim, self@),
                march(*sim, self@) == march(*sim, start),
            decreases measure(*sim, self@),
        {
            let tag: u8 = match &self.phase {
                Phase::Over => 0,
                Phase::Draws(pending) => if pending.len() > 0 {
                    1
                } else {
                    2
                },
                Phase::Betting => 3,
                Phase::Deal => 4,
            };
            let ghost v = self@;
            if tag == 0 || tag == 1 {
                proof {
                    assert(march(*sim, self@) == self@);
                }
                return;
            }
            if tag == 3 {
                let both = self.acted[0] && self.acted[1];
                let matched = self.sc[0] == self.sc[1];
                let short = self.all_in_locked && (self.commit[0] == sim.stack || self.commit[1] == sim.stack);
                if !(both && (matched || short)) && !(self.all_in_locked && self.call_amount(self.to_act) == 0) {
                    proof {
                        assert(march(*sim, self@) == self@);
                    }
                    return;
                }
            }
            proof {
                lemma_step(*sim, v);
                assert(march(*sim, v) == march(*sim, step(*sim, v)));
            }
            if tag == 2 {
                proof {
                    assert(v.phase->0 =~= seq![]);
                }
                let opened = self.open_betting(sim);
                if opened {
                    proof {
                        assert(march(*sim, self@) == self@);
                    }
                    return;
                }
            } else if tag == 3 {
                let both = self.acted[0] && self.acted[1];
                let matched = self.sc[0] == self.sc[1];
                let short = self.all_in_locked && (self.commit[0] == sim.stack || self.commit[1] == sim.stack);
                if both && (matched || short) {
                    self.next_street(sim);
                } else {
                    let t = self.to_act;
                    self.acted[t] = true;
                    self.to_act = 1 - t;
                    proof {
                        assert(self@ =~~= step(*sim, v));
                    }
                }
            } else {
                match sim.game.streets[self.street].deal {
                    DealSpec::Draw { .. } => {
                        let pending: Vec<usize> = vec![1, 0];
                        proof {
                            assert(pending@.map_values(|x: usize| x as int) =~= seq![1int, 0int]);
                        }
                        self.phase = Phase::Draws(pending);
                        proof {
                            assert(self@ =~~= step(*sim, v));
                        }
                    },
                    _ => {
                        proof {
                            lemma_deal_ok(*sim, v);
                        }
                        self.deal_street(sim);
                        let opened = self.open_betting(sim);
                        if opened {
                            proof {
                                assert(march(*sim, self@) == self@);
                            }
                            return;
                        }
                    },
                }
            }
        }
    }

    /// Takes `action` at the pending decision, before marching on.
    #[verifier::spinoff_prover]
    fn take(&mut self, sim: &Sim, action: Abs)
        requires
            hand_ok(*sim, old(self)@),
            at_rest(*sim, old(self)@),
            !(old(self)@.phase is Over),
            offered(*sim, old(self)@).contains(action),
        ensures
            final(self)@ == take_action(*sim, old(self)@, action),
    {
        proof {
            lemma_take(*sim, self@, action);
        }
        let a = self.actor();
        match action {
            Abs::Draw(n) => {
                let ghost v = self@;
                proof {
                    let i = choose|i: int| 0 <= i < offered(*sim, v).len() && offered(*sim, v)[i] == action;
                    assert(n as int == i);
                }
                let rest = match &self.phase {
                    Phase::Draws(pending) => tail_of(pending),
                    _ => Vec::new(),
                };
                let hand = if a == 0 {
                    &self.hole0
                } else {
                    &self.hole1
                };
                proof {
                    assert forall|r: u8| #[trigger] rank_count(hand@, r) <= 255 by {
                        lemma_rank_count_le(hand@, r);
                    }
                }
                let ranked = ranked_discards(sim.game.hi_kind, hand);
                let mut kept = keep_unless_among(hand, &ranked, n as usize);
                append_from(&self.deck, self.cursor, n as usize, &mut kept);
                if a == 0 {
                    self.hole0 = kept;
                } else {
                    self.hole1 = kept;
                }
                self.cursor = self.cursor + n as usize;
                self.phase = Phase::Draws(rest);
                push_char(&mut self.path, 'g');
                push_char(&mut self.path, (48u8 + n) as char);
                proof {
                    assert(self@.path =~= v.path + seq!['g', digit(n)]);
                    assert(self@ =~~= take_action(*sim, v, action));
                }
            },
            Abs::Fold => {
                self.folded = Some(a);
                self.phase = Phase::Over;
                proof {
                    assert(self@ =~~= take_action(*sim, old(self)@, action));
                }
            },
            Abs::CheckCall => {
                let target = self.sc[1 - a];
                self.commit_to(sim, a, target);
                self.acted[a] = true;
                push_char(&mut self.path, 'c');
                self.to_act = 1 - a;
                proof {
                    assert(self@ =~~= take_action(*sim, old(self)@, action));
                }
            },
            Abs::BringIn => {
                let amount = match sim.game.forced_bets {
                    ForcedBets::BringIn { bring_in, .. } => bring_in,
                    _ => 0,
                };
                self.commit_to(sim, a, amount);
                self.wagers = 1;
                self.acted = [false, false];
                self.acted[a] = true;
                push_char(&mut self.path, 'i');
                self.to_act = 1 - a;
                proof {
                    assert(self@ =~~= take_action(*sim, old(self)@, action));
                }
            },
            _ => {
                let target = self.wager_target(sim, a, action);
                self.commit_to(sim, a, target);
                self.wagers = self.wagers + 1;
                self.acted = [false, false];
                self.acted[a] = true;
                push_char(&mut self.path, action.letter());
                self.to_act = 1 - a;
                proof {
                    assert(self@ =~~= take_action(*sim, old(self)@, action));
                }
            },
        }
    }

    /// A copy of this state.
    fn copy(&self) -> (r: State)
        ensures
            r@ == self@,
    {
        let phase = match &self.phase {
            Phase::Deal => Phase::Deal,
            Phase::Draws(p) => Phase::Draws(copy_seats(p)),
            Phase::Betting => Phase::Betting,
            Phase::Over => Phase::Over,
        };
        let r = State {
            deck: copy_cards(&self.deck),
            cursor: self.cursor,
            street: self.street,
            phase,
            hole0: copy_cards(&self.hole0),
            hole1: copy_cards(&self.hole1),
            up0: copy_cards(&self.up0),
            up1: copy_cards(&self.up1),
            board: copy_cards(&self.board),
            commit: self.commit,
            sc: self.sc,
            wagers: self.wagers,
            to_act: self.to_act,
            acted: self.acted,
            path: self.path.clone(),
            folded: self.folded,
            all_in_locked: self.all_in_locked,
        };
        proof {
            assert(r@ =~~= self@);
        }
        r
    }

    /// Takes an offered `action` and marches on to the next decision or the
    /// end of the hand.
    pub fn apply(&self, sim: &Sim, action: Abs) -> (r: State)
        requires
            hand_ok(*sim, self@),
            at_rest(*sim, self@),
            !(self@.phase is Over),
            offered(*sim, self@).contains(action),
        ensures
            r@ == march(*sim, take_action(*sim, self@, action)),
            hand_ok(*sim, r@),
            at_rest(*sim, r@),
    {
        let mut next = self.copy();
        proof {
            lemma_take(*sim, self@, action);
        }
        next.take(sim, action);
        next.advance(sim);
        next
    }

    /// Deals a fresh hand on a shuffled deck: posts the forced bets and
    /// marches to the first decision.
    pub fn new_hand(sim: &Sim, deck: Vec<Card>) -> (r: State)
        requires
            game_ok(*sim),
            deck@.len() <= 255,
            all_valid(deck@),
            deck@.no_duplicates(),
            cards_from(sim.game.streets@, 0) <= deck@.len(),
        ensures
            r@ == march(*sim, posted(*sim, deck@)),
            hand_ok(*sim, r@),
            at_rest(*sim, r@),
    {
        let ante = match sim.game.forced_bets {
            ForcedBets::Blinds { ante } => ante,
            ForcedBets::BringIn { ante, .. } => ante,
        };
        let mut state = State {
            deck,
            cursor: 0,
            street: 0,
            phase: Phase::Deal,
            hole0: Vec::new(),
            hole1: Vec::new(),
            up0: Vec::new(),
            up1: Vec::new(),
            board: Vec::new(),
            commit: [ante, ante],
            sc: [0, 0],
            wagers: 0,
            to_act: 0,
            acted: [false, false],
            path: String::new(),
            folded: None,
            all_in_locked: false,
        };
        let ghost v0 = state@;
        proof {
            lemma_posted(*sim, state@.deck);
        }
        match sim.game.forced_bets {
            ForcedBets::Blinds { .. } => {
                state.commit_to(sim, 0, sim.game.small_blind);
                state.commit_to(sim, 1, sim.game.big_blind);
                state.wagers = 1;
            },
            _ => {},
        }
        proof {
            assert(state@ =~~= posted(*sim, v0.deck));
        }
        state.advance(sim);
        state
    }
}

/// The pending seats after the first.
fn tail_of(pending: &Vec<usize>) -> (r: Vec<usize>)
    requires
        pending@.len() > 0,
    ensures
        r@.map_values(|x: usize| x as int) == pending@.map_values(|x: usize| x as int).drop_first(),
{
    let mut out: Vec<usize> = Vec::new();
    let mut i: usize = 1;
    while i < pending.len()
        invariant
            1 <= i <= pending@.len(),
            out@ == pending@.subrange(1, i as int),
        decreases pending@.len() - i,
    {
        out.push(pending[i]);
        i = i + 1;
        proof {
            assert(out@ =~= pending@.subrange(1, i as int));
        }
    }
    proof {
        assert(out@.map_values(|x: usize| x as int) =~= pending@.map_values(|x: usize| x as int).drop_first());
    }
    out
}

/// A copy of the pending seats.
fn copy_seats(pending: &Vec<usize>) -> (r: Vec<usize>)
    ensures
        r@ == pending@,
{
    let mut out: Vec<usize> = Vec::new();
    let mut i: usize = 0;
    while i < pending.len()
        invariant
            i <= pending@.len(),
            out@ == pending@.take(i as int),
        decreases pending@.len() - i,
    {
        out.push(pending[i]);
        i = i + 1;
        proof {
            assert(out@ =~= pending@.take(i as int));
        }
    }
    proof {
        assert(pending@.take(i as int) =~= pending@);
    }
    out
}

/// The cards of `hand` that are not among the first `n` of `ranked`, in
/// order.
fn keep_unless_among(hand: &Vec<Card>, ranked: &Vec<Card>, n: usize) -> (r: Vec<Card>)
    requires
        n <= ranked@.len(),
    ensures
        r@ == without(hand@, ranked@.take(n as int)),
{
    let ghost gone = ranked@.take(n as int);
    let mut out: Vec<Card> = Vec::new();
    let mut i: usize = 0;
    proof {
        reveal(Seq::filter);
        assert(hand@.take(0) =~= Seq::<Card>::empty());
        assert(without(Seq::<Card>::empty(), gone) =~= Seq::<Card>::empty());
    }
    while i < hand.len()
        invariant
            i <= hand@.len(),
            n <= ranked@.len(),
            gone == ranked@.take(n as int),
            out@ == without(hand@.take(i as int), gone),
        decreases hand@.len() - i,
    {
        let c = hand[i];
        let mut found = false;
        let mut j: usize = 0;
        while j < n
            invariant
                j <= n,
                n <= ranked@.len(),
                found == exists|k: int| 0 <= k < j && ranked@[k] == c,
            decreases n - j,
        {
            if ranked[j] == c {
                found = true;
            }
            j = j + 1;
        }
        proof {
            assert(found == gone.contains(c)) by {
                if found {
                    let k = choose|k: int| 0 <= k < n && ranked@[k] == c;
                    assert(gone[k] == c);
                }
                if gone.contains(c) {
                    let k = choose|k: int| 0 <= k < gone.len() && gone[k] == c;
                    assert(ranked@[k] == c);
                }
            }
            lemma_without_push(hand@.take(i as int), c, gone);
            assert(hand@.take(i + 1) =~= hand@.take(i as int).push(c));
        }
        if !found {
            out.push(c);
        }
        i = i + 1;
    }
    proof {
        assert(hand@.take(i as int) =~= hand@);
    }
    out
}

} // verus!
