//! The betting-game vocabulary a bot decides over, the baseline bots'
//! rules, and the arena's answer to a faulted decision.
use vstd::prelude::*;

verus! {

/// Inclusive range of legal "bet/raise to" totals for the current street.
#[derive(Clone, Copy, Debug, PartialEq, Eq, Structural)]
pub struct BetBounds {
    pub min_to: u64,
    pub max_to: u64,
}

/// A draw decision: how many hole cards may be exchanged.
#[derive(Clone, Copy, Debug, PartialEq, Eq, Structural)]
pub struct DrawBounds {
    pub max_discards: u8,
}

/// Everything the acting seat may do at one decision.
#[derive(Clone, Copy, Debug, PartialEq, Eq, Structural)]
pub struct LegalActions {
    pub fold: bool,
    pub check: bool,
    /// The chips a call puts in, when facing a wager.
    pub call: Option<u64>,
    pub bet: Option<BetBounds>,
    pub raise: Option<BetBounds>,
    /// The forced bring-in amount, at a stud bring-in decision.
    pub bring_in: Option<u64>,
    pub draw: Option<DrawBounds>,
}

/// A decision. Cards are named by their deck index.
#[derive(Clone, Debug, PartialEq, Eq)]
pub enum Action {
    Fold,
    Check,
    Call,
    Bet { to: u64 },
    Raise { to: u64 },
    BringIn,
    Discard { cards: Vec<u8> },
}

/// A failure to produce an action at all: the transport-level counterpart
/// of an illegal action. Both count as faults.
#[derive(Clone, Debug, PartialEq, Eq)]
pub enum BotFault {
    /// No answer within the configured deadline.
    Timeout,
    /// The bot's transport is gone.
    Disconnected,
    /// The answer was not a well-formed action.
    Protocol(String),
}

/// End-of-hand summary delivered to each bot.
#[derive(Clone, Debug)]
pub struct HandEnd {
    pub hand_no: u64,
    /// Net result by seat.
    pub nets: Vec<i64>,
}

/// How decks are dealt across the match.
#[derive(Clone, Copy, Debug, PartialEq, Eq, Structural)]
pub enum DealingMode {
    /// One hand per deck; bots rotate seats hand to hand.
    Seeded,
    /// Each deck is replayed once per seat rotation.
    Duplicate,
}

/// What happens when a bot misbehaves.
#[derive(Clone, Copy, Debug, PartialEq, Eq, Structural)]
pub enum FaultPolicy {
    /// Substitute a check when free, else a fold, and continue.
    CheckFold,
    /// End the match; the offender forfeits.
    Forfeit,
}

/// Reported after each deck finishes.
#[derive(Clone, Copy, Debug, PartialEq, Eq, Structural)]
pub struct Progress {
    pub decks_done: u64,
    pub hands_done: u64,
}

/// Which of the plain shapes an action has, with its amount where it
/// carries one; discards are told apart by the number of cards.
pub open spec fn is_stand_pat(a: Action) -> bool {
    a matches Action::Discard { cards } && cards@.len() == 0
}

/// The least action each decision family accepts: stand pat on a draw,
/// post the bring-in at a bring-in decision, else check when free and fold
/// when facing a wager.
pub open spec fn minimal_action_is(legal: LegalActions, a: Action) -> bool {
    if legal.draw is Some {
        is_stand_pat(a)
    } else if legal.bring_in is Some {
        a == Action::BringIn
    } else if legal.check {
        a == Action::Check
    } else {
        a == Action::Fold
    }
}

/// The arena's substitute for a faulted decision under
/// [`FaultPolicy::CheckFold`]: the least action of the decision family.
pub fn check_fold_substitute(legal: &LegalActions) -> (a: Action)
    ensures
        minimal_action_is(*legal, a),
{
    if legal.draw.is_some() {
        Action::Discard { cards: Vec::new() }
    } else if legal.bring_in.is_some() {
        Action::BringIn
    } else if legal.check {
        Action::Check
    } else {
        Action::Fold
    }
}

/// Checks when free, folds when facing a bet; posts a bring-in; stands pat
/// on a draw.
pub struct Folder {
    name: String,
}

impl Folder {
    pub closed spec fn spec_name(&self) -> Seq<char> {
        self.name@
    }

    pub fn new(name: String) -> (b: Folder)
        ensures
            b.spec_name() == name@,
    {
        Folder { name }
    }

    pub fn name(&self) -> (r: &str)
        ensures
            r@ == self.spec_name(),
    {
        self.name.as_str()
    }

    /// Always answers; the answer is the decision family's least action.
    pub fn act(&self, legal: &LegalActions) -> (r: Result<Action, BotFault>)
        ensures
            r matches Ok(a) && minimal_action_is(*legal, a),
    {
        Ok(check_fold_substitute(legal))
    }
}

/// What the caller answers: stand pat, post the bring-in, check when free,
/// call otherwise.
pub open spec fn caller_action_is(legal: LegalActions, a: Action) -> bool {
    if legal.draw is Some {
        is_stand_pat(a)
    } else if legal.bring_in is Some {
        a == Action::BringIn
    } else if legal.check {
        a == Action::Check
    } else {
        a == Action::Call
    }
}

/// Checks when free, calls when facing a bet, never folds or raises; posts
/// a bring-in; stands pat on a draw.
pub struct Caller {
    name: String,
}

impl Caller {
    pub closed spec fn spec_name(&self) -> Seq<char> {
        self.name@
    }

    pub fn new(name: String) -> (b: Caller)
        ensures
            b.spec_name() == name@,
    {
        Caller { name }
    }

    pub fn name(&self) -> (r: &str)
        ensures
            r@ == self.spec_name(),
    {
        self.name.as_str()
    }

    pub fn act(&self, legal: &LegalActions) -> (r: Result<Action, BotFault>)
        ensures
            r matches Ok(a) && caller_action_is(*legal, a),
    {
        if legal.draw.is_some() {
            return Ok(Action::Discard { cards: Vec::new() });
        }
        if legal.bring_in.is_some() {
            return Ok(Action::BringIn);
        }
        Ok(
            if legal.check {
                Action::Check
            } else {
                Action::Call
            },
        )
    }
}

/// What the shover answers: stand pat on a draw, complete a bring-in to the
/// top of the bet range, raise to the maximum when a raise is offered, else
/// bet to the maximum, else call, else check.
pub open spec fn shover_action_is(legal: LegalActions, a: Action) -> bool {
    if legal.draw is Some {
        is_stand_pat(a)
    } else if legal.bring_in is Some {
        a == Action::Bet { to: legal.bet->0.max_to }
    } else if legal.raise is Some {
        a == Action::Raise { to: legal.raise->0.max_to }
    } else if legal.bet is Some {
        a == Action::Bet { to: legal.bet->0.max_to }
    } else if legal.call is Some {
        a == Action::Call
    } else {
        a == Action::Check
    }
}

/// A decision the shover can answer: a bring-in decision always offers the
/// completion bet.
pub open spec fn shover_can_answer(legal: LegalActions) -> bool {
    legal.draw is None && legal.bring_in is Some ==> legal.bet is Some
}

/// Bets or raises to the maximum whenever offered, else calls, else checks;
/// completes a bring-in; stands pat on a draw.
pub struct Shover {
    name: String,
}

impl Shover {
    pub closed spec fn spec_name(&self) -> Seq<char> {
        self.name@
    }

    pub fn new(name: String) -> (b: Shover)
        ensures
            b.spec_name() == name@,
    {
        Shover { name }
    }

    pub fn name(&self) -> (r: &str)
        ensures
            r@ == self.spec_name(),
    {
        self.name.as_str()
    }

    pub fn act(&self, legal: &LegalActions) -> (r: Result<Action, BotFault>)
        requires
            shover_can_answer(*legal),
        ensures
            r matches Ok(a) && shover_action_is(*legal, a),
    {
        if legal.draw.is_some() {
            return Ok(Action::Discard { cards: Vec::new() });
        }
        if let Some(_) = legal.bring_in {
            let bounds = legal.bet.unwrap();
            return Ok(Action::Bet { to: bounds.max_to });
        }
        Ok(
            if let Some(bounds) = legal.raise {
                Action::Raise { to: bounds.max_to }
            } else if let Some(bounds) = legal.bet {
                Action::Bet { to: bounds.max_to }
            } else if legal.call.is_some() {
                Action::Call
            } else {
                Action::Check
            },
        )
    }
}

/// What a fault costs is exactly what the folder plays: at every decision
/// the check/fold substitute and the folder's answer are the same least
/// action of that decision family.
pub proof fn lemma_fault_substitute_is_the_folders_play(legal: LegalActions, sub: Action, folded: Action)
    requires
        minimal_action_is(legal, sub),
        minimal_action_is(legal, folded),
    ensures
        is_stand_pat(sub) <==> is_stand_pat(folded),
        !is_stand_pat(sub) ==> sub == folded,
{
}


/// One action family a decision offers, with the bounds a bet or raise
/// needs to become a concrete action.
#[derive(Clone, Copy, Debug, PartialEq, Eq, Structural)]
pub enum Family {
    Check,
    Call,
    Fold,
    Bet(BetBounds),
    Raise(BetBounds),
}

/// The families a betting decision offers, in the order the random bot
/// lists them: check, call, fold, bet, raise.
pub open spec fn offered_families(legal: LegalActions) -> Seq<Family> {
    (if legal.check {
        seq![Family::Check]
    } else {
        seq![]
    }) + (if legal.call is Some {
        seq![Family::Call]
    } else {
        seq![]
    }) + (if legal.fold {
        seq![Family::Fold]
    } else {
        seq![]
    }) + (match legal.bet {
        Some(b) => seq![Family::Bet(b)],
        None => seq![],
    }) + (match legal.raise {
        Some(b) => seq![Family::Raise(b)],
        None => seq![],
    })
}

/// The families `legal` offers, in the random bot's order.
pub fn families(legal: &LegalActions) -> (r: Vec<Family>)
    ensures
        r@ == offered_families(*legal),
{
    let mut out: Vec<Family> = Vec::new();
    if legal.check {
        out.push(Family::Check);
    }
    if legal.call.is_some() {
        out.push(Family::Call);
    }
    if legal.fold {
        out.push(Family::Fold);
    }
    if let Some(b) = legal.bet {
        out.push(Family::Bet(b));
    }
    if let Some(b) = legal.raise {
        out.push(Family::Raise(b));
    }
    proof {
        assert(out@ =~= offered_families(*legal));
    }
    out
}

/// The random bot's draws fit the decision: at a draw a count of cards to
/// drop no larger than the draw allows, at a bring-in a coin flip, otherwise an index among the offered
/// families and, for a bet or raise, an offset within its bounds.
pub open spec fn random_draws_fit(legal: LegalActions, first: u64, second: u64) -> bool {
    if legal.draw is Some {
        first <= legal.draw->0.max_discards
    } else if legal.bring_in is Some {
        first < 2 && legal.bet is Some
    } else {
        &&& first < offered_families(legal).len()
        &&& match offered_families(legal)[first as int] {
            Family::Bet(b) | Family::Raise(b) => b.min_to + second <= b.max_to,
            _ => true,
        }
    }
}

/// What the random bot plays given its draws: at a draw, the first
/// `min(first, hole)` cards of its shuffled hole; at a bring-in, the
/// bring-in on a zero coin, else completion to the top of the bet bounds;
/// otherwise the `first`-th offered family, a bet or raise going to
/// `min_to + second`.
pub open spec fn random_action_is(legal: LegalActions, shuffled_hole: Seq<u8>, first: u64, second: u64, a: Action) -> bool {
    if legal.draw is Some {
        a matches Action::Discard { cards } && cards@ == shuffled_hole.take(
            if first < shuffled_hole.len() { first as int } else { shuffled_hole.len() as int },
        )
    } else if legal.bring_in is Some {
        if first == 0 {
            a == Action::BringIn
        } else {
            a == Action::Bet { to: legal.bet->0.max_to }
        }
    } else {
        match offered_families(legal)[first as int] {
            Family::Check => a == Action::Check,
            Family::Call => a == Action::Call,
            Family::Fold => a == Action::Fold,
            Family::Bet(b) => a == Action::Bet { to: (b.min_to + second) as u64 },
            Family::Raise(b) => a == Action::Raise { to: (b.min_to + second) as u64 },
        }
    }
}

/// The uniformly random baseline bot's decision, given the values its
/// random source drew: `first` is the draw count at a draw (uniform in
/// `0..=max_discards`), the coin at a bring-in (uniform in `0..2`), or the
/// family index (uniform among the offered families); `second` is the
/// offset of a bet or raise above `min_to` (uniform over the bounds);
/// `shuffled_hole` is the hole in the random order it drew.
pub fn random_action(legal: &LegalActions, shuffled_hole: &[u8], first: u64, second: u64) -> (a: Action)
    requires
        random_draws_fit(*legal, first, second),
    ensures
        random_action_is(*legal, shuffled_hole@, first, second, a),
        legal.draw is Some ==> (a matches Action::Discard { cards } && cards@.len()
            <= legal.draw->0.max_discards),
{
    if legal.draw.is_some() {
        let mut cards: Vec<u8> = Vec::new();
        let mut i: usize = 0;
        while i < shuffled_hole.len() && (i as u64) < first
            invariant
                i <= shuffled_hole@.len(),
                i <= first,
                cards@ == shuffled_hole@.take(i as int),
            decreases shuffled_hole@.len() - i,
        {
            cards.push(shuffled_hole[i]);
            i = i + 1;
            proof {
                assert(cards@ =~= shuffled_hole@.take(i as int));
            }
        }
        return Action::Discard { cards };
    }
    if legal.bring_in.is_some() {
        let bounds = legal.bet.unwrap();
        return if first == 0 {
            Action::BringIn
        } else {
            Action::Bet { to: bounds.max_to }
        };
    }
    let offered = families(legal);
    match offered[first as usize] {
        Family::Check => Action::Check,
        Family::Call => Action::Call,
        Family::Fold => Action::Fold,
        Family::Bet(b) => Action::Bet { to: b.min_to + second },
        Family::Raise(b) => Action::Raise { to: b.min_to + second },
    }
}

/// A decision as the reference bot receives it: a wager decision (whether
/// a check is free, and the call price when facing a wager), a draw, or a
/// bring-in.
#[derive(Clone, Copy, Debug, PartialEq, Eq, Structural)]
pub enum Decision {
    Wager { check: bool, call: Option<u64> },
    Draw { max_discards: u8 },
    BringIn,
}

/// The reference bot's floor answer: check, else call, else fold; stand
/// pat at a draw; post a bring-in.
pub open spec fn floor_action_is(decision: Decision, a: Action) -> bool {
    match decision {
        Decision::Wager { check, call } => if check {
            a == Action::Check
        } else if call is Some {
            a == Action::Call
        } else {
            a == Action::Fold
        },
        Decision::Draw { .. } => is_stand_pat(a),
        Decision::BringIn => a == Action::BringIn,
    }
}

/// The floor strategy answering a decision when no policy knows the game.
pub fn caller_action(decision: &Decision) -> (a: Action)
    ensures
        floor_action_is(*decision, a),
{
    match decision {
        Decision::Wager { check, call } => {
            if *check {
                Action::Check
            } else if call.is_some() {
                Action::Call
            } else {
                Action::Fold
            }
        },
        Decision::Draw { .. } => Action::Discard { cards: Vec::new() },
        Decision::BringIn => Action::BringIn,
    }
}

/// The rollouts the policy spends on a decision: `base`, halved under a
/// deadline below 500 ms and quartered below 150 ms, never fewer than 16.
pub open spec fn sample_budget(base: u32, deadline_ms: Option<u64>) -> int {
    let n: int = match deadline_ms {
        Some(ms) => if ms < 150 {
            (base / 4) as int
        } else if ms < 500 {
            (base / 2) as int
        } else {
            base as int
        },
        None => base as int,
    };
    if n < 16 {
        16
    } else {
        n
    }
}

/// The rollout budget for a decision under the arena's deadline, so slow
/// hosts never flirt with the timeout.
pub fn samples(base: u32, deadline_ms: Option<u64>) -> (r: u32)
    ensures
        r == sample_budget(base, deadline_ms),
{
    let n = match deadline_ms {
        Some(ms) => if ms < 150 {
            base / 4
        } else if ms < 500 {
            base / 2
        } else {
            base
        },
        None => base,
    };
    if n < 16 {
        16
    } else {
        n
    }
}

/// The pot-sized street total the policy aims at: facing a wager, the call
/// price plus the pot after calling; otherwise two thirds of the pot
/// (rounded down).
pub open spec fn pot_target(pot: nat, call_amount: nat) -> nat {
    if call_amount > 0 {
        call_amount + pot + call_amount
    } else {
        (pot * 2) / 3
    }
}

/// A pot-sized total for this street, clamped into the offered bounds.
pub fn sized_to(bounds: BetBounds, pot: u64, call_amount: u64) -> (r: u64)
    requires
        bounds.min_to <= bounds.max_to,
        pot * 2 <= u64::MAX,
        call_amount + pot + call_amount <= u64::MAX,
    ensures
        r == if pot_target(pot as nat, call_amount as nat) < bounds.min_to {
            bounds.min_to as nat
        } else if pot_target(pot as nat, call_amount as nat) > bounds.max_to {
            bounds.max_to as nat
        } else {
            pot_target(pot as nat, call_amount as nat)
        },
{
    let target = if call_amount > 0 {
        call_amount + pot + call_amount
    } else {
        (pot * 2) / 3
    };
    if target < bounds.min_to {
        bounds.min_to
    } else if target > bounds.max_to {
        bounds.max_to
    } else {
        target
    }
}

} // verus!
