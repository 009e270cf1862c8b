//! The arena's side of a conversation with an out-of-process bot, as
//! decisions. The caller owns the stream: it writes the messages, looks for
//! the bot's lines (without waiting, or within a deadline) and hands each
//! outcome to the session, which says what happens next.
//!
//! The one subtle rule is that a late answer must never be taken for the
//! answer to a later question: before each question, whatever the bot has
//! already sent is read and thrown away.
use vstd::prelude::*;
use crate::bot::BotFault;

verus! {

/// One decoded line from the bot; `A` is the kind of answer it gives.
pub enum BotLine<A> {
    /// The bot's `join`.
    Join,
    /// The bot's answer to a decision.
    Answer(A),
    /// A message this arena does not know.
    Unknown,
}

/// Why a line could not be decoded.
#[derive(Clone, Debug, PartialEq, Eq)]
pub enum LineError {
    /// The line did not parse, or ran past the length limit; the text says
    /// how.
    Malformed(String),
    /// The stream closed or failed.
    Broken,
}

/// The outcome of looking for the bot's next line.
pub enum Polled<A> {
    Line(BotLine<A>),
    Failed(LineError),
    /// Nothing arrived: the queue was empty, or the deadline passed.
    Nothing,
    /// The reading side is gone.
    Gone,
}

/// Why a bot never joined.
#[derive(Clone, Debug, PartialEq, Eq)]
pub enum JoinError {
    /// A line before the join could not be read.
    Wire(LineError),
    /// No join arrived before the handshake deadline.
    HandshakeTimeout,
    /// The bot did something other than join.
    BadJoin(String),
}

/// What the handshake makes of one outcome.
#[derive(Clone, Debug, PartialEq, Eq)]
pub enum Handshake {
    Joined,
    /// Keep waiting, within the same deadline.
    Waiting,
    Failed(JoinError),
}

/// The handshake's answer to what arrived after the hello: a join
/// completes it, an unknown message is ignored, and anything else fails it.
pub fn handshake_step<A>(p: Polled<A>) -> (r: Handshake)
    ensures
        match p {
            Polled::Line(BotLine::Join) => r == Handshake::Joined,
            Polled::Line(BotLine::Unknown) => r == Handshake::Waiting,
            Polled::Line(BotLine::Answer(_)) => r matches Handshake::Failed(JoinError::BadJoin(m))
                && m@ == "the bot sent an action before joining"@,
            Polled::Failed(e) => r == Handshake::Failed(JoinError::Wire(e)),
            Polled::Nothing => r == Handshake::Failed(JoinError::HandshakeTimeout),
            Polled::Gone => r matches Handshake::Failed(JoinError::BadJoin(m))
                && m@ == "the bot disconnected before joining"@,
        },
{
    match p {
        Polled::Line(BotLine::Join) => Handshake::Joined,
        Polled::Line(BotLine::Unknown) => Handshake::Waiting,
        Polled::Line(BotLine::Answer(_)) => Handshake::Failed(
            JoinError::BadJoin("the bot sent an action before joining".to_owned()),
        ),
        Polled::Failed(e) => Handshake::Failed(JoinError::Wire(e)),
        Polled::Nothing => Handshake::Failed(JoinError::HandshakeTimeout),
        Polled::Gone => Handshake::Failed(JoinError::BadJoin("the bot disconnected before joining".to_owned())),
    }
}

/// Where a session is within one decision.
#[derive(Clone, Copy, Debug, PartialEq, Eq, Structural)]
pub enum Phase {
    /// Between decisions.
    Idle,
    /// Reading and discarding whatever the bot sent before the question.
    Draining,
    /// The queue was found empty; the question goes out now.
    Asking,
    /// The question is out; waiting for its answer.
    Awaiting,
}

/// What the caller does next.
pub enum ActStep<A> {
    /// Look for the next line: without waiting while draining, within the
    /// decision's deadline while awaiting the answer.
    Poll,
    /// Send the decision to the bot.
    Ask,
    /// The decision's answer.
    Answer(A),
    /// The decision failed.
    Fault(BotFault),
}

/// A joined bot's session.
#[derive(Clone, Copy, Debug, PartialEq, Eq, Structural)]
pub struct WireSession {
    /// The transport failed; every later decision faults at once.
    pub dead: bool,
    pub phase: Phase,
    /// The hand the bot was last told about; it stamps event messages.
    pub hand_no: u64,
}

/// What a session is fed.
pub enum Input<A> {
    /// A decision is wanted.
    Begin,
    /// What looking for a line found while draining.
    Stale(Polled<A>),
    /// Whether the question was written.
    Sent(bool),
    /// What looking for a line found while awaiting the answer.
    Reply(Polled<A>),
}

/// `i` is what a session in `s` may be fed.
pub open spec fn expects<A>(s: WireSession, i: Input<A>) -> bool {
    match i {
        Input::Begin => s.phase == Phase::Idle,
        Input::Stale(_) => s.phase == Phase::Draining,
        Input::Sent(_) => s.phase == Phase::Asking,
        Input::Reply(_) => s.phase == Phase::Awaiting,
    }
}

/// `s` in phase `phase`, dead if `dead` or already so.
pub open spec fn moved(s: WireSession, phase: Phase, dead: bool) -> WireSession {
    WireSession { dead: s.dead || dead, phase, hand_no: s.hand_no }
}

/// The fault an unreadable line is, and whether it kills the transport.
pub open spec fn line_fault(e: LineError) -> (BotFault, bool) {
    match e {
        LineError::Malformed(m) => (BotFault::Protocol(m), false),
        LineError::Broken => (BotFault::Disconnected, true),
    }
}

/// The decision ends in `f`, the transport dead if `dead`.
pub open spec fn fault_end<A>(s: WireSession, f: BotFault, dead: bool) -> (WireSession, ActStep<A>) {
    (moved(s, Phase::Idle, dead), ActStep::Fault(f))
}

/// The session after input `i`, and what the caller does next.
pub open spec fn step<A>(s: WireSession, i: Input<A>) -> (WireSession, ActStep<A>) {
    match i {
        Input::Begin => if s.dead {
            (s, ActStep::Fault(BotFault::Disconnected))
        } else {
            (moved(s, Phase::Draining, false), ActStep::Poll)
        },
        Input::Stale(p) => match p {
            Polled::Line(_) => (s, ActStep::Poll),
            Polled::Failed(e) => fault_end(s, line_fault(e).0, line_fault(e).1),
            Polled::Nothing => (moved(s, Phase::Asking, false), ActStep::Ask),
            Polled::Gone => fault_end(s, BotFault::Disconnected, true),
        },
        Input::Sent(written) => if written {
            (moved(s, Phase::Awaiting, false), ActStep::Poll)
        } else {
            fault_end(s, BotFault::Disconnected, true)
        },
        Input::Reply(p) => match p {
            Polled::Line(BotLine::Answer(a)) => (moved(s, Phase::Idle, false), ActStep::Answer(a)),
            Polled::Line(_) => (s, ActStep::Poll),
            Polled::Failed(e) => fault_end(s, line_fault(e).0, line_fault(e).1),
            Polled::Nothing => fault_end(s, BotFault::Timeout, false),
            Polled::Gone => fault_end(s, BotFault::Disconnected, true),
        },
    }
}

impl WireSession {
    /// The session of a bot that has just joined.
    pub fn new() -> (r: WireSession)
        ensures
            !r.dead,
            r.phase == Phase::Idle,
            r.hand_no == 0,
    {
        WireSession { dead: false, phase: Phase::Idle, hand_no: 0 }
    }

    /// Notes that the bot was told hand `hand_no` begins.
    pub fn hand_start(&mut self, hand_no: u64)
        ensures
            *final(self) == (WireSession { hand_no, ..*old(self) }),
    {
        self.hand_no = hand_no;
    }

    /// Whether the match-end notice is still worth sending: only over a
    /// transport that has not failed.
    pub fn farewell_due(&self) -> (r: bool)
        ensures
            r == !self.dead,
    {
        !self.dead
    }

    /// The fault an unreadable line is; a broken stream kills the
    /// transport.
    fn fault_from(&mut self, e: LineError) -> (f: BotFault)
        ensures
            f == line_fault(e).0,
            *final(self) == (WireSession { dead: old(self).dead || line_fault(e).1, ..*old(self) }),
    {
        match e {
            LineError::Malformed(m) => BotFault::Protocol(m),
            LineError::Broken => {
                self.dead = true;
                BotFault::Disconnected
            },
        }
    }

    /// A decision is wanted: a dead transport faults at once; otherwise the
    /// bot's earlier lines are drained first.
    pub fn begin<A>(&mut self) -> (r: ActStep<A>)
        requires
            old(self).phase == Phase::Idle,
        ensures
            (*final(self), r) == step(*old(self), Input::<A>::Begin),
    {
        if self.dead {
            return ActStep::Fault(BotFault::Disconnected);
        }
        self.phase = Phase::Draining;
        ActStep::Poll
    }

    /// What draining found: lines the bot sent before the question are
    /// discarded; an empty queue lets the question go out.
    pub fn on_stale<A>(&mut self, p: Polled<A>) -> (r: ActStep<A>)
        requires
            old(self).phase == Phase::Draining,
        ensures
            (*final(self), r) == step(*old(self), Input::Stale(p)),
    {
        match p {
            Polled::Line(_) => ActStep::Poll,
            Polled::Failed(e) => {
                let f = self.fault_from(e);
                self.phase = Phase::Idle;
                ActStep::Fault(f)
            },
            Polled::Nothing => {
                self.phase = Phase::Asking;
                ActStep::Ask
            },
            Polled::Gone => {
                self.dead = true;
                self.phase = Phase::Idle;
                ActStep::Fault(BotFault::Disconnected)
            },
        }
    }

    /// The question was written, or writing it failed and killed the
    /// transport.
    pub fn sent<A>(&mut self, written: bool) -> (r: ActStep<A>)
        requires
            old(self).phase == Phase::Asking,
        ensures
            (*final(self), r) == step(*old(self), Input::<A>::Sent(written)),
    {
        if written {
            self.phase = Phase::Awaiting;
            ActStep::Poll
        } else {
            self.dead = true;
            self.phase = Phase::Idle;
            ActStep::Fault(BotFault::Disconnected)
        }
    }

    /// What awaiting the answer found: an answer ends the decision, a join
    /// or unknown message is ignored, and a missed deadline is a timeout.
    pub fn on_reply<A>(&mut self, p: Polled<A>) -> (r: ActStep<A>)
        requires
            old(self).phase == Phase::Awaiting,
        ensures
            (*final(self), r) == step(*old(self), Input::Reply(p)),
    {
        match p {
            Polled::Line(BotLine::Answer(a)) => {
                self.phase = Phase::Idle;
                ActStep::Answer(a)
            },
            Polled::Line(_) => ActStep::Poll,
            Polled::Failed(e) => {
                let f = self.fault_from(e);
                self.phase = Phase::Idle;
                ActStep::Fault(f)
            },
            Polled::Nothing => {
                self.phase = Phase::Idle;
                ActStep::Fault(BotFault::Timeout)
            },
            Polled::Gone => {
                self.dead = true;
                self.phase = Phase::Idle;
                ActStep::Fault(BotFault::Disconnected)
            },
        }
    }
}

/// No late answer is taken for a later question: an answer is only taken
/// while awaiting, the session only comes to await by sending the question,
/// and the question only goes out once draining found the queue empty.
pub proof fn lemma_answer_follows_the_question<A>(s: WireSession, i: Input<A>)
    requires
        expects(s, i),
    ensures
        step(s, i).1 is Answer ==> s.phase == Phase::Awaiting && i is Reply,
        step(s, i).0.phase == Phase::Awaiting ==> (s.phase == Phase::Awaiting && i is Reply) || (s.phase
            == Phase::Asking && i == Input::<A>::Sent(true)),
        step(s, i).0.phase == Phase::Asking ==> s.phase == Phase::Draining && i == Input::<A>::Stale(
            Polled::Nothing,
        ),
        step(s, i).1 is Ask ==> step(s, i).0.phase == Phase::Asking,
{
}

/// Each decision ends exactly once: an answer or a fault returns the
/// session to idle, and while it goes on the session is never idle.
pub proof fn lemma_decisions_end_idle<A>(s: WireSession, i: Input<A>)
    requires
        expects(s, i),
    ensures
        (step(s, i).1 is Answer || step(s, i).1 is Fault) ==> step(s, i).0.phase == Phase::Idle,
        (step(s, i).1 is Poll || step(s, i).1 is Ask) ==> step(s, i).0.phase != Phase::Idle,
{
}

/// A failed transport stays failed, and every decision asked of it faults
/// as a disconnect at once.
pub proof fn lemma_dead_stays_dead<A>(s: WireSession, i: Input<A>)
    requires
        expects(s, i),
    ensures
        s.dead ==> step(s, i).0.dead,
        s.dead && i is Begin ==> step(s, i) == (s, ActStep::<A>::Fault(BotFault::Disconnected)),
        step(s, i).0.hand_no == s.hand_no,
{
}

} // verus!
