use poker_arena::bot::{Action, BotFault};
use poker_arena::wire::{
    handshake_step, ActStep, BotLine, Handshake, JoinError, LineError, Phase, Polled, WireSession,
};

fn is_poll<A>(s: &ActStep<A>) -> bool {
    matches!(s, ActStep::Poll)
}

#[test]
fn handshake_accepts_a_join_and_ignores_unknown_messages() {
    assert_eq!(handshake_step::<Action>(Polled::Line(BotLine::Join)), Handshake::Joined);
    assert_eq!(handshake_step::<Action>(Polled::Line(BotLine::Unknown)), Handshake::Waiting);
}

#[test]
fn handshake_refuses_an_early_action_a_timeout_and_a_hangup() {
    assert_eq!(
        handshake_step(Polled::Line(BotLine::Answer(Action::Fold))),
        Handshake::Failed(JoinError::BadJoin("the bot sent an action before joining".to_string()))
    );
    assert_eq!(handshake_step::<Action>(Polled::Nothing), Handshake::Failed(JoinError::HandshakeTimeout));
    assert_eq!(
        handshake_step::<Action>(Polled::Gone),
        Handshake::Failed(JoinError::BadJoin("the bot disconnected before joining".to_string()))
    );
    assert_eq!(
        handshake_step::<Action>(Polled::Failed(LineError::Broken)),
        Handshake::Failed(JoinError::Wire(LineError::Broken))
    );
}

#[test]
fn a_plain_decision_drains_asks_and_takes_the_answer() {
    let mut s = WireSession::new();
    assert!(is_poll(&s.begin::<Action>()));
    assert_eq!(s.phase, Phase::Draining);
    assert!(matches!(s.on_stale::<Action>(Polled::Nothing), ActStep::Ask));
    assert!(is_poll(&s.sent::<Action>(true)));
    assert!(is_poll(&s.on_reply::<Action>(Polled::Line(BotLine::Unknown))));
    match s.on_reply(Polled::Line(BotLine::Answer(Action::Call))) {
        ActStep::Answer(a) => assert_eq!(a, Action::Call),
        _ => panic!("expected the answer"),
    }
    assert_eq!(s.phase, Phase::Idle);
    assert!(!s.dead);
}

#[test]
fn a_late_answer_after_a_timeout_is_discarded_not_taken() {
    let mut s = WireSession::new();
    s.begin::<Action>();
    s.on_stale::<Action>(Polled::Nothing);
    s.sent::<Action>(true);
    match s.on_reply::<Action>(Polled::Nothing) {
        ActStep::Fault(f) => assert_eq!(f, BotFault::Timeout),
        _ => panic!("expected a timeout"),
    }
    assert!(!s.dead);
    // The next decision: the late answer to the first one is drained.
    s.begin::<Action>();
    assert!(is_poll(&s.on_stale(Polled::Line(BotLine::Answer(Action::Fold)))));
    assert_eq!(s.phase, Phase::Draining);
    assert!(matches!(s.on_stale::<Action>(Polled::Nothing), ActStep::Ask));
    s.sent::<Action>(true);
    match s.on_reply(Polled::Line(BotLine::Answer(Action::Check))) {
        ActStep::Answer(a) => assert_eq!(a, Action::Check),
        _ => panic!("expected the fresh answer"),
    }
}

#[test]
fn a_malformed_line_is_a_protocol_fault_and_a_broken_stream_kills_the_bot() {
    let mut s = WireSession::new();
    s.begin::<Action>();
    s.on_stale::<Action>(Polled::Nothing);
    s.sent::<Action>(true);
    match s.on_reply::<Action>(Polled::Failed(LineError::Malformed("bad json".to_string()))) {
        ActStep::Fault(f) => assert_eq!(f, BotFault::Protocol("bad json".to_string())),
        _ => panic!("expected a protocol fault"),
    }
    assert!(!s.dead);
    assert!(s.farewell_due());
    s.begin::<Action>();
    match s.on_stale::<Action>(Polled::Failed(LineError::Broken)) {
        ActStep::Fault(f) => assert_eq!(f, BotFault::Disconnected),
        _ => panic!("expected a disconnect"),
    }
    assert!(s.dead);
    assert!(!s.farewell_due());
    match s.begin::<Action>() {
        ActStep::Fault(f) => assert_eq!(f, BotFault::Disconnected),
        _ => panic!("a dead bot faults at once"),
    }
}

#[test]
fn a_failed_write_or_a_vanished_reader_is_a_disconnect() {
    let mut s = WireSession::new();
    s.begin::<Action>();
    s.on_stale::<Action>(Polled::Nothing);
    assert!(matches!(s.sent::<Action>(false), ActStep::Fault(BotFault::Disconnected)));
    assert!(s.dead);
    let mut t = WireSession::new();
    t.hand_start(7);
    t.begin::<Action>();
    t.on_stale::<Action>(Polled::Nothing);
    t.sent::<Action>(true);
    assert!(matches!(t.on_reply::<Action>(Polled::Gone), ActStep::Fault(BotFault::Disconnected)));
    assert!(t.dead);
    assert_eq!(t.hand_no, 7);
}
