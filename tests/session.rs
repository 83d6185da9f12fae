use infer_server::protocol::{FrameMsg, ProtoMsg};
use infer_server::router::{PublisherConflict, Router};
use infer_server::session::{PublisherSession, SessionEvent, SessionStep};

fn connect(name: &str) -> SessionEvent {
    SessionEvent::Message(ProtoMsg::ConnectReq(name.to_string()))
}

fn frame(name: &str, data: &[u8]) -> SessionEvent {
    SessionEvent::Message(ProtoMsg::FrameMsg(FrameMsg::new(name.to_string(), data.to_vec())))
}

#[test]
fn session_registers_and_publishes() {
    let mut router = Router::with_defaults();
    let s = router.subscribe_raw("cam", 0);
    let mut session = PublisherSession::new();
    let step = session.handle(&mut router, connect("cam"), 1);
    assert!(matches!(step, SessionStep::Registered(_)));
    assert_eq!(session.channel(), Some(infer_server::channel_id::hashed("cam")));
    match session.handle(&mut router, frame("cam", &[9]), 2) {
        SessionStep::Published(out) => assert_eq!(out.raw.delivered, 1),
        other => panic!("unexpected step {:?}", other),
    }
    assert!(router.recv(&s).is_some());
    session.finish(&mut router, 3);
    assert!(!router.has_publisher("cam"));
    assert_eq!(session.handle(&mut router, frame("cam", &[1]), 4), SessionStep::Ended);
}

#[test]
fn second_publisher_is_rejected() {
    let mut router = Router::with_defaults();
    let s = router.subscribe_raw("cam", 0);
    let mut a = PublisherSession::new();
    let mut b = PublisherSession::new();
    assert!(matches!(a.handle(&mut router, connect("cam"), 1), SessionStep::Registered(_)));
    let step = b.handle(&mut router, connect("cam"), 2);
    assert_eq!(
        step,
        SessionStep::Conflict(PublisherConflict { channel: infer_server::channel_id::hashed("cam") })
    );
    assert!(step.ends_session());
    assert!(matches!(a.handle(&mut router, frame("cam", &[1]), 3), SessionStep::Published(_)));
    assert!(router.recv(&s).is_some());
    assert!(router.has_publisher("cam"));
}

#[test]
fn first_message_must_connect() {
    let mut router = Router::with_defaults();
    let mut session = PublisherSession::new();
    let step = session.handle(&mut router, frame("cam", &[1]), 0);
    assert_eq!(step, SessionStep::NotConnected);
    assert!(step.ends_session());
    assert!(!router.has_channel("cam"));
    let mut other = PublisherSession::new();
    assert_eq!(other.handle(&mut router, SessionEvent::Malformed, 0), SessionStep::NotConnected);
}

#[test]
fn protocol_errors_are_counted_not_fatal() {
    let mut router = Router::with_defaults();
    let s = router.subscribe_raw("cam", 0);
    let mut session = PublisherSession::new();
    session.handle(&mut router, connect("cam"), 0);
    assert_eq!(session.handle(&mut router, frame("other", &[1]), 1), SessionStep::Dropped);
    assert_eq!(session.handle(&mut router, SessionEvent::Malformed, 2), SessionStep::Dropped);
    assert_eq!(session.handle(&mut router, connect("cam"), 3), SessionStep::Dropped);
    assert_eq!(session.protocol_errors(), 3);
    assert!(router.recv(&s).is_none());
    assert!(matches!(session.handle(&mut router, frame("cam", &[2]), 4), SessionStep::Published(_)));
    assert!(router.recv(&s).is_some());
}
