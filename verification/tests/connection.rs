use nats_ewebsock::connection::delivery_error;
use nats_ewebsock::{
    Action, ConnectionState, DeliveryFailure, Error, Message, ServerError, SocketEvent,
};

fn state_message(e: Error) -> String {
    match e {
        Error::State(m) => m,
        _ => panic!("expected a state error"),
    }
}

fn connected() -> ConnectionState<u32> {
    let mut c = ConnectionState::new();
    c.handle_event(SocketEvent::Opened).unwrap();
    let (rest, action) = c.process_next(b"INFO {\"proto\":1}\r\n").unwrap();
    assert!(rest.is_empty());
    assert!(matches!(action, Action::Continue));
    c
}

fn message(payload: &[u8]) -> Message {
    Message { subject: "test".parse().unwrap(), reply_to: None, payload: payload.to_vec() }
}

#[test]
fn connects_on_info() {
    let mut c: ConnectionState<u32> = ConnectionState::new();
    assert!(!c.is_connected());
    assert!(c.get_server_info().is_none());
    c.handle_event(SocketEvent::Opened).unwrap();
    assert!(!c.is_connected());
    c.process_next(b"INFO {\"proto\":1,\"x\":2}\r\n").unwrap();
    assert!(c.is_connected());
    assert_eq!(c.get_server_info().unwrap(), "{\"proto\":1,\"x\":2}");
}

#[test]
fn sending_needs_a_connection() {
    let mut c: ConnectionState<u32> = ConnectionState::new();
    let e = c.publish(message(b"x"), 1).unwrap_err();
    assert_eq!(state_message(e), "not connected");
    let e = c.subscribe(">".to_owned(), None, 1).unwrap_err();
    assert_eq!(state_message(e), "not connected");
    // nothing was registered: a server result finds no callback
    c.handle_event(SocketEvent::Opened).unwrap();
    match c.process_next(b"+OK\r\n") {
        Err(Error::NatsProtocol(m)) => assert_eq!(m, "no callback for server result"),
        _ => panic!("expected a protocol error"),
    }
}

#[test]
fn results_go_to_the_oldest_callback() {
    let mut c = connected();
    let bytes = c.publish(message(b"hello"), 1).unwrap();
    assert_eq!(bytes, b"PUB test 5\r\nhello\r\n".to_vec());
    let (sid, bytes) = c.subscribe(">".to_owned(), None, 2).unwrap();
    let mut expected = b"SUB > ".to_vec();
    expected.extend_from_slice(sid.as_str().as_bytes());
    expected.extend_from_slice(b"\r\n");
    assert_eq!(bytes, expected);
    let bytes = c.unsubscribe(sid, Some(3), 3).unwrap();
    assert!(bytes.ends_with(b" 3\r\n"));

    let frame = b"+OK\r\n-ERR 'Invalid Subject'\r\n+OK\r\n";
    let (rest, a) = c.process_next(frame).unwrap();
    assert!(matches!(a, Action::Respond(1, Ok(()))));
    let (rest, a) = c.process_next(rest).unwrap();
    match a {
        Action::Respond(2, Err(e)) => assert_eq!(e, ServerError::InvalidSubject),
        _ => panic!("expected the second callback with an error"),
    }
    let (rest, a) = c.process_next(rest).unwrap();
    assert!(matches!(a, Action::Respond(3, Ok(()))));
    assert!(rest.is_empty());
    assert!(c.process_next(b"+OK\r\n").is_err());
}

#[test]
fn ping_is_answered_with_pong() {
    let mut c = connected();
    let (_, a) = c.process_next(b"PING\r\n").unwrap();
    match a {
        Action::Send(bytes) => assert_eq!(bytes, b"PONG\r\n".to_vec()),
        _ => panic!("expected PONG"),
    }
}

#[test]
fn messages_are_delivered() {
    let mut c = connected();
    let (rest, a) = c.process_next(b"MSG test abc 5\r\nhello\r\n").unwrap();
    assert!(rest.is_empty());
    match a {
        Action::Deliver((sid, msg)) => {
            assert_eq!(sid.as_str(), "abc");
            assert_eq!(msg.subject.as_str(), "test");
            assert_eq!(msg.payload, b"hello");
        }
        _ => panic!("expected a delivery"),
    }
}

#[test]
fn protocol_errors_leave_state_unchanged() {
    let mut c = connected();
    c.publish(message(b"x"), 9).unwrap();
    assert!(c.process_next(b"BOGUS\r\n").is_err());
    assert!(c.is_connected());
    let (_, a) = c.process_next(b"+OK\r\n").unwrap();
    assert!(matches!(a, Action::Respond(9, Ok(()))));
}

#[test]
fn socket_events() {
    let mut c: ConnectionState<u32> = ConnectionState::new();
    assert!(c.begin_receive().is_ok());
    c.handle_event(SocketEvent::Opened).unwrap();
    let e = c.handle_event(SocketEvent::Opened).unwrap_err();
    assert_eq!(state_message(e), "WebSocket opened event in invalid state");
    match c.handle_event(SocketEvent::UnexpectedMessage("Text(\"hi\")".to_owned())) {
        Err(Error::NatsProtocol(m)) => assert_eq!(m, "unexpected message type: Text(\"hi\")"),
        _ => panic!("expected a protocol error"),
    }
    match c.handle_event(SocketEvent::Error("reset".to_owned())) {
        Err(Error::WebSocket(m)) => assert_eq!(m, "reset"),
        _ => panic!("expected a WebSocket error"),
    }
    c.handle_event(SocketEvent::Closed).unwrap();
    let e = c.begin_receive().unwrap_err();
    assert_eq!(state_message(e), "closed");
}

#[test]
fn delivery_errors() {
    match delivery_error(DeliveryFailure::Full) {
        Error::MessageChannel(m) => assert_eq!(m, "message channel full"),
        _ => panic!("expected a channel error"),
    }
    match delivery_error(DeliveryFailure::Closed) {
        Error::MessageChannel(m) => assert_eq!(m, "receiver has been closed"),
        _ => panic!("expected a channel error"),
    }
}

#[test]
fn messages_of_a_frame_are_delivered_in_order() {
    let mut c = connected();
    let frame = b"MSG a s1 1\r\nx\r\nPING\r\nMSG b s2 _r 2\r\nyz\r\n";
    let mut input: &[u8] = frame;
    let mut got = Vec::new();
    while !input.is_empty() {
        let (rest, a) = c.process_next(input).unwrap();
        input = rest;
        if let Action::Deliver((sid, msg)) = a {
            got.push((sid.as_str().to_owned(), msg.subject.as_str().to_owned(), msg.payload));
        }
    }
    assert_eq!(
        got,
        vec![
            ("s1".to_owned(), "a".to_owned(), b"x".to_vec()),
            ("s2".to_owned(), "b".to_owned(), b"yz".to_vec()),
        ]
    );
}

#[test]
fn connected_with_the_latest_info_until_closed() {
    let mut c = connected();
    c.process_next(b"INFO {\"proto\":1,\"n\":2}\r\n").unwrap();
    assert_eq!(c.get_server_info().unwrap(), "{\"proto\":1,\"n\":2}");
    c.handle_event(SocketEvent::Closed).unwrap();
    assert!(!c.is_connected());
    assert!(c.get_server_info().is_none());
    c.process_next(b"INFO {\"proto\":1,\"n\":3}\r\n").unwrap();
    assert!(c.is_connected());
    assert_eq!(c.get_server_info().unwrap(), "{\"proto\":1,\"n\":3}");
}
