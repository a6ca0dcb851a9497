use nats_ewebsock::server_info::ServerInfo;
use nats_ewebsock::{Error, Message, ServerError, Subject, SubscriptionId};

#[test]
fn subscription_ids_are_random_uuids() {
    let a = SubscriptionId::new();
    let b = SubscriptionId::new();
    let c = SubscriptionId::default();
    assert_ne!(a, b);
    assert_ne!(a, c);
    for sid in [&a, &b, &c] {
        let s = sid.as_str();
        assert_eq!(s.len(), 36);
        for (i, ch) in s.chars().enumerate() {
            if i == 8 || i == 13 || i == 18 || i == 23 {
                assert_eq!(ch, '-');
            } else {
                assert!(ch.is_ascii_digit() || ('a'..='f').contains(&ch));
            }
        }
        assert_eq!(s.as_bytes()[14], b'4');
        assert!(b"89ab".contains(&s.as_bytes()[19]));
    }
}

#[test]
fn subscription_id_from_text() {
    let a: SubscriptionId = "abc".parse().unwrap();
    let b: SubscriptionId = "abc".parse().unwrap();
    let c: SubscriptionId = "abd".parse().unwrap();
    assert_eq!(a, b);
    assert_ne!(a, c);
    assert_eq!(a.as_str(), "abc");
    assert_eq!(a.clone(), a);
}

#[test]
fn subject_from_text() {
    let s: Subject = "foo.bar".parse().unwrap();
    assert_eq!(s.as_str(), "foo.bar");
    assert_eq!(Subject::from_text("").as_str(), "");
}

#[test]
fn server_error_from_text() {
    assert_eq!(ServerError::from("Invalid Subject"), ServerError::InvalidSubject);
    assert_eq!(
        ServerError::from("invalid subject"),
        ServerError::Other("invalid subject".to_owned())
    );
    assert_ne!(ServerError::InvalidSubject, ServerError::Other("Invalid Subject".to_owned()));
}

#[test]
fn error_display_text() {
    assert_eq!(Error::WebSocket("down".to_owned()).display_string(), "WebSocket error: down");
    assert_eq!(
        Error::MessageChannel("full".to_owned()).display_string(),
        "Message channel error: full"
    );
    assert_eq!(
        Error::NatsProtocol("missing CRLF".to_owned()).display_string(),
        "NATS protocol error: missing CRLF"
    );
    assert_eq!(Error::State("closed".to_owned()).display_string(), "Invalid state error: closed");
}

fn info(proto: u8) -> ServerInfo {
    ServerInfo {
        server_id: "id".to_owned(),
        server_name: "name".to_owned(),
        version: "2.12.1".to_owned(),
        go: "go1.24".to_owned(),
        host: "0.0.0.0".to_owned(),
        port: 4222,
        headers: true,
        max_payload: 1048576,
        proto,
        client_id: Some(5),
        git_commit: None,
        client_ip: None,
        api_lvl: None,
        xkey: None,
    }
}

#[test]
fn server_info_protocol_version() {
    assert!(info(1).check_protocol_version().is_ok());
    match info(2).check_protocol_version() {
        Err(Error::NatsProtocol(m)) => assert_eq!(m, "unsupported NATS protocol version: 2"),
        _ => panic!("expected a protocol error"),
    }
    match info(0).check_protocol_version() {
        Err(Error::NatsProtocol(m)) => assert_eq!(m, "unsupported NATS protocol version: 0"),
        _ => panic!("expected a protocol error"),
    }
}

#[test]
fn message_debug_text_shows_payload_length() {
    let m = Message { subject: "test".parse().unwrap(), reply_to: None, payload: b"hello".to_vec() };
    assert_eq!(
        m.debug_string(),
        "Message { subject: Subject { inner: \"test\" }, reply_to: None, payload len: 5 }"
    );
    let m = Message {
        subject: "a\"b".parse().unwrap(),
        reply_to: Some("r\n".parse().unwrap()),
        payload: Vec::new(),
    };
    assert_eq!(
        m.debug_string(),
        "Message { subject: Subject { inner: \"a\\\"b\" }, reply_to: Some(Subject { inner: \"r\\n\" }), payload len: 0 }"
    );
    let subject: Subject = "x".parse().unwrap();
    assert_eq!(
        Message::debug_text_from("\"x\"", None, 12),
        format!("Message {{ subject: {:?}, reply_to: None, payload len: 12 }}", subject)
    );
}
