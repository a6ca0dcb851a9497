use nats_ewebsock::{ClientMessage, Message, SubscriptionId};

fn subject(s: &str) -> nats_ewebsock::Subject {
    s.parse().unwrap()
}

#[test]
fn pub_without_reply() {
    let msg = ClientMessage::Pub(Message {
        subject: subject("test"),
        reply_to: None,
        payload: b"hello".to_vec(),
    });
    assert_eq!(msg.to_nats_protocol(), b"PUB test 5\r\nhello\r\n".to_vec());
}

#[test]
fn pub_with_reply_and_empty_payload() {
    let msg = ClientMessage::Pub(Message {
        subject: subject("a.b"),
        reply_to: Some(subject("inbox.1")),
        payload: Vec::new(),
    });
    assert_eq!(msg.to_nats_protocol(), b"PUB a.b inbox.1 0\r\n\r\n".to_vec());
}

#[test]
fn pub_with_binary_payload() {
    let payload: Vec<u8> = (0..=255u8).collect();
    let msg = ClientMessage::Pub(Message {
        subject: subject("bin"),
        reply_to: None,
        payload: payload.clone(),
    });
    let mut expected = b"PUB bin 256\r\n".to_vec();
    expected.extend_from_slice(&payload);
    expected.extend_from_slice(b"\r\n");
    assert_eq!(msg.to_nats_protocol(), expected);
}

#[test]
fn sub_with_and_without_queue_group() {
    let sid: SubscriptionId = "42".parse().unwrap();
    let msg = ClientMessage::Sub { subject: ">".to_owned(), queue_group: None, sid };
    assert_eq!(msg.to_nats_protocol(), b"SUB > 42\r\n".to_vec());
    let sid: SubscriptionId = "7".parse().unwrap();
    let msg = ClientMessage::Sub {
        subject: "orders.*".to_owned(),
        queue_group: Some("workers".to_owned()),
        sid,
    };
    assert_eq!(msg.to_nats_protocol(), b"SUB orders.* workers 7\r\n".to_vec());
}

#[test]
fn unsub_with_and_without_max() {
    let sid: SubscriptionId = "42".parse().unwrap();
    let msg = ClientMessage::Unsub { sid, max_msgs: None };
    assert_eq!(msg.to_nats_protocol(), b"UNSUB 42\r\n".to_vec());
    let sid: SubscriptionId = "42".parse().unwrap();
    let msg = ClientMessage::Unsub { sid, max_msgs: Some(100) };
    assert_eq!(msg.to_nats_protocol(), b"UNSUB 42 100\r\n".to_vec());
    let sid: SubscriptionId = "x".parse().unwrap();
    let msg = ClientMessage::Unsub { sid, max_msgs: Some(u32::MAX) };
    assert_eq!(msg.to_nats_protocol(), b"UNSUB x 4294967295\r\n".to_vec());
}

#[test]
fn pong() {
    assert_eq!(ClientMessage::Pong.to_nats_protocol(), b"PONG\r\n".to_vec());
}

#[test]
fn unicode_subject_is_written_as_utf8() {
    let msg = ClientMessage::Pub(Message {
        subject: subject("grüße"),
        reply_to: None,
        payload: b"x".to_vec(),
    });
    assert_eq!(msg.to_nats_protocol(), "PUB grüße 1\r\nx\r\n".as_bytes().to_vec());
}
