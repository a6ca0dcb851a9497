use nats_ewebsock::decimal::{decimal_string, parse_usize, IntErrorKind};
use nats_ewebsock::server_message::ServerMessage;
use nats_ewebsock::text::chars_of;
use nats_ewebsock::{Error, ServerError};

fn protocol_message(r: Result<(&[u8], ServerMessage), Error>) -> String {
    match r {
        Err(Error::NatsProtocol(m)) => m,
        Err(_) => panic!("expected a protocol error"),
        Ok(_) => panic!("expected an error"),
    }
}

#[test]
fn parse_ping() {
    let (rest, m) = ServerMessage::parse(b"PING\r\nrest").unwrap();
    assert_eq!(rest, b"rest");
    assert!(matches!(m, ServerMessage::Ping));
}

#[test]
fn parse_ok() {
    let (rest, m) = ServerMessage::parse(b"+OK\r\n").unwrap();
    assert!(rest.is_empty());
    assert!(matches!(m, ServerMessage::ServerResult(Ok(()))));
}

#[test]
fn parse_ok_with_arguments_is_malformed() {
    let m = protocol_message(ServerMessage::parse(b"+OK now\r\n"));
    assert_eq!(m, "malformed +OK message");
}

#[test]
fn parse_ping_with_arguments_is_malformed() {
    let m = protocol_message(ServerMessage::parse(b"PING x\r\n"));
    assert_eq!(m, "malformed PING message");
}

#[test]
fn parse_pong() {
    let (rest, m) = ServerMessage::parse(b"PONG\r\n").unwrap();
    assert!(rest.is_empty());
    assert!(matches!(m, ServerMessage::Pong));
    assert!(ServerMessage::starts_with_pong(b"PONG\r\nPING\r\n"));
    assert!(!ServerMessage::starts_with_pong(b"PING\r\n"));
    assert!(!ServerMessage::starts_with_pong(b"PONG x\r\n"));
    assert!(!ServerMessage::starts_with_pong(b"HMSG a 1 2 2\r\nxx\r\n"));
}

#[test]
fn parse_pong_with_arguments_is_malformed() {
    let m = protocol_message(ServerMessage::parse(b"PONG x\r\n"));
    assert_eq!(m, "malformed PONG message");
}

#[test]
fn parse_err_invalid_subject() {
    let (_, m) = ServerMessage::parse(b"-ERR 'Invalid Subject'\r\n").unwrap();
    match m {
        ServerMessage::ServerResult(Err(e)) => assert_eq!(e, ServerError::InvalidSubject),
        _ => panic!("expected -ERR"),
    }
}

#[test]
fn parse_err_other() {
    let (_, m) = ServerMessage::parse(b"-ERR   'Unknown Protocol Operation'\r\n").unwrap();
    match m {
        ServerMessage::ServerResult(Err(e)) => {
            assert_eq!(e, ServerError::Other("Unknown Protocol Operation".to_owned()))
        }
        _ => panic!("expected -ERR"),
    }
}

#[test]
fn parse_err_empty_quotes() {
    let (_, m) = ServerMessage::parse(b"-ERR ''\r\n").unwrap();
    match m {
        ServerMessage::ServerResult(Err(e)) => assert_eq!(e, ServerError::Other(String::new())),
        _ => panic!("expected -ERR"),
    }
}

#[test]
fn parse_err_malformed() {
    assert_eq!(protocol_message(ServerMessage::parse(b"-ERR oops\r\n")), "malformed -ERR message");
    assert_eq!(protocol_message(ServerMessage::parse(b"-ERR '\r\n")), "malformed -ERR message");
    assert_eq!(protocol_message(ServerMessage::parse(b"-ERR 'x' \r\n")), "malformed -ERR message");
}

#[test]
fn parse_info_proto_1() {
    let line = b"INFO {\"server_id\":\"x\",\"proto\":1,\"headers\":true}\r\n";
    let (rest, m) = ServerMessage::parse(line).unwrap();
    assert!(rest.is_empty());
    match m {
        ServerMessage::Info(s) => assert_eq!(s, "{\"server_id\":\"x\",\"proto\":1,\"headers\":true}"),
        _ => panic!("expected INFO"),
    }
}

#[test]
fn parse_info_other_proto() {
    let m = protocol_message(ServerMessage::parse(b"INFO {\"proto\":2}\r\n"));
    assert_eq!(m, "unsupported NATS protocol version");
}

#[test]
fn parse_msg_without_reply() {
    let (rest, m) = ServerMessage::parse(b"MSG test sid1 5\r\nhello\r\nPING\r\n").unwrap();
    assert_eq!(rest, b"PING\r\n");
    match m {
        ServerMessage::Msg((sid, msg)) => {
            assert_eq!(sid.as_str(), "sid1");
            assert_eq!(msg.subject.as_str(), "test");
            assert!(msg.reply_to.is_none());
            assert_eq!(msg.payload, b"hello");
        }
        _ => panic!("expected MSG"),
    }
}

#[test]
fn parse_msg_with_reply() {
    let (rest, m) = ServerMessage::parse(b"MSG  a.b  9  _INBOX.x   0\r\n\r\n").unwrap();
    assert!(rest.is_empty());
    match m {
        ServerMessage::Msg((sid, msg)) => {
            assert_eq!(sid.as_str(), "9");
            assert_eq!(msg.subject.as_str(), "a.b");
            assert_eq!(msg.reply_to.unwrap().as_str(), "_INBOX.x");
            assert!(msg.payload.is_empty());
        }
        _ => panic!("expected MSG"),
    }
}

#[test]
fn parse_msg_payload_may_hold_crlf() {
    let (rest, m) = ServerMessage::parse(b"MSG s 1 +4\r\n\r\n\r\n\r\n").unwrap();
    assert!(rest.is_empty());
    match m {
        ServerMessage::Msg((_, msg)) => assert_eq!(msg.payload, b"\r\n\r\n"),
        _ => panic!("expected MSG"),
    }
}

#[test]
fn parse_msg_unicode_whitespace_separates_fields() {
    let (_, m) = ServerMessage::parse("MSG\u{a0}subj\u{2003}sid 1\r\nx\r\n".as_bytes()).unwrap();
    match m {
        ServerMessage::Msg((sid, msg)) => {
            assert_eq!(msg.subject.as_str(), "subj");
            assert_eq!(sid.as_str(), "sid");
        }
        _ => panic!("expected MSG"),
    }
}

#[test]
fn parse_msg_errors() {
    assert_eq!(protocol_message(ServerMessage::parse(b"MSG a 1\r\n")), "malformed MSG control line");
    assert_eq!(
        protocol_message(ServerMessage::parse(b"MSG a 1 b c 2\r\nxx\r\n")),
        "malformed MSG control line"
    );
    assert_eq!(
        protocol_message(ServerMessage::parse(b"MSG a 1 x5\r\nhello\r\n")),
        "invalid payload size in MSG: invalid digit found in string"
    );
    assert_eq!(
        protocol_message(ServerMessage::parse(b"MSG a 1 -5\r\nhello\r\n")),
        "invalid payload size in MSG: invalid digit found in string"
    );
    assert_eq!(
        protocol_message(ServerMessage::parse(b"MSG a 1 +\r\nhello\r\n")),
        "invalid payload size in MSG: invalid digit found in string"
    );
    assert_eq!(
        protocol_message(ServerMessage::parse(b"MSG a 1 99999999999999999999999\r\nx\r\n")),
        "invalid payload size in MSG: number too large to fit in target type"
    );
    assert_eq!(
        protocol_message(ServerMessage::parse(b"MSG a 1 10\r\nhello\r\n")),
        "insufficient data for MSG payload"
    );
    assert_eq!(
        protocol_message(ServerMessage::parse(b"MSG a 1 5\r\nhello")),
        "expected CRLF after MSG payload"
    );
    assert_eq!(
        protocol_message(ServerMessage::parse(b"MSG a 1 4\r\nhello\r\n")),
        "expected CRLF after MSG payload"
    );
}

#[test]
fn parse_missing_crlf() {
    assert_eq!(protocol_message(ServerMessage::parse(b"PING\n")), "missing CRLF");
    assert_eq!(protocol_message(ServerMessage::parse(b"")), "missing CRLF");
}

#[test]
fn parse_invalid_utf8() {
    assert_eq!(
        protocol_message(ServerMessage::parse(b"PI\xffNG\r\n")),
        "control line is not valid UTF-8"
    );
}

#[test]
fn parse_unknown_op() {
    assert_eq!(
        protocol_message(ServerMessage::parse(b"PUB a 1\r\nx\r\n")),
        "unknown server message op: PUB"
    );
    assert_eq!(
        protocol_message(ServerMessage::parse(b"\r\n")),
        "unknown server message op: "
    );
}

#[test]
fn hmsg_is_recognised() {
    assert!(ServerMessage::starts_with_hmsg(b"HMSG a 1 2 4\r\nxx\r\n\r\n"));
    assert!(!ServerMessage::starts_with_hmsg(b"MSG a 1 2\r\nxx\r\n"));
    assert!(!ServerMessage::starts_with_hmsg(b"HMSG"));
}

#[test]
fn messages_in_one_frame_read_one_after_the_other() {
    let frame = b"MSG a 1 2\r\nhi\r\n+OK\r\nPING\r\n";
    let (rest, first) = ServerMessage::parse(frame).unwrap();
    assert!(matches!(first, ServerMessage::Msg(_)));
    let (rest, second) = ServerMessage::parse(rest).unwrap();
    assert!(matches!(second, ServerMessage::ServerResult(Ok(()))));
    let (rest, third) = ServerMessage::parse(rest).unwrap();
    assert!(matches!(third, ServerMessage::Ping));
    assert!(rest.is_empty());
}

#[test]
fn trailing_bytes_do_not_change_a_message() {
    let alone = ServerMessage::parse(b"MSG a 1 2\r\nhi\r\n").unwrap();
    let followed = ServerMessage::parse(b"MSG a 1 2\r\nhi\r\n-ERR 'x'\r\n").unwrap();
    assert!(alone.0.is_empty());
    assert_eq!(followed.0, b"-ERR 'x'\r\n");
    match (alone.1, followed.1) {
        (ServerMessage::Msg((s1, m1)), ServerMessage::Msg((s2, m2))) => {
            assert_eq!(s1, s2);
            assert_eq!(m1.payload, m2.payload);
            assert_eq!(m1.subject.as_str(), m2.subject.as_str());
        }
        _ => panic!("expected MSG twice"),
    }
}

#[test]
fn usize_text_reads_as_std_does() {
    let read = |s: &str| {
        let chars = chars_of(s);
        parse_usize(&chars, 0, chars.len())
    };
    assert_eq!(read("0"), Ok(0));
    assert_eq!(read("+42"), Ok(42));
    assert_eq!(read("007"), Ok(7));
    assert_eq!(read(""), Err(IntErrorKind::Empty));
    assert_eq!(read("+"), Err(IntErrorKind::InvalidDigit));
    assert_eq!(read("-"), Err(IntErrorKind::InvalidDigit));
    assert_eq!(read("-1"), Err(IntErrorKind::InvalidDigit));
    assert_eq!(read("12a"), Err(IntErrorKind::InvalidDigit));
    assert_eq!(read("١٢"), Err(IntErrorKind::InvalidDigit));
    let max = usize::MAX.to_string();
    assert_eq!(read(&max), Ok(usize::MAX));
    let over = format!("{}0", max);
    assert_eq!(read(&over), Err(IntErrorKind::PosOverflow));
    let over_then_junk = format!("{}0x", max);
    assert_eq!(read(&over_then_junk), Err(IntErrorKind::PosOverflow));
    for s in ["", "+", "1x", "99999999999999999999999", "+17", "0"] {
        let ours = read(s);
        let std = s.parse::<usize>();
        assert_eq!(ours.is_ok(), std.is_ok());
        if let (Ok(a), Ok(b)) = (ours, &std) {
            assert_eq!(a, *b);
        }
        if let (Err(k), Err(e)) = (ours, std) {
            assert_eq!(k.message(), e.to_string());
        }
    }
}

#[test]
fn decimal_text_matches_to_string() {
    for n in [0u64, 7, 10, 99, 100, 12345, u32::MAX as u64, u64::MAX] {
        assert_eq!(decimal_string(n), n.to_string());
    }
}

#[test]
fn decimal_roundtrip() {
    for n in [0usize, 1, 9, 10, 4096, usize::MAX] {
        let text = decimal_string(n as u64);
        let chars = chars_of(&text);
        assert_eq!(parse_usize(&chars, 0, chars.len()), Ok(n));
    }
}

fn msg_frame(subject: &str, sid: &str, reply: Option<&str>, payload: &[u8]) -> Vec<u8> {
    let mut line = format!("MSG {} {}", subject, sid);
    if let Some(r) = reply {
        line.push(' ');
        line.push_str(r);
    }
    line.push_str(&format!(" {}\r\n", payload.len()));
    let mut out = line.into_bytes();
    out.extend_from_slice(payload);
    out.extend_from_slice(b"\r\n");
    out
}

#[test]
fn msg_frames_read_back_as_their_message() {
    let cases: [(&str, &str, Option<&str>, &[u8]); 4] = [
        ("test", "1", None, b"hello"),
        ("grüße.welt", "ä-ö", Some("_INBOX.ü"), b"\r\n"),
        ("a", "b", Some("c"), b""),
        ("x.y.z", "0123456789", None, &[0u8, 255, 13, 10, 13]),
    ];
    for (subject, sid, reply, payload) in cases {
        let mut frame = msg_frame(subject, sid, reply, payload);
        frame.extend_from_slice(b"tail");
        assert!(!ServerMessage::starts_with_hmsg(&frame));
        let (rest, m) = ServerMessage::parse(&frame).unwrap();
        assert_eq!(rest, b"tail");
        match m {
            ServerMessage::Msg((s, msg)) => {
                assert_eq!(s.as_str(), sid);
                assert_eq!(msg.subject.as_str(), subject);
                assert_eq!(msg.reply_to.as_ref().map(|r| r.as_str()), reply);
                assert_eq!(msg.payload, payload);
            }
            _ => panic!("expected MSG"),
        }
    }
}
