//! Messages from the server, and the parser that reads them off the wire.
use crate::decimal::{int_error_text, parse_usize, parse_usize_spec};
use crate::error::{protocol_error, Error, ErrorView};
use crate::message::{Message, MessageView, MessageWithSid};
use crate::server_error::{server_error_of, server_result_view, ServerError, ServerErrorView, ServerResult};
use crate::sid::SubscriptionId;
use crate::subject::Subject;
use crate::text::{
    chars_of, contains_chars, contains_from, field_bounds, fields, segment_eq, skip_spaces,
    str_from_utf8, trim_start, word_end, word_len,
};
use vstd::prelude::*;
use vstd::slice::{slice_subrange, slice_to_vec};
use vstd::utf8::{decode_utf8, valid_utf8};

verus! {

/// A message from the server.
pub enum ServerMessage {
    /// `INFO`, with the server's JSON description.
    Info(String),
    /// `MSG`: a message delivered to a subscription.
    Msg(MessageWithSid),
    /// `HMSG`: a message with headers.
    HMsg,
    /// +OK or -ERR
    ServerResult(ServerResult),
    /// `PING`.
    Ping,
    /// `PONG`.
    Pong,
}

/// The model of a [`ServerMessage`].
pub enum ServerMessageView {
    Info(Seq<char>),
    Msg(Seq<char>, MessageView),
    HMsg,
    ServerResult(Result<(), ServerErrorView>),
    Ping,
    Pong,
}

impl View for ServerMessage {
    type V = ServerMessageView;

    open spec fn view(&self) -> ServerMessageView {
        match self {
            ServerMessage::Info(s) => ServerMessageView::Info(s@),
            ServerMessage::Msg((sid, m)) => ServerMessageView::Msg(sid@, m@),
            ServerMessage::HMsg => ServerMessageView::HMsg,
            ServerMessage::ServerResult(r) => ServerMessageView::ServerResult(server_result_view(*r)),
            ServerMessage::Ping => ServerMessageView::Ping,
            ServerMessage::Pong => ServerMessageView::Pong,
        }
    }
}

/// A protocol error with the given text.
pub open spec fn protocol(text: Seq<char>) -> ErrorView {
    ErrorView::NatsProtocol(text)
}

/// The index of the first `\r\n` in `data` at or after `i`.
pub open spec fn crlf_from(data: Seq<u8>, i: int) -> Option<int>
    decreases data.len() - i,
{
    if i < 0 || i + 2 > data.len() {
        None
    } else if data[i] == 0x0d && data[i + 1] == 0x0a {
        Some(i)
    } else {
        crlf_from(data, i + 1)
    }
}

/// The index of the first `\r\n` in `data`.
pub open spec fn crlf_index(data: Seq<u8>) -> Option<int> {
    crlf_from(data, 0)
}

/// The control line at the head of `data`: the text before the first
/// `\r\n`, which must be UTF-8, and the bytes after that `\r\n`.
pub open spec fn control_line_spec(data: Seq<u8>) -> Result<(Seq<u8>, Seq<char>), ErrorView> {
    match crlf_index(data) {
        None => Err(protocol("missing CRLF"@)),
        Some(i) => if valid_utf8(data.take(i)) {
            Ok((data.skip(i + 2), decode_utf8(data.take(i))))
        } else {
            Err(protocol("control line is not valid UTF-8"@))
        },
    }
}

/// The operation name of a control line: its text up to the first whitespace.
pub open spec fn line_op(line: Seq<char>) -> Seq<char> {
    line.take(word_len(line) as int)
}

/// The arguments of a control line: its text after the operation name, without
/// leading whitespace.
pub open spec fn line_args(line: Seq<char>) -> Seq<char> {
    trim_start(line.skip(word_len(line) as int))
}

/// `INFO`: the arguments must announce protocol version 1 (`"proto":1`) and
/// are kept as the server's description.
pub open spec fn info_spec(rest: Seq<u8>, args: Seq<char>) -> Result<
    (Seq<u8>, ServerMessageView),
    ErrorView,
> {
    if contains_chars(args, "\"proto\":1"@) {
        Ok((rest, ServerMessageView::Info(args)))
    } else {
        Err(protocol("unsupported NATS protocol version"@))
    }
}

/// `MSG <subject> <sid> [reply-to] <size>`, then `size` bytes of payload and
/// `\r\n`, which `rest` must hold.
pub open spec fn msg_spec(rest: Seq<u8>, args: Seq<char>) -> Result<
    (Seq<u8>, ServerMessageView),
    ErrorView,
> {
    let f = fields(args);
    if f.len() != 3 && f.len() != 4 {
        Err(protocol("malformed MSG control line"@))
    } else {
        match parse_usize_spec(f[f.len() - 1]) {
            Err(k) => Err(protocol("invalid payload size in MSG: "@ + int_error_text(k))),
            Ok(n) => if n > rest.len() {
                Err(protocol("insufficient data for MSG payload"@))
            } else if !(n + 2 <= rest.len() && rest[n as int] == 0x0d && rest[n + 1] == 0x0a) {
                Err(protocol("expected CRLF after MSG payload"@))
            } else {
                Ok(
                    (
                        rest.skip(n + 2),
                        ServerMessageView::Msg(
                            f[1],
                            MessageView {
                                subject: f[0],
                                reply_to: if f.len() == 4 {
                                    Some(f[2])
                                } else {
                                    None
                                },
                                payload: rest.take(n as int),
                            },
                        ),
                    ),
                )
            },
        }
    }
}

/// What reading one server message off the head of `data` gives: the bytes
/// after the message and the message, or the protocol error.
pub open spec fn parse_spec(data: Seq<u8>) -> Result<(Seq<u8>, ServerMessageView), ErrorView> {
    match control_line_spec(data) {
        Err(e) => Err(e),
        Ok((rest, line)) => {
            let op = line_op(line);
            let args = line_args(line);
            if op == "INFO"@ {
                info_spec(rest, args)
            } else if op == "MSG"@ {
                msg_spec(rest, args)
            } else if op == "+OK"@ {
                if args.len() == 0 {
                    Ok((rest, ServerMessageView::ServerResult(Ok(()))))
                } else {
                    Err(protocol("malformed +OK message"@))
                }
            } else if op == "-ERR"@ {
                if args.len() >= 2 && args[0] == '\'' && args[args.len() - 1] == '\'' {
                    Ok(
                        (
                            rest,
                            ServerMessageView::ServerResult(
                                Err(server_error_of(args.subrange(1, args.len() - 1))),
                            ),
                        ),
                    )
                } else {
                    Err(protocol("malformed -ERR message"@))
                }
            } else if op == "PING"@ {
                if args.len() == 0 {
                    Ok((rest, ServerMessageView::Ping))
                } else {
                    Err(protocol("malformed PING message"@))
                }
            } else if op == "PONG"@ {
                if args.len() == 0 {
                    Ok((rest, ServerMessageView::Pong))
                } else {
                    Err(protocol("malformed PONG message"@))
                }
            } else {
                Err(protocol("unknown server message op: "@ + op))
            }
        },
    }
}

/// The head of `data` reads as a `PONG`.
pub open spec fn is_pong(data: Seq<u8>) -> bool {
    parse_spec(data) matches Ok((_, ServerMessageView::Pong))
}

/// The head of `data` is an `HMSG` control line, which this client does not
/// read.
pub open spec fn is_hmsg(data: Seq<u8>) -> bool {
    control_line_spec(data) matches Ok((_, line)) && line_op(line) == "HMSG"@
}

/// The index of the first `\r\n` in `data`.
pub fn newline_idx(data: &[u8]) -> (r: Option<usize>)
    ensures
        r matches Some(i) ==> crlf_index(data@) == Some(i as int) && i + 2 <= data@.len(),
        r is None ==> crlf_index(data@) is None,
{
    proof {
        lemma_crlf_from(data@, 0);
    }
    let mut i: usize = 0;
    while i < data.len() && data.len() - i >= 2
        invariant
            i <= data@.len(),
            crlf_index(data@) == crlf_from(data@, i as int),
        decreases data@.len() - i,
    {
        if data[i] == 0x0d && data[i + 1] == 0x0a {
            return Some(i);
        }
        i += 1;
    }
    None
}

impl ServerMessage {
    /// Splits the control line off the head of `input`.
    fn control_line(input: &[u8]) -> (r: Result<(&[u8], &str), Error>)
        ensures
            match (r, control_line_spec(input@)) {
                (Ok((rest, line)), Ok((srest, sline))) => rest@ == srest && line@ == sline,
                (Err(e), Err(se)) => e@ == se,
                _ => false,
            },
    {
        let newline_idx = match newline_idx(input) {
            Some(i) => i,
            None => {
                return Err(protocol_error("missing CRLF"));
            },
        };
        let line = match str_from_utf8(slice_subrange(input, 0, newline_idx)) {
            Some(l) => l,
            None => {
                assert(input@.subrange(0, newline_idx as int) =~= input@.take(newline_idx as int));
                return Err(protocol_error("control line is not valid UTF-8"));
            },
        };
        assert(input@.subrange(0, newline_idx as int) =~= input@.take(newline_idx as int));
        let after = slice_subrange(input, newline_idx, input.len());
        let rest = slice_subrange(after, 2, after.len());
        assert(rest@ =~= input@.skip(newline_idx + 2));
        Ok((rest, line))
    }

    /// Reads the `INFO` arguments.
    fn parse_info<'a>(input: &'a [u8], remainder: &str) -> (r: Result<(&'a [u8], Self), Error>)
        ensures
            match (r, info_spec(input@, remainder@)) {
                (Ok((rest, m)), Ok((srest, sm))) => rest@ == srest && m@ == sm,
                (Err(e), Err(se)) => e@ == se,
                _ => false,
            },
    {
        let chars = chars_of(remainder);
        let needle = chars_of("\"proto\":1");
        assert(chars@.skip(0) =~= chars@);
        if !contains_from(&chars, 0, &needle) {
            return Err(protocol_error("unsupported NATS protocol version"));
        }
        Ok((input, ServerMessage::Info(remainder.to_owned())))
    }

    /// Reads the `MSG` arguments and the payload that follows the control line.
    fn parse_msg<'a>(input: &'a [u8], remainder: &str) -> (r: Result<(&'a [u8], Self), Error>)
        ensures
            match (r, msg_spec(input@, remainder@)) {
                (Ok((rest, m)), Ok((srest, sm))) => rest@ == srest && m@ == sm,
                (Err(e), Err(se)) => e@ == se,
                _ => false,
            },
    {
        let chars = chars_of(remainder);
        let bounds = field_bounds(&chars, 0);
        assert(chars@.skip(0) =~= chars@);
        let ghost f = fields(remainder@);
        assert(bounds@.len() == f.len());
        let count = bounds.len();
        if count != 3 && count != 4 {
            return Err(protocol_error("malformed MSG control line"));
        }
        let (s0, e0) = bounds[0];
        let (s1, e1) = bounds[1];
        let (sz0, sz1) = bounds[count - 1];
        assert(f[0] == chars@.subrange(s0 as int, e0 as int));
        assert(f[1] == chars@.subrange(s1 as int, e1 as int));
        assert(f[count - 1] == chars@.subrange(sz0 as int, sz1 as int));
        let subject = Subject::from_text(remainder.substring_char(s0, e0));
        let sid = SubscriptionId::from_text(remainder.substring_char(s1, e1));
        let reply_to = if count == 4 {
            let (s2, e2) = bounds[2];
            assert(f[2] == chars@.subrange(s2 as int, e2 as int));
            Some(Subject::from_text(remainder.substring_char(s2, e2)))
        } else {
            None
        };
        let payload_size = match parse_usize(&chars, sz0, sz1) {
            Ok(n) => n,
            Err(k) => {
                return Err(
                    Error::NatsProtocol(
                        "invalid payload size in MSG: ".to_owned().concat(k.message()),
                    ),
                );
            },
        };
        if payload_size > input.len() {
            return Err(protocol_error("insufficient data for MSG payload"));
        }
        let payload = slice_subrange(input, 0, payload_size);
        let after = slice_subrange(input, payload_size, input.len());
        if !(after.len() >= 2 && after[0] == 0x0d && after[1] == 0x0a) {
            return Err(protocol_error("expected CRLF after MSG payload"));
        }
        let rest = slice_subrange(after, 2, after.len());
        assert(rest@ =~= input@.skip(payload_size + 2));
        assert(payload@ =~= input@.take(payload_size as int));
        let message = Message { subject, reply_to, payload: slice_to_vec(payload) };
        Ok((rest, ServerMessage::Msg((sid, message))))
    }

    /// Whether `data` starts with an `HMSG` control line, which [`Self::parse`]
    /// does not read.
    pub fn starts_with_hmsg(data: &[u8]) -> (r: bool)
        ensures
            r == is_hmsg(data@),
    {
        match Self::control_line(data) {
            Err(_) => false,
            Ok((_, line)) => {
                let chars = chars_of(line);
                let op_end = word_end(&chars, 0);
                assert(chars@.skip(0) =~= chars@);
                assert(chars@.subrange(0, op_end as int) =~= line_op(line@));
                segment_eq(&chars, 0, op_end, &chars_of("HMSG"))
            },
        }
    }

    /// Whether the head of `data` reads as a `PONG`, which a connection does
    /// not take in.
    pub fn starts_with_pong(data: &[u8]) -> (r: bool)
        ensures
            r == is_pong(data@),
    {
        if Self::starts_with_hmsg(data) {
            proof {
                reveal_strlit("HMSG");
                reveal_strlit("INFO");
                reveal_strlit("MSG");
                reveal_strlit("+OK");
                reveal_strlit("-ERR");
                reveal_strlit("PING");
                reveal_strlit("PONG");
                let line = control_line_spec(data@)->Ok_0.1;
                assert("HMSG"@[0] != "INFO"@[0]);
                assert(line_op(line) != "INFO"@);
                assert(line_op(line) != "MSG"@);
                assert(line_op(line) != "+OK"@);
                assert("HMSG"@[0] != "-ERR"@[0]);
                assert(line_op(line) != "-ERR"@);
                assert(line_op(line) != "PING"@);
                assert(line_op(line) != "PONG"@);
            }
            return false;
        }
        match Self::parse(data) {
            Ok((_, ServerMessage::Pong)) => true,
            _ => false,
        }
    }

    /// Reads one server message off the head of `data` and gives back the
    /// bytes after it together with the message. The result is exactly
    /// [`parse_spec`]; a message read takes at least one byte off `data`.
    pub fn parse(data: &[u8]) -> (r: Result<(&[u8], Self), Error>)
        requires
            !is_hmsg(data@),
        ensures
            match (r, parse_spec(data@)) {
                (Ok((rest, m)), Ok((srest, sm))) => rest@ == srest && m@ == sm,
                (Err(e), Err(se)) => e@ == se,
                _ => false,
            },
            r matches Ok((rest, _)) ==> rest@.len() + 2 <= data@.len() && rest@ == data@.skip(
                data@.len() - rest@.len(),
            ),
    {
        let (input, line) = match Self::control_line(data) {
            Ok(x) => x,
            Err(e) => {
                return Err(e);
            },
        };
        let chars = chars_of(line);
        let op_end = word_end(&chars, 0);
        let args_start = skip_spaces(&chars, op_end);
        assert(chars@.skip(0) =~= chars@);
        let ghost op = line_op(line@);
        let ghost args = line_args(line@);
        assert(chars@.subrange(0, op_end as int) =~= op);
        assert(chars@.skip(args_start as int) == args);
        let n = chars.len();
        let remainder = line.substring_char(args_start, n);
        assert(remainder@ =~= args);
        proof {
            lemma_parse_consumes(data@);
        }
        if segment_eq(&chars, 0, op_end, &chars_of("INFO")) {
            Self::parse_info(input, remainder)
        } else if segment_eq(&chars, 0, op_end, &chars_of("MSG")) {
            Self::parse_msg(input, remainder)
        } else if segment_eq(&chars, 0, op_end, &chars_of("HMSG")) {
            proof {
                assert(is_hmsg(data@));
            }
            unreached()
        } else if segment_eq(&chars, 0, op_end, &chars_of("+OK")) {
            if args_start != n {
                return Err(protocol_error("malformed +OK message"));
            }
            Ok((input, ServerMessage::ServerResult(Ok(()))))
        } else if segment_eq(&chars, 0, op_end, &chars_of("-ERR")) {
            if !(n - args_start >= 2 && chars[args_start] == '\'' && chars[n - 1] == '\'') {
                return Err(protocol_error("malformed -ERR message"));
            }
            let message = line.substring_char(args_start + 1, n - 1);
            assert(message@ =~= args.subrange(1, args.len() - 1));
            Ok((input, ServerMessage::ServerResult(Err(ServerError::from_message(message)))))
        } else if segment_eq(&chars, 0, op_end, &chars_of("PING")) {
            if args_start != n {
                return Err(protocol_error("malformed PING message"));
            }
            Ok((input, ServerMessage::Ping))
        } else if segment_eq(&chars, 0, op_end, &chars_of("PONG")) {
            if args_start != n {
                return Err(protocol_error("malformed PONG message"));
            }
            Ok((input, ServerMessage::Pong))
        } else {
            let op_name = line.substring_char(0, op_end);
            Err(Error::NatsProtocol("unknown server message op: ".to_owned().concat(op_name)))
        }
    }
}

/// What follows a control line is shorter than the data it was split off.
proof fn lemma_control_line_consumes(data: Seq<u8>)
    ensures
        control_line_spec(data) matches Ok((rest, _)) ==> rest.len() + 2 <= data.len() && rest
            == data.skip(data.len() - rest.len()),
{
    lemma_crlf_from(data, 0);
}

/// A `\r\n` found at or after `i` lies wholly inside `data`.
proof fn lemma_crlf_from(data: Seq<u8>, i: int)
    ensures
        crlf_from(data, i) matches Some(k) ==> 0 <= i <= k && k + 2 <= data.len(),
    decreases data.len() - i,
{
    if i >= 0 && i + 2 <= data.len() && !(data[i] == 0x0d && data[i + 1] == 0x0a) {
        lemma_crlf_from(data, i + 1);
    }
}

/// What follows a `MSG` payload is no longer than what the control line left.
proof fn lemma_msg_consumes(rest: Seq<u8>, args: Seq<char>)
    ensures
        msg_spec(rest, args) matches Ok((after, _)) ==> after.len() <= rest.len() && after
            == rest.skip(rest.len() - after.len()),
{
}

} // verus!

verus! {

proof fn lemma_crlf_prefix(a: Seq<u8>, b: Seq<u8>, i: int)
    ensures
        crlf_from(a, i) matches Some(k) ==> crlf_from(a + b, i) == Some(k),
    decreases a.len() - i,
{
    if i >= 0 && i + 2 <= a.len() {
        assert((a + b)[i] == a[i]);
        assert((a + b)[i + 1] == a[i + 1]);
        if !(a[i] == 0x0d && a[i + 1] == 0x0a) {
            lemma_crlf_prefix(a, b, i + 1);
        }
    }
}

proof fn lemma_control_line_extends(a: Seq<u8>, b: Seq<u8>)
    ensures
        control_line_spec(a) matches Ok((rest, line)) ==> control_line_spec(a + b) == Ok::<
            (Seq<u8>, Seq<char>),
            ErrorView,
        >((rest + b, line)),
{
    lemma_crlf_prefix(a, b, 0);
    lemma_crlf_from(a, 0);
    if let Some(k) = crlf_index(a) {
        assert((a + b).take(k) =~= a.take(k));
        assert((a + b).skip(k + 2) =~= a.skip(k + 2) + b);
    }
}

proof fn lemma_msg_extends(rest: Seq<u8>, b: Seq<u8>, args: Seq<char>)
    ensures
        msg_spec(rest, args) matches Ok((after, m)) ==> msg_spec(rest + b, args) == Ok::<
            (Seq<u8>, ServerMessageView),
            ErrorView,
        >((after + b, m)),
{
    if let Ok((after, m)) = msg_spec(rest, args) {
        let f = fields(args);
        let n = parse_usize_spec(f[f.len() - 1])->Ok_0;
        assert((rest + b)[n as int] == rest[n as int]);
        assert((rest + b)[n + 1] == rest[n + 1]);
        assert((rest + b).skip(n + 2) =~= rest.skip(n + 2) + b);
        assert((rest + b).take(n as int) =~= rest.take(n as int));
    }
}

/// Bytes that follow a server message do not change how it reads: if the
/// head of `a` reads as a message with `rest` after it, the head of `a + b`
/// reads as the same message with `rest + b` after it. This is what lets a
/// WebSocket message carry several server messages one after the other.
pub proof fn lemma_parse_extends(a: Seq<u8>, b: Seq<u8>)
    ensures
        parse_spec(a) matches Ok((rest, m)) ==> parse_spec(a + b) == Ok::<
            (Seq<u8>, ServerMessageView),
            ErrorView,
        >((rest + b, m)),
{
    lemma_control_line_extends(a, b);
    if let Ok((rest, line)) = control_line_spec(a) {
        lemma_msg_extends(rest, b, line_args(line));
    }
}

/// Reading a server message always takes at least a control line's `\r\n`
/// off the input, and what remains is the input's tail.
pub proof fn lemma_parse_consumes(data: Seq<u8>)
    ensures
        parse_spec(data) matches Ok((rest, _)) ==> rest.len() + 2 <= data.len() && rest == data.skip(
            data.len() - rest.len(),
        ),
{
    lemma_control_line_consumes(data);
    if let Ok((rest, line)) = control_line_spec(data) {
        lemma_msg_consumes(rest, line_args(line));
    }
}

} // verus!
