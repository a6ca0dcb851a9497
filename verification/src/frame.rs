//! The wire form in which the server delivers a message (`MSG`), and the law
//! that the parser reads every such frame back as the message it carries.
use crate::client_message::{
    client_bytes, control_line_text, crlf_bytes, optional_field, pub_fields, spaced,
    ClientMessageView,
};
use crate::decimal::{
    decimal, is_digit, lemma_decimal_roundtrip, lemma_decimal_shape, parse_usize_spec,
    IntErrorKind,
};
use crate::error::ErrorView;
use crate::message::MessageView;
use crate::server_error::ServerErrorView;
use crate::server_message::{
    control_line_spec, crlf_from, is_hmsg, lemma_parse_extends, line_args, line_op,
    parse_spec, protocol, ServerMessageView,
};
use crate::text::{contains_chars, fields, is_space, lemma_trim_start, trim_start, word_len};
use vstd::prelude::*;
use vstd::utf8::{
    encode_scalar, encode_utf8, encode_utf8_decode_utf8, encode_utf8_valid_utf8, is_ascii_chars,
    is_ascii_chars_encode_utf8,
};

verus! {

/// Text that can stand as one field of a control line: not empty and free of
/// whitespace.
pub open spec fn is_word(w: Seq<char>) -> bool {
    &&& w.len() > 0
    &&& forall|i: int| 0 <= i < w.len() ==> !is_space(#[trigger] w[i])
}

/// The fields of a `MSG` line for a message delivered to subscription `sid`.
pub open spec fn msg_fields(sid: Seq<char>, m: MessageView) -> Seq<Seq<char>> {
    seq![m.subject, sid] + optional_field(m.reply_to) + seq![decimal(m.payload.len())]
}

/// The bytes in which the server delivers message `m` to subscription `sid`:
/// `MSG <subject> <sid> [reply-to] <size>\r\n<payload>\r\n`.
pub open spec fn msg_frame(sid: Seq<char>, m: MessageView) -> Seq<u8> {
    encode_utf8(control_line_text("MSG"@, msg_fields(sid, m))) + m.payload + crlf_bytes()
}

pub(crate) proof fn lemma_encode_concat(x: Seq<char>, y: Seq<char>)
    ensures
        encode_utf8(x + y) == encode_utf8(x) + encode_utf8(y),
    decreases x.len(),
{
    if x.len() == 0 {
        assert(x + y =~= y);
    } else {
        assert((x + y).drop_first() =~= x.drop_first() + y);
        assert((x + y)[0] == x[0]);
        lemma_encode_concat(x.drop_first(), y);
        assert(encode_utf8(x + y) =~= encode_utf8(x) + encode_utf8(y));
    }
}

proof fn lemma_scalar_no_cr(s: u32)
    requires
        s != 0x0d,
    ensures
        forall|j: int| 0 <= j < encode_scalar(s).len() ==> encode_scalar(s)[j] != 0x0d,
{
    assert(s <= 0x7f ==> (s & 0x7F) as u8 != 0x0d) by (bit_vector)
        requires
            s != 0x0d,
    ;
    assert(0xC0 | ((s >> 6) & 0x1F) as u8 != 0x0d) by (bit_vector);
    assert(0xE0 | ((s >> 12) & 0x0F) as u8 != 0x0d) by (bit_vector);
    assert(0xF0 | ((s >> 18) & 0x7) as u8 != 0x0d) by (bit_vector);
    assert(0x80 | (s & 0x3F) as u8 != 0x0d) by (bit_vector);
    assert(0x80 | ((s >> 6) & 0x3F) as u8 != 0x0d) by (bit_vector);
    assert(0x80 | ((s >> 12) & 0x3F) as u8 != 0x0d) by (bit_vector);
}

/// Text without a carriage return encodes to bytes without 0x0d.
proof fn lemma_encode_no_cr(x: Seq<char>)
    requires
        forall|i: int| 0 <= i < x.len() ==> (#[trigger] x[i]) as u32 != 0x0d,
    ensures
        forall|j: int| 0 <= j < encode_utf8(x).len() ==> #[trigger] encode_utf8(x)[j] != 0x0d,
    decreases x.len(),
{
    if x.len() > 0 {
        assert((x[0] as u32) != 0x0d);
        lemma_scalar_no_cr(x[0] as u32);
        assert forall|i: int| 0 <= i < x.drop_first().len() implies (#[trigger] x.drop_first()[i])
            as u32 != 0x0d by {
            assert(x.drop_first()[i] == x[i + 1]);
        }
        lemma_encode_no_cr(x.drop_first());
        let e0 = encode_scalar(x[0] as u32);
        let er = encode_utf8(x.drop_first());
        assert forall|j: int| 0 <= j < encode_utf8(x).len() implies #[trigger] encode_utf8(x)[j]
            != 0x0d by {
            if j < e0.len() {
                assert(encode_utf8(x)[j] == e0[j]);
            } else {
                assert(encode_utf8(x)[j] == er[j - e0.len()]);
            }
        }
    }
}

/// In bytes without 0x0d before index `k`, the first `\r\n` at or after `i`
/// is the one at `k`.
proof fn lemma_crlf_at(data: Seq<u8>, i: int, k: int)
    requires
        0 <= i <= k,
        k + 2 <= data.len(),
        data[k] == 0x0d,
        data[k + 1] == 0x0a,
        forall|j: int| i <= j < k ==> #[trigger] data[j] != 0x0d,
    ensures
        crlf_from(data, i) == Some(k),
    decreases k - i,
{
    if i < k {
        lemma_crlf_at(data, i + 1, k);
    }
}

/// Whether `\r\n` starts at index `i` of the text.
pub open spec fn crlf_char_at(t: Seq<char>, i: int) -> bool {
    t[i] as u32 == 0x0d && t[i + 1] as u32 == 0x0a
}

/// The text holds no `\r\n`.
pub open spec fn no_crlf(t: Seq<char>) -> bool {
    forall|i: int| 0 <= i && i + 1 < t.len() ==> !#[trigger] crlf_char_at(t, i)
}

/// Whether the bytes `\r\n` start at index `j`.
spec fn crlf_byte_at(b: Seq<u8>, j: int) -> bool {
    b[j] == 0x0d && b[j + 1] == 0x0a
}

/// Only the carriage return encodes to a 0x0d byte, and it encodes to that
/// byte alone; only the line feed encodes to bytes that start with 0x0a.
proof fn lemma_scalar_cr_lf(s: u32)
    ensures
        encode_scalar(s).len() > 0,
        s != 0x0d ==> forall|j: int|
            0 <= j < encode_scalar(s).len() ==> encode_scalar(s)[j] != 0x0d,
        s == 0x0d ==> encode_scalar(s) == seq![0x0du8],
        encode_scalar(s)[0] == 0x0a ==> s == 0x0a,
{
    if s != 0x0d {
        lemma_scalar_no_cr(s);
    }
    assert(s <= 0x7f ==> ((s & 0x7F) as u8 == 0x0a ==> s == 0x0a)) by (bit_vector);
    assert(s == 0x0d ==> (s & 0x7F) as u8 == 0x0d) by (bit_vector);
    assert(0xC0 | ((s >> 6) & 0x1F) as u8 != 0x0a) by (bit_vector);
    assert(0xE0 | ((s >> 12) & 0x0F) as u8 != 0x0a) by (bit_vector);
    assert(0xF0 | ((s >> 18) & 0x7) as u8 != 0x0a) by (bit_vector);
}

/// Text without `\r\n` encodes to bytes without `\r\n`.
proof fn lemma_encode_no_crlf(x: Seq<char>)
    requires
        no_crlf(x),
    ensures
        forall|j: int|
            0 <= j && j + 1 < encode_utf8(x).len() ==> !#[trigger] crlf_byte_at(encode_utf8(x), j),
    decreases x.len(),
{
    if x.len() > 0 {
        let c = x[0] as u32;
        let rest = x.drop_first();
        assert forall|i: int| 0 <= i && i + 1 < rest.len() implies !#[trigger] crlf_char_at(
            rest,
            i,
        ) by {
            assert(!crlf_char_at(x, i + 1));
            assert(rest[i] == x[i + 1]);
            assert(rest[i + 1] == x[i + 2]);
        }
        lemma_encode_no_crlf(rest);
        lemma_scalar_cr_lf(c);
        let e0 = encode_scalar(c);
        let er = encode_utf8(rest);
        let e = encode_utf8(x);
        assert(e =~= e0 + er);
        assert forall|j: int| 0 <= j && j + 1 < e.len() implies !#[trigger] crlf_byte_at(e, j) by {
            if j + 1 < e0.len() {
                assert(e[j] == e0[j]);
            } else if j + 1 == e0.len() {
                assert(e[j] == e0[j]);
                assert(e[j + 1] == er[0]);
                if e[j] == 0x0d {
                    assert(c == 0x0d);
                    assert(rest.len() > 0);
                    let c1 = rest[0] as u32;
                    lemma_scalar_cr_lf(c1);
                    assert(er =~= encode_scalar(c1) + encode_utf8(rest.drop_first()));
                    if er[0] == 0x0a {
                        assert(c1 == 0x0a);
                        assert(x[1] == rest[0]);
                        assert(crlf_char_at(x, 0));
                    }
                }
            } else {
                assert(e[j] == er[j - e0.len()]);
                assert(e[j + 1] == er[j + 1 - e0.len()]);
                assert(!crlf_byte_at(er, j - e0.len()));
            }
        }
    }
}

/// In bytes without `\r\n` from `i` up to `k`, the first `\r\n` at or after
/// `i` is the one at `k`.
proof fn lemma_crlf_first(data: Seq<u8>, i: int, k: int)
    requires
        0 <= i <= k,
        k + 2 <= data.len(),
        crlf_byte_at(data, k),
        forall|j: int| i <= j < k ==> !#[trigger] crlf_byte_at(data, j),
    ensures
        crlf_from(data, i) == Some(k),
    decreases k - i,
{
    if i < k {
        assert(!crlf_byte_at(data, i));
        lemma_crlf_first(data, i + 1, k);
    }
}

/// Two texts without `\r\n` joined without forming one at the seam hold none.
proof fn lemma_no_crlf_concat(a: Seq<char>, b: Seq<char>)
    requires
        no_crlf(a),
        no_crlf(b),
        a.len() > 0 && b.len() > 0 ==> !(a.last() as u32 == 0x0d && b[0] as u32 == 0x0a),
    ensures
        no_crlf(a + b),
{
    let ab = a + b;
    assert forall|i: int| 0 <= i && i + 1 < ab.len() implies !#[trigger] crlf_char_at(ab, i) by {
        if i + 1 < a.len() {
            assert(ab[i] == a[i]);
            assert(ab[i + 1] == a[i + 1]);
            assert(!crlf_char_at(a, i));
        } else if i + 1 == a.len() {
            assert(ab[i] == a.last());
            assert(ab[i + 1] == b[0]);
        } else {
            assert(ab[i] == b[i - a.len()]);
            assert(ab[i + 1] == b[i + 1 - a.len()]);
            assert(!crlf_char_at(b, i - a.len()));
        }
    }
}

proof fn lemma_spaced_front(w: Seq<char>, rest: Seq<Seq<char>>)
    ensures
        spaced(seq![w] + rest) == seq![' '] + w + spaced(rest),
    decreases rest.len(),
{
    reveal_strlit(" ");
    assert(" "@ =~= seq![' ']);
    if rest.len() == 0 {
        assert(seq![w] + rest =~= seq![w]);
        assert(seq![w].drop_last() =~= Seq::<Seq<char>>::empty());
        assert(spaced(Seq::<Seq<char>>::empty()) =~= Seq::<char>::empty());
        assert(spaced(rest) =~= Seq::<char>::empty());
        assert(seq![w].last() == w);
        assert(spaced(seq![w]) == spaced(seq![w].drop_last()) + " "@ + w);
        assert(spaced(seq![w]) =~= seq![' '] + w + spaced(rest));
    } else {
        assert((seq![w] + rest).drop_last() =~= seq![w] + rest.drop_last());
        assert((seq![w] + rest).last() == rest.last());
        lemma_spaced_front(w, rest.drop_last());
        assert(spaced(seq![w] + rest) =~= seq![' '] + w + spaced(rest));
    }
}

proof fn lemma_word_len_prefix(w: Seq<char>, r: Seq<char>)
    requires
        forall|i: int| 0 <= i < w.len() ==> !is_space(#[trigger] w[i]),
        r.len() == 0 || is_space(r[0]),
    ensures
        word_len(w + r) == w.len(),
    decreases w.len(),
{
    if w.len() == 0 {
        assert(w + r =~= r);
    } else {
        assert((w + r)[0] == w[0]);
        assert((w + r).drop_first() =~= w.drop_first() + r);
        assert forall|i: int| 0 <= i < w.drop_first().len() implies !is_space(
            #[trigger] w.drop_first()[i],
        ) by {
            assert(w.drop_first()[i] == w[i + 1]);
        }
        lemma_word_len_prefix(w.drop_first(), r);
    }
}

proof fn lemma_trim_idempotent(s: Seq<char>)
    ensures
        trim_start(trim_start(s)) == trim_start(s),
{
    lemma_trim_start(s);
}

/// The words of a line made of words, each after one space, are those words.
proof fn lemma_fields_spaced(fs: Seq<Seq<char>>)
    requires
        forall|k: int| 0 <= k < fs.len() ==> is_word(#[trigger] fs[k]),
    ensures
        fields(spaced(fs)) == fs,
    decreases fs.len(),
{
    if fs.len() == 0 {
        assert(spaced(fs) =~= Seq::<char>::empty());
        assert(fields(spaced(fs)) =~= fs);
    } else {
        let w = fs[0];
        let rest = fs.drop_first();
        assert(fs =~= seq![w] + rest);
        assert(is_word(w));
        lemma_spaced_front(w, rest);
        let s = spaced(fs);
        let t = w + spaced(rest);
        assert(s =~= seq![' '] + t);
        assert(is_space(' '));
        assert(s.drop_first() =~= t);
        assert(t[0] == w[0]);
        assert(trim_start(s) == trim_start(t));
        assert(trim_start(t) == t);
        if rest.len() > 0 {
            lemma_spaced_front(rest[0], rest.drop_first());
            assert(rest =~= seq![rest[0]] + rest.drop_first());
        } else {
            assert(spaced(rest) =~= Seq::<char>::empty());
        }
        lemma_word_len_prefix(w, spaced(rest));
        assert(t.take(w.len() as int) =~= w);
        assert(t.skip(w.len() as int) =~= spaced(rest));
        assert forall|k: int| 0 <= k < rest.len() implies is_word(#[trigger] rest[k]) by {
            assert(rest[k] == fs[k + 1]);
        }
        lemma_fields_spaced(rest);
        assert(fields(s) =~= seq![w] + rest);
    }
}

/// The server's wire form of a delivered message reads back as that message:
/// whenever the subject, the subscription ID and the reply-to subject are
/// words (not empty, no whitespace) and the payload's size fits a `usize`,
/// the head of `msg_frame(sid, m)` followed by any bytes `tail` reads as the
/// message `m` for subscription `sid`, with exactly `tail` left over. Such a
/// frame is never taken for an `HMSG` line.
pub proof fn lemma_msg_frame_parses(sid: Seq<char>, m: MessageView, tail: Seq<u8>)
    requires
        is_word(m.subject),
        is_word(sid),
        m.reply_to matches Some(r) ==> is_word(r),
        m.payload.len() <= usize::MAX,
    ensures
        parse_spec(msg_frame(sid, m) + tail) == Ok::<(Seq<u8>, ServerMessageView), ErrorView>(
            (tail, ServerMessageView::Msg(sid, m)),
        ),
        !is_hmsg(msg_frame(sid, m) + tail),
{
    reveal_strlit("MSG");
    reveal_strlit("HMSG");
    reveal_strlit("INFO");
    reveal_strlit("\r\n");
    let n = m.payload.len();
    let fs = msg_fields(sid, m);
    lemma_decimal_shape(n);
    lemma_decimal_roundtrip(n as usize);
    let dec = decimal(n);
    assert(is_word(dec)) by {
        assert forall|i: int| 0 <= i < dec.len() implies !is_space(#[trigger] dec[i]) by {
            assert(is_digit(dec[i]));
        }
    }
    assert forall|k: int| 0 <= k < fs.len() implies is_word(#[trigger] fs[k]) by {
        if m.reply_to is Some {
            assert(fs =~= seq![m.subject, sid, m.reply_to->0, dec]);
        } else {
            assert(fs =~= seq![m.subject, sid, dec]);
        }
    }
    let body = "MSG"@ + spaced(fs);
    let line = control_line_text("MSG"@, fs);
    assert(line =~= body + "\r\n"@);
    // The body of the line has no carriage return, so the line ends at the
    // first `\r\n` of the frame.
    assert forall|i: int| 0 <= i < body.len() implies (#[trigger] body[i]) as u32 != 0x0d by {
        if i >= 3 {
            lemma_no_cr_in_spaced(fs, i - 3);
            assert(body[i] == spaced(fs)[i - 3]);
        }
    }
    lemma_encode_no_cr(body);
    lemma_encode_concat(body, "\r\n"@);
    assert(is_ascii_chars("\r\n"@));
    is_ascii_chars_encode_utf8("\r\n"@);
    let eb = encode_utf8(body);
    let frame = msg_frame(sid, m);
    assert(frame =~= eb + (encode_utf8("\r\n"@) + m.payload + crlf_bytes()));
    assert(frame[eb.len() as int] == 0x0d);
    assert(frame[eb.len() as int + 1] == 0x0a);
    assert forall|j: int| 0 <= j < eb.len() implies #[trigger] frame[j] != 0x0d by {
        assert(frame[j] == eb[j]);
    }
    lemma_crlf_at(frame, 0, eb.len() as int);
    assert(frame.take(eb.len() as int) =~= eb);
    encode_utf8_valid_utf8(body);
    encode_utf8_decode_utf8(body);
    let rest = frame.skip(eb.len() as int + 2);
    assert(rest =~= m.payload + crlf_bytes());
    assert(control_line_spec(frame) == Ok::<(Seq<u8>, Seq<char>), ErrorView>((rest, body)));
    // The operation is `MSG` and its arguments are the fields.
    lemma_spaced_front(fs[0], fs.drop_first());
    assert(fs =~= seq![fs[0]] + fs.drop_first());
    lemma_word_len_prefix("MSG"@, spaced(fs));
    assert(line_op(body) =~= "MSG"@);
    assert(body.skip(3) =~= spaced(fs));
    lemma_fields_spaced(fs);
    lemma_trim_idempotent(spaced(fs));
    assert(fields(line_args(body)) == fs);
    assert(rest[n as int] == 0x0d);
    assert(rest[n as int + 1] == 0x0a);
    assert(rest.skip(n as int + 2) =~= Seq::<u8>::empty());
    assert(rest.take(n as int) =~= m.payload);
    if m.reply_to is Some {
        assert(fs =~= seq![m.subject, sid, m.reply_to->0, dec]);
    } else {
        assert(fs =~= seq![m.subject, sid, dec]);
    }
    assert(parse_spec(frame) == Ok::<(Seq<u8>, ServerMessageView), ErrorView>(
        (Seq::<u8>::empty(), ServerMessageView::Msg(sid, m)),
    ));
    lemma_parse_extends(frame, tail);
    assert(Seq::<u8>::empty() + tail =~= tail);
    assert(control_line_spec(frame + tail) == Ok::<(Seq<u8>, Seq<char>), ErrorView>((rest + tail, body))) by {
        lemma_crlf_at(frame + tail, 0, eb.len() as int);
        assert((frame + tail).take(eb.len() as int) =~= eb);
        assert((frame + tail).skip(eb.len() as int + 2) =~= rest + tail);
    }
}

/// No character of a line made of words and spaces is a carriage return.
proof fn lemma_no_cr_in_spaced(fs: Seq<Seq<char>>, i: int)
    requires
        forall|k: int| 0 <= k < fs.len() ==> is_word(#[trigger] fs[k]),
        0 <= i < spaced(fs).len(),
    ensures
        spaced(fs)[i] as u32 != 0x0d,
    decreases fs.len(),
{
    reveal_strlit(" ");
    assert(" "@ =~= seq![' ']);
    if fs.len() > 0 {
        let prefix = spaced(fs.drop_last());
        let w = fs.last();
        assert(is_word(fs[fs.len() - 1]));
        assert(spaced(fs) == prefix + " "@ + w);
        if i < prefix.len() {
            assert forall|k: int| 0 <= k < fs.drop_last().len() implies is_word(
                #[trigger] fs.drop_last()[k],
            ) by {
                assert(fs.drop_last()[k] == fs[k]);
            }
            lemma_no_cr_in_spaced(fs.drop_last(), i);
            assert(spaced(fs)[i] == prefix[i]);
        } else if i == prefix.len() {
            assert(spaced(fs)[i] == ' ');
        } else {
            assert(spaced(fs)[i] == w[i - prefix.len() - 1]);
            assert(!is_space(w[i - prefix.len() - 1]));
        }
    }
}



/// A control line made of an operation name `op` (a word) and a text `r` that
/// is empty or starts with whitespace and holds no `\r\n`, sent as UTF-8 and
/// followed by `\r\n` and any bytes `after`, is read as that line with
/// `after` left over: its operation is `op` and its arguments are `r` without
/// leading whitespace.
proof fn lemma_op_line(op: Seq<char>, r: Seq<char>, after: Seq<u8>)
    requires
        is_word(op),
        r.len() == 0 || is_space(r[0]),
        no_crlf(r),
    ensures
        control_line_spec(encode_utf8(op + r + "\r\n"@) + after) == Ok::<
            (Seq<u8>, Seq<char>),
            ErrorView,
        >((after, op + r)),
        line_op(op + r) == op,
        line_args(op + r) == trim_start(r),
{
    reveal_strlit("\r\n");
    let body = op + r;
    assert(no_crlf(op)) by {
        assert forall|i: int| 0 <= i && i + 1 < op.len() implies !#[trigger] crlf_char_at(op, i) by {
            assert(!is_space(op[i]));
        }
    }
    assert(!is_space(op.last()));
    lemma_no_crlf_concat(op, r);
    lemma_encode_no_crlf(body);
    lemma_encode_concat(body, "\r\n"@);
    assert(is_ascii_chars("\r\n"@));
    is_ascii_chars_encode_utf8("\r\n"@);
    let eb = encode_utf8(body);
    let bytes = encode_utf8(body + "\r\n"@) + after;
    assert(bytes =~= eb + (encode_utf8("\r\n"@) + after));
    assert(bytes[eb.len() as int] == 0x0d);
    assert(bytes[eb.len() as int + 1] == 0x0a);
    assert forall|j: int| 0 <= j < eb.len() implies !#[trigger] crlf_byte_at(bytes, j) by {
        assert(bytes[j] == eb[j]);
        if j + 1 < eb.len() {
            assert(bytes[j + 1] == eb[j + 1]);
            assert(!crlf_byte_at(eb, j));
        } else {
            assert(bytes[j + 1] == 0x0d);
        }
    }
    lemma_crlf_first(bytes, 0, eb.len() as int);
    assert(bytes.take(eb.len() as int) =~= eb);
    encode_utf8_valid_utf8(body);
    encode_utf8_decode_utf8(body);
    assert(bytes.skip(eb.len() as int + 2) =~= after);
    lemma_word_len_prefix(op, r);
    assert(body.take(op.len() as int) =~= op);
    assert(body.skip(op.len() as int) =~= r);
}

/// An `INFO` line is accepted exactly when its arguments mention `"proto":1`,
/// wherever that stands: for any arguments `args` that hold no `\r\n`,
/// `INFO <args>\r\n` followed by any bytes `tail` reads as `INFO` with the
/// arguments (without leading whitespace) as the server's description and
/// `tail` left over if they contain `"proto":1`, and as the error
/// "unsupported NATS protocol version" if they do not.
pub proof fn lemma_info_line(args: Seq<char>, tail: Seq<u8>)
    requires
        no_crlf(args),
    ensures
        parse_spec(encode_utf8("INFO "@ + args + "\r\n"@) + tail) == (if contains_chars(
            trim_start(args),
            "\"proto\":1"@,
        ) {
            Ok::<(Seq<u8>, ServerMessageView), ErrorView>(
                (tail, ServerMessageView::Info(trim_start(args))),
            )
        } else {
            Err::<(Seq<u8>, ServerMessageView), ErrorView>(
                protocol("unsupported NATS protocol version"@),
            )
        }),
{
    reveal_strlit("INFO ");
    reveal_strlit("INFO");
    reveal_strlit(" ");
    reveal_strlit("MSG");
    let op = "INFO"@;
    let r = " "@ + args;
    assert("INFO "@ =~= op + " "@);
    assert("INFO "@ + args =~= op + r);
    assert(is_space(r[0]));
    lemma_no_crlf_concat(" "@, args);
    lemma_op_line(op, r, tail);
    assert(r.drop_first() =~= args);
    assert(trim_start(r) == trim_start(args));
}

/// An `INFO` whose arguments start with a non-blank character and contain
/// `"proto":1` anywhere is accepted with exactly those arguments as the
/// server's description.
pub proof fn lemma_info_accepted(args: Seq<char>, tail: Seq<u8>)
    requires
        no_crlf(args),
        args.len() > 0,
        !is_space(args[0]),
        contains_chars(args, "\"proto\":1"@),
    ensures
        parse_spec(encode_utf8("INFO "@ + args + "\r\n"@) + tail) == Ok::<
            (Seq<u8>, ServerMessageView),
            ErrorView,
        >((tail, ServerMessageView::Info(args))),
{
    lemma_info_line(args, tail);
}

/// Which server error an `-ERR` text names: `InvalidSubject` for exactly the
/// text `Invalid Subject`, and any other text kept as it is.
pub open spec fn named_server_error(t: Seq<char>) -> ServerErrorView {
    if t =~= "Invalid Subject"@ {
        ServerErrorView::InvalidSubject
    } else {
        ServerErrorView::Other(t)
    }
}

/// An `-ERR '<text>'` line, for any text that holds no `\r\n` and
/// followed by any bytes `tail`, reads as a failed server result that keeps
/// the text: the error `InvalidSubject` exactly when the text is
/// `Invalid Subject`, and otherwise the error `Other` with the text itself;
/// `tail` is left over.
pub proof fn lemma_err_line(t: Seq<char>, tail: Seq<u8>)
    requires
        no_crlf(t),
    ensures
        parse_spec(encode_utf8("-ERR '"@ + t + "'\r\n"@) + tail) == Ok::<
            (Seq<u8>, ServerMessageView),
            ErrorView,
        >((tail, ServerMessageView::ServerResult(Err(named_server_error(t))))),
{
    reveal_strlit("-ERR '");
    reveal_strlit("'\r\n");
    reveal_strlit("\r\n");
    reveal_strlit("-ERR");
    reveal_strlit("INFO");
    reveal_strlit("MSG");
    reveal_strlit("+OK");
    reveal_strlit("Invalid Subject");
    let op = "-ERR"@;
    let args = seq!['\''] + t + seq!['\''];
    let r = seq![' '] + args;
    assert("-ERR '"@ + t + "'\r\n"@ =~= op + r + "\r\n"@);
    assert(is_word(op));
    assert(is_space(r[0]));
    lemma_no_crlf_concat(seq!['\''], t);
    lemma_no_crlf_concat(seq!['\''] + t, seq!['\'']);
    lemma_no_crlf_concat(seq![' '], args);
    lemma_op_line(op, r, tail);
    assert(r.drop_first() =~= args);
    assert(trim_start(r) == trim_start(args));
    assert(!is_space(args[0]));
    assert(trim_start(args) == args);
    assert(args.subrange(1, args.len() - 1) =~= t);
    assert("-ERR"@[0] != "INFO"@[0]);
    assert(op != "INFO"@);
    assert(op != "MSG"@);
    assert(op != "+OK"@);
    if t =~= "Invalid Subject"@ {
        assert(t == "Invalid Subject"@);
    } else {
        assert(t != "Invalid Subject"@);
    }
}


/// The words of `s` do not change with whitespace put in front of it.
proof fn lemma_fields_leading_space(s: Seq<char>)
    ensures
        fields(seq![' '] + s) == fields(s),
{
    let x = seq![' '] + s;
    assert(is_space(' '));
    assert(x.drop_first() =~= s);
    assert(trim_start(x) == trim_start(s));
}

/// The bytes that publish a message carry its subject, its reply-to and its
/// payload: whenever the subject and reply-to are words and the payload's size
/// fits a `usize`, the bytes for `Pub(m)` are a control line whose words are
/// `PUB`, the subject, the reply-to if there is one, and a size that reads
/// back as the payload's length, and after that line's `\r\n` come exactly
/// the payload and `\r\n`.
pub proof fn lemma_pub_bytes(m: MessageView)
    requires
        is_word(m.subject),
        m.reply_to matches Some(r) ==> is_word(r),
        m.payload.len() <= usize::MAX,
    ensures
        control_line_spec(client_bytes(ClientMessageView::Pub(m))) matches Ok((rest, line)) && {
            let f = fields(line);
            &&& rest == m.payload + seq![0x0du8, 0x0au8]
            &&& f.len() == (if m.reply_to is Some {
                4int
            } else {
                3int
            })
            &&& f[0] == "PUB"@
            &&& f[1] == m.subject
            &&& (m.reply_to matches Some(r) ==> f[2] == r)
            &&& parse_usize_spec(f[f.len() - 1]) == Ok::<usize, IntErrorKind>(
                m.payload.len() as usize,
            )
        },
{
    reveal_strlit("PUB");
    reveal_strlit("\r\n");
    let n = m.payload.len();
    let fs = pub_fields(m);
    lemma_decimal_shape(n);
    lemma_decimal_roundtrip(n as usize);
    let dec = decimal(n);
    assert(is_word(dec)) by {
        assert forall|i: int| 0 <= i < dec.len() implies !is_space(#[trigger] dec[i]) by {
            assert(is_digit(dec[i]));
        }
    }
    if m.reply_to is Some {
        assert(fs =~= seq![m.subject, m.reply_to->0, dec]);
    } else {
        assert(fs =~= seq![m.subject, dec]);
    }
    assert forall|k: int| 0 <= k < fs.len() implies is_word(#[trigger] fs[k]) by {}
    let op = "PUB"@;
    assert(is_word(op));
    lemma_spaced_front(fs[0], fs.drop_first());
    assert(fs =~= seq![fs[0]] + fs.drop_first());
    let r = spaced(fs);
    assert(is_space(r[0]));
    assert forall|i: int| 0 <= i && i + 1 < r.len() implies !#[trigger] crlf_char_at(r, i) by {
        lemma_no_cr_in_spaced(fs, i);
    }
    let after = m.payload + crlf_bytes();
    assert(control_line_text(op, fs) =~= op + r + "\r\n"@);
    assert(client_bytes(ClientMessageView::Pub(m)) =~= encode_utf8(op + r + "\r\n"@) + after);
    lemma_op_line(op, r, after);
    let line = op + r;
    // The words of the line: `PUB`, then the fields.
    let all = seq![op] + fs;
    assert forall|k: int| 0 <= k < all.len() implies is_word(#[trigger] all[k]) by {
        if k > 0 {
            assert(all[k] == fs[k - 1]);
        }
    }
    lemma_fields_spaced(all);
    lemma_spaced_front(op, fs);
    assert(spaced(all) =~= seq![' '] + line);
    lemma_fields_leading_space(line);
    assert(fields(line) == all);
    assert(all[0] == op);
    assert(all[1] == fs[0]);
}

} // verus!
