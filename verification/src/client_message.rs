//! Messages from the client, and how they are written on the wire.
use crate::decimal::{decimal, decimal_string};
use crate::message::{Message, MessageView};
use crate::sid::SubscriptionId;
use vstd::prelude::*;
use vstd::utf8::encode_utf8;

verus! {

/// A message from the client to the server.
pub enum ClientMessage {
    /// `PUB`: publish a message.
    Pub(Message),
    /// `SUB`: subscribe to a subject, optionally in a queue group.
    Sub { subject: String, queue_group: Option<String>, sid: SubscriptionId },
    /// `UNSUB`: end a subscription, optionally after a number of messages.
    Unsub { sid: SubscriptionId, max_msgs: Option<u32> },
    /// `PONG`: the answer to a `PING`.
    Pong,
}

/// The model of a [`ClientMessage`].
pub enum ClientMessageView {
    Pub(MessageView),
    Sub { subject: Seq<char>, queue_group: Option<Seq<char>>, sid: Seq<char> },
    Unsub { sid: Seq<char>, max_msgs: Option<u32> },
    Pong,
}

impl View for ClientMessage {
    type V = ClientMessageView;

    open spec fn view(&self) -> ClientMessageView {
        match self {
            ClientMessage::Pub(m) => ClientMessageView::Pub(m@),
            ClientMessage::Sub { subject, queue_group, sid } => ClientMessageView::Sub {
                subject: subject@,
                queue_group: match queue_group {
                    Some(q) => Some(q@),
                    None => None,
                },
                sid: sid@,
            },
            ClientMessage::Unsub { sid, max_msgs } => ClientMessageView::Unsub {
                sid: sid@,
                max_msgs: *max_msgs,
            },
            ClientMessage::Pong => ClientMessageView::Pong,
        }
    }
}

/// The fields, each preceded by one space.
pub open spec fn spaced(fields: Seq<Seq<char>>) -> Seq<char>
    decreases fields.len(),
{
    if fields.len() == 0 {
        Seq::empty()
    } else {
        spaced(fields.drop_last()) + " "@ + fields.last()
    }
}

/// A control line: the operation name, the fields, each after a space, and
/// `\r\n`.
pub open spec fn control_line_text(op: Seq<char>, fields: Seq<Seq<char>>) -> Seq<char> {
    op + spaced(fields) + "\r\n"@
}

/// `\r\n` as bytes.
pub open spec fn crlf_bytes() -> Seq<u8> {
    seq![0x0du8, 0x0au8]
}

/// An optional field: nothing, or the one field.
pub open spec fn optional_field(f: Option<Seq<char>>) -> Seq<Seq<char>> {
    match f {
        Some(x) => seq![x],
        None => Seq::empty(),
    }
}

/// The fields of a `PUB` line: subject, reply-to if any, payload size.
pub open spec fn pub_fields(m: MessageView) -> Seq<Seq<char>> {
    seq![m.subject] + optional_field(m.reply_to) + seq![decimal(m.payload.len())]
}

/// The bytes that the client sends for a message.
pub open spec fn client_bytes(m: ClientMessageView) -> Seq<u8> {
    match m {
        ClientMessageView::Pub(msg) => encode_utf8(control_line_text("PUB"@, pub_fields(msg)))
            + msg.payload + crlf_bytes(),
        ClientMessageView::Sub { subject, queue_group, sid } => encode_utf8(
            control_line_text("SUB"@, seq![subject] + optional_field(queue_group) + seq![sid]),
        ),
        ClientMessageView::Unsub { sid, max_msgs } => encode_utf8(
            control_line_text(
                "UNSUB"@,
                seq![sid] + optional_field(
                    match max_msgs {
                        Some(n) => Some(decimal(n as nat)),
                        None => None,
                    },
                ),
            ),
        ),
        ClientMessageView::Pong => encode_utf8(control_line_text("PONG"@, Seq::empty())),
    }
}

/// The text of each string in `fields`.
pub open spec fn texts(fields: Seq<&str>) -> Seq<Seq<char>> {
    fields.map_values(|f: &str| f@)
}

impl ClientMessage {
    /// The bytes that the client sends for this message: a control line,
    /// followed for `PUB` by the payload and `\r\n`.
    pub fn to_nats_protocol(&self) -> (bytes: Vec<u8>)
        ensures
            bytes@ == client_bytes(self@),
    {
        match self {
            ClientMessage::Pub(message) => {
                let mut fields: Vec<&str> = vec![message.subject.as_str()];
                if let Some(reply_to) = &message.reply_to {
                    fields.push(reply_to.as_str());
                }
                let payload_len = decimal_string(message.payload.len() as u64);
                fields.push(payload_len.as_str());
                assert(texts(fields@) =~= pub_fields(message@));
                let control_line = Self::control_line("PUB", fields.as_slice());
                let mut result = control_line.as_str().as_bytes_vec();
                let ghost head = result@;
                result.extend_from_slice(message.payload.as_slice());
                assert(result@ =~= head + message.payload@) by {
                    assert forall|i: int| 0 <= i < message.payload@.len() implies result@[head.len()
                        + i] == message.payload@[i] by {
                        assert(result@[head.len() + i] == message.payload@[i]);
                    }
                }
                result.push(0x0d);
                result.push(0x0a);
                assert(result@ =~= head + message.payload@ + crlf_bytes());
                result
            },
            ClientMessage::Sub { subject, queue_group, sid } => {
                let mut fields: Vec<&str> = vec![subject.as_str()];
                if let Some(qg) = queue_group {
                    fields.push(qg.as_str());
                }
                fields.push(sid.as_str());
                assert(texts(fields@) =~= seq![subject@] + optional_field(
                    match queue_group {
                        Some(q) => Some(q@),
                        None => None,
                    },
                ) + seq![sid@]);
                Self::control_line("SUB", fields.as_slice()).as_str().as_bytes_vec()
            },
            ClientMessage::Unsub { sid, max_msgs } => {
                let mut fields: Vec<&str> = vec![sid.as_str()];
                let max_text = match max_msgs {
                    Some(m) => Some(decimal_string(*m as u64)),
                    None => None,
                };
                if let Some(t) = &max_text {
                    fields.push(t.as_str());
                }
                assert(texts(fields@) =~= seq![sid@] + optional_field(
                    match max_msgs {
                        Some(n) => Some(decimal(*n as nat)),
                        None => None,
                    },
                ));
                Self::control_line("UNSUB", fields.as_slice()).as_str().as_bytes_vec()
            },
            ClientMessage::Pong => {
                let fields: Vec<&str> = Vec::new();
                assert(texts(fields@) =~= Seq::<Seq<char>>::empty());
                Self::control_line("PONG", fields.as_slice()).as_str().as_bytes_vec()
            },
        }
    }

    /// The control line with the given operation name and fields.
    fn control_line(op_name: &str, fields: &[&str]) -> (line: String)
        ensures
            line@ == control_line_text(op_name@, texts(fields@)),
    {
        let mut control_line = String::new();
        control_line.append(op_name);
        let mut i: usize = 0;
        while i < fields.len()
            invariant
                0 <= i <= fields@.len(),
                control_line@ == op_name@ + spaced(texts(fields@.take(i as int))),
            decreases fields@.len() - i,
        {
            control_line.append(" ");
            control_line.append(fields[i]);
            assert(texts(fields@.take(i + 1)).drop_last() =~= texts(fields@.take(i as int)));
            assert(control_line@ =~= op_name@ + spaced(texts(fields@.take(i + 1))));
            i += 1;
        }
        assert(fields@.take(fields@.len() as int) =~= fields@);
        control_line.append("\r\n");
        control_line
    }
}

} // verus!
