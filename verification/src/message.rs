//! Messages, as published and as received.
use crate::decimal::{decimal, push_decimal};
use crate::sid::SubscriptionId;
use crate::subject::Subject;
use vstd::prelude::*;

verus! {

/// NATS message, either published or received.
pub struct Message {
    pub subject: Subject,
    pub reply_to: Option<Subject>,
    pub payload: Vec<u8>,
}

/// NATS message received from a subscription.
pub type MessageWithSid = (SubscriptionId, Message);

/// The model of a [`Message`].
pub struct MessageView {
    pub subject: Seq<char>,
    pub reply_to: Option<Seq<char>>,
    pub payload: Seq<u8>,
}

impl View for Message {
    type V = MessageView;

    open spec fn view(&self) -> MessageView {
        MessageView {
            subject: self.subject@,
            reply_to: match self.reply_to {
                Some(r) => Some(r@),
                None => None,
            },
            payload: self.payload@,
        }
    }
}

/// The text that `{:?}` writes for a string with characters `s`: the string
/// quoted, each character escaped as `char::escape_debug` does.
pub uninterp spec fn str_debug_text(s: Seq<char>) -> Seq<char>;

/// Writes `s` with `format!("{:?}", s)`, that is with `<str as Debug>::fmt`.
/// Claimed: the text depends on the characters of `s` alone; it is named
/// [`str_debug_text`], not spelled out (the escaping rests on Unicode tables
/// of printable and grapheme-extending characters).
#[verifier::external_body]
fn str_debug(s: &str) -> (t: String)
    ensures
        t@ == str_debug_text(s@),
{
    format!("{:?}", s)
}

/// The `{:?}` text of a subject whose text's own `{:?}` text is `d`.
pub open spec fn subject_debug_text(d: Seq<char>) -> Seq<char> {
    "Subject { inner: "@ + d + " }"@
}

/// The `{:?}` text of a message: its subject, its reply-to subject and, in
/// place of the payload's bytes, the payload's length. `subject` and `reply_to`
/// are the `{:?}` texts of the subjects' texts.
pub open spec fn message_debug_text(
    subject: Seq<char>,
    reply_to: Option<Seq<char>>,
    payload_len: nat,
) -> Seq<char> {
    "Message { subject: "@ + subject_debug_text(subject) + ", reply_to: "@ + match reply_to {
        None => "None"@,
        Some(r) => "Some("@ + subject_debug_text(r) + ")"@,
    } + ", payload len: "@ + decimal(payload_len) + " }"@
}

impl Message {
    /// The `{:?}` text of a message whose subject's text reads `subject` under
    /// `{:?}`, whose reply-to subject's text reads `reply_to` (if any) and
    /// whose payload has `payload_len` bytes.
    pub fn debug_text_from(subject: &str, reply_to: Option<&str>, payload_len: usize) -> (s:
        String)
        ensures
            s@ == message_debug_text(
                subject@,
                match reply_to {
                    Some(r) => Some(r@),
                    None => None,
                },
                payload_len as nat,
            ),
    {
        let mut s = "Message { subject: Subject { inner: ".to_owned();
        s.append(subject);
        s.append(" }, reply_to: ");
        match reply_to {
            None => s.append("None"),
            Some(r) => {
                s.append("Some(Subject { inner: ");
                s.append(r);
                s.append(" })");
            },
        }
        s.append(", payload len: ");
        push_decimal(&mut s, payload_len as u64);
        s.append(" }");
        proof {
            reveal_strlit("Message { subject: Subject { inner: ");
            reveal_strlit("Message { subject: ");
            reveal_strlit("Subject { inner: ");
            reveal_strlit(" }, reply_to: ");
            reveal_strlit(" }");
            reveal_strlit(", reply_to: ");
            reveal_strlit("Some(Subject { inner: ");
            reveal_strlit("Some(");
            reveal_strlit(" })");
            reveal_strlit(")");
            assert("Message { subject: Subject { inner: "@ =~= "Message { subject: "@
                + "Subject { inner: "@);
            assert(" }, reply_to: "@ =~= " }"@ + ", reply_to: "@);
            assert("Some(Subject { inner: "@ =~= "Some("@ + "Subject { inner: "@);
            assert(" })"@ =~= " }"@ + ")"@);
        }
        assert(s@ =~= message_debug_text(
            subject@,
            match reply_to {
                Some(r) => Some(r@),
                None => None,
            },
            payload_len as nat,
        ));
        s
    }

    /// The text that `{:?}` gives for a message: its subject, its reply-to
    /// subject and the payload's length (not its bytes).
    pub fn debug_string(&self) -> (s: String)
        ensures
            s@ == message_debug_text(
                str_debug_text(self.subject@),
                match self.reply_to {
                    Some(r) => Some(str_debug_text(r@)),
                    None => None,
                },
                self.payload@.len(),
            ),
    {
        let subject = str_debug(self.subject.as_str());
        let reply_to = match &self.reply_to {
            Some(r) => Some(str_debug(r.as_str())),
            None => None,
        };
        let reply_text: Option<&str> = match &reply_to {
            Some(t) => Some(t.as_str()),
            None => None,
        };
        Self::debug_text_from(subject.as_str(), reply_text, self.payload.len())
    }
}

} // verus!
