//! Subscription identifiers.
use vstd::prelude::*;

verus! {

/// A lower-case hexadecimal digit.
pub open spec fn is_lower_hex(c: char) -> bool {
    ('0' <= c && c <= '9') || ('a' <= c && c <= 'f')
}

/// The text of a random (version 4, RFC 4122 variant) UUID in hyphenated
/// lower-case form, such as `67e55044-10b1-426f-9247-bb680e5fe0c8`.
pub open spec fn is_uuid_v4_text(s: Seq<char>) -> bool {
    &&& s.len() == 36
    &&& forall|i: int|
        0 <= i < 36 ==> if i == 8 || i == 13 || i == 18 || i == 23 {
            s[i] == '-'
        } else {
            is_lower_hex(#[trigger] s[i])
        }
    &&& s[14] == '4'
    &&& (s[19] == '8' || s[19] == '9' || s[19] == 'a' || s[19] == 'b')
}

/// Calls `uuid::Uuid::new_v4` and writes the UUID with `to_string`.
/// Claimed: the text is the hyphenated lower-case form of a version 4 UUID
/// (the `Display` impl of `Uuid` writes `format_hyphenated` with lower-case
/// digits, and `new_v4` sets the version nibble to 4 and the variant bits to
/// `10`). Which UUID comes out depends on the operating system's random
/// source and is not stated; `new_v4` panics if that source fails.
#[verifier::external_body]
fn random_uuid_text() -> (s: String)
    ensures
        is_uuid_v4_text(s@),
{
    uuid::Uuid::new_v4().to_string()
}

/// NATS subscription ID.
#[derive(Debug)]
pub struct SubscriptionId {
    inner: String,
}

impl View for SubscriptionId {
    type V = Seq<char>;

    closed spec fn view(&self) -> Seq<char> {
        self.inner@
    }
}

impl SubscriptionId {
    /// A fresh subscription ID: the text of a random version 4 UUID.
    pub fn new() -> (sid: SubscriptionId)
        ensures
            is_uuid_v4_text(sid@),
    {
        SubscriptionId { inner: random_uuid_text() }
    }

    /// The subscription ID with the given text; every text is accepted.
    pub fn from_text(s: &str) -> (sid: SubscriptionId)
        ensures
            sid@ == s@,
    {
        SubscriptionId { inner: s.to_owned() }
    }

    /// The ID's text.
    pub fn as_str(&self) -> (s: &str)
        ensures
            s@ == self@,
    {
        self.inner.as_str()
    }
}

impl Clone for SubscriptionId {
    fn clone(&self) -> (c: SubscriptionId)
        ensures
            c@ == self@,
    {
        SubscriptionId { inner: self.inner.clone() }
    }
}

impl Default for SubscriptionId {
    fn default() -> (sid: SubscriptionId)
        ensures
            is_uuid_v4_text(sid@),
    {
        SubscriptionId::new()
    }
}

impl core::str::FromStr for SubscriptionId {
    type Err = String;

    fn from_str(s: &str) -> (r: Result<Self, Self::Err>)
        ensures
            r matches Ok(sid) && sid@ == s@,
    {
        Ok(SubscriptionId::from_text(s))
    }
}

impl PartialEq for SubscriptionId {
    fn eq(&self, other: &SubscriptionId) -> (r: bool) {
        crate::server_error::str_eq(self.inner.as_str(), other.inner.as_str())
    }
}

impl vstd::std_specs::cmp::PartialEqSpecImpl for SubscriptionId {
    open spec fn obeys_eq_spec() -> bool {
        true
    }

    open spec fn eq_spec(&self, other: &SubscriptionId) -> bool {
        self@ == other@
    }
}

impl Eq for SubscriptionId {

}

} // verus!
