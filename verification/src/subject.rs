//! NATS subjects.
use vstd::prelude::*;

verus! {

/// NATS subject.
#[derive(Debug)]
pub struct Subject {
    inner: String,
}

impl View for Subject {
    type V = Seq<char>;

    closed spec fn view(&self) -> Seq<char> {
        self.inner@
    }
}

impl Subject {
    /// The subject named by the given text; every text is accepted as it is.
    pub fn from_text(s: &str) -> (subject: Subject)
        ensures
            subject@ == s@,
    {
        Subject { inner: s.to_owned() }
    }

    /// The subject's text.
    pub fn as_str(&self) -> (s: &str)
        ensures
            s@ == self@,
    {
        self.inner.as_str()
    }
}

impl core::str::FromStr for Subject {
    type Err = String;

    fn from_str(s: &str) -> (r: Result<Self, Self::Err>)
        ensures
            r matches Ok(subject) && subject@ == s@,
    {
        Ok(Subject::from_text(s))
    }
}

} // verus!
