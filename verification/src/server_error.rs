//! Errors that the server reports with `-ERR`.
use vstd::prelude::*;

verus! {

/// Errors returned by the NATS server.
#[derive(Debug)]
pub enum ServerError {
    InvalidSubject,
    Other(String),
}

/// Result type for NATS server operations.
pub type ServerResult = Result<(), ServerError>;

/// The model of a [`ServerError`].
pub enum ServerErrorView {
    InvalidSubject,
    Other(Seq<char>),
}

impl View for ServerError {
    type V = ServerErrorView;

    open spec fn view(&self) -> ServerErrorView {
        match self {
            ServerError::InvalidSubject => ServerErrorView::InvalidSubject,
            ServerError::Other(m) => ServerErrorView::Other(m@),
        }
    }
}

/// The model of a [`ServerResult`].
pub open spec fn server_result_view(r: ServerResult) -> Result<(), ServerErrorView> {
    match r {
        Ok(()) => Ok(()),
        Err(e) => Err(e@),
    }
}

/// The server error that the message text of a `-ERR` line names: the text
/// `Invalid Subject` is recognised, any other text is kept as it is.
pub open spec fn server_error_of(text: Seq<char>) -> ServerErrorView {
    if text == "Invalid Subject"@ {
        ServerErrorView::InvalidSubject
    } else {
        ServerErrorView::Other(text)
    }
}

/// Only the exact text `Invalid Subject` names `InvalidSubject`; every other
/// text names `Other` and is kept as it is.
pub proof fn lemma_server_error_names(t: Seq<char>)
    ensures
        (server_error_of(t) == ServerErrorView::InvalidSubject) <==> t == "Invalid Subject"@,
        t != "Invalid Subject"@ ==> server_error_of(t) == ServerErrorView::Other(t),
{
}

/// Whether two strings hold the same characters.
pub fn str_eq(a: &str, b: &str) -> (r: bool)
    ensures
        r == (a@ == b@),
{
    let x = crate::text::chars_of(a);
    let y = crate::text::chars_of(b);
    if x.len() != y.len() {
        return false;
    }
    let mut i: usize = 0;
    while i < x.len()
        invariant
            x@.len() == y@.len(),
            x@ == a@,
            y@ == b@,
            0 <= i <= x@.len(),
            forall|j: int| 0 <= j < i ==> x@[j] == y@[j],
        decreases x@.len() - i,
    {
        if x[i] != y[i] {
            assert(x@[i as int] != y@[i as int]);
            return false;
        }
        i += 1;
    }
    assert(x@ =~= y@);
    true
}

impl ServerError {
    /// The server error that the message of a `-ERR` line names.
    pub fn from_message(s: &str) -> (e: ServerError)
        ensures
            e@ == server_error_of(s@),
    {
        if str_eq(s, "Invalid Subject") {
            ServerError::InvalidSubject
        } else {
            ServerError::Other(s.to_owned())
        }
    }
}

impl<'a> From<&'a str> for ServerError {
    fn from(s: &'a str) -> (e: ServerError)
        ensures
            e@ == server_error_of(s@),
    {
        ServerError::from_message(s)
    }
}

impl<'a> vstd::std_specs::convert::FromSpecImpl<&'a str> for ServerError {
    open spec fn obeys_from_spec() -> bool {
        false
    }

    open spec fn from_spec(s: &'a str) -> ServerError {
        choose|e: ServerError| e@ == server_error_of(s@)
    }
}

impl Clone for ServerError {
    fn clone(&self) -> (c: ServerError)
        ensures
            c@ == self@,
    {
        match self {
            ServerError::InvalidSubject => ServerError::InvalidSubject,
            ServerError::Other(m) => ServerError::Other(m.clone()),
        }
    }
}

impl PartialEq for ServerError {
    fn eq(&self, other: &ServerError) -> (r: bool) {
        match (self, other) {
            (ServerError::InvalidSubject, ServerError::InvalidSubject) => true,
            (ServerError::Other(a), ServerError::Other(b)) => str_eq(a.as_str(), b.as_str()),
            _ => false,
        }
    }
}

impl vstd::std_specs::cmp::PartialEqSpecImpl for ServerError {
    open spec fn obeys_eq_spec() -> bool {
        true
    }

    open spec fn eq_spec(&self, other: &ServerError) -> bool {
        self@ == other@
    }
}

impl Eq for ServerError {

}

} // verus!
