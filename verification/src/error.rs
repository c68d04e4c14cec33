//! The error model: a text and an optional cause.

use vstd::prelude::*;

verus! {

/// An error as a report reads it: its own text and, where it has one, the
/// error that caused it. A cause is owned by the error it explains, so a chain
/// is finite and never leads back to itself.
#[derive(Debug)]
pub struct ChainError {
    pub message: String,
    pub cause: Option<Box<ChainError>>,
}

impl ChainError {
    /// The error's own text, without that of its causes.
    pub open spec fn text(&self) -> Seq<char> {
        self.message@
    }

    /// The immediate cause, if there is one.
    pub open spec fn source_spec(&self) -> Option<ChainError> {
        match self.cause {
            Some(c) => Some(*c),
            None => None,
        }
    }

    /// The error itself, then its cause, then that error's cause, and so on
    /// down to the error that has none.
    pub open spec fn chain(&self) -> Seq<ChainError>
        decreases self,
    {
        match self.cause {
            Some(c) => seq![*self] + c.chain(),
            None => seq![*self],
        }
    }

    /// The chain without the error itself: immediate cause first.
    pub open spec fn causes(&self) -> Seq<ChainError> {
        match self.cause {
            Some(c) => c.chain(),
            None => Seq::empty(),
        }
    }

    /// An error with the given text and no cause.
    pub fn new(message: &str) -> (e: ChainError)
        ensures
            e.text() == message@,
            e.cause is None,
    {
        ChainError { message: message.to_owned(), cause: None }
    }

    /// An error with the given text, caused by `cause`.
    pub fn with_cause(message: &str, cause: ChainError) -> (e: ChainError)
        ensures
            e.text() == message@,
            e.source_spec() == Some(cause),
    {
        ChainError { message: message.to_owned(), cause: Some(Box::new(cause)) }
    }

    /// The error's own text.
    pub fn message(&self) -> (s: &str)
        ensures
            s@ == self.text(),
    {
        self.message.as_str()
    }

    /// The error's own text as an owned string.
    pub fn to_string(&self) -> (s: String)
        ensures
            s@ == self.text(),
    {
        self.message.clone()
    }

    /// The immediate cause, if there is one.
    pub fn source(&self) -> (c: Option<&ChainError>)
        ensures
            c is Some <==> self.source_spec() is Some,
            c matches Some(e) ==> self.source_spec() == Some(*e) && self.causes() == e.chain(),
            c is None ==> self.causes().len() == 0,
    {
        match &self.cause {
            Some(c) => Some(&**c),
            None => None,
        }
    }
}

/// An error's chain starts with the error itself and goes on with its causes.
pub proof fn lemma_chain_unfold(e: ChainError)
    ensures
        e.chain().len() == e.causes().len() + 1,
        e.chain()[0] == e,
        e.chain().skip(1) == e.causes(),
{
    assert(e.chain() == seq![e] + e.causes());
    assert(e.chain().skip(1) =~= e.causes());
}

} // verus!
