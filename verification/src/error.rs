//! Errors with the chain of errors that caused them.

use crate::chain::Chain;
use vstd::prelude::*;

verus! {

/// An error as its message, and the error that caused it, if one did.
pub struct Cause {
    pub message: String,
    pub source: Option<Box<Cause>>,
}

impl Cause {
    /// The error and the errors that caused it, the error itself first and
    /// the lowest cause last.
    pub open spec fn lineage(self) -> Seq<Cause>
        decreases self,
    {
        match self.source {
            Some(source) => seq![self] + source.lineage(),
            None => seq![self],
        }
    }

    /// The error that caused this one, if one did.
    pub fn source(&self) -> (source: Option<&Cause>)
        ensures
            match self.source {
                Some(inner) => source == Some(&*inner),
                None => source is None,
            },
    {
        match &self.source {
            Some(inner) => Some(&**inner),
            None => None,
        }
    }
}

/// A lineage is never empty, and after its head comes the lineage of the
/// head's cause.
pub proof fn lemma_lineage(cause: Cause)
    ensures
        cause.lineage().len() >= 1,
        cause.lineage()[0] == cause,
        match cause.source {
            Some(source) => cause.lineage().drop_first() == source.lineage(),
            None => cause.lineage().drop_first() == Seq::<Cause>::empty(),
        },
    decreases cause,
{
    match cause.source {
        Some(source) => {
            lemma_lineage(*source);
            assert(cause.lineage().drop_first() =~= source.lineage());
        },
        None => {
            assert(cause.lineage().drop_first() =~= Seq::<Cause>::empty());
        },
    }
}

/// The chain of an error is never empty.
pub proof fn lemma_error_nonempty(error: &Error)
    ensures
        error@.len() >= 1,
{
    lemma_lineage(error.inner);
}

/// An error of any kind, with the chain of its causes.
pub struct Error {
    inner: Cause,
}

impl View for Error {
    type V = Seq<Cause>;

    /// The error and its causes, the error itself first.
    closed spec fn view(&self) -> Seq<Cause> {
        self.inner.lineage()
    }
}

impl Error {
    /// Makes an error of an error with its causes.
    pub fn new(error: Cause) -> (made: Self)
        ensures
            made@ == error.lineage(),
    {
        Error { inner: error }
    }

    /// Makes an error of a message. It has no cause.
    pub fn msg(message: String) -> (made: Self)
        ensures
            made@ == seq![Cause { message, source: None }],
    {
        Error { inner: Cause { message, source: None } }
    }

    /// Wraps the error in a message that says what was being done. The
    /// error becomes the cause of the new one.
    pub fn context(self, context: String) -> (made: Self)
        ensures
            made@.len() == self@.len() + 1,
            made@[0].message == context,
            made@.drop_first() == self@,
    {
        let made = Error { inner: Cause { message: context, source: Some(Box::new(self.inner)) } };
        proof {
            lemma_lineage(made.inner);
        }
        made
    }

    /// The error and its causes, one after the other.
    pub fn chain(&self) -> (chain: Chain<'_>)
        ensures
            chain@ == self@,
    {
        Chain::new(&self.inner)
    }

    /// The lowest cause of this error: the last of its chain.
    pub fn root_cause(&self) -> (root: &Cause)
        ensures
            *root == self@.last(),
    {
        let mut root = &self.inner;
        proof {
            lemma_lineage(*root);
        }
        loop
            invariant_except_break
                root.lineage().len() >= 1,
                root.lineage().last() == self@.last(),
            ensures
                *root == self@.last(),
            decreases root.lineage().len(),
        {
            proof {
                lemma_lineage(*root);
            }
            match root.source() {
                Some(source) => {
                    proof {
                        lemma_lineage(*source);
                    }
                    root = source;
                },
                None => {
                    break;
                },
            }
        }
        root
    }
}

/// Marks a message that is to become an error.
pub struct Adhoc;

/// What can become an error as a message.
pub trait AdhocKind: Sized {
    fn anyhow_kind(&self) -> Adhoc {
        Adhoc
    }
}

impl AdhocKind for &String {

}

impl Adhoc {
    pub fn new(self, message: String) -> (made: Error)
        ensures
            made@ == seq![Cause { message, source: None }],
    {
        Error::msg(message)
    }
}

/// Marks a value that is an error already.
pub struct Trait;

/// What is an error already.
pub trait TraitKind: Sized {
    fn anyhow_kind(&self) -> Trait {
        Trait
    }
}

impl TraitKind for Error {

}

impl Trait {
    pub fn new(self, error: Error) -> (made: Error)
        ensures
            made == error,
    {
        error
    }
}

/// Marks an error with its causes that lives on the heap.
pub struct Boxed;

/// What is an error with its causes on the heap.
pub trait BoxedKind: Sized {
    fn anyhow_kind(&self) -> Boxed {
        Boxed
    }
}

impl BoxedKind for Box<Cause> {

}

impl Boxed {
    pub fn new(self, error: Box<Cause>) -> (made: Error)
        ensures
            made@ == error.lineage(),
    {
        Error::new(*error)
    }
}

/// Hands the error on. Whoever gets it is meant to use it.
#[must_use]
pub fn must_use(error: Error) -> (same: Error)
    ensures
        same == error,
{
    error
}

} // verus!
