//! Saying what was being done when an error came up.

use crate::error::{Cause, Error};
use vstd::prelude::*;

verus! {

/// What can be wrapped in a message that says what was being done.
pub trait StdError {
    fn ext_context(self, context: String) -> Error;
}

impl StdError for Cause {
    fn ext_context(self, context: String) -> (error: Error)
        ensures
            error@[0].message == context,
            error@.drop_first() == self.lineage(),
    {
        Error::new(self).context(context)
    }
}

impl StdError for Error {
    fn ext_context(self, context: String) -> (error: Error)
        ensures
            error@[0].message == context,
            error@.drop_first() == self@,
    {
        self.context(context)
    }
}

/// The results that a context can be given to.
pub trait Sealed {

}

impl<T> Sealed for Result<T, Error> {

}

impl<T> Sealed for Result<T, Cause> {

}

impl<T> Sealed for Option<T> {

}

/// Gives the error of a result a message that says what was being done.
pub trait Context<T>: Sealed {
    fn context(self, context: String) -> Result<T, Error>;
}

impl<T> Context<T> for Result<T, Error> {
    fn context(self, context: String) -> (wrapped: Result<T, Error>)
        ensures
            match (self, wrapped) {
                (Ok(value), Ok(same)) => value == same,
                (Err(error), Err(made)) => made@[0].message == context && made@.drop_first()
                    == error@,
                _ => false,
            },
    {
        match self {
            Ok(value) => Ok(value),
            Err(error) => Err(error.ext_context(context)),
        }
    }
}

impl<T> Context<T> for Result<T, Cause> {
    fn context(self, context: String) -> (wrapped: Result<T, Error>)
        ensures
            match (self, wrapped) {
                (Ok(value), Ok(same)) => value == same,
                (Err(error), Err(made)) => made@[0].message == context && made@.drop_first()
                    == error.lineage(),
                _ => false,
            },
    {
        match self {
            Ok(value) => Ok(value),
            Err(error) => Err(error.ext_context(context)),
        }
    }
}

impl<T> Context<T> for Option<T> {
    fn context(self, context: String) -> (wrapped: Result<T, Error>)
        ensures
            match (self, wrapped) {
                (Some(value), Ok(same)) => value == same,
                (None, Err(made)) => made@ == seq![Cause { message: context, source: None }],
                _ => false,
            },
    {
        match self {
            Some(value) => Ok(value),
            None => Err(Error::msg(context)),
        }
    }
}

} // verus!
