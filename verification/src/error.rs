//! What can go wrong.

use vstd::prelude::*;

verus! {

/// The kind of an error and its message.
pub enum ErrorView {
    Config(Seq<char>),
    Generic(Seq<char>),
    Auth(Seq<char>),
}

/// An error of the client.
#[derive(Debug, PartialEq, Eq)]
pub enum LighterError {
    /// The client was configured in a way that it cannot work with.
    Config(String),
    /// A message of the exchange could not be handled.
    Generic(String),
    /// Authentication is needed and cannot be had.
    Auth(String),
}

impl View for LighterError {
    type V = ErrorView;

    open spec fn view(&self) -> ErrorView {
        match *self {
            LighterError::Config(m) => ErrorView::Config(m@),
            LighterError::Generic(m) => ErrorView::Generic(m@),
            LighterError::Auth(m) => ErrorView::Auth(m@),
        }
    }
}

impl LighterError {
    /// A configuration error.
    pub fn config(message: &str) -> (r: LighterError)
        ensures
            r@ == ErrorView::Config(message@),
    {
        LighterError::Config(message.to_owned())
    }

    /// An error in handling a message.
    pub fn generic(message: &str) -> (r: LighterError)
        ensures
            r@ == ErrorView::Generic(message@),
    {
        LighterError::Generic(message.to_owned())
    }

    /// An authentication error.
    pub fn auth(message: &str) -> (r: LighterError)
        ensures
            r@ == ErrorView::Auth(message@),
    {
        LighterError::Auth(message.to_owned())
    }
}

} // verus!
