//! The ways in which a request is turned down.

use vstd::prelude::*;

verus! {

/// The class of a refusal, as the caller is to report it.
#[derive(Clone, Copy, Debug, PartialEq, Eq, Structural)]
pub enum Status {
    /// The request carries no usable credentials.
    Unauthorized,
    /// The request carries credentials, and they are the wrong ones.
    Forbidden,
    /// The request was understood and its content is refused.
    NotAcceptable,
    /// The request names something that does not exist.
    NotFound,
}

/// Why a request was turned down.
#[derive(Clone, Copy, Debug, PartialEq, Eq, Structural)]
pub enum ServerError {
    /// The request has no authorization header.
    NoAuthorizationHeader,
    /// The authorization header is too short to hold a scheme and a token.
    HeaderTooShort,
    /// The authorization header does not begin with the bearer scheme.
    MissingScheme,
    /// The bearer token is not the configured one.
    WrongToken,
    /// A password was required and the one given is empty.
    EmptyPassword,
    /// The password hasher refused the password.
    UnacceptablePassword,
    /// No user or step is stored under the given id or rank.
    NotFound,
}

impl ServerError {
    /// The class that each refusal belongs to.
    pub open spec fn status_of(self) -> Status {
        match self {
            ServerError::NoAuthorizationHeader => Status::Unauthorized,
            ServerError::HeaderTooShort => Status::Unauthorized,
            ServerError::MissingScheme => Status::Unauthorized,
            ServerError::WrongToken => Status::Forbidden,
            ServerError::EmptyPassword => Status::NotAcceptable,
            ServerError::UnacceptablePassword => Status::NotAcceptable,
            ServerError::NotFound => Status::NotFound,
        }
    }

    /// The text that each refusal is reported with.
    pub open spec fn message_of(self) -> Seq<char> {
        match self {
            ServerError::NoAuthorizationHeader => "no authorization header"@,
            ServerError::HeaderTooShort => "authorization header is too short"@,
            ServerError::MissingScheme => "missing scheme"@,
            ServerError::WrongToken => "wrong token"@,
            ServerError::EmptyPassword => "password cannot be empty"@,
            ServerError::UnacceptablePassword => "the provided password is not acceptable"@,
            ServerError::NotFound => "Item not found"@,
        }
    }

    /// The class of the refusal.
    pub fn status(&self) -> (status: Status)
        ensures
            status == self.status_of(),
    {
        match self {
            ServerError::NoAuthorizationHeader => Status::Unauthorized,
            ServerError::HeaderTooShort => Status::Unauthorized,
            ServerError::MissingScheme => Status::Unauthorized,
            ServerError::WrongToken => Status::Forbidden,
            ServerError::EmptyPassword => Status::NotAcceptable,
            ServerError::UnacceptablePassword => Status::NotAcceptable,
            ServerError::NotFound => Status::NotFound,
        }
    }

    /// The text that the refusal is reported with.
    pub fn message(&self) -> (message: &'static str)
        ensures
            message@ == self.message_of(),
    {
        match self {
            ServerError::NoAuthorizationHeader => "no authorization header",
            ServerError::HeaderTooShort => "authorization header is too short",
            ServerError::MissingScheme => "missing scheme",
            ServerError::WrongToken => "wrong token",
            ServerError::EmptyPassword => "password cannot be empty",
            ServerError::UnacceptablePassword => "the provided password is not acceptable",
            ServerError::NotFound => "Item not found",
        }
    }
}

} // verus!
