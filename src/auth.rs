//! The bearer-token decisions of the service around the fraction engine.

use vstd::prelude::*;

verus! {

/// Why a request's credentials were refused.
#[derive(Debug, Clone, Copy, PartialEq, Eq, Structural)]
pub enum AuthError {
    WrongCredentials,
    InvalidToken,
}

impl AuthError {
    /// The HTTP status and the message that the refusal is answered with.
    pub fn response_parts(&self) -> (r: (u16, &'static str))
        ensures
            *self == AuthError::WrongCredentials ==> r.0 == 401 && r.1@ == "Wrong credentials"@,
            *self == AuthError::InvalidToken ==> r.0 == 400 && r.1@ == "Invalid token"@,
    {
        proof {
            reveal_strlit("Wrong credentials");
            reveal_strlit("Invalid token");
        }
        match self {
            AuthError::WrongCredentials => (401, "Wrong credentials"),
            AuthError::InvalidToken => (400, "Invalid token"),
        }
    }
}

/// The claims a token carries: its subject and its expiry, in seconds since
/// the Unix epoch.
#[derive(Debug, Clone, PartialEq, Eq)]
pub struct Claims {
    pub sub: String,
    pub exp: usize,
}

impl Claims {
    /// Accepts the claims while they have not expired at `now` (seconds since
    /// the Unix epoch); a time before the epoch is refused too.
    pub fn check_expiry(self, now: i64) -> (r: Result<Claims, AuthError>)
        ensures
            (now < 0 || self.exp as int <= now as int) ==> r == Err::<Claims, AuthError>(
                AuthError::WrongCredentials,
            ),
            !(now < 0 || self.exp as int <= now as int) ==> r == Ok::<Claims, AuthError>(self),
    {
        if now < 0 {
            return Err(AuthError::WrongCredentials);
        }
        if (self.exp as u128) <= (now as u128) {
            return Err(AuthError::WrongCredentials);
        }
        Ok(self)
    }
}

} // verus!
