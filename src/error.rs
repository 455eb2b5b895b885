use vstd::prelude::*;

verus! {

/// Why a token was refused, or why a payload could not be produced or read.
#[derive(Debug, Clone, Copy, PartialEq, Eq, Structural)]
pub enum AuthError {
    /// The token does not have the expected three-part structure.
    MalformedToken,
    /// The signature part does not match the MAC of the payload.
    InvalidSignature,
    /// The token is well formed and signed, but past its expiry.
    TokenExpired,
    /// The claims could not be turned into a payload.
    Encoding,
    /// The payload could not be read back as claims.
    Decoding,
    /// The caller is known but lacks a required scope.
    InsufficientScope,
}

/// The description of each error.
pub open spec fn message_of(e: AuthError) -> Seq<char> {
    match e {
        AuthError::MalformedToken => "Invalid token format"@,
        AuthError::InvalidSignature => "Invalid token signature"@,
        AuthError::TokenExpired => "Token expired"@,
        AuthError::Encoding => "Claims could not be encoded"@,
        AuthError::Decoding => "Claims could not be decoded"@,
        AuthError::InsufficientScope => "Insufficient scope"@,
    }
}

impl AuthError {
    /// A short human-readable description of the error.
    pub fn message(&self) -> (r: String)
        ensures
            r@ == message_of(*self),
    {
        match self {
            AuthError::MalformedToken => String::from_str("Invalid token format"),
            AuthError::InvalidSignature => String::from_str("Invalid token signature"),
            AuthError::TokenExpired => String::from_str("Token expired"),
            AuthError::Encoding => String::from_str("Claims could not be encoded"),
            AuthError::Decoding => String::from_str("Claims could not be decoded"),
            AuthError::InsufficientScope => String::from_str("Insufficient scope"),
        }
    }
}

} // verus!
