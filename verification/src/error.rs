//! The library's error type.

use vstd::prelude::*;

use crate::text::{chars_of, extend_str, string_of};

verus! {

/// Failure categories of the library; each carries a human-readable message.
#[derive(Debug)]
pub enum AppError {
    Io(String),
    Sql(String),
    Json(String),
    Clipboard(String),
    Network(String),
    Crypto(String),
    InvalidConfig(String),
}

pub type AppResult<T> = Result<T, AppError>;

impl AppError {
    /// The rendered message: a category label followed by the detail.
    pub open spec fn message_spec(&self) -> Seq<char> {
        match self {
            AppError::Io(m) => "I/O error: "@ + m@,
            AppError::Sql(m) => "SQLite error: "@ + m@,
            AppError::Json(m) => "JSON error: "@ + m@,
            AppError::Clipboard(m) => "Clipboard error: "@ + m@,
            AppError::Network(m) => "Network error: "@ + m@,
            AppError::Crypto(m) => "Crypto error: "@ + m@,
            AppError::InvalidConfig(m) => "Invalid configuration: "@ + m@,
        }
    }

    /// The error network failure with exactly this detail.
    pub open spec fn is_network(&self, msg: Seq<char>) -> bool {
        self matches AppError::Network(m) && m@ == msg
    }

    /// An invalid configuration failure with exactly this detail.
    pub open spec fn is_invalid_config(&self, msg: Seq<char>) -> bool {
        self matches AppError::InvalidConfig(m) && m@ == msg
    }

    /// A cryptographic failure with exactly this detail.
    pub open spec fn is_crypto(&self, msg: Seq<char>) -> bool {
        self matches AppError::Crypto(m) && m@ == msg
    }

    /// Renders the error the way it is displayed to users.
    pub fn message(&self) -> (r: String)
        ensures
            r@ == self.message_spec(),
    {
        let (label, detail) = match self {
            AppError::Io(m) => ("I/O error: ", m),
            AppError::Sql(m) => ("SQLite error: ", m),
            AppError::Json(m) => ("JSON error: ", m),
            AppError::Clipboard(m) => ("Clipboard error: ", m),
            AppError::Network(m) => ("Network error: ", m),
            AppError::Crypto(m) => ("Crypto error: ", m),
            AppError::InvalidConfig(m) => ("Invalid configuration: ", m),
        };
        let mut v = chars_of(label);
        extend_str(&mut v, detail.as_str());
        string_of(v.as_slice())
    }
}

/// A network error carrying the given message.
pub fn network_error(msg: &str) -> (e: AppError)
    ensures
        e.is_network(msg@),
{
    AppError::Network(msg.to_string())
}

/// A configuration error carrying the given message.
pub fn invalid_config_error(msg: &str) -> (e: AppError)
    ensures
        e.is_invalid_config(msg@),
{
    AppError::InvalidConfig(msg.to_string())
}

/// A cryptographic error carrying the given message.
pub fn crypto_error(msg: &str) -> (e: AppError)
    ensures
        e.is_crypto(msg@),
{
    AppError::Crypto(msg.to_string())
}

} // verus!
