//! Error type shared by decision-diagram operations.
use vstd::prelude::*;
use crate::decimal::{decimal, push_decimal};

verus! {

/// Errors that can occur during decision-diagram operations.
#[derive(Clone, Debug)]
pub enum DdError {
    /// Node arena capacity exceeded.
    OutOfNodes {
        /// The maximum number of nodes that could be allocated.
        limit: usize,
    },
    /// An operation exceeded the caller-specified node-count limit.
    NodeLimitExceeded {
        /// The node limit that was exceeded.
        limit: u64,
    },
    /// An operation timed out before completing.
    Timeout,
    /// An invalid variable index was supplied.
    InvalidVariable {
        /// The variable index that was requested.
        var: u16,
        /// The total number of variables currently in the manager.
        num_vars: u16,
    },
    /// A serialization or deserialization error.
    IoError(String),
    /// A generic error with a descriptive message.
    Other(String),
}

/// A convenience alias for `Result<T, DdError>`.
pub type DdResult<T> = Result<T, DdError>;

/// The human-readable message of an error.
pub open spec fn error_message(e: DdError) -> Seq<char> {
    match e {
        DdError::OutOfNodes { limit } => "node arena capacity exceeded (limit: "@ + decimal(
            limit as nat,
        ) + ")"@,
        DdError::NodeLimitExceeded { limit } => "operation exceeded node count limit of "@
            + decimal(limit as nat),
        DdError::Timeout => "operation timed out"@,
        DdError::InvalidVariable { var, num_vars } => "invalid variable index "@ + decimal(
            var as nat,
        ) + " (manager has "@ + decimal(num_vars as nat) + " variables)"@,
        DdError::IoError(msg) => "I/O error: "@ + msg@,
        DdError::Other(msg) => msg@,
    }
}

impl DdError {
    /// The human-readable message of this error.
    pub fn to_string(&self) -> (r: String)
        ensures
            r@ == error_message(*self),
    {
        let mut s = String::new();
        match self {
            DdError::OutOfNodes { limit } => {
                s.append("node arena capacity exceeded (limit: ");
                push_decimal(&mut s, *limit as u64);
                s.append(")");
            },
            DdError::NodeLimitExceeded { limit } => {
                s.append("operation exceeded node count limit of ");
                push_decimal(&mut s, *limit);
            },
            DdError::Timeout => {
                s.append("operation timed out");
            },
            DdError::InvalidVariable { var, num_vars } => {
                s.append("invalid variable index ");
                push_decimal(&mut s, *var as u64);
                s.append(" (manager has ");
                push_decimal(&mut s, *num_vars as u64);
                s.append(" variables)");
            },
            DdError::IoError(msg) => {
                s.append("I/O error: ");
                s.append(msg.as_str());
            },
            DdError::Other(msg) => {
                s.append(msg.as_str());
            },
        }
        proof {
            assert(s@ =~= error_message(*self));
        }
        s
    }
}

impl From<String> for DdError {
    /// A generic error carrying the message.
    fn from(msg: String) -> (r: DdError) {
        DdError::Other(msg)
    }
}

impl vstd::std_specs::convert::FromSpecImpl<String> for DdError {
    open spec fn obeys_from_spec() -> bool {
        true
    }

    open spec fn from_spec(msg: String) -> DdError {
        DdError::Other(msg)
    }
}

impl<'a> From<&'a str> for DdError {
    /// A generic error carrying a copy of the message.
    fn from(msg: &'a str) -> (r: DdError)
        ensures
            r matches DdError::Other(m) && m@ == msg@,
    {
        DdError::Other(msg.to_owned())
    }
}

impl<'a> vstd::std_specs::convert::FromSpecImpl<&'a str> for DdError {
    /// The result is stated by the impl's own `ensures` (a `String`
    /// cannot be built in a specification).
    open spec fn obeys_from_spec() -> bool {
        false
    }

    open spec fn from_spec(msg: &'a str) -> DdError {
        vstd::pervasive::arbitrary()
    }
}

/// An I/O error value of the standard library.
#[verifier::external_type_specification]
#[verifier::external_body]
pub struct ExIoError(std::io::Error);

/// The text of an I/O error (`std::io::Error`'s `Display` rendering).
///
/// Nothing is stated of the text: for an operating-system error it is the
/// system's own message.
#[verifier::external_body]
fn io_error_text(err: &std::io::Error) -> String {
    err.to_string()
}

impl From<std::io::Error> for DdError {
    /// An I/O error carrying the I/O error's text.
    fn from(err: std::io::Error) -> (r: DdError)
        ensures
            r is IoError,
    {
        DdError::IoError(io_error_text(&err))
    }
}

impl vstd::std_specs::convert::FromSpecImpl<std::io::Error> for DdError {
    /// The variant is stated by the impl's own `ensures`; the message is
    /// the outside error's text, which is not specified.
    open spec fn obeys_from_spec() -> bool {
        false
    }

    open spec fn from_spec(err: std::io::Error) -> DdError {
        vstd::pervasive::arbitrary()
    }
}

} // verus!
