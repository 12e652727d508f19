//! The errors of the Bolt protocol and their wire form.
use vstd::prelude::*;
use vstd::string::StringExecFns;

use crate::value::{lemma_dict_view, BoltDict, BoltValue, Value};

verus! {

/// Errors that can occur during Bolt protocol operations.
#[derive(Debug)]
pub enum BoltError {
    Protocol(String),
    Authentication(String),
    Session(String),
    Transaction(String),
    Query { code: String, message: String },
    ResourceExhausted(String),
    /// A transport failure, with its description.
    Io(String),
    Backend(String),
}

pub const CODE_REQUEST_INVALID: &'static str = "Neo.ClientError.Request.Invalid";
pub const CODE_INVALID_FORMAT: &'static str = "Neo.ClientError.Request.InvalidFormat";
pub const CODE_UNAUTHORIZED: &'static str = "Neo.ClientError.Security.Unauthorized";
pub const CODE_TX_START_FAILED: &'static str = "Neo.ClientError.Transaction.TransactionStartFailed";
pub const CODE_OUT_OF_MEMORY: &'static str = "Neo.TransientError.General.MemoryPoolOutOfMemoryError";
pub const CODE_UNAVAILABLE: &'static str = "Neo.TransientError.General.DatabaseUnavailable";
pub const CODE_UNKNOWN: &'static str = "Neo.DatabaseError.General.UnknownError";

/// The wire code and message text of an error.
pub open spec fn failure_parts(e: BoltError) -> (Seq<char>, Seq<char>) {
    match e {
        BoltError::Protocol(m) => (CODE_REQUEST_INVALID@, m@),
        BoltError::Authentication(m) => (CODE_UNAUTHORIZED@, m@),
        BoltError::Session(m) => (CODE_REQUEST_INVALID@, m@),
        BoltError::Transaction(m) => (CODE_TX_START_FAILED@, m@),
        BoltError::Query { code, message } => (code@, message@),
        BoltError::ResourceExhausted(m) => (CODE_OUT_OF_MEMORY@, m@),
        BoltError::Io(m) => (CODE_UNAVAILABLE@, m@),
        BoltError::Backend(m) => (CODE_UNKNOWN@, m@),
    }
}

/// The metadata of a FAILURE reply: `code` then `message`.
pub open spec fn failure_metadata(code: Seq<char>, message: Seq<char>) -> Seq<(Seq<char>, Value)> {
    seq![(seq!['c', 'o', 'd', 'e'], Value::Str(code)), (seq!['m', 'e', 's', 's', 'a', 'g', 'e'], Value::Str(message))]
}

/// A protocol error carrying the given text.
pub fn protocol_error(msg: &str) -> (r: BoltError)
    ensures
        r == BoltError::Protocol(r->Protocol_0) && r->Protocol_0@ == msg@,
{
    BoltError::Protocol(msg.to_owned())
}

/// Builds the metadata of a FAILURE reply from a code and a message.
pub fn failure_dict(code: &str, message: &str) -> (r: BoltDict)
    ensures
        r@ == failure_metadata(code@, message@),
{
    let mut d = BoltDict::new();
    proof {
        reveal_strlit("code");
        reveal_strlit("message");
    }
    d.entries.push(("code".to_owned(), BoltValue::String(code.to_owned())));
    d.entries.push(("message".to_owned(), BoltValue::String(message.to_owned())));
    proof {
        lemma_dict_view(d);
        assert("code"@ =~= seq!['c', 'o', 'd', 'e']);
        assert("message"@ =~= seq!['m', 'e', 's', 's', 'a', 'g', 'e']);
    }
    assert(d@ =~= failure_metadata(code@, message@));
    d
}

/// The human-readable text of an error: a prefix naming its kind, then its
/// message.
pub open spec fn error_text(e: BoltError) -> Seq<char> {
    match e {
        BoltError::Protocol(m) => "protocol error: "@ + m@,
        BoltError::Authentication(m) => "authentication error: "@ + m@,
        BoltError::Session(m) => "session error: "@ + m@,
        BoltError::Transaction(m) => "transaction error: "@ + m@,
        BoltError::Query { code, message } => "query error "@ + code@ + ": "@ + message@,
        BoltError::ResourceExhausted(m) => "resource exhausted: "@ + m@,
        BoltError::Io(m) => "I/O error: "@ + m@,
        BoltError::Backend(m) => "backend error: "@ + m@,
    }
}

fn prefixed(prefix: &str, m: &String) -> (r: String)
    ensures
        r@ == prefix@ + m@,
{
    let mut t = String::from_str(prefix);
    t.append(m.as_str());
    t
}

impl BoltError {
    /// The human-readable text of this error.
    pub fn to_text(&self) -> (r: String)
        ensures
            r@ == error_text(*self),
    {
        match self {
            BoltError::Protocol(m) => prefixed("protocol error: ", m),
            BoltError::Authentication(m) => prefixed("authentication error: ", m),
            BoltError::Session(m) => prefixed("session error: ", m),
            BoltError::Transaction(m) => prefixed("transaction error: ", m),
            BoltError::Query { code, message } => {
                let mut t = String::from_str("query error ");
                t.append(code.as_str());
                t.append(": ");
                t.append(message.as_str());
                t
            },
            BoltError::ResourceExhausted(m) => prefixed("resource exhausted: ", m),
            BoltError::Io(m) => prefixed("I/O error: ", m),
            BoltError::Backend(m) => prefixed("backend error: ", m),
        }
    }

    /// Wraps any displayable error as a backend error.
    pub fn backend<T: std::fmt::Display>(e: T) -> (r: BoltError)
        ensures
            r is Backend,
    {
        BoltError::Backend(e.to_string())
    }

    /// The metadata of the FAILURE reply that reports this error.
    pub fn to_failure_metadata(&self) -> (r: BoltDict)
        ensures
            r@ == failure_metadata(failure_parts(*self).0, failure_parts(*self).1),
    {
        match self {
            BoltError::Protocol(m) => failure_dict(CODE_REQUEST_INVALID, m.as_str()),
            BoltError::Authentication(m) => failure_dict(CODE_UNAUTHORIZED, m.as_str()),
            BoltError::Session(m) => failure_dict(CODE_REQUEST_INVALID, m.as_str()),
            BoltError::Transaction(m) => failure_dict(CODE_TX_START_FAILED, m.as_str()),
            BoltError::Query { code, message } => failure_dict(code.as_str(), message.as_str()),
            BoltError::ResourceExhausted(m) => failure_dict(CODE_OUT_OF_MEMORY, m.as_str()),
            BoltError::Io(m) => failure_dict(CODE_UNAVAILABLE, m.as_str()),
            BoltError::Backend(m) => failure_dict(CODE_UNKNOWN, m.as_str()),
        }
    }
}

} // verus!
