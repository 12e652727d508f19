//! What the core hands to, and gets from, the backend that runs queries.
use vstd::prelude::*;

use crate::value::{BoltDict, BoltValue};

verus! {

/// Settings taken from HELLO for a new backend session.
#[derive(Debug)]
pub struct SessionConfig {
    pub user_agent: String,
    pub database: Option<String>,
}

/// A session property the client may change.
#[derive(Debug)]
pub enum SessionProperty {
    Database(String),
}

/// Transaction access mode.
#[derive(Debug, Clone, Copy, PartialEq, Eq, Structural)]
pub enum AccessMode {
    Read,
    Write,
}

/// Credentials taken from LOGON.
#[derive(Debug, Clone)]
pub struct AuthCredentials {
    pub scheme: String,
    pub principal: Option<String>,
    pub credentials: Option<String>,
}

/// One row of a query result.
#[derive(Debug)]
pub struct BoltRecord {
    pub values: Vec<BoltValue>,
}

/// The column names of a result and extra metadata.
#[derive(Debug)]
pub struct ResultMetadata {
    pub columns: Vec<String>,
    pub extra: BoltDict,
}

/// A complete query result: metadata, records and summary.
#[derive(Debug)]
pub struct ResultStream {
    pub metadata: ResultMetadata,
    pub records: Vec<BoltRecord>,
    pub summary: BoltDict,
}

} // verus!
