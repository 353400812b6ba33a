//! Records of the write-ahead log.
use vstd::prelude::*;

verus! {

/// An operation recorded in the Write-Ahead Log.
#[derive(Debug, Clone, PartialEq, Eq)]
pub enum WalRecord {
    Add { id: String, title: String, body: String },
    Delete { id: String },
}

} // verus!
