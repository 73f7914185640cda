//! Decisions of the REST API: statement handles and their lifecycle, who may call
//! the API, and session login and logout.

use vstd::prelude::*;

pub mod access;
pub mod statements;

verus! {

/// An answer with an HTTP status code and a JSON body `{"message": ...}`.
#[derive(Debug, Clone, PartialEq, Eq)]
pub struct Reply {
    pub status: u16,
    pub message: String,
}

} // verus!
