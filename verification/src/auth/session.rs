//! Connection-local session context (`USE` targets).

use vstd::prelude::*;

verus! {

/// Per-connection state: account, user, and the role, warehouse, database and schema in use.
#[derive(Debug, Clone, Default, PartialEq, Eq)]
pub struct SessionContext {
    /// Account identifier.
    pub account: Option<String>,
    /// Authenticated login name.
    pub user: Option<String>,
    /// Active role.
    pub role: Option<String>,
    /// Target virtual warehouse.
    pub warehouse: Option<String>,
    /// Default database for unqualified object names.
    pub database: Option<String>,
    /// Default schema within the database.
    pub schema: Option<String>,
}

impl SessionContext {
    /// Whether both database and schema are set.
    pub fn has_namespace(&self) -> (r: bool)
        ensures
            r == (self.database is Some && self.schema is Some),
    {
        self.database.is_some() && self.schema.is_some()
    }
}

/// A copy of an optional string with the same text.
pub fn clone_opt(o: &Option<String>) -> (r: Option<String>)
    ensures
        match *o {
            Some(s) => r matches Some(t) && t@ == s@,
            None => r is None,
        },
{
    match o {
        Some(s) => Some(s.clone()),
        None => None,
    }
}

} // verus!
