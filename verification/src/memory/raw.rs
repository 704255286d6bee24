//! Messages as they were.

use crate::ident::{fresh_id, unix_seconds};
use vstd::prelude::*;
use vstd::string::*;

verus! {

/// A message as it was.
#[derive(Debug)]
pub struct RawMessage {
    pub id: String,
    pub session_id: String,
    pub role: String,
    pub content: String,
    /// In seconds.
    pub created_at: i64,
}

impl RawMessage {
    /// A message of now, with an id of its own.
    pub fn new(session_id: &str, role: &str, content: &str) -> (r: Self)
        ensures
            r.id@.len() == 36,
            r.session_id@ == session_id@,
            r.role@ == role@,
            r.content@ == content@,
    {
        RawMessage {
            id: fresh_id(),
            session_id: session_id.to_string(),
            role: role.to_string(),
            content: content.to_string(),
            created_at: unix_seconds(),
        }
    }
}

} // verus!
