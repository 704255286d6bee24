//! Ids and the time.

use vstd::prelude::*;

verus! {

/// A new id, by `uuid::Uuid::new_v4` and its text.
///
/// The id is left to chance; of its text only that it has 36 characters is
/// claimed.
#[verifier::external_body]
pub(crate) fn fresh_id() -> (r: String)
    ensures
        r@.len() == 36,
{
    uuid::Uuid::new_v4().to_string()
}

/// The seconds since 1970, by `chrono::Utc::now` and its timestamp. They are those of
/// the machine's clock; nothing is claimed of them.
#[verifier::external_body]
pub(crate) fn unix_seconds() -> (r: i64)
{
    chrono::Utc::now().timestamp()
}

} // verus!
