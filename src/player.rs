//! A connected player: its id and display name.
use vstd::prelude::*;

verus! {

/// Relies on uuid's `Uuid::new_v4` (random version-4 id) and
/// `Uuid::as_u128` (its 128 bits): a random value, so nothing is known of
/// it.
#[verifier::external_body]
pub(crate) fn fresh_id() -> (r: u128) {
    uuid::Uuid::new_v4().as_u128()
}

#[derive(Debug, Clone)]
pub struct Player {
    pub id: u128,
    pub display_name: String,
}

impl Player {
    /// A player with a fresh random id and the placeholder name `TBC`.
    pub fn new() -> (r: Player)
        ensures
            r.display_name@ == "TBC"@,
    {
        Player { id: fresh_id(), display_name: "TBC".to_owned() }
    }

    pub fn get_id(&self) -> (r: u128)
        ensures
            r == self.id,
    {
        self.id
    }
}

} // verus!
