//! Players.

use vstd::prelude::*;

verus! {

/// A connected player, known by its name.
#[derive(Debug, Default)]
pub struct Player {
    pub username: String,
}

impl Player {
    /// The player with the name.
    pub fn new(username: String) -> (r: Player)
        ensures
            r.username == username,
    {
        Player { username }
    }
}

} // verus!
