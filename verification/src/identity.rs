//! Actor identity: a short printable name chosen by the host.

use vstd::prelude::*;

verus! {

/// The identity a peer acts under. Two peers in one room must not share
/// a username, or their version vectors would collide.
#[derive(Debug, Clone)]
pub struct Identity {
    pub username: String,
}

impl Identity {
    /// Creates a new identity from a username.
    pub fn new(name: &str) -> (id: Identity)
        ensures
            id.username@ == name@,
    {
        Identity { username: name.to_owned() }
    }
}

} // verus!
