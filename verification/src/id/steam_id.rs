//! The user identifier under which shortcut files are stored.

use vstd::prelude::*;

verus! {

/// The bits set in every identifier rebuilt from a path.
pub const STEAM_ID_BASE: u64 = 0x01100001;

/// A 64-bit user identifier.
#[derive(Copy, Clone, PartialEq, Eq, PartialOrd, Ord, Hash, Debug, Structural)]
pub struct SteamId(pub u64);

impl SteamId {
    /// The identifier's low 32 bits, which name the user's directory.
    pub fn to_path_id(self) -> (r: u32)
        ensures
            r == self.0 as u32,
    {
        self.0 as u32
    }

    /// Rebuilds a full identifier from a directory's 32-bit form.
    pub fn from_path_id(id: u32) -> (r: Self)
        ensures
            r.0 == (id as u64) | STEAM_ID_BASE,
    {
        Self(id as u64 | STEAM_ID_BASE)
    }
}

} // verus!
