//! The 64-bit "legacy" widening of an application identifier.

use vstd::prelude::*;
use vstd::utf8::encode_utf8;

use super::app_id::{crc32_iso_hdlc, AppId, BIT_31};

verus! {

/// The fixed low word of every legacy identifier.
pub const LEGACY_APP_ID_LOW: u64 = 0x02000000;

/// A shortcut's 64-bit legacy identifier: the 32-bit identifier in the
/// high word, a fixed constant in the low word.
#[derive(Copy, Clone, PartialEq, Eq, PartialOrd, Ord, Hash, Debug, Structural)]
pub struct LegacyAppId(pub u64);

impl LegacyAppId {
    /// Derives the legacy identifier from a shortcut's name and target:
    /// the 32-bit identifier, widened.
    pub fn from_shortcut_name_and_target(name: &str, target: &str) -> (r: Self)
        ensures
            r.0 == (((crc32_iso_hdlc(encode_utf8(target@) + encode_utf8(name@)) | BIT_31)
                as u64) << 32u64) | LEGACY_APP_ID_LOW,
    {
        let app_id = AppId::from_shortcut_name_and_target(name, target);
        Self::from(app_id)
    }
}

impl From<AppId> for LegacyAppId {
    /// The identifier shifted into the high word, over the fixed low
    /// word.
    fn from(app_id: AppId) -> (r: LegacyAppId) {
        let legacy_id = app_id.0;
        let mut legacy_id = legacy_id as u64;
        legacy_id = legacy_id << 32;
        legacy_id = legacy_id | LEGACY_APP_ID_LOW;
        Self(legacy_id)
    }
}

impl vstd::std_specs::convert::FromSpecImpl<AppId> for LegacyAppId {
    open spec fn obeys_from_spec() -> bool {
        true
    }

    open spec fn from_spec(app_id: AppId) -> LegacyAppId {
        LegacyAppId(((app_id.0 as u64) << 32u64) | LEGACY_APP_ID_LOW)
    }
}

} // verus!
