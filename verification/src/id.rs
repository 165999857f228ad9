//! Stable numeric identifiers derived from shortcut data.

pub use self::app_id::AppId;
pub use self::legacy_app_id::LegacyAppId;
pub use self::steam_id::SteamId;

pub mod app_id;
pub mod legacy_app_id;
pub mod steam_id;
