//! Tests of the identifier types: checksum derivation and bit layout.

use binary_vdf::id::{AppId, LegacyAppId, SteamId};

#[test]
fn derives_app_id_from_name_and_target() {
    // CRC-32 (ISO-HDLC) of the target's bytes then the name's bytes, with
    // the high bit set.
    let id = AppId::from_shortcut_name_and_target("game", "/bin/game");
    assert_eq!(id.0, 0xf6d41f03);
}

#[test]
fn app_id_always_sets_the_high_bit() {
    // the empty checksum is zero, so only the forced bit remains
    let id = AppId::from_shortcut_name_and_target("", "");
    assert_eq!(id.0, 0x80000000);
}

#[test]
fn widens_app_id_into_legacy_form() {
    let legacy = LegacyAppId::from_shortcut_name_and_target("game", "/bin/game");
    assert_eq!(legacy.0, 0xf6d41f03_02000000);
}

#[test]
fn legacy_round_trips_back_to_app_id() {
    let id = AppId(0x9abcdef0);
    let legacy = LegacyAppId::from(id);
    assert_eq!(legacy.0, 0x9abcdef0_02000000);
    assert_eq!(AppId::from(legacy), id);
}

#[test]
fn steam_id_path_form_keeps_the_low_word() {
    let id = SteamId(0x1_2345_6789);
    assert_eq!(id.to_path_id(), 0x2345_6789);
}

#[test]
fn steam_id_rebuilds_from_path_form() {
    assert_eq!(SteamId::from_path_id(4).0, 0x0110_0005);
    assert_eq!(SteamId::from_path_id(0x2345_6789).0, 0x2345_6789 | 0x0110_0001);
}
