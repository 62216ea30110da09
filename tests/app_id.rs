use steam_shortcuts_util::app_id_generator::app_id_from_checksum;
use steam_shortcuts_util::{calculate_app_id, calculate_app_id_for_shortcut, Shortcut};

#[test]
fn app_id_is_deterministic() {
    assert_eq!(calculate_app_id("X", "Y"), calculate_app_id("X", "Y"));
}

#[test]
fn app_id_depends_on_order_of_parts() {
    assert_ne!(calculate_app_id("X", "Y"), calculate_app_id("Y", "X"));
}

#[test]
fn app_id_has_top_bit() {
    for (exe, name) in [("X", "Y"), ("", ""), ("C:\\game.exe", "Game"), ("a", "")] {
        assert!(calculate_app_id(exe, name) & 0x8000_0000 != 0);
    }
}

#[test]
fn app_id_of_empty_texts() {
    // The CRC-32 of no bytes is zero.
    assert_eq!(calculate_app_id("", ""), 0x8000_0000);
}

#[test]
fn app_id_of_check_string() {
    // The CRC-32 of "123456789" is 0xCBF43926, whichever way the text is split.
    assert_eq!(calculate_app_id("1234", "56789"), 0xCBF4_3926);
    assert_eq!(calculate_app_id("", "123456789"), 0xCBF4_3926);
}

#[test]
fn app_id_of_lowercase_a() {
    // The CRC-32 of "a" is 0xE8B7BE43.
    assert_eq!(calculate_app_id("a", ""), 0xE8B7_BE43);
}

#[test]
fn app_id_from_checksum_sets_top_bit() {
    assert_eq!(app_id_from_checksum(0x1234), 0x8000_1234);
    assert_eq!(app_id_from_checksum(0x8000_0001), 0x8000_0001);
    assert_eq!(app_id_from_checksum(0), 0x8000_0000);
}

#[test]
fn app_id_for_shortcut_uses_exe_and_name() {
    let s = Shortcut::new(0, "Game", "game.exe", "", "", "", "");
    assert_eq!(calculate_app_id_for_shortcut(&s), calculate_app_id("game.exe", "Game"));
    assert_eq!(s.app_id, calculate_app_id("game.exe", "Game"));
}
