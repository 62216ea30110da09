use steam_shortcuts_util::{
    decode_shortcuts, parse_shortcuts, shortcuts_to_bytes, DecodeError, Shortcut, ShortcutOwned,
    Token,
};

const NUL: u8 = 0x00;
const SOH: u8 = 0x01;
const STX: u8 = 0x02;
const BS: u8 = 0x08;

fn header() -> Vec<u8> {
    let mut b = vec![NUL];
    b.extend_from_slice(b"shortcuts");
    b.push(NUL);
    b
}

fn text_line(b: &mut Vec<u8>, key: &str, value: &str) {
    b.push(SOH);
    b.extend_from_slice(key.as_bytes());
    b.push(NUL);
    b.extend_from_slice(value.as_bytes());
    b.push(NUL);
}

fn long_line(b: &mut Vec<u8>, key: &str, value: u32) {
    b.push(STX);
    b.extend_from_slice(key.as_bytes());
    b.push(NUL);
    b.extend_from_slice(&value.to_le_bytes());
}

fn short_line(b: &mut Vec<u8>, key: &str, value: u32) {
    b.push(STX);
    b.extend_from_slice(key.as_bytes());
    b.push(NUL);
    b.push(SOH);
    b.extend_from_slice(&value.to_le_bytes()[..3]);
}

fn tags_block(b: &mut Vec<u8>, entries: &[(&str, &str)]) {
    b.push(NUL);
    b.extend_from_slice(b"tags");
    b.push(NUL);
    for (index, tag) in entries {
        b.push(SOH);
        b.extend_from_slice(index.as_bytes());
        b.push(NUL);
        b.extend_from_slice(tag.as_bytes());
        b.push(NUL);
    }
    b.push(BS);
}

fn sample(order: usize, name: &'static str, tags: Vec<&'static str>) -> Shortcut<'static> {
    Shortcut {
        order,
        app_id: 0x8CF8_0F8D,
        app_name: name,
        exe: "\"C:\\Games\\game.exe\"",
        start_dir: "\"C:\\Games\\\"",
        icon: "icon.png",
        shortcut_path: "",
        launch_options: "-fullscreen",
        is_hidden: false,
        allow_desktop_config: true,
        allow_overlay: false,
        open_vr: 0,
        dev_kit: 7,
        dev_kit_game_id: "",
        dev_kit_overrite_app_id: 0x1234_5678,
        last_play_time: 1_600_000_000,
        tags,
    }
}

#[test]
fn round_trip_empty_list() {
    let records: Vec<Shortcut> = vec![];
    let bytes = shortcuts_to_bytes(&records);
    assert_eq!(bytes, vec![NUL, b's', b'h', b'o', b'r', b't', b'c', b'u', b't', b's', NUL, BS, BS]);
    assert_eq!(parse_shortcuts(&bytes).unwrap(), records);
}

#[test]
fn round_trip_one_record() {
    let records = vec![sample(0, "Celeste", vec!["Installed"])];
    let bytes = shortcuts_to_bytes(&records);
    assert_eq!(parse_shortcuts(&bytes).unwrap(), records);
}

#[test]
fn round_trip_many_records_and_flags() {
    let mut records = vec![];
    let flags = [(false, false), (false, true), (true, false), (true, true)];
    for (k, (desktop, overlay)) in flags.iter().enumerate() {
        let mut s = sample(k, "Game", vec![]);
        s.allow_desktop_config = *desktop;
        s.allow_overlay = *overlay;
        s.tags = if k % 2 == 0 { vec![] } else { vec!["favorite", "Ready TO Play", "ünïcødé"] };
        records.push(s);
    }
    let bytes = shortcuts_to_bytes(&records);
    assert_eq!(parse_shortcuts(&bytes).unwrap(), records);
}

#[test]
fn round_trip_keeps_order_field() {
    let records = vec![sample(5, "A", vec![]), sample(123, "B", vec!["x"])];
    let bytes = shortcuts_to_bytes(&records);
    let back = parse_shortcuts(&bytes).unwrap();
    assert_eq!(back[0].order, 5);
    assert_eq!(back[1].order, 123);
    assert_eq!(back, records);
}

#[test]
fn hidden_flag_written_in_long_form_reads_as_short_form() {
    // The long form of 1 is `01 00 00 00`, which the reader takes as the short form of 0.
    let mut s = sample(0, "Game", vec![]);
    s.is_hidden = true;
    let bytes = shortcuts_to_bytes(&vec![s]);
    let back = parse_shortcuts(&bytes).unwrap();
    assert_eq!(back[0].is_hidden, false);
}

#[test]
fn writer_produces_exact_bytes() {
    let s = Shortcut {
        order: 0,
        app_id: 0x0403_0201 + 1,
        app_name: "G",
        exe: "e",
        start_dir: "",
        icon: "",
        shortcut_path: "",
        launch_options: "",
        is_hidden: false,
        allow_desktop_config: true,
        allow_overlay: false,
        open_vr: 0,
        dev_kit: 0,
        dev_kit_game_id: "",
        dev_kit_overrite_app_id: 0,
        last_play_time: 0x0A0B_0C0D,
        tags: vec!["t"],
    };
    let mut expected = header();
    expected.extend_from_slice(&[NUL, b'0', NUL]);
    long_line(&mut expected, "appid", 0x0403_0202);
    text_line(&mut expected, "AppName", "G");
    text_line(&mut expected, "Exe", "e");
    text_line(&mut expected, "StartDir", "");
    text_line(&mut expected, "icon", "");
    text_line(&mut expected, "ShortcutPath", "");
    text_line(&mut expected, "LaunchOptions", "");
    long_line(&mut expected, "IsHidden", 0);
    expected.extend_from_slice(&[STX]);
    expected.extend_from_slice(b"AllowDesktopConfig");
    expected.extend_from_slice(&[NUL, SOH, NUL, NUL, 1]);
    expected.extend_from_slice(&[STX]);
    expected.extend_from_slice(b"AllowOverlay");
    expected.extend_from_slice(&[NUL, SOH, NUL, NUL, 0]);
    long_line(&mut expected, "openvr", 0);
    long_line(&mut expected, "Devkit", 0);
    text_line(&mut expected, "DevkitGameID", "");
    long_line(&mut expected, "DevkitOverrideAppID", 0);
    long_line(&mut expected, "LastPlayTime", 0x0A0B_0C0D);
    tags_block(&mut expected, &[("0", "t")]);
    expected.push(BS);
    expected.extend_from_slice(&[BS, BS]);
    assert_eq!(shortcuts_to_bytes(&vec![s]), expected);
}

#[test]
fn tags_are_numbered_by_position() {
    let s = sample(0, "Game", (0..12).map(|_| "t").collect());
    let bytes = shortcuts_to_bytes(&vec![s]);
    let mut needle = vec![SOH, b'1', b'1', NUL, b't', NUL, BS];
    assert!(bytes.windows(needle.len()).any(|w| w == needle.as_slice()));
    needle = vec![SOH, b'9', NUL, b't', NUL, SOH, b'1', b'0', NUL];
    assert!(bytes.windows(needle.len()).any(|w| w == needle.as_slice()));
}

/// A record block holding only an app name, with `value_line` written for `openvr`.
fn record_with(value_line: impl Fn(&mut Vec<u8>)) -> Vec<u8> {
    let mut b = header();
    b.extend_from_slice(&[NUL, b'0', NUL]);
    text_line(&mut b, "AppName", "Game");
    value_line(&mut b);
    tags_block(&mut b, &[]);
    b.push(BS);
    b.push(BS);
    b
}

#[test]
fn short_and_long_forms_read_alike() {
    for v in [0u32, 5, 0x00AB_CDEF, 0x0000_0100] {
        let long = record_with(|b| long_line(b, "openvr", v));
        let short = record_with(|b| short_line(b, "openvr", v));
        let a = decode_shortcuts(&long).unwrap();
        let b = decode_shortcuts(&short).unwrap();
        assert_eq!(a, b);
        assert_eq!(a[0].open_vr, v);
    }
}

#[test]
fn unknown_key_is_ignored() {
    let plain = record_with(|b| long_line(b, "openvr", 3));
    let injected = record_with(|b| {
        text_line(b, "SomethingNew", "value");
        long_line(b, "openvr", 3);
        long_line(b, "FutureNumber", 99);
    });
    let a = decode_shortcuts(&plain).unwrap();
    let b = decode_shortcuts(&injected).unwrap();
    assert_eq!(a, b);
    assert_eq!(b[0].open_vr, 3);
}

#[test]
fn later_line_with_same_key_wins() {
    let buf = record_with(|b| {
        long_line(b, "openvr", 3);
        long_line(b, "openvr", 4);
    });
    assert_eq!(decode_shortcuts(&buf).unwrap()[0].open_vr, 4);
}

#[test]
fn missing_keys_take_defaults() {
    let mut b = header();
    b.extend_from_slice(&[NUL, b'3', NUL]);
    tags_block(&mut b, &[]);
    b.extend_from_slice(&[BS, BS]);
    let r = decode_shortcuts(&b).unwrap();
    assert_eq!(r.len(), 1);
    assert_eq!(r[0].order, 3);
    assert_eq!(r[0].app_id, 0);
    assert_eq!(r[0].app_name, "");
    assert_eq!(r[0].allow_overlay, false);
    assert!(r[0].tags.is_empty());
}

#[test]
fn tag_order_ignores_index_bytes() {
    for indices in [["0", "1", "2"], ["9", "9", "9"], ["2", "1", "0"], ["x", "", "17"]] {
        let mut b = header();
        b.extend_from_slice(&[NUL, b'0', NUL]);
        let entries: Vec<(&str, &str)> = indices.iter().cloned().zip(["a", "b", "c"]).collect();
        tags_block(&mut b, &entries);
        b.extend_from_slice(&[BS, BS]);
        let r = decode_shortcuts(&b).unwrap();
        assert_eq!(r[0].tags, vec!["a", "b", "c"]);
    }
}

#[test]
fn truncation_fails() {
    let records = vec![sample(0, "Celeste", vec!["Installed"]), sample(1, "Other", vec![])];
    let bytes = shortcuts_to_bytes(&records);
    for k in 0..bytes.len() - 1 {
        assert!(decode_shortcuts(&bytes[..k]).is_err(), "prefix of length {}", k);
    }
    assert_eq!(decode_shortcuts(&bytes[..bytes.len() - 1]).unwrap(), records);
}

#[test]
fn end_to_end_minimal_buffer() {
    let mut b = header();
    b.extend_from_slice(&[NUL, b'0', NUL]);
    long_line(&mut b, "appid", 0x8000_0002);
    text_line(&mut b, "AppName", "Game");
    b.extend_from_slice(&[NUL, b't', b'a', b'g', b's', NUL, SOH, b'0', NUL]);
    b.extend_from_slice(b"Installed");
    b.extend_from_slice(&[NUL, BS, BS, BS]);
    let r = parse_shortcuts(&b).unwrap();
    assert_eq!(r.len(), 1);
    assert_eq!(r[0].order, 0);
    assert_eq!(r[0].app_name, "Game");
    assert_eq!(r[0].app_id, 0x8000_0002);
    assert_eq!(r[0].tags, vec!["Installed"]);
}

fn expect_error(b: &[u8], e: DecodeError) {
    assert_eq!(decode_shortcuts(b).unwrap_err(), e);
}

#[test]
fn error_missing_header() {
    expect_error(b"\0shortcut\0\x08", DecodeError::Expected { offset: 0, token: Token::Header });
    expect_error(b"", DecodeError::Expected { offset: 0, token: Token::Header });
}

#[test]
fn error_record_or_end() {
    let mut b = header();
    b.push(b'x');
    expect_error(&b, DecodeError::Expected { offset: 11, token: Token::RecordOrEnd });
    expect_error(&header(), DecodeError::Expected { offset: 11, token: Token::RecordOrEnd });
}

#[test]
fn error_bad_order() {
    let mut b = header();
    b.extend_from_slice(&[NUL, b'1', b'a', NUL]);
    expect_error(&b, DecodeError::Expected { offset: 12, token: Token::Order });
    let mut b = header();
    b.extend_from_slice(&[NUL, NUL]);
    expect_error(&b, DecodeError::Expected { offset: 12, token: Token::Order });
    let mut b = header();
    b.push(NUL);
    b.extend_from_slice(b"99999999999999999999999");
    b.push(NUL);
    expect_error(&b, DecodeError::Expected { offset: 12, token: Token::Order });
}

#[test]
fn error_missing_nul() {
    let mut b = header();
    b.extend_from_slice(&[NUL, b'1']);
    expect_error(&b, DecodeError::Expected { offset: 13, token: Token::Nul });
}

#[test]
fn error_numeric_value_cut_short() {
    let mut b = header();
    b.extend_from_slice(&[NUL, b'0', NUL, STX, b'k', NUL, 1, 2]);
    expect_error(&b, DecodeError::Expected { offset: 17, token: Token::NumericValue });
}

#[test]
fn error_tags_header() {
    let mut b = header();
    b.extend_from_slice(&[NUL, b'0', NUL, NUL, b't', b'a', b'g', NUL]);
    expect_error(&b, DecodeError::Expected { offset: 14, token: Token::TagsHeader });
}

#[test]
fn error_tag_or_end() {
    let mut b = header();
    b.extend_from_slice(&[NUL, b'0', NUL]);
    b.extend_from_slice(&[NUL, b't', b'a', b'g', b's', NUL, STX]);
    expect_error(&b, DecodeError::Expected { offset: 20, token: Token::TagOrEnd });
}

#[test]
fn error_record_end() {
    let mut b = header();
    b.extend_from_slice(&[NUL, b'0', NUL]);
    tags_block(&mut b, &[]);
    b.push(NUL);
    expect_error(&b, DecodeError::Expected { offset: 21, token: Token::RecordEnd });
}

#[test]
fn error_invalid_utf8() {
    let mut b = header();
    b.extend_from_slice(&[NUL, b'0', NUL, SOH, b'k', NUL, 0xFF, 0xFE, NUL]);
    expect_error(&b, DecodeError::InvalidUtf8 { offset: 17 });
}

#[test]
fn error_messages() {
    assert_eq!(parse_shortcuts(b"").unwrap_err(), "expected list header at offset 0");
    let mut b = header();
    b.extend_from_slice(&[NUL, b'0', NUL, SOH, b'k', NUL, 0xFF, NUL]);
    assert_eq!(parse_shortcuts(&b).unwrap_err(), "invalid UTF-8 at offset 17");
    let e = DecodeError::Expected { offset: 1234, token: Token::TagOrEnd };
    assert_eq!(e.message(), "expected tag or end of tags at offset 1234");
}

#[test]
fn new_has_defaults() {
    let s = Shortcut::new(2, "Game", "game.exe", "dir", "icon.png", "path", "-opt");
    assert_eq!(s.order, 2);
    assert_eq!(s.app_name, "Game");
    assert_eq!(s.exe, "game.exe");
    assert_eq!(s.start_dir, "dir");
    assert_eq!(s.icon, "icon.png");
    assert_eq!(s.shortcut_path, "path");
    assert_eq!(s.launch_options, "-opt");
    assert!(!s.is_hidden);
    assert!(s.allow_desktop_config);
    assert!(s.allow_overlay);
    assert_eq!((s.open_vr, s.dev_kit, s.dev_kit_overrite_app_id, s.last_play_time), (0, 0, 0, 0));
    assert_eq!(s.dev_kit_game_id, "");
    assert_eq!(s.tags, vec!["Installed", "Ready To Play"]);
    assert!(s.app_id & 0x8000_0000 != 0);
}

#[test]
fn owned_and_borrowed_forms_agree() {
    let s = sample(4, "Game", vec!["a", "b"]);
    let owned: ShortcutOwned = s.to_owned();
    assert_eq!(owned.app_name, "Game".to_string());
    assert_eq!(owned.tags, vec!["a".to_string(), "b".to_string()]);
    let back = owned.borrow();
    assert_eq!(back, s);
}
