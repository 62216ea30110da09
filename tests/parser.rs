use steam_shortcuts_util::shortcuts_parser::{get_order, get_tags, parse_a_line};

#[test]
fn get_order_test() {
    const DATA: [u8; 3] = [
        // Offset 0x00000011 to 0x00000013
        0x00, 0x30, 0x00,
    ];
    let (r, order) = get_order(&DATA).unwrap();
    assert_eq!(0, order);
    assert_eq!(0, r.len());
}

#[test]
fn get_app_id_test() {
    const DATA: [u8; 13] = [
        // Offset 0x00000000 to 0x00000010
        0x02, 0x61, 0x70, 0x70, 0x69, 0x64, 0x00, 0x8D, 0x0F, 0xF8, 0x8C, 0x01, 0x41,
    ];
    let i = DATA;
    let (r, id) = parse_a_line(&i).unwrap();
    assert_eq!(2, r.len());
    assert_eq!("appid", id.name());
    assert_eq!(2365067149, id.num_value());
}

#[test]
fn get_app_name_test() {
    const DATA: [u8; 17] = [
        // Offset 0x00000000 to 0x00000016
        0x01, 0x41, 0x70, 0x70, 0x4E, 0x61, 0x6D, 0x65, 0x00, 0x43, 0x65, 0x6C, 0x65, 0x73,
        0x74, 0x65, 0x00,
    ];
    let i = DATA;
    let (_r, id) = parse_a_line(&i).unwrap();
    assert_eq!("AppName", id.name());
    assert_eq!("Celeste", id.text_value());
}

#[test]
fn get_exe_name_test() {
    const DATA: [u8; 44] = [
        // Offset 0x00000042 to 0x00000085
        0x01, 0x45, 0x78, 0x65, 0x00, 0x22, 0x43, 0x3A, 0x5C, 0x4D, 0x79, 0x53, 0x6D, 0x61,
        0x6C, 0x6C, 0x50, 0x72, 0x6F, 0x67, 0x72, 0x61, 0x6D, 0x73, 0x5C, 0x65, 0x70, 0x69,
        0x63, 0x5F, 0x6C, 0x61, 0x75, 0x6E, 0x63, 0x68, 0x65, 0x72, 0x2E, 0x65, 0x78, 0x65,
        0x22, 0x00,
    ];

    let i = DATA;
    let (_r, id) = parse_a_line(&i).unwrap();
    assert_eq!("Exe", id.name());
    assert_eq!(
        "\"C:\\MySmallPrograms\\epic_launcher.exe\"",
        id.text_value()
    );
}

#[test]
fn get_is_hidden_test() {
    const DATA: [u8; 14] = [
        // Offset 0x00000332 to 0x00000345
        0x02, 0x49, 0x73, 0x48, 0x69, 0x64, 0x64, 0x65, 0x6E, 0x00, 0x00, 0x00, 0x00, 0x00,
    ];

    let i = DATA;
    let (_r, id) = parse_a_line(&i).unwrap();
    assert_eq!(false, id.num_value() != 0);
}

#[test]
fn get_allow_desktop_config_test() {
    const DATA: [u8; 24] = [
        // Offset 0x00000346 to 0x00000369
        0x02, 0x41, 0x6C, 0x6C, 0x6F, 0x77, 0x44, 0x65, 0x73, 0x6B, 0x74, 0x6F, 0x70, 0x43,
        0x6F, 0x6E, 0x66, 0x69, 0x67, 0x00, 0x01, 0x00, 0x00, 0x00,
    ];

    let i = DATA;
    let (_r, id) = parse_a_line(&i).unwrap();
    assert_eq!(false, id.num_value() != 0);
}

#[test]
fn get_tags_test() {
    const DATA: [u8; 49] = [
        // Offset 0x00000445 to 0x00000493
        0x00, 0x74, 0x61, 0x67, 0x73, 0x00, 0x01, 0x30, 0x00, 0x66, 0x61, 0x76, 0x6F, 0x72,
        0x69, 0x74, 0x65, 0x00, 0x01, 0x31, 0x00, 0x49, 0x6E, 0x73, 0x74, 0x61, 0x6C, 0x6C,
        0x65, 0x64, 0x00, 0x01, 0x32, 0x00, 0x52, 0x65, 0x61, 0x64, 0x79, 0x20, 0x54, 0x4F,
        0x20, 0x50, 0x6C, 0x61, 0x79, 0x00, 0x08,
    ];

    let i = DATA;
    let res = get_tags(&i);
    let res_unwrapped = res.unwrap();
    assert_eq!(
        vec!["favorite", "Installed", "Ready TO Play"],
        res_unwrapped.1
    );
}
