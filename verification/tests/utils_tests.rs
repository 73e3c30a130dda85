use aula_driver::text::format_key_code;
use aula_driver::types::{Color, Key, KeyLayer};
use aula_driver::utils::{build_key_lookup, extract_color_from_lights, parse_hex};

#[test]
fn parse_hex_reads_key_codes() {
    assert_eq!(parse_hex("0x00000004"), 4);
    assert_eq!(parse_hex("0x1F"), 31);
    assert_eq!(parse_hex("0x1f"), 31);
    assert_eq!(parse_hex("ff"), 255);
    assert_eq!(parse_hex("0xFFFFFFFF"), u32::MAX);
    assert_eq!(parse_hex("0x02000055"), 0x0200_0055);
}

#[test]
fn parse_hex_strips_every_leading_prefix() {
    assert_eq!(parse_hex("0x0x10"), 16);
    assert_eq!(parse_hex("0x0x0x7"), 7);
    assert_eq!(parse_hex("00x7"), 0);
}

#[test]
fn parse_hex_sign_handling() {
    assert_eq!(parse_hex("+ff"), 255);
    assert_eq!(parse_hex("0x+ff"), 255);
    assert_eq!(parse_hex("-1"), 0);
    assert_eq!(parse_hex("+"), 0);
    assert_eq!(parse_hex("-"), 0);
}

#[test]
fn parse_hex_invalid_gives_zero() {
    assert_eq!(parse_hex(""), 0);
    assert_eq!(parse_hex("0x"), 0);
    assert_eq!(parse_hex("0X10"), 0);
    assert_eq!(parse_hex("zz"), 0);
    assert_eq!(parse_hex("0x12 "), 0);
    assert_eq!(parse_hex("0x100000000"), 0);
    assert_eq!(parse_hex("0x1234567890"), 0);
    assert_eq!(parse_hex("é1"), 0);
}

#[test]
fn format_key_code_pads_to_eight_digits() {
    assert_eq!(format_key_code(0x2c), "0x0000002c");
    assert_eq!(format_key_code(0), "0x00000000");
    assert_eq!(format_key_code(0xdeadbeef), "0xdeadbeef");
    assert_eq!(format_key_code(u32::MAX), "0xffffffff");
}

#[test]
fn key_code_text_round_trip() {
    for v in [0u32, 1, 0x2c, 0x0200_0055, 0xabcdef01, u32::MAX] {
        assert_eq!(parse_hex(&format_key_code(v)), v);
    }
}

fn key(name: &str, value: &str) -> Key {
    Key::new_basic(name.to_string(), value.to_string(), 0, KeyLayer::Normal)
}

#[test]
fn key_lookup_maps_code_to_label() {
    let keys = vec![key("A", "0x00000004"), key("B", "0x00000005")];
    let lookup = build_key_lookup(&keys);
    assert_eq!(lookup.get(&"0x00000004".to_string()), Some(&"A".to_string()));
    assert_eq!(lookup.get(&"0x00000005".to_string()), Some(&"B".to_string()));
    assert_eq!(lookup.get(&"0x00000006".to_string()), None);
}

#[test]
fn key_lookup_later_key_wins() {
    let keys = vec![key("First", "0x00000004"), key("Other", "0x00000009"), key("Second", "0x00000004")];
    let lookup = build_key_lookup(&keys);
    assert_eq!(lookup.get(&"0x00000004".to_string()), Some(&"Second".to_string()));
    assert_eq!(build_key_lookup(&[]).get(&"0x00000004".to_string()), None);
}

#[test]
fn extract_color_reads_three_planes() {
    let mut lights = vec![0u8; 512];
    lights[5] = 10;
    lights[5 + 126] = 20;
    lights[5 + 252] = 30;
    assert_eq!(extract_color_from_lights(&lights, 5), Color::new(10, 20, 30, 1));
    assert_eq!(extract_color_from_lights(&lights, 6), Color::new(0, 0, 0, 0));
}

#[test]
fn extract_color_out_of_range_is_default() {
    let lights = vec![7u8; 512];
    assert_eq!(extract_color_from_lights(&lights, 126), Color::default());
    assert_eq!(extract_color_from_lights(&lights, usize::MAX), Color::default());
    let short = vec![7u8; 300];
    assert_eq!(extract_color_from_lights(&short, 48), Color::default());
    assert_eq!(extract_color_from_lights(&short, 47), Color::new(7, 7, 7, 1));
}

#[test]
fn key_lookup_len_and_contains_key() {
    let keys = vec![key("First", "0x00000004"), key("Other", "0x00000009"), key("Second", "0x00000004")];
    let lookup = build_key_lookup(&keys);
    assert_eq!(lookup.len(), 2);
    assert!(lookup.contains_key(&"0x00000004".to_string()));
    assert!(lookup.contains_key(&"0x00000009".to_string()));
    assert!(!lookup.contains_key(&"0x00000005".to_string()));
    assert_eq!(build_key_lookup(&[]).len(), 0);
}

#[test]
fn parse_hex_reads_uppercase_unpadded() {
    for v in [0u32, 7, 0x2c, 0x1000, 0x0200_0055, 0xabcdef01, u32::MAX] {
        assert_eq!(parse_hex(&format!("{:X}", v)), v);
        assert_eq!(parse_hex(&format!("0x{:08x}", v)), v);
    }
}
