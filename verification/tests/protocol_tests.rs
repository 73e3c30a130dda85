use aula_driver::devices::aula_f75::{
    apply_custom_light, basic_info_payload_bytes, custom_light_payload_bytes, frame_packet,
    is_vendor_interface, keys_command, keys_from_layer_data, keys_payload_bytes,
    light_color_payload_bytes, parse_basic_info, parse_battery, parse_custom_light_response,
    parse_keys_response, parse_uuid, received_payload, speed_to_magic, AulaF75Driver,
    ProtocolError, CMD_GET_UUID, SL,
};
use aula_driver::types::{BatteryStatus, Color, DeviceInfo, Effect, Key, KeyLayer, KeyType, LightParam};

fn sample_info() -> DeviceInfo {
    DeviceInfo {
        mac_mode: true,
        polling_level: 4,
        low_latency: true,
        win_lock: false,
        light_mode: Effect::NeonStream,
        sleep_level: 9,
        light_params: (0..34u8).map(|i| LightParam::new(i, 100 + i)).collect(),
    }
}

#[test]
fn driver_matches_only_the_keyboard() {
    let d = AulaF75Driver;
    assert!(d.matches(9610, 268));
    assert!(!d.matches(9610, 269));
    assert!(!d.matches(1, 268));
}

#[test]
fn vendor_interface_selection() {
    assert!(is_vendor_interface(9610, 268, 1, 0xff00));
    assert!(!is_vendor_interface(9610, 268, 0, 0xff00));
    assert!(!is_vendor_interface(9610, 268, 1, 0x0001));
    assert!(!is_vendor_interface(9611, 268, 1, 0xff00));
}

#[test]
fn frame_packet_pads_and_prefixes() {
    let r = frame_packet(&CMD_GET_UUID);
    assert_eq!(r.len(), 520);
    assert_eq!(r[0], 6);
    assert_eq!(&r[1..8], &[130, 1, 0, 1, 0, 6, 0]);
    assert!(r[8..].iter().all(|b| *b == 0));
}

#[test]
fn frame_packet_cuts_long_payload() {
    let payload: Vec<u8> = (0..600u32).map(|i| (i % 251) as u8 + 1).collect();
    let r = frame_packet(&payload);
    assert_eq!(r.len(), 520);
    assert_eq!(r[0], 6);
    assert_eq!(&r[1..], &payload[..519]);
    assert_eq!(frame_packet(&[]), {
        let mut v = vec![0u8; 520];
        v[0] = 6;
        v
    });
}

#[test]
fn received_payload_drops_report_id() {
    let buf = [6u8, 1, 2, 3, 4, 5];
    assert_eq!(received_payload(&buf, 0), Err(ProtocolError::NoData));
    assert_eq!(received_payload(&buf, 1), Ok(vec![]));
    assert_eq!(received_payload(&buf, 4), Ok(vec![1, 2, 3]));
    assert_eq!(received_payload(&buf, 6), Ok(vec![1, 2, 3, 4, 5]));
}

#[test]
fn parse_uuid_reads_six_bytes() {
    let mut rx = vec![0u8; 13];
    rx[7..13].copy_from_slice(&[0x01, 0x02, 0x03, 0x04, 0x05, 0x06]);
    assert_eq!(parse_uuid(&rx), Ok(0x0102_0304_0506));
    rx.push(0xff);
    assert_eq!(parse_uuid(&rx), Ok(0x0102_0304_0506));
    assert_eq!(parse_uuid(&rx[..12]), Err(ProtocolError::UuidResponseLength(12)));
    assert_eq!(parse_uuid(&[]), Err(ProtocolError::UuidResponseLength(0)));
}

#[test]
fn parse_battery_cases() {
    assert_eq!(parse_battery(&[0u8; 6]), Err(ProtocolError::BatteryResponseTooShort));
    assert_eq!(parse_battery(&[0u8; 8]), Err(ProtocolError::BatteryDataTooShort));
    let mut rx = vec![0u8; 9];
    rx[7] = 87;
    rx[8] = 1;
    assert_eq!(parse_battery(&rx), Ok(BatteryStatus { charging: true, level: 87 }));
    rx[8] = 0;
    assert_eq!(parse_battery(&rx), Ok(BatteryStatus { charging: false, level: 87 }));
}

#[test]
fn parse_basic_info_errors() {
    assert_eq!(parse_basic_info(&[0u8; 6]), Err(ProtocolError::BasicInfoResponseTooShort));
    assert_eq!(parse_basic_info(&[0u8; 7]), Err(ProtocolError::BasicInfoLength(0)));
    assert_eq!(parse_basic_info(&[0u8; 136]), Err(ProtocolError::BasicInfoLength(129)));
}

#[test]
fn parse_basic_info_fields() {
    let mut rx = vec![0u8; 135];
    rx[7] = 2;
    rx[8] = 5;
    rx[10] = 3;
    rx[16] = 0;
    rx[17] = 7;
    rx[22] = 1;
    rx[31] = 11;
    rx[65] = 40;
    rx[66] = 41;
    rx[131] = 50;
    rx[132] = 51;
    let info = parse_basic_info(&rx).unwrap();
    assert!(info.mac_mode);
    assert_eq!(info.polling_level, 5);
    assert!(info.low_latency);
    assert!(info.win_lock);
    assert_eq!(info.light_mode, Effect::StarsTwinkle);
    assert_eq!(info.sleep_level, 11);
    assert_eq!(info.light_params.len(), 34);
    assert_eq!(info.light_params[0], LightParam::new(40, 41));
    assert_eq!(info.light_params[33], LightParam::new(50, 51));
}

#[test]
fn parse_basic_info_unknown_effect_is_off() {
    let mut rx = vec![0u8; 135];
    rx[16] = 1;
    rx[17] = 0;
    assert_eq!(parse_basic_info(&rx).unwrap().light_mode, Effect::Off);
    rx[16] = 0;
    rx[17] = 16;
    assert_eq!(parse_basic_info(&rx).unwrap().light_mode, Effect::Off);
}

#[test]
fn basic_info_payload_layout() {
    let p = basic_info_payload_bytes(&sample_info());
    assert_eq!(p.len(), 519);
    assert_eq!(&p[..7], &[4, 0, 0, 1, 0, 128, 0]);
    assert_eq!(p[7], 1);
    assert_eq!(p[8], 4);
    assert_eq!(p[9], 3);
    assert_eq!(p[10], 3);
    assert_eq!(&p[13..20], &[4, 4, 7, 0, 9, 32, 1]);
    assert_eq!(p[22], 0);
    assert_eq!(&p[25..32], &[1, 0, 4, 1, 0, 255, 9]);
    assert_eq!((p[35], p[37], p[38]), (1, 1, 1));
    assert_eq!((p[63], p[64]), (255, 255));
    assert_eq!((p[65], p[66]), (0, 100));
    assert_eq!((p[131], p[132]), (33, 133));
    assert_eq!((p[133], p[134]), (90, 165));
    assert!(p[135..].iter().all(|b| *b == 0));
}

#[test]
fn basic_info_payload_without_params() {
    let mut info = sample_info();
    info.light_params.clear();
    info.low_latency = false;
    let p = basic_info_payload_bytes(&info);
    assert_eq!(p[10], 1);
    assert_eq!((p[65], p[66]), (90, 165));
    assert!(p[67..].iter().all(|b| *b == 0));
}

#[test]
fn basic_info_write_read_round_trip() {
    let info = sample_info();
    let p = basic_info_payload_bytes(&info);
    assert_eq!(parse_basic_info(&p[..135]), Ok(info));
}

#[test]
fn speed_bytes() {
    assert_eq!(speed_to_magic(256), Some(16));
    assert_eq!(speed_to_magic(1031), Some(71));
    assert_eq!(speed_to_magic(255), None);
    assert_eq!(speed_to_magic(0), None);
    for s in 0..=255u8 {
        assert_eq!(speed_to_magic(s as u16), None);
    }
}

#[test]
fn keys_command_carries_layer() {
    assert_eq!(keys_command(KeyLayer::Normal), [131, 0, 0, 1, 0, 248, 1]);
    assert_eq!(keys_command(KeyLayer::Fn1), [131, 2, 0, 1, 0, 248, 1]);
}

#[test]
fn parse_keys_response_length() {
    assert_eq!(parse_keys_response(&[0u8; 510]), Err(ProtocolError::KeysResponseLength));
    assert_eq!(parse_keys_response(&[0u8; 512]), Err(ProtocolError::KeysResponseLength));
    let rx: Vec<u8> = (0..511u32).map(|i| i as u8).collect();
    assert_eq!(parse_keys_response(&rx), Ok(rx[7..].to_vec()));
}

#[test]
fn parse_custom_light_response_cases() {
    assert_eq!(parse_custom_light_response(&[1, 2, 3]), Err(ProtocolError::CustomLightResponseTooShort));
    assert_eq!(parse_custom_light_response(&[0, 1, 2, 3, 4, 5, 6]), Ok(vec![]));
    assert_eq!(parse_custom_light_response(&[0, 1, 2, 3, 4, 5, 6, 7, 8]), Ok(vec![7, 8]));
}

fn basic(value: &str, pos: usize, layer: KeyLayer) -> Key {
    Key::new_basic("k".to_string(), value.to_string(), pos, layer)
}

#[test]
fn keys_payload_writes_basic_keys_of_layer() {
    let keys = vec![
        basic("0x02000055", 8, KeyLayer::Fn),
        basic("0x00000004", 12, KeyLayer::Normal),
        {
            let mut k = basic("0x11223344", 16, KeyLayer::Fn);
            k.key_type = KeyType::Macro;
            k
        },
        basic("0xaabbccdd", 509, KeyLayer::Fn),
    ];
    let p = keys_payload_bytes(KeyLayer::Fn, None, &keys);
    assert_eq!(p.len(), 519);
    assert_eq!(&p[..7], &[3, 1, 0, 1, 0, 248, 1]);
    assert_eq!(&p[15..19], &[0x02, 0x00, 0x00, 0x55]);
    assert_eq!(&p[19..23], &[0, 0, 0, 0]);
    assert_eq!(&p[23..27], &[0, 0, 0, 0]);
    assert_eq!((p[517], p[518]), (90, 165));
    assert_eq!(p.iter().filter(|b| **b != 0).count(), 5 + 2 + 2);
}

#[test]
fn keys_payload_keeps_current_map() {
    let current: Vec<u8> = (0..504u32).map(|i| (i % 200) as u8 + 1).collect();
    let keys = vec![basic("0x0000aabb", 4, KeyLayer::Normal), basic("0x00000001", 508, KeyLayer::Normal)];
    let p = keys_payload_bytes(KeyLayer::Normal, Some(&current), &keys);
    assert_eq!(&p[..7], &[3, 0, 0, 1, 0, 248, 1]);
    assert_eq!(&p[7..11], &current[..4]);
    assert_eq!(&p[11..15], &[0, 0, 0xaa, 0xbb]);
    assert_eq!(&p[15..511], &current[8..504]);
    assert_eq!(&p[511..517], &[0, 0, 0, 0, 0, 0]);
    assert_eq!((p[517], p[518]), (90, 165));
}

#[test]
fn keys_payload_later_key_overwrites() {
    let keys = vec![basic("0x11111111", 0, KeyLayer::Normal), basic("0x22222222", 2, KeyLayer::Normal)];
    let p = keys_payload_bytes(KeyLayer::Normal, None, &keys);
    assert_eq!(&p[7..13], &[0x11, 0x11, 0x22, 0x22, 0x22, 0x22]);
}

#[test]
fn keys_from_layer_data_decodes_slots() {
    let mut data = vec![0u8; 16];
    data[4..8].copy_from_slice(&[0, 0, 0, 0x04]);
    data[8..12].copy_from_slice(&[0, 0, 1, 3]);
    data[12..16].copy_from_slice(&[0x02, 0, 0, 0x55]);
    let mut lights = vec![0u8; 512];
    lights[3] = 1;
    lights[3 + 126] = 2;
    lights[3 + 252] = 3;
    let defaults = vec![
        Key::new_basic("A".to_string(), "0x00000004".to_string(), 0, KeyLayer::Normal),
        Key::new_basic("Star".to_string(), "0x02000055".to_string(), 0, KeyLayer::Normal),
    ];
    let keys = keys_from_layer_data(KeyLayer::Fn, &data, &lights, &defaults);
    assert_eq!(keys.len(), 2);
    assert_eq!(keys[0].name, "A");
    assert_eq!(keys[0].value, "0x00000004");
    assert_eq!(keys[0].pos, 4);
    assert_eq!(keys[0].light_pos, 1);
    assert_eq!(keys[0].layer, KeyLayer::Fn);
    assert_eq!(keys[0].color, Color::default());
    assert_eq!(keys[1].name, "Star");
    assert_eq!(keys[1].value, "0x02000055");
    assert_eq!(keys[1].pos, 12);
    assert_eq!(keys[1].light_pos, 3);
    assert_eq!(keys[1].color, Color::new(1, 2, 3, 1));
    assert_eq!(keys[1].key_type, KeyType::Basic);
    assert_eq!(keys[1].macro_data, None);
}

#[test]
fn keys_from_layer_data_unknown_and_partial_slot() {
    let data = vec![0u8, 0, 0, 9, 0, 0, 0];
    let keys = keys_from_layer_data(KeyLayer::Normal, &data, &[], &[]);
    assert_eq!(keys.len(), 1);
    assert_eq!(keys[0].name, "Unknown");
    assert_eq!(keys[0].value, "0x00000009");
}

#[test]
fn key_write_read_round_trip() {
    let keys = vec![basic("0x0000002c", 20, KeyLayer::Fn), basic("0x00000055", 100, KeyLayer::Fn)];
    let payload = keys_payload_bytes(KeyLayer::Fn, None, &keys);
    let map = &payload[7..511];
    let read = keys_from_layer_data(KeyLayer::Fn, map, &[], &keys);
    assert_eq!(read.len(), 2);
    assert_eq!(read[0].value, "0x0000002c");
    assert_eq!(read[0].pos, 20);
    assert_eq!(read[1].value, "0x00000055");
    assert_eq!(read[1].pos, 100);
}

#[test]
fn custom_light_payload_layout() {
    let mut a = basic("0x00000004", 0, KeyLayer::Normal);
    a.light_pos = 2;
    a.color = Color::create(10, 20, 30);
    let mut far = basic("0x00000005", 0, KeyLayer::Normal);
    far.light_pos = 260;
    far.color = Color::create(1, 1, 1);
    let mut other = basic("0x00000006", 0, KeyLayer::Fn);
    other.light_pos = 3;
    other.color = Color::create(9, 9, 9);
    let p = custom_light_payload_bytes(&[a, far, other]);
    assert_eq!(p.len(), 519);
    assert_eq!(&p[..7], &[6, 0, 0, 1, 0, 128, 1]);
    assert_eq!((p[9], p[135], p[261]), (10, 20, 30));
    assert_eq!(p.iter().filter(|b| **b != 0).count(), 4 + 3);
}

#[test]
fn light_write_read_round_trip() {
    let mut a = basic("0x00000004", 0, KeyLayer::Normal);
    a.light_pos = 7;
    a.color = Color::create(200, 0, 5);
    let mut b = basic("0x00000005", 0, KeyLayer::Normal);
    b.light_pos = 125;
    b.color = Color::create(0, 0, 0);
    let payload = custom_light_payload_bytes(&[a.clone(), b.clone()]);
    let mut keys = vec![a, b];
    keys[0].color = Color::default();
    keys[1].color = Color::new(4, 4, 4, 4);
    apply_custom_light(&mut keys, &payload[7..]);
    assert_eq!(keys[0].color, Color::new(200, 0, 5, 1));
    assert_eq!(keys[1].color, Color::new(0, 0, 0, 0));
}

#[test]
fn apply_custom_light_skips_other_layers() {
    let mut k = basic("0x00000004", 0, KeyLayer::Fn);
    k.light_pos = 1;
    k.color = Color::new(1, 2, 3, 4);
    let mut keys = vec![k.clone()];
    apply_custom_light(&mut keys, &[9u8; 512]);
    assert_eq!(keys[0], k);
}

#[test]
fn light_color_payload_layout() {
    let p = light_color_payload_bytes();
    assert_eq!(p.len(), 519);
    assert_eq!(&p[..7], &[10, 0, 0, 1, 0, 0, 2]);
    for o in [28usize, 49, 91, 112, 154, 175, 217, 238, 259, 280] {
        assert_eq!(&p[o..o + 3], &[0, 255, 0]);
    }
    assert_eq!(p[7], SL[0]);
    assert_eq!(p[27], SL[20]);
    assert_eq!(p[371], SL[364]);
    assert!(p[372..].iter().all(|b| *b == 0));
}

#[test]
fn keys_payload_ignores_other_layers_and_macros() {
    let mut macro_key = basic("0x11223344", 16, KeyLayer::Fn);
    macro_key.key_type = KeyType::Macro;
    let keys = vec![
        basic("0x02000055", 8, KeyLayer::Fn),
        basic("0x00000004", 8, KeyLayer::Normal),
        macro_key,
        basic("0x0000002c", 40, KeyLayer::Fn1),
        basic("0x00000005", 44, KeyLayer::Fn),
    ];
    let only: Vec<Key> = keys
        .iter()
        .filter(|k| k.layer == KeyLayer::Fn && k.key_type == KeyType::Basic)
        .cloned()
        .collect();
    let a = keys_payload_bytes(KeyLayer::Fn, None, &keys);
    let b = keys_payload_bytes(KeyLayer::Fn, None, &only);
    assert_eq!(a, b);
    assert_eq!(a[1], KeyLayer::Fn.code());
    assert_eq!(keys_payload_bytes(KeyLayer::Fn1, None, &keys)[1], 2);
}

#[test]
fn writing_back_read_keys_keeps_map() {
    let mut kd = vec![0u8; 504];
    kd[0..4].copy_from_slice(&[0, 0, 0, 4]);
    kd[8..12].copy_from_slice(&[0, 0, 1, 3]);
    kd[100..104].copy_from_slice(&[2, 0, 0, 0x55]);
    kd[500..504].copy_from_slice(&[0xff, 0xee, 0xdd, 0xcc]);
    let keys = keys_from_layer_data(KeyLayer::Fn, &kd, &[], &[]);
    let p = keys_payload_bytes(KeyLayer::Fn, Some(&kd), &keys);
    let mut expected = vec![3u8, 1, 0, 1, 0, 248, 1];
    expected.extend_from_slice(&kd);
    expected.extend_from_slice(&[0, 0, 0, 0, 0, 0, 90, 165]);
    assert_eq!(p, expected);
    let mut framed = vec![6u8];
    framed.extend_from_slice(&expected);
    assert_eq!(frame_packet(&p), framed);
}

#[test]
fn custom_light_ignores_other_layers_and_far_slots() {
    let mut a = basic("0x00000004", 0, KeyLayer::Normal);
    a.light_pos = 4;
    a.color = Color::create(1, 2, 3);
    let mut b = basic("0x00000005", 0, KeyLayer::Fn);
    b.light_pos = 4;
    b.color = Color::create(9, 9, 9);
    let mut c = basic("0x00000006", 0, KeyLayer::Normal);
    c.light_pos = 260;
    c.color = Color::create(7, 7, 7);
    let mut d = basic("0x00000007", 0, KeyLayer::Normal);
    d.light_pos = 259;
    d.color = Color::create(5, 6, 8);
    let all = vec![a.clone(), b, c, d.clone()];
    assert_eq!(custom_light_payload_bytes(&all), custom_light_payload_bytes(&[a, d]));
}
