use aula_driver::types::{Color, Effect, Key, KeyLayer, KeyType, LightParam};

#[test]
fn effect_codes_round_trip() {
    let all = [
        Effect::Off,
        Effect::FixedOn,
        Effect::Respire,
        Effect::Rainbow,
        Effect::FlashAway,
        Effect::Raindrops,
        Effect::RipplesShining,
        Effect::StarsTwinkle,
        Effect::RetroSnake,
        Effect::NeonStream,
        Effect::Reaction,
        Effect::SineWave,
        Effect::RotatingWindmill,
        Effect::ColorfulWaterfall,
        Effect::Blossoming,
        Effect::SelfDefine,
    ];
    for (i, e) in all.iter().enumerate() {
        assert_eq!(e.code(), i as u16);
        assert_eq!(Effect::from_code(i as u16), Some(*e));
        assert_eq!(Effect::try_from(i as u16), Ok(*e));
    }
}

#[test]
fn effect_unknown_code_is_refused() {
    assert_eq!(Effect::from_code(16), None);
    assert_eq!(Effect::try_from(16u16), Err(()));
    assert_eq!(Effect::try_from(0xffffu16), Err(()));
}

#[test]
fn key_layer_codes() {
    assert_eq!(KeyLayer::Normal.code(), 0);
    assert_eq!(KeyLayer::Fn.code(), 1);
    assert_eq!(KeyLayer::Fn1.code(), 2);
    assert_eq!(KeyLayer::try_from(0u8), Ok(KeyLayer::Normal));
    assert_eq!(KeyLayer::try_from(1u8), Ok(KeyLayer::Fn));
    assert_eq!(KeyLayer::try_from(2u8), Ok(KeyLayer::Fn1));
    assert_eq!(KeyLayer::default(), KeyLayer::Normal);
}

#[test]
fn key_layer_invalid_message() {
    assert_eq!(KeyLayer::try_from(3u8), Err("Invalid KeyLayer: 3".to_string()));
    assert_eq!(KeyLayer::try_from(42u8), Err("Invalid KeyLayer: 42".to_string()));
    assert_eq!(KeyLayer::try_from(255u8), Err("Invalid KeyLayer: 255".to_string()));
    assert_eq!(KeyLayer::try_from(100u8), Err("Invalid KeyLayer: 100".to_string()));
}

#[test]
fn color_create_flags_black() {
    assert_eq!(Color::create(0, 0, 0), Color::new(0, 0, 0, 0));
    assert_eq!(Color::create(1, 0, 0), Color::new(1, 0, 0, 1));
    assert_eq!(Color::create(0, 0, 200), Color::new(0, 0, 200, 1));
}

#[test]
fn color_is_on_means_all_channels_zero() {
    assert!(Color::new(0, 0, 0, 1).is_on());
    assert!(!Color::new(0, 5, 0, 0).is_on());
    assert!(Color::default().is_on());
}

#[test]
fn key_new_basic_defaults() {
    let k = Key::new_basic("Delete".to_string(), "0x00000055".to_string(), 12, KeyLayer::Fn);
    assert_eq!(k.name, "Delete");
    assert_eq!(k.value, "0x00000055");
    assert_eq!(k.pos, 12);
    assert_eq!(k.light_pos, 0);
    assert_eq!(k.effect_pos, 0);
    assert_eq!(k.layer, KeyLayer::Fn);
    assert_eq!(k.key_type, KeyType::Basic);
    assert_eq!(k.color, Color::new(0, 0, 0, 0));
    assert_eq!(k.macro_data, None);
    let mut d = Key::default();
    d.name = "Delete".to_string();
    d.value = "0x00000055".to_string();
    d.pos = 12;
    d.layer = KeyLayer::Fn;
    assert_eq!(k, d);
}

#[test]
fn light_param_new() {
    let p = LightParam::new(3, 200);
    assert_eq!(p.bright, 3);
    assert_eq!(p.speed, 200);
}
