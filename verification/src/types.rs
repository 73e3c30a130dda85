//! Plain data types shared by the keyboard protocol: lighting effects, key
//! layers, key descriptions, colours and the device's status records.
use vstd::prelude::*;
use crate::text::{decimal_text, push_decimal};

verus! {

/// A lighting effect of the keyboard. On the wire an effect is the 16-bit
/// code given by `Effect::code`.
#[derive(Debug, Clone, Copy, PartialEq, Eq, Structural)]
pub enum Effect {
    Off,
    FixedOn,
    Respire,
    Rainbow,
    FlashAway,
    Raindrops,
    RipplesShining,
    StarsTwinkle,
    RetroSnake,
    NeonStream,
    Reaction,
    SineWave,
    RotatingWindmill,
    ColorfulWaterfall,
    Blossoming,
    SelfDefine,
}

/// The wire code of an effect.
pub open spec fn effect_code(e: Effect) -> u16 {
    match e {
        Effect::Off => 0,
        Effect::FixedOn => 1,
        Effect::Respire => 2,
        Effect::Rainbow => 3,
        Effect::FlashAway => 4,
        Effect::Raindrops => 5,
        Effect::RipplesShining => 6,
        Effect::StarsTwinkle => 7,
        Effect::RetroSnake => 8,
        Effect::NeonStream => 9,
        Effect::Reaction => 10,
        Effect::SineWave => 11,
        Effect::RotatingWindmill => 12,
        Effect::ColorfulWaterfall => 13,
        Effect::Blossoming => 14,
        Effect::SelfDefine => 15,
    }
}

/// The effect whose wire code is `v`, if there is one.
pub open spec fn effect_of_code(v: u16) -> Option<Effect> {
    if v == 0 {
        Some(Effect::Off)
    } else if v == 1 {
        Some(Effect::FixedOn)
    } else if v == 2 {
        Some(Effect::Respire)
    } else if v == 3 {
        Some(Effect::Rainbow)
    } else if v == 4 {
        Some(Effect::FlashAway)
    } else if v == 5 {
        Some(Effect::Raindrops)
    } else if v == 6 {
        Some(Effect::RipplesShining)
    } else if v == 7 {
        Some(Effect::StarsTwinkle)
    } else if v == 8 {
        Some(Effect::RetroSnake)
    } else if v == 9 {
        Some(Effect::NeonStream)
    } else if v == 10 {
        Some(Effect::Reaction)
    } else if v == 11 {
        Some(Effect::SineWave)
    } else if v == 12 {
        Some(Effect::RotatingWindmill)
    } else if v == 13 {
        Some(Effect::ColorfulWaterfall)
    } else if v == 14 {
        Some(Effect::Blossoming)
    } else if v == 15 {
        Some(Effect::SelfDefine)
    } else {
        None
    }
}

impl Effect {
    /// The 16-bit wire code of this effect (`Off` is 0, ..., `SelfDefine` is 15).
    pub fn code(self) -> (r: u16)
        ensures
            r == effect_code(self),
    {
        match self {
            Effect::Off => 0,
            Effect::FixedOn => 1,
            Effect::Respire => 2,
            Effect::Rainbow => 3,
            Effect::FlashAway => 4,
            Effect::Raindrops => 5,
            Effect::RipplesShining => 6,
            Effect::StarsTwinkle => 7,
            Effect::RetroSnake => 8,
            Effect::NeonStream => 9,
            Effect::Reaction => 10,
            Effect::SineWave => 11,
            Effect::RotatingWindmill => 12,
            Effect::ColorfulWaterfall => 13,
            Effect::Blossoming => 14,
            Effect::SelfDefine => 15,
        }
    }

    /// Decodes a wire code; `None` for every code above 15.
    pub fn from_code(value: u16) -> (r: Option<Effect>)
        ensures
            r == effect_of_code(value),
            r is Some <==> value <= 15,
    {
        match value {
            0 => Some(Effect::Off),
            1 => Some(Effect::FixedOn),
            2 => Some(Effect::Respire),
            3 => Some(Effect::Rainbow),
            4 => Some(Effect::FlashAway),
            5 => Some(Effect::Raindrops),
            6 => Some(Effect::RipplesShining),
            7 => Some(Effect::StarsTwinkle),
            8 => Some(Effect::RetroSnake),
            9 => Some(Effect::NeonStream),
            10 => Some(Effect::Reaction),
            11 => Some(Effect::SineWave),
            12 => Some(Effect::RotatingWindmill),
            13 => Some(Effect::ColorfulWaterfall),
            14 => Some(Effect::Blossoming),
            15 => Some(Effect::SelfDefine),
            _ => None,
        }
    }
}

impl TryFrom<u16> for Effect {
    type Error = ();

    fn try_from(value: u16) -> (r: Result<Self, Self::Error>) {
        match Effect::from_code(value) {
            Some(e) => Ok(e),
            None => Err(()),
        }
    }
}

impl vstd::std_specs::convert::TryFromSpecImpl<u16> for Effect {
    open spec fn obeys_try_from_spec() -> bool {
        true
    }

    open spec fn try_from_spec(v: u16) -> Result<Self, Self::Error> {
        match effect_of_code(v) {
            Some(e) => Ok(e),
            None => Err(()),
        }
    }
}

/// Decoding the code of an effect gives the effect back, and a code that
/// decodes to an effect is that effect's code.
pub proof fn lemma_effect_code_roundtrip(e: Effect, v: u16)
    ensures
        effect_of_code(effect_code(e)) == Some(e),
        effect_of_code(v) == Some(e) ==> effect_code(e) == v,
{
}

/// The layer a key binding belongs to.
#[derive(Debug, PartialEq, Eq, Structural, Copy, Clone, Default)]
pub enum KeyLayer {
    #[default]
    Normal,
    Fn,
    Fn1,
}

/// The wire code of a layer.
pub open spec fn layer_code(l: KeyLayer) -> u8 {
    match l {
        KeyLayer::Normal => 0,
        KeyLayer::Fn => 1,
        KeyLayer::Fn1 => 2,
    }
}

/// The layer whose wire code is `v`, if there is one.
pub open spec fn layer_of_code(v: u8) -> Option<KeyLayer> {
    if v == 0 {
        Some(KeyLayer::Normal)
    } else if v == 1 {
        Some(KeyLayer::Fn)
    } else if v == 2 {
        Some(KeyLayer::Fn1)
    } else {
        None
    }
}

/// The text of the error for a byte that names no layer.
pub open spec fn invalid_layer_message(v: u8) -> Seq<char> {
    seq!['I', 'n', 'v', 'a', 'l', 'i', 'd', ' ', 'K', 'e', 'y', 'L', 'a', 'y', 'e', 'r', ':', ' ']
        + decimal_text(v as nat)
}

impl KeyLayer {
    /// The wire code of this layer (`Normal` 0, `Fn` 1, `Fn1` 2).
    pub fn code(self) -> (r: u8)
        ensures
            r == layer_code(self),
    {
        match self {
            KeyLayer::Normal => 0,
            KeyLayer::Fn => 1,
            KeyLayer::Fn1 => 2,
        }
    }
}

impl TryFrom<u8> for KeyLayer {
    type Error = String;

    /// Decodes a layer byte; any byte above 2 is refused with the message
    /// `Invalid KeyLayer: <v>`.
    fn try_from(v: u8) -> (r: Result<Self, Self::Error>)
        ensures
            r matches Ok(l) ==> layer_of_code(v) == Some(l),
            r matches Err(msg) ==> layer_of_code(v) is None && msg@ == invalid_layer_message(v),
            r is Ok <==> v <= 2,
    {
        match v {
            0 => Ok(KeyLayer::Normal),
            1 => Ok(KeyLayer::Fn),
            2 => Ok(KeyLayer::Fn1),
            _ => {
                let mut msg = String::from_str("Invalid KeyLayer: ");
                proof {
                    reveal_strlit("Invalid KeyLayer: ");
                }
                push_decimal(&mut msg, v);
                Err(msg)
            },
        }
    }
}

impl vstd::std_specs::convert::TryFromSpecImpl<u8> for KeyLayer {
    /// The decoding, and the error text of a refused byte, are stated on
    /// `try_from` itself: an error text is a `String`, which a spec function
    /// cannot build, so no claim is made through this spec.
    open spec fn obeys_try_from_spec() -> bool {
        false
    }

    open spec fn try_from_spec(v: u8) -> Result<Self, Self::Error> {
        match layer_of_code(v) {
            Some(l) => Ok(l),
            None => Err(vstd::pervasive::arbitrary()),
        }
    }
}

/// Decoding the code of a layer gives the layer back.
pub proof fn lemma_layer_code_roundtrip(l: KeyLayer, v: u8)
    ensures
        layer_of_code(layer_code(l)) == Some(l),
        layer_of_code(v) == Some(l) ==> layer_code(l) == v,
{
}

/// Whether a key sends a plain key code or a macro.
#[derive(Debug, Clone, Copy, Default, PartialEq, Eq, Structural)]
pub enum KeyType {
    #[default]
    Basic,
    Macro,
}

/// An RGB colour with an extra flag byte `a`.
#[derive(Debug, Clone, Copy, Default, PartialEq, Eq, Structural)]
pub struct Color {
    pub r: u8,
    pub g: u8,
    pub b: u8,
    pub a: u8,
}

/// The colour `Color::create` makes: `a` is 0 for black and 1 otherwise.
pub open spec fn created_color(r: u8, g: u8, b: u8) -> Color {
    Color { r, g, b, a: if r == 0 && g == 0 && b == 0 { 0 } else { 1 } }
}

/// A created colour keeps its three channels, and its flag is 0 exactly
/// when all three channels are 0 and 1 otherwise.
pub proof fn lemma_created_color_flag(r: u8, g: u8, b: u8)
    ensures
        created_color(r, g, b).r == r,
        created_color(r, g, b).g == g,
        created_color(r, g, b).b == b,
        created_color(r, g, b).a == 0 <==> (r == 0 && g == 0 && b == 0),
        created_color(r, g, b).a != 0 <==> created_color(r, g, b).a == 1,
{
}

impl Color {
    pub fn new(r: u8, g: u8, b: u8, a: u8) -> (c: Self)
        ensures
            c == (Color { r, g, b, a }),
    {
        Self { r, g, b, a }
    }

    /// True exactly when the three colour channels are all zero.
    pub fn is_on(&self) -> (res: bool)
        ensures
            res == (self.r == 0 && self.g == 0 && self.b == 0),
    {
        self.r == 0 && self.g == 0 && self.b == 0
    }

    /// The colour of the three channels, with `a` 0 for black and 1 otherwise.
    pub fn create(r: u8, g: u8, b: u8) -> (c: Self)
        ensures
            c == created_color(r, g, b),
            c.r == r && c.g == g && c.b == b,
            c.a == 0 <==> (r == 0 && g == 0 && b == 0),
            c.a <= 1,
    {
        let a = if r == 0 && g == 0 && b == 0 {
            0
        } else {
            1
        };
        Self { r, g, b, a }
    }
}

/// What the keyboard reports of its general settings.
#[derive(Debug, Clone, PartialEq)]
pub struct DeviceInfo {
    pub mac_mode: bool,
    pub polling_level: u8,
    pub low_latency: bool,
    pub win_lock: bool,
    pub light_mode: Effect,
    pub sleep_level: u8,
    pub light_params: Vec<LightParam>,
}

/// The battery state the keyboard reports.
#[derive(Debug, Clone, Copy, PartialEq, Eq, Structural)]
pub struct BatteryStatus {
    pub charging: bool,
    pub level: u8,
}

/// One key binding: its label, its key code as text (`0x` and hex digits),
/// its positions in the key map and the light map, its layer, kind and colour.
#[derive(Debug, Clone, Default, PartialEq)]
pub struct Key {
    pub name: String,
    pub value: String,
    pub pos: usize,
    pub light_pos: usize,
    pub effect_pos: usize,
    pub layer: KeyLayer,
    pub key_type: KeyType,
    pub color: Color,
    pub macro_data: Option<MacroData>,
}

impl Key {
    /// A basic key on `layer` at `pos`; every other field takes its default
    /// (positions 0, a colour of zeros, no macro data).
    pub fn new_basic(name: String, value: String, pos: usize, layer: KeyLayer) -> (k: Self)
        ensures
            k.name == name,
            k.value == value,
            k.pos == pos,
            k.light_pos == 0,
            k.effect_pos == 0,
            k.layer == layer,
            k.key_type == KeyType::Basic,
            k.color == (Color { r: 0, g: 0, b: 0, a: 0 }),
            k.macro_data is None,
    {
        Self {
            name,
            value,
            pos,
            light_pos: 0,
            effect_pos: 0,
            layer,
            key_type: KeyType::Basic,
            color: Color { r: 0, g: 0, b: 0, a: 0 },
            macro_data: None,
        }
    }
}

/// How a macro is played back.
#[derive(Debug, Clone, Copy, PartialEq, Eq, Structural)]
pub enum MacroType {
    Button,
    Circle,
    Repeat,
    Unknown,
}

/// Brightness and speed of one lighting effect.
#[derive(Debug, Clone, Copy, PartialEq, Eq, Structural, Default)]
pub struct LightParam {
    pub bright: u8,
    pub speed: u8,
}

impl LightParam {
    pub fn new(bright: u8, speed: u8) -> (p: Self)
        ensures
            p == (LightParam { bright, speed }),
    {
        Self { bright, speed }
    }
}

/// The recorded content of a macro key.
#[derive(Debug, Clone, PartialEq)]
pub struct MacroData {
    pub macro_type: MacroType,
    pub count: u8,
    pub data: Option<Vec<u8>>,
}

/// A named macro and its code.
#[derive(Debug, Clone)]
pub struct Macro {
    pub name: String,
    pub value: u32,
}

} // verus!
