//! The feature-report protocol of the AULA F75: how each request is framed,
//! how each answer is read, and the payloads that write settings, key maps
//! and lights.
use vstd::prelude::*;
use crate::text::{hex_code_value, key_code_text, format_key_code, lemma_key_code_roundtrip};
use crate::types::{
    BatteryStatus, DeviceInfo, Effect, Key, KeyLayer, KeyType, LightParam, created_color, effect_code,
    effect_of_code, layer_code, lemma_effect_code_roundtrip,
};
use crate::utils::{
    build_key_lookup, extract_color_from_lights, light_color, lookup_of_keys, parse_hex,
};

verus! {

pub const VENDOR_ID: u16 = 9610;

pub const PRODUCT_ID: u16 = 268;

/// The report id that starts every report sent to the keyboard.
pub const REPORT_ID_TX: u8 = 6;

/// The report id of the reports read from the keyboard.
pub const REPORT_ID_RX: u8 = 6;

/// The length of a payload, the report id not counted.
pub const SEND_PAYLOAD_LENGTH: usize = 519;

/// The number of effects whose brightness and speed the keyboard keeps.
pub const LIGHT_PARAMS_LENGTH: usize = 34;

/// Where the brightness and speed pairs start in a settings payload.
pub const LIGHT_OFFSET: usize = 65;

pub const PAYLOAD_LENGTH_BASIC_INFO: usize = 128;

pub const PAYLOAD_LENGTH_KEYS: usize = 512;

pub const CMD_GET_UUID: [u8; 7] = [130, 1, 0, 1, 0, 6, 0];

pub const CMD_RESET: [u8; 7] = [17, 0, 0, 1, 0, 1, 0];

pub const CMD_GET_BASIC_INFO: [u8; 6] = [132, 0, 0, 1, 0, 128];

pub const CMD_GET_BATTERY: [u8; 7] = [135, 0, 0, 1, 0, 2, 0];

pub const CMD_GET_KEYS: [u8; 7] = [131, 0, 0, 1, 0, 248, 1];

pub const CMD_SET_BASIC_INFO: [u8; 6] = [4, 0, 0, 1, 0, 128];

pub const CMD_SET_KEY: [u8; 7] = [3, 0, 0, 1, 0, 248, 1];

pub const CMD_SEND_MACRO: [u8; 7] = [5, 0, 0, 1, 0, 0, 0];

pub const CMD_GET_CUSTOM_LIGHT: [u8; 7] = [134, 0, 0, 1, 0, 128, 1];

pub const CMD_SET_CUSTOM_LIGHT: [u8; 7] = [6, 0, 0, 1, 0, 128, 1];

pub const CMD_GET_LIGHT_COLOR: [u8; 7] = [138, 0, 0, 1, 0, 128, 2];

pub const CMD_SET_LIGHT_COLOR: [u8; 7] = [10, 0, 0, 1, 0, 0, 2];

/// Why an answer of the keyboard cannot be read.
#[derive(Debug, Clone, Copy, PartialEq, Eq, Structural)]
pub enum ProtocolError {
    /// The keyboard answered with an empty report.
    NoData,
    /// An identity answer shorter than 13 bytes; the length it had.
    UuidResponseLength(usize),
    /// A battery answer shorter than its 7-byte header.
    BatteryResponseTooShort,
    /// A battery answer with fewer than 2 bytes after the header.
    BatteryDataTooShort,
    /// A settings answer shorter than its 7-byte header.
    BasicInfoResponseTooShort,
    /// A settings answer whose body is not 128 bytes; the body length it had.
    BasicInfoLength(usize),
    /// A key map answer that is not 511 bytes.
    KeysResponseLength,
    /// A light map answer shorter than its 7-byte header.
    CustomLightResponseTooShort,
}

/// The driver of the AULA F75.
pub struct AulaF75Driver;

impl AulaF75Driver {
    /// Whether a USB vendor and product id are those of the AULA F75.
    pub fn matches(&self, vid: u16, pid: u16) -> (r: bool)
        ensures
            r == (vid == VENDOR_ID && pid == PRODUCT_ID),
    {
        vid == VENDOR_ID && pid == PRODUCT_ID
    }
}

/// Whether an HID interface is the keyboard's vendor interface: the keyboard's
/// ids, interface number 1 and usage page 0xff00.
pub fn is_vendor_interface(vid: u16, pid: u16, interface_number: i32, usage_page: u16) -> (r: bool)
    ensures
        r == (vid == VENDOR_ID && pid == PRODUCT_ID && interface_number == 1 && usage_page
            == 0xff00),
{
    vid == VENDOR_ID && pid == PRODUCT_ID && interface_number == 1 && usage_page == 0xff00
}

/// The report that carries `payload`: the report id, then the payload cut or
/// padded with zeros to 519 bytes.
pub open spec fn framed(payload: Seq<u8>) -> Seq<u8> {
    Seq::new(
        520,
        |i: int|
            if i == 0 {
                REPORT_ID_TX
            } else if i - 1 < payload.len() {
                payload[i - 1]
            } else {
                0
            },
    )
}

/// Frames a payload into a report of 520 bytes: report id 6, then the first
/// 519 bytes of the payload, padded with zeros.
pub fn frame_packet(payload: &[u8]) -> (r: Vec<u8>)
    ensures
        r@ == framed(payload@),
{
    let mut buffer: Vec<u8> = Vec::with_capacity(SEND_PAYLOAD_LENGTH + 1);
    buffer.push(REPORT_ID_TX);
    let copy_len = if payload.len() < SEND_PAYLOAD_LENGTH {
        payload.len()
    } else {
        SEND_PAYLOAD_LENGTH
    };
    let mut i: usize = 0;
    while i < SEND_PAYLOAD_LENGTH
        invariant
            i <= SEND_PAYLOAD_LENGTH,
            copy_len <= payload@.len(),
            copy_len == payload@.len() || copy_len == SEND_PAYLOAD_LENGTH,
            buffer@.len() == i + 1,
            forall|q: int| 0 <= q < i + 1 ==> #[trigger] buffer@[q] == framed(payload@)[q],
        decreases SEND_PAYLOAD_LENGTH - i,
    {
        if i < copy_len {
            buffer.push(payload[i]);
        } else {
            buffer.push(0);
        }
        i = i + 1;
    }
    assert(buffer@ =~= framed(payload@));
    buffer
}

/// The payload of a report read from the keyboard: the `size` bytes read,
/// without the leading report id; an empty read is refused.
pub fn received_payload(buffer: &[u8], size: usize) -> (r: Result<Vec<u8>, ProtocolError>)
    requires
        size <= buffer@.len(),
    ensures
        size == 0 ==> r == Err::<Vec<u8>, ProtocolError>(ProtocolError::NoData),
        size > 0 ==> (r matches Ok(v) && v@ == buffer@.subrange(1, size as int)),
{
    if size == 0 {
        return Err(ProtocolError::NoData);
    }
    Ok(slice_range(buffer, 1, size))
}

/// A copy of `s[from..to]`.
fn slice_range(s: &[u8], from: usize, to: usize) -> (r: Vec<u8>)
    requires
        from <= to <= s@.len(),
    ensures
        r@ == s@.subrange(from as int, to as int),
{
    let mut r: Vec<u8> = Vec::with_capacity(to - from);
    let mut i = from;
    while i < to
        invariant
            from <= i <= to <= s@.len(),
            r@ == s@.subrange(from as int, i as int),
        decreases to - i,
    {
        r.push(s[i]);
        assert(s@.subrange(from as int, i + 1) =~= s@.subrange(from as int, i as int).push(s@[i as int]));
        i = i + 1;
    }
    r
}

/// The 48-bit identity in bytes 7 to 12 of an answer, most significant first.
pub open spec fn uuid_of(rx: Seq<u8>) -> u64 {
    (rx[7] * 0x100_0000_0000 + rx[8] * 0x1_0000_0000 + rx[9] * 0x100_0000 + rx[10] * 0x1_0000
        + rx[11] * 0x100 + rx[12]) as u64
}

/// Reads the identity answer: bytes 7 to 12 as a big-endian number; an answer
/// shorter than 13 bytes is refused with its length.
pub fn parse_uuid(rx: &[u8]) -> (r: Result<u64, ProtocolError>)
    ensures
        rx@.len() < 13 ==> r == Err::<u64, ProtocolError>(
            ProtocolError::UuidResponseLength(rx@.len() as usize),
        ),
        rx@.len() >= 13 ==> r == Ok::<u64, ProtocolError>(uuid_of(rx@)),
{
    if rx.len() < 13 {
        return Err(ProtocolError::UuidResponseLength(rx.len()));
    }
    let b7 = rx[7] as u64;
    let b8 = rx[8] as u64;
    let b9 = rx[9] as u64;
    let b10 = rx[10] as u64;
    let b11 = rx[11] as u64;
    let b12 = rx[12] as u64;
    let uuid = (b7 << 40) | (b8 << 32) | (b9 << 24) | (b10 << 16) | (b11 << 8) | b12;
    assert(uuid == b7 * 0x100_0000_0000 + b8 * 0x1_0000_0000 + b9 * 0x100_0000 + b10 * 0x1_0000
        + b11 * 0x100 + b12) by (bit_vector)
        requires
            b7 < 256 && b8 < 256 && b9 < 256 && b10 < 256 && b11 < 256 && b12 < 256,
            uuid == (b7 << 40) | (b8 << 32) | (b9 << 24) | (b10 << 16) | (b11 << 8) | b12,
    ;
    Ok(uuid)
}

/// Reads the battery answer: byte 7 is the level and byte 8 is non-zero while
/// charging.
pub fn parse_battery(rx: &[u8]) -> (r: Result<BatteryStatus, ProtocolError>)
    ensures
        rx@.len() < 7 ==> r == Err::<BatteryStatus, ProtocolError>(
            ProtocolError::BatteryResponseTooShort,
        ),
        7 <= rx@.len() < 9 ==> r == Err::<BatteryStatus, ProtocolError>(
            ProtocolError::BatteryDataTooShort,
        ),
        rx@.len() >= 9 ==> r == Ok::<BatteryStatus, ProtocolError>(
            BatteryStatus { charging: rx@[8] != 0, level: rx@[7] },
        ),
{
    if rx.len() < 7 {
        return Err(ProtocolError::BatteryResponseTooShort);
    }
    if rx.len() - 7 < 2 {
        return Err(ProtocolError::BatteryDataTooShort);
    }
    Ok(BatteryStatus { charging: rx[8] != 0, level: rx[7] })
}

/// The effect a settings body names in bytes 9 and 10 (big-endian), `Off`
/// where the code names none.
pub open spec fn light_mode_of(buf: Seq<u8>) -> Effect {
    match effect_of_code((buf[9] * 256 + buf[10]) as u16) {
        Some(e) => e,
        None => Effect::Off,
    }
}

/// The brightness and speed pairs of a settings body: pair `i` is at bytes
/// `58 + 2i` and `59 + 2i`.
pub open spec fn light_params_of(buf: Seq<u8>) -> Seq<LightParam> {
    Seq::new(
        LIGHT_PARAMS_LENGTH as nat,
        |i: int| LightParam { bright: buf[58 + 2 * i], speed: buf[59 + 2 * i] },
    )
}

/// `info` is what the settings body `buf` (the answer without its 7-byte
/// header) says.
pub open spec fn info_read_from(info: DeviceInfo, buf: Seq<u8>) -> bool {
    &&& info.mac_mode == (buf[0] != 0)
    &&& info.polling_level == buf[1]
    &&& info.low_latency == (buf[3] == 3)
    &&& info.win_lock == (buf[15] != 0)
    &&& info.light_mode == light_mode_of(buf)
    &&& info.sleep_level == buf[24]
    &&& info.light_params@ == light_params_of(buf)
}

/// Reads the settings answer: after the 7-byte header come 128 bytes of
/// settings; any other length is refused.
pub fn parse_basic_info(rx: &[u8]) -> (r: Result<DeviceInfo, ProtocolError>)
    ensures
        rx@.len() < 7 ==> (r matches Err(e) && e == ProtocolError::BasicInfoResponseTooShort),
        rx@.len() >= 7 && rx@.len() != 135 ==> (r matches Err(e) && e
            == ProtocolError::BasicInfoLength((rx@.len() - 7) as usize)),
        rx@.len() == 135 ==> (r matches Ok(info) && info_read_from(info, rx@.skip(7))),
{
    if rx.len() < 7 {
        return Err(ProtocolError::BasicInfoResponseTooShort);
    }
    if rx.len() - 7 != PAYLOAD_LENGTH_BASIC_INFO {
        return Err(ProtocolError::BasicInfoLength(rx.len() - 7));
    }
    let ghost buf = rx@.skip(7);
    let code: u16 = rx[7 + 9] as u16 * 256 + rx[7 + 10] as u16;
    let light_mode = match Effect::from_code(code) {
        Some(e) => e,
        None => Effect::Off,
    };
    let mut light_params: Vec<LightParam> = Vec::with_capacity(LIGHT_PARAMS_LENGTH);
    let mut idx: usize = 0;
    while idx < LIGHT_PARAMS_LENGTH
        invariant
            idx <= LIGHT_PARAMS_LENGTH,
            rx@.len() == 135,
            buf == rx@.skip(7),
            light_params@ =~= light_params_of(buf).take(idx as int),
        decreases LIGHT_PARAMS_LENGTH - idx,
    {
        let offset = LIGHT_OFFSET - 7 + idx * 2;
        light_params.push(LightParam::new(rx[7 + offset], rx[7 + offset + 1]));
        idx = idx + 1;
    }
    assert(light_params_of(buf).take(LIGHT_PARAMS_LENGTH as int) =~= light_params_of(buf));
    assert(buf[9] == rx@[16] && buf[10] == rx@[17]);
    assert(light_mode == light_mode_of(buf));
    Ok(DeviceInfo {
        mac_mode: rx[7] != 0,
        polling_level: rx[7 + 1],
        low_latency: rx[7 + 3] == 3,
        win_lock: rx[7 + 15] != 0,
        light_mode,
        sleep_level: rx[7 + 24],
        light_params,
    })
}

/// The byte written to the effect-speed slots for a 16-bit speed, if any.
pub open spec fn magic_of_speed(speed: u16) -> Option<u8> {
    if speed == 256 {
        Some(16)
    } else if speed == 263 {
        Some(23)
    } else if speed == 512 {
        Some(32)
    } else if speed == 519 {
        Some(39)
    } else if speed == 768 {
        Some(48)
    } else if speed == 775 {
        Some(55)
    } else if speed == 1024 {
        Some(64)
    } else if speed == 1031 {
        Some(71)
    } else {
        None
    }
}

/// The byte that stands for a 16-bit effect speed, for the eight speeds that
/// have one.
pub fn speed_to_magic(speed: u16) -> (r: Option<u8>)
    ensures
        r == magic_of_speed(speed),
{
    match speed {
        256 => Some(16),
        263 => Some(23),
        512 => Some(32),
        519 => Some(39),
        768 => Some(48),
        775 => Some(55),
        1024 => Some(64),
        1031 => Some(71),
        _ => None,
    }
}

/// No speed that fits in a byte has a speed byte: every speed with one is
/// 256 or more.
pub proof fn lemma_byte_speed_has_no_magic(speed: u8)
    ensures
        magic_of_speed(speed as u16) is None,
{
}

/// The slots of a settings payload that a speed byte fills.
pub const MAGIC_INDEXES: [usize; 18] = [
    66,
    68,
    70,
    72,
    74,
    76,
    78,
    80,
    82,
    84,
    86,
    88,
    90,
    92,
    94,
    96,
    98,
    100,
];

/// Byte `i` of the fixed part of a settings payload: the command, the
/// settings of `info` and the constant bytes the keyboard expects.
pub open spec fn basic_info_header_byte(info: DeviceInfo, i: int) -> u8 {
    let code = effect_code(info.light_mode);
    if i == 0 {
        4
    } else if i == 3 {
        1
    } else if i == 5 {
        128
    } else if i == 7 {
        if info.mac_mode {
            1
        } else {
            0
        }
    } else if i == 8 {
        info.polling_level
    } else if i == 9 {
        3
    } else if i == 10 {
        if info.low_latency {
            3
        } else {
            1
        }
    } else if i == 13 || i == 14 || i == 27 {
        4
    } else if i == 15 {
        7
    } else if i == 16 {
        (code / 256) as u8
    } else if i == 17 {
        (code % 256) as u8
    } else if i == 18 {
        32
    } else if i == 19 || i == 25 || i == 28 || i == 35 || i == 37 || i == 38 {
        1
    } else if i == 22 {
        if info.win_lock {
            1
        } else {
            0
        }
    } else if i == 30 || i == 63 || i == 64 {
        255
    } else if i == 31 {
        info.sleep_level
    } else {
        0
    }
}

/// Byte `i` of the settings payload for `info`: the fixed part, then from
/// byte 65 the brightness and speed of each effect in turn, then the end
/// mark 90, 165.
pub open spec fn basic_info_payload_byte(info: DeviceInfo, i: int) -> u8 {
    let n = info.light_params@.len();
    if 65 <= i < 65 + 2 * n {
        let p = info.light_params@[(i - 65) / 2];
        if (i - 65) % 2 == 0 {
            p.bright
        } else {
            p.speed
        }
    } else if i == 65 + 2 * n {
        90
    } else if i == 66 + 2 * n {
        165
    } else {
        basic_info_header_byte(info, i)
    }
}

/// The settings payload for `info`, 519 bytes.
pub open spec fn basic_info_payload(info: DeviceInfo) -> Seq<u8> {
    Seq::new(SEND_PAYLOAD_LENGTH as nat, |i: int| basic_info_payload_byte(info, i))
}

/// The fixed part of the settings payload for `info`.
#[verifier::rlimit(60)]
fn basic_info_header(info: &DeviceInfo) -> (payload: Vec<u8>)
    ensures
        payload@ == Seq::new(SEND_PAYLOAD_LENGTH as nat, |q: int| basic_info_header_byte(*info, q)),
{
    let mut payload: Vec<u8> = vec![0u8; SEND_PAYLOAD_LENGTH];
    let mut c: usize = 0;
    while c < CMD_SET_BASIC_INFO.len()
        invariant
            c <= 6,
            payload@.len() == SEND_PAYLOAD_LENGTH,
            forall|q: int| 0 <= q < SEND_PAYLOAD_LENGTH ==> #[trigger] payload@[q] == (if q < c {
                CMD_SET_BASIC_INFO@[q]
            } else {
                0
            }),
        decreases 6 - c,
    {
        payload.set(c, CMD_SET_BASIC_INFO[c]);
        c = c + 1;
    }
    let light_mode = info.light_mode.code();
    assert(light_mode <= 15);
    payload.set(7, if info.mac_mode { 1 } else { 0 });
    payload.set(8, info.polling_level);
    payload.set(9, 3);
    payload.set(10, if info.low_latency { 3 } else { 1 });
    payload.set(11, 0);
    payload.set(12, 0);
    payload.set(13, 4);
    payload.set(14, 4);
    payload.set(15, 7);
    let hi = (light_mode >> 8) as u8;
    let lo = (light_mode & 0xFF) as u8;
    assert(hi == light_mode / 256 && lo == light_mode % 256) by (bit_vector)
        requires
            hi == (light_mode >> 8) as u8,
            lo == (light_mode & 0xFF) as u8,
    ;
    payload.set(16, hi);
    payload.set(17, lo);
    payload.set(18, 32);
    payload.set(19, 1);
    payload.set(22, if info.win_lock { 1 } else { 0 });
    payload.set(25, 1);
    payload.set(27, 4);
    payload.set(28, 1);
    payload.set(29, 0);
    payload.set(30, 255);
    payload.set(31, info.sleep_level);
    payload.set(35, 1);
    payload.set(37, 1);
    payload.set(38, 1);
    payload.set(LIGHT_OFFSET - 2, 255);
    payload.set(LIGHT_OFFSET - 1, 255);
    assert(payload@ =~= Seq::new(
        SEND_PAYLOAD_LENGTH as nat,
        |q: int| basic_info_header_byte(*info, q),
    ));
    payload
}

/// The payload that writes the settings `info` (to be framed and sent). The
/// brightness and speed pairs must end before the last byte of the payload.
pub fn basic_info_payload_bytes(info: &DeviceInfo) -> (payload: Vec<u8>)
    requires
        info.light_params@.len() <= 226,
    ensures
        payload@ == basic_info_payload(*info),
{
    let mut payload = basic_info_header(info);
    assert forall|q: int| 0 <= q < SEND_PAYLOAD_LENGTH implies #[trigger] payload@[q]
        == basic_info_header_byte(*info, q) by {}
    let n = info.light_params.len();
    let mut end_index = LIGHT_OFFSET;
    let mut idx: usize = 0;
    while idx < n
        invariant
            idx <= n,
            n == info.light_params@.len(),
            n <= 226,
            end_index == LIGHT_OFFSET + 2 * idx,
            payload@.len() == SEND_PAYLOAD_LENGTH,
            forall|q: int| 0 <= q < SEND_PAYLOAD_LENGTH ==> #[trigger] payload@[q] == (if 65 <= q
                < 65 + 2 * idx {
                basic_info_payload_byte(*info, q)
            } else {
                basic_info_header_byte(*info, q)
            }),
        decreases n - idx,
    {
        let lp = info.light_params[idx];
        let base = LIGHT_OFFSET + idx * 2;
        payload.set(base, lp.bright);
        payload.set(base + 1, lp.speed);
        end_index = base + 2;
        if let Some(magic) = speed_to_magic(lp.speed as u16) {
            proof {
                lemma_byte_speed_has_no_magic(lp.speed);
            }
            let mut m: usize = 0;
            while m < MAGIC_INDEXES.len()
                decreases 18 - m,
            {
                let magic_idx = MAGIC_INDEXES[m];
                if magic_idx < payload.len() {
                    payload.set(magic_idx, magic);
                }
                m = m + 1;
            }
        }
        assert forall|q: int| 0 <= q < SEND_PAYLOAD_LENGTH implies #[trigger] payload@[q] == (if 65
            <= q < 65 + 2 * (idx + 1) {
            basic_info_payload_byte(*info, q)
        } else {
            basic_info_header_byte(*info, q)
        }) by {
            if q == base || q == base + 1 {
                assert((q - 65) / 2 == idx);
            }
        }
        idx = idx + 1;
    }
    payload.set(end_index, 90);
    payload.set(end_index + 1, 165);
    assert(payload@ =~= basic_info_payload(*info));
    payload
}

/// What the keyboard sends back of written settings reads as those settings:
/// the settings body of a payload that writes `info` (its bytes 7 to 134) is
/// read as `info`, when `info` has the 34 brightness and speed pairs the
/// keyboard keeps.
pub proof fn lemma_basic_info_roundtrip(info: DeviceInfo)
    requires
        info.light_params@.len() == LIGHT_PARAMS_LENGTH,
    ensures
        info_read_from(info, basic_info_payload(info).subrange(7, 135)),
{
    let buf = basic_info_payload(info).subrange(7, 135);
    let code = effect_code(info.light_mode);
    assert(buf[9] == (code / 256) as u8 && buf[10] == (code % 256) as u8);
    assert(buf[9] * 256 + buf[10] == code);
    lemma_effect_code_roundtrip(info.light_mode, code);
    assert(info.light_params@ =~= light_params_of(buf)) by {
        assert forall|i: int| 0 <= i < LIGHT_PARAMS_LENGTH implies #[trigger] light_params_of(buf)[i]
            == info.light_params@[i] by {
            assert(buf[58 + 2 * i] == basic_info_payload_byte(info, 65 + 2 * i));
            assert((65 + 2 * i - 65) / 2 == i);
            assert(buf[59 + 2 * i] == basic_info_payload_byte(info, 66 + 2 * i));
            assert((66 + 2 * i - 65) / 2 == i);
        }
    }
}

/// The request for the key map of `layer`: the key-map command with the
/// layer's code in byte 1.
pub fn keys_command(layer: KeyLayer) -> (cmd: [u8; 7])
    ensures
        cmd@ == CMD_GET_KEYS@.update(1, layer_code(layer)),
{
    let mut cmd = CMD_GET_KEYS;
    cmd[1] = layer.code();
    cmd
}

/// Reads the key-map answer: it must be 511 bytes, and the map is what
/// follows the 7-byte header.
pub fn parse_keys_response(rx: &[u8]) -> (r: Result<Vec<u8>, ProtocolError>)
    ensures
        rx@.len() != 511 ==> r == Err::<Vec<u8>, ProtocolError>(ProtocolError::KeysResponseLength),
        rx@.len() == 511 ==> (r matches Ok(map) && map@ == rx@.skip(7)),
{
    if rx.len() != PAYLOAD_LENGTH_KEYS - 1 {
        return Err(ProtocolError::KeysResponseLength);
    }
    let map = slice_range(rx, 7, rx.len());
    assert(rx@.subrange(7, 511) =~= rx@.skip(7));
    Ok(map)
}

/// Reads the light-map answer: what follows the 7-byte header.
pub fn parse_custom_light_response(rx: &[u8]) -> (r: Result<Vec<u8>, ProtocolError>)
    ensures
        rx@.len() < 7 ==> r == Err::<Vec<u8>, ProtocolError>(
            ProtocolError::CustomLightResponseTooShort,
        ),
        rx@.len() >= 7 ==> (r matches Ok(map) && map@ == rx@.skip(7)),
{
    if rx.len() < 7 {
        return Err(ProtocolError::CustomLightResponseTooShort);
    }
    let map = slice_range(rx, 7, rx.len());
    assert(rx@.subrange(7, rx@.len() as int) =~= rx@.skip(7));
    Ok(map)
}

/// The four bytes of a key code, most significant first.
pub open spec fn code_bytes(v: u32) -> Seq<u8> {
    seq![(v / 0x100_0000) as u8, (v / 0x1_0000 % 256) as u8, (v / 0x100 % 256) as u8, (v % 256) as u8]
}

/// The key code in four bytes, most significant first.
pub open spec fn code_of_bytes(b0: u8, b1: u8, b2: u8, b3: u8) -> u32 {
    (b0 * 0x100_0000 + b1 * 0x1_0000 + b2 * 0x100 + b3) as u32
}

/// Four bytes written from a code read back as that code.
pub proof fn lemma_code_bytes_roundtrip(v: u32)
    ensures
        code_of_bytes(code_bytes(v)[0], code_bytes(v)[1], code_bytes(v)[2], code_bytes(v)[3]) == v,
{
    assert(v / 0x100_0000 < 256) by (bit_vector);
    assert(v / 0x100_0000 * 0x100_0000 + v / 0x1_0000 % 256 * 0x1_0000 + v / 0x100 % 256 * 0x100
        + v % 256 == v) by (bit_vector);
}

/// The key-map payload before any key is written: the write command with the
/// layer's code in byte 1, then the current map (at most 512 bytes of it)
/// from byte 7, then zeros.
pub open spec fn keys_payload_base(layer: KeyLayer, current: Option<Seq<u8>>) -> Seq<u8> {
    Seq::new(
        SEND_PAYLOAD_LENGTH as nat,
        |i: int|
            if i < 7 {
                CMD_SET_KEY@.update(1, layer_code(layer))[i]
            } else if current is Some && i - 7 < current->0.len() {
                current->0[i - 7]
            } else {
                0
            },
    )
}

/// Writes one key into a key-map payload: a basic key of `layer` whose four
/// code bytes fit (position at most 508) puts its code, most significant
/// byte first, at byte `pos + 7`; any other key changes nothing.
pub open spec fn write_key(p: Seq<u8>, k: Key, layer: KeyLayer) -> Seq<u8> {
    if k.layer == layer && k.pos <= 508 && k.key_type == KeyType::Basic {
        let b = code_bytes(hex_code_value(k.value@));
        p.update(k.pos + 7, b[0]).update(k.pos + 8, b[1]).update(k.pos + 9, b[2]).update(
            k.pos + 10,
            b[3],
        )
    } else {
        p
    }
}

/// Writes the keys into a payload in order, a later key overwriting an
/// earlier one.
pub open spec fn write_keys(p: Seq<u8>, keys: Seq<Key>, layer: KeyLayer) -> Seq<u8>
    decreases keys.len(),
{
    if keys.len() == 0 {
        p
    } else {
        write_key(write_keys(p, keys.drop_last(), layer), keys.last(), layer)
    }
}

/// The payload that writes `keys` into the map of `layer` over the current
/// map, closed by the end mark 90, 165 in its last two bytes.
pub open spec fn keys_payload(layer: KeyLayer, current: Option<Seq<u8>>, keys: Seq<Key>) -> Seq<
    u8,
> {
    write_keys(keys_payload_base(layer, current), keys, layer).update(517, 90).update(518, 165)
}

/// The payload that writes the key map of `layer` (to be framed and sent):
/// the current map where there is one, with the code of every basic key of
/// that layer written at its position. The position of each key of the layer,
/// plus the 11 bytes of header and code, must not overflow.
pub fn keys_payload_bytes(layer: KeyLayer, current: Option<&[u8]>, keys: &[Key]) -> (payload:
    Vec<u8>)
    requires
        forall|j: int|
            0 <= j < keys@.len() && (#[trigger] keys@[j]).layer == layer ==> keys@[j].pos + 11
                <= usize::MAX,
    ensures
        payload@ == keys_payload(
            layer,
            match current {
                Some(c) => Some(c@),
                None => None,
            },
            keys@,
        ),
{
    let ghost cur = match current {
        Some(c) => Some(c@),
        None => None::<Seq<u8>>,
    };
    let mut payload: Vec<u8> = vec![0u8; SEND_PAYLOAD_LENGTH];
    let cmd = keys_set_command(layer);
    let mut c: usize = 0;
    while c < 7
        invariant
            c <= 7,
            cmd@ == CMD_SET_KEY@.update(1, layer_code(layer)),
            payload@.len() == SEND_PAYLOAD_LENGTH,
            forall|q: int| 0 <= q < SEND_PAYLOAD_LENGTH ==> #[trigger] payload@[q] == (if q < c {
                cmd@[q]
            } else {
                0
            }),
        decreases 7 - c,
    {
        payload.set(c, cmd[c]);
        c = c + 1;
    }
    let offset = CMD_GET_KEYS.len();
    assert(offset == 7);
    if let Some(current_keys) = current {
        let copy_len = if current_keys.len() < SEND_PAYLOAD_LENGTH - offset {
            current_keys.len()
        } else {
            SEND_PAYLOAD_LENGTH - offset
        };
        let mut j: usize = 0;
        while j < copy_len
            invariant
                j <= copy_len <= current_keys@.len(),
                copy_len <= 512,
                offset == 7,
                cmd@ == CMD_SET_KEY@.update(1, layer_code(layer)),
                payload@.len() == SEND_PAYLOAD_LENGTH,
                forall|q: int| 0 <= q < SEND_PAYLOAD_LENGTH ==> #[trigger] payload@[q] == (if q < 7 {
                    cmd@[q]
                } else if q - 7 < j {
                    current_keys@[q - 7]
                } else {
                    0
                }),
            decreases copy_len - j,
        {
            payload.set(offset + j, current_keys[j]);
            j = j + 1;
        }
    }
    assert(payload@ =~= keys_payload_base(layer, cur));
    let mut i: usize = 0;
    while i < keys.len()
        invariant
            i <= keys@.len(),
            payload@ == write_keys(keys_payload_base(layer, cur), keys@.take(i as int), layer),
            payload@.len() == SEND_PAYLOAD_LENGTH,
            offset == 7,
        decreases keys@.len() - i,
    {
        let key = &keys[i];
        assert(keys@.take(i as int + 1).drop_last() =~= keys@.take(i as int));
        assert(keys@.take(i as int + 1).last() == keys@[i as int]);
        if key.layer == layer && key.pos <= SEND_PAYLOAD_LENGTH - 4 - offset {
            let idx = key.pos + offset;
            match key.key_type {
                KeyType::Basic => {
                    let value = parse_hex(key.value.as_str());
                    let b0 = ((value >> 24) & 0xff) as u8;
                    let b1 = ((value >> 16) & 0xff) as u8;
                    let b2 = ((value >> 8) & 0xff) as u8;
                    let b3 = (value & 0xff) as u8;
                    assert((value >> 24) & 0xff == value / 0x100_0000 && (value >> 16) & 0xff
                        == value / 0x1_0000 % 256 && (value >> 8) & 0xff == value / 0x100 % 256
                        && value & 0xff == value % 256) by (bit_vector);
                    payload.set(idx, b0);
                    payload.set(idx + 1, b1);
                    payload.set(idx + 2, b2);
                    payload.set(idx + 3, b3);
                },
                KeyType::Macro => {},
            }
        }
        i = i + 1;
    }
    assert(keys@.take(keys@.len() as int) =~= keys@);
    payload.set(SEND_PAYLOAD_LENGTH - 2, 90);
    payload.set(SEND_PAYLOAD_LENGTH - 1, 165);
    payload
}

/// The key-map write command with the layer's code in byte 1.
fn keys_set_command(layer: KeyLayer) -> (cmd: [u8; 7])
    ensures
        cmd@ == CMD_SET_KEY@.update(1, layer_code(layer)),
{
    let mut cmd = CMD_SET_KEY;
    cmd[1] = layer.code();
    cmd
}

/// The light-map payload before any key is written: the light-map write
/// command, then zeros.
pub open spec fn custom_light_base() -> Seq<u8> {
    Seq::new(
        SEND_PAYLOAD_LENGTH as nat,
        |i: int|
            if i < 7 {
                CMD_SET_CUSTOM_LIGHT@[i]
            } else {
                0
            },
    )
}

/// Writes the colour of one key into a light-map payload: a key of the normal
/// layer whose slot is at most 259 puts red at `light_pos + 7`, green 126
/// bytes later and blue 252 bytes later; any other key changes nothing.
pub open spec fn write_light(p: Seq<u8>, k: Key) -> Seq<u8> {
    if k.layer == KeyLayer::Normal && k.light_pos <= 259 {
        p.update(k.light_pos + 7, k.color.r).update(k.light_pos + 133, k.color.g).update(
            k.light_pos + 259,
            k.color.b,
        )
    } else {
        p
    }
}

/// Writes the colours of the keys in order, a later key overwriting an
/// earlier one.
pub open spec fn write_lights(p: Seq<u8>, keys: Seq<Key>) -> Seq<u8>
    decreases keys.len(),
{
    if keys.len() == 0 {
        p
    } else {
        write_light(write_lights(p, keys.drop_last()), keys.last())
    }
}

/// The payload that writes the colours of `keys` into the light map.
pub open spec fn custom_light_payload(keys: Seq<Key>) -> Seq<u8> {
    write_lights(custom_light_base(), keys)
}

/// The payload that writes the light map (to be framed and sent): the colour
/// of every key of the normal layer at its light slot. The slot of each key of
/// the normal layer, plus 259, must not overflow.
pub fn custom_light_payload_bytes(keys: &[Key]) -> (payload: Vec<u8>)
    requires
        forall|j: int|
            0 <= j < keys@.len() && (#[trigger] keys@[j]).layer == KeyLayer::Normal
                ==> keys@[j].light_pos + 259 <= usize::MAX,
    ensures
        payload@ == custom_light_payload(keys@),
{
    let mut payload: Vec<u8> = vec![0u8; SEND_PAYLOAD_LENGTH];
    let prefix_len = CMD_SET_CUSTOM_LIGHT.len();
    let mut c: usize = 0;
    while c < prefix_len
        invariant
            c <= prefix_len == 7,
            payload@.len() == SEND_PAYLOAD_LENGTH,
            forall|q: int| 0 <= q < SEND_PAYLOAD_LENGTH ==> #[trigger] payload@[q] == (if q < c {
                CMD_SET_CUSTOM_LIGHT@[q]
            } else {
                0
            }),
        decreases 7 - c,
    {
        payload.set(c, CMD_SET_CUSTOM_LIGHT[c]);
        c = c + 1;
    }
    assert(payload@ =~= custom_light_base());
    let mut i: usize = 0;
    while i < keys.len()
        invariant
            i <= keys@.len(),
            prefix_len == 7,
            payload@ == write_lights(custom_light_base(), keys@.take(i as int)),
            payload@.len() == SEND_PAYLOAD_LENGTH,
        decreases keys@.len() - i,
    {
        let key = &keys[i];
        assert(keys@.take(i as int + 1).drop_last() =~= keys@.take(i as int));
        assert(keys@.take(i as int + 1).last() == keys@[i as int]);
        if key.layer == KeyLayer::Normal {
            let base = key.light_pos;
            if base <= SEND_PAYLOAD_LENGTH - 1 - 252 - prefix_len {
                payload.set(base + prefix_len, key.color.r);
                payload.set(base + 126 + prefix_len, key.color.g);
                payload.set(base + 252 + prefix_len, key.color.b);
            }
        }
        i = i + 1;
    }
    assert(keys@.take(keys@.len() as int) =~= keys@);
    payload
}

/// The colour table that `light_color_payload_bytes` sends after its command.
pub const SL: [u8; 365] = [
    255, 0, 0, 0, 255, 0, 0, 0, 255, 255, 255, 0, 255, 0, 255, 0, 255, 255, 255, 255,
    255, 255, 0, 0, 0, 255, 0, 0, 0, 255, 255, 255, 0, 255, 0, 255, 0, 255, 255, 255,
    255, 255, 255, 0, 0, 0, 255, 0, 0, 0, 255, 255, 255, 0, 255, 0, 255, 0, 255, 255,
    255, 255, 255, 255, 0, 0, 0, 255, 0, 0, 0, 255, 255, 255, 0, 255, 0, 255, 0, 255,
    255, 255, 255, 255, 255, 0, 0, 0, 255, 0, 0, 0, 255, 255, 255, 0, 255, 0, 255, 0,
    255, 255, 255, 255, 255, 255, 0, 0, 0, 255, 0, 0, 0, 255, 255, 255, 0, 255, 0, 255,
    0, 255, 255, 255, 255, 255, 255, 0, 0, 0, 255, 0, 0, 0, 255, 255, 255, 0, 255, 0,
    255, 0, 255, 255, 255, 255, 255, 255, 0, 0, 0, 255, 0, 0, 0, 255, 255, 255, 0, 255,
    0, 255, 0, 255, 255, 255, 255, 255, 255, 0, 0, 0, 255, 0, 0, 0, 255, 255, 255, 0,
    255, 0, 255, 0, 255, 255, 255, 255, 255, 255, 0, 0, 0, 255, 0, 0, 0, 255, 255, 255,
    0, 255, 0, 255, 0, 255, 255, 255, 255, 255, 208, 0, 0, 0, 255, 0, 0, 0, 255, 255,
    255, 0, 255, 0, 255, 0, 255, 255, 255, 255, 255, 255, 0, 0, 0, 255, 0, 0, 0, 255,
    255, 255, 0, 255, 0, 255, 0, 255, 255, 255, 255, 255, 255, 0, 0, 0, 255, 0, 0, 0,
    255, 255, 255, 0, 255, 0, 255, 0, 255, 255, 255, 255, 255, 255, 0, 0, 0, 255, 0, 0,
    0, 255, 255, 255, 0, 255, 0, 255, 0, 255, 255, 255, 255, 255, 255, 0, 0, 0, 255, 0,
    0, 0, 255, 255, 255, 0, 255, 0, 255, 0, 255, 255, 255, 255, 255, 255, 0, 0, 0, 255,
    0, 0, 0, 255, 255, 255, 0, 255, 0, 255, 0, 255, 255, 255, 255, 255, 3, 0, 0, 0,
    0, 119, 1, 0, 0, 0, 0, 0, 0, 0, 0, 0, 0, 0, 0, 0, 0, 0, 0, 90,
    165, 0, 0, 0, 0,
];

/// Where the light-colour payload starts each of its green entries.
pub const GREEN_OFFSETS: [usize; 10] = [28, 49, 91, 112, 154, 175, 217, 238, 259, 280];

/// Whether `i` starts one of the green entries of the light-colour payload.
pub open spec fn green_entry_start(i: int) -> bool {
    i == 28 || i == 49 || i == 91 || i == 112 || i == 154 || i == 175 || i == 217 || i == 238
        || i == 259 || i == 280
}

/// The light-colour payload before its green entries: the command, the
/// colour table from byte 7, then zeros.
pub open spec fn light_color_base_byte(i: int) -> u8 {
    if i < 7 {
        CMD_SET_LIGHT_COLOR@[i]
    } else if i < 7 + 365 {
        SL@[i - 7]
    } else {
        0
    }
}

/// Byte `i` of the light-colour payload: the command and colour table, with
/// the three bytes 0, 255, 0 (pure green) at each green entry.
pub open spec fn light_color_payload_byte(i: int) -> u8 {
    if green_entry_start(i) || green_entry_start(i - 2) {
        0
    } else if green_entry_start(i - 1) {
        255
    } else {
        light_color_base_byte(i)
    }
}

/// The light-colour payload, 519 bytes.
pub open spec fn light_color_payload() -> Seq<u8> {
    Seq::new(SEND_PAYLOAD_LENGTH as nat, |i: int| light_color_payload_byte(i))
}

/// The base bytes with the green entries of `offs` written over them.
spec fn with_green_entries(offs: Seq<usize>, i: int) -> u8
    decreases offs.len(),
{
    if offs.len() == 0 {
        light_color_base_byte(i)
    } else {
        let o = offs.last();
        if i == o || i == o + 2 {
            0
        } else if i == o + 1 {
            255
        } else {
            with_green_entries(offs.drop_last(), i)
        }
    }
}

/// Byte `i` of a payload lies in none of the green entries.
pub open spec fn outside_green_entries(i: int) -> bool {
    forall|j: int| 0 <= j < 10 ==> !(GREEN_OFFSETS@[j] <= i <= #[trigger] GREEN_OFFSETS@[j] + 2)
}

/// The green entries start at the offsets of `GREEN_OFFSETS`.
proof fn lemma_green_offsets()
    ensures
        GREEN_OFFSETS@ =~= seq![28usize, 49, 91, 112, 154, 175, 217, 238, 259, 280],
        forall|i: int|
            outside_green_entries(i) <==> !(green_entry_start(i) || green_entry_start(i - 1)
                || green_entry_start(i - 2)),
        forall|j: int| 0 <= j < 10 ==> green_entry_start(#[trigger] GREEN_OFFSETS@[j] as int),
{
    assert(GREEN_OFFSETS@ =~= seq![28usize, 49, 91, 112, 154, 175, 217, 238, 259, 280]);
    assert forall|i: int|
        outside_green_entries(i) <==> !(green_entry_start(i) || green_entry_start(i - 1)
            || green_entry_start(i - 2)) by {
        if !outside_green_entries(i) {
            let j = choose|j: int|
                0 <= j < 10 && (GREEN_OFFSETS@[j] <= i <= #[trigger] GREEN_OFFSETS@[j] + 2);
            assert(0 <= j < 10);
        }
        if green_entry_start(i) || green_entry_start(i - 1) || green_entry_start(i - 2) {
            let o: int = if green_entry_start(i) {
                i
            } else if green_entry_start(i - 1) {
                i - 1
            } else {
                i - 2
            };
            let j: int = if o == 28 {
                0
            } else if o == 49 {
                1
            } else if o == 91 {
                2
            } else if o == 112 {
                3
            } else if o == 154 {
                4
            } else if o == 175 {
                5
            } else if o == 217 {
                6
            } else if o == 238 {
                7
            } else if o == 259 {
                8
            } else {
                9
            };
            assert(GREEN_OFFSETS@[j] == o);
        }
    }
}

/// The light-colour payload sends the whole colour table: 519 bytes, the
/// command in bytes 0 to 6, table byte `t` at byte `7 + t` outside the green
/// entries, 0, 255, 0 at each green entry, and zeros after the table.
pub proof fn lemma_light_color_payload_table()
    ensures
        light_color_payload().len() == 519,
        forall|i: int| 0 <= i < 7 ==> light_color_payload()[i] == #[trigger] CMD_SET_LIGHT_COLOR@[i],
        forall|t: int|
            0 <= t < 365 && outside_green_entries(7 + t) ==> light_color_payload()[7 + t]
                == #[trigger] SL@[t],
        forall|j: int|
            0 <= j < 10 ==> light_color_payload()[#[trigger] GREEN_OFFSETS@[j] as int] == 0
                && light_color_payload()[GREEN_OFFSETS@[j] + 1] == 255
                && light_color_payload()[GREEN_OFFSETS@[j] + 2] == 0,
        forall|i: int| 372 <= i < 519 ==> #[trigger] light_color_payload()[i] == 0,
{
    lemma_green_offsets();
    assert forall|j: int| 0 <= j < 10 implies light_color_payload()[
    #[trigger] GREEN_OFFSETS@[j] as int] == 0 && light_color_payload()[GREEN_OFFSETS@[j] + 1] == 255
        && light_color_payload()[GREEN_OFFSETS@[j] + 2] == 0 by {
        let o = GREEN_OFFSETS@[j] as int;
        assert(green_entry_start(o));
        assert(green_entry_start((o + 1) - 1));
        assert(!green_entry_start(o + 1));
        assert(green_entry_start((o + 2) - 2));
    }
}

/// The payload that sets the keyboard's colour table (to be framed and sent).
pub fn light_color_payload_bytes() -> (payload: Vec<u8>)
    ensures
        payload@ == light_color_payload(),
        payload@.len() == 519,
        forall|i: int| 0 <= i < 7 ==> payload@[i] == #[trigger] CMD_SET_LIGHT_COLOR@[i],
        forall|t: int|
            0 <= t < 365 && outside_green_entries(7 + t) ==> payload@[7 + t] == #[trigger] SL@[t],
        forall|j: int|
            0 <= j < 10 ==> payload@[#[trigger] GREEN_OFFSETS@[j] as int] == 0 && payload@[
                GREEN_OFFSETS@[j] + 1] == 255 && payload@[GREEN_OFFSETS@[j] + 2] == 0,
        forall|i: int| 372 <= i < 519 ==> #[trigger] payload@[i] == 0,
{
    let mut payload: Vec<u8> = vec![0u8; SEND_PAYLOAD_LENGTH];
    let offset = CMD_SET_LIGHT_COLOR.len();
    let mut c: usize = 0;
    while c < offset
        invariant
            c <= offset == 7,
            payload@.len() == SEND_PAYLOAD_LENGTH,
            forall|q: int| 0 <= q < SEND_PAYLOAD_LENGTH ==> #[trigger] payload@[q] == (if q < c {
                light_color_base_byte(q)
            } else {
                0
            }),
        decreases 7 - c,
    {
        payload.set(c, CMD_SET_LIGHT_COLOR[c]);
        c = c + 1;
    }
    let mut t: usize = 0;
    while t < SL.len()
        invariant
            t <= 365,
            offset == 7,
            payload@.len() == SEND_PAYLOAD_LENGTH,
            forall|q: int| 0 <= q < SEND_PAYLOAD_LENGTH ==> #[trigger] payload@[q] == (if q < 7
                + t {
                light_color_base_byte(q)
            } else {
                0
            }),
        decreases 365 - t,
    {
        payload.set(offset + t, SL[t]);
        t = t + 1;
    }
    let offsets = GREEN_OFFSETS;
    let mut k: usize = 0;
    while k < offsets.len()
        invariant
            k <= 10,
            offsets@ == GREEN_OFFSETS@,
            payload@.len() == SEND_PAYLOAD_LENGTH,
            forall|q: int| 0 <= q < SEND_PAYLOAD_LENGTH ==> #[trigger] payload@[q]
                == with_green_entries(offsets@.take(k as int), q),
        decreases 10 - k,
    {
        let o = offsets[k];
        assert(offsets@.take(k as int + 1).drop_last() =~= offsets@.take(k as int));
        assert(offsets@.take(k as int + 1).last() == o);
        if o + 2 < payload.len() {
            payload.set(o, 0);
            payload.set(o + 1, 255);
            payload.set(o + 2, 0);
        }
        k = k + 1;
    }
    assert(offsets@.take(10) =~= offsets@);
    assert forall|q: int| 0 <= q < SEND_PAYLOAD_LENGTH implies #[trigger] with_green_entries(
        GREEN_OFFSETS@,
        q,
    ) == light_color_payload_byte(q) by {
        reveal_with_fuel(with_green_entries, 11);
    }
    assert(payload@ =~= light_color_payload());
    proof {
        lemma_light_color_payload_table();
    }
    payload
}

/// The key code in slot `s` of a key map: bytes `4s` to `4s + 3`, most
/// significant first.
pub open spec fn slot_code(data: Seq<u8>, s: int) -> u32 {
    code_of_bytes(data[4 * s], data[4 * s + 1], data[4 * s + 2], data[4 * s + 3])
}

/// A slot holds a key worth reporting: its code is not 0 and its last byte
/// is not 3 (the mark of a macro key).
pub open spec fn slot_kept(data: Seq<u8>, s: int) -> bool {
    slot_code(data, s) != 0 && data[4 * s + 3] != 3
}

/// The kept slots among the first `n` slots, in order.
pub open spec fn kept_slots(data: Seq<u8>, n: nat) -> Seq<int>
    decreases n,
{
    if n == 0 {
        seq![]
    } else {
        let r = kept_slots(data, (n - 1) as nat);
        if slot_kept(data, n - 1) {
            r.push(n - 1)
        } else {
            r
        }
    }
}

/// The label given to a key code that no known key has.
pub open spec fn unknown_label() -> Seq<char> {
    seq!['U', 'n', 'k', 'n', 'o', 'w', 'n']
}

/// The label of a code text among the known keys: that of the last known key
/// with that code, or `Unknown`.
pub open spec fn label_of(defaults: Seq<Key>, text: Seq<char>) -> Seq<char> {
    if lookup_of_keys(defaults).contains_key(text) {
        lookup_of_keys(defaults)[text]
    } else {
        unknown_label()
    }
}

/// `k` is the key read from slot `s` of the key map `data` of `layer`: its code
/// as text, the label of that code among `defaults`, byte position `4s`, light
/// slot `s` and the colour of that slot in `lights`.
pub open spec fn is_slot_key(
    k: Key,
    s: int,
    layer: KeyLayer,
    data: Seq<u8>,
    lights: Seq<u8>,
    defaults: Seq<Key>,
) -> bool {
    &&& k.value@ == key_code_text(slot_code(data, s))
    &&& k.name@ == label_of(defaults, key_code_text(slot_code(data, s)))
    &&& k.pos == 4 * s
    &&& k.light_pos == s
    &&& k.effect_pos == 0
    &&& k.layer == layer
    &&& k.key_type == KeyType::Basic
    &&& k.color == light_color(lights, s)
    &&& k.macro_data is None
}

/// Byte `t` (0 to 3) of slot `s` of a key map.
pub open spec fn slot_byte(data: Seq<u8>, s: int, t: int) -> u8 {
    data[4 * s + t]
}

/// A slot is reported exactly when one of its four bytes is not zero and its
/// last byte is not 3.
pub open spec fn slot_reported_by_bytes(data: Seq<u8>, s: int) -> bool {
    (slot_byte(data, s, 0) != 0 || slot_byte(data, s, 1) != 0 || slot_byte(data, s, 2) != 0
        || slot_byte(data, s, 3) != 0) && slot_byte(data, s, 3) != 3
}

/// A slot is kept exactly when its code is not all zero bytes and its last
/// byte is not 3: a slot such as [0, 0, 0, 7] is kept.
pub proof fn lemma_slot_kept_by_bytes(data: Seq<u8>, s: int)
    requires
        0 <= s,
        4 * s + 3 < data.len(),
    ensures
        slot_kept(data, s) == slot_reported_by_bytes(data, s),
{
    let b0 = data[4 * s];
    let b1 = data[4 * s + 1];
    let b2 = data[4 * s + 2];
    let b3 = data[4 * s + 3];
    let sum = b0 * 0x100_0000 + b1 * 0x1_0000 + b2 * 0x100 + b3;
    assert(0 <= sum <= u32::MAX) by (nonlinear_arith)
        requires
            sum == b0 * 0x100_0000 + b1 * 0x1_0000 + b2 * 0x100 + b3,
            b0 < 256,
            b1 < 256,
            b2 < 256,
            b3 < 256,
    ;
    assert(sum == 0 <==> (b0 == 0 && b1 == 0 && b2 == 0 && b3 == 0)) by (nonlinear_arith)
        requires
            sum == b0 * 0x100_0000 + b1 * 0x1_0000 + b2 * 0x100 + b3,
            b0 < 256,
            b1 < 256,
            b2 < 256,
            b3 < 256,
    ;
    assert(slot_code(data, s) == sum);
}

/// The kept slots among the first `n` are exactly the slots below `n` that are
/// kept, each once, in increasing order.
pub proof fn lemma_kept_slots_members(data: Seq<u8>, n: nat)
    ensures
        forall|s: int| #[trigger] kept_slots(data, n).contains(s) <==> (0 <= s < n && slot_kept(data, s)),
        forall|a: int, b: int|
            0 <= a < b < kept_slots(data, n).len() ==> #[trigger] kept_slots(data, n)[a]
                < #[trigger] kept_slots(data, n)[b],
    decreases n,
{
    if n > 0 {
        let r = kept_slots(data, (n - 1) as nat);
        lemma_kept_slots_members(data, (n - 1) as nat);
        lemma_kept_slots_bound(data, (n - 1) as nat);
        let k = kept_slots(data, n);
        assert forall|s: int| #[trigger] k.contains(s) <==> (0 <= s < n && slot_kept(data, s)) by {
            if slot_kept(data, n - 1) {
                assert(k == r.push(n - 1));
                if r.contains(s) {
                    let j = choose|j: int| 0 <= j < r.len() && r[j] == s;
                    assert(k[j] == s);
                }
                if k.contains(s) && s != n - 1 {
                    let j = choose|j: int| 0 <= j < k.len() && k[j] == s;
                    assert(r[j] == s);
                }
                if s == n - 1 {
                    assert(k[r.len() as int] == s);
                }
            }
        }
        assert forall|a: int, b: int| 0 <= a < b < k.len() implies #[trigger] k[a] < #[trigger] k[b] by {
            if slot_kept(data, n - 1) {
                assert(k == r.push(n - 1));
                assert(k[a] == r[a]);
                if b < r.len() {
                    assert(k[b] == r[b]);
                }
            }
        }
    }
}

/// The keys a key map describes: one for each kept 4-byte slot, in slot
/// order, labelled from `default_keys` and coloured from the light map
/// `lights`.
pub fn keys_from_layer_data(
    layer: KeyLayer,
    key_data: &[u8],
    lights: &[u8],
    default_keys: &[Key],
) -> (keys: Vec<Key>)
    ensures
        keys@.len() == kept_slots(key_data@, key_data@.len() / 4).len(),
        forall|j: int|
            0 <= j < keys@.len() ==> is_slot_key(
                #[trigger] keys@[j],
                kept_slots(key_data@, key_data@.len() / 4)[j],
                layer,
                key_data@,
                lights@,
                default_keys@,
            ),
        forall|s: int|
            0 <= s < key_data@.len() / 4 ==> ((exists|j: int|
                0 <= j < keys@.len() && (#[trigger] keys@[j]).pos == 4 * s)
                <==> slot_reported_by_bytes(key_data@, s)),
        forall|j: int| 0 <= j < keys@.len() ==> (#[trigger] keys@[j]).pos % 4 == 0,
        forall|a: int, b: int|
            0 <= a < b < keys@.len() ==> (#[trigger] keys@[a]).pos < (#[trigger] keys@[b]).pos,
{
    let lookup = build_key_lookup(default_keys);
    let mut keys: Vec<Key> = Vec::new();
    let slots = key_data.len() / 4;
    let mut s: usize = 0;
    while s < slots
        invariant
            s <= slots == key_data@.len() / 4,
            lookup@ == lookup_of_keys(default_keys@),
            keys@.len() == kept_slots(key_data@, s as nat).len(),
            forall|j: int|
                0 <= j < keys@.len() ==> is_slot_key(
                    #[trigger] keys@[j],
                    kept_slots(key_data@, s as nat)[j],
                    layer,
                    key_data@,
                    lights@,
                    default_keys@,
                ),
        decreases slots - s,
    {
        assert(4 * s + 4 <= key_data@.len()) by (nonlinear_arith)
            requires
                s < slots,
                slots == key_data@.len() / 4,
        ;
        assert(key_data@.len() == key_data.len());
        let i = 4 * s;
        let ghost before = keys@;
        assert(kept_slots(key_data@, (s + 1) as nat) == if slot_kept(key_data@, s as int) {
            kept_slots(key_data@, s as nat).push(s as int)
        } else {
            kept_slots(key_data@, s as nat)
        });
        let b0 = key_data[i] as u32;
        let b1 = key_data[i + 1] as u32;
        let b2 = key_data[i + 2] as u32;
        let b3 = key_data[i + 3] as u32;
        let value: u32 = (b0 << 24) | (b1 << 16) | (b2 << 8) | b3;
        assert(value == b0 * 0x100_0000 + b1 * 0x1_0000 + b2 * 0x100 + b3) by (bit_vector)
            requires
                b0 < 256 && b1 < 256 && b2 < 256 && b3 < 256,
                value == (b0 << 24) | (b1 << 16) | (b2 << 8) | b3,
        ;
        assert(value == slot_code(key_data@, s as int));
        if value != 0 && key_data[i + 3] != 3 {
            let value_str = format_key_code(value);
            let name = match lookup.get(&value_str) {
                Some(n) => n.clone(),
                None => {
                    proof {
                        reveal_strlit("Unknown");
                    }
                    String::from_str("Unknown")
                },
            };
            let color = extract_color_from_lights(lights, s);
            let key = Key {
                name,
                value: value_str,
                pos: i,
                light_pos: s,
                effect_pos: 0,
                layer,
                key_type: KeyType::Basic,
                color,
                macro_data: None,
            };
            assert(key.value@ == key_code_text(slot_code(key_data@, s as int)));
            assert(key.name@ == label_of(default_keys@, key_code_text(slot_code(key_data@, s as int))));
            assert(key.color == light_color(lights@, s as int));
            assert(is_slot_key(key, s as int, layer, key_data@, lights@, default_keys@));
            keys.push(key);
            assert forall|j: int| 0 <= j < keys@.len() implies is_slot_key(
                #[trigger] keys@[j],
                kept_slots(key_data@, (s + 1) as nat)[j],
                layer,
                key_data@,
                lights@,
                default_keys@,
            ) by {
                if j < before.len() {
                    assert(keys@[j] == before[j]);
                }
            }
        }
        s = s + 1;
    }
    proof {
        let n = (key_data@.len() / 4) as nat;
        let ks = kept_slots(key_data@, n);
        lemma_kept_slots_members(key_data@, n);
        lemma_kept_slots_bound(key_data@, n);
        assert forall|s: int| 0 <= s < key_data@.len() / 4 implies ((exists|j: int|
            0 <= j < keys@.len() && (#[trigger] keys@[j]).pos == 4 * s) <==> slot_reported_by_bytes(
            key_data@,
            s,
        )) by {
            assert(4 * s + 3 < key_data@.len()) by (nonlinear_arith)
                requires
                    0 <= s < key_data@.len() / 4,
            ;
            lemma_slot_kept_by_bytes(key_data@, s);
            if exists|j: int| 0 <= j < keys@.len() && (#[trigger] keys@[j]).pos == 4 * s {
                let j = choose|j: int| 0 <= j < keys@.len() && (#[trigger] keys@[j]).pos == 4 * s;
                assert(is_slot_key(keys@[j], ks[j], layer, key_data@, lights@, default_keys@));
                assert(ks[j] == s);
                assert(ks.contains(s));
            }
            if slot_reported_by_bytes(key_data@, s) {
                assert(ks.contains(s));
                let j = choose|j: int| 0 <= j < ks.len() && ks[j] == s;
                assert(is_slot_key(keys@[j], ks[j], layer, key_data@, lights@, default_keys@));
                assert(keys@[j].pos == 4 * s);
            }
        }
        assert forall|a: int, b: int| 0 <= a < b < keys@.len() implies (#[trigger] keys@[a]).pos < (
        #[trigger] keys@[b]).pos by {
            assert(is_slot_key(keys@[a], ks[a], layer, key_data@, lights@, default_keys@));
            assert(is_slot_key(keys@[b], ks[b], layer, key_data@, lights@, default_keys@));
            assert(ks[a] < ks[b]);
        }
        assert forall|j: int| 0 <= j < keys@.len() implies (#[trigger] keys@[j]).pos % 4 == 0 by {
            assert(is_slot_key(keys@[j], ks[j], layer, key_data@, lights@, default_keys@));
        }
    }
    keys
}

/// The keys with the colour of each normal-layer key read from its slot of
/// the light map; keys of other layers are unchanged.
pub fn apply_custom_light(keys: &mut [Key], lights: &[u8])
    ensures
        final(keys)@.len() == old(keys)@.len(),
        forall|i: int|
            0 <= i < old(keys)@.len() ==> #[trigger] final(keys)@[i] == (if old(keys)@[i].layer
                == KeyLayer::Normal {
                Key { color: light_color(lights@, old(keys)@[i].light_pos as int), ..old(keys)@[i] }
            } else {
                old(keys)@[i]
            }),
{
    let n = keys.len();
    let mut i: usize = 0;
    while i < n
        invariant
            i <= n == old(keys)@.len() == keys@.len(),
            forall|q: int|
                0 <= q < n ==> #[trigger] keys@[q] == (if q < i && old(keys)@[q].layer
                    == KeyLayer::Normal {
                    Key { color: light_color(lights@, old(keys)@[q].light_pos as int), ..old(keys)@[q] }
                } else {
                    old(keys)@[q]
                }),
        decreases n - i,
    {
        if keys[i].layer == KeyLayer::Normal {
            let color = extract_color_from_lights(lights, keys[i].light_pos);
            keys[i].color = color;
        }
        i = i + 1;
    }
}

/// A key written into a key map is read back from it: in the map that the
/// keyboard keeps after a key-map write (bytes 7 to 510 of the payload), the
/// slot of a basic key of the written layer at a 4-aligned position below
/// 504 holds that key's code, unless a later key of the layer overlaps it.
pub proof fn lemma_key_write_read(layer: KeyLayer, current: Option<Seq<u8>>, keys: Seq<Key>, m: int)
    requires
        0 <= m < keys.len(),
        keys[m].layer == layer,
        keys[m].key_type == KeyType::Basic,
        keys[m].pos % 4 == 0,
        keys[m].pos <= 500,
        forall|j: int|
            m < j < keys.len() && (#[trigger] keys[j]).layer == layer && keys[j].key_type
                == KeyType::Basic ==> keys[j].pos + 4 <= keys[m].pos || keys[m].pos + 4
                <= keys[j].pos,
    ensures
        slot_code(keys_payload(layer, current, keys).subrange(7, 511), keys[m].pos as int / 4)
            == hex_code_value(keys[m].value@),
{
    let pos = keys[m].pos as int;
    let b = code_bytes(hex_code_value(keys[m].value@));
    let base = keys_payload_base(layer, current);
    lemma_written_key_stays(layer, base, keys, m, keys.len() as int);
    lemma_write_keys_len(base, keys, layer);
    let map = keys_payload(layer, current, keys).subrange(7, 511);
    let w = write_keys(base, keys, layer);
    assert(keys.take(keys.len() as int) =~= keys);
    assert(4 * (pos / 4) == pos);
    assert(map[pos] == w[pos + 7]);
    assert(map[pos + 1] == w[pos + 8]);
    assert(map[pos + 2] == w[pos + 9]);
    assert(map[pos + 3] == w[pos + 10]);
    lemma_code_bytes_roundtrip(hex_code_value(keys[m].value@));
}

/// Writing keys keeps a payload 519 bytes long.
proof fn lemma_write_keys_len(p: Seq<u8>, keys: Seq<Key>, layer: KeyLayer)
    requires
        p.len() == SEND_PAYLOAD_LENGTH,
    ensures
        write_keys(p, keys, layer).len() == SEND_PAYLOAD_LENGTH,
    decreases keys.len(),
{
    if keys.len() > 0 {
        lemma_write_keys_len(p, keys.drop_last(), layer);
    }
}

/// After the first `n` keys are written, the code of key `m` (among them)
/// stands at its position, when no key after it overlaps it.
proof fn lemma_written_key_stays(layer: KeyLayer, p: Seq<u8>, keys: Seq<Key>, m: int, n: int)
    requires
        p.len() == SEND_PAYLOAD_LENGTH,
        0 <= m < n <= keys.len(),
        keys[m].layer == layer,
        keys[m].key_type == KeyType::Basic,
        keys[m].pos <= 500,
        forall|j: int|
            m < j < keys.len() && (#[trigger] keys[j]).layer == layer && keys[j].key_type
                == KeyType::Basic ==> keys[j].pos + 4 <= keys[m].pos || keys[m].pos + 4
                <= keys[j].pos,
    ensures
        ({
            let w = write_keys(p, keys.take(n), layer);
            let b = code_bytes(hex_code_value(keys[m].value@));
            &&& w[keys[m].pos + 7] == b[0]
            &&& w[keys[m].pos + 8] == b[1]
            &&& w[keys[m].pos + 9] == b[2]
            &&& w[keys[m].pos + 10] == b[3]
        }),
    decreases n,
{
    let t = keys.take(n);
    assert(t.drop_last() =~= keys.take(n - 1));
    assert(t.last() == keys[n - 1]);
    lemma_write_keys_len(p, keys.take(n - 1), layer);
    if n - 1 > m {
        lemma_written_key_stays(layer, p, keys, m, n - 1);
    }
}

/// A colour written into the light map is read back from it: in the light
/// map after a light-map write (bytes 7 to 518 of the payload), the slot of a
/// normal-layer key below 126 holds that key's colour, unless a later
/// normal-layer key writes one of its three planes (a slot equal to it
/// modulo 126).
pub proof fn lemma_light_write_read(keys: Seq<Key>, m: int)
    requires
        0 <= m < keys.len(),
        keys[m].layer == KeyLayer::Normal,
        keys[m].light_pos < 126,
        forall|j: int|
            m < j < keys.len() && (#[trigger] keys[j]).layer == KeyLayer::Normal
                ==> keys[j].light_pos % 126 != keys[m].light_pos,
    ensures
        light_color(custom_light_payload(keys).subrange(7, 519), keys[m].light_pos as int)
            == created_color(keys[m].color.r, keys[m].color.g, keys[m].color.b),
{
    lemma_written_light_stays(custom_light_base(), keys, m, keys.len() as int);
    lemma_write_lights_len(custom_light_base(), keys);
    assert(keys.take(keys.len() as int) =~= keys);
}

/// Writing colours keeps a payload 519 bytes long.
proof fn lemma_write_lights_len(p: Seq<u8>, keys: Seq<Key>)
    requires
        p.len() == SEND_PAYLOAD_LENGTH,
    ensures
        write_lights(p, keys).len() == SEND_PAYLOAD_LENGTH,
    decreases keys.len(),
{
    if keys.len() > 0 {
        lemma_write_lights_len(p, keys.drop_last());
    }
}

/// After the first `n` keys are written, the colour of key `m` (among them)
/// stands in its three planes, when no later key writes into them.
proof fn lemma_written_light_stays(p: Seq<u8>, keys: Seq<Key>, m: int, n: int)
    requires
        p.len() == SEND_PAYLOAD_LENGTH,
        0 <= m < n <= keys.len(),
        keys[m].layer == KeyLayer::Normal,
        keys[m].light_pos < 126,
        forall|j: int|
            m < j < keys.len() && (#[trigger] keys[j]).layer == KeyLayer::Normal
                ==> keys[j].light_pos % 126 != keys[m].light_pos,
    ensures
        ({
            let w = write_lights(p, keys.take(n));
            let k = keys[m];
            &&& w[k.light_pos + 7] == k.color.r
            &&& w[k.light_pos + 133] == k.color.g
            &&& w[k.light_pos + 259] == k.color.b
        }),
    decreases n,
{
    let t = keys.take(n);
    assert(t.drop_last() =~= keys.take(n - 1));
    assert(t.last() == keys[n - 1]);
    lemma_write_lights_len(p, keys.take(n - 1));
    if n - 1 > m {
        lemma_written_light_stays(p, keys, m, n - 1);
    }
}

/// A key-map write leaves the current map as it was wherever no key is
/// written: a byte of the current map that no basic key of the layer covers
/// is sent back unchanged.
pub proof fn lemma_unwritten_keys_kept(layer: KeyLayer, current: Seq<u8>, keys: Seq<Key>, i: int)
    requires
        7 <= i < 517,
        i - 7 < current.len(),
        forall|j: int|
            0 <= j < keys.len() && (#[trigger] keys[j]).layer == layer && keys[j].key_type
                == KeyType::Basic && keys[j].pos <= 508 ==> !(keys[j].pos + 7 <= i < keys[j].pos
                + 11),
    ensures
        keys_payload(layer, Some(current), keys)[i] == current[i - 7],
{
    let base = keys_payload_base(layer, Some(current));
    lemma_uncovered_byte_kept(layer, base, keys, i);
    lemma_write_keys_len(base, keys, layer);
    assert(base[i] == current[i - 7]);
}

/// Writing keys leaves every byte that none of them covers.
proof fn lemma_uncovered_byte_kept(layer: KeyLayer, p: Seq<u8>, keys: Seq<Key>, i: int)
    requires
        p.len() == SEND_PAYLOAD_LENGTH,
        0 <= i < SEND_PAYLOAD_LENGTH,
        forall|j: int|
            0 <= j < keys.len() && (#[trigger] keys[j]).layer == layer && keys[j].key_type
                == KeyType::Basic && keys[j].pos <= 508 ==> !(keys[j].pos + 7 <= i < keys[j].pos
                + 11),
    ensures
        write_keys(p, keys, layer)[i] == p[i],
    decreases keys.len(),
{
    if keys.len() > 0 {
        let d = keys.drop_last();
        assert forall|j: int|
            0 <= j < d.len() && (#[trigger] d[j]).layer == layer && d[j].key_type == KeyType::Basic
                && d[j].pos <= 508 implies !(d[j].pos + 7 <= i < d[j].pos + 11) by {
            assert(d[j] == keys[j]);
        }
        lemma_uncovered_byte_kept(layer, p, d, i);
        lemma_write_keys_len(p, d, layer);
        assert(keys.last() == keys[keys.len() - 1]);
    }
}

/// The keys a key-map write of `layer` can write: basic keys of that layer.
pub open spec fn writes_in_layer(layer: KeyLayer) -> spec_fn(Key) -> bool {
    |k: Key| k.layer == layer && k.key_type == KeyType::Basic
}

/// Writing only the basic keys of the layer writes the same as writing all.
proof fn lemma_write_keys_filter(p: Seq<u8>, keys: Seq<Key>, layer: KeyLayer)
    ensures
        write_keys(p, keys, layer) == write_keys(p, keys.filter(writes_in_layer(layer)), layer),
    decreases keys.len(),
{
    reveal(Seq::filter);
    if keys.len() > 0 {
        let d = keys.drop_last();
        let f = d.filter(writes_in_layer(layer));
        lemma_write_keys_filter(p, d, layer);
        if writes_in_layer(layer)(keys.last()) {
            assert(f.push(keys.last()).drop_last() =~= f);
        }
    }
}

/// A key-map write of a layer ignores keys of other layers and macro keys:
/// the payload is the same as for the layer's basic keys alone, and it names
/// the layer in its byte 1.
pub proof fn lemma_keys_payload_only_layer(
    layer: KeyLayer,
    current: Option<Seq<u8>>,
    keys: Seq<Key>,
)
    ensures
        keys_payload(layer, current, keys) == keys_payload(
            layer,
            current,
            keys.filter(writes_in_layer(layer)),
        ),
        keys_payload(layer, current, keys)[1] == layer_code(layer),
{
    let base = keys_payload_base(layer, current);
    lemma_write_keys_filter(base, keys, layer);
    lemma_uncovered_byte_kept(layer, base, keys, 1);
    lemma_write_keys_len(base, keys, layer);
}

/// The keys a light-map write can write: keys of the normal layer whose slot
/// is below 260.
pub open spec fn writes_light(k: Key) -> bool {
    k.layer == KeyLayer::Normal && k.light_pos < 260
}

/// Writing only the colours that land writes the same as writing all.
proof fn lemma_write_lights_filter(p: Seq<u8>, keys: Seq<Key>)
    ensures
        write_lights(p, keys) == write_lights(p, keys.filter(|k: Key| writes_light(k))),
    decreases keys.len(),
{
    reveal(Seq::filter);
    if keys.len() > 0 {
        let d = keys.drop_last();
        let f = d.filter(|k: Key| writes_light(k));
        lemma_write_lights_filter(p, d);
        if writes_light(keys.last()) {
            assert(f.push(keys.last()).drop_last() =~= f);
        }
    }
}

/// A light-map write ignores keys off the normal layer and keys at slot 260
/// or above: the payload is the same as for the other keys alone.
pub proof fn lemma_custom_light_only_normal(keys: Seq<Key>)
    ensures
        custom_light_payload(keys) == custom_light_payload(keys.filter(|k: Key| writes_light(k))),
{
    lemma_write_lights_filter(custom_light_base(), keys);
}

/// The four bytes of a code read from four bytes are those bytes.
pub proof fn lemma_bytes_code_roundtrip(b0: u8, b1: u8, b2: u8, b3: u8)
    ensures
        code_bytes(code_of_bytes(b0, b1, b2, b3)) == seq![b0, b1, b2, b3],
{
    let v = code_of_bytes(b0, b1, b2, b3);
    assert(v == b0 * 0x100_0000 + b1 * 0x1_0000 + b2 * 0x100 + b3);
    assert((v / 0x100_0000) as u8 == b0 && (v / 0x1_0000 % 256) as u8 == b1 && (v / 0x100
        % 256) as u8 == b2 && (v % 256) as u8 == b3) by (nonlinear_arith)
        requires
            v == b0 * 0x100_0000 + b1 * 0x1_0000 + b2 * 0x100 + b3,
            b0 < 256,
            b1 < 256,
            b2 < 256,
            b3 < 256,
    ;
    assert(code_bytes(v) =~= seq![b0, b1, b2, b3]);
}

/// The kept slots among the first `n` are below `n`.
proof fn lemma_kept_slots_bound(data: Seq<u8>, n: nat)
    ensures
        forall|j: int| 0 <= j < kept_slots(data, n).len() ==> 0 <= #[trigger] kept_slots(data, n)[j] < n,
    decreases n,
{
    if n > 0 {
        let r = kept_slots(data, (n - 1) as nat);
        lemma_kept_slots_bound(data, (n - 1) as nat);
        assert forall|j: int| 0 <= j < kept_slots(data, n).len() implies 0
            <= #[trigger] kept_slots(data, n)[j] < n by {
            if j < r.len() {
                assert(kept_slots(data, n)[j] == r[j]);
            }
        }
    }
}

/// Keys whose every write leaves `p` as it is leave it as it is together.
proof fn lemma_noop_writes(p: Seq<u8>, keys: Seq<Key>, layer: KeyLayer)
    requires
        forall|j: int| 0 <= j < keys.len() ==> write_key(p, #[trigger] keys[j], layer) == p,
    ensures
        write_keys(p, keys, layer) == p,
    decreases keys.len(),
{
    if keys.len() > 0 {
        let d = keys.drop_last();
        assert forall|j: int| 0 <= j < d.len() implies write_key(p, #[trigger] d[j], layer) == p by {
            assert(d[j] == keys[j]);
        }
        lemma_noop_writes(p, d, layer);
        assert(keys.last() == keys[keys.len() - 1]);
    }
}

/// Writing back the keys read from a key map leaves the map as it was: for
/// the keys that the reader gives for a 504-byte map `kd` of `layer`, the
/// key-map write over `kd` is the layer's write command, `kd`, six zero bytes
/// and the end mark 90, 165.
pub proof fn lemma_write_back_read_keys(
    layer: KeyLayer,
    kd: Seq<u8>,
    lights: Seq<u8>,
    defaults: Seq<Key>,
    ks: Seq<Key>,
)
    requires
        kd.len() == 504,
        ks.len() == kept_slots(kd, 126).len(),
        forall|j: int|
            0 <= j < ks.len() ==> is_slot_key(
                #[trigger] ks[j],
                kept_slots(kd, 126)[j],
                layer,
                kd,
                lights,
                defaults,
            ),
    ensures
        keys_payload(layer, Some(kd), ks) == CMD_SET_KEY@.update(1, layer_code(layer)) + kd
            + seq![0u8, 0, 0, 0, 0, 0] + seq![90u8, 165],
{
    let base = keys_payload_base(layer, Some(kd));
    lemma_kept_slots_bound(kd, 126);
    assert forall|j: int| 0 <= j < ks.len() implies write_key(base, #[trigger] ks[j], layer)
        == base by {
        let s = kept_slots(kd, 126)[j];
        let k = ks[j];
        assert(is_slot_key(k, s, layer, kd, lights, defaults));
        let code = slot_code(kd, s);
        lemma_key_code_roundtrip(code);
        lemma_bytes_code_roundtrip(kd[4 * s], kd[4 * s + 1], kd[4 * s + 2], kd[4 * s + 3]);
        assert(write_key(base, k, layer) =~= base);
    }
    lemma_noop_writes(base, ks, layer);
    assert(keys_payload(layer, Some(kd), ks) =~= CMD_SET_KEY@.update(1, layer_code(layer)) + kd
        + seq![0u8, 0, 0, 0, 0, 0] + seq![90u8, 165]);
}

} // verus!
