//! Request decoding and response assembly for the OpenRGB server.
//!
//! The connection loop hands each request's payload bytes to the functions
//! here: they decode the device-directed commands and build the bit-exact
//! response payloads the protocol prescribes.

use vstd::prelude::*;

use crate::actor::KeyboardAction;
use crate::config::Config;
use crate::consts::Request;
use crate::consts::{
    DEVICE_TYPE_KEYBOARD, MODE_FLAG_HAS_MODE_SPECIFIC_COLOR, MODE_FLAG_HAS_PER_LED_COLOR,
    MODE_FLAG_HAS_RANDOM_COLOR, OPENRGB_PROTOCOL_VERSION, ZONE_TYPE_MATRIX,
};
use crate::utils::{
    color_field, i32_le, push_bytes, push_i32_le, push_str_field, push_u16_le, push_u32_le,
    read_rgb_at, read_u16_le_at, read_u32_le_at, str_field, u16_le, u32_le, u32s_le,
    vec_splice,
};
use vstd::string::StringSliceAdditionalSpecFns;
use vstd::utf8::encode_utf8;

verus! {

/// Why a request was refused.
#[derive(Clone, Copy, PartialEq, Eq, Structural, Debug)]
pub enum RequestError {
    /// The payload is shorter than the request's fixed fields.
    Framing,
}

/// The reply to a protocol-version handshake: the server's version, little
/// endian; the client's version in the payload is read and discarded.
pub fn protocol_version_response(payload: &[u8]) -> (r: Result<Vec<u8>, RequestError>)
    ensures
        payload@.len() >= 4 ==> (r matches Ok(v) && v@ =~= u32_le(OPENRGB_PROTOCOL_VERSION)),
        payload@.len() < 4 ==> r is Err,
{
    match read_u32_le_at(payload, 0) {
        Some(_) => {
            let mut out: Vec<u8> = Vec::new();
            push_u32_le(&mut out, OPENRGB_PROTOCOL_VERSION);
            Ok(out)
        },
        None => Err(RequestError::Framing),
    }
}

/// The reply to a controller-count query: the count, little endian.
pub fn controller_count_response(count: u32) -> (r: Vec<u8>)
    ensures
        r@ =~= u32_le(count),
{
    let mut out: Vec<u8> = Vec::new();
    push_u32_le(&mut out, count);
    out
}

/// A single-LED update: the LED index, then red, green and blue.
pub fn parse_update_single_led(payload: &[u8]) -> (r: Result<
    (u32, (u8, u8, u8)),
    RequestError,
>)
    ensures
        payload@.len() >= 7 ==> (r matches Ok(p) && u32_le(p.0) =~= payload@.subrange(0, 4)
            && p.1 == (payload@[4], payload@[5], payload@[6])),
        payload@.len() < 7 ==> r is Err,
{
    let led = match read_u32_le_at(payload, 0) {
        Some(x) => x,
        None => {
            return Err(RequestError::Framing);
        },
    };
    let rgb = match read_rgb_at(payload, 4) {
        Some(c) => c,
        None => {
            return Err(RequestError::Framing);
        },
    };
    Ok((led, rgb))
}

/// A full or zone frame update: a data length, the zone id where addressed,
/// a LED count, then one colour per LED as red, green, blue and a pad byte.
pub fn parse_update_leds(payload: &[u8], zoned: bool) -> (r: Result<
    Vec<(u8, u8, u8)>,
    RequestError,
>)
    ensures
        ({
            let base: int = if zoned {
                10
            } else {
                6
            };
            &&& (r is Ok <==> (payload@.len() >= base && payload@.len() >= base + 4 * ((
            payload@[base - 2] as int) + 256 * (payload@[base - 1] as int))))
            &&& (r matches Ok(colors) ==> {
                &&& payload@.len() >= base
                &&& colors@.len() == (payload@[base - 2] as int) + 256 * (payload@[base
                    - 1] as int)
                &&& u16_le(colors@.len() as u16) =~= payload@.subrange(base - 2, base)
                &&& payload@.len() >= base + 4 * colors@.len()
                &&& forall|k: int|
                    0 <= k < colors@.len() ==> #[trigger] colors@[k] == (
                        payload@[base + 4 * k],
                        payload@[base + 4 * k + 1],
                        payload@[base + 4 * k + 2],
                    )
            })
        }),
{
    let base: usize = if zoned {
        10
    } else {
        6
    };
    if read_u32_le_at(payload, 0).is_none() {
        return Err(RequestError::Framing);
    }
    if zoned && read_u32_le_at(payload, 4).is_none() {
        return Err(RequestError::Framing);
    }
    let count = match read_u16_le_at(payload, base - 2) {
        Some(x) => x,
        None => {
            return Err(RequestError::Framing);
        },
    };
    proof {
        let c16 = count;
        assert(u16_le(c16) =~= payload@.subrange(base - 2, base as int));
        assert(payload@.subrange(base - 2, base as int)[0] == payload@[base - 2]);
        assert(payload@.subrange(base - 2, base as int)[1] == payload@[base - 1]);
        assert(payload@[base - 2] == (c16 & 0xff) as u8);
        assert(payload@[base - 1] == ((c16 >> 8) & 0xff) as u8);
        assert((c16 & 0xff) < 256 && ((c16 >> 8) & 0xff) < 256 && (c16 & 0xff) + 256 * ((c16
            >> 8) & 0xff) == c16) by (bit_vector);
    }
    let mut colors: Vec<(u8, u8, u8)> = Vec::new();
    let mut k: usize = 0;
    while k < count as usize
        invariant
            k <= count as usize,
            base == (if zoned {
                10int
            } else {
                6int
            }),
            u16_le(count) =~= payload@.subrange(base - 2, base as int),
            count as int == (payload@[base - 2] as int) + 256 * (payload@[base - 1] as int),
            payload@.len() >= base + 4 * k,
            colors@.len() == k,
            forall|j: int|
                0 <= j < k ==> #[trigger] colors@[j] == (
                    payload@[base + 4 * j],
                    payload@[base + 4 * j + 1],
                    payload@[base + 4 * j + 2],
                ),
        decreases count as int - k,
    {
        let rgb = match read_rgb_at(payload, base + 4 * k) {
            Some(c) => c,
            None => {
                return Err(RequestError::Framing);
            },
        };
        if payload.len() < base + 4 * k + 4 {
            return Err(RequestError::Framing);
        }
        colors.push(rgb);
        k = k + 1;
    }
    proof {
        assert(colors@.len() == count as int);
        assert(u16_le(colors@.len() as u16) =~= payload@.subrange(base - 2, base as int));
        assert(payload@.len() >= base + 4 * count);
    }
    Ok(colors)
}

/// A decoded mode update.
pub struct ModeUpdate {
    pub effect: u8,
    pub speed: u8,
    pub brightness: u8,
    pub color: Option<(u8, u8, u8)>,
}

/// A mode update: a data length and an effect id up front, then a name
/// length; the speed, the brightness, a colour count and the first colour
/// stand at fixed offsets past the name.
pub fn parse_mode_update(payload: &[u8]) -> (r: Result<ModeUpdate, RequestError>)
    ensures
        ({
            let name_len = (payload@[8] as int) + 256 * (payload@[9] as int);
            r is Ok <==> (payload@.len() >= 10 && 10 + name_len + 49 < payload@.len() && ((
            payload@[10 + name_len + 48] != 0 || payload@[10 + name_len + 49] != 0) ==> 10
                + name_len + 52 < payload@.len()))
        }),
        r matches Ok(m) ==> ({
            let name_len = (payload@[8] as int) + 256 * (payload@[9] as int);
            &&& payload@.len() >= 10
            &&& u32_le(m.effect as u32).subrange(0, 1) =~= payload@.subrange(4, 5)
            &&& m.speed == payload@[10 + name_len + 32]
            &&& m.brightness == payload@[10 + name_len + 36]
            &&& (m.color is Some <==> !(payload@[10 + name_len + 48] == 0 && payload@[10
                + name_len + 49] == 0))
            &&& m.color matches Some(c) ==> c == (
                payload@[10 + name_len + 50],
                payload@[10 + name_len + 51],
                payload@[10 + name_len + 52],
            )
        }),
{
    if read_u32_le_at(payload, 0).is_none() {
        return Err(RequestError::Framing);
    }
    let effect_raw = match read_u32_le_at(payload, 4) {
        Some(x) => x,
        None => {
            return Err(RequestError::Framing);
        },
    };
    let effect: u8 = (effect_raw & 0xff) as u8;
    proof {
        assert(effect_raw & 0xff < 256) by (bit_vector);
        let e32 = effect as u32;
        assert(e32 < 256);
        assert(e32 & 0xff == e32) by (bit_vector)
            requires
                e32 < 256,
        ;
        assert(u32_le(e32)[0] == (e32 & 0xff) as u8);
        assert(u32_le(effect_raw)[0] == (effect_raw & 0xff) as u8);
        assert(payload@[4] == u32_le(effect_raw)[0]) by {
            assert(u32_le(effect_raw) =~= payload@.subrange(4, 8));
            assert(payload@.subrange(4, 8)[0] == payload@[4]);
        }
        assert(u32_le(e32).subrange(0, 1) =~= payload@.subrange(4, 5));
    }
    let name_len = match read_u16_le_at(payload, 8) {
        Some(x) => x as usize,
        None => {
            return Err(RequestError::Framing);
        },
    };
    proof {
        let nl16 = name_len as u16;
        assert(u16_le(nl16) =~= payload@.subrange(8, 10));
        assert(payload@.subrange(8, 10)[0] == payload@[8]);
        assert(payload@.subrange(8, 10)[1] == payload@[9]);
        assert(payload@[8] == (nl16 & 0xff) as u8);
        assert(payload@[9] == ((nl16 >> 8) & 0xff) as u8);
        assert((nl16 & 0xff) < 256 && ((nl16 >> 8) & 0xff) < 256 && (nl16 & 0xff) + 256 * ((
        nl16 >> 8) & 0xff) == nl16) by (bit_vector);
    }
    let speed = match byte_at(payload, 10, name_len, 32) {
        Some(b) => b,
        None => {
            return Err(RequestError::Framing);
        },
    };
    let brightness = match byte_at(payload, 10, name_len, 36) {
        Some(b) => b,
        None => {
            return Err(RequestError::Framing);
        },
    };
    let cc0 = match byte_at(payload, 10, name_len, 48) {
        Some(b) => b,
        None => {
            return Err(RequestError::Framing);
        },
    };
    let cc1 = match byte_at(payload, 10, name_len, 49) {
        Some(b) => b,
        None => {
            return Err(RequestError::Framing);
        },
    };
    let color: Option<(u8, u8, u8)> = if cc0 == 0 && cc1 == 0 {
        None
    } else {
        let c0 = match byte_at(payload, 10, name_len, 50) {
            Some(b) => b,
            None => {
                return Err(RequestError::Framing);
            },
        };
        let c1 = match byte_at(payload, 10, name_len, 51) {
            Some(b) => b,
            None => {
                return Err(RequestError::Framing);
            },
        };
        let c2 = match byte_at(payload, 10, name_len, 52) {
            Some(b) => b,
            None => {
                return Err(RequestError::Framing);
            },
        };
        Some((c0, c1, c2))
    };
    Ok(ModeUpdate { effect, speed, brightness, color })
}

/// The byte at `base + name_len + extra`, where the sum fits the payload.
fn byte_at(payload: &[u8], base: usize, name_len: usize, extra: usize) -> (r: Option<u8>)
    requires
        base + name_len + extra <= usize::MAX,
    ensures
        r is Some <==> base + name_len + extra < payload@.len(),
        r matches Some(b) ==> b == payload@[base + name_len + extra],
{
    if name_len > payload.len() || base > payload.len() - name_len {
        return None;
    }
    let at = base + name_len;
    if extra >= payload.len() - at {
        return None;
    }
    Some(payload[at + extra])
}

/// The profile name a profile request carries: every payload byte up to,
/// but not including, the trailing nul.
pub fn parse_profile_name(payload: &[u8]) -> (r: Result<Vec<u8>, RequestError>)
    ensures
        payload@.len() == 0 ==> r is Err,
        payload@.len() > 0 ==> (r matches Ok(name) && name@ =~= payload@.subrange(
            0,
            payload@.len() - 1,
        )),
{
    if payload.len() == 0 {
        return Err(RequestError::Framing);
    }
    let mut name: Vec<u8> = Vec::new();
    let mut i: usize = 0;
    while i < payload.len() - 1
        invariant
            payload@.len() > 0,
            i <= payload@.len() - 1,
            name@ =~= payload@.subrange(0, i as int),
        decreases payload@.len() - i,
    {
        name.push(payload[i]);
        i = i + 1;
    }
    Ok(name)
}

/// The custom mode: the first effect whose flags include the per-LED-colour
/// capability, truncated to the 8-bit effect id the device takes.
pub open spec fn spec_custom_mode(effects: Seq<(Seq<char>, i32, u32)>) -> Option<u8>
    decreases effects.len(),
{
    if effects.len() == 0 {
        None
    } else if effects[0].2 & MODE_FLAG_HAS_PER_LED_COLOR != 0 {
        Some((effects[0].1 & 0xff) as u8)
    } else {
        spec_custom_mode(effects.skip(1))
    }
}

/// Picks the first effect that supports per-LED colours.
pub fn select_custom_mode(config: &Config) -> (r: Option<u8>)
    ensures
        r == spec_custom_mode(
            config.effects@.map_values(|e: (String, i32, u32)| crate::config::effect_view(e)),
        ),
{
    let ghost ev = config.effects@.map_values(
        |e: (String, i32, u32)| crate::config::effect_view(e),
    );
    proof {
        assert(ev.skip(0) =~= ev);
    }
    let mut i: usize = 0;
    while i < config.effects.len()
        invariant
            i <= config.effects@.len(),
            ev == config.effects@.map_values(
                |e: (String, i32, u32)| crate::config::effect_view(e),
            ),
            spec_custom_mode(ev) == spec_custom_mode(ev.skip(i as int)),
        decreases config.effects@.len() - i,
    {
        let ghost rest = ev.skip(i as int);
        proof {
            assert(rest[0] == ev[i as int]);
            assert(rest.skip(1) =~= ev.skip(i + 1));
        }
        let flags = config.effects[i].2;
        if flags & MODE_FLAG_HAS_PER_LED_COLOR != 0 {
            let id = config.effects[i].1;
            let low: i32 = id & 0xff;
            proof {
                assert(0 <= low < 256) by (bit_vector)
                    requires
                        low == id & 0xff,
                ;
                assert(spec_custom_mode(rest) == Some((ev[i as int].1 & 0xff) as u8));
            }
            return Some(low as u8);
        }
        i = i + 1;
    }
    proof {
        assert(ev.skip(ev.len() as int).len() == 0);
    }
    None
}

/// One lowercase hex digit.
pub open spec fn hex_digit(d: u16) -> u8 {
    if d < 10 {
        (48 + d) as u8
    } else {
        (87 + d) as u8
    }
}

/// Four lowercase hex digits, most significant first.
pub open spec fn hex4_bytes(x: u16) -> Seq<u8> {
    seq![
        hex_digit((x >> 12) & 0xf),
        hex_digit((x >> 8) & 0xf),
        hex_digit((x >> 4) & 0xf),
        hex_digit(x & 0xf),
    ]
}

/// The device id string: vendor and product id in hex, colon separated.
pub open spec fn id_hex_bytes(vendor_id: u16, product_id: u16) -> Seq<u8> {
    hex4_bytes(vendor_id) + seq![58u8] + hex4_bytes(product_id)
}

/// Writes four lowercase hex digits.
pub fn push_hex4(buf: &mut Vec<u8>, x: u16)
    ensures
        final(buf)@ =~= old(buf)@ + hex4_bytes(x),
{
    let d0: u16 = (x >> 12) & 0xf;
    let d1: u16 = (x >> 8) & 0xf;
    let d2: u16 = (x >> 4) & 0xf;
    let d3: u16 = x & 0xf;
    assert(d0 < 16 && d1 < 16 && d2 < 16 && d3 < 16) by (bit_vector)
        requires
            d0 == (x >> 12) & 0xf && d1 == (x >> 8) & 0xf && d2 == (x >> 4) & 0xf && d3 == x
                & 0xf,
    ;
    buf.push(if d0 < 10 {
        48 + d0 as u8
    } else {
        87 + d0 as u8
    });
    buf.push(if d1 < 10 {
        48 + d1 as u8
    } else {
        87 + d1 as u8
    });
    buf.push(if d2 < 10 {
        48 + d2 as u8
    } else {
        87 + d2 as u8
    });
    buf.push(if d3 < 10 {
        48 + d3 as u8
    } else {
        87 + d3 as u8
    });
}

/// The colour-source class of an effect, as OpenRGB encodes it.
pub open spec fn spec_color_mode(flags: u32) -> u32 {
    if flags & MODE_FLAG_HAS_PER_LED_COLOR != 0 {
        1
    } else if flags & MODE_FLAG_HAS_MODE_SPECIFIC_COLOR != 0 {
        2
    } else if flags & MODE_FLAG_HAS_RANDOM_COLOR != 0 {
        3
    } else {
        0
    }
}

/// One effect's entry in the controller data.
pub open spec fn effect_entry_bytes(
    e: (String, i32, u32),
    speed_range: (u32, u32),
    brightness_range: (u32, u32),
    cur_speed: u8,
    cur_brightness: u8,
    color_rgb: (u8, u8, u8),
) -> Seq<u8> {
    str_field(encode_utf8(e.0@)) + i32_le(e.1) + u32_le(e.2) + u32_le(speed_range.0) + u32_le(
        speed_range.1,
    ) + u32_le(brightness_range.0) + u32_le(brightness_range.1) + u32_le(1) + u32_le(1) + u32_le(
        cur_speed as u32,
    ) + u32_le(cur_brightness as u32) + u32_le(0) + u32_le(spec_color_mode(e.2)) + u16_le(1)
        + color_field(color_rgb)
}

/// Every effect's entry, in order.
pub open spec fn effects_bytes(
    effects: Seq<(String, i32, u32)>,
    speed_range: (u32, u32),
    brightness_range: (u32, u32),
    cur_speed: u8,
    cur_brightness: u8,
    color_rgb: (u8, u8, u8),
) -> Seq<u8>
    decreases effects.len(),
{
    if effects.len() == 0 {
        Seq::empty()
    } else {
        effects_bytes(
            effects.drop_last(),
            speed_range,
            brightness_range,
            cur_speed,
            cur_brightness,
            color_rgb,
        ) + effect_entry_bytes(
            effects.last(),
            speed_range,
            brightness_range,
            cur_speed,
            cur_brightness,
            color_rgb,
        )
    }
}

/// The LED grid: one 32-bit cell per matrix position, the LED index where a
/// LED sits there, the all-ones sentinel elsewhere.
pub open spec fn grid_of(leds: Seq<(u8, (u8, u8))>, cols: int, size: int) -> Seq<u32>
    decreases leds.len(),
{
    if leds.len() == 0 {
        Seq::new(size as nat, |j: int| 0xffffffffu32)
    } else {
        grid_of(leds.drop_last(), cols, size).update(
            (leds.last().1.0 as int) * cols + leds.last().1.1 as int,
            leds.last().0 as u32,
        )
    }
}

/// One LED's name entry: its key's name and its LED index.
pub open spec fn led_name_bytes(led: (u8, (u8, u8)), keymap: Seq<u16>, cols: int) -> Seq<u8> {
    let scancode = keymap[(led.1.0 as int) * cols + led.1.1 as int];
    str_field(
        encode_utf8("Key: "@) + encode_utf8(crate::consts::spec_openrgb_keycode(scancode)),
    ) + u32_le(led.0 as u32)
}

/// Every LED's name entry, in order.
pub open spec fn led_names_bytes(leds: Seq<(u8, (u8, u8))>, keymap: Seq<u16>, cols: int) -> Seq<
    u8,
>
    decreases leds.len(),
{
    if leds.len() == 0 {
        Seq::empty()
    } else {
        led_names_bytes(leds.drop_last(), keymap, cols) + led_name_bytes(
            leds.last(),
            keymap,
            cols,
        )
    }
}

/// Every LED's current colour, in order.
pub open spec fn colors_bytes(colors: Seq<(u8, u8, u8)>) -> Seq<u8>
    decreases colors.len(),
{
    if colors.len() == 0 {
        Seq::empty()
    } else {
        colors_bytes(colors.drop_last()) + color_field(colors.last())
    }
}

/// The header of the controller data: the device identity strings, the
/// effect count and the current effect.
pub open spec fn head_bytes(cfg: Config, effect: u8, version: Seq<u8>) -> Seq<u8> {
    let nameb = encode_utf8(cfg.name@);
    let idb = id_hex_bytes(cfg.vendor_id, cfg.product_id);
    i32_le(DEVICE_TYPE_KEYBOARD) + str_field(nameb) + str_field(encode_utf8("Unknown"@))
        + str_field(nameb + encode_utf8(" via ColorHoster"@)) + str_field(version) + str_field(
        idb,
    ) + str_field(encode_utf8("HID: "@) + idb) + u16_le((cfg.effects@.len() % 0x10000) as u16)
        + i32_le(effect as i32)
}

/// The single matrix zone of the controller data, grid included.
pub open spec fn zone_bytes(cfg: Config) -> Seq<u8> {
    let leds_count = crate::config::spec_count_leds(cfg.leds@);
    let size = cfg.matrix.0 as int * cfg.matrix.1 as int;
    u16_le(1) + str_field(encode_utf8("Keyboard"@)) + i32_le(ZONE_TYPE_MATRIX) + u32_le(
        leds_count,
    ) + u32_le(leds_count) + u32_le(leds_count) + u16_le(
        (((cfg.matrix.0 as int) * (cfg.matrix.1 as int) * 4 + 8) % 0x10000) as u16,
    ) + u32_le(cfg.matrix.1) + u32_le(cfg.matrix.0) + u32s_le(
        grid_of(cfg.leds@, cfg.matrix.0 as int, size),
    )
}

/// The complete controller-data payload, after the length field up front
/// has been patched to the payload's total length.
pub open spec fn controller_data_bytes(
    cfg: Config,
    keymap: Seq<u16>,
    effect: u8,
    speed: u8,
    brightness: u8,
    color_rgb: (u8, u8, u8),
    colors: Seq<(u8, u8, u8)>,
    version: Seq<u8>,
) -> Seq<u8> {
    let leds_count = crate::config::spec_count_leds(cfg.leds@);
    let body = head_bytes(cfg, effect, version) + effects_bytes(
        cfg.effects@,
        cfg.speed,
        cfg.brightness,
        speed,
        brightness,
        color_rgb,
    ) + zone_bytes(cfg) + u16_le((leds_count % 0x10000) as u16) + led_names_bytes(
        cfg.leds@,
        keymap,
        cfg.matrix.0 as int,
    ) + u16_le((leds_count % 0x10000) as u16) + colors_bytes(colors);
    u32_le(((body.len() + 4) % 0x100000000) as u32) + body
}

/// Writes every effect entry.
#[verifier::rlimit(100)]
fn push_effects(
    buf: &mut Vec<u8>,
    effects: &Vec<(String, i32, u32)>,
    speed_range: (u32, u32),
    brightness_range: (u32, u32),
    cur_speed: u8,
    cur_brightness: u8,
    color_rgb: (u8, u8, u8),
)
    ensures
        final(buf)@ =~= old(buf)@ + effects_bytes(
            effects@,
            speed_range,
            brightness_range,
            cur_speed,
            cur_brightness,
            color_rgb,
        ),
{
    let mut i: usize = 0;
    while i < effects.len()
        invariant
            i <= effects@.len(),
            buf@ =~= old(buf)@ + effects_bytes(
                effects@.subrange(0, i as int),
                speed_range,
                brightness_range,
                cur_speed,
                cur_brightness,
                color_rgb,
            ),
        decreases effects@.len() - i,
    {
        let ghost pre = buf@;
        let name = effects[i].0.as_str();
        let id = effects[i].1;
        let flags = effects[i].2;
        push_str_field(buf, name.as_bytes());
        push_i32_le(buf, id);
        push_u32_le(buf, flags);
        push_u32_le(buf, speed_range.0);
        push_u32_le(buf, speed_range.1);
        push_u32_le(buf, brightness_range.0);
        push_u32_le(buf, brightness_range.1);
        push_u32_le(buf, 1);
        push_u32_le(buf, 1);
        push_u32_le(buf, cur_speed as u32);
        push_u32_le(buf, cur_brightness as u32);
        push_u32_le(buf, 0);
        let color_mode: u32 = if flags & MODE_FLAG_HAS_PER_LED_COLOR != 0 {
            1
        } else if flags & MODE_FLAG_HAS_MODE_SPECIFIC_COLOR != 0 {
            2
        } else if flags & MODE_FLAG_HAS_RANDOM_COLOR != 0 {
            3
        } else {
            0
        };
        push_u32_le(buf, color_mode);
        push_u16_le(buf, 1);
        buf.push(color_rgb.0);
        buf.push(color_rgb.1);
        buf.push(color_rgb.2);
        buf.push(0);
        proof {
            assert(effects@.subrange(0, i + 1).drop_last() =~= effects@.subrange(0, i as int));
            assert(effects@.subrange(0, i + 1).last() == effects@[i as int]);
            assert(color_mode == spec_color_mode(effects@[i as int].2));
            assert(buf@ =~= pre + effect_entry_bytes(
                effects@[i as int],
                speed_range,
                brightness_range,
                cur_speed,
                cur_brightness,
                color_rgb,
            ));
            assert(buf@ =~= old(buf)@ + effects_bytes(
                effects@.subrange(0, i + 1),
                speed_range,
                brightness_range,
                cur_speed,
                cur_brightness,
                color_rgb,
            ));
        }
        i = i + 1;
    }
    proof {
        assert(effects@.subrange(0, effects@.len() as int) =~= effects@);
    }
}

/// Builds the LED grid of a well-formed configuration.
fn build_grid(cfg: &Config) -> (r: Vec<u32>)
    requires
        cfg.wf(),
    ensures
        r@ =~= grid_of(
            cfg.leds@,
            cfg.matrix.0 as int,
            cfg.matrix.0 as int * cfg.matrix.1 as int,
        ),
{
    let cols = cfg.matrix.0 as usize;
    let rows = cfg.matrix.1 as usize;
    let size = cols * rows;
    proof {
        assert(cols * rows == cfg.matrix.0 as int * cfg.matrix.1 as int) by (nonlinear_arith)
            requires
                cols == cfg.matrix.0 as int && rows == cfg.matrix.1 as int && cols <= 0xffffffff
                    && rows <= 0xffffffff,
        ;
    }
    let mut grid: Vec<u32> = Vec::new();
    let mut j: usize = 0;
    while j < size
        invariant
            j <= size,
            grid@ =~= Seq::new(j as nat, |x: int| 0xffffffffu32),
        decreases size - j,
    {
        grid.push(0xffffffff);
        proof {
            assert(grid@ =~= Seq::new((j + 1) as nat, |x: int| 0xffffffffu32));
        }
        j = j + 1;
    }
    proof {
        assert(grid@ =~= grid_of(cfg.leds@.subrange(0, 0), cfg.matrix.0 as int, size as int));
    }
    let mut i: usize = 0;
    while i < cfg.leds.len()
        invariant
            i <= cfg.leds@.len(),
            cfg.wf(),
            size == cfg.matrix.0 as int * cfg.matrix.1 as int,
            cols == cfg.matrix.0 as int,
            grid@.len() == size,
            grid@ =~= grid_of(cfg.leds@.subrange(0, i as int), cfg.matrix.0 as int, size as int),
        decreases cfg.leds@.len() - i,
    {
        let (led, (row, col)) = cfg.leds[i];
        proof {
            assert(cfg.leds@[i as int].1.0 < cfg.matrix.1 && cfg.leds@[i as int].1.1
                < cfg.matrix.0);
            assert((row as int) * cols + (col as int) < size) by (nonlinear_arith)
                requires
                    (row as int) < cfg.matrix.1 as int && (col as int) < cols && cols
                        == cfg.matrix.0 as int && size == cols * (cfg.matrix.1 as int) && cols
                        >= 0 && row as int >= 0 && col as int >= 0,
            ;
        }
        let idx = (row as usize) * cols + (col as usize);
        grid.set(idx, led as u32);
        proof {
            assert(cfg.leds@.subrange(0, i + 1).drop_last() =~= cfg.leds@.subrange(0, i as int));
            assert(cfg.leds@.subrange(0, i + 1).last() == cfg.leds@[i as int]);
            assert(grid@ =~= grid_of(
                cfg.leds@.subrange(0, i + 1),
                cfg.matrix.0 as int,
                size as int,
            ));
        }
        i = i + 1;
    }
    proof {
        assert(cfg.leds@.subrange(0, cfg.leds@.len() as int) =~= cfg.leds@);
    }
    grid
}

/// Writes every LED's name entry.
fn push_led_names(buf: &mut Vec<u8>, cfg: &Config, keymap: &Vec<u16>)
    requires
        cfg.wf(),
        keymap@.len() == cfg.matrix.0 as int * cfg.matrix.1 as int,
    ensures
        final(buf)@ =~= old(buf)@ + led_names_bytes(cfg.leds@, keymap@, cfg.matrix.0 as int),
{
    let cols = cfg.matrix.0 as usize;
    let mut i: usize = 0;
    while i < cfg.leds.len()
        invariant
            i <= cfg.leds@.len(),
            cfg.wf(),
            cols == cfg.matrix.0 as int,
            keymap@.len() == cfg.matrix.0 as int * cfg.matrix.1 as int,
            buf@ =~= old(buf)@ + led_names_bytes(
                cfg.leds@.subrange(0, i as int),
                keymap@,
                cfg.matrix.0 as int,
            ),
        decreases cfg.leds@.len() - i,
    {
        let (led, (row, col)) = cfg.leds[i];
        proof {
            assert(cfg.leds@[i as int].1.0 < cfg.matrix.1 && cfg.leds@[i as int].1.1
                < cfg.matrix.0);
            assert((row as int) * cols + (col as int) < keymap@.len()) by (nonlinear_arith)
                requires
                    (row as int) < cfg.matrix.1 as int && (col as int) < cols && cols
                        == cfg.matrix.0 as int && keymap@.len() == cols * (cfg.matrix.1 as int)
                        && cols >= 0 && row as int >= 0 && col as int >= 0,
            ;
        }
        let idx = (row as usize) * cols + (col as usize);
        let scancode = keymap[idx];
        let keyname = crate::consts::openrgb_keycode(scancode);
        let mut label: Vec<u8> = Vec::new();
        push_bytes(&mut label, "Key: ".as_bytes());
        push_bytes(&mut label, keyname.as_bytes());
        push_str_field(buf, label.as_slice());
        push_u32_le(buf, led as u32);
        proof {
            assert(cfg.leds@.subrange(0, i + 1).drop_last() =~= cfg.leds@.subrange(0, i as int));
            assert(cfg.leds@.subrange(0, i + 1).last() == cfg.leds@[i as int]);
            assert(label@ =~= encode_utf8("Key: "@) + encode_utf8(
                crate::consts::spec_openrgb_keycode(scancode),
            ));
            assert(buf@ =~= old(buf)@ + led_names_bytes(
                cfg.leds@.subrange(0, i + 1),
                keymap@,
                cfg.matrix.0 as int,
            ));
        }
        i = i + 1;
    }
    proof {
        assert(cfg.leds@.subrange(0, cfg.leds@.len() as int) =~= cfg.leds@);
    }
}

/// Writes every LED's current colour.
fn push_colors_list(buf: &mut Vec<u8>, colors: &Vec<(u8, u8, u8)>)
    ensures
        final(buf)@ =~= old(buf)@ + colors_bytes(colors@),
{
    let mut i: usize = 0;
    while i < colors.len()
        invariant
            i <= colors@.len(),
            buf@ =~= old(buf)@ + colors_bytes(colors@.subrange(0, i as int)),
        decreases colors@.len() - i,
    {
        let (cr, cg, cb) = colors[i];
        buf.push(cr);
        buf.push(cg);
        buf.push(cb);
        buf.push(0);
        proof {
            assert(colors@.subrange(0, i + 1).drop_last() =~= colors@.subrange(0, i as int));
            assert(colors@.subrange(0, i + 1).last() == colors@[i as int]);
            assert(buf@ =~= old(buf)@ + colors_bytes(colors@.subrange(0, i + 1)));
        }
        i = i + 1;
    }
    proof {
        assert(colors@.subrange(0, colors@.len() as int) =~= colors@);
    }
}

/// Writes the controller-data header.
#[verifier::rlimit(100)]
fn push_head(buf: &mut Vec<u8>, cfg: &Config, effect: u8, version: &str)
    ensures
        final(buf)@ =~= old(buf)@ + head_bytes(*cfg, effect, version.spec_bytes()),
{
    push_i32_le(buf, DEVICE_TYPE_KEYBOARD);
    push_str_field(buf, cfg.name.as_str().as_bytes());
    push_str_field(buf, "Unknown".as_bytes());
    let mut desc: Vec<u8> = Vec::new();
    push_bytes(&mut desc, cfg.name.as_str().as_bytes());
    push_bytes(&mut desc, " via ColorHoster".as_bytes());
    push_str_field(buf, desc.as_slice());
    push_str_field(buf, version.as_bytes());
    let mut idb: Vec<u8> = Vec::new();
    push_hex4(&mut idb, cfg.vendor_id);
    idb.push(58);
    push_hex4(&mut idb, cfg.product_id);
    proof {
        assert(idb@ =~= id_hex_bytes(cfg.vendor_id, cfg.product_id));
    }
    push_str_field(buf, idb.as_slice());
    let mut locb: Vec<u8> = Vec::new();
    push_bytes(&mut locb, "HID: ".as_bytes());
    push_bytes(&mut locb, idb.as_slice());
    proof {
        assert(locb@ =~= encode_utf8("HID: "@) + id_hex_bytes(cfg.vendor_id, cfg.product_id));
    }
    push_str_field(buf, locb.as_slice());
    let effects_count: u16 = (cfg.effects.len() % 0x10000) as u16;
    push_u16_le(buf, effects_count);
    push_i32_le(buf, effect as i32);
    proof {
        assert(final(buf)@ =~= old(buf)@ + head_bytes(*cfg, effect, version.spec_bytes()));
    }
}

/// Writes the single matrix zone, grid included.
#[verifier::rlimit(100)]
fn push_zone(buf: &mut Vec<u8>, cfg: &Config)
    requires
        cfg.wf(),
    ensures
        final(buf)@ =~= old(buf)@ + zone_bytes(*cfg),
{
    push_u16_le(buf, 1);
    push_str_field(buf, "Keyboard".as_bytes());
    push_i32_le(buf, ZONE_TYPE_MATRIX);
    let leds_count = cfg.count_leds();
    push_u32_le(buf, leds_count);
    push_u32_le(buf, leds_count);
    push_u32_le(buf, leds_count);
    let msize32: u32 = {
        let a: u32 = cfg.matrix.0;
        let b: u32 = cfg.matrix.1;
        proof {
            assert(a as int * b as int <= 0x7fff);
            assert(a * b * 4 + 8 <= 0x1fffc + 8) by (nonlinear_arith)
                requires
                    a as int * b as int <= 0x7fff && a >= 0 && b >= 0,
            ;
        }
        a * b * 4 + 8
    };
    let msize: u16 = (msize32 % 0x10000) as u16;
    proof {
        assert(msize as int == ((cfg.matrix.0 as int) * (cfg.matrix.1 as int) * 4 + 8)
            % 0x10000);
    }
    push_u16_le(buf, msize);
    push_u32_le(buf, cfg.matrix.1);
    push_u32_le(buf, cfg.matrix.0);
    let grid = build_grid(cfg);
    let mut k: usize = 0;
    let ghost gpre = buf@;
    while k < grid.len()
        invariant
            k <= grid@.len(),
            buf@ =~= gpre + u32s_le(grid@.subrange(0, k as int)),
        decreases grid@.len() - k,
    {
        push_u32_le(buf, grid[k]);
        proof {
            assert(grid@.subrange(0, k + 1) =~= grid@.subrange(0, k as int).push(
                grid@[k as int],
            ));
            crate::utils::lemma_u32s_le_push(grid@.subrange(0, k as int), grid@[k as int]);
        }
        k = k + 1;
    }
    proof {
        assert(grid@.subrange(0, grid@.len() as int) =~= grid@);
        assert(final(buf)@ =~= old(buf)@ + zone_bytes(*cfg));
    }
}

/// Assembles the complete controller-data payload for one keyboard.
#[verifier::rlimit(100)]
#[verifier::spinoff_prover]
pub fn controller_data_response(
    cfg: &Config,
    keymap: &Vec<u16>,
    effect: u8,
    speed: u8,
    brightness: u8,
    color_rgb: (u8, u8, u8),
    colors: &Vec<(u8, u8, u8)>,
    version: &str,
) -> (r: Vec<u8>)
    requires
        cfg.wf(),
        keymap@.len() == cfg.matrix.0 as int * cfg.matrix.1 as int,
    ensures
        r@ =~= controller_data_bytes(
            *cfg,
            keymap@,
            effect,
            speed,
            brightness,
            color_rgb,
            colors@,
            version.spec_bytes(),
        ),
{
    let mut buf: Vec<u8> = Vec::new();
    push_u32_le(&mut buf, 0);
    let ghost placeholder = buf@;
    push_head(&mut buf, cfg, effect, version);
    let ghost m1 = buf@;
    push_effects(&mut buf, &cfg.effects, cfg.speed, cfg.brightness, speed, brightness, color_rgb);
    let ghost m2 = buf@;
    push_zone(&mut buf, cfg);
    let ghost m3 = buf@;
    let leds_count = cfg.count_leds();
    let leds_u16: u16 = ((leds_count as usize) % 0x10000) as u16;
    push_u16_le(&mut buf, leds_u16);
    push_led_names(&mut buf, cfg, keymap);
    push_u16_le(&mut buf, leds_u16);
    push_colors_list(&mut buf, colors);
    proof {
        assert(buf@ =~= placeholder + (head_bytes(*cfg, effect, version.spec_bytes())
            + effects_bytes(
            cfg.effects@,
            cfg.speed,
            cfg.brightness,
            speed,
            brightness,
            color_rgb,
        ) + zone_bytes(*cfg) + u16_le(leds_u16) + led_names_bytes(
            cfg.leds@,
            keymap@,
            cfg.matrix.0 as int,
        ) + u16_le(leds_u16) + colors_bytes(colors@)));
    }
    let total: u64 = buf.len() as u64;
    let lenw: u32 = (total % 0x100000000u64) as u32;
    let mut lenb: Vec<u8> = Vec::new();
    push_u32_le(&mut lenb, lenw);
    vec_splice(&mut buf, 0, &lenb);
    proof {
        assert(buf@ =~= controller_data_bytes(
            *cfg,
            keymap@,
            effect,
            speed,
            brightness,
            color_rgb,
            colors@,
            version.spec_bytes(),
        ));
    }
    buf
}

/// What the connection loop must do with one device-directed request.
pub enum DeviceCommand {
    /// Queue these actions on the keyboard's actor, in order.
    Actions(Vec<KeyboardAction>),
    /// Reply with the controller data assembled from a state snapshot.
    DescribeController,
    /// Write the keyboard's saved state under the named profile.
    SaveProfile(Vec<u8>),
    /// Load the named profile's contents into the keyboard.
    LoadProfile(Vec<u8>),
    /// Delete the named profile.
    DeleteProfile(Vec<u8>),
    /// Reply with the list of stored profiles.
    ListProfiles,
    /// Consume the request without an effect.
    Ignore,
}

/// Decides what a device-directed request asks for: which actions it queues,
/// or which profile or reply it calls for. Frame updates write at the front
/// of the LED buffer; a single-LED update writes at that LED's offset; a
/// mode update sets the effect, speed and brightness, its colour where one
/// is carried, and asks for a device-side save where the request is the
/// saving variant.
pub fn dispatch_device_request(
    request: Request,
    payload: &[u8],
    config: &Config,
    with_brightness: bool,
) -> (r: Result<DeviceCommand, RequestError>)
    ensures
        request == Request::ResizeZone ==> (r matches Ok(c) && c is Ignore),
        request == Request::GetControllerData ==> (r matches Ok(c) && c is DescribeController),
        request == Request::GetProfileList ==> (r matches Ok(c) && c is ListProfiles),
        ({
            request == Request::UpdateSingleLed && payload@.len() >= 7
        }) ==> (r matches Ok(c) && (c matches DeviceCommand::Actions(acts) && (acts@.len() == 1
            && (acts@[0]@ matches crate::actor::ActionV::UpdateColors(cs, off, wb) && cs == seq![
            Some((payload@[4], payload@[5], payload@[6])),
        ] && u32_le(off as u32) =~= payload@.subrange(0, 4) && wb == with_brightness)))),
        ({
            (request == Request::UpdateLeds || request == Request::UpdateZoneLeds) && (r matches Ok(
                c,
            ))
        }) ==> (r matches Ok(c) && (c matches DeviceCommand::Actions(acts) && (acts@.len() == 1
            && (acts@[0]@ matches crate::actor::ActionV::UpdateColors(cs, off, wb) && off == 0
            && wb == with_brightness)))),
        request == Request::SetCustomMode ==> (r matches Ok(c) && {
            let m = spec_custom_mode(
                config.effects@.map_values(|e: (String, i32, u32)| crate::config::effect_view(e)),
            );
            match m {
                Some(effect) => c matches DeviceCommand::Actions(acts) && acts@.len() == 1
                    && acts@[0]@ == crate::actor::ActionV::UpdateEffect(effect),
                None => c matches DeviceCommand::Actions(acts) && acts@.len() == 0,
            }
        }),
        ({
            (request == Request::UpdateMode || request == Request::SaveMode) && (r matches Ok(c))
        }) ==> (r matches Ok(c) && (c matches DeviceCommand::Actions(acts) && {
            let name_len = (payload@[8] as int) + 256 * (payload@[9] as int);
            let has_color = !(payload@[10 + name_len + 48] == 0 && payload@[10 + name_len + 49]
                == 0);
            let persists: int = if request == Request::SaveMode {
                1
            } else {
                0
            };
            &&& acts@.len() == 3 + (if has_color {
                1int
            } else {
                0
            }) + persists
            &&& acts@[0]@ matches crate::actor::ActionV::UpdateEffect(e) && u32_le(
                e as u32,
            ).subrange(0, 1) =~= payload@.subrange(4, 5)
            &&& acts@[1]@ == crate::actor::ActionV::UpdateSpeed(payload@[10 + name_len + 32])
            &&& acts@[2]@ == crate::actor::ActionV::UpdateBrightness(
                payload@[10 + name_len + 36],
            )
            &&& has_color ==> acts@[3]@ == crate::actor::ActionV::UpdateColor(
                (
                    payload@[10 + name_len + 50],
                    payload@[10 + name_len + 51],
                    payload@[10 + name_len + 52],
                ),
            )
            &&& request == Request::SaveMode ==> acts@.last()@
                == crate::actor::ActionV::PersistState
        })),
        ({
            (request == Request::SaveProfile || request == Request::LoadProfile || request
                == Request::DeleteProfile) && payload@.len() > 0
        }) ==> (r matches Ok(c) && ({
            let name = payload@.subrange(0, payload@.len() - 1);
            match request {
                Request::SaveProfile => c matches DeviceCommand::SaveProfile(n) && n@ == name,
                Request::LoadProfile => c matches DeviceCommand::LoadProfile(n) && n@ == name,
                _ => c matches DeviceCommand::DeleteProfile(n) && n@ == name,
            }
        })),
        (request == Request::GetControllerCount || request == Request::GetProtocolVersion
            || request == Request::SetClientName || request == Request::DeviceListUpdated) ==> r
            is Err,
{
    match request {
        Request::GetControllerData => Ok(DeviceCommand::DescribeController),
        Request::UpdateSingleLed => {
            let (led, rgb) = match parse_update_single_led(payload) {
                Ok(p) => p,
                Err(e) => {
                    return Err(e);
                },
            };
            let actions = vec![
                KeyboardAction::UpdateColors(vec![Some(rgb)], led as usize, with_brightness),
            ];
            proof {
                assert(actions@[0]@ matches crate::actor::ActionV::UpdateColors(cs, off, wb)
                    && cs =~= seq![Some((payload@[4], payload@[5], payload@[6]))] && off
                    == led as int && wb == with_brightness);
            }
            Ok(DeviceCommand::Actions(actions))
        },
        Request::UpdateLeds | Request::UpdateZoneLeds => {
            let zoned = match request {
                Request::UpdateZoneLeds => true,
                _ => false,
            };
            let colors = match parse_update_leds(payload, zoned) {
                Ok(cs) => cs,
                Err(e) => {
                    return Err(e);
                },
            };
            let mut wrapped: Vec<Option<(u8, u8, u8)>> = Vec::new();
            let mut i: usize = 0;
            while i < colors.len()
                invariant
                    i <= colors@.len(),
                    wrapped@.len() == i,
                decreases colors@.len() - i,
            {
                wrapped.push(Some(colors[i]));
                i = i + 1;
            }
            Ok(
                DeviceCommand::Actions(
                    vec![KeyboardAction::UpdateColors(wrapped, 0, with_brightness)],
                ),
            )
        },
        Request::UpdateMode | Request::SaveMode => {
            let update = match parse_mode_update(payload) {
                Ok(m) => m,
                Err(e) => {
                    return Err(e);
                },
            };
            let mut actions: Vec<KeyboardAction> = Vec::new();
            actions.push(KeyboardAction::UpdateEffect(update.effect));
            actions.push(KeyboardAction::UpdateSpeed(update.speed));
            actions.push(KeyboardAction::UpdateBrightness(update.brightness));
            match update.color {
                Some(color) => {
                    actions.push(KeyboardAction::UpdateColor(color));
                },
                None => {},
            }
            let saving = match request {
                Request::SaveMode => true,
                _ => false,
            };
            if saving {
                actions.push(KeyboardAction::PersistState);
            }
            Ok(DeviceCommand::Actions(actions))
        },
        Request::SetCustomMode => {
            let actions: Vec<KeyboardAction> = match select_custom_mode(config) {
                Some(effect) => vec![KeyboardAction::UpdateEffect(effect)],
                None => Vec::new(),
            };
            Ok(DeviceCommand::Actions(actions))
        },
        Request::SaveProfile => {
            match parse_profile_name(payload) {
                Ok(name) => Ok(DeviceCommand::SaveProfile(name)),
                Err(e) => Err(e),
            }
        },
        Request::LoadProfile => {
            match parse_profile_name(payload) {
                Ok(name) => Ok(DeviceCommand::LoadProfile(name)),
                Err(e) => Err(e),
            }
        },
        Request::DeleteProfile => {
            match parse_profile_name(payload) {
                Ok(name) => Ok(DeviceCommand::DeleteProfile(name)),
                Err(e) => Err(e),
            }
        },
        Request::GetProfileList => Ok(DeviceCommand::ListProfiles),
        Request::ResizeZone => Ok(DeviceCommand::Ignore),
        Request::GetControllerCount
        | Request::GetProtocolVersion
        | Request::SetClientName
        | Request::DeviceListUpdated => Err(RequestError::Framing),
    }
}

} // verus!
