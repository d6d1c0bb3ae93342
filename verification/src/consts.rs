//! Protocol constants shared by the HID command layer and the OpenRGB server.

use vstd::prelude::*;

verus! {

/// HID usage page on which QMK/VIA keyboards expose their control endpoint.
pub const QMK_USAGE_PAGE: u16 = 0xFF60;
/// HID usage id of the QMK/VIA control endpoint.
pub const QMK_USAGE_ID: u16 = 0x61;

/// First payload byte of a "set value" command report.
pub const QMK_CUSTOM_SET_COMMAND: u8 = 0x07;
/// First payload byte of a "get value" command report.
pub const QMK_CUSTOM_GET_COMMAND: u8 = 0x08;
/// First payload byte of a "save to EEPROM" command report.
pub const QMK_CUSTOM_SAVE_COMMAND: u8 = 0x09;
/// First payload byte of a keymap read request.
pub const QMK_KEYMAP_GET_COMMAND: u8 = 0x12;

/// Channel carrying the per-LED colour matrix subcommands.
pub const QMK_CUSTOM_CHANNEL: u8 = 0x0;
/// Subcommand for the hue/saturation plane of the LED matrix.
pub const QMK_COMMAND_MATRIX_CHROMA: u8 = 0x1;
/// Subcommand for the brightness plane of the LED matrix.
pub const QMK_COMMAND_MATRIX_BRIGHTNESS: u8 = 0x2;

/// Channel carrying the global RGB-matrix settings.
pub const QMK_RGB_MATRIX_CHANNEL: u8 = 0x3;
/// Subcommand setting the global brightness.
pub const QMK_COMMAND_BRIGHTNESS: u8 = 0x1;
/// Subcommand setting the active effect.
pub const QMK_COMMAND_EFFECT: u8 = 0x2;
/// Subcommand setting the effect speed.
pub const QMK_COMMAND_SPEED: u8 = 0x3;
/// Subcommand setting the mode-global colour (hue, saturation).
pub const QMK_COMMAND_COLOR: u8 = 0x4;

/// OpenRGB device type reported for every keyboard.
pub const DEVICE_TYPE_KEYBOARD: i32 = 5;

/// Effect flag: the effect reacts to the speed setting.
pub const MODE_FLAG_HAS_SPEED: u32 = 1;
/// Effect flag: the effect reacts to the brightness setting.
pub const MODE_FLAG_HAS_BRIGHTNESS: u32 = 16;
/// Effect flag: the effect uses the per-LED colour buffer.
pub const MODE_FLAG_HAS_PER_LED_COLOR: u32 = 32;
/// Effect flag: the effect uses the mode-global colour.
pub const MODE_FLAG_HAS_MODE_SPECIFIC_COLOR: u32 = 64;
/// Effect flag: the effect picks colours at random.
pub const MODE_FLAG_HAS_RANDOM_COLOR: u32 = 128;
/// Effect flag: changes to the effect must be saved explicitly.
pub const MODE_FLAG_MANUAL_SAVE: u32 = 256;

/// OpenRGB zone type for a keyboard matrix.
pub const ZONE_TYPE_MATRIX: i32 = 2;

/// Version of the OpenRGB SDK protocol this server speaks.
pub const OPENRGB_PROTOCOL_VERSION: u32 = 4;

/// Default TCP port of the OpenRGB SDK server.
pub const OPENRGB_SDK_DEFAULT_PORT: u32 = 6742;

/// Magic number that opens every OpenRGB request: the bytes `ORGB` read as a
/// little-endian 32-bit integer.
pub const OPENRGB_MAGIC: u32 = 1111970383;

/// The request ids of the OpenRGB SDK wire protocol that this server answers.
#[derive(Clone, Copy, PartialEq, Eq, Structural, Debug)]
pub enum Request {
    GetControllerCount,
    GetControllerData,
    GetProtocolVersion,
    SetClientName,
    DeviceListUpdated,
    GetProfileList,
    SaveProfile,
    LoadProfile,
    DeleteProfile,
    ResizeZone,
    UpdateLeds,
    UpdateZoneLeds,
    UpdateSingleLed,
    SetCustomMode,
    UpdateMode,
    SaveMode,
}

impl Request {
    /// The numeric id of this request on the wire.
    pub open spec fn spec_code(self) -> u32 {
        match self {
            Request::GetControllerCount => 0,
            Request::GetControllerData => 1,
            Request::GetProtocolVersion => 40,
            Request::SetClientName => 50,
            Request::DeviceListUpdated => 100,
            Request::GetProfileList => 150,
            Request::SaveProfile => 151,
            Request::LoadProfile => 152,
            Request::DeleteProfile => 153,
            Request::ResizeZone => 1000,
            Request::UpdateLeds => 1050,
            Request::UpdateZoneLeds => 1051,
            Request::UpdateSingleLed => 1052,
            Request::SetCustomMode => 1100,
            Request::UpdateMode => 1101,
            Request::SaveMode => 1102,
        }
    }

    /// Which request a numeric wire id denotes, if any.
    pub open spec fn spec_from_code(code: u32) -> Option<Request> {
        match code {
            0u32 => Some(Request::GetControllerCount),
            1u32 => Some(Request::GetControllerData),
            40u32 => Some(Request::GetProtocolVersion),
            50u32 => Some(Request::SetClientName),
            100u32 => Some(Request::DeviceListUpdated),
            150u32 => Some(Request::GetProfileList),
            151u32 => Some(Request::SaveProfile),
            152u32 => Some(Request::LoadProfile),
            153u32 => Some(Request::DeleteProfile),
            1000u32 => Some(Request::ResizeZone),
            1050u32 => Some(Request::UpdateLeds),
            1051u32 => Some(Request::UpdateZoneLeds),
            1052u32 => Some(Request::UpdateSingleLed),
            1100u32 => Some(Request::SetCustomMode),
            1101u32 => Some(Request::UpdateMode),
            1102u32 => Some(Request::SaveMode),
            _ => None,
        }
    }

    pub fn code(self) -> (c: u32)
        ensures
            c == self.spec_code(),
    {
        match self {
            Request::GetControllerCount => 0,
            Request::GetControllerData => 1,
            Request::GetProtocolVersion => 40,
            Request::SetClientName => 50,
            Request::DeviceListUpdated => 100,
            Request::GetProfileList => 150,
            Request::SaveProfile => 151,
            Request::LoadProfile => 152,
            Request::DeleteProfile => 153,
            Request::ResizeZone => 1000,
            Request::UpdateLeds => 1050,
            Request::UpdateZoneLeds => 1051,
            Request::UpdateSingleLed => 1052,
            Request::SetCustomMode => 1100,
            Request::UpdateMode => 1101,
            Request::SaveMode => 1102,
        }
    }

    pub fn from_u32(code: u32) -> (r: Option<Request>)
        ensures
            r == Self::spec_from_code(code),
    {
        match code {
            0u32 => Some(Request::GetControllerCount),
            1u32 => Some(Request::GetControllerData),
            40u32 => Some(Request::GetProtocolVersion),
            50u32 => Some(Request::SetClientName),
            100u32 => Some(Request::DeviceListUpdated),
            150u32 => Some(Request::GetProfileList),
            151u32 => Some(Request::SaveProfile),
            152u32 => Some(Request::LoadProfile),
            153u32 => Some(Request::DeleteProfile),
            1000u32 => Some(Request::ResizeZone),
            1050u32 => Some(Request::UpdateLeds),
            1051u32 => Some(Request::UpdateZoneLeds),
            1052u32 => Some(Request::UpdateSingleLed),
            1100u32 => Some(Request::SetCustomMode),
            1101u32 => Some(Request::UpdateMode),
            1102u32 => Some(Request::SaveMode),
            _ => None,
        }
    }
}

/// A wire id names at most one request, and every request keeps its id on a
/// round trip through the wire encoding.
pub proof fn lemma_request_code_round_trip(r: Request)
    ensures
        Request::spec_from_code(r.spec_code()) == Some(r),
{
}


/// The display name OpenRGB gives to a QMK scancode.
pub open spec fn spec_openrgb_keycode(keycode: u16) -> Seq<char> {
    match keycode {
        1u16 => "Right Fn"@,
        4u16 => "A"@,
        5u16 => "B"@,
        6u16 => "C"@,
        7u16 => "D"@,
        8u16 => "E"@,
        9u16 => "F"@,
        10u16 => "G"@,
        11u16 => "H"@,
        12u16 => "I"@,
        13u16 => "J"@,
        14u16 => "K"@,
        15u16 => "L"@,
        16u16 => "M"@,
        17u16 => "N"@,
        18u16 => "O"@,
        19u16 => "P"@,
        20u16 => "Q"@,
        21u16 => "R"@,
        22u16 => "S"@,
        23u16 => "T"@,
        24u16 => "U"@,
        25u16 => "V"@,
        26u16 => "W"@,
        27u16 => "X"@,
        28u16 => "Y"@,
        29u16 => "Z"@,
        30u16 => "1"@,
        31u16 => "2"@,
        32u16 => "3"@,
        33u16 => "4"@,
        34u16 => "5"@,
        35u16 => "6"@,
        36u16 => "7"@,
        37u16 => "8"@,
        38u16 => "9"@,
        39u16 => "0"@,
        40u16 => "Enter"@,
        41u16 => "Escape"@,
        42u16 => "Backspace"@,
        43u16 => "Tab"@,
        44u16 => "Space"@,
        45u16 => "-"@,
        46u16 => "="@,
        47u16 => "["@,
        48u16 => "]"@,
        49u16 => "\\"@,
        50u16 => "#"@,
        51u16 => ";"@,
        52u16 => "'"@,
        53u16 => "`"@,
        54u16 => ","@,
        55u16 => "."@,
        56u16 => "/"@,
        57u16 => "Caps Lock"@,
        58u16 => "F1"@,
        59u16 => "F2"@,
        60u16 => "F3"@,
        61u16 => "F4"@,
        62u16 => "F5"@,
        63u16 => "F6"@,
        64u16 => "F7"@,
        65u16 => "F8"@,
        66u16 => "F9"@,
        67u16 => "F10"@,
        68u16 => "F11"@,
        69u16 => "F12"@,
        70u16 => "Print Screen"@,
        71u16 => "Scroll Lock"@,
        72u16 => "Pause/Break"@,
        73u16 => "Insert"@,
        74u16 => "Home"@,
        75u16 => "Page Up"@,
        76u16 => "Delete"@,
        77u16 => "End"@,
        78u16 => "Page Down"@,
        79u16 => "Right Arrow"@,
        80u16 => "Left Arrow"@,
        81u16 => "Down Arrow"@,
        82u16 => "Up Arrow"@,
        83u16 => "Num Lock"@,
        84u16 => "Number Pad /"@,
        85u16 => "Number Pad *"@,
        86u16 => "Number Pad -"@,
        87u16 => "Number Pad +"@,
        88u16 => "Number Pad Enter"@,
        89u16 => "Number Pad 1"@,
        90u16 => "Number Pad 2"@,
        91u16 => "Number Pad 3"@,
        92u16 => "Number Pad 4"@,
        93u16 => "Number Pad 5"@,
        94u16 => "Number Pad 6"@,
        95u16 => "Number Pad 7"@,
        96u16 => "Number Pad 8"@,
        97u16 => "Number Pad 9"@,
        98u16 => "Number Pad 0"@,
        99u16 => "Number Pad ."@,
        100u16 => "\\ (ISO)"@,
        101u16 => "Menu"@,
        104u16 => "F13"@,
        105u16 => "F14"@,
        106u16 => "F15"@,
        107u16 => "F16"@,
        168u16 => "Media Mute"@,
        169u16 => "Media Volume +"@,
        170u16 => "Media Volume -"@,
        171u16 => "Media Next"@,
        172u16 => "Media Previous"@,
        173u16 => "Media Stop"@,
        174u16 => "Media Play/Pause"@,
        175u16 => "Media Select"@,
        176u16 => "Media Eject"@,
        189u16 => "Brightness Up"@,
        190u16 => "Brightness Down"@,
        196u16 => "Task Manager"@,
        202u16 => "RGB Brightness Up"@,
        203u16 => "RGB Brightness Down"@,
        216u16 => "Left Shift"@,
        217u16 => "Right Shift"@,
        224u16 => "Left Control"@,
        225u16 => "Left Shift"@,
        226u16 => "Left Alt"@,
        227u16 => "Left Windows"@,
        228u16 => "Right Control"@,
        229u16 => "Right Shift"@,
        230u16 => "Right Alt"@,
        231u16 => "Right Windows"@,
        _ => if keycode & 0x1f != 0 {
            "Right Fn"@
        } else {
            "Unknown"@
        },
    }
}

/// Names a QMK scancode the way OpenRGB displays it.
pub fn openrgb_keycode(keycode: u16) -> (r: &'static str)
    ensures
        r@ == spec_openrgb_keycode(keycode),
{
    match keycode {
        1 => "Right Fn",
        4 => "A",
        5 => "B",
        6 => "C",
        7 => "D",
        8 => "E",
        9 => "F",
        10 => "G",
        11 => "H",
        12 => "I",
        13 => "J",
        14 => "K",
        15 => "L",
        16 => "M",
        17 => "N",
        18 => "O",
        19 => "P",
        20 => "Q",
        21 => "R",
        22 => "S",
        23 => "T",
        24 => "U",
        25 => "V",
        26 => "W",
        27 => "X",
        28 => "Y",
        29 => "Z",
        30 => "1",
        31 => "2",
        32 => "3",
        33 => "4",
        34 => "5",
        35 => "6",
        36 => "7",
        37 => "8",
        38 => "9",
        39 => "0",
        40 => "Enter",
        41 => "Escape",
        42 => "Backspace",
        43 => "Tab",
        44 => "Space",
        45 => "-",
        46 => "=",
        47 => "[",
        48 => "]",
        49 => "\\",
        50 => "#",
        51 => ";",
        52 => "'",
        53 => "`",
        54 => ",",
        55 => ".",
        56 => "/",
        57 => "Caps Lock",
        58 => "F1",
        59 => "F2",
        60 => "F3",
        61 => "F4",
        62 => "F5",
        63 => "F6",
        64 => "F7",
        65 => "F8",
        66 => "F9",
        67 => "F10",
        68 => "F11",
        69 => "F12",
        70 => "Print Screen",
        71 => "Scroll Lock",
        72 => "Pause/Break",
        73 => "Insert",
        74 => "Home",
        75 => "Page Up",
        76 => "Delete",
        77 => "End",
        78 => "Page Down",
        79 => "Right Arrow",
        80 => "Left Arrow",
        81 => "Down Arrow",
        82 => "Up Arrow",
        83 => "Num Lock",
        84 => "Number Pad /",
        85 => "Number Pad *",
        86 => "Number Pad -",
        87 => "Number Pad +",
        88 => "Number Pad Enter",
        89 => "Number Pad 1",
        90 => "Number Pad 2",
        91 => "Number Pad 3",
        92 => "Number Pad 4",
        93 => "Number Pad 5",
        94 => "Number Pad 6",
        95 => "Number Pad 7",
        96 => "Number Pad 8",
        97 => "Number Pad 9",
        98 => "Number Pad 0",
        99 => "Number Pad .",
        100 => "\\ (ISO)",
        101 => "Menu",
        104 => "F13",
        105 => "F14",
        106 => "F15",
        107 => "F16",
        168 => "Media Mute",
        169 => "Media Volume +",
        170 => "Media Volume -",
        171 => "Media Next",
        172 => "Media Previous",
        173 => "Media Stop",
        174 => "Media Play/Pause",
        175 => "Media Select",
        176 => "Media Eject",
        189 => "Brightness Up",
        190 => "Brightness Down",
        196 => "Task Manager",
        202 => "RGB Brightness Up",
        203 => "RGB Brightness Down",
        216 => "Left Shift",
        217 => "Right Shift",
        224 => "Left Control",
        225 => "Left Shift",
        226 => "Left Alt",
        227 => "Left Windows",
        228 => "Right Control",
        229 => "Right Shift",
        230 => "Right Alt",
        231 => "Right Windows",
        x => {
            if x & 0x1f != 0 {
                "Right Fn"
            } else {
                "Unknown"
            }
        },
    }
}

} // verus!
