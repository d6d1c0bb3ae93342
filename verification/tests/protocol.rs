//! The VIA parser, the controller, and the OpenRGB wire functions, on
//! concrete values.

use colorhoster::config::{extract_led, parse_hex, Config, ConfigError};
use colorhoster::consts::{openrgb_keycode, Request, OPENRGB_PROTOCOL_VERSION};
use colorhoster::actor::KeyboardAction;
use colorhoster::handlers::{
    controller_count_response, controller_data_response, dispatch_device_request,
    parse_mode_update, parse_profile_name, parse_update_leds, parse_update_single_led,
    protocol_version_response, select_custom_mode, DeviceCommand,
};
use colorhoster::keyboard::{
    apply_color_response, apply_keymap_response, color_read_reports, keymap_read_reports,
    read_color_response, read_setting_response, Keyboard, KeyboardError,
};
use colorhoster::keyboards::Keyboards;
use colorhoster::report::Report;
use colorhoster::utils::{first_prefix_match, BufferExt};
use colorhoster::state::KeyboardState;

const DEMO_JSON: &str = r#"{
  "name": "Demo Board",
  "vendorId": "0x4B42",
  "productId": "0x6061",
  "matrix": { "rows": 2, "cols": 3 },
  "menus": [
    { "content": [ { "content": [
      { "type": "range", "options": [0, 255], "content": ["id_qmk_rgb_matrix_brightness"] },
      { "type": "range", "options": [0, 3], "content": ["id_qmk_rgb_matrix_effect_speed"] },
      { "type": "color", "content": ["id_qmk_rgb_matrix_color"],
        "showIf": "{id_qmk_rgb_matrix_effect} == 1" },
      { "type": "dropdown", "content": ["id_qmk_rgb_matrix_effect"],
        "options": [["Off", 0], ["Solid", 1], ["Breath", 2]] }
    ] } ] }
  ],
  "layouts": { "keymap": [
    ["0,0\nl0", "0,1\nl2"],
    ["0,2\nl1\n\n\n\n\n\n\ne", 1.5]
  ] }
}"#;

fn demo_config() -> Config {
    Config::from_str(DEMO_JSON).expect("demo definition must parse")
}

fn demo_keyboard() -> Keyboard {
    let config = demo_config();
    let state = KeyboardState {
        chroma: vec![(0, 0); 3],
        value: vec![255; 3],
        color: (0, 0),
        brightness: 0,
        effect: 0,
        speed: 0,
    };
    Keyboard::from_parts(config, vec![4, 5, 6, 7, 8, 9], state).expect("parts must fit")
}

#[test]
fn via_definition_parses() {
    let cfg = demo_config();
    assert_eq!(cfg.name, "Demo Board");
    assert_eq!(cfg.vendor_id, 0x4B42);
    assert_eq!(cfg.product_id, 0x6061);
    assert_eq!(cfg.matrix, (3, 2));
    assert_eq!(cfg.speed, (0, 3));
    assert_eq!(cfg.brightness, (0, 255));
    // The encoder key's LED is dropped; the rest are sorted by LED index.
    assert_eq!(cfg.leds, vec![(0, (0, 0)), (2, (0, 1))]);
    assert_eq!(cfg.count_leds(), 3);
    let effects: Vec<(&str, i32, u32)> =
        cfg.effects.iter().map(|e| (e.0.as_str(), e.1, e.2)).collect();
    assert_eq!(
        effects,
        vec![("Off", 0, 273), ("Solid", 1, 337), ("Breath", 2, 401)]
    );
}

#[test]
fn malformed_definitions_are_rejected() {
    fn rejects(text: &str) -> bool {
        matches!(Config::from_str(text), Err(ConfigError::Parse))
    }
    assert!(rejects("not json"));
    assert!(rejects("{}"));
    assert!(rejects(
        r#"{"name":"x","vendorId":"0x1","productId":"0x2",
        "menus":[],"layouts":{"keymap":[]}}"#
    ));
}

#[test]
fn hex_ids_parse_with_and_without_prefix() {
    assert_eq!(parse_hex("0x4B42"), 0x4B42);
    assert_eq!(parse_hex("4b42"), 0x4B42);
    assert_eq!(parse_hex("ffff"), 0xffff);
    assert_eq!(parse_hex(""), 0);
    assert_eq!(parse_hex("0x"), 0);
    assert_eq!(parse_hex("10000"), 0);
    assert_eq!(parse_hex("12g4"), 0);
}

#[test]
fn keymap_entries_extract_leds() {
    assert_eq!(extract_led("1,2\nl7"), Some((7, (1, 2))));
    assert_eq!(extract_led(" 1 , 2 \nl7"), Some((7, (1, 2))));
    assert_eq!(extract_led("1,2"), None);
    assert_eq!(extract_led("1,2\nx7"), None);
    assert_eq!(extract_led("12\nl7"), None);
    assert_eq!(extract_led("1,2\nl7\n\n\n\n\n\n\ne"), None);
    assert_eq!(extract_led("1,2\nl7\n\n\n\n\n\n\nrot"), Some((7, (1, 2))));
}

#[test]
fn request_ids_round_trip() {
    assert_eq!(Request::from_u32(0), Some(Request::GetControllerCount));
    assert_eq!(Request::from_u32(1052), Some(Request::UpdateSingleLed));
    assert_eq!(Request::from_u32(2), None);
    for code in [0u32, 1, 40, 50, 100, 150, 151, 152, 153, 1000, 1050, 1051, 1052, 1100, 1101, 1102]
    {
        let req = Request::from_u32(code).unwrap();
        assert_eq!(req.code(), code);
    }
}

#[test]
fn report_indexing_skips_the_report_id() {
    let mut rep: Report<33> = Report::new();
    assert_eq!(rep.len(), 32);
    rep.set(0, 0xAA);
    rep.set(31, 0xBB);
    assert_eq!(rep.get(0), 0xAA);
    assert_eq!(rep.get(31), 0xBB);
    let raw = rep.into_inner();
    assert_eq!(raw.len(), 33);
    assert_eq!(raw[0], 0);
    assert_eq!(raw[1], 0xAA);
    assert_eq!(raw[32], 0xBB);
}

#[test]
fn protocol_handshake() {
    let reply = protocol_version_response(&3u32.to_le_bytes()).unwrap();
    assert_eq!(reply, OPENRGB_PROTOCOL_VERSION.to_le_bytes().to_vec());
    assert!(protocol_version_response(&[1, 2]).is_err());
}

#[test]
fn controller_count_is_the_registry_size() {
    let mut reg: Keyboards<&'static str> = Keyboards::new();
    assert_eq!(reg.device_count(), 0);
    reg.insert_device(11, "first");
    reg.insert_device(22, "second");
    assert_eq!(reg.device_count(), 2);
    assert_eq!(controller_count_response(2), 2u32.to_le_bytes().to_vec());
    assert_eq!(reg.id_at(0), Some(11));
    assert_eq!(reg.id_at(1), Some(22));
    reg.insert_device(11, "replaced");
    assert_eq!(reg.device_count(), 2);
    assert!(reg.remove_device(11).is_some());
    assert_eq!(reg.device_count(), 1);
    assert_eq!(reg.id_at(0), Some(22));
    assert!(reg.remove_device(11).is_none());
}

#[test]
fn pending_configs_move_in_and_out() {
    let mut reg: Keyboards<u8> = Keyboards::new();
    reg.add_config(0x4B42, 0x6061, demo_config());
    assert!(reg.take_config(0x1111, 0x2222).is_none());
    let cfg = reg.take_config(0x4B42, 0x6061).expect("stored config");
    assert_eq!(cfg.name, "Demo Board");
    assert!(reg.take_config(0x4B42, 0x6061).is_none());
}

#[test]
fn custom_mode_picks_the_first_per_led_effect() {
    let cfg = demo_config();
    // Every demo effect keeps flags without the per-LED bit, so none is picked.
    assert_eq!(select_custom_mode(&cfg), None);
    let mut cfg2 = cfg;
    cfg2.effects[1].2 |= 32;
    cfg2.effects[2].2 |= 32;
    assert_eq!(select_custom_mode(&cfg2), Some(1));
    let mut kb = demo_keyboard();
    let rep = kb.update_effect(1).expect("effect changes");
    let raw = rep.into_inner();
    assert_eq!(&raw[1..5], &[0x07, 0x03, 0x02, 1]);
}

#[test]
fn color_frame_becomes_chroma_and_brightness_reports() {
    let mut kb = demo_keyboard();
    let red = Some((255u8, 0u8, 0u8));
    let reports = kb.update_colors(vec![red], 0, true).expect("in range");
    // Red is hue 0, saturation 255, value 255; the value plane already holds
    // 255, so only the chroma report is sent.
    assert_eq!(reports.len(), 1);
    let raw = reports[0].into_inner();
    assert_eq!(&raw[1..8], &[0x07, 0x00, 0x01, 0, 1, 0, 255]);
    let err = kb.update_colors(vec![red; 4], 0, true).unwrap_err();
    assert_eq!(err, KeyboardError::OutOfRange);
}

#[test]
fn global_colour_update_sends_hue_and_saturation() {
    let mut kb = demo_keyboard();
    let rep = kb.update_color((255, 0, 0)).expect("colour changes");
    let raw = rep.into_inner();
    assert_eq!(&raw[1..6], &[0x07, 0x03, 0x04, 0, 255]);
    // The same colour again is cached away.
    assert!(kb.update_color((255, 0, 0)).is_none());
    assert_eq!(kb.color(), (255, 0, 0));
}

#[test]
fn persist_and_reset_reports() {
    let kb = demo_keyboard();
    let raw = kb.persist_state().into_inner();
    assert_eq!(&raw[1..3], &[0x09, 0x03]);
    // Every value already sits at full brightness, so nothing is sent.
    assert!(kb.reset_brightness().is_empty());
}

#[test]
fn saved_state_reloads() {
    let mut kb = demo_keyboard();
    let red = Some((255u8, 0u8, 0u8));
    let blue = Some((0u8, 0u8, 255u8));
    kb.update_colors(vec![red, blue, red], 0, true).unwrap();
    kb.update_effect(2).unwrap();
    kb.update_speed(3).unwrap();
    kb.update_brightness(9).unwrap();
    kb.update_color((0, 0, 255)).unwrap();
    let saved = kb.save_state();

    let mut kb2 = demo_keyboard();
    kb2.load_state(&saved, true).expect("saved state loads");
    assert_eq!(kb2.effect(), 2);
    assert_eq!(kb2.speed(), 3);
    assert_eq!(kb2.brightness(), 9);
    assert_eq!(kb2.colors(), kb.colors());
    assert_eq!(kb2.color(), kb.color());

    let err = kb2.load_state(b"junk", true).unwrap_err();
    assert_eq!(err, KeyboardError::StateParse);
}

#[test]
fn mode_update_fields_sit_at_fixed_offsets() {
    let mut payload = vec![0u8; 64];
    payload[0..4].copy_from_slice(&54u32.to_le_bytes());
    payload[4..8].copy_from_slice(&3i32.to_le_bytes());
    payload[8..10].copy_from_slice(&0u16.to_le_bytes());
    payload[42] = 7;
    payload[46] = 9;
    payload[58] = 1;
    payload[60] = 10;
    payload[61] = 20;
    payload[62] = 30;
    let m = parse_mode_update(&payload).unwrap();
    assert_eq!(m.effect, 3);
    assert_eq!(m.speed, 7);
    assert_eq!(m.brightness, 9);
    assert_eq!(m.color, Some((10, 20, 30)));
    assert!(parse_mode_update(&payload[..20]).is_err());
}

#[test]
fn led_frames_parse() {
    let mut payload = vec![0u8; 14];
    payload[4..6].copy_from_slice(&2u16.to_le_bytes());
    payload[6..10].copy_from_slice(&[1, 2, 3, 0]);
    payload[10..14].copy_from_slice(&[4, 5, 6, 0]);
    let colors = parse_update_leds(&payload, false).unwrap();
    assert_eq!(colors, vec![(1, 2, 3), (4, 5, 6)]);
    assert!(parse_update_leds(&payload[..9], false).is_err());

    let mut single = vec![0u8; 8];
    single[0..4].copy_from_slice(&2u32.to_le_bytes());
    single[4..8].copy_from_slice(&[9, 8, 7, 0]);
    let (led, rgb) = parse_update_single_led(&single).unwrap();
    assert_eq!((led, rgb), (2, (9, 8, 7)));
}

#[test]
fn profile_names_drop_the_trailing_nul() {
    assert_eq!(parse_profile_name(b"gaming\0").unwrap(), b"gaming".to_vec());
    assert!(parse_profile_name(b"").is_err());
}

#[test]
fn readback_requests_cover_every_slot() {
    let reps = color_read_reports(3);
    assert_eq!(reps.len(), 2);
    let raw = reps[0].into_inner();
    assert_eq!(&raw[1..6], &[0x08, 0x00, 0x01, 0, 3]);
    let raw = reps[1].into_inner();
    assert_eq!(&raw[1..6], &[0x08, 0x00, 0x02, 0, 3]);
    let reps = color_read_reports(30);
    // 30 chroma slots in windows of 13, then 30 value slots in windows of 27.
    assert_eq!(reps.len(), 3 + 2);

    let reps = keymap_read_reports(6);
    assert_eq!(reps.len(), 1);
    let raw = reps[0].into_inner();
    assert_eq!(&raw[1..5], &[0x12, 0, 0, 12]);
}

#[test]
fn readback_responses_fill_the_planes() {
    let mut chroma = vec![(0u8, 0u8); 3];
    let mut value = vec![0u8; 3];
    let mut resp = [0u8; 33];
    resp[2] = 0x01;
    resp[3] = 1;
    resp[4] = 2;
    resp[5..9].copy_from_slice(&[10, 11, 20, 21]);
    apply_color_response(&mut chroma, &mut value, &resp).unwrap();
    assert_eq!(chroma, vec![(0, 0), (10, 11), (20, 21)]);

    let mut resp2 = [0u8; 33];
    resp2[2] = 0x02;
    resp2[3] = 0;
    resp2[4] = 3;
    resp2[5..8].copy_from_slice(&[7, 8, 9]);
    apply_color_response(&mut chroma, &mut value, &resp2).unwrap();
    assert_eq!(value, vec![7, 8, 9]);

    let mut bad = [0u8; 33];
    bad[2] = 0x02;
    bad[3] = 200;
    bad[4] = 100;
    assert_eq!(
        apply_color_response(&mut chroma, &mut value, &bad).unwrap_err(),
        KeyboardError::Response
    );

    let mut keymap = vec![0u16; 6];
    let mut kresp = [0u8; 33];
    kresp[0] = 0x12;
    kresp[1] = 0;
    kresp[2] = 2;
    kresp[3] = 4;
    kresp[4..8].copy_from_slice(&[0, 41, 0, 42]);
    apply_keymap_response(&mut keymap, &kresp).unwrap();
    assert_eq!(keymap, vec![0, 41, 42, 0, 0, 0]);

    let mut sresp = [0u8; 33];
    sresp[3] = 77;
    sresp[4] = 88;
    assert_eq!(read_setting_response(&sresp), 77);
    assert_eq!(read_color_response(&sresp), (77, 88));
}

#[test]
fn controller_data_is_length_patched() {
    let kb = demo_keyboard();
    let payload = controller_data_response(
        kb.config(),
        kb.keymap(),
        kb.effect(),
        kb.speed(),
        kb.brightness(),
        kb.color(),
        &kb.colors(),
        "1.0.0",
    );
    let total = u32::from_le_bytes(payload[0..4].try_into().unwrap());
    assert_eq!(total as usize, payload.len());
    let device_type = i32::from_le_bytes(payload[4..8].try_into().unwrap());
    assert_eq!(device_type, 5);
    // The name field: its length includes the nul.
    let name_len = u16::from_le_bytes(payload[8..10].try_into().unwrap());
    assert_eq!(name_len as usize, "Demo Board".len() + 1);
    assert_eq!(&payload[10..20], b"Demo Board");
    assert_eq!(payload[20], 0);
}

#[test]
fn keycodes_have_openrgb_names() {
    assert_eq!(openrgb_keycode(4), "A");
    assert_eq!(openrgb_keycode(44), "Space");
    assert_eq!(openrgb_keycode(225), "Left Shift");
    assert_eq!(openrgb_keycode(64), "F7");
    assert_eq!(openrgb_keycode(128), "Unknown");
    assert_eq!(openrgb_keycode(103), "Right Fn");
}

#[test]
fn device_requests_dispatch_to_commands() {
    let cfg = demo_config();
    let mut single = vec![0u8; 8];
    single[0..4].copy_from_slice(&2u32.to_le_bytes());
    single[4..8].copy_from_slice(&[9, 8, 7, 0]);
    match dispatch_device_request(Request::UpdateSingleLed, &single, &cfg, true).unwrap() {
        DeviceCommand::Actions(actions) => {
            assert_eq!(actions.len(), 1);
            match &actions[0] {
                KeyboardAction::UpdateColors(colors, offset, with_brightness) => {
                    assert_eq!(colors, &vec![Some((9, 8, 7))]);
                    assert_eq!(*offset, 2);
                    assert!(*with_brightness);
                }
                other => panic!("unexpected action {}", other.as_name()),
            }
        }
        _ => panic!("expected queued actions"),
    }

    match dispatch_device_request(Request::ResizeZone, &[], &cfg, false).unwrap() {
        DeviceCommand::Ignore => {}
        _ => panic!("resize must be consumed without an effect"),
    }

    match dispatch_device_request(Request::SaveProfile, b"night\0", &cfg, false).unwrap() {
        DeviceCommand::SaveProfile(name) => assert_eq!(name, b"night".to_vec()),
        _ => panic!("expected a profile save"),
    }

    let mut mode = vec![0u8; 64];
    mode[0..4].copy_from_slice(&54u32.to_le_bytes());
    mode[4..8].copy_from_slice(&1i32.to_le_bytes());
    match dispatch_device_request(Request::SaveMode, &mode, &cfg, false).unwrap() {
        DeviceCommand::Actions(actions) => {
            let names: Vec<&str> = actions.iter().map(|a| a.as_name()).collect();
            assert_eq!(
                names,
                vec!["UpdateEffect", "UpdateSpeed", "UpdateBrightness", "PersistState"]
            );
        }
        _ => panic!("expected queued actions"),
    }
}

#[test]
fn wire_fields_have_the_openrgb_shapes() {
    let mut buf: Vec<u8> = Vec::new();
    buf.extend_from_str("ab");
    assert_eq!(buf, vec![3, 0, b'a', b'b', 0]);
    buf.extend_from_color((1, 2, 3));
    assert_eq!(&buf[5..], &[1, 2, 3, 0]);
    let mut nums: Vec<u8> = Vec::new();
    nums.extend_from_u32s(&[0x01020304, 5]);
    assert_eq!(nums, vec![4, 3, 2, 1, 5, 0, 0, 0]);
}

#[test]
fn duplicate_led_indices_keep_one_entry() {
    let json = r#"{
      "name": "Twin", "vendorId": "0x1", "productId": "0x2",
      "matrix": { "rows": 1, "cols": 3 },
      "menus": [],
      "layouts": { "keymap": [["0,0\nl1", "0,1\nl1", "0,2\nl0"]] }
    }"#;
    let cfg = Config::from_str(json).expect("definition must parse");
    assert_eq!(cfg.leds, vec![(0, (0, 2)), (1, (0, 0))]);
    assert_eq!(cfg.count_leds(), 2);
}

#[test]
fn malformed_menu_options_are_ignored() {
    let json = r#"{
      "name": "Odd", "vendorId": "0x1", "productId": "0x2",
      "matrix": { "rows": 1, "cols": 1 },
      "menus": [ { "content": [ { "content": [
        { "type": "range", "content": ["id_qmk_rgb_matrix_effect_speed"], "options": [0] },
        { "type": "range", "content": ["id_qmk_rgb_matrix_brightness"], "options": [0, 255] }
      ] } ] } ],
      "layouts": { "keymap": [] }
    }"#;
    let cfg = Config::from_str(json).expect("definition must parse");
    // The broken speed range reads as an unrecognised option.
    assert_eq!(cfg.speed, (0, 0));
    assert_eq!(cfg.brightness, (0, 255));
}

#[test]
fn only_the_first_matching_registration_is_answered() {
    let prefixes = vec![vec![8u8, 3], vec![8u8, 0, 1], vec![8u8, 0]];
    let buffer = [8u8, 0, 1, 5, 5];
    assert_eq!(first_prefix_match(&buffer, &prefixes), Some(1));
    assert_eq!(first_prefix_match(&[9u8, 9], &prefixes), None);
    assert_eq!(first_prefix_match(&[8u8, 0, 2], &prefixes), Some(2));
}
