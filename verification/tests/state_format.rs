//! The persisted keyboard state: exact bytes out, and the round trip back.

use colorhoster::state::KeyboardState;

fn sample() -> KeyboardState {
    KeyboardState {
        chroma: vec![(1, 2), (30, 40)],
        value: vec![3, 255],
        color: (4, 5),
        brightness: 6,
        effect: 7,
        speed: 108,
    }
}

#[test]
fn save_writes_the_exact_document() {
    let text = String::from_utf8(sample().save_state()).unwrap();
    assert_eq!(
        text,
        "{\"colors\":[[[1,2],[30,40]],[3,255]],\"color\":[4,5],\"brightness\":6,\"effect\":7,\"speed\":108}"
    );
}

#[test]
fn save_then_parse_restores_the_state() {
    let st = sample();
    let saved = st.save_state();
    let back = KeyboardState::parse_state(&saved).expect("saved state must parse");
    assert_eq!(back.chroma, st.chroma);
    assert_eq!(back.value, st.value);
    assert_eq!(back.color, st.color);
    assert_eq!(back.brightness, st.brightness);
    assert_eq!(back.effect, st.effect);
    assert_eq!(back.speed, st.speed);
}

#[test]
fn empty_planes_round_trip() {
    let st = KeyboardState {
        chroma: vec![],
        value: vec![],
        color: (0, 0),
        brightness: 0,
        effect: 0,
        speed: 0,
    };
    let saved = st.save_state();
    assert_eq!(
        String::from_utf8(saved.clone()).unwrap(),
        "{\"colors\":[[],[]],\"color\":[0,0],\"brightness\":0,\"effect\":0,\"speed\":0}"
    );
    let back = KeyboardState::parse_state(&saved).expect("saved state must parse");
    assert!(back.chroma.is_empty());
    assert!(back.value.is_empty());
}

#[test]
fn garbage_does_not_parse() {
    assert!(KeyboardState::parse_state(b"not a state").is_none());
    assert!(KeyboardState::parse_state(b"").is_none());
    assert!(KeyboardState::parse_state(b"{\"colors\":[[],[]]").is_none());
    assert!(
        KeyboardState::parse_state(
            b"{\"colors\":[[],[]],\"color\":[0,0],\"brightness\":999,\"effect\":0,\"speed\":0}"
        )
        .is_none()
    );
}

#[test]
fn trailing_bytes_are_refused() {
    let mut saved = sample().save_state();
    saved.push(b' ');
    assert!(KeyboardState::parse_state(&saved).is_none());
}
