//! Coalescing of colour updates in the action queue.

use colorhoster::actor::{merge_colors, ActionQueue, KeyboardAction};

#[test]
fn merges_non_overlapping() {
    let red = Some((255u8, 0u8, 0u8));
    let blue = Some((0u8, 0u8, 255u8));

    let (colors, offset) = merge_colors(vec![red, red, red], 2, vec![blue, blue, blue], 5);
    assert_eq!(colors, vec![red, red, red, blue, blue, blue]);
    assert_eq!(offset, 2);

    let (colors, offset) = merge_colors(vec![red, red, red], 5, vec![blue, blue, blue], 2);
    assert_eq!(colors, vec![blue, blue, blue, red, red, red]);
    assert_eq!(offset, 2);
}

#[test]
fn merges_with_gap() {
    let red = Some((255u8, 0u8, 0u8));
    let blue = Some((0u8, 0u8, 255u8));

    let (colors, offset) = merge_colors(vec![red, red, red], 2, vec![blue, blue, blue], 7);
    assert_eq!(colors, vec![red, red, red, None, None, blue, blue, blue]);
    assert_eq!(offset, 2);

    let (colors, offset) = merge_colors(vec![red, red, red], 7, vec![blue, blue, blue], 2);
    assert_eq!(colors, vec![blue, blue, blue, None, None, red, red, red]);
    assert_eq!(offset, 2);
}

#[test]
fn merges_with_overlap() {
    let red = Some((255u8, 0u8, 0u8));
    let blue = Some((0u8, 0u8, 255u8));

    let (colors, offset) = merge_colors(vec![red, red, red], 2, vec![blue, blue, blue], 4);
    assert_eq!(colors, vec![red, red, blue, blue, blue]);
    assert_eq!(offset, 2);

    let (colors, offset) = merge_colors(vec![red, red, red], 4, vec![blue, blue, blue], 2);
    assert_eq!(colors, vec![blue, blue, blue, red, red]);
    assert_eq!(offset, 2);
}

#[test]
fn full_overwrite() {
    let red = Some((255u8, 0u8, 0u8));
    let blue = Some((0u8, 0u8, 255u8));

    let (colors, offset) = merge_colors(vec![red, red, red], 2, vec![blue, blue, blue], 2);
    assert_eq!(colors, vec![blue, blue, blue]);
    assert_eq!(offset, 2);
}

#[test]
fn queue_replaces_same_variant_and_moves_it_back() {
    let mut q = ActionQueue::new();
    q.perform_action(KeyboardAction::UpdateEffect(1));
    q.perform_action(KeyboardAction::UpdateSpeed(9));
    q.perform_action(KeyboardAction::UpdateEffect(2));
    assert_eq!(q.len(), 2);
    match q.pop_front() {
        Some(KeyboardAction::UpdateSpeed(9)) => {}
        other => panic!("unexpected head: {:?}", other.map(|a| a.as_name())),
    }
    match q.pop_front() {
        Some(KeyboardAction::UpdateEffect(2)) => {}
        other => panic!("unexpected head: {:?}", other.map(|a| a.as_name())),
    }
    assert!(q.pop_front().is_none());
}

#[test]
fn queue_merges_color_updates() {
    let red = Some((255u8, 0u8, 0u8));
    let blue = Some((0u8, 0u8, 255u8));
    let mut q = ActionQueue::new();
    let first = KeyboardAction::UpdateColors(vec![red, red], 0, false);
    assert!(q.accepts(&first));
    q.perform_action(first);
    let second = KeyboardAction::UpdateColors(vec![blue, blue], 1, true);
    assert!(q.accepts(&second));
    q.perform_action(second);
    assert_eq!(q.len(), 1);
    match q.pop_front() {
        Some(KeyboardAction::UpdateColors(colors, offset, with_brightness)) => {
            assert_eq!(colors, vec![red, blue, blue]);
            assert_eq!(offset, 0);
            assert!(with_brightness);
        }
        other => panic!("unexpected head: {:?}", other.map(|a| a.as_name())),
    }
}

#[test]
fn queue_merges_a_narrow_update_inside_a_wide_one() {
    let red = Some((255u8, 0u8, 0u8));
    let blue = Some((0u8, 0u8, 255u8));
    let mut q = ActionQueue::new();
    q.perform_action(KeyboardAction::UpdateColors(vec![red, red, red], 0, false));
    let narrow = KeyboardAction::UpdateColors(vec![blue], 1, true);
    assert!(q.accepts(&narrow));
    q.perform_action(narrow);
    match q.pop_front() {
        Some(KeyboardAction::UpdateColors(colors, offset, with_brightness)) => {
            assert_eq!(colors, vec![red, blue, red]);
            assert_eq!(offset, 0);
            assert!(with_brightness);
        }
        other => panic!("unexpected head: {:?}", other.map(|a| a.as_name())),
    }
}

#[test]
fn merge_keeps_the_wider_older_update() {
    let red = Some((255u8, 0u8, 0u8));
    let blue = Some((0u8, 0u8, 255u8));
    let (colors, offset) = merge_colors(vec![red, red, red, red], 0, vec![blue], 1);
    assert_eq!(colors, vec![red, blue, red, red]);
    assert_eq!(offset, 0);

    let (colors, offset) = merge_colors(vec![red], 3, vec![blue, blue, blue, blue, blue], 1);
    assert_eq!(colors, vec![blue, blue, blue, blue, blue]);
    assert_eq!(offset, 1);
}
