use adroitly::{get_current_time, get_input, InputEvent, Key, Keyboard};
use std::time::Duration;

fn pressed(k: &Keyboard) -> [bool; 7] {
    [k.is_w_down, k.is_a_down, k.is_s_down, k.is_d_down, k.is_space_down, k.is_p_down, k.should_quit]
}

#[test]
fn new_keyboard_holds_nothing() {
    let k = Keyboard::new();
    assert_eq!(pressed(&k), [false; 7]);
}

#[test]
fn keys_are_held_from_down_to_up() {
    let mut k = Keyboard::new();
    get_input(&[InputEvent::KeyDown(Key::W), InputEvent::KeyDown(Key::D)], &mut k);
    assert_eq!(pressed(&k), [true, false, false, true, false, false, false]);
    get_input(&[InputEvent::KeyUp(Key::W), InputEvent::KeyDown(Key::A), InputEvent::KeyDown(Key::S)], &mut k);
    assert_eq!(pressed(&k), [false, true, true, true, false, false, false]);
    get_input(&[InputEvent::KeyDown(Key::Space), InputEvent::KeyUp(Key::Space)], &mut k);
    assert!(!k.is_space_down);
    get_input(&[InputEvent::KeyUp(Key::Space), InputEvent::KeyDown(Key::Space)], &mut k);
    assert!(k.is_space_down);
}

#[test]
fn later_events_win() {
    let mut k = Keyboard::new();
    get_input(
        &[InputEvent::KeyDown(Key::S), InputEvent::KeyUp(Key::S), InputEvent::KeyDown(Key::S)],
        &mut k,
    );
    assert!(k.is_s_down);
}

#[test]
fn p_is_only_set_by_key_down() {
    let mut k = Keyboard::new();
    get_input(&[InputEvent::KeyDown(Key::P), InputEvent::KeyUp(Key::P)], &mut k);
    assert!(k.is_p_down);
}

#[test]
fn quit_and_escape_ask_to_quit_for_good() {
    let mut k = Keyboard::new();
    get_input(&[InputEvent::KeyUp(Key::Escape)], &mut k);
    assert!(!k.should_quit);
    get_input(&[InputEvent::KeyDown(Key::Escape)], &mut k);
    assert!(k.should_quit);
    let mut k = Keyboard::new();
    get_input(&[InputEvent::Quit, InputEvent::KeyUp(Key::W), InputEvent::Ignored], &mut k);
    assert!(k.should_quit);
}

#[test]
fn other_events_change_nothing() {
    let mut k = Keyboard::new();
    k.is_a_down = true;
    get_input(
        &[InputEvent::Ignored, InputEvent::KeyDown(Key::Other), InputEvent::KeyUp(Key::Other)],
        &mut k,
    );
    assert_eq!(pressed(&k), [false, true, false, false, false, false, false]);
    get_input(&[], &mut k);
    assert_eq!(pressed(&k), [false, true, false, false, false, false, false]);
}

#[test]
fn handle_event_applies_one_event() {
    let mut k = Keyboard::new();
    k.handle_event(InputEvent::KeyDown(Key::A));
    assert!(k.is_a_down);
    k.handle_event(InputEvent::KeyUp(Key::A));
    assert!(!k.is_a_down);
}

#[test]
fn current_time_reads_the_clock() {
    let t = get_current_time().expect("the clock reads after the epoch");
    assert!(t > Duration::from_secs(1_600_000_000));
}
