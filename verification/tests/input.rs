use quad::input::button::{ButtonState, Buttons};
use quad::input::input_flush_system;
use quad::input::keyboard::{KeyCode, KeyboardInput};
use quad::input::mouse::{MouseButton, MouseInput};
use quad::input::touch::{Touch, TouchId, TouchInput, TouchPhase, Touches};

#[test]
fn buttons_press_release_flush() {
    let mut buttons: Buttons<KeyCode> = Buttons::default();
    buttons.press(KeyCode(1));
    assert!(buttons.pressed(KeyCode(1)));
    assert!(buttons.just_pressed(KeyCode(1)));
    assert_eq!(buttons.button_state(KeyCode(1)), ButtonState::Pressed);
    buttons.flush();
    assert!(buttons.pressed(KeyCode(1)));
    assert!(!buttons.just_pressed(KeyCode(1)));
    buttons.release(KeyCode(1));
    assert!(!buttons.pressed(KeyCode(1)));
    assert!(buttons.just_released(KeyCode(1)));
    assert_eq!(buttons.button_state(KeyCode(1)), ButtonState::Released);
    assert!(!ButtonState::Released.is_pressed());
}

#[test]
fn press_and_release_in_one_frame() {
    let mut keyboard = KeyboardInput::default();
    keyboard.toggle(KeyCode(5), ButtonState::Pressed);
    keyboard.toggle(KeyCode(5), ButtonState::Released);
    assert!(keyboard.just_pressed(KeyCode(5)));
    assert!(keyboard.just_released(KeyCode(5)));
    assert!(!keyboard.pressed(KeyCode(5)));
    assert_eq!(keyboard.key_state(KeyCode(5)), ButtonState::Released);
}

#[test]
fn mouse_buttons_are_told_apart() {
    let mut mouse = MouseInput::default();
    mouse.toggle(MouseButton::Left, ButtonState::Pressed);
    mouse.toggle(MouseButton::Other(0), ButtonState::Pressed);
    assert!(mouse.pressed(MouseButton::Left));
    assert!(!mouse.pressed(MouseButton::Right));
    assert!(mouse.pressed(MouseButton::Other(0)));
    assert!(!mouse.pressed(MouseButton::Other(1)));
    assert_eq!(mouse.button_state(MouseButton::Middle), ButtonState::Released);
}

fn event(phase: TouchPhase, x: i32, id: u64) -> TouchInput<i32, u8> {
    TouchInput { phase, position: x, force: Some(x as u8), id: TouchId::new(id) }
}

#[test]
fn touch_life_cycle() {
    let mut touches: Touches<i32, u8> = Touches::default();
    touches.process_event(&event(TouchPhase::Started, 1, 7));
    assert!(touches.just_pressed(TouchId(7)));
    touches.process_event(&event(TouchPhase::Moved, 5, 7));
    let t: &Touch<i32, u8> = touches.get_pressed(TouchId(7)).unwrap();
    assert_eq!(t.start_position(), 1);
    assert_eq!(t.previous_position(), 1);
    assert_eq!(t.position(), 5);
    assert_eq!(t.force(), Some(5));
    assert_eq!(t.start_force(), Some(1));
    assert_eq!(touches.iter().len(), 1);
    touches.process_event(&event(TouchPhase::Ended, 6, 7));
    assert!(touches.get_pressed(TouchId(7)).is_none());
    assert!(touches.just_released(TouchId(7)));
    assert_eq!(touches.get_released(TouchId(7)).unwrap().position(), 6);
    assert_eq!(touches.iter_just_released().len(), 1);
    touches.process_event(&event(TouchPhase::Started, 2, 8));
    touches.process_event(&event(TouchPhase::Cancelled, 3, 8));
    assert!(touches.just_cancelled(TouchId(8)));
    assert_eq!(touches.iter_just_cancelled().len(), 1);
    assert_eq!(touches.iter_just_pressed().len(), 2);
}

#[test]
fn moving_an_unknown_touch_changes_nothing() {
    let mut touches: Touches<i32, u8> = Touches::default();
    touches.process_event(&event(TouchPhase::Moved, 5, 9));
    assert!(touches.get_pressed(TouchId(9)).is_none());
    assert!(touches.iter().is_empty());
}

#[test]
fn input_flush_forgets_changes_keeps_held() {
    let mut keyboard = KeyboardInput::default();
    let mut mouse = MouseInput::default();
    let mut touches: Touches<i32, u8> = Touches::default();
    keyboard.toggle(KeyCode(2), ButtonState::Pressed);
    mouse.toggle(MouseButton::Right, ButtonState::Pressed);
    mouse.toggle(MouseButton::Left, ButtonState::Released);
    touches.process_event(&event(TouchPhase::Started, 1, 3));
    input_flush_system(&mut keyboard, &mut mouse, &mut touches);
    assert!(keyboard.pressed(KeyCode(2)) && !keyboard.just_pressed(KeyCode(2)));
    assert!(mouse.pressed(MouseButton::Right) && !mouse.just_pressed(MouseButton::Right));
    assert!(!mouse.just_released(MouseButton::Left));
    assert!(touches.get_pressed(TouchId(3)).is_some() && !touches.just_pressed(TouchId(3)));
    assert!(touches.iter_just_pressed().is_empty());
}

#[test]
fn pressing_one_button_leaves_others() {
    let mut buttons: Buttons<MouseButton> = Buttons::default();
    buttons.press(MouseButton::Other(0));
    buttons.flush();
    buttons.press(MouseButton::Middle);
    buttons.release(MouseButton::Left);
    assert!(buttons.pressed(MouseButton::Other(0)));
    assert!(!buttons.just_pressed(MouseButton::Other(0)));
    assert!(!buttons.just_released(MouseButton::Other(0)));
    assert!(!buttons.pressed(MouseButton::Right));
    assert!(!buttons.just_pressed(MouseButton::Right));
    assert!(!buttons.just_released(MouseButton::Right));
}

#[test]
fn touch_event_changes_only_its_touch() {
    let mut touches: Touches<i32, u8> = Touches::default();
    touches.process_event(&event(TouchPhase::Started, 1, 1));
    touches.process_event(&event(TouchPhase::Started, 2, 2));
    touches.process_event(&event(TouchPhase::Moved, 9, 2));
    touches.process_event(&event(TouchPhase::Ended, 10, 2));
    let t = touches.get_pressed(TouchId(1)).unwrap();
    assert_eq!(t.position(), 1);
    assert_eq!(t.previous_position(), 1);
    assert!(touches.just_pressed(TouchId(1)));
    assert!(!touches.just_released(TouchId(1)));
    assert!(!touches.just_cancelled(TouchId(1)));
    assert!(touches.get_pressed(TouchId(2)).is_none());
    assert_eq!(touches.get_released(TouchId(2)).unwrap().position(), 10);
}
