//! Keyboard state.
use vstd::prelude::*;

use crate::input::button::{ButtonCode, ButtonState, Buttons, ButtonsView};

verus! {

/// A physical key, identified by its platform key number.
#[derive(Debug, Copy, Clone, Eq, PartialEq, Hash, Structural)]
pub struct KeyCode(pub u32);

impl ButtonCode for KeyCode {
    open spec fn code_of(self) -> u64 {
        self.0 as u64
    }

    proof fn lemma_code_injective(a: Self, b: Self) {
    }

    fn code(&self) -> (r: u64) {
        self.0 as u64
    }
}

/// Which keys are held down, and which changed since the last flush.
pub struct KeyboardInput {
    buttons: Buttons<KeyCode>,
}

impl View for KeyboardInput {
    type V = ButtonsView;

    closed spec fn view(&self) -> ButtonsView {
        self.buttons@
    }
}

impl Default for KeyboardInput {
    fn default() -> (r: KeyboardInput)
        ensures
            r@.pressed == Set::<u64>::empty(),
            r@.just_pressed == Set::<u64>::empty(),
            r@.just_released == Set::<u64>::empty(),
    {
        KeyboardInput { buttons: Buttons::default() }
    }
}

impl KeyboardInput {
    /// Presses or releases `key`.
    pub fn toggle(&mut self, key: KeyCode, state: ButtonState)
        ensures
            state == ButtonState::Pressed ==> {
                &&& final(self)@.pressed == old(self)@.pressed.insert(key.code_of())
                &&& final(self)@.just_pressed == old(self)@.just_pressed.insert(key.code_of())
                &&& final(self)@.just_released == old(self)@.just_released
            },
            state == ButtonState::Released ==> {
                &&& final(self)@.pressed == old(self)@.pressed.remove(key.code_of())
                &&& final(self)@.just_pressed == old(self)@.just_pressed
                &&& final(self)@.just_released == old(self)@.just_released.insert(key.code_of())
            },
    {
        self.buttons.toggle(key, state);
    }

    /// Forgets which keys changed; the held-down keys stay.
    pub fn flush(&mut self)
        ensures
            final(self)@.pressed == old(self)@.pressed,
            final(self)@.just_pressed == Set::<u64>::empty(),
            final(self)@.just_released == Set::<u64>::empty(),
    {
        self.buttons.flush();
    }

    pub fn pressed(&self, key: KeyCode) -> (r: bool)
        ensures
            r == self@.pressed.contains(key.code_of()),
    {
        self.buttons.pressed(key)
    }

    pub fn just_pressed(&self, key: KeyCode) -> (r: bool)
        ensures
            r == self@.just_pressed.contains(key.code_of()),
    {
        self.buttons.just_pressed(key)
    }

    pub fn just_released(&self, key: KeyCode) -> (r: bool)
        ensures
            r == self@.just_released.contains(key.code_of()),
    {
        self.buttons.just_released(key)
    }

    pub fn key_state(&self, key: KeyCode) -> (r: ButtonState)
        ensures
            r == if self@.pressed.contains(key.code_of()) {
                ButtonState::Pressed
            } else {
                ButtonState::Released
            },
    {
        self.buttons.button_state(key)
    }
}

/// A key going down or up.
#[derive(Debug, Clone)]
pub struct KeyInput {
    pub scan_code: u32,
    pub key_code: Option<KeyCode>,
    pub state: ButtonState,
}

} // verus!
