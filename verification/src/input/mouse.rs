//! Mouse button state.
use vstd::prelude::*;

use crate::input::button::{ButtonCode, ButtonState, Buttons, ButtonsView};

verus! {

#[derive(Debug, Hash, PartialEq, Eq, Clone, Copy, Structural)]
pub enum MouseButton {
    Left,
    Right,
    Middle,
    Other(u16),
}

impl ButtonCode for MouseButton {
    open spec fn code_of(self) -> u64 {
        match self {
            MouseButton::Left => 0,
            MouseButton::Right => 1,
            MouseButton::Middle => 2,
            MouseButton::Other(v) => (3 + v) as u64,
        }
    }

    proof fn lemma_code_injective(a: Self, b: Self) {
    }

    fn code(&self) -> (r: u64) {
        match self {
            MouseButton::Left => 0,
            MouseButton::Right => 1,
            MouseButton::Middle => 2,
            MouseButton::Other(v) => 3 + *v as u64,
        }
    }
}

/// Which mouse buttons are held down, and which changed since the last flush.
pub struct MouseInput {
    buttons: Buttons<MouseButton>,
}

impl View for MouseInput {
    type V = ButtonsView;

    closed spec fn view(&self) -> ButtonsView {
        self.buttons@
    }
}

impl Default for MouseInput {
    fn default() -> (r: MouseInput)
        ensures
            r@.pressed == Set::<u64>::empty(),
            r@.just_pressed == Set::<u64>::empty(),
            r@.just_released == Set::<u64>::empty(),
    {
        MouseInput { buttons: Buttons::default() }
    }
}

impl MouseInput {
    /// Presses or releases `button`.
    pub fn toggle(&mut self, button: MouseButton, state: ButtonState)
        ensures
            state == ButtonState::Pressed ==> {
                &&& final(self)@.pressed == old(self)@.pressed.insert(button.code_of())
                &&& final(self)@.just_pressed == old(self)@.just_pressed.insert(button.code_of())
                &&& final(self)@.just_released == old(self)@.just_released
            },
            state == ButtonState::Released ==> {
                &&& final(self)@.pressed == old(self)@.pressed.remove(button.code_of())
                &&& final(self)@.just_pressed == old(self)@.just_pressed
                &&& final(self)@.just_released == old(self)@.just_released.insert(button.code_of())
            },
    {
        self.buttons.toggle(button, state);
    }

    /// Forgets which buttons changed; the held-down buttons stay.
    pub fn flush(&mut self)
        ensures
            final(self)@.pressed == old(self)@.pressed,
            final(self)@.just_pressed == Set::<u64>::empty(),
            final(self)@.just_released == Set::<u64>::empty(),
    {
        self.buttons.flush();
    }

    pub fn pressed(&self, button: MouseButton) -> (r: bool)
        ensures
            r == self@.pressed.contains(button.code_of()),
    {
        self.buttons.pressed(button)
    }

    pub fn just_pressed(&self, button: MouseButton) -> (r: bool)
        ensures
            r == self@.just_pressed.contains(button.code_of()),
    {
        self.buttons.just_pressed(button)
    }

    pub fn just_released(&self, button: MouseButton) -> (r: bool)
        ensures
            r == self@.just_released.contains(button.code_of()),
    {
        self.buttons.just_released(button)
    }

    pub fn button_state(&self, button: MouseButton) -> (r: ButtonState)
        ensures
            r == if self@.pressed.contains(button.code_of()) {
                ButtonState::Pressed
            } else {
                ButtonState::Released
            },
    {
        self.buttons.button_state(button)
    }
}

/// A mouse button going down or up.
#[derive(Debug, Clone)]
pub struct MouseButtonInput {
    pub button: MouseButton,
    pub state: ButtonState,
}

/// The unit a scroll delta is measured in.
#[derive(Debug, Clone, Copy, PartialEq, Eq, Structural)]
pub enum MouseScrollUnit {
    Line,
    Pixel,
}

} // verus!
