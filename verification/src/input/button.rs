//! Pressed / just-pressed / just-released tracking for buttons.
use std::collections::HashSet;
use vstd::prelude::*;

verus! {

broadcast use vstd::std_specs::hash::group_hash_axioms;

#[derive(Debug, Copy, Clone, Eq, PartialEq, Hash, Structural)]
pub enum ButtonState {
    Pressed,
    Released,
}

impl ButtonState {
    pub fn is_pressed(&self) -> (r: bool)
        ensures
            r == (*self == ButtonState::Pressed),
    {
        match self {
            ButtonState::Pressed => true,
            ButtonState::Released => false,
        }
    }
}

/// A button that can be tracked by the number that identifies it.
pub trait ButtonCode: Copy {
    spec fn code_of(self) -> u64;

    /// Distinct buttons have distinct codes.
    proof fn lemma_code_injective(a: Self, b: Self)
        ensures
            a.code_of() == b.code_of() ==> a == b,
    ;

    fn code(&self) -> (r: u64)
        ensures
            r == self.code_of(),
    ;
}

/// The abstract state of a set of buttons: the codes of the buttons held down, pressed
/// since the last flush, and released since the last flush.
pub struct ButtonsView {
    pub pressed: Set<u64>,
    pub just_pressed: Set<u64>,
    pub just_released: Set<u64>,
}

/// Tracks which buttons are held down and which changed since the last flush.
pub struct Buttons<T> {
    pressed: HashSet<u64>,
    just_pressed: HashSet<u64>,
    just_released: HashSet<u64>,
    marker: std::marker::PhantomData<T>,
}

impl<T> View for Buttons<T> {
    type V = ButtonsView;

    closed spec fn view(&self) -> ButtonsView {
        ButtonsView {
            pressed: self.pressed@,
            just_pressed: self.just_pressed@,
            just_released: self.just_released@,
        }
    }
}

impl<T> Default for Buttons<T> {
    fn default() -> (r: Buttons<T>)
        ensures
            r@.pressed == Set::<u64>::empty(),
            r@.just_pressed == Set::<u64>::empty(),
            r@.just_released == Set::<u64>::empty(),
    {
        Buttons {
            pressed: HashSet::new(),
            just_pressed: HashSet::new(),
            just_released: HashSet::new(),
            marker: std::marker::PhantomData,
        }
    }
}

impl<T: ButtonCode> Buttons<T> {
    /// The button goes down.
    pub fn press(&mut self, button: T)
        ensures
            final(self)@.pressed == old(self)@.pressed.insert(button.code_of()),
            final(self)@.just_pressed == old(self)@.just_pressed.insert(button.code_of()),
            final(self)@.just_released == old(self)@.just_released,
    {
        let c = button.code();
        self.pressed.insert(c);
        self.just_pressed.insert(c);
    }

    /// The button goes up.
    pub fn release(&mut self, button: T)
        ensures
            final(self)@.pressed == old(self)@.pressed.remove(button.code_of()),
            final(self)@.just_pressed == old(self)@.just_pressed,
            final(self)@.just_released == old(self)@.just_released.insert(button.code_of()),
    {
        let c = button.code();
        self.pressed.remove(&c);
        self.just_released.insert(c);
    }

    /// Presses or releases the button.
    pub fn toggle(&mut self, button: T, state: ButtonState)
        ensures
            state == ButtonState::Pressed ==> {
                &&& final(self)@.pressed == old(self)@.pressed.insert(button.code_of())
                &&& final(self)@.just_pressed == old(self)@.just_pressed.insert(button.code_of())
                &&& final(self)@.just_released == old(self)@.just_released
            },
            state == ButtonState::Released ==> {
                &&& final(self)@.pressed == old(self)@.pressed.remove(button.code_of())
                &&& final(self)@.just_pressed == old(self)@.just_pressed
                &&& final(self)@.just_released == old(self)@.just_released.insert(button.code_of())
            },
    {
        match state {
            ButtonState::Pressed => self.press(button),
            ButtonState::Released => self.release(button),
        }
    }

    /// Forgets which buttons changed; the held-down buttons stay.
    pub fn flush(&mut self)
        ensures
            final(self)@.pressed == old(self)@.pressed,
            final(self)@.just_pressed == Set::<u64>::empty(),
            final(self)@.just_released == Set::<u64>::empty(),
    {
        self.just_pressed.clear();
        self.just_released.clear();
    }

    pub fn pressed(&self, button: T) -> (r: bool)
        ensures
            r == self@.pressed.contains(button.code_of()),
    {
        let c = button.code();
        self.pressed.contains(&c)
    }

    pub fn just_pressed(&self, button: T) -> (r: bool)
        ensures
            r == self@.just_pressed.contains(button.code_of()),
    {
        let c = button.code();
        self.just_pressed.contains(&c)
    }

    pub fn just_released(&self, button: T) -> (r: bool)
        ensures
            r == self@.just_released.contains(button.code_of()),
    {
        let c = button.code();
        self.just_released.contains(&c)
    }

    pub fn button_state(&self, button: T) -> (r: ButtonState)
        ensures
            r == if self@.pressed.contains(button.code_of()) {
                ButtonState::Pressed
            } else {
                ButtonState::Released
            },
    {
        if self.pressed(button) {
            ButtonState::Pressed
        } else {
            ButtonState::Released
        }
    }
}

/// Pressing or releasing a button leaves every other button as it was: held down,
/// just pressed and just released alike.
pub proof fn lemma_other_buttons_unchanged<T: ButtonCode>(old: ButtonsView, new: ButtonsView, button: T, other: T)
    requires
        other != button,
        ({
            ||| new.pressed == old.pressed.insert(button.code_of()) && new.just_pressed
                == old.just_pressed.insert(button.code_of()) && new.just_released == old.just_released
            ||| new.pressed == old.pressed.remove(button.code_of()) && new.just_pressed == old.just_pressed
                && new.just_released == old.just_released.insert(button.code_of())
        }),
    ensures
        new.pressed.contains(other.code_of()) == old.pressed.contains(other.code_of()),
        new.just_pressed.contains(other.code_of()) == old.just_pressed.contains(other.code_of()),
        new.just_released.contains(other.code_of()) == old.just_released.contains(other.code_of()),
{
    T::lemma_code_injective(button, other);
}

} // verus!
