//! Keyboard, mouse and touch input: what is held down, and what changed this frame.
pub mod button;
pub mod keyboard;
pub mod mouse;
pub mod touch;

use vstd::prelude::*;

use crate::input::keyboard::KeyboardInput;
use crate::input::mouse::MouseInput;
use crate::input::touch::{Touch, Touches};

verus! {

/// Ends a frame of input: every device forgets what changed, and what is held stays held.
pub fn input_flush_system<P: Copy, F: Copy>(keyboard: &mut KeyboardInput, mouse: &mut MouseInput, touches: &mut Touches<P, F>)
    ensures
        final(keyboard)@.pressed == old(keyboard)@.pressed,
        final(keyboard)@.just_pressed == Set::<u64>::empty(),
        final(keyboard)@.just_released == Set::<u64>::empty(),
        final(mouse)@.pressed == old(mouse)@.pressed,
        final(mouse)@.just_pressed == Set::<u64>::empty(),
        final(mouse)@.just_released == Set::<u64>::empty(),
        final(touches)@.pressed == old(touches)@.pressed,
        final(touches)@.just_pressed == Map::<u64, Touch<P, F>>::empty(),
        final(touches)@.just_released == Map::<u64, Touch<P, F>>::empty(),
        final(touches)@.just_cancelled == Map::<u64, Touch<P, F>>::empty(),
{
    keyboard.flush();
    mouse.flush();
    touches.flush();
}

} // verus!
