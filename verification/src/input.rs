//! Cursor capture and free-camera movement, decided from the frame's input.

use vstd::prelude::*;

verus! {

/// How the window holds the cursor.
#[derive(Clone, Copy, Debug, PartialEq, Eq)]
pub enum CursorGrabMode {
    /// The cursor moves freely (no grab).
    Free,
    Confined,
    Locked,
}

/// The window's cursor settings.
#[derive(Clone, Copy, Debug, PartialEq, Eq)]
pub struct CursorOptions {
    pub grab_mode: CursorGrabMode,
    pub visible: bool,
}

/// A left click captures and hides the cursor; Escape releases and shows it.
/// When both happen in one frame, Escape wins; when neither does, nothing
/// changes.
pub fn handle_cursor_lock(cursor_options: &mut CursorOptions, left_just_pressed: bool, escape_just_pressed: bool)
    ensures
        escape_just_pressed ==> *final(cursor_options) == (CursorOptions { grab_mode: CursorGrabMode::Free, visible: true }),
        !escape_just_pressed && left_just_pressed
            ==> *final(cursor_options) == (CursorOptions { grab_mode: CursorGrabMode::Locked, visible: false }),
        !escape_just_pressed && !left_just_pressed ==> *final(cursor_options) == *old(cursor_options),
{
    if left_just_pressed {
        cursor_options.grab_mode = CursorGrabMode::Locked;
        cursor_options.visible = false;
    }
    if escape_just_pressed {
        cursor_options.grab_mode = CursorGrabMode::Free;
        cursor_options.visible = true;
    }
}

/// The movement keys held during a frame.
#[derive(Clone, Copy, Debug, PartialEq, Eq)]
pub struct MovementKeys {
    /// W
    pub forward: bool,
    /// S
    pub back: bool,
    /// A
    pub left: bool,
    /// D
    pub right: bool,
    /// Space
    pub up: bool,
    /// Left Shift
    pub down: bool,
}

/// How much of the camera's forward, right and up directions the frame's
/// movement adds up: each is -1, 0 or 1.
#[derive(Clone, Copy, Debug, PartialEq, Eq)]
pub struct MovementAxes {
    pub forward: i8,
    pub right: i8,
    pub up: i8,
}

/// 1 when `b` holds, 0 otherwise.
pub open spec fn key_value(b: bool) -> int {
    if b { 1 } else { 0 }
}

/// The sum of the camera directions that the held keys ask for: W adds
/// forward and S takes it away, D adds right and A takes it away, Space adds
/// up and Left Shift takes it away.
pub fn movement_axes(keys: MovementKeys) -> (axes: MovementAxes)
    ensures
        axes.forward == key_value(keys.forward) - key_value(keys.back),
        axes.right == key_value(keys.right) - key_value(keys.left),
        axes.up == key_value(keys.up) - key_value(keys.down),
{
    let mut axes = MovementAxes { forward: 0, right: 0, up: 0 };
    if keys.forward {
        axes.forward = axes.forward + 1;
    }
    if keys.back {
        axes.forward = axes.forward - 1;
    }
    if keys.left {
        axes.right = axes.right - 1;
    }
    if keys.right {
        axes.right = axes.right + 1;
    }
    if keys.up {
        axes.up = axes.up + 1;
    }
    if keys.down {
        axes.up = axes.up - 1;
    }
    axes
}

} // verus!
