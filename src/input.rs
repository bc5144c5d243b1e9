//! The key bindings: which key press asks for which action.

use vstd::prelude::*;
use crate::geometry::Split;

verus! {

/// What a key binding asks the compositor to do.
#[allow(non_camel_case_types)]
#[derive(Clone, Copy, Debug)]
pub enum Action {
    /// Start the named program.
    exec_process(&'static str),
    /// Set the axis along which the focused window is split next.
    change_split(Split),
}

/// The action bound to `key`, if any; only presses trigger actions.
pub open spec fn bound_action(key: char, pressed: bool) -> Option<Action> {
    if !pressed {
        None
    } else if key == 'w' {
        Some(Action::exec_process("weston-terminal"))
    } else if key == 'a' {
        Some(Action::exec_process("alacritty"))
    } else if key == 'v' {
        Some(Action::change_split(Split::Vertical))
    } else if key == 'o' {
        Some(Action::change_split(Split::Horizontal))
    } else {
        None
    }
}

/// The action bound to `key`; a key without a binding, or a release, is
/// forwarded to the focused client instead.
pub fn action_for_key(key: char, pressed: bool) -> (r: Option<Action>)
    ensures
        r == bound_action(key, pressed),
{
    if !pressed {
        None
    } else if key == 'w' {
        Some(Action::exec_process("weston-terminal"))
    } else if key == 'a' {
        Some(Action::exec_process("alacritty"))
    } else if key == 'v' {
        Some(Action::change_split(Split::Vertical))
    } else if key == 'o' {
        Some(Action::change_split(Split::Horizontal))
    } else {
        None
    }
}

} // verus!
