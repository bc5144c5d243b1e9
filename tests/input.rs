use aigi::geometry::Split;
use aigi::input::{action_for_key, Action};

#[test]
fn key_w_starts_weston_terminal() {
    assert!(matches!(action_for_key('w', true), Some(Action::exec_process("weston-terminal"))));
}

#[test]
fn key_a_starts_alacritty() {
    assert!(matches!(action_for_key('a', true), Some(Action::exec_process("alacritty"))));
}

#[test]
fn key_v_sets_vertical_split() {
    assert!(matches!(action_for_key('v', true), Some(Action::change_split(Split::Vertical))));
}

#[test]
fn key_o_sets_horizontal_split() {
    assert!(matches!(action_for_key('o', true), Some(Action::change_split(Split::Horizontal))));
}

#[test]
fn releases_and_unbound_keys_do_nothing() {
    assert!(action_for_key('w', false).is_none());
    assert!(action_for_key('x', true).is_none());
}
