use wgpu_robotic_simulator::input::{Direction, InputState, Key};

#[test]
fn new_input_state_is_idle() {
    let s = InputState::new();
    assert!(!s.left && !s.right && !s.forward && !s.backward && !s.up && !s.down);
}

#[test]
fn reset_clears_every_flag() {
    let mut s = InputState { left: true, right: true, forward: true, backward: true, up: true, down: true };
    s.reset();
    assert_eq!(s, InputState::new());
}

#[test]
fn press_sets_the_flag_of_the_key() {
    let mut s = InputState::new();
    s.press(Key::Left);
    assert_eq!(s, InputState { left: true, ..InputState::new() });
    s.press(Key::Up);
    assert_eq!(s, InputState { left: true, up: true, ..InputState::new() });
    s.press(Key::Other);
    assert_eq!(s, InputState { left: true, up: true, ..InputState::new() });
}

#[test]
fn drain_gives_moves_in_order_and_resets() {
    let mut s = InputState::new();
    s.press(Key::Down);
    s.press(Key::Right);
    s.press(Key::Forward);
    s.press(Key::Backward);
    assert_eq!(
        s.drain(),
        vec![Direction::Forward, Direction::Backward, Direction::Right, Direction::Down]
    );
    assert_eq!(s, InputState::new());
    assert_eq!(s.drain(), Vec::new());
}

#[test]
fn drain_of_everything() {
    let mut s = InputState { left: true, right: true, forward: true, backward: true, up: true, down: true };
    assert_eq!(
        s.drain(),
        vec![
            Direction::Forward,
            Direction::Left,
            Direction::Backward,
            Direction::Right,
            Direction::Up,
            Direction::Down
        ]
    );
}
