use symbolic_compute::eadk::{Key, KeyboardState};
use symbolic_compute::input::InputHandler;

fn held(keys: &[Key]) -> KeyboardState {
    let mut bits: u64 = 0;
    for k in keys {
        bits |= 1u64 << k.index();
    }
    KeyboardState::from_raw(bits)
}

fn none() -> KeyboardState {
    KeyboardState::from_raw(0)
}

fn type_digit(h: &mut InputHandler, key: Key) {
    h.handle_number_keys(&held(&[key]));
    h.handle_number_keys(&none());
}

#[test]
fn new_handler_is_empty() {
    let h = InputHandler::new();
    assert_eq!(h.input_buffer, "");
    assert!(h.calculation_history.is_empty());
    assert_eq!(h.cursor_position, 0);
    assert!(h.last_key_states.iter().all(|b| !*b));
}

#[test]
fn key_indices_follow_the_keyboard_scan() {
    assert_eq!(Key::Left.index(), 0);
    assert_eq!(Key::Right.index(), 3);
    assert_eq!(Key::Xnt.index(), 14);
    assert_eq!(Key::Backspace.index(), 17);
    assert_eq!(Key::Zero.index(), 48);
    assert_eq!(Key::Exe.index(), 52);
    assert!(held(&[Key::Five]).key_down(Key::Five));
    assert!(!held(&[Key::Five]).key_down(Key::Six));
}

#[test]
fn digit_key_inserts_once_while_held() {
    let mut h = InputHandler::new();
    let kb = held(&[Key::One]);
    h.handle_number_keys(&kb);
    h.handle_number_keys(&kb);
    assert_eq!(h.input_buffer, "1");
    assert_eq!(h.cursor_position, 1);
    h.handle_number_keys(&none());
    h.handle_number_keys(&kb);
    assert_eq!(h.input_buffer, "11");
}

#[test]
fn digits_held_together_are_inserted_in_key_order() {
    let mut h = InputHandler::new();
    h.handle_number_keys(&held(&[Key::Seven, Key::Two]));
    assert_eq!(h.input_buffer, "27");
    assert_eq!(h.cursor_position, 2);
}

#[test]
fn operator_keys_insert_at_the_cursor() {
    let mut h = InputHandler::new();
    type_digit(&mut h, Key::Two);
    h.handle_operator_keys(&held(&[Key::Plus]));
    assert_eq!(h.input_buffer, "2+");
    h.handle_operator_keys(&none());
    h.handle_operator_keys(&held(&[Key::Square]));
    assert_eq!(h.input_buffer, "2+^2");
    assert_eq!(h.cursor_position, 4);
}

#[test]
fn power_key_enters_exponent_mode() {
    let mut h = InputHandler::new();
    type_digit(&mut h, Key::Three);
    h.handle_operator_keys(&held(&[Key::Power]));
    assert_eq!(h.input_buffer, "3^");
    assert!(h.exponent_mode);
    assert_eq!(h.exponent_start_position, 2);
    h.handle_operator_keys(&none());
    type_digit(&mut h, Key::Four);
    assert!(!h.exponent_mode);
    assert_eq!(h.input_buffer, "3^4");
}

#[test]
fn backspace_removes_the_character_before_the_cursor() {
    let mut h = InputHandler::new();
    type_digit(&mut h, Key::One);
    type_digit(&mut h, Key::Two);
    h.handle_backspace(&held(&[Key::Backspace]));
    assert_eq!(h.input_buffer, "1");
    assert_eq!(h.cursor_position, 1);
    h.handle_backspace(&held(&[Key::Backspace]));
    assert_eq!(h.input_buffer, "1");
}

#[test]
fn backspace_at_the_start_does_nothing() {
    let mut h = InputHandler::new();
    h.handle_backspace(&held(&[Key::Backspace]));
    assert_eq!(h.input_buffer, "");
    assert_eq!(h.cursor_position, 0);
}

#[test]
fn xnt_key_cycles_through_its_letters() {
    let mut h = InputHandler::new();
    let kb = held(&[Key::Xnt]);
    h.handle_xnt_key(&kb);
    assert_eq!(h.input_buffer, "x");
    h.handle_xnt_key(&none());
    h.handle_xnt_key(&kb);
    assert_eq!(h.input_buffer, "n");
    h.handle_xnt_key(&none());
    h.handle_xnt_key(&kb);
    assert_eq!(h.input_buffer, "t");
    h.handle_xnt_key(&none());
    h.handle_xnt_key(&kb);
    assert_eq!(h.input_buffer, "x");
    assert_eq!(h.cursor_position, 1);
}

#[test]
fn another_key_ends_the_xnt_cycle() {
    let mut h = InputHandler::new();
    h.handle_xnt_key(&held(&[Key::Xnt]));
    h.handle_xnt_key(&none());
    h.handle_operator_keys(&held(&[Key::Plus]));
    h.handle_xnt_key(&held(&[Key::Xnt]));
    assert_eq!(h.input_buffer, "x+x");
}

#[test]
fn arrows_move_the_cursor() {
    let mut h = InputHandler::new();
    type_digit(&mut h, Key::One);
    type_digit(&mut h, Key::Two);
    h.handle_arrow_keys(&held(&[Key::Left]));
    assert_eq!(h.cursor_position, 1);
    h.handle_arrow_keys(&none());
    type_digit(&mut h, Key::Three);
    assert_eq!(h.input_buffer, "132");
    h.handle_arrow_keys(&held(&[Key::Right]));
    assert_eq!(h.cursor_position, 3);
    assert_eq!(h.last_cursor_position, 3);
}

#[test]
fn right_arrow_closes_a_trailing_exponent() {
    let mut h = InputHandler::new();
    h.handle_xnt_key(&held(&[Key::Xnt]));
    h.handle_xnt_key(&none());
    h.handle_operator_keys(&held(&[Key::Power]));
    h.handle_operator_keys(&none());
    type_digit(&mut h, Key::Two);
    assert_eq!(h.input_buffer, "x^2");
    h.handle_arrow_keys(&held(&[Key::Left]));
    h.handle_arrow_keys(&none());
    assert_eq!(h.cursor_position, 2);
    h.handle_arrow_keys(&held(&[Key::Right]));
    assert_eq!(h.input_buffer, "x^2)");
    assert_eq!(h.cursor_position, 4);
    assert!(!h.exponent_mode);
}

#[test]
fn execute_moves_the_buffer_into_the_history() {
    let mut h = InputHandler::new();
    type_digit(&mut h, Key::Two);
    h.handle_xnt_key(&held(&[Key::Xnt]));
    h.handle_xnt_key(&none());
    h.handle_operator_keys(&held(&[Key::Plus]));
    h.handle_operator_keys(&none());
    type_digit(&mut h, Key::Three);
    h.handle_xnt_key(&held(&[Key::Xnt]));
    h.handle_xnt_key(&none());
    assert_eq!(h.input_buffer, "2x+3x");
    assert!(h.handle_exe_key(&held(&[Key::Exe])));
    assert_eq!(h.calculation_history.len(), 1);
    assert_eq!(h.calculation_history[0].0, "2x+3x");
    assert_eq!(h.calculation_history[0].1, "5x");
    assert_eq!(h.input_buffer, "");
    assert_eq!(h.cursor_position, 0);
    assert!(!h.handle_exe_key(&held(&[Key::Exe])));
}

#[test]
fn execute_on_an_empty_buffer_records_nothing() {
    let mut h = InputHandler::new();
    assert!(h.handle_exe_key(&held(&[Key::Exe])));
    assert!(h.calculation_history.is_empty());
    assert!(h.last_key_states[Key::Exe.index()]);
}

#[test]
fn timer_counts_ticks() {
    let mut h = InputHandler::new();
    h.update_timer();
    h.update_timer();
    assert_eq!(h.cursor_blink_timer, 2);
}

#[test]
fn held_operator_keys_change_nothing_but_the_record() {
    let mut h = InputHandler::new();
    h.handle_operator_keys(&held(&[Key::Plus]));
    assert_eq!(h.input_buffer, "+");
    h.handle_operator_keys(&held(&[Key::Plus]));
    assert_eq!(h.input_buffer, "+");
    assert_eq!(h.cursor_position, 1);
    assert!(h.last_key_states[Key::Plus.index()]);
    assert!(!h.last_key_states[Key::Minus.index()]);
}

#[test]
fn left_arrow_moves_back_and_syncs_the_remembered_cursor() {
    let mut h = InputHandler::new();
    type_digit(&mut h, Key::One);
    type_digit(&mut h, Key::Two);
    h.xnt_inserted = true;
    h.handle_arrow_keys(&held(&[Key::Left]));
    assert_eq!(h.input_buffer, "12");
    assert_eq!(h.cursor_position, 1);
    assert_eq!(h.last_cursor_position, 1);
    assert!(!h.xnt_inserted);
    assert_eq!(h.xnt_cycle, 0);
}

#[test]
fn handlers_with_the_cursor_past_the_text_insert_nothing() {
    let mut h = InputHandler::new();
    h.cursor_position = 5;
    h.handle_operator_keys(&held(&[Key::Minus]));
    h.handle_number_keys(&held(&[Key::Three]));
    h.handle_xnt_key(&held(&[Key::Xnt]));
    assert_eq!(h.input_buffer, "");
    assert_eq!(h.cursor_position, 5);
}
