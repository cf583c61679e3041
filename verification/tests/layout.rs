use symbolic_compute::eadk::{color_black, Color, Point};
use symbolic_compute::ui::{
    calculate_cursor_x, draw_interface, draw_string_with_exponents, estimate_text_width, DisplayCommand,
};

fn text_of(c: &DisplayCommand) -> Option<(String, Point, bool)> {
    match c {
        DisplayCommand::DrawString(t, p, large, _, _) => Some((t.clone(), *p, *large)),
        DisplayCommand::PushRectUniform(_, _) => None,
    }
}

#[test]
fn width_counts_exponent_digits_at_half_width() {
    assert_eq!(estimate_text_width("x^23", true), 24);
    assert_eq!(estimate_text_width("x^23", false), 16);
    assert_eq!(estimate_text_width("abc", true), 36);
    assert_eq!(estimate_text_width("x^", true), 24);
    assert_eq!(estimate_text_width("", false), 0);
}

#[test]
fn cursor_offset_on_plain_text() {
    assert_eq!(calculate_cursor_x("12", 2, false), (24, 0));
    assert_eq!(calculate_cursor_x("12", 1, false), (12, 0));
}

#[test]
fn cursor_in_an_exponent_is_raised() {
    assert_eq!(calculate_cursor_x("x^2", 3, false), (20, 8));
}

#[test]
fn cursor_after_a_caret_in_exponent_mode_is_raised() {
    assert_eq!(calculate_cursor_x("3^", 2, true), (24, 8));
}

#[test]
fn cursor_wraps_past_300() {
    let text = "1".repeat(26);
    assert_eq!(calculate_cursor_x(&text, 26, false), (0, 20));
}

#[test]
fn exponent_digits_are_drawn_small_and_raised() {
    let white = Color::from_888(255, 255, 255);
    let cmds = draw_string_with_exponents("x^2", Point { x: 10, y: 50 }, true, color_black(), white);
    assert_eq!(cmds.len(), 2);
    assert_eq!(text_of(&cmds[0]), Some(("x".to_string(), Point { x: 10, y: 50 }, true)));
    assert_eq!(text_of(&cmds[1]), Some(("2".to_string(), Point { x: 22, y: 42 }, false)));
}

#[test]
fn colours_are_packed_as_565() {
    assert_eq!(Color::from_888(255, 255, 255).rgb565, 0xffff);
    assert_eq!(Color::from_888(200, 200, 200).rgb565, 52825);
    assert_eq!(color_black().rgb565, 0);
}

#[test]
fn interface_draws_background_title_history_separator_input_and_cursor() {
    let history = vec![("2x+3x".to_string(), "5x".to_string())];
    let cmds = draw_interface("SYMBOLIC COMPUTE", &history, "1", 1, 0, false);
    // background, title, history input, 2 result characters, 320 separator
    // pixels, 1 input character, cursor
    assert_eq!(cmds.len(), 1 + 1 + 1 + 2 + 320 + 1 + 1);
    match &cmds[0] {
        DisplayCommand::PushRectUniform(r, c) => {
            assert_eq!((r.x, r.y, r.width, r.height), (0, 0, 320, 240));
            assert_eq!(c.rgb565, 0xffff);
        },
        _ => panic!("background expected first"),
    }
    assert_eq!(text_of(&cmds[1]), Some(("SYMBOLIC COMPUTE".to_string(), Point { x: 74, y: 10 }, true)));
    assert_eq!(text_of(&cmds[2]), Some(("2x+3x".to_string(), Point { x: 10, y: 40 }, false)));
    assert_eq!(text_of(&cmds[3]), Some(("5".to_string(), Point { x: 294, y: 40 }, false)));
    assert_eq!(text_of(&cmds[4]), Some(("x".to_string(), Point { x: 302, y: 40 }, false)));
    assert_eq!(text_of(&cmds[325]), Some(("1".to_string(), Point { x: 10, y: 210 }, true)));
    assert_eq!(text_of(&cmds[326]), Some(("|".to_string(), Point { x: 22, y: 210 }, true)));
}

#[test]
fn cursor_is_hidden_in_odd_blink_periods() {
    let history: Vec<(String, String)> = Vec::new();
    let cmds = draw_interface("T", &history, "", 0, 30, false);
    assert_eq!(cmds.len(), 1 + 1 + 320);
}

#[test]
fn only_the_last_eight_history_lines_are_drawn() {
    let history: Vec<(String, String)> = (0..10).map(|i| (format!("{}", i), "1".to_string())).collect();
    let cmds = draw_interface("T", &history, "", 0, 30, false);
    assert_eq!(cmds.len(), 1 + 1 + 8 * 2 + 320);
    assert_eq!(text_of(&cmds[2]), Some(("2".to_string(), Point { x: 10, y: 40 }, false)));
}
