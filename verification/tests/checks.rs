use symbolic_compute::eadk::{Key, KeyboardState};
use symbolic_compute::input::InputHandler;
use symbolic_compute::parsebeta::simplify_checked;
use symbolic_compute::polynomial::Polynomial;
use symbolic_compute::ui::{cursor_offset_checked, draw_interface, draw_interface_checked, text_width_checked};

fn exe_held() -> KeyboardState {
    KeyboardState::from_raw(1u64 << Key::Exe.index())
}

#[test]
fn checked_simplify_agrees_with_simplify() {
    assert_eq!(simplify_checked("(x+1)(x+1)").unwrap().as_str(), "x^2+2x+1");
    assert_eq!(simplify_checked("2^10").unwrap().as_str(), "1024");
}

#[test]
fn checked_simplify_refuses_overflow() {
    assert!(simplify_checked("99999999999999999999").is_none());
    assert!(simplify_checked("x^300").is_none());
    assert!(simplify_checked("10^19").is_none());
    assert!(simplify_checked("x^200*x^100").is_none());
}

#[test]
fn power_at_the_edge_of_i64_fits() {
    assert_eq!(simplify_checked("2^62").unwrap().as_str(), "4611686018427387904");
    assert_eq!(simplify_checked("0^0").unwrap().as_str(), "1");
}

#[test]
fn mul_fits_tells_exponent_overflow() {
    let a = Polynomial::from_monomial(1, Some('x'), 200);
    let b = Polynomial::from_monomial(1, Some('x'), 100);
    let c = Polynomial::from_monomial(1, Some('x'), 55);
    assert!(!a.mul_fits(&b));
    assert!(a.mul_fits(&c));
}

#[test]
fn exe_key_ready_checks_the_buffer() {
    let mut h = InputHandler::new();
    assert!(h.exe_key_ready(&exe_held()));
    h.input_buffer = "99999999999999999999".to_string();
    assert!(!h.exe_key_ready(&exe_held()));
    assert!(h.exe_key_ready(&KeyboardState::from_raw(0)));
    h.input_buffer = "2x".to_string();
    assert!(h.exe_key_ready(&exe_held()));
}

#[test]
fn checked_width_and_cursor() {
    assert_eq!(text_width_checked("x^23", true), Some(24));
    let long = "a".repeat(6000);
    assert_eq!(text_width_checked(&long, true), None);
    assert_eq!(text_width_checked(&long, false), Some(48000));
    assert_eq!(cursor_offset_checked("abc", 2, false), Some((24, 0)));
}

#[test]
fn checked_interface_matches_and_refuses_overflow() {
    let history = vec![("1+1".to_string(), "2".to_string())];
    let a = draw_interface_checked("T", &history, "x", 1, 0, false).unwrap();
    let b = draw_interface("T", &history, "x", 1, 0, false);
    assert_eq!(a.len(), b.len());
    let long = "a".repeat(6000);
    assert!(draw_interface_checked(&long, &history, "x", 1, 0, false).is_none());
}
