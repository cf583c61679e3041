use symbolic_compute::parser::{Expression, Parser};

fn show(e: &Expression) -> String {
    match e {
        Expression::Constant(c) => c.clone(),
        Expression::Variable(v) => v.clone(),
        Expression::Add(l, r) => format!("({} + {})", show(l), show(r)),
        Expression::Sub(l, r) => format!("({} - {})", show(l), show(r)),
        Expression::Mul(l, r) => format!("({} * {})", show(l), show(r)),
        Expression::Pow(l, r) => format!("({} ^ {})", show(l), show(r)),
    }
}

fn parsed(input: &str) -> Result<String, String> {
    Parser::new(input).parse().map(|e| show(&e))
}

#[test]
fn sum_and_juxtaposed_product() {
    assert_eq!(parsed("2x + y"), Ok("((2 * x) + y)".to_string()));
}

#[test]
fn operators_associate_to_the_left() {
    assert_eq!(parsed("a - b - c"), Ok("((a - b) - c)".to_string()));
    assert_eq!(parsed("x^2^3"), Ok("((x ^ 2) ^ 3)".to_string()));
}

#[test]
fn power_binds_tighter_than_product() {
    assert_eq!(parsed("3*x^2"), Ok("(3 * (x ^ 2))".to_string()));
}

#[test]
fn parentheses_group() {
    assert_eq!(parsed(" (a+b) * c "), Ok("((a + b) * c)".to_string()));
}

#[test]
fn numerals_are_kept_as_written() {
    assert_eq!(parsed("1.50"), Ok("1.50".to_string()));
    assert_eq!(parsed("7."), Ok("7.".to_string()));
}

#[test]
fn multi_letter_variables() {
    assert_eq!(parsed("xy"), Ok("xy".to_string()));
}

#[test]
fn second_dot_is_an_error() {
    assert_eq!(parsed("1..2"), Err("Invalid number format".to_string()));
}

#[test]
fn missing_factor_is_an_error() {
    assert_eq!(parsed("+"), Err("Expected factor".to_string()));
    assert_eq!(parsed(""), Err("Expected factor".to_string()));
    assert_eq!(parsed("("), Err("Expected factor".to_string()));
}

#[test]
fn missing_closing_parenthesis_is_an_error() {
    assert_eq!(parsed("(x"), Err("Expected ')'".to_string()));
    assert_eq!(parsed("(x]"), Err("Expected ')'".to_string()));
}

#[test]
fn trailing_characters_are_an_error() {
    assert_eq!(parsed("x)"), Err("Unexpected characters at end".to_string()));
}

#[test]
fn non_ascii_after_an_expression_is_unexpected() {
    let mut p = Parser::new("1 \u{b2}");
    assert_eq!(p.parse().map(|e| show(&e)), Err("Unexpected characters at end".to_string()));
    let mut q = Parser::new("x+2 \u{2192} y");
    assert_eq!(q.parse().map(|e| show(&e)), Err("Unexpected characters at end".to_string()));
    let mut r = Parser::new("1)\u{e9}");
    assert_eq!(r.parse().map(|e| show(&e)), Err("Unexpected characters at end".to_string()));
}

#[test]
fn non_ascii_whitespace_is_skipped_but_counts_in_bytes() {
    let mut p = Parser::new("x\u{3000}");
    assert_eq!(p.parse().map(|e| show(&e)), Err("Unexpected characters at end".to_string()));
    let mut q = Parser::new("1+\u{a0}");
    assert_eq!(q.parse().map(|e| show(&e)), Err("Expected factor".to_string()));
}

#[test]
fn non_ascii_where_a_factor_is_expected() {
    let mut p = Parser::new("1 + \u{b2}");
    assert_eq!(p.parse().map(|e| show(&e)), Err("Expected factor".to_string()));
    let mut q = Parser::new("(1 \u{b2}");
    assert_eq!(q.parse().map(|e| show(&e)), Err("Expected ')'".to_string()));
}

#[test]
fn names_and_numbers_past_the_ascii_beginning_are_not_taken() {
    assert!(Parser::new("\u{e9}").parse_checked().is_none());
    assert!(Parser::new("x\u{e9}").parse_checked().is_none());
    assert!(Parser::new("(\u{3000}1)").parse_checked().is_none());
    let mut r = Parser::new("2x");
    assert_eq!(r.parse_checked().map(|res| res.map(|e| show(&e))), Some(Ok("(2 * x)".to_string())));
}

#[test]
fn a_letter_after_a_number_is_taken_only_in_ascii() {
    for code in 0x80u32..0x110000 {
        if let Some(c) = char::from_u32(code) {
            let text = format!("1{}", c);
            let mut p = Parser::new(&text);
            assert_eq!(p.parse_checked().is_none(), c.is_alphabetic(), "U+{:04X}", code);
        }
    }
}
