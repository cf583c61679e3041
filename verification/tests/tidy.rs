use symbolic_compute::tidy::tidy_result;

#[test]
fn plus_minus_becomes_minus() {
    assert_eq!(tidy_result("3x + -2"), "3x - 2");
    assert_eq!(tidy_result("x + -y + -z"), "x - y - z");
}

#[test]
fn double_spaces_collapse_once_from_the_left() {
    assert_eq!(tidy_result("a  b"), "a b");
    assert_eq!(tidy_result("a    b"), "a  b");
    assert_eq!(tidy_result("a   b"), "a  b");
}

#[test]
fn replacement_then_collapse() {
    assert_eq!(tidy_result("+ - -"), "- -");
    assert_eq!(tidy_result("x +  -y"), "x + -y");
}

#[test]
fn ends_lose_their_whitespace() {
    assert_eq!(tidy_result("  a  "), "a");
    assert_eq!(tidy_result("\tx\n"), "x");
    assert_eq!(tidy_result("   "), "");
    assert_eq!(tidy_result(""), "");
}

#[test]
fn tidy_text_is_unchanged() {
    assert_eq!(tidy_result("2x^2 - 3y"), "2x^2 - 3y");
}
