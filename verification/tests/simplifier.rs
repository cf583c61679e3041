use symbolic_compute::parsebeta::simplify;
use symbolic_compute::polynomial::Polynomial;

fn simplified(input: &str) -> String {
    simplify(input).unwrap().as_str().to_string()
}

#[test]
fn like_terms_are_gathered() {
    assert_eq!(simplified("2x+3x"), "5x");
}

#[test]
fn product_of_a_variable_by_itself_is_a_square() {
    assert_eq!(simplified("x*x"), "x^2");
}

#[test]
fn square_of_a_binomial_is_expanded() {
    assert_eq!(simplified("(x+1)(x+1)"), "x^2+2x+1");
}

#[test]
fn difference_of_equal_terms_is_empty() {
    assert_eq!(simplified("x-x"), "");
}

#[test]
fn whitespace_before_an_operator_ends_the_expression() {
    assert_eq!(simplified("x - x"), "x");
}

#[test]
fn number_to_a_power_is_evaluated() {
    assert_eq!(simplified("2^3"), "8");
}

#[test]
fn variable_with_exponent_is_kept() {
    assert_eq!(simplified("3y^4"), "3y^4");
}

#[test]
fn empty_input_reads_as_one() {
    assert_eq!(simplified(""), "1");
}

#[test]
fn leading_minus_subtracts_from_one() {
    assert_eq!(simplified("-x"), "1+-1x");
}

#[test]
fn negative_coefficient_is_written_with_its_sign() {
    assert_eq!(simplified("x-3y"), "x+-3y");
}

#[test]
fn sum_saturates_at_the_largest_integer() {
    assert_eq!(simplified("9223372036854775807+1"), "9223372036854775807");
}

#[test]
fn product_saturates_at_the_largest_integer() {
    assert_eq!(simplified("9223372036854775807*2"), "9223372036854775807");
}

#[test]
fn several_variables_in_one_term() {
    assert_eq!(simplified("2xy*3x"), "6x^2y");
}

#[test]
fn missing_closing_parenthesis_is_accepted() {
    assert_eq!(simplified("(x+1"), "x+1");
}

#[test]
fn output_is_cut_at_128_bytes() {
    let input = "1000000000000000000a+1000000000000000000b+1000000000000000000c+1000000000000000000d+1000000000000000000e+1000000000000000000f+1000000000000000000g";
    let out = simplified(input);
    assert_eq!(
        out,
        "1000000000000000000a+1000000000000000000b+1000000000000000000c+1000000000000000000d+1000000000000000000e+1000000000000000000f+g"
    );
}

#[test]
fn monomial_text() {
    let p = Polynomial::from_monomial(7, Some('z'), 3);
    assert_eq!(p.to_string().as_str(), "7z^3");
}

#[test]
fn sum_of_polynomials() {
    let a = Polynomial::from_monomial(2, Some('x'), 1);
    let b = Polynomial::from_monomial(-2, Some('x'), 1);
    let c = Polynomial::from_monomial(5, None, 1);
    assert_eq!(a.add(&b).to_string().as_str(), "");
    assert_eq!(a.add(&c).to_string().as_str(), "2x+5");
}

#[test]
fn product_of_polynomials() {
    let a = Polynomial::from_monomial(2, Some('x'), 1);
    let b = Polynomial::from_monomial(3, Some('y'), 2);
    assert_eq!(a.mul(&b).to_string().as_str(), "6xy^2");
}
