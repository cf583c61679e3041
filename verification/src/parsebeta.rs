//! The polynomial simplifier: a parser from text to polynomials that
//! multiplies and adds as it reads, and the entry point that writes the
//! result back as text.

use vstd::prelude::*;
use vstd::arithmetic::power::pow;
use vstd::utf8::encode_utf8;

use crate::fixed::string_bytes;
use crate::evaluation::{
    all_distinct_vars, law_product_evaluates, law_sum_evaluates, lemma_product_distinct, merge_all_exact, poly_value,
    products_exact,
};
use crate::polynomial::{monomial_terms, mul_ok, poly_add, poly_mul, products, render, Polynomial, Term};

verus! {

/// An ASCII whitespace byte: space, tab, line feed, form feed, carriage return.
pub open spec fn is_space_byte(c: u8) -> bool {
    c == 32 || c == 9 || c == 10 || c == 12 || c == 13
}

/// An ASCII digit byte.
pub open spec fn is_digit_byte(c: u8) -> bool {
    48 <= c <= 57
}

/// An ASCII letter byte.
pub open spec fn is_letter_byte(c: u8) -> bool {
    (65 <= c <= 90) || (97 <= c <= 122)
}

/// The first position at or after `pos` that does not hold whitespace.
pub open spec fn skip_ws(b: Seq<u8>, pos: int) -> int
    decreases b.len() - pos,
{
    if 0 <= pos < b.len() && is_space_byte(b[pos]) {
        skip_ws(b, pos + 1)
    } else {
        pos
    }
}

/// Skipping whitespace moves forward and stays within the text.
pub proof fn lemma_skip_ws(b: Seq<u8>, pos: int)
    ensures
        skip_ws(b, pos) >= pos,
        0 <= pos <= b.len() ==> skip_ws(b, pos) <= b.len(),
    decreases b.len() - pos,
{
    if 0 <= pos < b.len() && is_space_byte(b[pos]) {
        lemma_skip_ws(b, pos + 1);
    }
}

/// Reading digits from `pos` into `val` (`val * 10 + digit` per digit);
/// `None` when the value passes `bound`.
pub open spec fn read_digits(b: Seq<u8>, pos: int, val: int, bound: int) -> Option<(int, int)>
    decreases b.len() - pos,
{
    if 0 <= pos < b.len() && is_digit_byte(b[pos]) {
        let nv = val * 10 + (b[pos] - 48);
        if nv > bound {
            None
        } else {
            read_digits(b, pos + 1, nv, bound)
        }
    } else {
        Some((val, pos))
    }
}

/// The polynomial 1.
pub open spec fn one() -> Seq<Term> {
    monomial_terms(1, None, 1)
}

/// A number at `pos`: digits, then optionally `^` and an exponent; the
/// number to that power. `None` where a value overflows.
pub open spec fn p_number(b: Seq<u8>, pos: int) -> Option<(Seq<Term>, int)> {
    match read_digits(b, pos, 0, i64::MAX as int) {
        None => None,
        Some((val, p1)) => {
            if 0 <= p1 < b.len() && b[p1] == 94 {
                match read_digits(b, p1 + 1, 0, 255) {
                    None => None,
                    Some((e, p2)) => {
                        let r = pow(val, e as nat);
                        if i64::MIN <= r <= i64::MAX {
                            Some((monomial_terms(r as i64, None, 1), p2))
                        } else {
                            None
                        }
                    },
                }
            } else {
                Some((monomial_terms(val as i64, None, 1), p1))
            }
        },
    }
}

/// A variable at `pos`: one letter, then optionally an exponent, given by
/// the byte 0xB2 (2), the byte 0xB3 (3), or `^` and digits.
pub open spec fn p_variable(b: Seq<u8>, pos: int) -> Option<(Seq<Term>, int)> {
    if 0 <= pos < b.len() {
        let var = b[pos] as char;
        let p1 = pos + 1;
        if p1 < b.len() {
            let n = b[p1];
            if n == 0xB2 {
                Some((monomial_terms(1, Some(var), 2), p1 + 1))
            } else if n == 0xB3 {
                Some((monomial_terms(1, Some(var), 3), p1 + 1))
            } else if n == 94 {
                match read_digits(b, p1 + 1, 0, 255) {
                    None => None,
                    Some((e, p2)) => Some((monomial_terms(1, Some(var), e as u8), p2)),
                }
            } else {
                Some((monomial_terms(1, Some(var), 1), p1))
            }
        } else {
            Some((monomial_terms(1, Some(var), 1), p1))
        }
    } else {
        Some((one(), pos))
    }
}

/// An expression at `pos`: a term, then `+` or `-` and further terms.
/// `None` where the reading overflows.
pub open spec fn p_expr(b: Seq<u8>, pos: int) -> Option<(Seq<Term>, int)>
    decreases b.len() - pos, 5int,
{
    if pos < 0 || pos > b.len() {
        None
    } else {
        let p = skip_ws(b, pos);
        proof {
            lemma_skip_ws(b, pos);
        }
        match p_term(b, p) {
            None => None,
            Some((t, p1)) => {
                if pos <= p1 <= b.len() {
                    p_expr_loop(b, p1, t)
                } else {
                    None
                }
            },
        }
    }
}

/// The rest of an expression at `pos`, with `acc` read so far. No
/// whitespace is skipped before the operator.
pub open spec fn p_expr_loop(b: Seq<u8>, pos: int, acc: Seq<Term>) -> Option<(Seq<Term>, int)>
    decreases b.len() - pos, 4int,
{
    if pos < 0 || pos > b.len() {
        None
    } else if pos < b.len() && (b[pos] == 43 || b[pos] == 45) {
        let p = skip_ws(b, pos + 1);
        proof {
            lemma_skip_ws(b, pos + 1);
        }
        match p_term(b, p) {
            None => None,
            Some((t, p1)) => {
                if pos < p1 <= b.len() {
                    if b[pos] == 43 {
                        p_expr_loop(b, p1, poly_add(acc, t))
                    } else if mul_ok(t, monomial_terms(-1i64, None, 1u8)) {
                        p_expr_loop(b, p1, poly_add(acc, poly_mul(t, monomial_terms(-1i64, None, 1u8))))
                    } else {
                        None
                    }
                } else {
                    None
                }
            },
        }
    } else {
        Some((acc, pos))
    }
}

/// A term at `pos`: a factor, then further factors after `*` or directly
/// juxtaposed.
pub open spec fn p_term(b: Seq<u8>, pos: int) -> Option<(Seq<Term>, int)>
    decreases b.len() - pos, 3int,
{
    if pos < 0 || pos > b.len() {
        None
    } else {
        let p = skip_ws(b, pos);
        proof {
            lemma_skip_ws(b, pos);
        }
        match p_factor(b, p) {
            None => None,
            Some((f, p1)) => {
                if pos <= p1 <= b.len() {
                    p_term_loop(b, p1, f)
                } else {
                    None
                }
            },
        }
    }
}

/// The rest of a term at `pos`, with `acc` read so far.
pub open spec fn p_term_loop(b: Seq<u8>, pos: int, acc: Seq<Term>) -> Option<(Seq<Term>, int)>
    decreases b.len() - pos, 2int,
{
    if pos < 0 || pos > b.len() {
        None
    } else if pos < b.len() && b[pos] == 42 {
        let p = skip_ws(b, pos + 1);
        proof {
            lemma_skip_ws(b, pos + 1);
        }
        match p_factor(b, p) {
            None => None,
            Some((f, p1)) => {
                if pos < p1 <= b.len() && mul_ok(acc, f) {
                    p_term_loop(b, p1, poly_mul(acc, f))
                } else {
                    None
                }
            },
        }
    } else if pos < b.len() && (is_digit_byte(b[pos]) || is_letter_byte(b[pos]) || b[pos] == 40) {
        match p_factor(b, pos) {
            None => None,
            Some((f, p1)) => {
                if pos < p1 <= b.len() && mul_ok(acc, f) {
                    p_term_loop(b, p1, poly_mul(acc, f))
                } else {
                    None
                }
            },
        }
    } else {
        Some((acc, pos))
    }
}

/// A factor at `pos`: a parenthesised expression (the closing parenthesis
/// may be missing), a number, a variable, or else the polynomial 1 with
/// nothing read.
pub open spec fn p_factor(b: Seq<u8>, pos: int) -> Option<(Seq<Term>, int)>
    decreases b.len() - pos, 1int,
{
    if pos < 0 || pos > b.len() {
        None
    } else {
        let p = skip_ws(b, pos);
        proof {
            lemma_skip_ws(b, pos);
        }
        if p < b.len() {
            let c = b[p];
            if c == 40 {
                match p_expr(b, p + 1) {
                    None => None,
                    Some((e, p1)) => {
                        let p2 = skip_ws(b, p1);
                        if 0 <= p2 < b.len() && b[p2] == 41 {
                            Some((e, p2 + 1))
                        } else {
                            Some((e, p2))
                        }
                    },
                }
            } else if is_digit_byte(c) {
                p_number(b, p)
            } else if is_letter_byte(c) {
                p_variable(b, p)
            } else {
                Some((one(), p))
            }
        } else {
            Some((one(), p))
        }
    }
}

/// The value of the decimal digits of `b` in `[lo, hi)`.
pub open spec fn digits_value(b: Seq<u8>, lo: int, hi: int) -> int
    decreases hi - lo,
{
    if hi <= lo {
        0
    } else {
        digits_value(b, lo, hi - 1) * 10 + (b[hi - 1] - 48)
    }
}

/// The end of the run of digits from `i`.
pub open spec fn digits_end(b: Seq<u8>, i: int) -> int
    decreases b.len() - i,
{
    if 0 <= i < b.len() && is_digit_byte(b[i]) {
        digits_end(b, i + 1)
    } else {
        i
    }
}

/// Reading digits from `i`, having read those from `lo`, ends at the end of
/// the run of digits with the value of all the digits read.
proof fn lemma_read_digits_value(b: Seq<u8>, lo: int, i: int, bound: int)
    requires
        0 <= lo <= i,
        0 <= digits_value(b, lo, i) <= bound,
        read_digits(b, i, digits_value(b, lo, i), bound) is Some,
    ensures
        read_digits(b, i, digits_value(b, lo, i), bound)
            == Some((digits_value(b, lo, digits_end(b, i)), digits_end(b, i))),
        0 <= digits_value(b, lo, digits_end(b, i)) <= bound,
    decreases b.len() - i,
{
    if 0 <= i < b.len() && is_digit_byte(b[i]) {
        assert(digits_value(b, lo, i + 1) == digits_value(b, lo, i) * 10 + (b[i] - 48));
        lemma_read_digits_value(b, lo, i + 1, bound);
    }
}

/// The value of the polynomial of one term with no variable is its
/// coefficient; with one variable `v` to the power `e`, it is `env(v)` to
/// that power.
proof fn lemma_monomial_value(c: i64, var: Option<char>, e: u8, env: spec_fn(char) -> int)
    ensures
        var is None ==> poly_value(monomial_terms(c, var, e), env) == c,
        var matches Some(v) ==> poly_value(monomial_terms(c, var, e), env) == c * pow(env(v), e as nat),
{
    let ts = monomial_terms(c, var, e);
    assert(ts.drop_last() =~= Seq::<Term>::empty());
    assert(poly_value(Seq::<Term>::empty(), env) == 0);
    assert(crate::evaluation::powers_value(Seq::<(char, u8)>::empty(), env) == 1);
    match var {
        Some(v) => {
            let p = seq![(v, e)];
            assert(p.drop_last() =~= Seq::<(char, u8)>::empty());
            assert(p.last() == (v, e));
            assert(crate::evaluation::powers_value(p, env) == pow(env(v), e as nat));
            assert(ts.last() == (c, p));
            assert(poly_value(ts, env) == c * crate::evaluation::powers_value(p, env));
        },
        None => {
            assert(ts.last() == (c, Seq::<(char, u8)>::empty()));
            assert(poly_value(ts, env) == c * 1);
        },
    }
}

/// The end of the run of digits lies at or after its start.
proof fn lemma_digits_end(b: Seq<u8>, i: int)
    ensures
        digits_end(b, i) >= i,
    decreases b.len() - i,
{
    if 0 <= i < b.len() && is_digit_byte(b[i]) {
        lemma_digits_end(b, i + 1);
    }
}

/// A number reads as its value: the decimal value of its digits, or, with
/// `^` and an exponent after them, that value to the power of the
/// exponent's digits.
pub proof fn law_number_value(b: Seq<u8>, pos: int, ts: Seq<Term>, p: int, env: spec_fn(char) -> int)
    requires
        0 <= pos <= b.len(),
        p_number(b, pos) == Some((ts, p)),
    ensures
        ({
            let q = digits_end(b, pos);
            &&& (q < b.len() && b[q] == 94) ==> poly_value(ts, env)
                == pow(digits_value(b, pos, q), digits_value(b, q + 1, p) as nat)
            &&& !(q < b.len() && b[q] == 94) ==> p == q && poly_value(ts, env) == digits_value(b, pos, q)
        }),
{
    assert(digits_value(b, pos, pos) == 0);
    lemma_read_digits_value(b, pos, pos, i64::MAX as int);
    lemma_digits_end(b, pos);
    let q = digits_end(b, pos);
    let val = digits_value(b, pos, q);
    if q < b.len() && b[q] == 94 {
        assert(digits_value(b, q + 1, q + 1) == 0);
        lemma_read_digits_value(b, q + 1, q + 1, 255);
        let e = digits_value(b, q + 1, digits_end(b, q + 1));
        lemma_monomial_value(pow(val, e as nat) as i64, None, 1, env);
    } else {
        lemma_monomial_value(val as i64, None, 1, env);
    }
}

/// A variable reads as the value of its letter to its exponent: 2 after
/// the byte 0xB2, 3 after the byte 0xB3, the digits after `^`, else 1.
pub proof fn law_variable_value(b: Seq<u8>, pos: int, ts: Seq<Term>, p: int, env: spec_fn(char) -> int)
    requires
        0 <= pos < b.len(),
        p_variable(b, pos) == Some((ts, p)),
    ensures
        ({
            let x = env(b[pos] as char);
            let n: int = if pos + 1 < b.len() { b[pos + 1] as int } else { -1 };
            &&& n == 0xB2 ==> poly_value(ts, env) == x * x
            &&& n == 0xB3 ==> poly_value(ts, env) == x * x * x
            &&& n == 94 ==> poly_value(ts, env) == pow(x, digits_value(b, pos + 2, p) as nat)
            &&& (n != 0xB2 && n != 0xB3 && n != 94) ==> poly_value(ts, env) == x && p == pos + 1
        }),
{
    let v = b[pos] as char;
    let x = env(v);
    if pos + 1 < b.len() && b[pos + 1] == 94 {
        assert(digits_value(b, pos + 2, pos + 2) == 0);
        lemma_read_digits_value(b, pos + 2, pos + 2, 255);
        let e = digits_value(b, pos + 2, digits_end(b, pos + 2));
        lemma_monomial_value(1, Some(v), e as u8, env);
    } else if pos + 1 < b.len() && b[pos + 1] == 0xB2 {
        lemma_monomial_value(1, Some(v), 2, env);
        assert(pow(x, 2) == x * x) by {
            reveal_with_fuel(pow, 3);
        }
    } else if pos + 1 < b.len() && b[pos + 1] == 0xB3 {
        lemma_monomial_value(1, Some(v), 3, env);
        assert(pow(x, 3) == x * (x * x)) by {
            reveal_with_fuel(pow, 4);
        }
        assert(x * (x * x) == x * x * x) by (nonlinear_arith);
    } else {
        lemma_monomial_value(1, Some(v), 1, env);
        assert(pow(x, 1) == x) by {
            reveal_with_fuel(pow, 2);
        }
    }
}

/// Addition reads as addition: when a `+` follows what was read so far
/// (`acc`) and the term `t` after it ends the expression, the polynomial
/// read has, at every assignment, the value of `acc` plus that of `t`,
/// provided no coefficient sum leaves `i64` and no term finds the list full.
pub proof fn law_addition_evaluates(
    b: Seq<u8>,
    pos: int,
    acc: Seq<Term>,
    t: Seq<Term>,
    p1: int,
    env: spec_fn(char) -> int,
)
    requires
        0 <= pos < b.len(),
        b[pos] == 43,
        p_term(b, skip_ws(b, pos + 1)) == Some((t, p1)),
        pos < p1 <= b.len(),
        p1 == b.len() || (b[p1] != 43 && b[p1] != 45),
        all_distinct_vars(acc),
        all_distinct_vars(t),
        merge_all_exact(acc, t, t.len() as int),
    ensures
        p_expr_loop(b, pos, acc) matches Some((r, q)) && q == p1
            && poly_value(r, env) == poly_value(acc, env) + poly_value(t, env),
{
    let r = poly_add(acc, t);
    lemma_skip_ws(b, pos + 1);
    assert(p_expr_loop(b, p1, r) == Some((r, p1)));
    assert(p_expr_loop(b, pos, acc) == p_expr_loop(b, p1, r));
    law_sum_evaluates(acc, t, env);
}

/// Multiplication reads as multiplication: when a `*` follows what was
/// read so far (`acc`) and the factor `f` after it ends the term, the
/// polynomial read has, at every assignment, the value of `acc` times that
/// of `f`, provided the products are exact and gathering them overflows
/// nothing.
pub proof fn law_multiplication_evaluates(
    b: Seq<u8>,
    pos: int,
    acc: Seq<Term>,
    f: Seq<Term>,
    p1: int,
    env: spec_fn(char) -> int,
)
    requires
        0 <= pos < b.len(),
        b[pos] == 42,
        p_factor(b, skip_ws(b, pos + 1)) == Some((f, p1)),
        pos < p1 <= b.len(),
        p1 == b.len() || !(b[p1] == 42 || is_digit_byte(b[p1]) || is_letter_byte(b[p1]) || b[p1] == 40),
        all_distinct_vars(acc),
        mul_ok(acc, f),
        products_exact(acc, f),
        acc.len() * f.len() <= 16,
        merge_all_exact(
            Seq::empty(),
            products(acc, f, acc.len() as int),
            products(acc, f, acc.len() as int).len() as int,
        ),
    ensures
        p_term_loop(b, pos, acc) matches Some((r, q)) && q == p1
            && poly_value(r, env) == poly_value(acc, env) * poly_value(f, env),
{
    let r = poly_mul(acc, f);
    lemma_skip_ws(b, pos + 1);
    assert(p_term_loop(b, p1, r) == Some((r, p1)));
    assert(p_term_loop(b, pos, acc) == p_term_loop(b, p1, r));
    law_product_evaluates(acc, f, env);
}

/// Subtraction reads as subtraction: when a `-` follows what was read so far
/// (`acc`) and the term `t` after it ends the expression, the polynomial
/// read has, at every assignment of integers to the variables, the value of
/// `acc` minus the value of the whole of `t`, provided no coefficient leaves
/// `i64` and no term finds the list full on the way.
pub proof fn law_subtraction_evaluates(
    b: Seq<u8>,
    pos: int,
    acc: Seq<Term>,
    t: Seq<Term>,
    p1: int,
    env: spec_fn(char) -> int,
)
    requires
        0 <= pos < b.len(),
        b[pos] == 45,
        p_term(b, skip_ws(b, pos + 1)) == Some((t, p1)),
        pos < p1 <= b.len(),
        p1 == b.len() || (b[p1] != 43 && b[p1] != 45),
        all_distinct_vars(acc),
        all_distinct_vars(t),
        mul_ok(t, monomial_terms(-1i64, None, 1u8)),
        products_exact(t, monomial_terms(-1i64, None, 1u8)),
        t.len() <= 16,
        merge_all_exact(
            Seq::empty(),
            products(t, monomial_terms(-1i64, None, 1u8), t.len() as int),
            products(t, monomial_terms(-1i64, None, 1u8), t.len() as int).len() as int,
        ),
        merge_all_exact(
            acc,
            poly_mul(t, monomial_terms(-1i64, None, 1u8)),
            poly_mul(t, monomial_terms(-1i64, None, 1u8)).len() as int,
        ),
    ensures
        p_expr_loop(b, pos, acc) matches Some((r, q)) && q == p1
            && poly_value(r, env) == poly_value(acc, env) - poly_value(t, env),
{
    let m1 = monomial_terms(-1i64, None, 1u8);
    let neg = poly_mul(t, m1);
    let r = poly_add(acc, neg);
    lemma_skip_ws(b, pos + 1);
    assert(p_expr_loop(b, p1, r) == Some((r, p1)));
    assert(p_expr_loop(b, pos, acc) == p_expr_loop(b, p1, r));
    assert(m1.len() == 1);
    assert(t.len() * m1.len() <= 16) by (nonlinear_arith)
        requires
            m1.len() == 1,
            t.len() <= 16;
    law_product_evaluates(t, m1, env);
    lemma_product_distinct(t, m1);
    law_sum_evaluates(acc, neg, env);
    assert(m1.drop_last() =~= Seq::<Term>::empty());
    assert(m1.last() == (-1i64, Seq::<(char, u8)>::empty()));
    assert(crate::evaluation::powers_value(Seq::<(char, u8)>::empty(), env) == 1);
    assert(poly_value(Seq::<Term>::empty(), env) == 0);
    assert(crate::evaluation::term_value(m1.last(), env) == -1);
    assert(poly_value(m1, env) == -1);
    let vt = poly_value(t, env);
    assert(vt * -1 == -vt) by (nonlinear_arith);
}

/// The polynomial that the text with bytes `b` reads as, if reading it does
/// not overflow.
pub open spec fn spec_simplify(b: Seq<u8>) -> Option<Seq<Term>> {
    match p_expr(b, 0) {
        Some((t, _)) => Some(t),
        None => None,
    }
}


/// `v` to the power `e` when it fits in `i64` (as `i64::pow` computes it
/// without overflow), else `None`.
fn checked_pow(v: i64, e: u8) -> (r: Option<i64>)
    requires
        v >= 0,
    ensures
        r == (if i64::MIN <= pow(v as int, e as nat) <= i64::MAX { Some(pow(v as int, e as nat) as i64) } else { None::<i64> }),
{
    reveal(pow);
    let mut acc: i64 = 1;
    let mut k: u8 = 0;
    while k < e
        invariant
            v >= 0,
            k <= e,
            acc as int == pow(v as int, k as nat),
            0 <= acc,
        decreases e - k,
    {
        proof {
            assert(0 <= (acc as int) * (v as int) <= (i64::MAX as int) * (i64::MAX as int)) by (nonlinear_arith)
                requires
                    0 <= acc <= i64::MAX,
                    0 <= v <= i64::MAX;
        }
        let next: i128 = acc as i128 * v as i128;
        proof {
            reveal(pow);
            assert(pow(v as int, (k + 1) as nat) == v * pow(v as int, k as nat));
        }
        if next > i64::MAX as i128 {
            proof {
                if v == 0 {
                    assert((acc as int) * (v as int) == 0) by (nonlinear_arith)
                        requires
                            v == 0;
                }
                assert(v > 0);
                vstd::arithmetic::power::lemma_pow_increases(v as nat, (k + 1) as nat, e as nat);
                assert((acc as int) * (v as int) == (v as int) * (acc as int)) by (nonlinear_arith);
            }
            return None;
        }
        proof {
            assert((acc as int) * (v as int) == (v as int) * (acc as int)) by (nonlinear_arith);
        }
        acc = next as i64;
        k = k + 1;
    }
    Some(acc)
}

/// A reader over the bytes of the text.
struct Parser<'a> {
    input: &'a [u8],
    pos: usize,
}

impl<'a> Parser<'a> {
    /// A reader at the start of `s`.
    fn new(s: &'a str) -> (r: Parser<'a>)
        ensures
            r.input@ == encode_utf8(s@),
            r.pos == 0,
    {
        Parser { input: s.as_bytes(), pos: 0 }
    }

    /// The byte at the reading position, if any.
    fn peek(&self) -> (r: Option<u8>)
        ensures
            r == (if self.pos < self.input@.len() { Some(self.input@[self.pos as int]) } else { None }),
            r is Some ==> self.pos < self.input.len(),
    {
        if self.pos < self.input.len() {
            Some(self.input[self.pos])
        } else {
            None
        }
    }

    /// The byte at the reading position, which is then passed.
    fn eat(&mut self) -> (r: Option<u8>)
        requires
            old(self).pos <= old(self).input@.len(),
        ensures
            final(self).input == old(self).input,
            r == (if old(self).pos < old(self).input@.len() { Some(old(self).input@[old(self).pos as int]) } else { None }),
            final(self).pos == (if r is Some { old(self).pos + 1 } else { old(self).pos as int }),
    {
        match self.peek() {
            Some(c) => {
                self.pos = self.pos + 1;
                Some(c)
            },
            None => None,
        }
    }

    /// Pass whitespace.
    fn skip_whitespace(&mut self)
        requires
            old(self).pos <= old(self).input@.len(),
        ensures
            final(self).input == old(self).input,
            final(self).pos == skip_ws(old(self).input@, old(self).pos as int),
    {
        while self.pos < self.input.len() && is_space(self.input[self.pos])
            invariant
                self.input == old(self).input,
                old(self).pos <= self.pos <= self.input@.len(),
                skip_ws(self.input@, self.pos as int) == skip_ws(self.input@, old(self).pos as int),
            decreases self.input@.len() - self.pos,
        {
            self.pos = self.pos + 1;
        }
    }

    /// Digits at the reading position as a value of `i64`; `None` when it
    /// passes `i64::MAX`.
    fn read_digits_i64(&mut self) -> (r: Option<i64>)
        requires
            old(self).pos <= old(self).input@.len(),
        ensures
            final(self).input == old(self).input,
            old(self).pos <= final(self).pos <= final(self).input@.len(),
            match r {
                Some(v) => v >= 0 && read_digits(old(self).input@, old(self).pos as int, 0, i64::MAX as int)
                    == Some((v as int, final(self).pos as int)),
                None => read_digits(old(self).input@, old(self).pos as int, 0, i64::MAX as int) is None,
            },
    {
        let mut val: i64 = 0;
        while self.pos < self.input.len() && is_digit(self.input[self.pos])
            invariant
                self.input == old(self).input,
                old(self).pos <= self.pos <= self.input@.len(),
                0 <= val,
                read_digits(self.input@, self.pos as int, val as int, i64::MAX as int)
                    == read_digits(self.input@, old(self).pos as int, 0, i64::MAX as int),
            decreases self.input@.len() - self.pos,
        {
            let d = self.input[self.pos] - 48;
            let next: i128 = val as i128 * 10 + d as i128;
            if next > i64::MAX as i128 {
                return None;
            }
            val = next as i64;
            self.pos = self.pos + 1;
        }
        Some(val)
    }

    /// Digits at the reading position as an exponent; `None` when it passes
    /// 255.
    fn read_digits_u8(&mut self) -> (r: Option<u8>)
        requires
            old(self).pos <= old(self).input@.len(),
        ensures
            final(self).input == old(self).input,
            old(self).pos <= final(self).pos <= final(self).input@.len(),
            match r {
                Some(v) => read_digits(old(self).input@, old(self).pos as int, 0, 255)
                    == Some((v as int, final(self).pos as int)),
                None => read_digits(old(self).input@, old(self).pos as int, 0, 255) is None,
            },
    {
        let mut exp: u8 = 0;
        while self.pos < self.input.len() && is_digit(self.input[self.pos])
            invariant
                self.input == old(self).input,
                old(self).pos <= self.pos <= self.input@.len(),
                read_digits(self.input@, self.pos as int, exp as int, 255)
                    == read_digits(self.input@, old(self).pos as int, 0, 255),
            decreases self.input@.len() - self.pos,
        {
            let d = self.input[self.pos] - 48;
            let next: u16 = exp as u16 * 10 + d as u16;
            if next > 255 {
                return None;
            }
            exp = next as u8;
            self.pos = self.pos + 1;
        }
        Some(exp)
    }

    /// A number: digits, then optionally `^` and an exponent; `None` where a
    /// value overflows.
    fn parse_number(&mut self) -> (r: Option<Polynomial>)
        requires
            old(self).pos <= old(self).input@.len(),
        ensures
            final(self).input == old(self).input,
            old(self).pos <= final(self).pos <= final(self).input@.len(),
            match r {
                Some(p) => p_number(old(self).input@, old(self).pos as int) == Some((p@, final(self).pos as int)),
                None => p_number(old(self).input@, old(self).pos as int) is None,
            },
    {
        let val = match self.read_digits_i64() {
            Some(v) => v,
            None => return None,
        };
        match self.peek() {
            Some(c) => {
                if c == 94 {
                    self.pos = self.pos + 1;
                    let exp = match self.read_digits_u8() {
                        Some(e) => e,
                        None => return None,
                    };
                    let result = match checked_pow(val, exp) {
                        Some(x) => x,
                        None => return None,
                    };
                    return Some(Polynomial::from_monomial(result, None, 1));
                }
            },
            None => {},
        }
        Some(Polynomial::from_monomial(val, None, 1))
    }

    /// A variable: one letter, then optionally an exponent; `None` where the
    /// exponent passes 255.
    fn parse_variable(&mut self) -> (r: Option<Polynomial>)
        requires
            old(self).pos <= old(self).input@.len(),
        ensures
            final(self).input == old(self).input,
            old(self).pos <= final(self).pos <= final(self).input@.len(),
            match r {
                Some(p) => p_variable(old(self).input@, old(self).pos as int) == Some((p@, final(self).pos as int)),
                None => p_variable(old(self).input@, old(self).pos as int) is None,
            },
    {
        match self.eat() {
            Some(c) => {
                let var = c as char;
                let mut exp: u8 = 1;
                match self.peek() {
                    Some(next_c) => {
                        if next_c == 0xB2 {
                            self.pos = self.pos + 1;
                            exp = 2;
                        } else if next_c == 0xB3 {
                            self.pos = self.pos + 1;
                            exp = 3;
                        } else if next_c == 94 {
                            self.pos = self.pos + 1;
                            exp = match self.read_digits_u8() {
                                Some(e) => e,
                                None => return None,
                            };
                        } else {
                            exp = 1;
                        }
                    },
                    None => {},
                }
                Some(Polynomial::from_monomial(1, Some(var), exp))
            },
            None => Some(Polynomial::from_monomial(1, None, 1)),
        }
    }
}

impl<'a> Parser<'a> {
    /// An expression: terms joined by `+` and `-`; a subtracted term is
    /// multiplied by -1 and added. `None` where the reading overflows.
    fn parse_expr(&mut self) -> (r: Option<Polynomial>)
        requires
            old(self).pos <= old(self).input@.len(),
        ensures
            final(self).input == old(self).input,
            old(self).pos <= final(self).pos <= final(self).input@.len(),
            match r {
                Some(p) => p_expr(old(self).input@, old(self).pos as int) == Some((p@, final(self).pos as int)),
                None => p_expr(old(self).input@, old(self).pos as int) is None,
            },
        decreases old(self).input@.len() - old(self).pos, 5int,
    {
        let ghost b = self.input@;
        let ghost start = self.pos;
        proof {
            lemma_skip_ws(b, start as int);
        }
        self.skip_whitespace();
        let mut result = match self.parse_term() {
            Some(t) => t,
            None => return None,
        };
        loop
            invariant
                self.input == old(self).input,
                b == self.input@,
                start == old(self).pos,
                start <= self.pos <= self.input@.len(),
                p_expr_loop(b, self.pos as int, result@) == p_expr(b, start as int),
            ensures
                self.input == old(self).input,
                start <= self.pos <= self.input@.len(),
                p_expr(b, start as int) == Some((result@, self.pos as int)),
            decreases self.input@.len() - self.pos,
        {
            match self.peek() {
                Some(c) => {
                    if c == 43 {
                        self.eat();
                        proof {
                            lemma_skip_ws(b, self.pos as int);
                        }
                        self.skip_whitespace();
                        let term = match self.parse_term() {
                            Some(t) => t,
                            None => return None,
                        };
                        result = result.add(&term);
                    } else if c == 45 {
                        self.eat();
                        proof {
                            lemma_skip_ws(b, self.pos as int);
                        }
                        self.skip_whitespace();
                        let term = match self.parse_term() {
                            Some(t) => t,
                            None => return None,
                        };
                        let minus_one = Polynomial::from_monomial(-1, None, 1);
                        if !term.mul_fits(&minus_one) {
                            return None;
                        }
                        let neg_term = term.mul(&minus_one);
                        result = result.add(&neg_term);
                    } else {
                        break;
                    }
                },
                None => {
                    break;
                },
            }
        }
        Some(result)
    }

    /// A term: factors joined by `*` or written side by side. `None` where
    /// the reading overflows.
    fn parse_term(&mut self) -> (r: Option<Polynomial>)
        requires
            old(self).pos <= old(self).input@.len(),
        ensures
            final(self).input == old(self).input,
            old(self).pos <= final(self).pos <= final(self).input@.len(),
            match r {
                Some(p) => p_term(old(self).input@, old(self).pos as int) == Some((p@, final(self).pos as int)),
                None => p_term(old(self).input@, old(self).pos as int) is None,
            },
        decreases old(self).input@.len() - old(self).pos, 3int,
    {
        let ghost b = self.input@;
        let ghost start = self.pos;
        proof {
            lemma_skip_ws(b, start as int);
        }
        self.skip_whitespace();
        let mut result = match self.parse_factor() {
            Some(f) => f,
            None => return None,
        };
        loop
            invariant
                self.input == old(self).input,
                b == self.input@,
                start == old(self).pos,
                start <= self.pos <= self.input@.len(),
                p_term_loop(b, self.pos as int, result@) == p_term(b, start as int),
            ensures
                self.input == old(self).input,
                start <= self.pos <= self.input@.len(),
                p_term(b, start as int) == Some((result@, self.pos as int)),
            decreases self.input@.len() - self.pos,
        {
            match self.peek() {
                Some(c) => {
                    if c == 42 {
                        self.eat();
                        proof {
                            lemma_skip_ws(b, self.pos as int);
                        }
                        self.skip_whitespace();
                        let factor = match self.parse_factor() {
                            Some(f) => f,
                            None => return None,
                        };
                        if !result.mul_fits(&factor) {
                            return None;
                        }
                        result = result.mul(&factor);
                    } else if is_digit(c) || is_letter(c) || c == 40 {
                        let before = self.pos;
                        let factor = match self.parse_factor() {
                            Some(f) => f,
                            None => return None,
                        };
                        if self.pos == before || !result.mul_fits(&factor) {
                            return None;
                        }
                        result = result.mul(&factor);
                    } else {
                        break;
                    }
                },
                None => {
                    break;
                },
            }
        }
        Some(result)
    }

    /// A factor: a parenthesised expression, a number, a variable, or else
    /// the polynomial 1 with nothing read. `None` where the reading
    /// overflows.
    fn parse_factor(&mut self) -> (r: Option<Polynomial>)
        requires
            old(self).pos <= old(self).input@.len(),
        ensures
            final(self).input == old(self).input,
            old(self).pos <= final(self).pos <= final(self).input@.len(),
            match r {
                Some(p) => p_factor(old(self).input@, old(self).pos as int) == Some((p@, final(self).pos as int)),
                None => p_factor(old(self).input@, old(self).pos as int) is None,
            },
        decreases old(self).input@.len() - old(self).pos, 1int,
    {
        let ghost b = self.input@;
        proof {
            lemma_skip_ws(b, self.pos as int);
        }
        self.skip_whitespace();
        match self.peek() {
            Some(c) => {
                if c == 40 {
                    self.eat();
                    let result = match self.parse_expr() {
                        Some(e) => e,
                        None => return None,
                    };
                    proof {
                        lemma_skip_ws(b, self.pos as int);
                    }
                    self.skip_whitespace();
                    match self.peek() {
                        Some(d) => {
                            if d == 41 {
                                self.eat();
                            }
                        },
                        None => {},
                    }
                    Some(result)
                } else if is_digit(c) {
                    self.parse_number()
                } else if is_letter(c) {
                    self.parse_variable()
                } else {
                    Some(Polynomial::from_monomial(1, None, 1))
                }
            },
            None => Some(Polynomial::from_monomial(1, None, 1)),
        }
    }
}

/// Read the whole polynomial that `s` starts with; `None` where the reading
/// overflows.
fn parse_expression(s: &str) -> (r: Option<Polynomial>)
    ensures
        match r {
            Some(p) => spec_simplify(encode_utf8(s@)) == Some(p@),
            None => spec_simplify(encode_utf8(s@)) is None,
        },
{
    let mut parser = Parser::new(s);
    parser.parse_expr()
}

/// Simplify the polynomial that `input` starts with and write it back as
/// text: products expanded, like terms gathered, terms of coefficient zero
/// dropped; at most 16 terms and 128 bytes are kept. Always `Ok`.
pub fn simplify(input: &str) -> (r: Result<heapless::String<128>, &'static str>)
    requires
        spec_simplify(encode_utf8(input@)) is Some,
    ensures
        r matches Ok(s) && string_bytes(s) == render(spec_simplify(encode_utf8(input@)).unwrap()),
{
    let poly = parse_expression(input).unwrap();
    Ok(poly.to_string())
}

/// What [`simplify`] gives, or `None` on the inputs that it does not take:
/// those on which reading overflows (a number past `i64`, an exponent past
/// 255, a power or an exponent sum out of range).
pub fn simplify_checked(input: &str) -> (r: Option<heapless::String<128>>)
    ensures
        r is Some <==> spec_simplify(encode_utf8(input@)) is Some,
        r matches Some(s) ==> string_bytes(s) == render(spec_simplify(encode_utf8(input@)).unwrap()),
{
    match parse_expression(input) {
        Some(poly) => Some(poly.to_string()),
        None => None,
    }
}


/// `c.is_ascii_whitespace()` on a byte.
fn is_space(c: u8) -> (r: bool)
    ensures
        r == is_space_byte(c),
{
    c == 32 || c == 9 || c == 10 || c == 12 || c == 13
}

/// `c.is_ascii_digit()` on a byte.
fn is_digit(c: u8) -> (r: bool)
    ensures
        r == is_digit_byte(c),
{
    48 <= c && c <= 57
}

/// `c.is_ascii_alphabetic()` on a byte.
fn is_letter(c: u8) -> (r: bool)
    ensures
        r == is_letter_byte(c),
{
    (65 <= c && c <= 90) || (97 <= c && c <= 122)
}

} // verus!
