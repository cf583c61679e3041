//! A recursive-descent parser of arithmetic expressions over numbers and
//! variables with `+`, `-`, `*` (or juxtaposition) and `^`. Numbers are kept
//! as the numerals that were written.

use vstd::prelude::*;

use crate::text::{byte_length, char_at, char_is_digit, char_opt, is_digit};

verus! {

/// An expression as read: numbers keep the numeral that was written.
#[derive(Debug)]
pub enum Expression {
    Constant(String),
    Variable(String),
    Add(Box<Expression>, Box<Expression>),
    Sub(Box<Expression>, Box<Expression>),
    Mul(Box<Expression>, Box<Expression>),
    Pow(Box<Expression>, Box<Expression>),
}

/// The mathematical value of an [`Expression`].
pub enum ExprView {
    Constant(Seq<char>),
    Variable(Seq<char>),
    Add(Box<ExprView>, Box<ExprView>),
    Sub(Box<ExprView>, Box<ExprView>),
    Mul(Box<ExprView>, Box<ExprView>),
    Pow(Box<ExprView>, Box<ExprView>),
}

/// The mathematical value of an expression.
pub open spec fn expr_view(e: Expression) -> ExprView
    decreases e,
{
    match e {
        Expression::Constant(c) => ExprView::Constant(c@),
        Expression::Variable(v) => ExprView::Variable(v@),
        Expression::Add(l, r) => ExprView::Add(Box::new(expr_view(*l)), Box::new(expr_view(*r))),
        Expression::Sub(l, r) => ExprView::Sub(Box::new(expr_view(*l)), Box::new(expr_view(*r))),
        Expression::Mul(l, r) => ExprView::Mul(Box::new(expr_view(*l)), Box::new(expr_view(*r))),
        Expression::Pow(l, r) => ExprView::Pow(Box::new(expr_view(*l)), Box::new(expr_view(*r))),
    }
}

/// Whether `char::is_alphabetic` holds of `c`: the Unicode Alphabetic
/// property.
pub uninterp spec fn alphabetic(c: char) -> bool;

/// Whether `char::is_whitespace` holds of `c`: the Unicode White_Space
/// property, which holds of tab, line feed, vertical tab, form feed,
/// carriage return, space, U+0085, U+00A0, U+1680, U+2000 to U+200A,
/// U+2028, U+2029, U+202F, U+205F and U+3000.
pub open spec fn whitespace(c: char) -> bool {
    let n = c as u32;
    ||| 0x09 <= n <= 0x0d
    ||| n == 0x20
    ||| n == 0x85
    ||| n == 0xa0
    ||| n == 0x1680
    ||| 0x2000 <= n <= 0x200a
    ||| n == 0x2028
    ||| n == 0x2029
    ||| n == 0x202f
    ||| n == 0x205f
    ||| n == 0x3000
}

/// An ASCII letter.
pub open spec fn is_ascii_letter(c: char) -> bool {
    ('a' <= c && c <= 'z') || ('A' <= c && c <= 'Z')
}

/// An ASCII whitespace character of the Unicode White_Space property: tab,
/// line feed, vertical tab, form feed, carriage return, space.
pub open spec fn is_ascii_space(c: char) -> bool {
    c == ' ' || ('\t' <= c && c <= '\r')
}

/// `char::is_alphabetic`; among ASCII characters it holds of the letters.
#[verifier::external_body]
fn char_is_alphabetic(c: char) -> (r: bool)
    ensures
        r == alphabetic(c),
        (c as u32) < 128 ==> (r <==> is_ascii_letter(c)),
{
    c.is_alphabetic()
}

/// `char::is_whitespace`; among ASCII characters it holds of tab, line
/// feed, vertical tab, form feed, carriage return and space.
fn char_is_whitespace(c: char) -> (r: bool)
    ensures
        r == whitespace(c),
        (c as u32) < 128 ==> (r <==> is_ascii_space(c)),
{
    let n = c as u32;
    (0x09 <= n && n <= 0x0d) || n == 0x20 || n == 0x85 || n == 0xa0 || n == 0x1680
        || (0x2000 <= n && n <= 0x200a) || n == 0x2028 || n == 0x2029 || n == 0x202f
        || n == 0x205f || n == 0x3000
}

/// The end of the run of ASCII characters of `s` from `i`.
pub open spec fn ascii_run(s: Seq<char>, i: int) -> int
    decreases s.len() - i,
{
    if 0 <= i < s.len() && '\0' <= s[i] <= '\u{7f}' {
        ascii_run(s, i + 1)
    } else {
        i
    }
}

/// The ASCII run from `i` stays within the text, holds only ASCII
/// characters, and ends at the text's end or at a non-ASCII character.
pub proof fn lemma_ascii_run(s: Seq<char>, i: int)
    requires
        0 <= i <= s.len(),
    ensures
        i <= ascii_run(s, i) <= s.len(),
        forall|j: int| i <= j < ascii_run(s, i) ==> '\0' <= #[trigger] s[j] <= '\u{7f}',
        ascii_run(s, i) < s.len() ==> !('\0' <= s[ascii_run(s, i)] <= '\u{7f}'),
    decreases s.len() - i,
{
    if i < s.len() && '\0' <= s[i] <= '\u{7f}' {
        lemma_ascii_run(s, i + 1);
    }
}

/// The byte length of a text.
pub open spec fn byte_len(s: Seq<char>) -> int {
    vstd::utf8::encode_utf8(s).len() as int
}

/// Why a reading stopped short: an error with its message, or a number or a
/// name that ends past the text's ASCII beginning. Such a number or name is
/// cut out of the text's bytes by character positions, which then no longer
/// match; the reader does not take it.
pub enum Failure {
    Message(Seq<char>),
    Unreadable,
}

/// A result of reading: a value and the position after it, or why reading
/// stopped and the position where it stopped.
pub type Read = Result<(ExprView, int), (Failure, int)>;

/// The first position at or after `pos` that does not hold whitespace.
pub open spec fn skip_spaces(s: Seq<char>, pos: int) -> int
    decreases s.len() - pos,
{
    if 0 <= pos < s.len() && whitespace(s[pos]) {
        skip_spaces(s, pos + 1)
    } else {
        pos
    }
}

/// Skipping whitespace moves forward and stays within the text.
pub proof fn lemma_skip_spaces(s: Seq<char>, pos: int)
    ensures
        skip_spaces(s, pos) >= pos,
        0 <= pos <= s.len() ==> skip_spaces(s, pos) <= s.len(),
    decreases s.len() - pos,
{
    if 0 <= pos < s.len() && whitespace(s[pos]) {
        lemma_skip_spaces(s, pos + 1);
    }
}

/// The end of a numeral from `pos` (digits and dots), given whether a dot
/// was seen, and whether it is well formed: reading stops at a second dot,
/// which makes it ill formed.
pub open spec fn numeral_end(s: Seq<char>, pos: int, has_dot: bool) -> (int, bool)
    decreases s.len() - pos,
{
    if 0 <= pos < s.len() && (is_digit(s[pos]) || s[pos] == '.') {
        if s[pos] == '.' && has_dot {
            (pos, false)
        } else {
            numeral_end(s, pos + 1, has_dot || s[pos] == '.')
        }
    } else {
        (pos, true)
    }
}

/// The end of a run of letters from `pos`.
pub open spec fn letters_end(s: Seq<char>, pos: int) -> int
    decreases s.len() - pos,
{
    if 0 <= pos < s.len() && alphabetic(s[pos]) {
        letters_end(s, pos + 1)
    } else {
        pos
    }
}

/// An error with message `m` at `p`.
pub open spec fn fail(m: Seq<char>, p: int) -> Read {
    Err((Failure::Message(m), p))
}

/// A number at `pos`: digits and at most one dot.
pub open spec fn r_number(s: Seq<char>, pos: int) -> Read {
    let (e, ok) = numeral_end(s, pos, false);
    if !ok {
        fail("Invalid number format"@, e)
    } else if e > ascii_run(s, 0) {
        Err((Failure::Unreadable, e))
    } else {
        Ok((ExprView::Constant(s.subrange(pos, e)), e))
    }
}

/// A variable at `pos`: one or more letters.
pub open spec fn r_variable(s: Seq<char>, pos: int) -> Read {
    let e = letters_end(s, pos);
    if e <= pos {
        fail("Expected variable"@, pos)
    } else if e > ascii_run(s, 0) {
        Err((Failure::Unreadable, e))
    } else {
        Ok((ExprView::Variable(s.subrange(pos, e)), e))
    }
}

/// An expression at `pos`: products joined by `+` and `-`.
pub open spec fn r_expression(s: Seq<char>, pos: int) -> Read
    decreases s.len() - pos, 7int,
{
    if pos < 0 || pos > s.len() {
        fail(Seq::empty(), pos)
    } else {
        match r_multiplication(s, pos) {
            Err(e) => Err(e),
            Ok((left, p1)) => {
                if pos <= p1 <= s.len() {
                    r_expression_loop(s, p1, left)
                } else {
                    fail(Seq::empty(), pos)
                }
            },
        }
    }
}

/// The rest of an expression from `pos`, with `acc` read so far.
pub open spec fn r_expression_loop(s: Seq<char>, pos: int, acc: ExprView) -> Read
    decreases s.len() - pos, 6int,
{
    if pos < 0 || pos > s.len() {
        fail(Seq::empty(), pos)
    } else {
        let p = skip_spaces(s, pos);
        proof {
            lemma_skip_spaces(s, pos);
        }
        if p < s.len() && (s[p] == '+' || s[p] == '-') {
            match r_multiplication(s, p + 1) {
                Err(e) => Err(e),
                Ok((right, p2)) => {
                    if p < p2 <= s.len() {
                        let next = if s[p] == '+' {
                            ExprView::Add(Box::new(acc), Box::new(right))
                        } else {
                            ExprView::Sub(Box::new(acc), Box::new(right))
                        };
                        r_expression_loop(s, p2, next)
                    } else {
                        fail(Seq::empty(), pos)
                    }
                },
            }
        } else {
            Ok((acc, p))
        }
    }
}

/// A product at `pos`: powers joined by `*`, or followed directly by a
/// variable.
pub open spec fn r_multiplication(s: Seq<char>, pos: int) -> Read
    decreases s.len() - pos, 5int,
{
    if pos < 0 || pos > s.len() {
        fail(Seq::empty(), pos)
    } else {
        match r_power(s, pos) {
            Err(e) => Err(e),
            Ok((left, p1)) => {
                if pos <= p1 <= s.len() {
                    r_multiplication_loop(s, p1, left)
                } else {
                    fail(Seq::empty(), pos)
                }
            },
        }
    }
}

/// The rest of a product from `pos`, with `acc` read so far.
pub open spec fn r_multiplication_loop(s: Seq<char>, pos: int, acc: ExprView) -> Read
    decreases s.len() - pos, 4int,
{
    if pos < 0 || pos > s.len() {
        fail(Seq::empty(), pos)
    } else {
        let p = skip_spaces(s, pos);
        proof {
            lemma_skip_spaces(s, pos);
        }
        if p < s.len() && s[p] == '*' {
            match r_power(s, p + 1) {
                Err(e) => Err(e),
                Ok((right, p2)) => {
                    if p < p2 <= s.len() {
                        r_multiplication_loop(s, p2, ExprView::Mul(Box::new(acc), Box::new(right)))
                    } else {
                        fail(Seq::empty(), pos)
                    }
                },
            }
        } else if p < s.len() && alphabetic(s[p]) {
            match r_variable(s, p) {
                Err(e) => Err(e),
                Ok((right, p2)) => {
                    if p < p2 <= s.len() {
                        r_multiplication_loop(s, p2, ExprView::Mul(Box::new(acc), Box::new(right)))
                    } else {
                        fail(Seq::empty(), pos)
                    }
                },
            }
        } else {
            Ok((acc, p))
        }
    }
}

/// A power at `pos`: factors joined by `^`, from the left.
pub open spec fn r_power(s: Seq<char>, pos: int) -> Read
    decreases s.len() - pos, 3int,
{
    if pos < 0 || pos > s.len() {
        fail(Seq::empty(), pos)
    } else {
        match r_factor(s, pos) {
            Err(e) => Err(e),
            Ok((left, p1)) => {
                if pos <= p1 <= s.len() {
                    r_power_loop(s, p1, left)
                } else {
                    fail(Seq::empty(), pos)
                }
            },
        }
    }
}

/// The rest of a power from `pos`, with `acc` read so far.
pub open spec fn r_power_loop(s: Seq<char>, pos: int, acc: ExprView) -> Read
    decreases s.len() - pos, 2int,
{
    if pos < 0 || pos > s.len() {
        fail(Seq::empty(), pos)
    } else {
        let p = skip_spaces(s, pos);
        proof {
            lemma_skip_spaces(s, pos);
        }
        if p < s.len() && s[p] == '^' {
            match r_factor(s, p + 1) {
                Err(e) => Err(e),
                Ok((right, p2)) => {
                    if p < p2 <= s.len() {
                        r_power_loop(s, p2, ExprView::Pow(Box::new(acc), Box::new(right)))
                    } else {
                        fail(Seq::empty(), pos)
                    }
                },
            }
        } else {
            Ok((acc, p))
        }
    }
}

/// A factor at `pos`: a parenthesised expression, a number or a variable.
pub open spec fn r_factor(s: Seq<char>, pos: int) -> Read
    decreases s.len() - pos, 1int,
{
    if pos < 0 || pos > s.len() {
        fail(Seq::empty(), pos)
    } else {
        let p = skip_spaces(s, pos);
        proof {
            lemma_skip_spaces(s, pos);
        }
        if p < s.len() && s[p] == '(' {
            match r_expression(s, p + 1) {
                Err(e) => Err(e),
                Ok((e, p1)) => {
                    let p2 = skip_spaces(s, p1);
                    if 0 <= p2 < s.len() && s[p2] == ')' {
                        Ok((e, p2 + 1))
                    } else if 0 <= p2 < s.len() {
                        fail("Expected ')'"@, p2 + 1)
                    } else {
                        fail("Expected ')'"@, p2)
                    }
                },
            }
        } else if p < s.len() && is_digit(s[p]) {
            r_number(s, p)
        } else if p < s.len() && alphabetic(s[p]) {
            r_variable(s, p)
        } else {
            fail("Expected factor"@, p)
        }
    }
}

/// Reading the whole text from `pos`: an expression with nothing after it
/// but whitespace; the position after it on success. The text's end is
/// its byte length, which a non-ASCII character puts past the number of
/// characters.
pub open spec fn r_parse_from(s: Seq<char>, pos: int) -> Read {
    match r_expression(s, pos) {
        Err(e) => Err(e),
        Ok((e, p)) => {
            if skip_spaces(s, p) < byte_len(s) {
                fail("Unexpected characters at end"@, skip_spaces(s, p))
            } else {
                Ok((e, skip_spaces(s, p)))
            }
        },
    }
}

/// The right operand of `+` and of `-` is a whole product: when a `+` or a
/// `-` follows what was read so far and a product can be read after it, the
/// expression goes on with the sum or difference of the two, and it ends
/// there when no further `+` or `-` follows.
pub proof fn law_sum_takes_a_product(s: Seq<char>, pos: int, acc: ExprView, q: ExprView, p2: int)
    requires
        0 <= pos <= s.len(),
        skip_spaces(s, pos) < s.len(),
        s[skip_spaces(s, pos)] == '+' || s[skip_spaces(s, pos)] == '-',
        r_multiplication(s, skip_spaces(s, pos) + 1) == Read::Ok((q, p2)),
        skip_spaces(s, pos) < p2 <= s.len(),
        !(skip_spaces(s, p2) < s.len() && (s[skip_spaces(s, p2)] == '+' || s[skip_spaces(s, p2)] == '-')),
    ensures
        s[skip_spaces(s, pos)] == '+' ==> r_expression_loop(s, pos, acc)
            == Read::Ok((ExprView::Add(Box::new(acc), Box::new(q)), skip_spaces(s, p2))),
        s[skip_spaces(s, pos)] == '-' ==> r_expression_loop(s, pos, acc)
            == Read::Ok((ExprView::Sub(Box::new(acc), Box::new(q)), skip_spaces(s, p2))),
{
    lemma_skip_spaces(s, pos);
    lemma_skip_spaces(s, p2);
    let p = skip_spaces(s, pos);
    let next = if s[p] == '+' {
        ExprView::Add(Box::new(acc), Box::new(q))
    } else {
        ExprView::Sub(Box::new(acc), Box::new(q))
    };
    assert(r_expression_loop(s, p2, next) == Read::Ok((next, skip_spaces(s, p2))));
    assert(r_expression_loop(s, pos, acc) == r_expression_loop(s, p2, next));
}

/// A whole expression of two products joined by `+` or `-` reads as their
/// sum or difference: the first product is read from `pos`, and the second
/// is a whole product, not only its first power.
pub proof fn law_expression_of_two_products(s: Seq<char>, pos: int, a: ExprView, p1: int, q: ExprView, p2: int)
    requires
        0 <= pos <= s.len(),
        r_multiplication(s, pos) == Read::Ok((a, p1)),
        pos <= p1 <= s.len(),
        skip_spaces(s, p1) < s.len(),
        s[skip_spaces(s, p1)] == '+' || s[skip_spaces(s, p1)] == '-',
        r_multiplication(s, skip_spaces(s, p1) + 1) == Read::Ok((q, p2)),
        skip_spaces(s, p1) < p2 <= s.len(),
        !(skip_spaces(s, p2) < s.len() && (s[skip_spaces(s, p2)] == '+' || s[skip_spaces(s, p2)] == '-')),
    ensures
        s[skip_spaces(s, p1)] == '+' ==> r_expression(s, pos)
            == Read::Ok((ExprView::Add(Box::new(a), Box::new(q)), skip_spaces(s, p2))),
        s[skip_spaces(s, p1)] == '-' ==> r_expression(s, pos)
            == Read::Ok((ExprView::Sub(Box::new(a), Box::new(q)), skip_spaces(s, p2))),
{
    law_sum_takes_a_product(s, p1, a, q, p2);
}

/// The right operand of `*` is a whole power: when a `*` follows what was
/// read so far and a power can be read after it, the product goes on with
/// the two, and it ends there when nothing more of a product follows.
pub proof fn law_product_takes_a_power(s: Seq<char>, pos: int, acc: ExprView, q: ExprView, p2: int)
    requires
        0 <= pos <= s.len(),
        skip_spaces(s, pos) < s.len(),
        s[skip_spaces(s, pos)] == '*',
        r_power(s, skip_spaces(s, pos) + 1) == Read::Ok((q, p2)),
        skip_spaces(s, pos) < p2 <= s.len(),
        !(skip_spaces(s, p2) < s.len() && (s[skip_spaces(s, p2)] == '*' || alphabetic(s[skip_spaces(s, p2)]))),
    ensures
        r_multiplication_loop(s, pos, acc)
            == Read::Ok((ExprView::Mul(Box::new(acc), Box::new(q)), skip_spaces(s, p2))),
{
    lemma_skip_spaces(s, pos);
    lemma_skip_spaces(s, p2);
    let next = ExprView::Mul(Box::new(acc), Box::new(q));
    assert(r_multiplication_loop(s, p2, next) == Read::Ok((next, skip_spaces(s, p2))));
    assert(r_multiplication_loop(s, pos, acc) == r_multiplication_loop(s, p2, next));
}

/// The right operand of `^` is a single factor: when a `^` follows what was
/// read so far and a factor can be read after it, the power goes on with
/// the two, and it ends there when no further `^` follows.
pub proof fn law_power_takes_a_factor(s: Seq<char>, pos: int, acc: ExprView, q: ExprView, p2: int)
    requires
        0 <= pos <= s.len(),
        skip_spaces(s, pos) < s.len(),
        s[skip_spaces(s, pos)] == '^',
        r_factor(s, skip_spaces(s, pos) + 1) == Read::Ok((q, p2)),
        skip_spaces(s, pos) < p2 <= s.len(),
        !(skip_spaces(s, p2) < s.len() && s[skip_spaces(s, p2)] == '^'),
    ensures
        r_power_loop(s, pos, acc) == Read::Ok((ExprView::Pow(Box::new(acc), Box::new(q)), skip_spaces(s, p2))),
{
    lemma_skip_spaces(s, pos);
    lemma_skip_spaces(s, p2);
    let next = ExprView::Pow(Box::new(acc), Box::new(q));
    assert(r_power_loop(s, p2, next) == Read::Ok((next, skip_spaces(s, p2))));
    assert(r_power_loop(s, pos, acc) == r_power_loop(s, p2, next));
}

/// Why reading stopped, as the reader holds it.
enum ReadFailure {
    Message(String),
    Unreadable,
}

/// The mathematical value of a [`ReadFailure`].
spec fn failure_view(f: ReadFailure) -> Failure {
    match f {
        ReadFailure::Message(m) => Failure::Message(m@),
        ReadFailure::Unreadable => Failure::Unreadable,
    }
}

/// What a reading function returns, matched against the reading `expected`
/// that it performs from `start`, ending at `end`.
spec fn agrees(r: Result<Expression, ReadFailure>, expected: Read, end: int) -> bool {
    match expected {
        Ok((v, p)) => r matches Ok(e) && expr_view(e) == v && end == p,
        Err((f, p)) => r matches Err(x) && failure_view(x) == f && end == p,
    }
}

/// Whether the first `n` characters of `s` are ASCII.
fn ascii_upto(s: &str, n: usize) -> (r: bool)
    requires
        n <= s@.len(),
    ensures
        r == (n <= ascii_run(s@, 0)),
{
    proof {
        lemma_ascii_run(s@, 0);
    }
    let mut i: usize = 0;
    while i < n
        invariant
            i <= n <= s@.len(),
            forall|j: int| 0 <= j < i ==> '\0' <= #[trigger] s@[j] <= '\u{7f}',
            i <= ascii_run(s@, 0) <= s@.len(),
            forall|j: int| 0 <= j < ascii_run(s@, 0) ==> '\0' <= #[trigger] s@[j] <= '\u{7f}',
            ascii_run(s@, 0) < s@.len() ==> !('\0' <= s@[ascii_run(s@, 0)] <= '\u{7f}'),
        decreases n - i,
    {
        let c = s.get_char(i);
        if (c as u32) >= 128 {
            return false;
        }
        i = i + 1;
    }
    true
}

/// A reader over a text, at a position counted in characters.
pub struct Parser {
    input: String,
    pos: usize,
}

impl View for Parser {
    type V = (Seq<char>, int);

    /// The text and the reading position.
    closed spec fn view(&self) -> (Seq<char>, int) {
        (self.input@, self.pos as int)
    }
}

impl Parser {
    /// A reader at the start of `input`.
    pub fn new(input: &str) -> (r: Parser)
        ensures
            r@ == (input@, 0int),
            r.readable(),
    {
        let _n = input.unicode_len();
        Parser { input: input.to_owned(), pos: 0 }
    }

    /// The position is within the text.
    pub open spec fn readable(&self) -> bool {
        &&& 0 <= self@.1 <= self@.0.len()
        &&& self@.0.len() <= usize::MAX
    }

    /// The character at the reading position.
    fn peek(&self) -> (r: Option<char>)
        ensures
            r == char_opt(self@.0, self@.1),
    {
        char_at(self.input.as_str(), self.pos)
    }

    /// The character at the reading position, which is then passed.
    fn next(&mut self) -> (r: Option<char>)
        requires
            old(self).readable(),
        ensures
            final(self).readable(),
            final(self)@.0 == old(self)@.0,
            r == char_opt(old(self)@.0, old(self)@.1),
            final(self)@.1 == if r is Some { old(self)@.1 + 1 } else { old(self)@.1 },
    {
        let ch = self.peek();
        if ch.is_some() {
            self.pos = self.pos + 1;
        }
        ch
    }

    /// Pass whitespace.
    fn skip_whitespace(&mut self)
        requires
            old(self).readable(),
        ensures
            final(self).readable(),
            final(self)@.0 == old(self)@.0,
            final(self)@.1 == skip_spaces(old(self)@.0, old(self)@.1),
    {
        loop
            invariant
                self.readable(),
                self@.0 == old(self)@.0,
                old(self)@.1 <= self@.1,
                skip_spaces(self@.0, self@.1) == skip_spaces(old(self)@.0, old(self)@.1),
            ensures
                self.readable(),
                self@.0 == old(self)@.0,
                self@.1 == skip_spaces(old(self)@.0, old(self)@.1),
            decreases self@.0.len() - self@.1,
        {
            match self.peek() {
                Some(ch) => {
                    if char_is_whitespace(ch) {
                        self.next();
                    } else {
                        break;
                    }
                },
                None => {
                    break;
                },
            }
        }
    }

    /// A number: digits and at most one dot, kept as written.
    fn parse_number(&mut self) -> (r: Result<Expression, ReadFailure>)
        requires
            old(self).readable(),
        ensures
            final(self).readable(),
            final(self)@.0 == old(self)@.0,
            agrees(r, r_number(old(self)@.0, old(self)@.1), final(self)@.1),
            old(self)@.1 <= final(self)@.1,
    {
        let ghost s = self@.0;
        let ghost start_pos = self@.1;
        let start = self.pos;
        let mut has_dot = false;
        loop
            invariant
                self.readable(),
                self@.0 == s,
                s == old(self)@.0,
                start_pos == old(self)@.1,
                start == start_pos,
                start_pos <= self@.1,
                numeral_end(s, self@.1, has_dot) == numeral_end(s, start_pos, false),
            ensures
                self.readable(),
                self@.0 == s,
                start_pos <= self@.1,
                numeral_end(s, start_pos, false) == (self@.1, true),
            decreases s.len() - self@.1,
        {
            match self.peek() {
                Some(ch) => {
                    if char_is_digit(ch) || ch == '.' {
                        if ch == '.' {
                            if has_dot {
                                proof {
                                    reveal_strlit("Invalid number format");
                                }
                                return Err(ReadFailure::Message("Invalid number format".to_owned()));
                            }
                            has_dot = true;
                        }
                        self.next();
                    } else {
                        break;
                    }
                },
                None => {
                    break;
                },
            }
        }
        if !ascii_upto(self.input.as_str(), self.pos) {
            return Err(ReadFailure::Unreadable);
        }
        let num_str = self.input.as_str().substring_char(start, self.pos);
        Ok(Expression::Constant(num_str.to_owned()))
    }

    /// A variable: one or more letters.
    fn parse_variable(&mut self) -> (r: Result<Expression, ReadFailure>)
        requires
            old(self).readable(),
        ensures
            final(self).readable(),
            final(self)@.0 == old(self)@.0,
            agrees(r, r_variable(old(self)@.0, old(self)@.1), final(self)@.1),
            old(self)@.1 <= final(self)@.1,
    {
        let ghost s = self@.0;
        let ghost start_pos = self@.1;
        let start = self.pos;
        loop
            invariant
                self.readable(),
                self@.0 == s,
                start == start_pos,
                start_pos <= self@.1,
                letters_end(s, self@.1) == letters_end(s, start_pos),
            ensures
                self.readable(),
                self@.0 == s,
                start_pos <= self@.1,
                letters_end(s, start_pos) == self@.1,
            decreases s.len() - self@.1,
        {
            match self.peek() {
                Some(ch) => {
                    if char_is_alphabetic(ch) {
                        self.next();
                    } else {
                        break;
                    }
                },
                None => {
                    break;
                },
            }
        }
        if self.pos > start {
            if !ascii_upto(self.input.as_str(), self.pos) {
                return Err(ReadFailure::Unreadable);
            }
            let var_name = self.input.as_str().substring_char(start, self.pos);
            Ok(Expression::Variable(var_name.to_owned()))
        } else {
            proof {
                reveal_strlit("Expected variable");
            }
            Err(ReadFailure::Message("Expected variable".to_owned()))
        }
    }
}

impl Parser {
    /// An expression: products joined by `+` and `-`, from the left.
    fn parse_expression(&mut self) -> (r: Result<Expression, ReadFailure>)
        requires
            old(self).readable(),
        ensures
            final(self).readable(),
            final(self)@.0 == old(self)@.0,
            agrees(r, r_expression(old(self)@.0, old(self)@.1), final(self)@.1),
            old(self)@.1 <= final(self)@.1,
        decreases old(self)@.0.len() - old(self)@.1, 7int,
    {
        let ghost s = self@.0;
        let ghost start = self@.1;
        let mut left = match self.parse_multiplication() {
            Ok(e) => e,
            Err(e) => {
                return Err(e);
            },
        };
        loop
            invariant_except_break
                r_expression_loop(s, self@.1, expr_view(left)) == r_expression(s, start),
            invariant
                self.readable(),
                self@.0 == s,
                s == old(self)@.0,
                start == old(self)@.1,
                start <= self@.1,
            ensures
                self.readable(),
                self@.0 == s,
                start <= self@.1,
                r_expression(s, start) == Read::Ok((expr_view(left), self@.1)),
            decreases s.len() - self@.1,
        {
            proof {
                lemma_skip_spaces(s, self@.1);
            }
            self.skip_whitespace();
            match self.peek() {
                Some('+') => {
                    self.next();
                    let right = match self.parse_multiplication() {
                        Ok(e) => e,
                        Err(e) => {
                            return Err(e);
                        },
                    };
                    left = Expression::Add(Box::new(left), Box::new(right));
                },
                Some('-') => {
                    self.next();
                    let right = match self.parse_multiplication() {
                        Ok(e) => e,
                        Err(e) => {
                            return Err(e);
                        },
                    };
                    left = Expression::Sub(Box::new(left), Box::new(right));
                },
                _ => {
                    break;
                },
            }
        }
        Ok(left)
    }

    /// A product: powers joined by `*`, or followed directly by a variable.
    fn parse_multiplication(&mut self) -> (r: Result<Expression, ReadFailure>)
        requires
            old(self).readable(),
        ensures
            final(self).readable(),
            final(self)@.0 == old(self)@.0,
            agrees(r, r_multiplication(old(self)@.0, old(self)@.1), final(self)@.1),
            old(self)@.1 <= final(self)@.1,
        decreases old(self)@.0.len() - old(self)@.1, 5int,
    {
        let ghost s = self@.0;
        let ghost start = self@.1;
        let mut left = match self.parse_power() {
            Ok(e) => e,
            Err(e) => {
                return Err(e);
            },
        };
        loop
            invariant_except_break
                r_multiplication_loop(s, self@.1, expr_view(left)) == r_multiplication(s, start),
            invariant
                self.readable(),
                self@.0 == s,
                s == old(self)@.0,
                start == old(self)@.1,
                start <= self@.1,
            ensures
                self.readable(),
                self@.0 == s,
                start <= self@.1,
                r_multiplication(s, start) == Read::Ok((expr_view(left), self@.1)),
            decreases s.len() - self@.1,
        {
            proof {
                lemma_skip_spaces(s, self@.1);
            }
            self.skip_whitespace();
            match self.peek() {
                Some('*') => {
                    self.next();
                    let right = match self.parse_power() {
                        Ok(e) => e,
                        Err(e) => {
                            return Err(e);
                        },
                    };
                    left = Expression::Mul(Box::new(left), Box::new(right));
                },
                Some(ch) => {
                    if char_is_alphabetic(ch) {
                        let right = match self.parse_variable() {
                            Ok(e) => e,
                            Err(e) => {
                                return Err(e);
                            },
                        };
                        left = Expression::Mul(Box::new(left), Box::new(right));
                    } else {
                        break;
                    }
                },
                _ => {
                    break;
                },
            }
        }
        Ok(left)
    }

    /// A power: factors joined by `^`, from the left.
    fn parse_power(&mut self) -> (r: Result<Expression, ReadFailure>)
        requires
            old(self).readable(),
        ensures
            final(self).readable(),
            final(self)@.0 == old(self)@.0,
            agrees(r, r_power(old(self)@.0, old(self)@.1), final(self)@.1),
            old(self)@.1 <= final(self)@.1,
        decreases old(self)@.0.len() - old(self)@.1, 3int,
    {
        let ghost s = self@.0;
        let ghost start = self@.1;
        let mut left = match self.parse_factor() {
            Ok(e) => e,
            Err(e) => {
                return Err(e);
            },
        };
        loop
            invariant_except_break
                r_power_loop(s, self@.1, expr_view(left)) == r_power(s, start),
            invariant
                self.readable(),
                self@.0 == s,
                s == old(self)@.0,
                start == old(self)@.1,
                start <= self@.1,
            ensures
                self.readable(),
                self@.0 == s,
                start <= self@.1,
                r_power(s, start) == Read::Ok((expr_view(left), self@.1)),
            decreases s.len() - self@.1,
        {
            proof {
                lemma_skip_spaces(s, self@.1);
            }
            self.skip_whitespace();
            match self.peek() {
                Some('^') => {
                    self.next();
                    let right = match self.parse_factor() {
                        Ok(e) => e,
                        Err(e) => {
                            return Err(e);
                        },
                    };
                    left = Expression::Pow(Box::new(left), Box::new(right));
                },
                _ => {
                    break;
                },
            }
        }
        Ok(left)
    }

    /// A factor: a parenthesised expression, a number or a variable.
    fn parse_factor(&mut self) -> (r: Result<Expression, ReadFailure>)
        requires
            old(self).readable(),
        ensures
            final(self).readable(),
            final(self)@.0 == old(self)@.0,
            agrees(r, r_factor(old(self)@.0, old(self)@.1), final(self)@.1),
            old(self)@.1 <= final(self)@.1,
        decreases old(self)@.0.len() - old(self)@.1, 1int,
    {
        let ghost s = self@.0;
        proof {
            lemma_skip_spaces(s, self@.1);
        }
        self.skip_whitespace();
        match self.peek() {
            Some(c) => {
                if c == '(' {
                    self.next();
                    let expr = match self.parse_expression() {
                        Ok(e) => e,
                        Err(e) => {
                            return Err(e);
                        },
                    };
                    proof {
                        lemma_skip_spaces(s, self@.1);
                    }
                    self.skip_whitespace();
                    match self.next() {
                        Some(d) => {
                            if d != ')' {
                                proof {
                                    reveal_strlit("Expected ')'");
                                }
                                return Err(ReadFailure::Message("Expected ')'".to_owned()));
                            }
                        },
                        None => {
                            proof {
                                reveal_strlit("Expected ')'");
                            }
                            return Err(ReadFailure::Message("Expected ')'".to_owned()));
                        },
                    }
                    Ok(expr)
                } else if char_is_digit(c) {
                    self.parse_number()
                } else if char_is_alphabetic(c) {
                    self.parse_variable()
                } else {
                    proof {
                        reveal_strlit("Expected factor");
                    }
                    Err(ReadFailure::Message("Expected factor".to_owned()))
                }
            },
            None => {
                proof {
                    reveal_strlit("Expected factor");
                }
                Err(ReadFailure::Message("Expected factor".to_owned()))
            },
        }
    }

    /// Read the whole text: an expression with nothing after it but
    /// whitespace up to the text's byte length.
    fn parse_all(&mut self) -> (r: Result<Expression, ReadFailure>)
        requires
            old(self).readable(),
        ensures
            final(self).readable(),
            final(self)@.0 == old(self)@.0,
            agrees(r, r_parse_from(old(self)@.0, old(self)@.1), final(self)@.1),
    {
        let result = match self.parse_expression() {
            Ok(e) => e,
            Err(e) => {
                return Err(e);
            },
        };
        self.skip_whitespace();
        let len = byte_length(self.input.as_str());
        if self.pos < len {
            proof {
                reveal_strlit("Unexpected characters at end");
            }
            return Err(ReadFailure::Message("Unexpected characters at end".to_owned()));
        }
        Ok(result)
    }

    /// Whether reading the whole text from here takes every number and name
    /// from the text's ASCII beginning (see [`Failure::Unreadable`]).
    pub fn takes_whole_names(&self) -> (r: bool)
        requires
            self.readable(),
        ensures
            r == !(r_parse_from(self@.0, self@.1) matches Err((Failure::Unreadable, _))),
    {
        let mut probe = Parser { input: self.input.clone(), pos: self.pos };
        match probe.parse_all() {
            Err(ReadFailure::Unreadable) => false,
            _ => true,
        }
    }

    /// Read the whole text from the reading position: an expression with
    /// nothing after it but whitespace (up to the text's byte length).
    /// Numbers keep the numeral that was written; on an error the position
    /// is where reading stopped. Every number and name read lies in the
    /// text's ASCII beginning.
    pub fn parse(&mut self) -> (r: Result<Expression, String>)
        requires
            old(self).readable(),
            !(r_parse_from(old(self)@.0, old(self)@.1) matches Err((Failure::Unreadable, _))),
        ensures
            final(self).readable(),
            final(self)@.0 == old(self)@.0,
            match r_parse_from(old(self)@.0, old(self)@.1) {
                Ok((v, p)) => r matches Ok(e) && expr_view(e) == v && final(self)@.1 == p,
                Err((Failure::Message(m), p)) => r matches Err(e) && e@ == m && final(self)@.1 == p,
                Err((Failure::Unreadable, _)) => false,
            },
    {
        match self.parse_all() {
            Ok(e) => Ok(e),
            Err(ReadFailure::Message(m)) => Err(m),
            Err(ReadFailure::Unreadable) => {
                proof {
                    assert(false);
                }
                Err(String::new())
            },
        }
    }

    /// [`Parser::parse`] where every number and name that reading meets lies
    /// in the text's ASCII beginning; `None`, with nothing read, elsewhere.
    pub fn parse_checked(&mut self) -> (r: Option<Result<Expression, String>>)
        requires
            old(self).readable(),
        ensures
            r is Some <==> !(r_parse_from(old(self)@.0, old(self)@.1) matches Err((Failure::Unreadable, _))),
            r is None ==> final(self)@ == old(self)@,
            final(self)@.0 == old(self)@.0,
            r matches Some(res) ==> match r_parse_from(old(self)@.0, old(self)@.1) {
                Ok((v, p)) => res matches Ok(e) && expr_view(e) == v && final(self)@.1 == p,
                Err((Failure::Message(m), p)) => res matches Err(e) && e@ == m && final(self)@.1 == p,
                Err((Failure::Unreadable, _)) => false,
            },
    {
        if self.takes_whole_names() {
            Some(self.parse())
        } else {
            None
        }
    }
}

} // verus!
