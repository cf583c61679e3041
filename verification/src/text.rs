//! Character classes and the std string operations that the logic uses.

use vstd::prelude::*;

verus! {

/// The character at char index `i` of `s`, if there is one.
pub open spec fn char_opt(s: Seq<char>, i: int) -> Option<char> {
    if 0 <= i < s.len() {
        Some(s[i])
    } else {
        None
    }
}

/// The character at char index `i` of `s`, or a space past its end.
pub open spec fn char_or_space(s: Seq<char>, i: int) -> char {
    if 0 <= i < s.len() {
        s[i]
    } else {
        ' '
    }
}

/// An ASCII decimal digit.
pub open spec fn is_digit(c: char) -> bool {
    '0' <= c && c <= '9'
}

/// Whether every character of `s` is ASCII.
pub open spec fn ascii(s: Seq<char>) -> bool {
    vstd::utf8::is_ascii_chars(s)
}

/// The largest index `i` with `1 <= i <= hi` at which `s` holds `'^'`.
pub open spec fn caret_at_or_before(s: Seq<char>, hi: int) -> Option<int>
    decreases hi,
{
    if hi <= 0 {
        None
    } else if char_opt(s, hi) == Some('^') {
        Some(hi)
    } else {
        caret_at_or_before(s, hi - 1)
    }
}

/// Every character of `s` in `[lo, hi)` is a digit (a space past its end).
pub open spec fn all_digits(s: Seq<char>, lo: int, hi: int) -> bool {
    forall|k: int| lo <= k < hi ==> is_digit(#[trigger] char_or_space(s, k))
}

/// Every character of `s` in `[lo, hi)` is an exponent character (a space
/// past its end).
pub open spec fn all_exponent_chars(s: Seq<char>, lo: int, hi: int) -> bool {
    forall|k: int| lo <= k < hi ==> is_exponent_char(#[trigger] char_or_space(s, k))
}

/// An exponent character: a digit or one of the letters `x`, `n`, `t`.
pub open spec fn is_exponent_char(c: char) -> bool {
    is_digit(c) || c == 'x' || c == 'n' || c == 't'
}

/// The character of the decimal digit `d`.
pub open spec fn digit_of(d: int) -> char {
    (d + '0' as int) as char
}

/// The decimal numeral of `n`: its digits, without sign or leading zeros.
pub open spec fn decimal(n: nat) -> Seq<char>
    decreases n,
{
    if n < 10 {
        seq![digit_of(n as int)]
    } else {
        decimal(n / 10).push(digit_of((n % 10) as int))
    }
}

/// `c.is_ascii_digit()`.
pub fn char_is_digit(c: char) -> (r: bool)
    ensures
        r == is_digit(c),
{
    '0' <= c && c <= '9'
}

/// `s.chars().nth(i)`: the character at char index `i`.
#[verifier::external_body]
pub(crate) fn char_at(s: &str, i: usize) -> (r: Option<char>)
    ensures
        r == char_opt(s@, i as int),
{
    s.chars().nth(i)
}

/// `s.chars().nth(i).unwrap_or(' ')`.
pub fn char_or_space_at(s: &str, i: usize) -> (r: char)
    ensures
        r == char_or_space(s@, i as int),
{
    match char_at(s, i) {
        Some(c) => c,
        None => ' ',
    }
}

/// `str::len`: the length of `s` in bytes; no object is larger than
/// `isize::MAX` bytes.
#[verifier::external_body]
pub(crate) fn byte_length(s: &str) -> (r: usize)
    ensures
        r == vstd::utf8::encode_utf8(s@).len(),
        r <= isize::MAX,
{
    s.len()
}

/// `String::push`, of an ASCII character onto an ASCII string with room.
#[verifier::external_body]
pub(crate) fn string_push(s: &mut String, c: char)
    requires
        ascii(old(s)@),
        '\0' <= c <= '\u{7f}',
        old(s)@.len() < isize::MAX,
    ensures
        final(s)@ == old(s)@.push(c),
{
    s.push(c)
}

/// `char::to_string`: the one-character string of `c`.
#[verifier::external_body]
pub(crate) fn char_string(c: char) -> (r: String)
    ensures
        r@ == seq![c],
{
    c.to_string()
}

/// `String::insert`, which inserts `c` at byte index `idx`; on an ASCII
/// string byte and char indices agree.
#[verifier::external_body]
pub(crate) fn string_insert(s: &mut String, idx: usize, c: char)
    requires
        ascii(old(s)@),
        idx <= old(s)@.len(),
        old(s)@.len() + 4 <= isize::MAX,
    ensures
        final(s)@ == old(s)@.insert(idx as int, c),
{
    s.insert(idx, c)
}

/// `String::insert_str`, which inserts `t` at byte index `idx`; on an ASCII
/// string byte and char indices agree.
#[verifier::external_body]
pub(crate) fn string_insert_str(s: &mut String, idx: usize, t: &str)
    requires
        ascii(old(s)@),
        ascii(t@),
        idx <= old(s)@.len(),
        old(s)@.len() + t@.len() <= isize::MAX,
    ensures
        final(s)@ == old(s)@.subrange(0, idx as int) + t@ + old(s)@.subrange(idx as int, old(s)@.len() as int),
{
    s.insert_str(idx, t)
}

/// `String::remove`, which removes the character at byte index `idx`; on an
/// ASCII string byte and char indices agree.
#[verifier::external_body]
pub(crate) fn string_remove(s: &mut String, idx: usize) -> (r: char)
    requires
        ascii(old(s)@),
        idx < old(s)@.len(),
    ensures
        r == old(s)@[idx as int],
        final(s)@ == old(s)@.remove(idx as int),
{
    s.remove(idx)
}

/// `String::len`, the length in bytes; on an ASCII string it is the number of
/// characters.
#[verifier::external_body]
pub(crate) fn string_len(s: &String) -> (r: usize)
    ensures
        ascii(s@) ==> r == s@.len(),
{
    s.len()
}

/// `String::clear`.
#[verifier::external_body]
pub(crate) fn string_clear(s: &mut String)
    ensures
        final(s)@ == Seq::<char>::empty(),
{
    s.clear()
}


/// Scan down from `hi` to 1 for a `'^'`; index 0 is never looked at.
pub fn find_caret(s: &str, hi: usize) -> (r: Option<usize>)
    ensures
        r matches Some(i) ==> caret_at_or_before(s@, hi as int) == Some(i as int) && 1 <= i <= hi,
        r is None ==> caret_at_or_before(s@, hi as int) is None,
{
    let mut i = hi;
    while i > 0
        invariant
            i <= hi,
            caret_at_or_before(s@, hi as int) == caret_at_or_before(s@, i as int),
        decreases i,
    {
        match char_at(s, i) {
            Some(c) => {
                if c == '^' {
                    return Some(i);
                }
            },
            None => {},
        }
        i = i - 1;
    }
    None
}

/// Whether every character of `s` in `[lo, hi)` is a digit, reading a space
/// past the end of `s`.
pub fn digits_only(s: &str, lo: usize, hi: usize) -> (r: bool)
    ensures
        r == all_digits(s@, lo as int, hi as int),
{
    let mut j = lo;
    while j < hi
        invariant
            lo <= j,
            all_digits(s@, lo as int, j as int),
        decreases hi - j,
    {
        let c = match char_at(s, j) {
            Some(c) => c,
            None => ' ',
        };
        if !char_is_digit(c) {
            assert(!is_digit(char_or_space(s@, j as int)));
            return false;
        }
        j = j + 1;
    }
    true
}

/// Whether every character of `s` in `[lo, hi)` is an exponent character,
/// reading a space past the end of `s`.
pub fn exponent_chars_only(s: &str, lo: usize, hi: usize) -> (r: bool)
    ensures
        r == all_exponent_chars(s@, lo as int, hi as int),
{
    let mut j = lo;
    while j < hi
        invariant
            lo <= j,
            all_exponent_chars(s@, lo as int, j as int),
        decreases hi - j,
    {
        let c = match char_at(s, j) {
            Some(c) => c,
            None => ' ',
        };
        if !char_is_digit(c) && c != 'x' && c != 'n' && c != 't' {
            assert(!is_exponent_char(char_or_space(s@, j as int)));
            return false;
        }
        j = j + 1;
    }
    true
}


/// Ten to the power `k`.
pub open spec fn pow10(k: nat) -> nat
    decreases k,
{
    if k == 0 {
        1
    } else {
        10 * pow10((k - 1) as nat)
    }
}

/// The decimal numeral of `n` (as `u64::to_string` writes it).
pub(crate) fn decimal_string(n: u64) -> (r: String)
    ensures
        r@ == decimal(n as nat),
        ascii(r@),
        forall|k: nat| k >= 1 && n < #[trigger] pow10(k) ==> r@.len() <= k,
    decreases n,
{
    let d: u8 = (n % 10) as u8;
    let c = (48u8 + d) as char;
    assert(c == digit_of((n % 10) as int));
    if n < 10 {
        let mut s = String::new();
        string_push(&mut s, c);
        proof {
            assert forall|k: nat| k >= 1 && n < #[trigger] pow10(k) implies s@.len() <= k by {}
        }
        s
    } else {
        let mut s = decimal_string(n / 10);
        proof {
            assert(pow10(19) == 10000000000000000000nat) by {
                reveal_with_fuel(pow10, 20);
            }
            assert((n / 10) < pow10(19));
        }
        let ghost before = s@;
        string_push(&mut s, c);
        proof {
            assert forall|k: nat| k >= 1 && n < #[trigger] pow10(k) implies s@.len() <= k by {
                if k == 1 {
                    assert(pow10(1) == 10) by {
                        reveal_with_fuel(pow10, 2);
                    }
                } else {
                    let k1 = (k - 1) as nat;
                    assert(pow10(k) == 10 * pow10(k1));
                    assert(n / 10 < pow10(k1)) by (nonlinear_arith)
                        requires
                            n < 10 * pow10(k1);
                    assert(before.len() <= k1);
                }
            }
        }
        s
    }
}



} // verus!
