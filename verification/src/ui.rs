//! Screen layout: text widths with raised exponents, the cursor's place,
//! and the drawing commands of the calculator's screen.

use vstd::prelude::*;
use vstd::utf8::encode_utf8;

use crate::eadk::{color_black, rgb565, screen_rect, Color, Point, Rect};
use crate::text::{
    all_exponent_chars, char_string, string_push, string_len, ascii, byte_length, caret_at_or_before, char_at, char_is_digit, char_opt, char_or_space,
    char_or_space_at, exponent_chars_only, find_caret, is_digit,
};

verus! {

/// The byte length of a text.
pub open spec fn byte_len(s: Seq<char>) -> int {
    encode_utf8(s).len() as int
}

/// Position `i` starts a raised exponent: a `'^'` with a digit after it,
/// both before byte length `l`.
pub open spec fn starts_exponent(s: Seq<char>, l: int, i: int) -> bool {
    i + 1 < l && char_opt(s, i) == Some('^') && is_digit(char_or_space(s, i + 1))
}

/// The end of the run of digits that starts at `i`, within byte length `l`.
pub open spec fn digit_run_end(s: Seq<char>, l: int, i: int) -> int
    decreases l - i,
{
    if i < l && is_digit(char_or_space(s, i)) {
        digit_run_end(s, l, i + 1)
    } else {
        i
    }
}

/// The width of the text from position `i` on, with characters of width
/// `cw` and raised exponent digits of half that width.
pub open spec fn width_from(s: Seq<char>, l: int, i: int, cw: int) -> int
    decreases l - i, 1int,
{
    if i < 0 || i >= l {
        0
    } else if starts_exponent(s, l, i) {
        let j = digit_run_end(s, l, i + 1);
        if i < j <= l {
            ((j - (i + 1)) as u16) * (cw / 2) + width_from(s, l, j, cw)
        } else {
            0
        }
    } else {
        cw + width_from(s, l, i + 1, cw)
    }
}

/// The run of digits ends at or after its start, and within the text.
proof fn lemma_digit_run_end(s: Seq<char>, l: int, i: int)
    ensures
        digit_run_end(s, l, i) >= i,
        i <= l ==> digit_run_end(s, l, i) <= l,
        forall|k: int| i <= k < digit_run_end(s, l, i) ==> is_digit(#[trigger] char_or_space(s, k)),
    decreases l - i,
{
    if i < l && is_digit(char_or_space(s, i)) {
        lemma_digit_run_end(s, l, i + 1);
    }
}

/// Widths are not negative.
proof fn lemma_width_nonneg(s: Seq<char>, l: int, i: int, cw: int)
    requires
        cw >= 0,
    ensures
        width_from(s, l, i, cw) >= 0,
    decreases l - i,
{
    if 0 <= i < l {
        if starts_exponent(s, l, i) {
            let j = digit_run_end(s, l, i + 1);
            lemma_digit_run_end(s, l, i + 1);
            lemma_width_nonneg(s, l, j, cw);
        } else {
            lemma_width_nonneg(s, l, i + 1, cw);
        }
    }
}

/// The character width of a font: 12 for the large font, 8 for the small.
pub open spec fn font_width(large_font: bool) -> int {
    if large_font { 12 } else { 8 }
}

/// The width of `text` on screen.
pub open spec fn text_width(text: Seq<char>, large_font: bool) -> int {
    width_from(text, byte_len(text), 0, font_width(large_font))
}

/// Widths from a position in the large font are 3/2 of those in the small.
proof fn lemma_width_from_ratio(s: Seq<char>, l: int, i: int)
    ensures
        2 * width_from(s, l, i, 12) == 3 * width_from(s, l, i, 8),
    decreases l - i,
{
    if 0 <= i < l {
        if starts_exponent(s, l, i) {
            let j = digit_run_end(s, l, i + 1);
            lemma_digit_run_end(s, l, i + 1);
            if i < j <= l {
                lemma_width_from_ratio(s, l, j);
            }
        } else {
            lemma_width_from_ratio(s, l, i + 1);
        }
    }
}

/// A text is exactly half again as wide in the large font as in the small
/// one: 12 against 8 per character, 6 against 4 per exponent digit.
pub proof fn law_large_font_is_three_halves(text: Seq<char>)
    ensures
        2 * text_width(text, true) == 3 * text_width(text, false),
{
    lemma_width_from_ratio(text, byte_len(text), 0);
}

/// Without `^`, each position from `i` on takes the full character width.
proof fn lemma_width_plain(s: Seq<char>, l: int, i: int, cw: int)
    requires
        0 <= i <= l <= s.len(),
        forall|k: int| i <= k < l ==> s[k] != '^',
    ensures
        width_from(s, l, i, cw) == cw * (l - i),
    decreases l - i,
{
    assert(cw * 0 == 0) by (nonlinear_arith);
    if i < l {
        lemma_width_plain(s, l, i + 1, cw);
        assert(!starts_exponent(s, l, i));
        assert(cw + cw * (l - (i + 1)) == cw * (l - i)) by (nonlinear_arith);
    }
}

/// A digit run that reaches the end of the text ends there.
proof fn lemma_digits_to_end(s: Seq<char>, l: int, i: int)
    requires
        0 <= i <= l <= s.len(),
        forall|k: int| i <= k < l ==> is_digit(#[trigger] s[k]),
    ensures
        digit_run_end(s, l, i) == l,
    decreases l - i,
{
    if i < l {
        assert(is_digit(s[i]));
        lemma_digits_to_end(s, l, i + 1);
    }
}

/// An ASCII text without `^` is as wide as its characters: 12 each in the
/// large font, 8 in the small one.
pub proof fn law_plain_text_width(s: Seq<char>, large_font: bool)
    requires
        ascii(s),
        forall|k: int| 0 <= k < s.len() ==> s[k] != '^',
    ensures
        text_width(s, large_font) == (if large_font { 12int } else { 8int }) * s.len(),
{
    vstd::utf8::is_ascii_chars_encode_utf8(s);
    lemma_width_plain(s, s.len() as int, 0, font_width(large_font));
}

/// An exponent at the end of a text takes half the character width per
/// digit, and its `^` takes no room: `a` followed by `^` and digits is as
/// wide as `a` plus 6 (large font) or 4 per digit.
pub proof fn law_exponent_width(a: Seq<char>, d: Seq<char>, large_font: bool)
    requires
        ascii(a),
        ascii(d),
        forall|k: int| 0 <= k < a.len() ==> a[k] != '^',
        d.len() > 0,
        forall|k: int| 0 <= k < d.len() ==> is_digit(#[trigger] d[k]),
        a.len() + 1 + d.len() < 65536,
    ensures
        text_width(a + seq!['^'] + d, large_font)
            == (if large_font { 12int } else { 8int }) * a.len() + (if large_font { 6int } else { 4int }) * d.len(),
{
    let s = a + seq!['^'] + d;
    let cw = font_width(large_font);
    assert(ascii(s)) by {
        assert forall|k: int| 0 <= k < s.len() implies '\0' <= #[trigger] s[k] <= '\u{7f}' by {
            if k < a.len() {
                assert(s[k] == a[k]);
            } else if k > a.len() {
                assert(s[k] == d[k - a.len() - 1]);
            }
        }
    }
    vstd::utf8::is_ascii_chars_encode_utf8(s);
    let l = s.len() as int;
    let m = a.len() as int;
    assert forall|k: int| m + 1 <= k < l implies is_digit(#[trigger] s[k]) by {
        assert(s[k] == d[k - m - 1]);
    }
    lemma_digits_to_end(s, l, m + 1);
    assert(s[m] == '^');
    assert(s[m + 1] == d[0]);
    assert(starts_exponent(s, l, m));
    assert(width_from(s, l, l, cw) == 0);
    assert(width_from(s, l, m, cw) == ((l - (m + 1)) as u16) * (cw / 2));
    assert(((l - (m + 1)) as u16) as int == d.len());
    assert forall|k: int| 0 <= k < m implies s[k] != '^' by {
        assert(s[k] == a[k]);
    }
    lemma_width_split(s, l, 0, m, cw);
    assert(byte_len(s) == l);
    let n = d.len() as int;
    assert(width_from(s, l, 0, cw) == cw * m + n * (cw / 2));
    if large_font {
        assert(cw == 12);
        assert(cw / 2 == 6);
        assert(n * (cw / 2) == 6 * n) by (nonlinear_arith)
            requires
                cw / 2 == 6;
        assert(cw * m == 12 * m);
    } else {
        assert(cw == 8);
        assert(cw / 2 == 4);
        assert(n * (cw / 2) == 4 * n) by (nonlinear_arith)
            requires
                cw / 2 == 4;
        assert(cw * m == 8 * m);
    }
}

/// Without `^` before `m`, the width from `i` is the full width up to `m`
/// plus the width from `m`.
proof fn lemma_width_split(s: Seq<char>, l: int, i: int, m: int, cw: int)
    requires
        0 <= i <= m < l <= s.len(),
        forall|k: int| 0 <= k < m ==> s[k] != '^',
    ensures
        width_from(s, l, i, cw) == cw * (m - i) + width_from(s, l, m, cw),
    decreases m - i,
{
    assert(cw * 0 == 0) by (nonlinear_arith);
    if i < m {
        lemma_width_split(s, l, i + 1, m, cw);
        assert(!starts_exponent(s, l, i));
        assert(cw + cw * (m - (i + 1)) == cw * (m - i)) by (nonlinear_arith);
    }
}

/// The width of `text` on screen: characters of width 12 (large font) or 8,
/// and the digits of an exponent (`^` followed by digits) at half width,
/// with the `^` itself taking no room. Positions run over the byte length
/// of the text and read characters by index.
pub fn estimate_text_width(text: &str, large_font: bool) -> (r: u16)
    requires
        text_width(text@, large_font) <= u16::MAX,
    ensures
        r == text_width(text@, large_font),
{
    proof {
        lemma_width_nonneg(text@, byte_len(text@), 0, font_width(large_font));
    }
    text_width_checked(text, large_font).unwrap()
}

/// The width of `text` on screen (see [`estimate_text_width`]), or `None`
/// when it passes `u16::MAX`.
pub fn text_width_checked(text: &str, large_font: bool) -> (r: Option<u16>)
    ensures
        r == (if text_width(text@, large_font) <= u16::MAX {
            Some(text_width(text@, large_font) as u16)
        } else {
            None::<u16>
        }),
{
    let char_width: u16 = if large_font { 12 } else { 8 };
    let ghost s = text@;
    let ghost cw = char_width as int;
    let l = byte_length(text);
    let mut width: u16 = 0;
    let mut i: usize = 0;
    proof {
        lemma_width_nonneg(s, l as int, 0, cw);
    }
    while i < l
        invariant
            s == text@,
            l == byte_len(s),
            cw == font_width(large_font),
            cw == char_width as int,
            i <= l,
            width + width_from(s, l as int, i as int, cw) == text_width(s, large_font),
        decreases l - i,
    {
        proof {
            lemma_width_nonneg(s, l as int, i as int, cw);
        }
        let is_caret = match char_at(text, i) {
            Some(c) => c == '^',
            None => false,
        };
        let next_is_digit = i + 1 < l && char_is_digit(char_or_space_at(text, i + 1));
        if i + 1 < l && is_caret && next_is_digit {
            let ghost caret = i as int;
            i = i + 1;
            let ghost start = i as int;
            proof {
                lemma_digit_run_end(s, l as int, start);
            }
            let mut count: usize = 0;
            loop
                invariant
                    s == text@,
                    l == byte_len(s),
                    0 <= start <= i <= l,
                    count == i - start,
                    digit_run_end(s, l as int, start) == digit_run_end(s, l as int, i as int),
                ensures
                    start <= i <= l,
                    count == i - start,
                    digit_run_end(s, l as int, start) == i,
                decreases l - i,
            {
                if i >= l {
                    break;
                }
                if !char_is_digit(char_or_space_at(text, i)) {
                    break;
                }
                count = count + 1;
                i = i + 1;
            }
            proof {
                lemma_width_nonneg(s, l as int, i as int, cw);
                assert(starts_exponent(s, l as int, caret));
                assert(width_from(s, l as int, caret, cw)
                    == ((i - start) as u16) * (cw / 2) + width_from(s, l as int, i as int, cw));
            }
            let piece: u32 = (count as u16) as u32 * (char_width / 2) as u32;
            if width as u32 + piece > 65535 {
                return None;
            }
            width = width + (count as u16) * (char_width / 2);
        } else {
            proof {
                lemma_width_nonneg(s, l as int, i + 1, cw);
                assert(!starts_exponent(s, l as int, i as int));
                assert(width_from(s, l as int, i as int, cw) == cw + width_from(s, l as int, i + 1, cw));
            }
            if width as u32 + char_width as u32 > 65535 {
                return None;
            }
            width = width + char_width;
            i = i + 1;
        }
    }
    Some(width)
}


/// Walking the cursor over the text from position `i` with the offset at
/// `(x, y)`, up to position `cp`: a character moves it 12 to the right, an
/// exponent digit 8 (the `^` before digits takes no room), and past 300 it
/// wraps to the start of the next line, 20 lower. `None` where an offset
/// passes 65535.
pub open spec fn cursor_walk(s: Seq<char>, l: int, cp: int, i: int, x: int, y: int) -> Option<(int, int)>
    decreases l - i,
{
    if i < 0 || i >= cp || i >= l {
        Some((x, y))
    } else {
        let j = if starts_exponent(s, l, i) { digit_run_end(s, l, i + 1) } else { i + 1 };
        let x1 = if starts_exponent(s, l, i) { x + 8 * (j - (i + 1)) } else { x + 12 };
        if x1 > u16::MAX || !(i < j <= l) {
            None
        } else {
            let x2 = if x1 > 300 { 0 } else { x1 };
            let y2 = if x1 > 300 { y + 20 } else { y };
            if y2 > u16::MAX {
                None
            } else {
                cursor_walk(s, l, cp, j, x2, y2)
            }
        }
    }
}

/// The cursor at `cp` stands in an exponent: after a `'^'` at or before
/// `cp - 1` (but not at 0) and only exponent characters between.
pub open spec fn in_exponent_zone(s: Seq<char>, cp: int) -> bool {
    &&& cp > 0
    &&& caret_at_or_before(s, cp - 1) matches Some(c) && all_exponent_chars(s, c + 1, cp)
}

/// The offset of the cursor at `cp` from the start of the input line, with
/// its vertical offset 8 when it stands in an exponent (or, in exponent
/// mode, right after a `'^'`). `None` where an offset overflows.
pub open spec fn cursor_offset(s: Seq<char>, cp: int, exponent_mode: bool) -> Option<(int, int)> {
    match cursor_walk(s, byte_len(s), cp, 0, 0, 0) {
        None => None,
        Some((x, y)) => {
            let y1 = if exponent_mode && cp > 0 && char_opt(s, cp - 1) == Some('^') { 8 } else { y };
            let y2 = if in_exponent_zone(s, cp) { 8 } else { y1 };
            Some((x, y2))
        },
    }
}

/// Whether the cursor at `cursor_pos` stands in an exponent.
fn cursor_in_exponent(text: &str, cursor_pos: usize) -> (r: bool)
    ensures
        r == in_exponent_zone(text@, cursor_pos as int),
{
    if cursor_pos > 0 {
        match find_caret(text, cursor_pos - 1) {
            Some(caret_pos) => exponent_chars_only(text, caret_pos + 1, cursor_pos),
            None => false,
        }
    } else {
        false
    }
}

/// The offset of the cursor at `cursor_pos` from the start of the input
/// line, as (x, y): see [`cursor_offset`].
pub fn calculate_cursor_x(text: &str, cursor_pos: usize, exponent_mode: bool) -> (r: (u16, u16))
    requires
        cursor_offset(text@, cursor_pos as int, exponent_mode) is Some,
    ensures
        cursor_offset(text@, cursor_pos as int, exponent_mode) == Some((r.0 as int, r.1 as int)),
{
    cursor_offset_checked(text, cursor_pos, exponent_mode).unwrap()
}

/// The offset of the cursor (see [`calculate_cursor_x`]), or `None` when an
/// offset passes `u16::MAX`.
pub fn cursor_offset_checked(text: &str, cursor_pos: usize, exponent_mode: bool) -> (r: Option<(u16, u16)>)
    ensures
        match r {
            Some((x, y)) => cursor_offset(text@, cursor_pos as int, exponent_mode) == Some((x as int, y as int)),
            None => cursor_offset(text@, cursor_pos as int, exponent_mode) is None,
        },
{
    let char_width: u16 = 12;
    let max_width: u16 = 300;
    let ghost s = text@;
    let l = byte_length(text);
    let mut x_offset: u16 = 0;
    let mut y_offset: u16 = 0;
    let mut i: usize = 0;
    while i < cursor_pos && i < l
        invariant
            s == text@,
            l == byte_len(s),
            i <= l,
            char_width == 12,
            max_width == 300,
            cursor_walk(s, l as int, cursor_pos as int, i as int, x_offset as int, y_offset as int)
                == cursor_walk(s, l as int, cursor_pos as int, 0, 0, 0),
        decreases l - i,
    {
        let ghost i_pre = i as int;
        let ghost x_pre = x_offset as int;
        let ghost y_pre = y_offset as int;
        let current_char = char_or_space_at(text, i);
        if current_char == '^' && i + 1 < l && char_is_digit(char_or_space_at(text, i + 1)) {
            let ghost caret = i as int;
            let ghost x0 = x_offset as int;
            assert(starts_exponent(s, l as int, caret));
            proof {
                lemma_digit_run_end(s, l as int, caret + 1);
                lemma_digit_run_end(s, l as int, caret + 2);
            }
            i = i + 1;
            loop
                invariant
                    s == text@,
                    l == byte_len(s),
                    0 <= caret < i <= l,
                    caret < cursor_pos,
                    starts_exponent(s, l as int, caret),
                    cursor_walk(s, l as int, cursor_pos as int, caret, x0, y_offset as int)
                        == cursor_walk(s, l as int, cursor_pos as int, 0, 0, 0),
                    x_offset == x0 + 8 * (i - (caret + 1)),
                    digit_run_end(s, l as int, caret + 1) == digit_run_end(s, l as int, i as int),
                    caret + 1 < digit_run_end(s, l as int, caret + 1) <= l,
                ensures
                    caret < i <= l,
                    x_offset == x0 + 8 * (i - (caret + 1)),
                    digit_run_end(s, l as int, caret + 1) == i,
                decreases l - i,
            {
                if i >= l {
                    break;
                }
                if !char_is_digit(char_or_space_at(text, i)) {
                    break;
                }
                proof {
                    lemma_digit_run_end(s, l as int, i + 1);
                }
                if x_offset as u32 + 8 > 65535 {
                    return None;
                }
                x_offset = x_offset + 8;
                i = i + 1;
            }
        } else {
            assert(!starts_exponent(s, l as int, i as int));
            if x_offset as u32 + char_width as u32 > 65535 {
                return None;
            }
            x_offset = x_offset + char_width;
            i = i + 1;
        }
        if x_offset > max_width {
            if y_offset as u32 + 20 > 65535 {
                return None;
            }
            x_offset = 0;
            y_offset = y_offset + 20;
        }
    }
    let ghost walked = (x_offset as int, y_offset as int);
    assert(cursor_walk(s, l as int, cursor_pos as int, 0, 0, 0) == Some(walked));
    if exponent_mode && cursor_pos > 0 {
        match char_at(text, cursor_pos - 1) {
            Some(c) => {
                if c == '^' {
                    y_offset = 8;
                }
            },
            None => {},
        }
    }
    if cursor_in_exponent(text, cursor_pos) {
        y_offset = 8;
    }
    Some((x_offset, y_offset))
}


proof fn lemma_cursor_walk_plain(s: Seq<char>, l: int, cp: int, i: int)
    requires
        0 <= i <= cp <= l <= s.len(),
        12 * cp <= 300,
        forall|k: int| 0 <= k < l ==> s[k] != '^',
    ensures
        cursor_walk(s, l, cp, i, 12 * i, 0) == Some((12 * cp, 0int)),
    decreases cp - i,
{
    if i < cp {
        assert(!starts_exponent(s, l, i));
        lemma_cursor_walk_plain(s, l, cp, i + 1);
    }
}

proof fn lemma_no_caret(s: Seq<char>, hi: int)
    requires
        hi < s.len(),
        forall|k: int| 0 <= k < s.len() ==> s[k] != '^',
    ensures
        caret_at_or_before(s, hi) is None,
    decreases hi,
{
    if hi > 0 {
        lemma_no_caret(s, hi - 1);
    }
}

/// In an ASCII text without `^`, the cursor at `cp` stands 12 per character
/// to the right of the line's start, on the line itself, while that stays
/// within 300.
pub proof fn law_cursor_in_plain_text(s: Seq<char>, cp: int, exponent_mode: bool)
    requires
        ascii(s),
        forall|k: int| 0 <= k < s.len() ==> s[k] != '^',
        0 <= cp <= s.len(),
        12 * cp <= 300,
    ensures
        cursor_offset(s, cp, exponent_mode) == Some((12 * cp, 0int)),
{
    vstd::utf8::is_ascii_chars_encode_utf8(s);
    lemma_cursor_walk_plain(s, s.len() as int, cp, 0);
    if cp > 0 {
        lemma_no_caret(s, cp - 1);
        assert(char_opt(s, cp - 1) == Some(s[cp - 1]));
    }
}

/// The walk keeps the cursor within 300 of the left edge once it started
/// there.
proof fn lemma_cursor_walk_within(s: Seq<char>, l: int, cp: int, i: int, x: int, y: int)
    requires
        0 <= x <= 300,
    ensures
        cursor_walk(s, l, cp, i, x, y) matches Some((x1, _)) ==> 0 <= x1 <= 300,
    decreases l - i,
{
    if !(i < 0 || i >= cp || i >= l) {
        let j = if starts_exponent(s, l, i) { digit_run_end(s, l, i + 1) } else { i + 1 };
        let x1 = if starts_exponent(s, l, i) { x + 8 * (j - (i + 1)) } else { x + 12 };
        if !(x1 > u16::MAX || !(i < j <= l)) {
            if starts_exponent(s, l, i) {
                lemma_digit_run_end(s, l, i + 1);
            }
            let x2 = if x1 > 300 { 0 } else { x1 };
            let y2 = if x1 > 300 { y + 20 } else { y };
            lemma_cursor_walk_within(s, l, cp, j, x2, y2);
        }
    }
}

/// The cursor never stands more than 300 to the right of the start of the
/// input line: past that it wraps to the next line.
pub proof fn law_cursor_within_line(s: Seq<char>, cp: int, exponent_mode: bool)
    ensures
        cursor_offset(s, cp, exponent_mode) matches Some((x, _)) ==> 0 <= x <= 300,
{
    lemma_cursor_walk_within(s, byte_len(s), cp, 0, 0, 0);
}

/// What the screen is asked to do.
pub enum Command {
    /// Fill a rectangle with a colour.
    Fill(Rect, Color),
    /// Draw a text at a point, in the large font or the small one, with a
    /// text colour and a background colour.
    Text(Seq<char>, Point, bool, Color, Color),
}

/// A drawing command for the display.
pub enum DisplayCommand {
    /// Fill a rectangle with a colour.
    PushRectUniform(Rect, Color),
    /// Draw a text at a point, in the large font or the small one, with a
    /// text colour and a background colour.
    DrawString(String, Point, bool, Color, Color),
}

/// The mathematical value of a drawing command.
pub open spec fn command_view(c: DisplayCommand) -> Command {
    match c {
        DisplayCommand::PushRectUniform(r, col) => Command::Fill(r, col),
        DisplayCommand::DrawString(t, p, large, tc, bc) => Command::Text(t@, p, large, tc, bc),
    }
}

/// The mathematical value of a list of drawing commands.
pub open spec fn commands_view(v: Seq<DisplayCommand>) -> Seq<Command> {
    v.map_values(|c: DisplayCommand| command_view(c))
}

/// `prefix` followed by the commands of `o`, if any.
pub open spec fn prefixed(o: Option<Seq<Command>>, prefix: Seq<Command>) -> Option<Seq<Command>> {
    match o {
        Some(r) => Some(prefix + r),
        None => None,
    }
}

/// The characters of `s` at positions `[lo, hi)` (a space past its end).
pub open spec fn chars_between(s: Seq<char>, lo: int, hi: int) -> Seq<char> {
    Seq::new((hi - lo) as nat, |k: int| char_or_space(s, lo + k))
}

/// Drawing the text from position `i` on at `x` to the right of `(px, py)`:
/// each character on its own in the given font, each exponent's digits as
/// one small text raised by 8 (large font) or 6, taking 8 per digit. `None`
/// where a coordinate leaves the range of `u16`.
pub open spec fn draw_walk(s: Seq<char>, l: int, i: int, x: int, px: int, py: int, large: bool, tc: Color, bc: Color) -> Option<Seq<Command>>
    decreases l - i,
{
    if i < 0 || i >= l {
        Some(Seq::empty())
    } else if starts_exponent(s, l, i) {
        let j = digit_run_end(s, l, i + 1);
        let ey: int = if large { 8 } else { 6 };
        let step = ((j - (i + 1)) as u16) * 8;
        if !(i + 1 < j <= l) || px + x > u16::MAX || py < ey || step > u16::MAX || x + step > u16::MAX {
            None
        } else {
            let cmd = Command::Text(
                chars_between(s, i + 1, j),
                Point { x: (px + x) as u16, y: (py - ey) as u16 },
                false,
                tc,
                bc,
            );
            prefixed(draw_walk(s, l, j, x + step, px, py, large, tc, bc), seq![cmd])
        }
    } else {
        let cw = font_width(large);
        if px + x > u16::MAX || x + cw > u16::MAX {
            None
        } else {
            let cmd = Command::Text(seq![char_or_space(s, i)], Point { x: (px + x) as u16, y: py as u16 }, large, tc, bc);
            prefixed(draw_walk(s, l, i + 1, x + cw, px, py, large, tc, bc), seq![cmd])
        }
    }
}

/// The commands of plain text: one per character, `cw` apart.
proof fn lemma_draw_plain(s: Seq<char>, l: int, i: int, x: int, px: int, py: int, large: bool, tc: Color, bc: Color)
    requires
        0 <= i <= l <= s.len(),
        0 <= x,
        0 <= px,
        0 <= py <= u16::MAX,
        forall|k: int| 0 <= k < l ==> s[k] != '^',
        px + x + font_width(large) * (l - i) <= u16::MAX,
    ensures
        draw_walk(s, l, i, x, px, py, large, tc, bc) == Some(Seq::new((l - i) as nat, |k: int| Command::Text(
            seq![s[i + k]],
            Point { x: (px + x + font_width(large) * k) as u16, y: py as u16 },
            large,
            tc,
            bc,
        ))),
    decreases l - i,
{
    let cw = font_width(large);
    let want = Seq::new((l - i) as nat, |k: int| Command::Text(
        seq![s[i + k]],
        Point { x: (px + x + cw * k) as u16, y: py as u16 },
        large,
        tc,
        bc,
    ));
    if i < l {
        assert(!starts_exponent(s, l, i));
        assert(cw * (l - i) == cw + cw * (l - (i + 1))) by (nonlinear_arith);
        assert(cw * (l - (i + 1)) >= 0) by (nonlinear_arith)
            requires
                cw >= 0,
                l - (i + 1) >= 0;
        lemma_draw_plain(s, l, i + 1, x + cw, px, py, large, tc, bc);
        let rest = Seq::new((l - (i + 1)) as nat, |k: int| Command::Text(
            seq![s[i + 1 + k]],
            Point { x: (px + (x + cw) + cw * k) as u16, y: py as u16 },
            large,
            tc,
            bc,
        ));
        assert forall|k: int| 0 <= k < rest.len() implies #[trigger] rest[k] == want[k + 1] by {
            assert(px + (x + cw) + cw * k == px + x + cw * (k + 1)) by (nonlinear_arith);
        }
        assert(cw * 0 == 0);
        assert(seq![want[0]] + rest =~= want);
    } else {
        assert(want =~= Seq::<Command>::empty());
    }
}

/// An ASCII text without `^` is drawn one character at a time, each in
/// the given font and colours, 12 (large font) or 8 apart from the point.
pub proof fn law_plain_text_commands(s: Seq<char>, point: Point, large: bool, tc: Color, bc: Color)
    requires
        ascii(s),
        forall|k: int| 0 <= k < s.len() ==> s[k] != '^',
        point.x + (if large { 12int } else { 8int }) * s.len() <= u16::MAX,
    ensures
        draw_commands(s, point, large, tc, bc) == Some(Seq::new(s.len(), |k: int| Command::Text(
            seq![s[k]],
            Point { x: (point.x + (if large { 12int } else { 8int }) * k) as u16, y: point.y },
            large,
            tc,
            bc,
        ))),
{
    vstd::utf8::is_ascii_chars_encode_utf8(s);
    lemma_draw_plain(s, s.len() as int, 0, 0, point.x as int, point.y as int, large, tc, bc);
    let a = Seq::new(s.len(), |k: int| Command::Text(
        seq![s[k]],
        Point { x: (point.x + (if large { 12int } else { 8int }) * k) as u16, y: point.y },
        large,
        tc,
        bc,
    ));
    let b = Seq::new((s.len() - 0) as nat, |k: int| Command::Text(
        seq![s[0 + k]],
        Point { x: (point.x + 0 + font_width(large) * k) as u16, y: (point.y as int) as u16 },
        large,
        tc,
        bc,
    ));
    assert(a =~= b);
}

/// The commands that draw `text` at `point`.
pub open spec fn draw_commands(text: Seq<char>, point: Point, large: bool, tc: Color, bc: Color) -> Option<Seq<Command>> {
    draw_walk(text, byte_len(text), 0, 0, point.x as int, point.y as int, large, tc, bc)
}

/// Append to `cmds` the commands that draw `text` at `point`.
fn draw_string_into(
    cmds: &mut Vec<DisplayCommand>,
    text: &str,
    point: Point,
    large_font: bool,
    text_color: Color,
    background_color: Color,
) -> (ok: bool)
    ensures
        ok == draw_commands(text@, point, large_font, text_color, background_color) is Some,
        ok ==> commands_view(final(cmds)@) == commands_view(old(cmds)@)
            + draw_commands(text@, point, large_font, text_color, background_color).unwrap(),
{
    let char_width: u16 = if large_font { 12 } else { 8 };
    let ghost s = text@;
    let ghost total = draw_commands(s, point, large_font, text_color, background_color);
    let l = byte_length(text);
    let mut x_offset: u16 = 0;
    let mut i: usize = 0;
    proof {
        assert(commands_view(cmds@) + Seq::<Command>::empty() =~= commands_view(cmds@));
    }
    while i < l
        invariant
            s == text@,
            l == byte_len(s),
            l <= isize::MAX,
            i <= l,
            char_width == font_width(large_font),
            total == draw_commands(s, point, large_font, text_color, background_color),
            prefixed(draw_walk(s, l as int, i as int, x_offset as int, point.x as int, point.y as int, large_font, text_color, background_color), commands_view(cmds@))
                == prefixed(total, commands_view(old(cmds)@)),
        decreases l - i,
    {
        let ghost i_pre = i as int;
        let ghost x_pre = x_offset as int;
        let ghost before = commands_view(cmds@);
        let current_char = char_or_space_at(text, i);
        if current_char == '^' && i + 1 < l && char_is_digit(char_or_space_at(text, i + 1)) {
            assert(starts_exponent(s, l as int, i_pre));
            proof {
                lemma_digit_run_end(s, l as int, i_pre + 1);
            }
            i = i + 1;
            let mut exp_text = String::new();
            loop
                invariant
                    s == text@,
                    l == byte_len(s),
                    0 <= i_pre < i <= l,
                    l <= isize::MAX,
                    exp_text@ == chars_between(s, i_pre + 1, i as int),
                    digit_run_end(s, l as int, i_pre + 1) == digit_run_end(s, l as int, i as int),
                    ascii(exp_text@),
                ensures
                    i_pre < i <= l,
                    exp_text@ == chars_between(s, i_pre + 1, i as int),
                    digit_run_end(s, l as int, i_pre + 1) == i,
                    ascii(exp_text@),
                decreases l - i,
            {
                if i >= l {
                    break;
                }
                let c = char_or_space_at(text, i);
                if !char_is_digit(c) {
                    break;
                }
                assert(exp_text@.len() == i - (i_pre + 1));
                string_push(&mut exp_text, c);
                proof {
                    lemma_digit_run_end(s, l as int, i + 1);
                    assert(exp_text@ =~= chars_between(s, i_pre + 1, i + 1));
                }
                i = i + 1;
            }
            proof {
                lemma_digit_run_end(s, l as int, i_pre + 2);
            }
            if !string_is_empty_text(&exp_text) {
                let exp_y_offset: u16 = if large_font { 8 } else { 6 };
                let n = string_len(&exp_text);
                let step: u32 = (n as u16) as u32 * 8;
                if point.x as u32 + x_offset as u32 > 65535 || point.y < exp_y_offset || step > 65535
                    || x_offset as u32 + step > 65535 {
                    return false;
                }
                let exp_point = Point { x: point.x + x_offset, y: point.y - exp_y_offset };
                cmds.push(DisplayCommand::DrawString(exp_text, exp_point, false, text_color, background_color));
                x_offset = x_offset + (n as u16) * 8;
                proof {
                    assert(commands_view(cmds@) =~= before.push(command_view(cmds@.last())));
                }
            }
        } else {
            if point.x as u32 + x_offset as u32 > 65535 || x_offset as u32 + char_width as u32 > 65535 {
                return false;
            }
            let char_point = Point { x: point.x + x_offset, y: point.y };
            let char_str = char_string(current_char);
            cmds.push(DisplayCommand::DrawString(char_str, char_point, large_font, text_color, background_color));
            x_offset = x_offset + char_width;
            i = i + 1;
            proof {
                assert(commands_view(cmds@) =~= before.push(command_view(cmds@.last())));
            }
        }
    }
    proof {
        assert(commands_view(cmds@) + Seq::<Command>::empty() =~= commands_view(cmds@));
    }
    true
}

/// Whether a text is empty.
fn string_is_empty_text(s: &String) -> (r: bool)
    ensures
        r == (s@.len() == 0),
{
    s.as_str().is_empty()
}

/// The commands that draw `text` at `point`: each character on its own in
/// the given font (width 12 large, 8 small), and the digits of each
/// exponent (`^` followed by digits) as one small text raised by 8 (large
/// font) or 6, taking 8 per digit; see [`draw_commands`].
pub fn draw_string_with_exponents(
    text: &str,
    point: Point,
    large_font: bool,
    text_color: Color,
    background_color: Color,
) -> (r: Vec<DisplayCommand>)
    requires
        draw_commands(text@, point, large_font, text_color, background_color) is Some,
    ensures
        commands_view(r@) == draw_commands(text@, point, large_font, text_color, background_color).unwrap(),
{
    let mut cmds: Vec<DisplayCommand> = Vec::new();
    let ok = draw_string_into(&mut cmds, text, point, large_font, text_color, background_color);
    proof {
        assert(commands_view(Seq::<DisplayCommand>::empty()) =~= Seq::<Command>::empty());
        assert(Seq::<Command>::empty() + draw_commands(text@, point, large_font, text_color, background_color).unwrap()
            =~= draw_commands(text@, point, large_font, text_color, background_color).unwrap());
    }
    cmds
}


/// White.
pub open spec fn white() -> Color {
    Color { rgb565: rgb565(255, 255, 255) as u16 }
}

/// The grey of the separator line.
pub open spec fn grey() -> Color {
    Color { rgb565: rgb565(200, 200, 200) as u16 }
}

/// Black.
pub open spec fn black() -> Color {
    Color { rgb565: 0 }
}

/// `a - b`, or 0 when `b` is larger.
pub open spec fn sat_sub(a: int, b: int) -> int {
    if a >= b { a - b } else { 0 }
}

/// The commands of history lines `i` on, the first at height `y`, 20 apart:
/// the input at the left in the small font, its result right-aligned 10
/// from the right edge with raised exponents.
pub open spec fn history_commands(h: Seq<(Seq<char>, Seq<char>)>, i: int, y: int) -> Option<Seq<Command>>
    decreases h.len() - i,
{
    if i < 0 || i >= h.len() {
        Some(Seq::empty())
    } else {
        let input = h[i].0;
        let result = h[i].1;
        let rw = text_width(result, false);
        if rw > u16::MAX || y > u16::MAX {
            None
        } else {
            let rx = sat_sub(sat_sub(320, rw), 10);
            let first = Command::Text(input, Point { x: 10, y: y as u16 }, false, black(), white());
            match draw_commands(result, Point { x: rx as u16, y: y as u16 }, false, black(), white()) {
                None => None,
                Some(dc) => prefixed(history_commands(h, i + 1, y + 20), seq![first] + dc),
            }
        }
    }
}

/// The separator line: 320 grey pixels at height 200.
pub open spec fn separator_commands() -> Seq<Command> {
    Seq::new(320, |x: int| Command::Fill(Rect { x: x as u16, y: 200, width: 1, height: 1 }, grey()))
}

/// The cursor: a `|` at its offset from the input line, in the small font
/// inside an exponent, shown while the blink timer is in an even period of 30.
pub open spec fn cursor_commands(input: Seq<char>, cp: int, timer: int, em: bool) -> Option<Seq<Command>> {
    if (timer / 30) % 2 == 0 {
        match cursor_offset(input, cp, em) {
            None => None,
            Some((cx, cy)) => {
                if 10 + cx > u16::MAX || 210 + cy > u16::MAX {
                    None
                } else {
                    Some(seq![Command::Text(
                        seq!['|'],
                        Point { x: (10 + cx) as u16, y: (210 + cy) as u16 },
                        !in_exponent_zone(input, cp),
                        black(),
                        white(),
                    )])
                }
            },
        }
    } else {
        Some(Seq::empty())
    }
}

/// The first history line shown: the last 8 lines are shown.
pub open spec fn first_shown(n: int) -> int {
    if n > 8 { n - 8 } else { 0 }
}

/// The commands of the whole screen: a white background, the title centred
/// at the top in the large font, the last 8 history lines from height 40,
/// the separator, the input line at (10, 210) in the large font, and the
/// cursor. `None` where a coordinate overflows.
pub open spec fn interface_commands(
    title: Seq<char>,
    h: Seq<(Seq<char>, Seq<char>)>,
    input: Seq<char>,
    cp: int,
    timer: int,
    em: bool,
) -> Option<Seq<Command>> {
    let tw = text_width(title, true);
    if tw > u16::MAX {
        None
    } else {
        let tx = sat_sub(320, tw) / 2;
        let head = seq![
            Command::Fill(Rect { x: 0, y: 0, width: 320, height: 240 }, white()),
            Command::Text(title, Point { x: (tx + 10) as u16, y: 10 }, true, black(), white()),
        ];
        match history_commands(h, first_shown(h.len() as int), 40) {
            None => None,
            Some(hc) => match draw_commands(input, Point { x: 10, y: 210 }, true, black(), white()) {
                None => None,
                Some(ic) => match cursor_commands(input, cp, timer, em) {
                    None => None,
                    Some(cc) => Some(head + hc + separator_commands() + ic + cc),
                },
            },
        }
    }
}

/// The history as texts.
pub open spec fn history_view(h: Seq<(String, String)>) -> Seq<(Seq<char>, Seq<char>)> {
    h.map_values(|p: (String, String)| (p.0@, p.1@))
}

/// The commands that draw the calculator's screen: see
/// [`interface_commands`].
pub fn draw_interface(
    title: &str,
    calculation_history: &[(String, String)],
    input_buffer: &str,
    cursor_position: usize,
    cursor_blink_timer: u32,
    exponent_mode: bool,
) -> (r: Vec<DisplayCommand>)
    requires
        interface_commands(title@, history_view(calculation_history@), input_buffer@, cursor_position as int,
            cursor_blink_timer as int, exponent_mode) is Some,
    ensures
        Some(commands_view(r@)) == interface_commands(title@, history_view(calculation_history@), input_buffer@,
            cursor_position as int, cursor_blink_timer as int, exponent_mode),
{
    draw_interface_checked(title, calculation_history, input_buffer, cursor_position, cursor_blink_timer,
        exponent_mode).unwrap()
}

/// The commands that draw the calculator's screen (see [`draw_interface`]),
/// or `None` when a coordinate of the layout passes `u16::MAX`.
pub fn draw_interface_checked(
    title: &str,
    calculation_history: &[(String, String)],
    input_buffer: &str,
    cursor_position: usize,
    cursor_blink_timer: u32,
    exponent_mode: bool,
) -> (r: Option<Vec<DisplayCommand>>)
    ensures
        match r {
            Some(v) => Some(commands_view(v@)) == interface_commands(title@, history_view(calculation_history@),
                input_buffer@, cursor_position as int, cursor_blink_timer as int, exponent_mode),
            None => interface_commands(title@, history_view(calculation_history@), input_buffer@,
                cursor_position as int, cursor_blink_timer as int, exponent_mode) is None,
        },
{
    let ghost h = history_view(calculation_history@);
    let ghost total = interface_commands(title@, h, input_buffer@, cursor_position as int,
        cursor_blink_timer as int, exponent_mode);
    let background = Color::from_888(255, 255, 255);
    let mut cmds: Vec<DisplayCommand> = Vec::new();
    cmds.push(DisplayCommand::PushRectUniform(screen_rect(), background));

    proof {
        lemma_width_nonneg(title@, byte_len(title@), 0, 12);
    }
    let title_width = match text_width_checked(title, true) {
        Some(w) => w,
        None => return None,
    };
    let title_x = (320u16.saturating_sub(title_width)) / 2;
    let title_point = Point { x: title_x + 10, y: 10 };
    cmds.push(DisplayCommand::DrawString(title.to_owned(), title_point, true, color_black(), background));

    let ghost head = commands_view(cmds@);
    let n = calculation_history.len();
    let max_history_items: usize = 8;
    let start_index = if n > max_history_items { n - max_history_items } else { 0 };
    let mut y_offset: u16 = 40;
    let mut i: usize = start_index;
    proof {
        assert(head + Seq::<Command>::empty() =~= head);
    }
    while i < n
        invariant
            n == calculation_history@.len(),
            h == history_view(calculation_history@),
            start_index == first_shown(n as int),
            start_index <= i <= n,
            y_offset == 40 + 20 * (i - start_index),
            n - start_index <= 8,
            prefixed(history_commands(h, i as int, y_offset as int), commands_view(cmds@))
                == prefixed(history_commands(h, start_index as int, 40), head),
        decreases n - i,
    {
        let ghost before = commands_view(cmds@);
        let entry = &calculation_history[i];
        assert(h[i as int] == (entry.0@, entry.1@));
        let input_point = Point { x: 10, y: y_offset };
        cmds.push(DisplayCommand::DrawString(entry.0.clone(), input_point, false, color_black(), Color::from_888(255, 255, 255)));
        proof {
            assert(commands_view(cmds@) =~= before.push(command_view(cmds@.last())));
        }
        proof {
            lemma_width_nonneg(entry.1@, byte_len(entry.1@), 0, 8);
        }
        let result_width = match text_width_checked(entry.1.as_str(), false) {
            Some(w) => w,
            None => return None,
        };
        let result_x = 320u16.saturating_sub(result_width).saturating_sub(10);
        let result_point = Point { x: result_x, y: y_offset };
        let ghost mid = commands_view(cmds@);
        if !draw_string_into(&mut cmds, entry.1.as_str(), result_point, false, color_black(), Color::from_888(255, 255, 255)) {
            return None;
        }
        proof {
            let dc = draw_commands(entry.1@, result_point, false, black(), white()).unwrap();
            assert(mid + dc =~= before + (seq![command_view(cmds@[before.len() as int])] + dc));
        }
        y_offset = y_offset + 20;
        i = i + 1;
    }
    let ghost hc = history_commands(h, start_index as int, 40).unwrap();
    assert(commands_view(cmds@) == head + hc);

    let ghost sep_base = commands_view(cmds@);
    let mut x: u16 = 0;
    while x < 320
        invariant
            x <= 320,
            commands_view(cmds@) == sep_base + separator_commands().take(x as int),
        decreases 320 - x,
    {
        let point = Point { x, y: 200 };
        let line_color = Color::from_888(200, 200, 200);
        assert(line_color == grey());
        let ghost before = cmds@;
        cmds.push(DisplayCommand::PushRectUniform(Rect { x: point.x, y: point.y, width: 1, height: 1 }, line_color));
        proof {
            assert(command_view(cmds@.last()) == separator_commands()[x as int]);
            assert(commands_view(cmds@) =~= commands_view(before).push(command_view(cmds@.last())));
            assert(commands_view(cmds@) =~= sep_base + separator_commands().take(x + 1));
        }
        x = x + 1;
    }
    assert(separator_commands().take(320) =~= separator_commands());

    let input_point = Point { x: 10, y: 210 };
    if !draw_string_into(&mut cmds, input_buffer, input_point, true, color_black(), Color::from_888(255, 255, 255)) {
        return None;
    }

    let cursor_visible = (cursor_blink_timer / 30) % 2 == 0;
    if cursor_visible {
        let (cursor_x, cursor_y_offset) = match cursor_offset_checked(input_buffer, cursor_position, exponent_mode) {
            Some(o) => o,
            None => return None,
        };
        if cursor_x as u32 + 10 > 65535 || cursor_y_offset as u32 + 210 > 65535 {
            return None;
        }
        let cursor_point = Point { x: input_point.x + cursor_x, y: input_point.y + cursor_y_offset };
        let in_exponent_zone = cursor_in_exponent(input_buffer, cursor_position);
        let cursor_font_size = if in_exponent_zone { false } else { true };
        let ghost before = commands_view(cmds@);
        cmds.push(DisplayCommand::DrawString(char_string('|'), cursor_point, cursor_font_size, color_black(), Color::from_888(255, 255, 255)));
        proof {
            assert(commands_view(cmds@) =~= before.push(command_view(cmds@.last())));
        }
    }
    proof {
        let s1 = head + hc + separator_commands();
        assert(Some(commands_view(cmds@)) == total) by {
            assert(commands_view(cmds@) =~= total.unwrap());
        }
    }
    Some(cmds)
}

} // verus!
