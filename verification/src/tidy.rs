//! The last touch on a printed result: `+ -` becomes `- `, a double space
//! becomes one, and the ends lose their whitespace.

use vstd::prelude::*;
use crate::parser::is_ascii_space;
use crate::text::{ascii, byte_length, char_at, string_push};

verus! {

/// `s` with every occurrence of `pat` replaced by `rep`, the occurrences
/// taken from the left without overlap (as `str::replace` does).
pub open spec fn replace_all(s: Seq<char>, pat: Seq<char>, rep: Seq<char>) -> Seq<char>
    decreases s.len(),
{
    if s.len() == 0 {
        Seq::empty()
    } else if 0 < pat.len() <= s.len() && s.subrange(0, pat.len() as int) == pat {
        rep + replace_all(s.skip(pat.len() as int), pat, rep)
    } else {
        seq![s[0]] + replace_all(s.skip(1), pat, rep)
    }
}

/// `s` without its leading whitespace.
pub open spec fn strip_leading(s: Seq<char>) -> Seq<char>
    decreases s.len(),
{
    if s.len() > 0 && is_ascii_space(s[0]) {
        strip_leading(s.skip(1))
    } else {
        s
    }
}

/// `s` without its trailing whitespace.
pub open spec fn strip_trailing(s: Seq<char>) -> Seq<char>
    decreases s.len(),
{
    if s.len() > 0 && is_ascii_space(s.last()) {
        strip_trailing(s.drop_last())
    } else {
        s
    }
}

/// The pattern `+ -`.
pub open spec fn plus_minus() -> Seq<char> {
    seq!['+', ' ', '-']
}

/// The replacement `- `.
pub open spec fn minus_space() -> Seq<char> {
    seq!['-', ' ']
}

/// The pattern of two spaces.
pub open spec fn two_spaces() -> Seq<char> {
    seq![' ', ' ']
}

/// What the tidying makes of `s`.
pub open spec fn tidy(s: Seq<char>) -> Seq<char> {
    strip_trailing(strip_leading(
        replace_all(replace_all(s, plus_minus(), minus_space()), two_spaces(), seq![' ']),
    ))
}

/// `pat` stands in `s` at position `i`.
pub open spec fn stands_at(s: Seq<char>, pat: Seq<char>, i: int) -> bool {
    0 <= i && i + pat.len() <= s.len() && s.subrange(i, i + pat.len()) == pat
}

/// A text where `pat` does not occur is left as it is.
proof fn lemma_replace_absent(s: Seq<char>, pat: Seq<char>, rep: Seq<char>)
    requires
        pat.len() > 0,
        forall|i: int| !stands_at(s, pat, i),
    ensures
        replace_all(s, pat, rep) == s,
    decreases s.len(),
{
    if s.len() > 0 {
        assert(!stands_at(s, pat, 0));
        let t = s.skip(1);
        assert forall|i: int| !stands_at(t, pat, i) by {
            if stands_at(t, pat, i) {
                assert(s.subrange(i + 1, i + 1 + pat.len()) =~= t.subrange(i, i + pat.len()));
                assert(stands_at(s, pat, i + 1));
            }
        }
        lemma_replace_absent(t, pat, rep);
        assert(seq![s[0]] + t =~= s);
    }
}

/// Stripping leading whitespace leaves nothing or a non-space first.
proof fn lemma_strip_leading(s: Seq<char>)
    ensures
        strip_leading(s).len() == 0 || !is_ascii_space(strip_leading(s)[0]),
        strip_leading(s).len() <= s.len(),
        strip_leading(s) == s.subrange(s.len() - strip_leading(s).len(), s.len() as int),
    decreases s.len(),
{
    if s.len() > 0 && is_ascii_space(s[0]) {
        lemma_strip_leading(s.skip(1));
        assert(s.skip(1).subrange(s.len() - 1 - strip_leading(s.skip(1)).len(), s.len() - 1)
            =~= s.subrange(s.len() - strip_leading(s.skip(1)).len(), s.len() as int));
    } else {
        assert(s.subrange(0, s.len() as int) =~= s);
    }
}

/// Stripping trailing whitespace keeps a text's first character when it is
/// not a space, and leaves nothing or a non-space last.
proof fn lemma_strip_trailing(s: Seq<char>)
    ensures
        strip_trailing(s).len() == 0 || !is_ascii_space(strip_trailing(s).last()),
        s.len() > 0 && !is_ascii_space(s[0]) ==> strip_trailing(s).len() > 0 && strip_trailing(s)[0] == s[0],
    decreases s.len(),
{
    if s.len() > 0 && is_ascii_space(s.last()) {
        lemma_strip_trailing(s.drop_last());
    }
}

/// The tidied text neither starts nor ends with whitespace.
pub proof fn law_tidy_trims_both_ends(s: Seq<char>)
    ensures
        tidy(s).len() == 0 || (!is_ascii_space(tidy(s)[0]) && !is_ascii_space(tidy(s).last())),
{
    let x = replace_all(replace_all(s, plus_minus(), minus_space()), two_spaces(), seq![' ']);
    lemma_strip_leading(x);
    lemma_strip_trailing(strip_leading(x));
}

/// A text that holds no `+ -`, no double space and no whitespace at either
/// end is already tidy.
pub proof fn law_tidy_keeps_tidy_text(s: Seq<char>)
    requires
        forall|i: int| !stands_at(s, plus_minus(), i),
        forall|i: int| !stands_at(s, two_spaces(), i),
        s.len() == 0 || (!is_ascii_space(s[0]) && !is_ascii_space(s.last())),
    ensures
        tidy(s) == s,
{
    lemma_replace_absent(s, plus_minus(), minus_space());
    lemma_replace_absent(s, two_spaces(), seq![' ']);
}

/// A replacement never lengthens a text when `rep` is no longer than `pat`.
proof fn lemma_replace_all_len(s: Seq<char>, pat: Seq<char>, rep: Seq<char>)
    requires
        rep.len() <= pat.len(),
    ensures
        replace_all(s, pat, rep).len() <= s.len(),
    decreases s.len(),
{
    if s.len() == 0 {
    } else if 0 < pat.len() <= s.len() && s.subrange(0, pat.len() as int) == pat {
        lemma_replace_all_len(s.skip(pat.len() as int), pat, rep);
    } else {
        lemma_replace_all_len(s.skip(1), pat, rep);
    }
}

/// Whether `s` holds `pat` at char index `i`.
fn occurs_at(s: &str, n: usize, i: usize, pat: &Vec<char>) -> (r: bool)
    requires
        n == s@.len(),
        i <= n,
    ensures
        r == (0 < pat@.len() <= n - i && s@.subrange(i as int, i + pat@.len()) == pat@),
{
    if pat.len() == 0 || pat.len() > n - i {
        return false;
    }
    let mut k: usize = 0;
    while k < pat.len()
        invariant
            0 < pat@.len() <= n - i,
            n == s@.len(),
            k <= pat@.len(),
            forall|j: int| 0 <= j < k ==> s@[i + j] == pat@[j],
        decreases pat@.len() - k,
    {
        if char_at(s, i + k) != Some(pat[k]) {
            assert(s@.subrange(i as int, i + pat@.len())[k as int] != pat@[k as int]);
            return false;
        }
        k = k + 1;
    }
    assert(s@.subrange(i as int, i + pat@.len()) =~= pat@);
    true
}

/// `s` with each occurrence of `pat` replaced by `rep`, from the left.
fn replace_occurrences(s: &str, pat: &Vec<char>, rep: &Vec<char>) -> (r: String)
    requires
        ascii(s@),
        ascii(rep@),
        rep@.len() <= pat@.len(),
        s@.len() < isize::MAX,
    ensures
        r@ == replace_all(s@, pat@, rep@),
        ascii(r@),
{
    proof {
        vstd::utf8::is_ascii_chars_encode_utf8(s@);
    }
    let n = byte_length(s);
    let mut out = String::new();
    let mut i: usize = 0;
    assert(s@.subrange(0, n as int) =~= s@);
    assert(out@ + replace_all(s@, pat@, rep@) =~= replace_all(s@, pat@, rep@));
    while i < n
        invariant
            n == s@.len(),
            n < isize::MAX,
            i <= n,
            ascii(s@),
            ascii(rep@),
            ascii(out@),
            rep@.len() <= pat@.len(),
            out@.len() <= i,
            out@ + replace_all(s@.subrange(i as int, n as int), pat@, rep@) == replace_all(s@, pat@, rep@),
        decreases n - i,
    {
        let rest = Ghost(s@.subrange(i as int, n as int));
        if occurs_at(s, n, i, pat) {
            assert(rest@.subrange(0, pat@.len() as int) =~= s@.subrange(i as int, i + pat@.len()));
            assert(rest@.skip(pat@.len() as int) =~= s@.subrange(i + pat@.len(), n as int));
            let ghost before = out@;
            let mut k: usize = 0;
            while k < rep.len()
                invariant
                    k <= rep@.len(),
                    rep@.len() <= pat@.len(),
                    ascii(rep@),
                    ascii(out@),
                    before.len() <= i,
                    i + pat@.len() <= n,
                    n < isize::MAX,
                    out@ == before + rep@.subrange(0, k as int),
                decreases rep@.len() - k,
            {
                string_push(&mut out, rep[k]);
                assert(rep@.subrange(0, k + 1) =~= rep@.subrange(0, k as int).push(rep@[k as int]));
                k = k + 1;
            }
            assert(rep@.subrange(0, rep@.len() as int) =~= rep@);
            assert((before + rep@) + replace_all(rest@.skip(pat@.len() as int), pat@, rep@)
                =~= before + (rep@ + replace_all(rest@.skip(pat@.len() as int), pat@, rep@)));
            i = i + pat.len();
        } else {
            assert(rest@.len() > 0);
            assert(!(0 < pat@.len() <= rest@.len() && rest@.subrange(0, pat@.len() as int) == pat@)) by {
                if 0 < pat@.len() <= rest@.len() {
                    assert(rest@.subrange(0, pat@.len() as int) =~= s@.subrange(i as int, i + pat@.len()));
                }
            }
            assert(rest@.skip(1) =~= s@.subrange(i + 1, n as int));
            let c = char_at(s, i).unwrap();
            assert(c == s@[i as int]);
            let ghost before = out@;
            string_push(&mut out, c);
            assert((before.push(c)) + replace_all(rest@.skip(1), pat@, rep@)
                =~= before + (seq![rest@[0]] + replace_all(rest@.skip(1), pat@, rep@)));
            i = i + 1;
        }
    }
    assert(s@.subrange(n as int, n as int) =~= Seq::<char>::empty());
    assert(out@ + Seq::<char>::empty() =~= out@);
    out
}

/// Whether `c` is one of the ASCII whitespace characters.
fn char_is_ascii_space(c: char) -> (r: bool)
    ensures
        r == is_ascii_space(c),
{
    c == ' ' || ('\t' <= c && c <= '\r')
}

/// `s` without leading and trailing whitespace (as `str::trim` does on ASCII
/// text).
fn trim_spaces(s: &str) -> (r: String)
    requires
        ascii(s@),
        s@.len() < isize::MAX,
    ensures
        r@ == strip_trailing(strip_leading(s@)),
        ascii(r@),
{
    proof {
        vstd::utf8::is_ascii_chars_encode_utf8(s@);
    }
    let n = byte_length(s);
    let mut lo: usize = 0;
    assert(s@.subrange(0, n as int) =~= s@);
    while lo < n && char_is_ascii_space(char_at(s, lo).unwrap())
        invariant
            n == s@.len(),
            lo <= n,
            strip_leading(s@) == strip_leading(s@.subrange(lo as int, n as int)),
        decreases n - lo,
    {
        assert(s@.subrange(lo as int, n as int).skip(1) =~= s@.subrange(lo + 1, n as int));
        lo = lo + 1;
    }
    assert(strip_leading(s@.subrange(lo as int, n as int)) == s@.subrange(lo as int, n as int));
    let mut hi: usize = n;
    while hi > lo && char_is_ascii_space(char_at(s, hi - 1).unwrap())
        invariant
            n == s@.len(),
            lo <= hi <= n,
            strip_trailing(s@.subrange(lo as int, n as int)) == strip_trailing(s@.subrange(lo as int, hi as int)),
        decreases hi - lo,
    {
        assert(s@.subrange(lo as int, hi as int).drop_last() =~= s@.subrange(lo as int, hi - 1));
        hi = hi - 1;
    }
    assert(strip_trailing(s@.subrange(lo as int, hi as int)) == s@.subrange(lo as int, hi as int));
    let mut out = String::new();
    let mut k: usize = lo;
    while k < hi
        invariant
            n == s@.len(),
            n < isize::MAX,
            lo <= k <= hi <= n,
            ascii(s@),
            out@ == s@.subrange(lo as int, k as int),
        decreases hi - k,
    {
        let c = char_at(s, k).unwrap();
        string_push(&mut out, c);
        assert(s@.subrange(lo as int, k + 1) =~= s@.subrange(lo as int, k as int).push(c));
        k = k + 1;
    }
    out
}

/// The printed result tidied: each `+ -` becomes `- `, then each double
/// space becomes one, then the whitespace at both ends goes.
pub fn tidy_result(text: &str) -> (r: String)
    requires
        ascii(text@),
        text@.len() < isize::MAX,
    ensures
        r@ == tidy(text@),
{
    let plus_minus_pat = vec!['+', ' ', '-'];
    let minus_space_rep = vec!['-', ' '];
    let two_spaces_pat = vec![' ', ' '];
    let one_space_rep = vec![' '];
    assert(plus_minus_pat@ == plus_minus());
    assert(minus_space_rep@ == minus_space());
    assert(two_spaces_pat@ == two_spaces());
    assert(one_space_rep@ == seq![' ']);
    let first = replace_occurrences(text, &plus_minus_pat, &minus_space_rep);
    proof {
        lemma_replace_all_len(text@, plus_minus(), minus_space());
    }
    let second = replace_occurrences(first.as_str(), &two_spaces_pat, &one_space_rep);
    proof {
        lemma_replace_all_len(first@, two_spaces(), seq![' ']);
    }
    trim_spaces(second.as_str())
}

} // verus!
