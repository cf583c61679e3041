//! Polynomials with integer coefficients, held in fixed capacity: at most
//! 16 terms of at most 8 variables each. Coefficients saturate at the
//! bounds of `i64`; a term that does not fit is dropped.

use vstd::prelude::*;
use vstd::utf8::encode_utf8;

use crate::fixed::{
    map_clone, map_entries, map_equal, map_get, map_insert_entry, map_new, term_items,
    terms_clone, terms_get, terms_len, terms_new, terms_push, terms_retain_nonzero,
    terms_set_coeff, string_bytes, text_new, text_push, text_push_str, map_is_empty,
    map_len, map_entry,
};
use crate::evaluation::{all_distinct_vars, lemma_monomial_distinct, lemma_product_distinct, lemma_sum_distinct};
use crate::text::{decimal, decimal_string};

verus! {

/// The exponents of a term: (variable, exponent) pairs in the map's order.
pub type Powers = Seq<(char, u8)>;

/// A term: its coefficient and its exponents.
pub type Term = (i64, Seq<(char, u8)>);

/// Index of the first entry of `p` at or after `i` whose variable is `k`, or
/// `p.len()` when there is none.
pub open spec fn find_key_from(p: Powers, k: char, i: int) -> int
    decreases p.len() - i,
{
    if i >= p.len() {
        p.len() as int
    } else if p[i].0 == k {
        i
    } else {
        find_key_from(p, k, i + 1)
    }
}

/// Index of the first entry of `p` whose variable is `k`, or `p.len()`.
pub open spec fn find_key(p: Powers, k: char) -> int {
    find_key_from(p, k, 0)
}

/// The exponent of the first entry of `p` for `k`.
pub open spec fn lookup(p: Powers, k: char) -> Option<u8> {
    let i = find_key(p, k);
    if 0 <= i < p.len() {
        Some(p[i].1)
    } else {
        None
    }
}

/// Setting the exponent of `k`: in place when `k` has an entry, else at the
/// end when there are fewer than 8 entries, else not at all.
pub open spec fn map_insert(p: Powers, k: char, v: u8) -> Powers {
    let i = find_key(p, k);
    if 0 <= i < p.len() {
        p.update(i, (k, v))
    } else if p.len() < 8 {
        p.push((k, v))
    } else {
        p
    }
}

/// Equality of exponent maps: as many entries, and each entry of `p` found
/// in `q` with the same exponent.
pub open spec fn map_eq(p: Powers, q: Powers) -> bool {
    &&& p.len() == q.len()
    &&& forall|i: int| 0 <= i < p.len() ==> lookup(q, #[trigger] p[i].0) == Some(p[i].1)
}

/// The exponents of the product of two terms: the entries of `q` from `j`
/// on are added into `p` one by one; `None` when an exponent passes 255.
pub open spec fn combine_from(p: Powers, q: Powers, j: int) -> Option<Powers>
    decreases q.len() - j,
{
    if j < 0 || j >= q.len() {
        Some(p)
    } else {
        let v = q[j].0;
        let cur: int = match lookup(p, v) {
            Some(c) => c as int,
            None => 0,
        };
        if cur + q[j].1 > 255 {
            None
        } else {
            combine_from(map_insert(p, v, (cur + q[j].1) as u8), q, j + 1)
        }
    }
}

/// The exponents of the product of terms with exponents `p` and `q`.
pub open spec fn combine(p: Powers, q: Powers) -> Option<Powers> {
    combine_from(p, q, 0)
}

/// Sum that sticks at the bounds of `i64` when it passes them.
pub open spec fn sat_add(a: i64, b: i64) -> i64 {
    if i64::MIN <= a + b <= i64::MAX {
        (a + b) as i64
    } else if a > 0 {
        i64::MAX
    } else {
        i64::MIN
    }
}

/// Product that sticks at the bounds of `i64` when it passes them.
pub open spec fn sat_mul(a: i64, b: i64) -> i64 {
    if i64::MIN <= a * b <= i64::MAX {
        (a * b) as i64
    } else if (a > 0 && b > 0) || (a < 0 && b < 0) {
        i64::MAX
    } else {
        i64::MIN
    }
}

/// Appending a term when there is room for it (fewer than 16 terms).
pub open spec fn push_term(ts: Seq<Term>, t: Term) -> Seq<Term> {
    if ts.len() < 16 {
        ts.push(t)
    } else {
        ts
    }
}

/// Index of the first term of `ts` at or after `i` whose exponents equal
/// `p`, or `ts.len()`.
pub open spec fn find_like_from(ts: Seq<Term>, p: Powers, i: int) -> int
    decreases ts.len() - i,
{
    if i >= ts.len() {
        ts.len() as int
    } else if map_eq(ts[i].1, p) {
        i
    } else {
        find_like_from(ts, p, i + 1)
    }
}

/// Adding one term into a list: onto the first like term, else at the end.
pub open spec fn merge(ts: Seq<Term>, t: Term) -> Seq<Term> {
    let i = find_like_from(ts, t.1, 0);
    if 0 <= i < ts.len() {
        ts.update(i, (sat_add(ts[i].0, t.0), ts[i].1))
    } else {
        push_term(ts, t)
    }
}

/// Adding the first `n` terms of `us` into `ts`, in order.
pub open spec fn merge_all(ts: Seq<Term>, us: Seq<Term>, n: int) -> Seq<Term>
    decreases n,
{
    if n <= 0 {
        ts
    } else {
        merge(merge_all(ts, us, n - 1), us[n - 1])
    }
}

/// The terms with a non-zero coefficient.
pub open spec fn nonzero_terms(ts: Seq<Term>) -> Seq<Term> {
    ts.filter(|t: Term| t.0 != 0)
}

/// The sum of two polynomials.
pub open spec fn poly_add(a: Seq<Term>, b: Seq<Term>) -> Seq<Term> {
    nonzero_terms(merge_all(a, b, b.len() as int))
}

/// The product of two terms.
pub open spec fn term_product(s: Term, t: Term) -> Term {
    (sat_mul(s.0, t.0), combine(s.1, t.1).unwrap())
}

/// The products of the first `n` terms of `b` by `s`, appended to `acc`.
pub open spec fn products_row(acc: Seq<Term>, s: Term, b: Seq<Term>, n: int) -> Seq<Term>
    decreases n,
{
    if n <= 0 {
        acc
    } else {
        push_term(products_row(acc, s, b, n - 1), term_product(s, b[n - 1]))
    }
}

/// The products of the first `m` terms of `a` by every term of `b`.
pub open spec fn products(a: Seq<Term>, b: Seq<Term>, m: int) -> Seq<Term>
    decreases m,
{
    if m <= 0 {
        Seq::empty()
    } else {
        products_row(products(a, b, m - 1), a[m - 1], b, b.len() as int)
    }
}

/// No exponent passes 255 in any product of a term of `a` by a term of `b`.
pub open spec fn mul_ok(a: Seq<Term>, b: Seq<Term>) -> bool {
    forall|i: int, j: int| 0 <= i < a.len() && 0 <= j < b.len() ==> (#[trigger] combine(a[i].1, b[j].1)) is Some
}

/// The product of two polynomials: all products of terms, like terms
/// gathered, zero terms dropped.
pub open spec fn poly_mul(a: Seq<Term>, b: Seq<Term>) -> Seq<Term> {
    let raw = products(a, b, a.len() as int);
    nonzero_terms(merge_all(Seq::empty(), raw, raw.len() as int))
}

/// The polynomial of one term.
pub open spec fn monomial_terms(coeff: i64, var: Option<char>, exp: u8) -> Seq<Term> {
    let p: Powers = match var {
        Some(v) => seq![(v, exp)],
        None => Seq::empty(),
    };
    seq![(coeff, p)]
}

/// A term: a coefficient and the exponents of its variables.
#[derive(Debug)]
pub struct Monomial {
    pub coeff: i64,
    pub powers: heapless::LinearMap<char, u8, 8>,
}

/// The mathematical value of a term.
pub open spec fn term_view(m: Monomial) -> Term {
    (m.coeff, map_entries(m.powers))
}

/// Whether a term's coefficient is not zero.
pub fn has_nonzero_coeff(m: &Monomial) -> (r: bool)
    ensures
        r == (m.coeff != 0),
{
    m.coeff != 0
}

impl Clone for Monomial {
    /// A term with the same coefficient and exponents.
    fn clone(&self) -> (r: Monomial)
        ensures
            term_view(r) == term_view(*self),
    {
        Monomial { coeff: self.coeff, powers: map_clone(&self.powers) }
    }
}

/// A polynomial: a list of terms.
#[derive(Debug)]
pub struct Polynomial {
    pub terms: heapless::Vec<Monomial, 16>,
}

impl Clone for Polynomial {
    /// A polynomial with the same terms in the same order.
    fn clone(&self) -> (r: Polynomial)
        ensures
            r@ == self@,
    {
        Polynomial { terms: terms_clone(&self.terms) }
    }
}

impl View for Polynomial {
    type V = Seq<Term>;

    open spec fn view(&self) -> Seq<Term> {
        term_items(self.terms)
    }
}

/// `a + b` on `i64`, sticking at the bounds when it passes them.
fn saturating_sum(a: i64, b: i64) -> (r: i64)
    ensures
        r == sat_add(a, b),
{
    match a.checked_add(b) {
        Some(r) => r,
        None => {
            if a > 0 && b > 0 {
                i64::MAX
            } else if a < 0 && b < 0 {
                i64::MIN
            } else {
                a + b
            }
        },
    }
}

/// `a * b` on `i64`, sticking at the bounds when it passes them.
fn saturating_product(a: i64, b: i64) -> (r: i64)
    ensures
        r == sat_mul(a, b),
{
    match a.checked_mul(b) {
        Some(r) => r,
        None => {
            if (a > 0 && b > 0) || (a < 0 && b < 0) {
                i64::MAX
            } else {
                i64::MIN
            }
        },
    }
}

impl Polynomial {
    /// The polynomial of one term: `coeff`, times `var` to the `exp` when
    /// there is a variable.
    pub fn from_monomial(coeff: i64, var: Option<char>, exp: u8) -> (r: Polynomial)
        ensures
            r@ == monomial_terms(coeff, var, exp),
            all_distinct_vars(r@),
    {
        proof {
            lemma_monomial_distinct(coeff, var, exp);
        }
        let mut powers = map_new();
        match var {
            Some(v) => {
                let _ = map_insert_entry(&mut powers, v, exp);
                proof {
                    assert(find_key(Seq::<(char, u8)>::empty(), v) == 0);
                }
            },
            None => {},
        }
        let mono = Monomial { coeff, powers };
        let mut terms = terms_new();
        let _ = terms_push(&mut terms, mono);
        proof {
            assert(term_items(terms) =~= monomial_terms(coeff, var, exp));
        }
        Polynomial { terms }
    }
}


/// Add one term into a list in place: onto the first like term, else at
/// the end when there is room.
fn merge_into(terms: &mut heapless::Vec<Monomial, 16>, m: &Monomial)
    ensures
        term_items(*final(terms)) == merge(term_items(*old(terms)), term_view(*m)),
{
    let k = terms_len(terms);
    let ghost ts = term_items(*terms);
    let ghost p = map_entries(m.powers);
    let mut i: usize = 0;
    while i < k
        invariant
            k == ts.len(),
            ts == term_items(*terms),
            ts == term_items(*old(terms)),
            p == map_entries(m.powers),
            i <= k,
            find_like_from(ts, p, 0) == find_like_from(ts, p, i as int),
        decreases k - i,
    {
        let t = terms_get(terms, i);
        if map_equal(&t.powers, &m.powers) {
            let c = saturating_sum(t.coeff, m.coeff);
            terms_set_coeff(terms, i, c);
            return;
        }
        i = i + 1;
    }
    let _ = terms_push(terms, m.clone());
}

/// The exponent map of the product of terms with exponents `p1` and `p2`.
fn combined_powers(p1: &heapless::LinearMap<char, u8, 8>, p2: &heapless::LinearMap<char, u8, 8>) -> (r: heapless::LinearMap<char, u8, 8>)
    requires
        combine(map_entries(*p1), map_entries(*p2)) is Some,
    ensures
        map_entries(r) == combine(map_entries(*p1), map_entries(*p2)).unwrap(),
{
    let mut powers = map_clone(p1);
    let n = crate::fixed::map_len(p2);
    let ghost q = map_entries(*p2);
    let mut j: usize = 0;
    while j < n
        invariant
            n == q.len(),
            q == map_entries(*p2),
            j <= n,
            combine_from(map_entries(*p1), q, 0) == combine_from(map_entries(powers), q, j as int),
            combine_from(map_entries(*p1), q, 0) is Some,
        decreases n - j,
    {
        let (v, e) = crate::fixed::map_entry(p2, j);
        let current: u8 = match map_get(&powers, v) {
            Some(c) => c,
            None => 0,
        };
        let _ = map_insert_entry(&mut powers, v, current + e);
        j = j + 1;
    }
    powers
}

/// Whether the exponents of the product of terms with exponents `p1` and
/// `p2` all stay within `u8`.
fn powers_fit(p1: &heapless::LinearMap<char, u8, 8>, p2: &heapless::LinearMap<char, u8, 8>) -> (r: bool)
    ensures
        r == (combine(map_entries(*p1), map_entries(*p2)) is Some),
{
    let mut powers = map_clone(p1);
    let n = crate::fixed::map_len(p2);
    let ghost q = map_entries(*p2);
    let mut j: usize = 0;
    while j < n
        invariant
            n == q.len(),
            q == map_entries(*p2),
            j <= n,
            combine_from(map_entries(*p1), q, 0) == combine_from(map_entries(powers), q, j as int),
        decreases n - j,
    {
        let (v, e) = crate::fixed::map_entry(p2, j);
        let current: u8 = match map_get(&powers, v) {
            Some(c) => c,
            None => 0,
        };
        if current as u16 + e as u16 > 255 {
            return false;
        }
        let _ = map_insert_entry(&mut powers, v, current + e);
        j = j + 1;
    }
    true
}

impl Polynomial {
    /// Whether the product of `self` and `other` keeps every exponent within
    /// `u8` (what [`Polynomial::mul`] requires).
    pub fn mul_fits(&self, other: &Polynomial) -> (r: bool)
        ensures
            r == mul_ok(self@, other@),
    {
        let n1 = terms_len(&self.terms);
        let n2 = terms_len(&other.terms);
        let mut i: usize = 0;
        while i < n1
            invariant
                n1 == self@.len(),
                n2 == other@.len(),
                i <= n1,
                forall|a: int, b: int| 0 <= a < i && 0 <= b < n2 ==> (#[trigger] combine(self@[a].1, other@[b].1)) is Some,
            decreases n1 - i,
        {
            let m1 = terms_get(&self.terms, i);
            let mut j: usize = 0;
            while j < n2
                invariant
                    n1 == self@.len(),
                    n2 == other@.len(),
                    i < n1,
                    j <= n2,
                    term_view(*m1) == self@[i as int],
                    forall|a: int, b: int| 0 <= a < i && 0 <= b < n2 ==> (#[trigger] combine(self@[a].1, other@[b].1)) is Some,
                    forall|b: int| 0 <= b < j ==> (#[trigger] combine(self@[i as int].1, other@[b].1)) is Some,
                decreases n2 - j,
            {
                let m2 = terms_get(&other.terms, j);
                if !powers_fit(&m1.powers, &m2.powers) {
                    assert(!(combine(self@[i as int].1, other@[j as int].1) is Some));
                    return false;
                }
                j = j + 1;
            }
            i = i + 1;
        }
        true
    }
}

impl Polynomial {
    /// The sum: each term of `other` is added onto the first like term of
    /// `self` (same exponents), or appended when there is none and room is
    /// left; then the terms with coefficient zero are dropped.
    pub fn add(&self, other: &Polynomial) -> (r: Polynomial)
        ensures
            r@ == poly_add(self@, other@),
            all_distinct_vars(self@) && all_distinct_vars(other@) ==> all_distinct_vars(r@),
    {
        proof {
            lemma_sum_distinct(self@, other@);
        }
        let mut result = self.clone();
        let n = terms_len(&other.terms);
        let mut j: usize = 0;
        while j < n
            invariant
                n == other@.len(),
                j <= n,
                result@ == merge_all(self@, other@, j as int),
            decreases n - j,
        {
            let m2 = terms_get(&other.terms, j);
            merge_into(&mut result.terms, m2);
            j = j + 1;
        }
        terms_retain_nonzero(&mut result.terms);
        result
    }

    /// The product: the products of every term of `self` by every term of
    /// `other`, in that order and as far as room is left, then like terms
    /// gathered and the terms with coefficient zero dropped.
    pub fn mul(&self, other: &Polynomial) -> (r: Polynomial)
        requires
            mul_ok(self@, other@),
        ensures
            r@ == poly_mul(self@, other@),
            all_distinct_vars(self@) ==> all_distinct_vars(r@),
    {
        proof {
            lemma_product_distinct(self@, other@);
        }
        let mut result = Polynomial { terms: terms_new() };
        let n1 = terms_len(&self.terms);
        let n2 = terms_len(&other.terms);
        let mut i: usize = 0;
        while i < n1
            invariant
                n1 == self@.len(),
                n2 == other@.len(),
                i <= n1,
                mul_ok(self@, other@),
                result@ == products(self@, other@, i as int),
            decreases n1 - i,
        {
            let m1 = terms_get(&self.terms, i);
            let mut j: usize = 0;
            while j < n2
                invariant
                    n1 == self@.len(),
                    n2 == other@.len(),
                    i < n1,
                    j <= n2,
                    mul_ok(self@, other@),
                    term_view(*m1) == self@[i as int],
                    result@ == products_row(products(self@, other@, i as int), self@[i as int], other@, j as int),
                decreases n2 - j,
            {
                let m2 = terms_get(&other.terms, j);
                assert(combine(self@[i as int].1, other@[j as int].1) is Some);
                let powers = combined_powers(&m1.powers, &m2.powers);
                let coeff = saturating_product(m1.coeff, m2.coeff);
                let mono = Monomial { coeff, powers };
                let _ = terms_push(&mut result.terms, mono);
                j = j + 1;
            }
            i = i + 1;
        }
        let mut simplified = Polynomial { terms: terms_new() };
        let n = terms_len(&result.terms);
        let mut k: usize = 0;
        while k < n
            invariant
                n == result@.len(),
                k <= n,
                simplified@ == merge_all(Seq::empty(), result@, k as int),
            decreases n - k,
        {
            let m = terms_get(&result.terms, k);
            merge_into(&mut simplified.terms, m);
            k = k + 1;
        }
        terms_retain_nonzero(&mut simplified.terms);
        simplified
    }
}


/// Appending bytes to a 128-byte string: all of them when they fit, else none.
pub open spec fn put(out: Seq<u8>, e: Seq<u8>) -> Seq<u8> {
    if out.len() + e.len() <= 128 {
        out + e
    } else {
        out
    }
}

/// Appending one character to a 128-byte string when it fits.
pub open spec fn put_char(out: Seq<u8>, c: char) -> Seq<u8> {
    put(out, encode_utf8(seq![c]))
}

/// Writing the decimal numeral of `v` into a 128-byte string: the sign
/// goes in first, then the digits, each part only when it fits, and the
/// digits only after a sign that went in.
pub open spec fn put_int(out: Seq<u8>, v: int) -> Seq<u8> {
    if v < 0 {
        if out.len() + encode_utf8(seq!['-']).len() <= 128 {
            put(put_char(out, '-'), encode_utf8(decimal((-v) as nat)))
        } else {
            out
        }
    } else {
        put(out, encode_utf8(decimal(v as nat)))
    }
}

/// Writing the first `k` exponent entries: the variable, then `^` and the
/// exponent when it is above 1.
pub open spec fn put_powers(out: Seq<u8>, p: Powers, k: int) -> Seq<u8>
    decreases k,
{
    if k <= 0 {
        out
    } else {
        let o = put_powers(out, p, k - 1);
        let o1 = put_char(o, p[k - 1].0);
        if p[k - 1].1 > 1 {
            put_int(put_char(o1, '^'), p[k - 1].1 as int)
        } else {
            o1
        }
    }
}

/// Writing term number `i`: a `+` before every term but the first, the
/// coefficient unless it is 1 on a term with variables, then the variables.
pub open spec fn put_term(out: Seq<u8>, i: int, t: Term) -> Seq<u8> {
    let o1 = if i > 0 { put_char(out, '+') } else { out };
    let o2 = if t.0 != 1 || t.1.len() == 0 { put_int(o1, t.0 as int) } else { o1 };
    put_powers(o2, t.1, t.1.len() as int)
}

/// Writing the first `n` terms.
pub open spec fn render_terms(ts: Seq<Term>, n: int) -> Seq<u8>
    decreases n,
{
    if n <= 0 {
        Seq::empty()
    } else {
        put_term(render_terms(ts, n - 1), n - 1, ts[n - 1])
    }
}

/// The text of a polynomial, as far as it fits in 128 bytes.
pub open spec fn render(ts: Seq<Term>) -> Seq<u8> {
    render_terms(ts, ts.len() as int)
}

/// Write the decimal numeral of `v`, the way integer formatting writes into
/// a fixed-capacity string: the sign, then the digits.
fn write_int(out: &mut heapless::String<128>, v: i64)
    ensures
        string_bytes(*final(out)) == put_int(string_bytes(*old(out)), v as int),
{
    if v < 0 {
        if text_push(out, '-').is_err() {
            return;
        }
        let magnitude: u64 = if v == i64::MIN {
            9223372036854775808u64
        } else {
            (-v) as u64
        };
        let digits = decimal_string(magnitude);
        let _ = text_push_str(out, digits.as_str());
    } else {
        let digits = decimal_string(v as u64);
        let _ = text_push_str(out, digits.as_str());
    }
}

impl Polynomial {
    /// The text of the polynomial: its terms joined by `+`, each written as
    /// its coefficient (left out when it is 1 on a term with variables) and
    /// its variables with `^` and the exponent when it is above 1; whatever
    /// does not fit in 128 bytes is left out.
    pub fn to_string(&self) -> (r: heapless::String<128>)
        ensures
            string_bytes(r) == render(self@),
    {
        let mut out = text_new();
        let n = terms_len(&self.terms);
        let mut i: usize = 0;
        while i < n
            invariant
                n == self@.len(),
                i <= n,
                string_bytes(out) == render_terms(self@, i as int),
            decreases n - i,
        {
            let m = terms_get(&self.terms, i);
            if i > 0 {
                let _ = text_push(&mut out, '+');
            }
            if m.coeff != 1 || map_is_empty(&m.powers) {
                write_int(&mut out, m.coeff);
            }
            let k = map_len(&m.powers);
            let ghost base = string_bytes(out);
            let mut j: usize = 0;
            while j < k
                invariant
                    k == map_entries(m.powers).len(),
                    j <= k,
                    string_bytes(out) == put_powers(base, map_entries(m.powers), j as int),
                decreases k - j,
            {
                let (v, e) = map_entry(&m.powers, j);
                let _ = text_push(&mut out, v);
                if e > 1 {
                    let _ = text_push(&mut out, '^');
                    write_int(&mut out, e as i64);
                }
                j = j + 1;
            }
            i = i + 1;
        }
        out
    }
}


/// No two terms of `ts` have equal exponents.
pub open spec fn all_unlike(ts: Seq<Term>) -> bool {
    forall|i: int, j: int| 0 <= i < j < ts.len() ==> !map_eq(#[trigger] ts[i].1, #[trigger] ts[j].1)
}

/// Every term of `ts` has a non-zero coefficient.
pub open spec fn all_nonzero(ts: Seq<Term>) -> bool {
    forall|i: int| 0 <= i < ts.len() ==> (#[trigger] ts[i]).0 != 0
}

/// When no like term is found from `k` on, none is there.
proof fn lemma_find_like_none(ts: Seq<Term>, p: Powers, k: int)
    requires
        0 <= k,
        find_like_from(ts, p, k) >= ts.len(),
    ensures
        forall|i: int| k <= i < ts.len() ==> !map_eq(#[trigger] ts[i].1, p),
    decreases ts.len() - k,
{
    if k < ts.len() {
        lemma_find_like_none(ts, p, k + 1);
    }
}

/// The index that the search for a like term finds is within the list.
proof fn lemma_find_like_range(ts: Seq<Term>, p: Powers, k: int)
    requires
        0 <= k,
    ensures
        k <= find_like_from(ts, p, k) <= ts.len() || (k > ts.len() && find_like_from(ts, p, k) == ts.len()),
    decreases ts.len() - k,
{
    if k < ts.len() {
        lemma_find_like_range(ts, p, k + 1);
    }
}

/// Adding a term keeps terms unlike and within 16 when they were.
proof fn lemma_merge_keeps(ts: Seq<Term>, t: Term)
    requires
        all_unlike(ts),
        ts.len() <= 16,
    ensures
        all_unlike(merge(ts, t)),
        merge(ts, t).len() <= 16,
{
    lemma_find_like_range(ts, t.1, 0);
    let i = find_like_from(ts, t.1, 0);
    if 0 <= i < ts.len() {
        let r = merge(ts, t);
        assert forall|a: int, b: int| 0 <= a < b < r.len() implies !map_eq(#[trigger] r[a].1, #[trigger] r[b].1) by {
            assert(r[a].1 == ts[a].1);
            assert(r[b].1 == ts[b].1);
        }
    } else {
        lemma_find_like_none(ts, t.1, 0);
        let r = merge(ts, t);
        if ts.len() < 16 {
            assert forall|a: int, b: int| 0 <= a < b < r.len() implies !map_eq(#[trigger] r[a].1, #[trigger] r[b].1) by {
                if b < ts.len() {
                    assert(r[a] == ts[a]);
                    assert(r[b] == ts[b]);
                } else {
                    assert(r[a] == ts[a]);
                    assert(r[b] == t);
                }
            }
        }
    }
}

/// Adding terms keeps terms unlike and within 16 when they were.
proof fn lemma_merge_all_keeps(ts: Seq<Term>, us: Seq<Term>, n: int)
    requires
        all_unlike(ts),
        ts.len() <= 16,
    ensures
        all_unlike(merge_all(ts, us, n)),
        merge_all(ts, us, n).len() <= 16,
    decreases n,
{
    if n > 0 {
        lemma_merge_all_keeps(ts, us, n - 1);
        lemma_merge_keeps(merge_all(ts, us, n - 1), us[n - 1]);
    }
}

/// Dropping the zero terms leaves unlike terms unlike, none of them zero,
/// and no more of them.
proof fn lemma_nonzero_terms(ts: Seq<Term>)
    requires
        all_unlike(ts),
    ensures
        all_unlike(nonzero_terms(ts)),
        all_nonzero(nonzero_terms(ts)),
        nonzero_terms(ts).len() <= ts.len(),
    decreases ts.len(),
{
    let pred = |t: Term| t.0 != 0;
    reveal_with_fuel(Seq::filter, 1);
    ts.lemma_filter_len(pred);
    if ts.len() > 0 {
        let init = ts.drop_last();
        assert(all_unlike(init)) by {
            assert forall|a: int, b: int| 0 <= a < b < init.len() implies !map_eq(#[trigger] init[a].1, #[trigger] init[b].1) by {
                assert(init[a] == ts[a]);
                assert(init[b] == ts[b]);
            }
        }
        lemma_nonzero_terms(init);
        let f = init.filter(pred);
        assert(ts.filter(pred) == if pred(ts.last()) { f.push(ts.last()) } else { f });
        if pred(ts.last()) {
            let r = f.push(ts.last());
            assert forall|a: int, b: int| 0 <= a < b < r.len() implies !map_eq(#[trigger] r[a].1, #[trigger] r[b].1) by {
                if b < f.len() {
                    assert(r[a] == f[a]);
                    assert(r[b] == f[b]);
                } else {
                    assert(r[a] == f[a]);
                    init.lemma_filter_contains_rev(pred, f[a]);
                    assert(f.contains(f[a]));
                    let k = choose|k: int| 0 <= k < init.len() && init[k] == f[a];
                    assert(ts[k] == init[k]);
                    assert(r[b] == ts[ts.len() - 1]);
                }
            }
        }
    }
}

/// The terms of a product are at most 16, none of them zero, no two alike.
pub proof fn law_product_is_gathered(a: Seq<Term>, b: Seq<Term>)
    ensures
        poly_mul(a, b).len() <= 16,
        all_nonzero(poly_mul(a, b)),
        all_unlike(poly_mul(a, b)),
{
    let raw = products(a, b, a.len() as int);
    lemma_merge_all_keeps(Seq::empty(), raw, raw.len() as int);
    lemma_nonzero_terms(merge_all(Seq::empty(), raw, raw.len() as int));
}

/// A sum of a polynomial of unlike terms (at most 16) and any polynomial
/// has at most 16 terms, none of them zero, no two alike.
pub proof fn law_sum_is_gathered(a: Seq<Term>, b: Seq<Term>)
    requires
        all_unlike(a),
        a.len() <= 16,
    ensures
        poly_add(a, b).len() <= 16,
        all_nonzero(poly_add(a, b)),
        all_unlike(poly_add(a, b)),
{
    lemma_merge_all_keeps(a, b, b.len() as int);
    lemma_nonzero_terms(merge_all(a, b, b.len() as int));
}


/// Writing the exponents keeps the text within 128 bytes.
proof fn lemma_put_powers_fits(out: Seq<u8>, p: Powers, k: int)
    requires
        out.len() <= 128,
    ensures
        put_powers(out, p, k).len() <= 128,
        put_powers(out, p, k).len() >= out.len(),
    decreases k,
{
    if k > 0 {
        lemma_put_powers_fits(out, p, k - 1);
    }
}

/// Writing the first `n` terms keeps the text within 128 bytes.
proof fn lemma_render_terms_fits(ts: Seq<Term>, n: int)
    ensures
        render_terms(ts, n).len() <= 128,
    decreases n,
{
    if n > 0 {
        lemma_render_terms_fits(ts, n - 1);
        let out = render_terms(ts, n - 1);
        let t = ts[n - 1];
        let o1 = if n - 1 > 0 { put_char(out, '+') } else { out };
        let o2 = if t.0 != 1 || t.1.len() == 0 { put_int(o1, t.0 as int) } else { o1 };
        lemma_put_powers_fits(o2, t.1, t.1.len() as int);
    }
}

/// The text of a polynomial never passes 128 bytes.
pub proof fn law_text_fits(ts: Seq<Term>)
    ensures
        render(ts).len() <= 128,
{
    lemma_render_terms_fits(ts, ts.len() as int);
}

/// The bytes of the decimal numeral of `v`, with a `-` before it when `v`
/// is negative.
pub open spec fn int_text(v: int) -> Seq<u8> {
    if v < 0 {
        encode_utf8(seq!['-']) + encode_utf8(decimal((-v) as nat))
    } else {
        encode_utf8(decimal(v as nat))
    }
}

/// The bytes of one exponent entry: the variable, then `^` and the full
/// decimal numeral of the exponent when it is above 1.
pub open spec fn entry_text(x: (char, u8)) -> Seq<u8> {
    encode_utf8(seq![x.0]) + if x.1 > 1 {
        encode_utf8(seq!['^']) + encode_utf8(decimal(x.1 as nat))
    } else {
        Seq::<u8>::empty()
    }
}

/// The bytes of exponent entries, one after the other.
pub open spec fn powers_text(p: Powers) -> Seq<u8>
    decreases p.len(),
{
    if p.len() == 0 {
        Seq::empty()
    } else {
        powers_text(p.drop_last()) + entry_text(p.last())
    }
}

/// The bytes of a term: its coefficient, unless it is 1 on a term with
/// variables, then its exponent entries.
pub open spec fn term_text(t: Term) -> Seq<u8> {
    (if t.0 != 1 || t.1.len() == 0 { int_text(t.0 as int) } else { Seq::<u8>::empty() }) + powers_text(t.1)
}

proof fn lemma_put_int_fits(out: Seq<u8>, v: int)
    requires
        out.len() + int_text(v).len() <= 128,
    ensures
        put_int(out, v) == out + int_text(v),
{
    if v < 0 {
        assert(put_char(out, '-') == out + encode_utf8(seq!['-']));
        assert(put_int(out, v) =~= out + int_text(v));
    }
}

proof fn lemma_put_powers_text(out: Seq<u8>, p: Powers, k: int)
    requires
        0 <= k <= p.len(),
        out.len() + powers_text(p.take(k)).len() <= 128,
    ensures
        put_powers(out, p, k) == out + powers_text(p.take(k)),
    decreases k,
{
    if k == 0 {
        assert(p.take(0) =~= Seq::<(char, u8)>::empty());
        assert(out + Seq::<u8>::empty() =~= out);
    } else {
        assert(p.take(k).drop_last() =~= p.take(k - 1));
        assert(p.take(k).last() == p[k - 1]);
        lemma_put_powers_text(out, p, k - 1);
        let o = put_powers(out, p, k - 1);
        let x = p[k - 1];
        let o1 = put_char(o, x.0);
        assert(o1 == o + encode_utf8(seq![x.0]));
        if x.1 > 1 {
            let o2 = put_char(o1, '^');
            assert(o2 == o1 + encode_utf8(seq!['^']));
            lemma_put_int_fits(o2, x.1 as int);
            assert(int_text(x.1 as int) == encode_utf8(decimal(x.1 as nat)));
            assert(put_powers(out, p, k) =~= out + powers_text(p.take(k)));
        } else {
            assert(put_powers(out, p, k) =~= out + powers_text(p.take(k)));
        }
    }
}

proof fn lemma_put_term_text(out: Seq<u8>, i: int, t: Term)
    requires
        out.len() + (if i > 0 { encode_utf8(seq!['+']).len() } else { 0 }) + term_text(t).len() <= 128,
    ensures
        put_term(out, i, t) == out + (if i > 0 { encode_utf8(seq!['+']) } else { Seq::<u8>::empty() }) + term_text(t),
{
    let sep = if i > 0 { encode_utf8(seq!['+']) } else { Seq::<u8>::empty() };
    let o1 = if i > 0 { put_char(out, '+') } else { out };
    assert(o1 =~= out + sep);
    let coef = if t.0 != 1 || t.1.len() == 0 { int_text(t.0 as int) } else { Seq::<u8>::empty() };
    let o2 = if t.0 != 1 || t.1.len() == 0 { put_int(o1, t.0 as int) } else { o1 };
    if t.0 != 1 || t.1.len() == 0 {
        lemma_put_int_fits(o1, t.0 as int);
    }
    assert(o2 =~= o1 + coef);
    assert(t.1.take(t.1.len() as int) =~= t.1);
    lemma_put_powers_text(o2, t.1, t.1.len() as int);
    assert(put_term(out, i, t) =~= out + sep + term_text(t));
}

proof fn lemma_render_terms_prefix(ts: Seq<Term>, t: Term, n: int)
    requires
        0 <= n <= ts.len(),
    ensures
        render_terms(ts.push(t), n) == render_terms(ts, n),
    decreases n,
{
    if n > 0 {
        lemma_render_terms_prefix(ts, t, n - 1);
        assert(ts.push(t)[n - 1] == ts[n - 1]);
    }
}

/// The text of a polynomial of one term is the term's text: its
/// coefficient (left out when it is 1 on a term with variables, with a `-`
/// when negative), then each variable followed by `^` and the full decimal
/// numeral of its exponent when the exponent is above 1.
pub proof fn law_one_term_text(t: Term)
    requires
        term_text(t).len() <= 128,
    ensures
        render(seq![t]) == term_text(t),
{
    lemma_put_term_text(Seq::empty(), 0, t);
    assert(seq![t][0] == t);
    assert(render_terms(seq![t], 0) == Seq::<u8>::empty());
    assert(render(seq![t]) == put_term(Seq::empty(), 0, t));
    assert(Seq::<u8>::empty() + Seq::<u8>::empty() + term_text(t) =~= term_text(t));
}

/// A further term is written after a `+`, as its own text, when it fits in
/// the 128 bytes: the text of the longer polynomial is the text of the
/// shorter one, `+`, and the term's text.
pub proof fn law_next_term_text(ts: Seq<Term>, t: Term)
    requires
        ts.len() > 0,
        render(ts).len() + 1 + term_text(t).len() <= 128,
    ensures
        render(ts.push(t)) == render(ts) + encode_utf8(seq!['+']) + term_text(t),
{
    let n = ts.len() as int;
    lemma_render_terms_prefix(ts, t, n);
    assert(ts.push(t)[n] == t);
    vstd::utf8::is_ascii_chars_encode_utf8(seq!['+']);
    assert(encode_utf8(seq!['+']).len() == 1);
    lemma_put_term_text(render(ts), n, t);
}

} // verus!
