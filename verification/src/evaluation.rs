//! The value of a polynomial at an assignment of integers to its variables,
//! and the laws that tie the sum and the product of polynomials to the sum
//! and the product of their values.

use vstd::prelude::*;
use vstd::arithmetic::power::{lemma_pow_adds, pow};

use crate::polynomial::{
    combine, combine_from, find_key, find_key_from, find_like_from, lookup, map_eq, map_insert,
    merge, merge_all, mul_ok, nonzero_terms, poly_add, poly_mul, products, products_row,
    sat_add, term_product, Powers, Term,
};

verus! {

/// The value of one exponent entry `(v, e)`: `env(v)` to the power `e`.
pub open spec fn entry_value(e: (char, u8), env: spec_fn(char) -> int) -> int {
    pow(env(e.0), e.1 as nat)
}

/// The value of the exponents of a term: the product of its entries.
pub open spec fn powers_value(p: Powers, env: spec_fn(char) -> int) -> int
    decreases p.len(),
{
    if p.len() == 0 {
        1
    } else {
        powers_value(p.drop_last(), env) * entry_value(p.last(), env)
    }
}

/// The value of a term: its coefficient times the value of its exponents.
pub open spec fn term_value(t: Term, env: spec_fn(char) -> int) -> int {
    t.0 * powers_value(t.1, env)
}

/// The value of a polynomial: the sum of the values of its terms.
pub open spec fn poly_value(ts: Seq<Term>, env: spec_fn(char) -> int) -> int
    decreases ts.len(),
{
    if ts.len() == 0 {
        0
    } else {
        poly_value(ts.drop_last(), env) + term_value(ts.last(), env)
    }
}

/// No variable occurs twice among the exponents (as in a map).
pub open spec fn distinct_vars(p: Powers) -> bool {
    forall|i: int, j: int| 0 <= i < j < p.len() ==> (#[trigger] p[i]).0 != (#[trigger] p[j]).0
}

/// Every term's exponents have distinct variables.
pub open spec fn all_distinct_vars(ts: Seq<Term>) -> bool {
    forall|i: int| 0 <= i < ts.len() ==> distinct_vars(#[trigger] ts[i].1)
}

/// Multiplying exponents `p` by the entries of `q` from `j` on never finds
/// the map full when a new variable comes (no variable is dropped).
pub open spec fn combine_keeps_from(p: Powers, q: Powers, j: int) -> bool
    decreases q.len() - j,
{
    if j < 0 || j >= q.len() {
        true
    } else {
        let v = q[j].0;
        let cur: int = match lookup(p, v) {
            Some(c) => c as int,
            None => 0,
        };
        &&& (lookup(p, v) is Some || p.len() < 8)
        &&& (cur + q[j].1 <= 255 ==> combine_keeps_from(map_insert(p, v, (cur + q[j].1) as u8), q, j + 1))
    }
}

/// The product of exponents `p` and `q` drops no variable.
pub open spec fn combine_keeps(p: Powers, q: Powers) -> bool {
    combine_keeps_from(p, q, 0)
}

/// Adding term `t` into `ts` loses nothing: the coefficient sum with a like
/// term stays within `i64`, and a new term finds room.
pub open spec fn merge_exact(ts: Seq<Term>, t: Term) -> bool {
    let i = find_like_from(ts, t.1, 0);
    if 0 <= i < ts.len() {
        i64::MIN <= ts[i].0 + t.0 <= i64::MAX
    } else {
        ts.len() < 16
    }
}

/// Adding the first `n` terms of `us` into `ts`, in order, loses nothing.
pub open spec fn merge_all_exact(ts: Seq<Term>, us: Seq<Term>, n: int) -> bool
    decreases n,
{
    if n <= 0 {
        true
    } else {
        merge_all_exact(ts, us, n - 1) && merge_exact(merge_all(ts, us, n - 1), us[n - 1])
    }
}

/// Every product of a term of `a` by a term of `b` is exact: the
/// coefficients' product fits in `i64` and no variable is dropped.
pub open spec fn products_exact(a: Seq<Term>, b: Seq<Term>) -> bool {
    forall|i: int, j: int|
        #![trigger a[i], b[j]]
        0 <= i < a.len() && 0 <= j < b.len() ==> {
            &&& i64::MIN <= a[i].0 * b[j].0 <= i64::MAX
            &&& combine_keeps(a[i].1, b[j].1)
        }
}

/// The search for a key stops within range, at the key, past no match.
proof fn lemma_find_key(p: Powers, k: char, i: int)
    requires
        0 <= i,
    ensures
        ({
            let r = find_key_from(p, k, i);
            &&& (i <= r <= p.len() || (i > p.len() && r == p.len()))
            &&& (r < p.len() ==> p[r].0 == k)
            &&& forall|m: int| i <= m < r && m < p.len() ==> p[m].0 != k
        }),
    decreases p.len() - i,
{
    if i < p.len() && p[i].0 != k {
        lemma_find_key(p, k, i + 1);
    }
}

/// With distinct variables, looking a variable up finds its one entry.
proof fn lemma_lookup_distinct(q: Powers, m: int)
    requires
        distinct_vars(q),
        0 <= m < q.len(),
    ensures
        lookup(q, q[m].0) == Some(q[m].1),
{
    lemma_find_key(q, q[m].0, 0);
    let r = find_key(q, q[m].0);
    if r != m {
        assert(q[r].0 == q[m].0);
        if r < m {
            assert(q[r].0 != q[m].0);
        }
    }
}

/// The value of exponents is that of any one entry times that of the rest.
proof fn lemma_powers_remove(p: Powers, i: int, env: spec_fn(char) -> int)
    requires
        0 <= i < p.len(),
    ensures
        powers_value(p, env) == entry_value(p[i], env) * powers_value(p.remove(i), env),
    decreases p.len(),
{
    if i == p.len() - 1 {
        assert(p.remove(i) =~= p.drop_last());
        let a = powers_value(p.drop_last(), env);
        let b = entry_value(p.last(), env);
        assert(a * b == b * a) by (nonlinear_arith);
    } else {
        let d = p.drop_last();
        lemma_powers_remove(d, i, env);
        assert(p.remove(i).drop_last() =~= d.remove(i));
        assert(p.remove(i).last() == p.last());
        let e = entry_value(p[i], env);
        let r = powers_value(d.remove(i), env);
        let l = entry_value(p.last(), env);
        assert((e * r) * l == e * (r * l)) by (nonlinear_arith);
    }
}

/// Setting the exponent of a variable to its current one plus `e`
/// multiplies the value by `env(v)` to the power `e`.
proof fn lemma_insert_value(p: Powers, v: char, e: u8, env: spec_fn(char) -> int)
    requires
        lookup(p, v) is Some || p.len() < 8,
        (match lookup(p, v) {
            Some(c) => c as int,
            None => 0,
        }) + e <= 255,
    ensures
        ({
            let cur: int = match lookup(p, v) {
                Some(c) => c as int,
                None => 0,
            };
            powers_value(map_insert(p, v, (cur + e) as u8), env) == powers_value(p, env) * pow(env(v), e as nat)
        }),
{
    lemma_find_key(p, v, 0);
    let i = find_key(p, v);
    let x = env(v);
    if 0 <= i < p.len() {
        let c = p[i].1;
        let u = p.update(i, (v, (c + e) as u8));
        lemma_powers_remove(u, i, env);
        assert(u.remove(i) =~= p.remove(i));
        lemma_powers_remove(p, i, env);
        lemma_pow_adds(x, c as nat, e as nat);
        assert(((c + e) as u8) as nat == c as nat + e as nat);
        let r = powers_value(p.remove(i), env);
        let pc = pow(x, c as nat);
        let pe = pow(x, e as nat);
        assert((pc * pe) * r == (pc * r) * pe) by (nonlinear_arith);
    } else {
        assert(p.push((v, e)).drop_last() =~= p);
    }
}

/// Multiplying exponents changes no variable's distinctness.
proof fn lemma_insert_distinct(p: Powers, v: char, x: u8)
    requires
        distinct_vars(p),
    ensures
        distinct_vars(map_insert(p, v, x)),
{
    lemma_find_key(p, v, 0);
    let i = find_key(p, v);
    let r = map_insert(p, v, x);
    if 0 <= i < p.len() {
        assert forall|a: int, b: int| 0 <= a < b < r.len() implies (#[trigger] r[a]).0 != (#[trigger] r[b]).0 by {
            assert(r[a].0 == p[a].0);
            assert(r[b].0 == p[b].0);
        }
    } else if p.len() < 8 {
        assert forall|a: int, b: int| 0 <= a < b < r.len() implies (#[trigger] r[a]).0 != (#[trigger] r[b]).0 by {
            assert(r[a] == p[a]);
            if b < p.len() {
                assert(r[b] == p[b]);
            }
        }
    }
}

/// The value of a product of exponents is the product of their values.
proof fn lemma_combine_value(p: Powers, q: Powers, j: int, env: spec_fn(char) -> int)
    requires
        0 <= j <= q.len(),
        combine_from(p, q, j) is Some,
        combine_keeps_from(p, q, j),
        distinct_vars(p),
    ensures
        powers_value(combine_from(p, q, j).unwrap(), env) == powers_value(p, env) * powers_value(q.subrange(j, q.len() as int), env),
        distinct_vars(combine_from(p, q, j).unwrap()),
    decreases q.len() - j,
{
    if j == q.len() {
        assert(q.subrange(j, j) =~= Seq::<(char, u8)>::empty());
        let a = powers_value(p, env);
        assert(a * 1 == a);
    } else {
        let v = q[j].0;
        let cur: int = match lookup(p, v) {
            Some(c) => c as int,
            None => 0,
        };
        let p2 = map_insert(p, v, (cur + q[j].1) as u8);
        lemma_insert_value(p, v, q[j].1, env);
        lemma_insert_distinct(p, v, (cur + q[j].1) as u8);
        lemma_combine_value(p2, q, j + 1, env);
        let s = q.subrange(j, q.len() as int);
        lemma_powers_remove(s, 0, env);
        assert(s.remove(0) =~= q.subrange(j + 1, q.len() as int));
        let a = powers_value(p, env);
        let pe = pow(env(v), q[j].1 as nat);
        let rest = powers_value(q.subrange(j + 1, q.len() as int), env);
        assert((a * pe) * rest == a * (pe * rest)) by (nonlinear_arith);
    }
}

/// Equal exponent maps (with distinct variables) have equal values.
proof fn lemma_map_eq_value(p: Powers, q: Powers, env: spec_fn(char) -> int)
    requires
        distinct_vars(p),
        distinct_vars(q),
        map_eq(p, q),
    ensures
        powers_value(p, env) == powers_value(q, env),
    decreases p.len(),
{
    if p.len() > 0 {
        let n = p.len() - 1;
        let v = p[n].0;
        assert(lookup(q, p[n].0) == Some(p[n].1));
        lemma_find_key(q, v, 0);
        let j = find_key(q, v);
        assert(q[j] == p[n]);
        let p1 = p.drop_last();
        let q1 = q.remove(j);
        assert(distinct_vars(p1)) by {
            assert forall|a: int, b: int| 0 <= a < b < p1.len() implies (#[trigger] p1[a]).0 != (#[trigger] p1[b]).0 by {
                assert(p1[a] == p[a]);
                assert(p1[b] == p[b]);
            }
        }
        assert(distinct_vars(q1)) by {
            assert forall|a: int, b: int| 0 <= a < b < q1.len() implies (#[trigger] q1[a]).0 != (#[trigger] q1[b]).0 by {
                let a2 = if a < j { a } else { a + 1 };
                let b2 = if b < j { b } else { b + 1 };
                assert(q1[a] == q[a2]);
                assert(q1[b] == q[b2]);
            }
        }
        assert forall|i: int| 0 <= i < p1.len() implies lookup(q1, #[trigger] p1[i].0) == Some(p1[i].1) by {
            let k = p1[i].0;
            assert(p1[i] == p[i]);
            assert(lookup(q, p[i].0) == Some(p[i].1));
            lemma_find_key(q, k, 0);
            let m = find_key(q, k);
            assert(p[i].0 != p[n].0);
            assert(m != j);
            let m1 = if m < j { m } else { m - 1 };
            assert(q1[m1] == q[m]);
            lemma_lookup_distinct(q1, m1);
        }
        lemma_map_eq_value(p1, q1, env);
        lemma_powers_remove(q, j, env);
        let a = powers_value(p1, env);
        let b = entry_value(p[n], env);
        assert(a * b == b * a) by (nonlinear_arith);
    }
}

/// Replacing a term changes the value by the difference of the terms.
proof fn lemma_update_value(ts: Seq<Term>, i: int, x: Term, env: spec_fn(char) -> int)
    requires
        0 <= i < ts.len(),
    ensures
        poly_value(ts.update(i, x), env) == poly_value(ts, env) - term_value(ts[i], env) + term_value(x, env),
    decreases ts.len(),
{
    if i == ts.len() - 1 {
        assert(ts.update(i, x).drop_last() =~= ts.drop_last());
    } else {
        lemma_update_value(ts.drop_last(), i, x, env);
        assert(ts.update(i, x).drop_last() =~= ts.drop_last().update(i, x));
    }
}

/// A like term found by the search has equal exponents.
proof fn lemma_find_like_found(ts: Seq<Term>, p: Powers, k: int)
    requires
        0 <= k,
        find_like_from(ts, p, k) < ts.len(),
    ensures
        k <= find_like_from(ts, p, k),
        map_eq(ts[find_like_from(ts, p, k)].1, p),
    decreases ts.len() - k,
{
    if k < ts.len() && !map_eq(ts[k].1, p) {
        lemma_find_like_found(ts, p, k + 1);
    }
}

/// Adding a term exactly adds its value.
proof fn lemma_merge_value(ts: Seq<Term>, t: Term, env: spec_fn(char) -> int)
    requires
        all_distinct_vars(ts),
        distinct_vars(t.1),
        merge_exact(ts, t),
    ensures
        poly_value(merge(ts, t), env) == poly_value(ts, env) + term_value(t, env),
        all_distinct_vars(merge(ts, t)),
{
    let i = find_like_from(ts, t.1, 0);
    if 0 <= i < ts.len() {
        lemma_find_like_found(ts, t.1, 0);
        assert(distinct_vars(ts[i].1));
        lemma_map_eq_value(ts[i].1, t.1, env);
        let x: Term = (sat_add(ts[i].0, t.0), ts[i].1);
        lemma_update_value(ts, i, x, env);
        let ci = ts[i].0 as int;
        let ct = t.0 as int;
        let w = powers_value(t.1, env);
        assert((ci + ct) * w == ci * w + ct * w) by (nonlinear_arith);
        let r = merge(ts, t);
        assert forall|k: int| 0 <= k < r.len() implies distinct_vars(#[trigger] r[k].1) by {
            assert(r[k].1 == ts[k].1);
        }
    } else {
        let r = merge(ts, t);
        assert(r == ts.push(t));
        assert(r.drop_last() =~= ts);
        assert forall|k: int| 0 <= k < r.len() implies distinct_vars(#[trigger] r[k].1) by {
            if k < ts.len() {
                assert(r[k] == ts[k]);
            }
        }
    }
}

/// Adding terms exactly adds their values.
proof fn lemma_merge_all_value(ts: Seq<Term>, us: Seq<Term>, n: int, env: spec_fn(char) -> int)
    requires
        0 <= n <= us.len(),
        all_distinct_vars(ts),
        all_distinct_vars(us),
        merge_all_exact(ts, us, n),
    ensures
        poly_value(merge_all(ts, us, n), env) == poly_value(ts, env) + poly_value(us.take(n), env),
        all_distinct_vars(merge_all(ts, us, n)),
    decreases n,
{
    if n == 0 {
        assert(us.take(0) =~= Seq::<Term>::empty());
    } else {
        lemma_merge_all_value(ts, us, n - 1, env);
        assert(distinct_vars(us[n - 1].1));
        lemma_merge_value(merge_all(ts, us, n - 1), us[n - 1], env);
        assert(us.take(n).drop_last() =~= us.take(n - 1));
        assert(us.take(n).last() == us[n - 1]);
    }
}

/// Dropping the zero terms keeps the value.
proof fn lemma_nonzero_value(ts: Seq<Term>, env: spec_fn(char) -> int)
    ensures
        poly_value(nonzero_terms(ts), env) == poly_value(ts, env),
    decreases ts.len(),
{
    let pred = |t: Term| t.0 != 0;
    reveal_with_fuel(Seq::filter, 1);
    if ts.len() > 0 {
        let init = ts.drop_last();
        lemma_nonzero_value(init, env);
        let f = init.filter(pred);
        assert(ts.filter(pred) == if pred(ts.last()) { f.push(ts.last()) } else { f });
        if pred(ts.last()) {
            assert(f.push(ts.last()).drop_last() =~= f);
        } else {
            let w = powers_value(ts.last().1, env);
            assert(0 * w == 0) by (nonlinear_arith);
        }
    }
}

/// An exact product of terms has the product of their values.
proof fn lemma_term_product_value(s: Term, t: Term, env: spec_fn(char) -> int)
    requires
        i64::MIN <= s.0 * t.0 <= i64::MAX,
        combine(s.1, t.1) is Some,
        combine_keeps(s.1, t.1),
        distinct_vars(s.1),
    ensures
        term_value(term_product(s, t), env) == term_value(s, env) * term_value(t, env),
        distinct_vars(term_product(s, t).1),
{
    lemma_combine_value(s.1, t.1, 0, env);
    assert(t.1.subrange(0, t.1.len() as int) =~= t.1);
    let a = s.0 as int;
    let b = t.0 as int;
    let x = powers_value(s.1, env);
    let y = powers_value(t.1, env);
    assert((a * b) * (x * y) == (a * x) * (b * y)) by (nonlinear_arith);
}

/// A row of exact products adds the value of `s` times that of the first
/// `n` terms of `b`.
proof fn lemma_products_row_value(acc: Seq<Term>, s: Term, b: Seq<Term>, n: int, env: spec_fn(char) -> int)
    requires
        0 <= n <= b.len(),
        acc.len() + n <= 16,
        all_distinct_vars(acc),
        distinct_vars(s.1),
        forall|j: int| 0 <= j < n ==> {
            &&& i64::MIN <= s.0 * (#[trigger] b[j]).0 <= i64::MAX
            &&& combine(s.1, b[j].1) is Some
            &&& combine_keeps(s.1, b[j].1)
        },
    ensures
        products_row(acc, s, b, n).len() == acc.len() + n,
        poly_value(products_row(acc, s, b, n), env) == poly_value(acc, env) + term_value(s, env) * poly_value(b.take(n), env),
        all_distinct_vars(products_row(acc, s, b, n)),
    decreases n,
{
    if n == 0 {
        assert(b.take(0) =~= Seq::<Term>::empty());
        let v = term_value(s, env);
        assert(v * 0 == 0) by (nonlinear_arith);
    } else {
        lemma_products_row_value(acc, s, b, n - 1, env);
        let prev = products_row(acc, s, b, n - 1);
        let t = term_product(s, b[n - 1]);
        lemma_term_product_value(s, b[n - 1], env);
        let r = prev.push(t);
        assert(products_row(acc, s, b, n) == r);
        assert(r.drop_last() =~= prev);
        assert forall|k: int| 0 <= k < r.len() implies distinct_vars(#[trigger] r[k].1) by {
            if k < prev.len() {
                assert(r[k] == prev[k]);
            }
        }
        assert(b.take(n).drop_last() =~= b.take(n - 1));
        assert(b.take(n).last() == b[n - 1]);
        let vs = term_value(s, env);
        let pb = poly_value(b.take(n - 1), env);
        let tb = term_value(b[n - 1], env);
        assert(vs * pb + vs * tb == vs * (pb + tb)) by (nonlinear_arith);
    }
}

/// The exact products of the first `m` terms of `a` by all of `b` have the
/// value of those terms times that of `b`.
proof fn lemma_products_value(a: Seq<Term>, b: Seq<Term>, m: int, env: spec_fn(char) -> int)
    requires
        0 <= m <= a.len(),
        m * b.len() <= 16,
        mul_ok(a, b),
        all_distinct_vars(a),
        products_exact(a, b),
    ensures
        products(a, b, m).len() == m * b.len(),
        poly_value(products(a, b, m), env) == poly_value(a.take(m), env) * poly_value(b, env),
        all_distinct_vars(products(a, b, m)),
    decreases m,
{
    if m == 0 {
        assert(a.take(0) =~= Seq::<Term>::empty());
        let v = poly_value(b, env);
        assert(0 * v == 0) by (nonlinear_arith);
        let bl = b.len() as int;
        assert(0 * bl == 0) by (nonlinear_arith);
    } else {
        let bl = b.len() as int;
        assert((m - 1) * bl + bl == m * bl) by (nonlinear_arith);
        assert((m - 1) * bl <= m * bl) by (nonlinear_arith)
            requires bl >= 0;
        lemma_products_value(a, b, m - 1, env);
        let s = a[m - 1];
        assert(distinct_vars(s.1));
        assert forall|j: int| 0 <= j < bl implies {
            &&& i64::MIN <= s.0 * (#[trigger] b[j]).0 <= i64::MAX
            &&& combine(s.1, b[j].1) is Some
            &&& combine_keeps(s.1, b[j].1)
        } by {
            assert(combine(a[m - 1].1, b[j].1) is Some);
        }
        assert(b.take(bl) =~= b);
        lemma_products_row_value(products(a, b, m - 1), s, b, bl, env);
        assert(a.take(m).drop_last() =~= a.take(m - 1));
        assert(a.take(m).last() == s);
        let pa = poly_value(a.take(m - 1), env);
        let vs = term_value(s, env);
        let pb = poly_value(b, env);
        assert(pa * pb + vs * pb == (pa + vs) * pb) by (nonlinear_arith);
    }
}

/// Evaluating a sum: when no coefficient sum leaves `i64` and no term finds
/// the list full, the value of `a + b` at any assignment is the value of `a`
/// plus the value of `b`. The terms' variables are distinct in every
/// polynomial that `from_monomial`, `add` and `mul` build.
pub proof fn law_sum_evaluates(a: Seq<Term>, b: Seq<Term>, env: spec_fn(char) -> int)
    requires
        all_distinct_vars(a),
        all_distinct_vars(b),
        merge_all_exact(a, b, b.len() as int),
    ensures
        poly_value(poly_add(a, b), env) == poly_value(a, env) + poly_value(b, env),
{
    lemma_merge_all_value(a, b, b.len() as int, env);
    assert(b.take(b.len() as int) =~= b);
    lemma_nonzero_value(merge_all(a, b, b.len() as int), env);
}

/// Evaluating a product: when the products of terms are exact (coefficients
/// within `i64`, no variable dropped, exponents within `u8`), there are at
/// most 16 of them, and gathering them overflows no coefficient, the value
/// of `a * b` at any assignment is the value of `a` times the value of `b`.
/// The terms' variables are distinct in every polynomial that
/// `from_monomial`, `add` and `mul` build.
pub proof fn law_product_evaluates(a: Seq<Term>, b: Seq<Term>, env: spec_fn(char) -> int)
    requires
        all_distinct_vars(a),
        mul_ok(a, b),
        products_exact(a, b),
        a.len() * b.len() <= 16,
        merge_all_exact(Seq::empty(), products(a, b, a.len() as int), products(a, b, a.len() as int).len() as int),
    ensures
        poly_value(poly_mul(a, b), env) == poly_value(a, env) * poly_value(b, env),
{
    let raw = products(a, b, a.len() as int);
    lemma_products_value(a, b, a.len() as int, env);
    assert(a.take(a.len() as int) =~= a);
    assert(raw.take(raw.len() as int) =~= raw);
    lemma_merge_all_value(Seq::empty(), raw, raw.len() as int, env);
    lemma_nonzero_value(merge_all(Seq::empty(), raw, raw.len() as int), env);
}

/// Multiplying exponents with distinct variables keeps them distinct.
proof fn lemma_combine_distinct(p: Powers, q: Powers, j: int)
    requires
        distinct_vars(p),
        combine_from(p, q, j) is Some,
    ensures
        distinct_vars(combine_from(p, q, j).unwrap()),
    decreases q.len() - j,
{
    if 0 <= j < q.len() {
        let v = q[j].0;
        let cur: int = match lookup(p, v) {
            Some(c) => c as int,
            None => 0,
        };
        lemma_insert_distinct(p, v, (cur + q[j].1) as u8);
        lemma_combine_distinct(map_insert(p, v, (cur + q[j].1) as u8), q, j + 1);
    }
}

/// Adding a term with distinct variables keeps every term's variables
/// distinct.
proof fn lemma_merge_distinct(ts: Seq<Term>, t: Term)
    requires
        all_distinct_vars(ts),
        distinct_vars(t.1),
    ensures
        all_distinct_vars(merge(ts, t)),
{
    let i = find_like_from(ts, t.1, 0);
    let r = merge(ts, t);
    if 0 <= i < ts.len() {
        assert forall|k: int| 0 <= k < r.len() implies distinct_vars(#[trigger] r[k].1) by {
            assert(r[k].1 == ts[k].1);
        }
    } else if ts.len() < 16 {
        assert forall|k: int| 0 <= k < r.len() implies distinct_vars(#[trigger] r[k].1) by {
            if k < ts.len() {
                assert(r[k] == ts[k]);
            }
        }
    }
}

proof fn lemma_merge_all_distinct(ts: Seq<Term>, us: Seq<Term>, n: int)
    requires
        n <= us.len(),
        all_distinct_vars(ts),
        all_distinct_vars(us),
    ensures
        all_distinct_vars(merge_all(ts, us, n)),
    decreases n,
{
    if n > 0 {
        lemma_merge_all_distinct(ts, us, n - 1);
        assert(distinct_vars(us[n - 1].1));
        lemma_merge_distinct(merge_all(ts, us, n - 1), us[n - 1]);
    }
}

/// Dropping zero terms keeps every term's variables distinct.
proof fn lemma_nonzero_distinct(ts: Seq<Term>)
    requires
        all_distinct_vars(ts),
    ensures
        all_distinct_vars(nonzero_terms(ts)),
{
    let pred = |t: Term| t.0 != 0;
    let f = ts.filter(pred);
    assert(nonzero_terms(ts) == f);
    assert forall|k: int| 0 <= k < f.len() implies distinct_vars(#[trigger] f[k].1) by {
        assert(f.contains(f[k]));
        ts.lemma_filter_contains_rev(pred, f[k]);
        let m = choose|m: int| 0 <= m < ts.len() && ts[m] == f[k];
        assert(distinct_vars(ts[m].1));
    }
}

proof fn lemma_products_row_distinct(acc: Seq<Term>, s: Term, b: Seq<Term>, n: int)
    requires
        n <= b.len(),
        all_distinct_vars(acc),
        distinct_vars(s.1),
        forall|j: int| 0 <= j < n ==> (#[trigger] combine(s.1, b[j].1)) is Some,
    ensures
        all_distinct_vars(products_row(acc, s, b, n)),
    decreases n,
{
    if n > 0 {
        lemma_products_row_distinct(acc, s, b, n - 1);
        let prev = products_row(acc, s, b, n - 1);
        let t = term_product(s, b[n - 1]);
        assert(combine(s.1, b[n - 1].1) is Some);
        lemma_combine_distinct(s.1, b[n - 1].1, 0);
        let r = products_row(acc, s, b, n);
        assert forall|k: int| 0 <= k < r.len() implies distinct_vars(#[trigger] r[k].1) by {
            if k < prev.len() {
                assert(r[k] == prev[k]);
            } else {
                assert(r[k] == t);
            }
        }
    }
}

proof fn lemma_products_distinct(a: Seq<Term>, b: Seq<Term>, m: int)
    requires
        m <= a.len(),
        all_distinct_vars(a),
        mul_ok(a, b),
    ensures
        all_distinct_vars(products(a, b, m)),
    decreases m,
{
    if m > 0 {
        lemma_products_distinct(a, b, m - 1);
        assert(distinct_vars(a[m - 1].1));
        assert forall|j: int| 0 <= j < b.len() implies (#[trigger] combine(a[m - 1].1, b[j].1)) is Some by {}
        lemma_products_row_distinct(products(a, b, m - 1), a[m - 1], b, b.len() as int);
    }
}

/// A polynomial of one term has distinct variables.
pub proof fn lemma_monomial_distinct(coeff: i64, var: Option<char>, exp: u8)
    ensures
        all_distinct_vars(crate::polynomial::monomial_terms(coeff, var, exp)),
{
}

/// A sum of polynomials whose terms have distinct variables has terms with
/// distinct variables.
pub proof fn lemma_sum_distinct(a: Seq<Term>, b: Seq<Term>)
    ensures
        all_distinct_vars(a) && all_distinct_vars(b) ==> all_distinct_vars(poly_add(a, b)),
{
    if all_distinct_vars(a) && all_distinct_vars(b) {
        lemma_merge_all_distinct(a, b, b.len() as int);
        lemma_nonzero_distinct(merge_all(a, b, b.len() as int));
    }
}

/// A product of a polynomial whose terms have distinct variables has terms
/// with distinct variables.
pub proof fn lemma_product_distinct(a: Seq<Term>, b: Seq<Term>)
    requires
        mul_ok(a, b),
    ensures
        all_distinct_vars(a) ==> all_distinct_vars(poly_mul(a, b)),
{
    if all_distinct_vars(a) {
        let raw = products(a, b, a.len() as int);
        lemma_products_distinct(a, b, a.len() as int);
        lemma_merge_all_distinct(Seq::empty(), raw, raw.len() as int);
        lemma_nonzero_distinct(merge_all(Seq::empty(), raw, raw.len() as int));
    }
}

} // verus!
