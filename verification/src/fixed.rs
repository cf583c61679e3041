//! The fixed-capacity collections that the polynomial simplifier keeps its
//! terms, exponents and output in, with what each operation does to them.

use vstd::prelude::*;
use vstd::utf8::encode_utf8;

use crate::polynomial::{lookup, map_eq, map_insert, term_view, Monomial, Term};

verus! {

#[verifier::external_type_specification]
#[verifier::external_body]
#[verifier::reject_recursive_types(T)]
pub struct ExHeaplessVec<T, const N: usize>(heapless::Vec<T, N>);

#[verifier::external_type_specification]
#[verifier::external_body]
#[verifier::reject_recursive_types(K)]
#[verifier::reject_recursive_types(V)]
pub struct ExHeaplessLinearMap<K, V, const N: usize>(heapless::LinearMap<K, V, N>);

#[verifier::external_type_specification]
#[verifier::external_body]
pub struct ExHeaplessString<const N: usize>(heapless::String<N>);

/// The entries of an exponent map, in the order in which it holds them.
pub uninterp spec fn map_entries(m: heapless::LinearMap<char, u8, 8>) -> Seq<(char, u8)>;

/// The terms of a polynomial, in the order in which it holds them.
pub uninterp spec fn term_items(v: heapless::Vec<Monomial, 16>) -> Seq<(i64, Seq<(char, u8)>)>;

/// The UTF-8 bytes of a fixed-capacity string.
pub uninterp spec fn string_bytes(s: heapless::String<128>) -> Seq<u8>;

/// `LinearMap::new`: an empty map.
#[verifier::external_body]
pub(crate) fn map_new() -> (r: heapless::LinearMap<char, u8, 8>)
    ensures
        map_entries(r) == Seq::<(char, u8)>::empty(),
{
    heapless::LinearMap::new()
}

/// `LinearMap::insert`: the entry of `key` gets `value` in place, else a new
/// entry goes at the end when there is room (fewer than 8 entries), else
/// the map is unchanged and the pair comes back as the error.
#[verifier::external_body]
pub(crate) fn map_insert_entry(m: &mut heapless::LinearMap<char, u8, 8>, key: char, value: u8) -> (r: Result<Option<u8>, (char, u8)>)
    ensures
        map_entries(*final(m)) == map_insert(map_entries(*old(m)), key, value),
        r matches Ok(Some(v)) ==> lookup(map_entries(*old(m)), key) == Some(v),
        r matches Ok(None) ==> lookup(map_entries(*old(m)), key) is None && map_entries(*old(m)).len() < 8,
        r is Err <==> (lookup(map_entries(*old(m)), key) is None && map_entries(*old(m)).len() >= 8),
{
    m.insert(key, value)
}

/// `LinearMap::get`: the value of the first entry with `key`.
#[verifier::external_body]
pub(crate) fn map_get(m: &heapless::LinearMap<char, u8, 8>, key: char) -> (r: Option<u8>)
    ensures
        r == lookup(map_entries(*m), key),
{
    m.get(&key).copied()
}

/// `LinearMap::eq`: same number of entries, and each entry of `a` is found
/// in `b` with the same value.
#[verifier::external_body]
pub(crate) fn map_equal(a: &heapless::LinearMap<char, u8, 8>, b: &heapless::LinearMap<char, u8, 8>) -> (r: bool)
    ensures
        r == map_eq(map_entries(*a), map_entries(*b)),
{
    a == b
}

/// `LinearMap::len`.
#[verifier::external_body]
pub(crate) fn map_len(m: &heapless::LinearMap<char, u8, 8>) -> (r: usize)
    ensures
        r == map_entries(*m).len(),
{
    m.len()
}

/// `LinearMap::is_empty`.
#[verifier::external_body]
pub(crate) fn map_is_empty(m: &heapless::LinearMap<char, u8, 8>) -> (r: bool)
    ensures
        r == (map_entries(*m).len() == 0),
{
    m.is_empty()
}

/// `LinearMap::iter`, read at position `i`: the `i`-th entry in the map's order.
#[verifier::external_body]
pub(crate) fn map_entry(m: &heapless::LinearMap<char, u8, 8>, i: usize) -> (r: (char, u8))
    requires
        i < map_entries(*m).len(),
    ensures
        r == map_entries(*m)[i as int],
{
    let (k, v) = m.iter().nth(i).unwrap();
    (*k, *v)
}

/// `LinearMap::clone`: the same entries in the same order.
#[verifier::external_body]
pub(crate) fn map_clone(m: &heapless::LinearMap<char, u8, 8>) -> (r: heapless::LinearMap<char, u8, 8>)
    ensures
        map_entries(r) == map_entries(*m),
{
    m.clone()
}

/// `Vec::new`: no terms.
#[verifier::external_body]
pub(crate) fn terms_new() -> (r: heapless::Vec<Monomial, 16>)
    ensures
        term_items(r) == Seq::<Term>::empty(),
{
    heapless::Vec::new()
}

/// `Vec::len`.
#[verifier::external_body]
pub(crate) fn terms_len(v: &heapless::Vec<Monomial, 16>) -> (r: usize)
    ensures
        r == term_items(*v).len(),
        r <= 16,
{
    v.len()
}

/// `Vec::deref`, indexed at `i`: the `i`-th term.
#[verifier::external_body]
pub(crate) fn terms_get(v: &heapless::Vec<Monomial, 16>, i: usize) -> (r: &Monomial)
    requires
        i < term_items(*v).len(),
    ensures
        term_view(*r) == term_items(*v)[i as int],
{
    &v[i]
}

/// `Vec::deref_mut`, indexed at `i`: the `i`-th term gets coefficient `c`.
#[verifier::external_body]
pub(crate) fn terms_set_coeff(v: &mut heapless::Vec<Monomial, 16>, i: usize, c: i64)
    requires
        i < term_items(*old(v)).len(),
    ensures
        term_items(*final(v)) == term_items(*old(v)).update(i as int, (c, term_items(*old(v))[i as int].1)),
{
    v[i].coeff = c;
}

/// `Vec::push`: the term goes at the end when there is room (fewer than 16
/// terms); otherwise nothing changes and it comes back as the error.
#[verifier::external_body]
pub(crate) fn terms_push(v: &mut heapless::Vec<Monomial, 16>, m: Monomial) -> (r: Result<(), Monomial>)
    ensures
        term_items(*old(v)).len() < 16 ==> r is Ok && term_items(*final(v)) == term_items(*old(v)).push(term_view(m)),
        term_items(*old(v)).len() >= 16 ==> r is Err && term_items(*final(v)) == term_items(*old(v)),
{
    v.push(m)
}

/// `Vec::retain` with the test that a term's coefficient is not zero: the
/// terms with a non-zero coefficient, in their order.
#[verifier::external_body]
pub(crate) fn terms_retain_nonzero(v: &mut heapless::Vec<Monomial, 16>)
    ensures
        term_items(*final(v)) == term_items(*old(v)).filter(|t: Term| t.0 != 0),
{
    v.retain(|m| crate::polynomial::has_nonzero_coeff(m))
}

/// `Vec::clone`: the same terms in the same order.
#[verifier::external_body]
pub(crate) fn terms_clone(v: &heapless::Vec<Monomial, 16>) -> (r: heapless::Vec<Monomial, 16>)
    ensures
        term_items(r) == term_items(*v),
{
    v.clone()
}

/// `String::new`: no bytes.
#[verifier::external_body]
pub(crate) fn text_new() -> (r: heapless::String<128>)
    ensures
        string_bytes(r) == Seq::<u8>::empty(),
{
    heapless::String::new()
}

/// `String::push`: the UTF-8 encoding of `c` is appended when it fits in
/// the 128 bytes; otherwise nothing changes and an error comes back.
#[verifier::external_body]
pub(crate) fn text_push(s: &mut heapless::String<128>, c: char) -> (r: Result<(), ()>)
    ensures
        string_bytes(*old(s)).len() + encode_utf8(seq![c]).len() <= 128 ==> r is Ok
            && string_bytes(*final(s)) == string_bytes(*old(s)) + encode_utf8(seq![c]),
        string_bytes(*old(s)).len() + encode_utf8(seq![c]).len() > 128 ==> r is Err
            && string_bytes(*final(s)) == string_bytes(*old(s)),
{
    s.push(c)
}

/// `String::push_str`: the bytes of `t` are appended when they all fit in
/// the 128 bytes; otherwise nothing changes and an error comes back.
#[verifier::external_body]
pub(crate) fn text_push_str(s: &mut heapless::String<128>, t: &str) -> (r: Result<(), ()>)
    ensures
        string_bytes(*old(s)).len() + encode_utf8(t@).len() <= 128 ==> r is Ok
            && string_bytes(*final(s)) == string_bytes(*old(s)) + encode_utf8(t@),
        string_bytes(*old(s)).len() + encode_utf8(t@).len() > 128 ==> r is Err
            && string_bytes(*final(s)) == string_bytes(*old(s)),
{
    s.push_str(t)
}

/// `String::to_string` (through `Display`): the same text as a std string.
#[verifier::external_body]
pub(crate) fn text_to_std(s: &heapless::String<128>) -> (r: String)
    ensures
        encode_utf8(r@) == string_bytes(*s),
{
    s.to_string()
}

} // verus!
