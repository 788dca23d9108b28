//! Byte-string helpers shared by the parsers and the writers.

use vstd::prelude::*;
use vstd::string::StringSliceAdditionalSpecFns;
use vstd::utf8::{
    is_char_boundary_iff_not_is_continuation_byte, is_continuation_byte, length_of_first_scalar,
    pop_first_scalar, valid_first_scalar, valid_utf8, valid_utf8_split,
};

verus! {

/// The bytes of a string, as a sequence.
pub open spec fn text(s: &str) -> Seq<u8> {
    s.spec_bytes()
}

/// The views of the elements of a list, in order.
pub open spec fn views<T: View>(list: Seq<T>) -> Seq<T::V> {
    Seq::new(list.len(), |i: int| list[i]@)
}

/// The views of a list with one more element are the views of the list
/// with the view of the element.
pub proof fn lemma_views_push<T: View>(list: Seq<T>, last: T)
    ensures
        views(list.push(last)) == views(list).push(last@),
{
    assert(views(list.push(last)) =~= views(list).push(last@));
}

/// `pat` occurs in `hay` at index `at`.
pub open spec fn occurs_at(hay: Seq<u8>, at: int, pat: Seq<u8>) -> bool {
    &&& 0 <= at
    &&& at + pat.len() <= hay.len()
    &&& hay.subrange(at, at + pat.len()) == pat
}

/// The least index at or after `from` where `pat` occurs in `hay`.
pub open spec fn find(hay: Seq<u8>, pat: Seq<u8>, from: int) -> Option<int>
    decreases hay.len() - from,
{
    if from < 0 || from + pat.len() > hay.len() {
        None
    } else if pat.len() == 0 || occurs_at(hay, from, pat) {
        Some(from)
    } else {
        find(hay, pat, from + 1)
    }
}

/// ASCII lower-casing of one byte.
pub open spec fn lower(b: u8) -> u8 {
    if 65 <= b <= 90 {
        (b + 32) as u8
    } else {
        b
    }
}

/// ASCII lower-casing of a byte string.
pub open spec fn lower_seq(s: Seq<u8>) -> Seq<u8> {
    Seq::new(s.len(), |i: int| lower(s[i]))
}

/// Space, tab, carriage return or line feed.
pub open spec fn is_space(c: u8) -> bool {
    c == 32 || c == 9 || c == 13 || c == 10
}

/// A set of bytes that a scan stops at.
#[derive(Clone, Copy)]
pub enum Class {
    /// The given byte.
    Byte(u8),
    /// Anything but white space.
    Solid,
    /// Anything but white space and `/`.
    TagPart,
    /// White space, `/` or `>`: what ends the name of a tag.
    NameEnd,
    /// White space, `/`, `>` or `=`: what ends the name of an attribute.
    AttrEnd,
    /// White space or `>`: what ends an attribute value without quotes.
    ValueEnd,
}

/// The byte belongs to the class.
pub open spec fn in_class(c: u8, class: Class) -> bool {
    match class {
        Class::Byte(b) => c == b,
        Class::Solid => !is_space(c),
        Class::TagPart => !is_space(c) && c != 47,
        Class::NameEnd => is_space(c) || c == 47 || c == 62,
        Class::AttrEnd => is_space(c) || c == 47 || c == 62 || c == 61,
        Class::ValueEnd => is_space(c) || c == 62,
    }
}

/// The index of the first byte of the class at or after `i`, or the
/// length of `s` where there is none.
pub open spec fn scan(s: Seq<u8>, i: int, class: Class) -> int
    decreases s.len() - i,
{
    if i < 0 || i >= s.len() {
        s.len() as int
    } else if in_class(s[i], class) {
        i
    } else {
        scan(s, i + 1, class)
    }
}

/// A scan ends within the string, at or after its start.
pub proof fn lemma_scan(s: Seq<u8>, i: int, class: Class)
    requires
        0 <= i <= s.len(),
    ensures
        i <= scan(s, i, class) <= s.len(),
        scan(s, i, class) < s.len() ==> in_class(s[scan(s, i, class)], class),
    decreases s.len() - i,
{
    if i < s.len() && !in_class(s[i], class) {
        lemma_scan(s, i + 1, class);
    }
}

/// Decides whether a byte belongs to a class.
pub fn class_has(c: u8, class: Class) -> (r: bool)
    ensures
        r == in_class(c, class),
{
    let space = c == 32 || c == 9 || c == 13 || c == 10;
    match class {
        Class::Byte(b) => c == b,
        Class::Solid => !space,
        Class::TagPart => !space && c != 47,
        Class::NameEnd => space || c == 47 || c == 62,
        Class::AttrEnd => space || c == 47 || c == 62 || c == 61,
        Class::ValueEnd => space || c == 62,
    }
}

/// Finds the first byte of a class at or after `from`.
pub fn scan_of(s: &[u8], from: usize, class: Class) -> (e: usize)
    requires
        from <= s@.len(),
    ensures
        e == scan(s@, from as int, class),
        from <= e <= s@.len(),
        e < s@.len() ==> in_class(s@[e as int], class),
{
    let n = s.len();
    let mut i: usize = from;
    while i < n
        invariant
            from <= i <= n,
            n == s@.len(),
            scan(s@, from as int, class) == scan(s@, i as int, class),
        decreases n - i,
    {
        if class_has(s[i], class) {
            return i;
        }
        i += 1;
    }
    n
}

/// Copies the stretch of `s` from `a` up to `b`.
pub fn copy_range(s: &[u8], a: usize, b: usize) -> (out: Vec<u8>)
    requires
        a <= b <= s@.len(),
    ensures
        out@ == s@.subrange(a as int, b as int),
{
    vstd::slice::slice_to_vec(vstd::slice::slice_subrange(s, a, b))
}

/// The decimal digits of a number, as ASCII.
pub open spec fn decimal(n: nat) -> Seq<u8>
    decreases n,
{
    if n < 10 {
        seq![(48 + n) as u8]
    } else {
        decimal(n / 10).push((48 + n % 10) as u8)
    }
}

/// Appends the decimal digits of `n` to `out`.
pub fn append_decimal(out: &mut Vec<u8>, n: usize)
    ensures
        final(out)@ == old(out)@ + decimal(n as nat),
    decreases n,
{
    if n >= 10 {
        append_decimal(out, n / 10);
    }
    out.push((48 + n % 10) as u8);
    assert(out@ =~= old(out)@ + decimal(n as nat));
}

/// Where something is found, it occurs there, at or after the start of
/// the search.
pub proof fn lemma_find(hay: Seq<u8>, pat: Seq<u8>, from: int)
    requires
        0 <= from,
        pat.len() > 0,
    ensures
        find(hay, pat, from) matches Some(p) ==> from <= p && occurs_at(hay, p, pat) && hay[p]
            == pat[0],
    decreases hay.len() - from,
{
    if from + pat.len() <= hay.len() {
        if occurs_at(hay, from, pat) {
            assert(hay.subrange(from, from + pat.len())[0] == pat[0]);
        } else {
            lemma_find(hay, pat, from + 1);
        }
    }
}

/// At `i` a character of `s` begins, or `s` ends.
pub open spec fn starts_char(s: Seq<u8>, i: int) -> bool {
    0 <= i <= s.len() && (i == s.len() || !is_continuation_byte(s[i]))
}

/// What is cut out of UTF-8 between two beginnings of characters is
/// UTF-8.
pub proof fn lemma_cut_valid(s: Seq<u8>, a: int, b: int)
    requires
        valid_utf8(s),
        starts_char(s, a),
        starts_char(s, b),
        a <= b,
    ensures
        valid_utf8(s.subrange(a, b)),
{
    let n = s.len() as int;
    let tail = s.subrange(a, n);
    if a < n {
        is_char_boundary_iff_not_is_continuation_byte(s, a);
        valid_utf8_split(s, a);
    } else {
        assert(tail =~= Seq::<u8>::empty());
    }
    assert(valid_utf8(tail));
    if b < n {
        assert(tail[b - a] == s[b]);
        if b - a > 0 {
            is_char_boundary_iff_not_is_continuation_byte(tail, b - a);
        }
        valid_utf8_split(tail, b - a);
        assert(tail.subrange(0, b - a) =~= s.subrange(a, b));
    } else {
        assert(tail =~= s.subrange(a, b));
    }
}

/// After an ASCII byte of UTF-8 a character begins, or the text ends.
pub proof fn lemma_after_ascii(s: Seq<u8>, i: int)
    requires
        valid_utf8(s),
        0 < i <= s.len(),
        s[i - 1] < 128,
    ensures
        starts_char(s, i),
{
    let n = s.len() as int;
    if i < n {
        is_char_boundary_iff_not_is_continuation_byte(s, i - 1);
        valid_utf8_split(s, i - 1);
        let tail = s.subrange(i - 1, n);
        assert(tail[0] == s[i - 1]);
        assert(valid_first_scalar(tail));
        assert(length_of_first_scalar(tail) == 1);
        let rest = pop_first_scalar(tail);
        assert(rest =~= s.subrange(i, n));
        assert(valid_utf8(rest));
        assert(rest.len() > 0);
        assert(valid_first_scalar(rest));
        assert(rest[0] == s[i]);
    }
}

/// Appends `src` to `out`.
pub fn append(out: &mut Vec<u8>, src: &[u8])
    ensures
        final(out)@ == old(out)@ + src@,
{
    out.extend_from_slice(src);
    assert(out@ =~= old(out)@ + src@);
}

/// Appends the bytes of `s` to `out`.
pub fn append_str(out: &mut Vec<u8>, s: &str)
    ensures
        final(out)@ == old(out)@ + text(s),
{
    append(out, s.as_bytes());
}

/// Tests whether `pat` occurs in `hay` at index `at`.
pub fn matches_at(hay: &[u8], at: usize, pat: &[u8]) -> (r: bool)
    ensures
        r == occurs_at(hay@, at as int, pat@),
{
    if pat.len() > hay.len() || at > hay.len() - pat.len() {
        return false;
    }
    let mut j: usize = 0;
    while j < pat.len()
        invariant
            j <= pat.len(),
            at + pat.len() <= hay.len(),
            forall|k: int| 0 <= k < j ==> hay@[at + k] == pat@[k],
        decreases pat.len() - j,
    {
        if hay[at + j] != pat[j] {
            assert(hay@.subrange(at as int, at + pat.len())[j as int] != pat@[j as int]);
            return false;
        }
        j += 1;
    }
    assert(hay@.subrange(at as int, at + pat.len()) =~= pat@);
    true
}

/// Tests whether two byte strings are equal.
pub fn matches_all(a: &[u8], b: &[u8]) -> (r: bool)
    ensures
        r == (a@ == b@),
{
    if a.len() != b.len() {
        return false;
    }
    let r = matches_at(a, 0, b);
    assert(a@.subrange(0, a.len() as int) =~= a@);
    r
}

/// Copies `s` with its ASCII capitals made small.
pub fn lowered(s: &[u8]) -> (out: Vec<u8>)
    ensures
        out@ == lower_seq(s@),
{
    let mut out: Vec<u8> = Vec::new();
    let mut i: usize = 0;
    while i < s.len()
        invariant
            i <= s.len(),
            out@.len() == i,
            forall|k: int| 0 <= k < i ==> out@[k] == lower(s@[k]),
        decreases s.len() - i,
    {
        let c = s[i];
        out.push(if 65 <= c && c <= 90 {
            c + 32
        } else {
            c
        });
        i += 1;
    }
    assert(out@ =~= lower_seq(s@));
    out
}

/// Finds the first occurrence of `pat` in `hay` at or after `from`.
pub fn find_from(hay: &[u8], pat: &[u8], from: usize) -> (r: Option<usize>)
    ensures
        r.is_some() == find(hay@, pat@, from as int).is_some(),
        r matches Some(i) ==> find(hay@, pat@, from as int) == Some(i as int) && from <= i && i
            + pat@.len() <= hay@.len(),
{
    if pat.len() > hay.len() {
        return None;
    }
    if pat.len() == 0 {
        return if from <= hay.len() { Some(from) } else { None };
    }
    let last: usize = hay.len() - pat.len();
    let mut i: usize = from;
    while i <= last
        invariant
            from <= i,
            pat.len() > 0,
            last == hay.len() - pat.len(),
            find(hay@, pat@, from as int) == find(hay@, pat@, i as int),
        decreases hay.len() - i,
    {
        if matches_at(hay, i, pat) {
            return Some(i);
        }
        i += 1;
    }
    None
}

} // verus!
