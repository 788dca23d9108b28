//! The grammar of MIME messages, as far as web-page archives use it:
//! header fields, their parameters, and the parts of a multipart body.

use crate::bytes::{
    find, find_from, is_space, lower, lower_seq, lowered, matches_at, occurs_at,
};
use vstd::prelude::*;
use vstd::slice::{slice_subrange, slice_to_vec};

verus! {

/// At `i` stands an empty line: a line feed, or a carriage return and a
/// line feed.
pub open spec fn blank_line(s: Seq<u8>, i: int) -> bool {
    0 <= i < s.len() && (s[i] == 10 || (s[i] == 13 && i + 1 < s.len() && s[i + 1] == 10))
}

/// The index of the first empty line at or after `i`, or the length of
/// `s` where there is none. `at_start` says whether `i` begins a line.
pub open spec fn head_end(s: Seq<u8>, i: int, at_start: bool) -> int
    decreases s.len() - i,
{
    if i < 0 || i >= s.len() {
        s.len() as int
    } else if at_start && blank_line(s, i) {
        i
    } else {
        head_end(s, i + 1, s[i] == 10)
    }
}

/// Where the body begins: after the empty line that ends the head.
pub open spec fn body_start(s: Seq<u8>) -> int {
    let e = head_end(s, 0, true);
    if e >= s.len() {
        s.len() as int
    } else if s[e] == 10 {
        e + 1
    } else {
        e + 2
    }
}

/// The header fields of a message or part.
pub open spec fn head_of(s: Seq<u8>) -> Seq<u8> {
    s.subrange(0, head_end(s, 0, true))
}

/// What follows the header fields of a message or part.
pub open spec fn body_of(s: Seq<u8>) -> Seq<u8> {
    s.subrange(body_start(s), s.len() as int)
}

/// At `i` stands the field name `name` (given in lower case; the text may
/// use either case), followed by a colon.
pub open spec fn names(h: Seq<u8>, i: int, name: Seq<u8>) -> bool {
    &&& 0 <= i
    &&& i + name.len() < h.len()
    &&& lower_seq(h.subrange(i, i + name.len() as int)) == name
    &&& h[i + name.len() as int] == 58
}

/// The index after the colon of the first field named `name`, searching
/// from `i`. `at_start` says whether `i` begins a line.
pub open spec fn field_at(h: Seq<u8>, name: Seq<u8>, i: int, at_start: bool) -> Option<int>
    decreases h.len() - i,
{
    if i < 0 || i >= h.len() {
        None
    } else if at_start && names(h, i, name) {
        Some(i + name.len() + 1)
    } else {
        field_at(h, name, i + 1, h[i] == 10)
    }
}

/// Where the value that begins at `i` ends: at the first line feed that
/// no space or tab follows, for a line that begins with one of these
/// continues the value.
pub open spec fn value_end(h: Seq<u8>, i: int) -> int
    decreases h.len() - i,
{
    if i < 0 || i >= h.len() {
        h.len() as int
    } else if h[i] == 10 && !(i + 1 < h.len() && (h[i + 1] == 32 || h[i + 1] == 9)) {
        i
    } else {
        value_end(h, i + 1)
    }
}

/// The first `n` bytes of `s` without carriage returns and line feeds.
pub open spec fn unbroken(s: Seq<u8>, n: int) -> Seq<u8>
    decreases n,
{
    if n <= 0 {
        Seq::empty()
    } else if s[n - 1] == 10 || s[n - 1] == 13 {
        unbroken(s, n - 1)
    } else {
        unbroken(s, n - 1).push(s[n - 1])
    }
}

/// The index of the first byte at or after `i` that is not blank.
pub open spec fn trim_start(s: Seq<u8>, i: int) -> int
    decreases s.len() - i,
{
    if 0 <= i < s.len() && is_space(s[i]) {
        trim_start(s, i + 1)
    } else {
        i
    }
}

/// The index after the last byte before `e` that is not blank, no less
/// than `start`.
pub open spec fn trim_end(s: Seq<u8>, start: int, e: int) -> int
    decreases e,
{
    if 0 <= start < e <= s.len() && is_space(s[e - 1]) {
        trim_end(s, start, e - 1)
    } else {
        e
    }
}

/// `s` without the blanks at either end.
pub open spec fn trimmed(s: Seq<u8>) -> Seq<u8> {
    let a = trim_start(s, 0);
    s.subrange(a, trim_end(s, a, s.len() as int))
}

/// The value of a field as it is meant: on one line, without blanks
/// around it.
pub open spec fn unfolded(raw: Seq<u8>) -> Seq<u8> {
    trimmed(unbroken(raw, raw.len() as int))
}

/// The value of the first field named `name` (in lower case) among the
/// header fields `h`.
pub open spec fn field(h: Seq<u8>, name: Seq<u8>) -> Option<Seq<u8>> {
    match field_at(h, name, 0, true) {
        Some(v) => Some(unfolded(h.subrange(v, value_end(h, v)))),
        None => None,
    }
}

/// The index of the first byte at or after `i` that equals `stop`, or the
/// length of `s`.
pub open spec fn until(s: Seq<u8>, i: int, stop: u8) -> int
    decreases s.len() - i,
{
    if i < 0 || i >= s.len() {
        s.len() as int
    } else if s[i] == stop {
        i
    } else {
        until(s, i + 1, stop)
    }
}

/// The index of the first semicolon or blank at or after `i`, or the
/// length of `s`.
pub open spec fn token_end(s: Seq<u8>, i: int) -> int
    decreases s.len() - i,
{
    if i < 0 || i >= s.len() {
        s.len() as int
    } else if s[i] == 59 || is_space(s[i]) {
        i
    } else {
        token_end(s, i + 1)
    }
}

/// The media type that a `Content-Type` value names: what stands before
/// the first semicolon, without blanks around it, in lower case.
pub open spec fn media_type(value: Seq<u8>) -> Seq<u8> {
    lower_seq(trimmed(value.subrange(0, until(value, 0, 59))))
}

/// The value of the parameter `key` (in lower case) of a field value:
/// what follows the first `key=`, between double quotes where it begins
/// with one, else up to the next semicolon or blank.
pub open spec fn param(value: Seq<u8>, key: Seq<u8>) -> Option<Seq<u8>> {
    match find(lower_seq(value), key.push(61), 0) {
        None => None,
        Some(p) => {
            let q = p + key.len() + 1;
            if q < value.len() && value[q] == 34 {
                Some(value.subrange(q + 1, until(value, q + 1, 34)))
            } else {
                Some(value.subrange(q, token_end(value, q)))
            }
        },
    }
}

/// At `i` a line begins with the delimiter.
pub open spec fn delimiter_at(s: Seq<u8>, delim: Seq<u8>, i: int) -> bool {
    occurs_at(s, i, delim) && (i == 0 || s[i - 1] == 10)
}

/// The index of the first delimiter line at or after `i`.
pub open spec fn next_delimiter(s: Seq<u8>, delim: Seq<u8>, i: int) -> Option<int>
    decreases s.len() - i,
{
    if i < 0 || i >= s.len() || i + delim.len() > s.len() {
        None
    } else if delimiter_at(s, delim, i) {
        Some(i)
    } else {
        next_delimiter(s, delim, i + 1)
    }
}

/// The index after the line feed that ends the line of `i`, or the length
/// of `s`.
pub open spec fn next_line(s: Seq<u8>, i: int) -> int {
    let e = until(s, i, 10);
    if e < s.len() {
        e + 1
    } else {
        e
    }
}

/// Where the part ends that begins at `start` and is followed by the
/// delimiter line at `n`: the line break before a delimiter belongs to
/// the delimiter.
pub open spec fn part_end(s: Seq<u8>, start: int, n: int) -> int {
    if n <= start {
        start
    } else if n - 1 > start && s[n - 2] == 13 {
        n - 2
    } else {
        n - 1
    }
}

/// Two hyphens at `i` make a delimiter the last one.
pub open spec fn closes(s: Seq<u8>, i: int) -> bool {
    0 <= i && i + 2 <= s.len() && s[i] == 45 && s[i + 1] == 45
}

/// A stretch of a byte string, from `start` up to `end`.
#[derive(Clone, Copy)]
pub struct Span {
    pub start: usize,
    pub end: usize,
}

/// The parts that follow the delimiter line at `d`, each as the stretch
/// of `s` that it takes. A part runs from the line after a delimiter to
/// the next delimiter, or to the end where none follows.
pub open spec fn spans(s: Seq<u8>, delim: Seq<u8>, d: int) -> Seq<Span>
    decreases s.len() - d,
{
    let after = d + delim.len();
    if d < 0 || delim.len() == 0 || after > s.len() || closes(s, after) {
        Seq::empty()
    } else {
        let start = next_line(s, after);
        match next_delimiter(s, delim, start) {
            None => seq![Span { start: start as usize, end: s.len() as usize }],
            Some(n) => if d < n <= s.len() {
                seq![Span { start: start as usize, end: part_end(s, start, n) as usize }] + spans(
                    s,
                    delim,
                    n,
                )
            } else {
                Seq::empty()
            },
        }
    }
}

/// The delimiter that a boundary makes: two hyphens and the boundary.
pub open spec fn delimiter(boundary: Seq<u8>) -> Seq<u8> {
    seq![45u8, 45u8] + boundary
}

/// The parts of a multipart body with the given boundary: none where the
/// body holds no delimiter line.
pub open spec fn parts(body: Seq<u8>, boundary: Seq<u8>) -> Seq<Span> {
    match next_delimiter(body, delimiter(boundary), 0) {
        None => Seq::empty(),
        Some(d) => spans(body, delimiter(boundary), d),
    }
}

/// Finds the empty line that ends the head.
pub fn head_end_of(s: &[u8]) -> (e: usize)
    ensures
        e == head_end(s@, 0, true),
        e <= s@.len(),
{
    let n = s.len();
    let mut i: usize = 0;
    let mut at_start: bool = true;
    while i < n
        invariant
            i <= n,
            n == s@.len(),
            head_end(s@, 0, true) == head_end(s@, i as int, at_start),
        decreases n - i,
    {
        if at_start && (s[i] == 10 || (s[i] == 13 && n - i > 1 && s[i + 1] == 10)) {
            return i;
        }
        at_start = s[i] == 10;
        i += 1;
    }
    n
}

/// Finds where the body begins.
pub fn body_start_of(s: &[u8]) -> (b: usize)
    ensures
        b == body_start(s@),
        head_end(s@, 0, true) <= b <= s@.len(),
{
    let e = head_end_of(s);
    proof {
        lemma_head_end(s@, 0, true);
    }
    if e >= s.len() {
        s.len()
    } else if s[e] == 10 {
        e + 1
    } else {
        e + 2
    }
}

/// The head ends within the message, at an empty line or at the end.
pub proof fn lemma_head_end(s: Seq<u8>, i: int, at_start: bool)
    requires
        0 <= i <= s.len(),
    ensures
        i <= head_end(s, i, at_start) <= s.len(),
        head_end(s, i, at_start) < s.len() ==> blank_line(s, head_end(s, i, at_start)),
    decreases s.len() - i,
{
    if i < s.len() && !(at_start && blank_line(s, i)) {
        lemma_head_end(s, i + 1, s[i] == 10);
    }
}

fn names_at(h: &[u8], i: usize, name: &[u8]) -> (r: bool)
    ensures
        r == names(h@, i as int, name@),
{
    let n = name.len();
    let limit = h.len();
    if n >= limit || i >= limit - n {
        return false;
    }
    let mut k: usize = 0;
    while k < n
        invariant
            k <= n,
            n == name@.len(),
            limit == h@.len(),
            i + n < h@.len(),
            forall|j: int| 0 <= j < k ==> lower(h@[i + j]) == name@[j],
        decreases n - k,
    {
        let c = h[i + k];
        let l: u8 = if 65 <= c && c <= 90 {
            c + 32
        } else {
            c
        };
        if l != name[k] {
            assert(lower_seq(h@.subrange(i as int, i + n))[k as int] != name@[k as int]);
            return false;
        }
        k += 1;
    }
    assert(lower_seq(h@.subrange(i as int, i + n)) =~= name@);
    h[i + n] == 58
}

fn find_field(h: &[u8], name: &[u8]) -> (r: Option<usize>)
    ensures
        r.is_some() == field_at(h@, name@, 0, true).is_some(),
        r matches Some(v) ==> field_at(h@, name@, 0, true) == Some(v as int) && v <= h@.len(),
{
    let n = h.len();
    let mut i: usize = 0;
    let mut at_start: bool = true;
    while i < n
        invariant
            i <= n,
            n == h@.len(),
            field_at(h@, name@, 0, true) == field_at(h@, name@, i as int, at_start),
        decreases n - i,
    {
        if at_start && names_at(h, i, name) {
            return Some(i + name.len() + 1);
        }
        at_start = h[i] == 10;
        i += 1;
    }
    None
}

fn value_end_of(h: &[u8], from: usize) -> (e: usize)
    requires
        from <= h@.len(),
    ensures
        e == value_end(h@, from as int),
        from <= e <= h@.len(),
{
    let n = h.len();
    let mut i: usize = from;
    while i < n
        invariant
            from <= i <= n,
            n == h@.len(),
            value_end(h@, from as int) == value_end(h@, i as int),
        decreases n - i,
    {
        if h[i] == 10 && !(n - i > 1 && (h[i + 1] == 32 || h[i + 1] == 9)) {
            return i;
        }
        i += 1;
    }
    n
}

fn blank(c: u8) -> (r: bool)
    ensures
        r == is_space(c),
{
    c == 32 || c == 9 || c == 13 || c == 10
}

/// Copies `s` without the blanks at either end.
pub fn trim(s: &[u8]) -> (out: Vec<u8>)
    ensures
        out@ == trimmed(s@),
{
    let n = s.len();
    let mut a: usize = 0;
    while a < n && blank(s[a])
        invariant
            a <= n,
            n == s@.len(),
            trim_start(s@, 0) == trim_start(s@, a as int),
        decreases n - a,
    {
        a += 1;
    }
    let mut b: usize = n;
    while b > a && blank(s[b - 1])
        invariant
            a <= b <= n,
            n == s@.len(),
            trim_end(s@, a as int, n as int) == trim_end(s@, a as int, b as int),
        decreases b,
    {
        b -= 1;
    }
    slice_to_vec(slice_subrange(s, a, b))
}

/// Copies `s` without its line breaks and without the blanks at either end.
fn unfold(raw: &[u8]) -> (out: Vec<u8>)
    ensures
        out@ == unfolded(raw@),
{
    let mut flat: Vec<u8> = Vec::new();
    let mut i: usize = 0;
    while i < raw.len()
        invariant
            i <= raw.len(),
            flat@ == unbroken(raw@, i as int),
        decreases raw.len() - i,
    {
        if !(raw[i] == 10 || raw[i] == 13) {
            flat.push(raw[i]);
        }
        i += 1;
    }
    trim(flat.as_slice())
}

/// Reads the value of the first field with the given name, which is
/// given in lower case.
pub fn field_of(h: &[u8], name: &[u8]) -> (r: Option<Vec<u8>>)
    ensures
        r.is_some() == field(h@, name@).is_some(),
        r matches Some(v) ==> field(h@, name@) == Some(v@),
{
    match find_field(h, name) {
        Some(v) => {
            let e = value_end_of(h, v);
            Some(unfold(slice_subrange(h, v, e)))
        },
        None => None,
    }
}

fn until_of(s: &[u8], from: usize, stop: u8) -> (e: usize)
    requires
        from <= s@.len(),
    ensures
        e == until(s@, from as int, stop),
        from <= e <= s@.len(),
{
    let n = s.len();
    let mut i: usize = from;
    while i < n
        invariant
            from <= i <= n,
            n == s@.len(),
            until(s@, from as int, stop) == until(s@, i as int, stop),
        decreases n - i,
    {
        if s[i] == stop {
            return i;
        }
        i += 1;
    }
    n
}

fn token_end_of(s: &[u8], from: usize) -> (e: usize)
    requires
        from <= s@.len(),
    ensures
        e == token_end(s@, from as int),
        from <= e <= s@.len(),
{
    let n = s.len();
    let mut i: usize = from;
    while i < n
        invariant
            from <= i <= n,
            n == s@.len(),
            token_end(s@, from as int) == token_end(s@, i as int),
        decreases n - i,
    {
        if s[i] == 59 || blank(s[i]) {
            return i;
        }
        i += 1;
    }
    n
}

/// Reads the media type that a `Content-Type` value names.
pub fn media_type_of(value: &[u8]) -> (out: Vec<u8>)
    ensures
        out@ == media_type(value@),
{
    let e = until_of(value, 0, 59);
    let t = trim(slice_subrange(value, 0, e));
    lowered(t.as_slice())
}

/// Reads the value of a parameter, whose name is given in lower case.
pub fn param_of(value: &[u8], key: &[u8]) -> (r: Option<Vec<u8>>)
    ensures
        r.is_some() == param(value@, key@).is_some(),
        r matches Some(v) ==> param(value@, key@) == Some(v@),
{
    let low = lowered(value);
    let mut pat: Vec<u8> = slice_to_vec(key);
    pat.push(61);
    let n = value.len();
    match find_from(low.as_slice(), pat.as_slice(), 0) {
        None => None,
        Some(p) => {
            assert(pat@ == key@.push(61));
            assert(low@.len() == n);
            assert(p + pat@.len() <= n);
            let q = p + key.len() + 1;
            if q < value.len() && value[q] == 34 {
                let e = until_of(value, q + 1, 34);
                Some(slice_to_vec(slice_subrange(value, q + 1, e)))
            } else {
                let e = token_end_of(value, q);
                Some(slice_to_vec(slice_subrange(value, q, e)))
            }
        },
    }
}

fn next_delimiter_of(s: &[u8], delim: &[u8], from: usize) -> (r: Option<usize>)
    ensures
        r.is_some() == next_delimiter(s@, delim@, from as int).is_some(),
        r matches Some(n) ==> next_delimiter(s@, delim@, from as int) == Some(n as int) && from
            <= n && n + delim@.len() <= s@.len(),
{
    let n = s.len();
    let m = delim.len();
    if m > n {
        return None;
    }
    let mut i: usize = from;
    while i < n && i <= n - m
        invariant
            from <= i,
            n == s@.len(),
            m == delim@.len(),
            m <= n,
            next_delimiter(s@, delim@, from as int) == next_delimiter(s@, delim@, i as int),
        decreases n - i,
    {
        if (i == 0 || s[i - 1] == 10) && matches_at(s, i, delim) {
            return Some(i);
        }
        i += 1;
    }
    None
}

/// Every span lies within a string of length `n`.
pub open spec fn within(list: Seq<Span>, n: int) -> bool {
    forall|k: int| 0 <= k < list.len() ==> (#[trigger] list[k]).start <= list[k].end <= n
}

/// Splits a multipart body into its parts.
pub fn parts_of(body: &[u8], boundary: &[u8]) -> (list: Vec<Span>)
    ensures
        list@ == parts(body@, boundary@),
        within(list@, body@.len() as int),
{
    let mut delim: Vec<u8> = Vec::new();
    delim.push(45);
    delim.push(45);
    crate::bytes::append(&mut delim, boundary);
    assert(delim@ =~= delimiter(boundary@));
    let mut list: Vec<Span> = Vec::new();
    let n = body.len();
    let m = delim.len();
    let mut d: usize = match next_delimiter_of(body, delim.as_slice(), 0) {
        Some(d) => d,
        None => {
            return list;
        },
    };
    assert(list@ + spans(body@, delim@, d as int) =~= spans(body@, delim@, d as int));
    loop
        invariant
            n == body@.len(),
            m == delim@.len(),
            m >= 2,
            delim@ == delimiter(boundary@),
            d + m <= n,
            parts(body@, boundary@) == list@ + spans(body@, delim@, d as int),
            within(list@, n as int),
        decreases n - d,
    {
        let after = d + m;
        let ghost rest = spans(body@, delim@, d as int);
        if n - after >= 2 && body[after] == 45 && body[after + 1] == 45 {
            assert(list@ + rest =~= list@);
            return list;
        }
        let e = until_of(body, after, 10);
        let start = if e < n {
            e + 1
        } else {
            e
        };
        match next_delimiter_of(body, delim.as_slice(), start) {
            None => {
                list.push(Span { start, end: n });
                assert(list@ =~= list@.drop_last() + rest);
                return list;
            },
            Some(next) => {
                let end = if next <= start {
                    start
                } else if next - 1 > start && body[next - 2] == 13 {
                    next - 2
                } else {
                    next - 1
                };
                let ghost before = list@;
                list.push(Span { start, end });
                assert(before + rest =~= list@ + spans(body@, delim@, next as int));
                d = next;
            },
        }
    }
}

} // verus!
