//! Writing tokens as well-nested markup: every element that is opened
//! is closed, end tags without a start are dropped, and text is escaped.

use crate::bytes::{
    append, matches_all, matches_at, occurs_at, scan, scan_of, text,
    views, Class,
};
use crate::html::{Attr, AttrModel, Token, TokenModel};
use vstd::prelude::*;
use vstd::slice::slice_subrange;

verus! {

/// An element that holds nothing and has no end tag.
pub open spec fn is_void(name: Seq<u8>) -> bool {
    ||| name == text("area")
    ||| name == text("br")
    ||| name == text("col")
    ||| name == text("hr")
    ||| name == text("img")
    ||| name == text("wbr")
}

/// A decimal digit.
pub open spec fn is_digit(c: u8) -> bool {
    48 <= c <= 57
}

/// A hexadecimal digit.
pub open spec fn is_hex(c: u8) -> bool {
    is_digit(c) || (65 <= c <= 70) || (97 <= c <= 102)
}

/// All bytes of `s` from `i` on are decimal digits.
pub open spec fn all_digits(s: Seq<u8>, i: int) -> bool {
    forall|k: int| i <= k < s.len() ==> is_digit(#[trigger] s[k])
}

/// All bytes of `s` from `i` on are hexadecimal digits.
pub open spec fn all_hex(s: Seq<u8>, i: int) -> bool {
    forall|k: int| i <= k < s.len() ==> is_hex(#[trigger] s[k])
}

/// What may stand between `&` and `;` in a well-formed document: one of
/// the five names that need no declaration, or a number.
pub open spec fn reference_body(b: Seq<u8>) -> bool {
    ||| b == text("amp")
    ||| b == text("lt")
    ||| b == text("gt")
    ||| b == text("quot")
    ||| b == text("apos")
    ||| (b.len() >= 2 && b[0] == 35 && all_digits(b, 1))
    ||| (b.len() >= 3 && b[0] == 35 && b[1] == 120 && all_hex(b, 2))
}

/// The at most nine bytes that follow index `i`.
pub open spec fn window(s: Seq<u8>, i: int) -> Seq<u8> {
    s.subrange(i + 1, if i + 10 <= s.len() {
        i + 10
    } else {
        s.len() as int
    })
}

/// The `&` at `i` begins a reference that may stay as it is.
pub open spec fn reference_at(s: Seq<u8>, i: int) -> bool {
    let w = window(s, i);
    let e = scan(w, 0, Class::Byte(59));
    e < w.len() && reference_body(w.subrange(0, e))
}

/// The reference that stands for `<`: `&lt;`.
pub open spec fn lt_ref() -> Seq<u8> {
    seq![38u8, 108u8, 116u8, 59u8]
}

/// The reference that stands for `>`: `&gt;`.
pub open spec fn gt_ref() -> Seq<u8> {
    seq![38u8, 103u8, 116u8, 59u8]
}

/// The reference that stands for `"`: `&quot;`.
pub open spec fn quot_ref() -> Seq<u8> {
    seq![38u8, 113u8, 117u8, 111u8, 116u8, 59u8]
}

/// The reference that stands for `&`: `&amp;`.
pub open spec fn amp_ref() -> Seq<u8> {
    seq![38u8, 97u8, 109u8, 112u8, 59u8]
}

/// The reference that stands for a space that does not break: `&#160;`.
pub open spec fn space_ref() -> Seq<u8> {
    seq![38u8, 35u8, 49u8, 54u8, 48u8, 59u8]
}

/// The six bytes `&nbsp;`.
pub open spec fn hard_space() -> Seq<u8> {
    seq![38u8, 110u8, 98u8, 115u8, 112u8, 59u8]
}

/// The text from index `i` on, escaped: `<`, `>` and `"` by their names,
/// `&nbsp;` by its number, any other `&` that begins no reference by its
/// name; control characters other than tab and line breaks are left out.
pub open spec fn escaped_from(s: Seq<u8>, i: int) -> Seq<u8>
    decreases s.len() - i,
{
    if i < 0 || i >= s.len() {
        Seq::empty()
    } else if s[i] == 60 {
        lt_ref() + escaped_from(s, i + 1)
    } else if s[i] == 62 {
        gt_ref() + escaped_from(s, i + 1)
    } else if s[i] == 34 {
        quot_ref() + escaped_from(s, i + 1)
    } else if s[i] == 38 {
        if reference_at(s, i) {
            seq![38u8] + escaped_from(s, i + 1)
        } else if occurs_at(s, i, hard_space()) {
            space_ref() + escaped_from(s, i + 6)
        } else {
            amp_ref() + escaped_from(s, i + 1)
        }
    } else if s[i] < 32 && s[i] != 9 && s[i] != 10 && s[i] != 13 {
        escaped_from(s, i + 1)
    } else {
        seq![s[i]] + escaped_from(s, i + 1)
    }
}

/// A text, escaped.
pub open spec fn escaped(s: Seq<u8>) -> Seq<u8> {
    escaped_from(s, 0)
}

/// A byte that has a meaning in markup wherever it stands: `<`, `>` or
/// `"`.
pub open spec fn is_markup(c: u8) -> bool {
    c == 60 || c == 62 || c == 34
}

/// Escaped text holds no byte that has a meaning in markup: whatever the
/// text is, it can neither open nor close a tag, nor end the value of an
/// attribute.
pub proof fn lemma_escaped_plain(s: Seq<u8>, i: int)
    requires
        0 <= i,
    ensures
        forall|k: int|
            0 <= k < escaped_from(s, i).len() ==> !is_markup(#[trigger] escaped_from(s, i)[k]),
    decreases s.len() - i,
{
    if i < s.len() {
        let next = if s[i] == 38 && !reference_at(s, i) && occurs_at(s, i, hard_space()) {
            i + 6
        } else {
            i + 1
        };
        lemma_escaped_plain(s, next);
        let rest = escaped_from(s, next);
        let first: Seq<u8> = if s[i] == 60 {
            lt_ref()
        } else if s[i] == 62 {
            gt_ref()
        } else if s[i] == 34 {
            quot_ref()
        } else if s[i] == 38 {
            if reference_at(s, i) {
                seq![38u8]
            } else if occurs_at(s, i, hard_space()) {
                space_ref()
            } else {
                amp_ref()
            }
        } else if s[i] < 32 && s[i] != 9 && s[i] != 10 && s[i] != 13 {
            Seq::empty()
        } else {
            seq![s[i]]
        };
        assert(escaped_from(s, i) =~= first + rest);
        assert forall|k: int| 0 <= k < (first + rest).len() implies !is_markup(
            #[trigger] (first + rest)[k],
        ) by {
            if k >= first.len() {
                assert((first + rest)[k] == rest[k - first.len()]);
            }
        }
    }
}

/// One attribute as it is written: a space, the name, and the value
/// between double quotes.
pub open spec fn attr_written(a: AttrModel) -> Seq<u8> {
    seq![32u8] + a.name + seq![61u8, 34u8] + escaped(a.value) + seq![34u8]
}

/// The first `n` attributes as they are written.
pub open spec fn attrs_written(attrs: Seq<AttrModel>, n: int) -> Seq<u8>
    decreases n,
{
    if n <= 0 {
        Seq::empty()
    } else {
        attrs_written(attrs, n - 1) + attr_written(attrs[n - 1])
    }
}

/// A start tag as it is written; the tag of an element that holds
/// nothing closes itself.
pub open spec fn open_tag(name: Seq<u8>, attrs: Seq<AttrModel>) -> Seq<u8> {
    seq![60u8] + name + attrs_written(attrs, attrs.len() as int) + if is_void(name) {
        seq![47u8, 62u8]
    } else {
        seq![62u8]
    }
}

/// An end tag as it is written.
pub open spec fn close_tag(name: Seq<u8>) -> Seq<u8> {
    seq![60u8, 47u8] + name + seq![62u8]
}

/// The index of the innermost open element of this name among the first
/// `n` of the stack, or -1.
pub open spec fn innermost(stack: Seq<Seq<u8>>, name: Seq<u8>, n: int) -> int
    decreases n,
{
    if n <= 0 {
        -1
    } else if stack[n - 1] == name {
        n - 1
    } else {
        innermost(stack, name, n - 1)
    }
}

/// The end tags of the open elements from index `n - 1` down to `from`,
/// innermost first.
pub open spec fn closers(stack: Seq<Seq<u8>>, from: int, n: int) -> Seq<TokenModel>
    decreases n - from,
{
    if n <= from || from < 0 {
        Seq::empty()
    } else {
        closers(stack, from + 1, n).push(TokenModel::Close { name: stack[from] })
    }
}

/// The state of the arranging after some tokens: the tokens that have
/// been let through or put in, and the elements that are open,
/// outermost first.
pub struct Arranging {
    pub out: Seq<TokenModel>,
    pub stack: Seq<Seq<u8>>,
}

/// The arranging after one more token. A start tag opens an element,
/// unless the element holds nothing. An end tag closes the innermost
/// open element of its name, after all that are open within it; where
/// no such element is open it is dropped.
pub open spec fn arrange_step(a: Arranging, t: TokenModel) -> Arranging {
    match t {
        TokenModel::Open { name, attrs } => Arranging {
            out: a.out.push(t),
            stack: if is_void(name) {
                a.stack
            } else {
                a.stack.push(name)
            },
        },
        TokenModel::Close { name } => {
            let k = innermost(a.stack, name, a.stack.len() as int);
            if is_void(name) || k < 0 {
                a
            } else {
                Arranging {
                    out: a.out + closers(a.stack, k, a.stack.len() as int),
                    stack: a.stack.subrange(0, k),
                }
            }
        },
        TokenModel::Text { data } => Arranging { out: a.out.push(t), stack: a.stack },
    }
}

/// The arranging after the first `n` tokens.
pub open spec fn arranging(tokens: Seq<TokenModel>, n: int) -> Arranging
    decreases n,
{
    if n <= 0 {
        Arranging { out: Seq::empty(), stack: Seq::empty() }
    } else {
        arrange_step(arranging(tokens, n - 1), tokens[n - 1])
    }
}

/// The tokens arranged so that they nest well: end tags are put in
/// where an element is left open, and dropped where none is open.
pub open spec fn arranged(tokens: Seq<TokenModel>) -> Seq<TokenModel> {
    let a = arranging(tokens, tokens.len() as int);
    a.out + closers(a.stack, 0, a.stack.len() as int)
}

/// A token as it is written.
pub open spec fn token_written(t: TokenModel) -> Seq<u8> {
    match t {
        TokenModel::Open { name, attrs } => open_tag(name, attrs),
        TokenModel::Close { name } => close_tag(name),
        TokenModel::Text { data } => escaped(data),
    }
}

/// The first `n` tokens as they are written, one after the other.
pub open spec fn written(tokens: Seq<TokenModel>, n: int) -> Seq<u8>
    decreases n,
{
    if n <= 0 {
        Seq::empty()
    } else {
        written(tokens, n - 1) + token_written(tokens[n - 1])
    }
}

/// The tokens as well-nested markup: arranged, and written one after
/// the other.
pub open spec fn printed(tokens: Seq<TokenModel>) -> Seq<u8> {
    written(arranged(tokens), arranged(tokens).len() as int)
}

/// The elements that are open after one more token, where the tokens
/// nest well so far: an end tag must close the innermost open element.
pub open spec fn nest_step(open: Option<Seq<Seq<u8>>>, t: TokenModel) -> Option<Seq<Seq<u8>>> {
    match open {
        None => None,
        Some(stack) => match t {
            TokenModel::Open { name, attrs } => Some(
                if is_void(name) {
                    stack
                } else {
                    stack.push(name)
                },
            ),
            TokenModel::Close { name } => if stack.len() > 0 && stack.last() == name {
                Some(stack.drop_last())
            } else {
                None
            },
            TokenModel::Text { data } => Some(stack),
        },
    }
}

/// The elements that are open after the first `n` tokens, beginning
/// with those of `open`; `None` where the tokens do not nest.
pub open spec fn nesting(open: Option<Seq<Seq<u8>>>, tokens: Seq<TokenModel>, n: int) -> Option<
    Seq<Seq<u8>>,
>
    decreases n,
{
    if n <= 0 {
        open
    } else {
        nest_step(nesting(open, tokens, n - 1), tokens[n - 1])
    }
}

/// The tokens nest well: every end tag closes the innermost open
/// element, and no element is left open.
pub open spec fn well_nested(tokens: Seq<TokenModel>) -> bool {
    nesting(Some(Seq::empty()), tokens, tokens.len() as int) == Some(Seq::<Seq<u8>>::empty())
}

/// The innermost open element of a name has that name.
pub proof fn lemma_innermost(stack: Seq<Seq<u8>>, name: Seq<u8>, n: int)
    requires
        0 <= n <= stack.len(),
    ensures
        -1 <= innermost(stack, name, n) < n,
        innermost(stack, name, n) >= 0 ==> stack[innermost(stack, name, n)] == name,
    decreases n,
{
    if n > 0 && stack[n - 1] != name {
        lemma_innermost(stack, name, n - 1);
    }
}

proof fn lemma_closers_len(stack: Seq<Seq<u8>>, from: int, n: int)
    requires
        0 <= from <= n,
    ensures
        closers(stack, from, n).len() == n - from,
    decreases n - from,
{
    if from < n {
        lemma_closers_len(stack, from + 1, n);
    }
}

/// What is open after some tokens depends on those tokens alone.
proof fn lemma_nesting_prefix(
    open: Option<Seq<Seq<u8>>>,
    a: Seq<TokenModel>,
    b: Seq<TokenModel>,
    n: int,
)
    requires
        0 <= n <= a.len(),
        n <= b.len(),
        forall|k: int| 0 <= k < n ==> a[k] == b[k],
    ensures
        nesting(open, a, n) == nesting(open, b, n),
    decreases n,
{
    if n > 0 {
        lemma_nesting_prefix(open, a, b, n - 1);
    }
}

/// What is open after two runs of tokens is what is open after the
/// second, beginning with what is open after the first.
proof fn lemma_nesting_add(open: Option<Seq<Seq<u8>>>, a: Seq<TokenModel>, b: Seq<TokenModel>, k: int)
    requires
        0 <= k <= b.len(),
    ensures
        nesting(open, a + b, a.len() + k) == nesting(nesting(open, a, a.len() as int), b, k),
    decreases k,
{
    if k > 0 {
        lemma_nesting_add(open, a, b, k - 1);
        assert((a + b)[a.len() + k - 1] == b[k - 1]);
    } else {
        lemma_nesting_prefix(open, a + b, a, a.len() as int);
    }
}

/// The end tags of the open elements down to `from` close just these.
proof fn lemma_closers_close(stack: Seq<Seq<u8>>, from: int, n: int)
    requires
        0 <= from <= n <= stack.len(),
    ensures
        nesting(
            Some(stack.subrange(0, n)),
            closers(stack, from, n),
            closers(stack, from, n).len() as int,
        ) == Some(stack.subrange(0, from)),
    decreases n - from,
{
    if from < n {
        lemma_closers_close(stack, from + 1, n);
        lemma_closers_len(stack, from + 1, n);
        let inner = closers(stack, from + 1, n);
        let all = closers(stack, from, n);
        lemma_nesting_prefix(Some(stack.subrange(0, n)), all, inner, inner.len() as int);
        let before = stack.subrange(0, from + 1);
        assert(before.last() == stack[from]);
        assert(before.drop_last() =~= stack.subrange(0, from));
    } else {
        assert(stack.subrange(0, n) =~= stack.subrange(0, from));
    }
}

/// After any number of tokens, what has been arranged nests, and leaves
/// open just the elements of the stack.
proof fn lemma_arranging_nests(tokens: Seq<TokenModel>, n: int)
    requires
        0 <= n <= tokens.len(),
    ensures
        nesting(
            Some(Seq::empty()),
            arranging(tokens, n).out,
            arranging(tokens, n).out.len() as int,
        ) == Some(arranging(tokens, n).stack),
    decreases n,
{
    if n > 0 {
        lemma_arranging_nests(tokens, n - 1);
        let a = arranging(tokens, n - 1);
        let t = tokens[n - 1];
        let after = arranging(tokens, n);
        let start = Some(Seq::<Seq<u8>>::empty());
        match t {
            TokenModel::Close { name } => {
                let m = a.stack.len() as int;
                let k = innermost(a.stack, name, m);
                lemma_innermost(a.stack, name, m);
                if !(is_void(name) || k < 0) {
                    let tail = closers(a.stack, k, m);
                    lemma_nesting_add(start, a.out, tail, tail.len() as int);
                    lemma_closers_close(a.stack, k, m);
                    assert(a.stack.subrange(0, m) =~= a.stack);
                }
            },
            _ => {
                lemma_nesting_prefix(start, after.out, a.out, a.out.len() as int);
            },
        }
    }
}

/// Whatever the tokens are, arranged they nest well.
pub proof fn lemma_arranged_nests(tokens: Seq<TokenModel>)
    ensures
        well_nested(arranged(tokens)),
{
    let a = arranging(tokens, tokens.len() as int);
    let m = a.stack.len() as int;
    let tail = closers(a.stack, 0, m);
    lemma_arranging_nests(tokens, tokens.len() as int);
    lemma_nesting_add(Some(Seq::<Seq<u8>>::empty()), a.out, tail, tail.len() as int);
    lemma_closers_close(a.stack, 0, m);
    assert(a.stack.subrange(0, m) =~= a.stack);
    assert(a.stack.subrange(0, 0) =~= Seq::<Seq<u8>>::empty());
}

fn void(name: &[u8]) -> (r: bool)
    ensures
        r == is_void(name@),
{
    matches_all(name, "area".as_bytes()) || matches_all(name, "br".as_bytes()) || matches_all(
        name,
        "col".as_bytes(),
    ) || matches_all(name, "hr".as_bytes()) || matches_all(name, "img".as_bytes()) || matches_all(
        name,
        "wbr".as_bytes(),
    )
}

fn digits_from(b: &[u8], from: usize) -> (r: bool)
    requires
        from <= b@.len(),
    ensures
        r == all_digits(b@, from as int),
{
    let mut k: usize = from;
    while k < b.len()
        invariant
            from <= k <= b.len(),
            forall|j: int| from <= j < k ==> is_digit(#[trigger] b@[j]),
        decreases b.len() - k,
    {
        if !(48 <= b[k] && b[k] <= 57) {
            return false;
        }
        k += 1;
    }
    true
}

fn hex_from(b: &[u8], from: usize) -> (r: bool)
    requires
        from <= b@.len(),
    ensures
        r == all_hex(b@, from as int),
{
    let mut k: usize = from;
    while k < b.len()
        invariant
            from <= k <= b.len(),
            forall|j: int| from <= j < k ==> is_hex(#[trigger] b@[j]),
        decreases b.len() - k,
    {
        let c = b[k];
        if !((48 <= c && c <= 57) || (65 <= c && c <= 70) || (97 <= c && c <= 102)) {
            return false;
        }
        k += 1;
    }
    true
}

fn is_reference_body(b: &[u8]) -> (r: bool)
    ensures
        r == reference_body(b@),
{
    matches_all(b, "amp".as_bytes()) || matches_all(b, "lt".as_bytes()) || matches_all(
        b,
        "gt".as_bytes(),
    ) || matches_all(b, "quot".as_bytes()) || matches_all(b, "apos".as_bytes()) || (b.len() >= 2
        && b[0] == 35 && digits_from(b, 1)) || (b.len() >= 3 && b[0] == 35 && b[1] == 120
        && hex_from(b, 2))
}

fn is_reference(s: &[u8], i: usize) -> (r: bool)
    requires
        i < s@.len(),
    ensures
        r == reference_at(s@, i as int),
{
    let n = s.len();
    let end = if n - i >= 10 {
        i + 10
    } else {
        n
    };
    let w = slice_subrange(s, i + 1, end);
    let e = scan_of(w, 0, Class::Byte(59));
    e < w.len() && is_reference_body(slice_subrange(w, 0, e))
}

/// Appends a text, escaped.
pub fn write_escaped(out: &mut Vec<u8>, s: &[u8])
    ensures
        final(out)@ == old(out)@ + escaped(s@),
{
    let n = s.len();
    let nbsp: Vec<u8> = vec![38u8, 110u8, 98u8, 115u8, 112u8, 59u8];
    let lt: Vec<u8> = vec![38u8, 108u8, 116u8, 59u8];
    let gt: Vec<u8> = vec![38u8, 103u8, 116u8, 59u8];
    let quot: Vec<u8> = vec![38u8, 113u8, 117u8, 111u8, 116u8, 59u8];
    let amp: Vec<u8> = vec![38u8, 97u8, 109u8, 112u8, 59u8];
    let space: Vec<u8> = vec![38u8, 35u8, 49u8, 54u8, 48u8, 59u8];
    assert(nbsp@ =~= hard_space());
    assert(lt@ =~= lt_ref() && gt@ =~= gt_ref() && quot@ =~= quot_ref());
    assert(amp@ =~= amp_ref() && space@ =~= space_ref());
    let mut i: usize = 0;
    assert(out@ + escaped_from(s@, 0) =~= old(out)@ + escaped(s@));
    while i < n
        invariant
            i <= n,
            n == s@.len(),
            nbsp@ == hard_space(),
            lt@ == lt_ref(),
            gt@ == gt_ref(),
            quot@ == quot_ref(),
            amp@ == amp_ref(),
            space@ == space_ref(),
            out@ + escaped_from(s@, i as int) == old(out)@ + escaped(s@),
        decreases n - i,
    {
        let c = s[i];
        let ghost before = out@;
        let ghost rest = escaped_from(s@, i as int);
        if c == 60 {
            append(out, lt.as_slice());
            assert(before + rest =~= out@ + escaped_from(s@, i + 1));
            i += 1;
        } else if c == 62 {
            append(out, gt.as_slice());
            assert(before + rest =~= out@ + escaped_from(s@, i + 1));
            i += 1;
        } else if c == 34 {
            append(out, quot.as_slice());
            assert(before + rest =~= out@ + escaped_from(s@, i + 1));
            i += 1;
        } else if c == 38 {
            if is_reference(s, i) {
                out.push(38);
                assert(before + rest =~= out@ + escaped_from(s@, i + 1));
                i += 1;
            } else if matches_at(s, i, nbsp.as_slice()) {
                append(out, space.as_slice());
                assert(before + rest =~= out@ + escaped_from(s@, i + 6));
                i += 6;
            } else {
                append(out, amp.as_slice());
                assert(before + rest =~= out@ + escaped_from(s@, i + 1));
                i += 1;
            }
        } else if c < 32 && c != 9 && c != 10 && c != 13 {
            i += 1;
        } else {
            out.push(c);
            assert(before + rest =~= out@ + escaped_from(s@, i + 1));
            i += 1;
        }
    }
    assert(out@ + Seq::<u8>::empty() =~= out@);
}

fn write_attrs(out: &mut Vec<u8>, attrs: &Vec<Attr>)
    ensures
        final(out)@ == old(out)@ + attrs_written(views(attrs@), attrs@.len() as int),
{
    let ghost m = views(attrs@);
    let mut i: usize = 0;
    assert(out@ + attrs_written(m, 0) =~= out@);
    while i < attrs.len()
        invariant
            i <= attrs.len(),
            m == views(attrs@),
            out@ == old(out)@ + attrs_written(m, i as int),
        decreases attrs.len() - i,
    {
        assert(m[i as int] == attrs@[i as int]@);
        let ghost before = out@;
        let a = &attrs[i];
        out.push(32);
        append(out, a.name.as_slice());
        out.push(61);
        out.push(34);
        write_escaped(out, a.value.as_slice());
        out.push(34);
        assert(out@ =~= before + attr_written(a@));
        assert(out@ =~= old(out)@ + attrs_written(m, i + 1));
        i += 1;
    }
}

fn write_open(out: &mut Vec<u8>, name: &Vec<u8>, attrs: &Vec<Attr>)
    ensures
        final(out)@ == old(out)@ + open_tag(name@, views(attrs@)),
{
    out.push(60);
    append(out, name.as_slice());
    write_attrs(out, attrs);
    if void(name.as_slice()) {
        out.push(47);
        out.push(62);
    } else {
        out.push(62);
    }
    assert(out@ =~= old(out)@ + open_tag(name@, views(attrs@)));
}

fn write_close(out: &mut Vec<u8>, name: &Vec<u8>)
    ensures
        final(out)@ == old(out)@ + close_tag(name@),
{
    out.push(60);
    out.push(47);
    append(out, name.as_slice());
    out.push(62);
    assert(out@ =~= old(out)@ + close_tag(name@));
}

fn find_innermost(stack: &Vec<Vec<u8>>, name: &[u8]) -> (r: Option<usize>)
    ensures
        match r {
            Some(k) => k == innermost(views(stack@), name@, stack@.len() as int) && k
                < stack@.len(),
            None => innermost(views(stack@), name@, stack@.len() as int) < 0,
        },
{
    let ghost m = views(stack@);
    let mut n: usize = stack.len();
    while n > 0
        invariant
            n <= stack.len(),
            m == views(stack@),
            innermost(m, name@, stack@.len() as int) == innermost(m, name@, n as int),
        decreases n,
    {
        assert(m[n - 1] == stack@[n - 1]@);
        if matches_all(stack[n - 1].as_slice(), name) {
            return Some(n - 1);
        }
        n -= 1;
    }
    None
}

/// Puts in the end tags of the open elements from the innermost down
/// to index `from`.
fn close_down(out: &mut Vec<Token>, stack: &mut Vec<Vec<u8>>, from: usize)
    requires
        from <= old(stack)@.len(),
    ensures
        views(final(out)@) == views(old(out)@) + closers(
            views(old(stack)@),
            from as int,
            old(stack)@.len() as int,
        ),
        views(final(stack)@) == views(old(stack)@).subrange(0, from as int),
{
    let ghost s0 = views(stack@);
    let ghost n0 = stack@.len() as int;
    assert(views(stack@) =~= s0.subrange(0, n0));
    assert(views(out@) =~= views(old(out)@) + closers(s0, n0, n0));
    while stack.len() > from
        invariant
            from <= stack@.len() <= n0,
            n0 == s0.len(),
            views(stack@) == s0.subrange(0, stack@.len() as int),
            views(out@) == views(old(out)@) + closers(s0, stack@.len() as int, n0),
        decreases stack@.len(),
    {
        let ghost n = stack@.len() as int;
        assert(views(stack@)[n - 1] == stack@[n - 1]@);
        let top = stack.pop();
        match top {
            Some(name) => {
                assert(name@ == s0[n - 1]);
                let t = Token::Close { name };
                proof {
                    crate::bytes::lemma_views_push(out@, t);
                    assert(views(old(out)@) + closers(s0, n - 1, n0) =~= (views(old(out)@)
                        + closers(s0, n, n0)).push(t@));
                }
                out.push(t);
                assert(views(stack@) =~= s0.subrange(0, n - 1));
            },
            None => {},
        }
    }
}

/// Arranges tokens so that they nest well.
pub fn arrange(tokens: &Vec<Token>) -> (out: Vec<Token>)
    ensures
        views(out@) == arranged(views(tokens@)),
        well_nested(views(out@)),
{
    let ghost m = views(tokens@);
    let mut out: Vec<Token> = Vec::new();
    let mut stack: Vec<Vec<u8>> = Vec::new();
    let mut i: usize = 0;
    assert(views(out@) =~= arranging(m, 0).out);
    assert(views(stack@) =~= arranging(m, 0).stack);
    while i < tokens.len()
        invariant
            i <= tokens.len(),
            m == views(tokens@),
            views(out@) == arranging(m, i as int).out,
            views(stack@) == arranging(m, i as int).stack,
        decreases tokens.len() - i,
    {
        assert(m[i as int] == tokens@[i as int]@);
        match &tokens[i] {
            Token::Open { name, attrs } => {
                let t = crate::clean::copy_token(&tokens[i]);
                proof {
                    crate::bytes::lemma_views_push(out@, t);
                }
                out.push(t);
                if !void(name.as_slice()) {
                    let c = name.clone();
                    proof {
                        crate::bytes::lemma_views_push(stack@, c);
                    }
                    stack.push(c);
                }
            },
            Token::Close { name } => {
                if !void(name.as_slice()) {
                    match find_innermost(&stack, name.as_slice()) {
                        Some(k) => {
                            close_down(&mut out, &mut stack, k);
                        },
                        None => {},
                    }
                }
            },
            Token::Text { data } => {
                let t = crate::clean::copy_token(&tokens[i]);
                proof {
                    crate::bytes::lemma_views_push(out@, t);
                }
                out.push(t);
            },
        }
        i += 1;
    }
    close_down(&mut out, &mut stack, 0);
    proof {
        lemma_arranged_nests(m);
    }
    out
}

/// Writes tokens one after the other.
pub fn write_tokens(out: &mut Vec<u8>, tokens: &Vec<Token>)
    ensures
        final(out)@ == old(out)@ + written(views(tokens@), tokens@.len() as int),
{
    let ghost m = views(tokens@);
    let mut i: usize = 0;
    assert(out@ =~= old(out)@ + written(m, 0));
    while i < tokens.len()
        invariant
            i <= tokens.len(),
            m == views(tokens@),
            out@ == old(out)@ + written(m, i as int),
        decreases tokens.len() - i,
    {
        assert(m[i as int] == tokens@[i as int]@);
        let ghost before = out@;
        match &tokens[i] {
            Token::Open { name, attrs } => write_open(out, name, attrs),
            Token::Close { name } => write_close(out, name),
            Token::Text { data } => write_escaped(out, data.as_slice()),
        }
        assert(out@ == before + token_written(m[i as int]));
        assert(out@ =~= old(out)@ + written(m, i + 1));
        i += 1;
    }
}

/// Writes tokens as well-nested markup.
pub fn print(out: &mut Vec<u8>, tokens: &Vec<Token>)
    ensures
        final(out)@ == old(out)@ + printed(views(tokens@)),
{
    let list = arrange(tokens);
    write_tokens(out, &list);
}

} // verus!
