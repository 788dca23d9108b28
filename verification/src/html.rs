//! The page as a sequence of tokens: tags with their attributes, and the
//! text between them.

use crate::bytes::{
    copy_range, find, find_from, lemma_views_push, lower_seq, lowered, matches_all,
    matches_at, occurs_at, scan, scan_of, text, views, Class,
};
use crate::bytes::{lemma_after_ascii, lemma_cut_valid, lemma_find, lemma_scan, lower, starts_char};
use vstd::prelude::*;
use vstd::utf8::valid_utf8;

verus! {

/// An attribute of a tag.
pub struct Attr {
    /// The name, in lower case.
    pub name: Vec<u8>,
    /// The value, as it is written in the page.
    pub value: Vec<u8>,
}

/// The mathematical content of an [`Attr`].
pub struct AttrModel {
    pub name: Seq<u8>,
    pub value: Seq<u8>,
}

impl View for Attr {
    type V = AttrModel;

    open spec fn view(&self) -> AttrModel {
        AttrModel { name: self.name@, value: self.value@ }
    }
}

/// A piece of the page.
pub enum Token {
    /// A start tag. The name is in lower case.
    Open { name: Vec<u8>, attrs: Vec<Attr> },
    /// An end tag. The name is in lower case.
    Close { name: Vec<u8> },
    /// Text between tags, as it is written in the page.
    Text { data: Vec<u8> },
}

/// The mathematical content of a [`Token`].
pub enum TokenModel {
    Open { name: Seq<u8>, attrs: Seq<AttrModel> },
    Close { name: Seq<u8> },
    Text { data: Seq<u8> },
}

impl View for Token {
    type V = TokenModel;

    open spec fn view(&self) -> TokenModel {
        match self {
            Token::Open { name, attrs } => TokenModel::Open { name: name@, attrs: views(attrs@) },
            Token::Close { name } => TokenModel::Close { name: name@ },
            Token::Text { data } => TokenModel::Text { data: data@ },
        }
    }
}

/// A letter of the Latin alphabet.
pub open spec fn is_letter(c: u8) -> bool {
    (65 <= c <= 90) || (97 <= c <= 122)
}

/// The index after `x`, or `n` where `x` is at the end.
pub open spec fn capped(x: int, n: int) -> int {
    if x < n {
        x + 1
    } else {
        n
    }
}

/// Where the name of the attribute at `a` ends.
pub open spec fn attr_name_end(s: Seq<u8>, a: int) -> int {
    scan(s, a + 1, Class::AttrEnd)
}

/// Where the equals sign of the attribute at `a` stands, if it has one.
pub open spec fn attr_sign(s: Seq<u8>, a: int) -> int {
    scan(s, attr_name_end(s, a), Class::Solid)
}

/// The attribute at `a` has a value.
pub open spec fn has_value(s: Seq<u8>, a: int) -> bool {
    attr_sign(s, a) < s.len() && s[attr_sign(s, a)] == 61
}

/// Where the value of the attribute at `a` begins, quote included.
pub open spec fn value_at(s: Seq<u8>, a: int) -> int {
    scan(s, attr_sign(s, a) + 1, Class::Solid)
}

/// At `v` stands a quotation mark, double or single.
pub open spec fn quoted(s: Seq<u8>, v: int) -> bool {
    0 <= v < s.len() && (s[v] == 34 || s[v] == 39)
}

/// Where the value of the attribute at `a` ends: at the matching
/// quotation mark, or for a value without quotes at white space or `>`.
pub open spec fn value_end(s: Seq<u8>, a: int) -> int {
    let v = value_at(s, a);
    if quoted(s, v) {
        scan(s, v + 1, Class::Byte(s[v]))
    } else {
        scan(s, v, Class::ValueEnd)
    }
}

/// The attribute that begins at `a`.
pub open spec fn attribute(s: Seq<u8>, a: int) -> AttrModel {
    let name = lower_seq(s.subrange(a, attr_name_end(s, a)));
    if !has_value(s, a) {
        AttrModel { name, value: Seq::empty() }
    } else if quoted(s, value_at(s, a)) {
        AttrModel { name, value: s.subrange(value_at(s, a) + 1, value_end(s, a)) }
    } else {
        AttrModel { name, value: s.subrange(value_at(s, a), value_end(s, a)) }
    }
}

/// The index after the attribute that begins at `a`.
pub open spec fn attr_next(s: Seq<u8>, a: int) -> int {
    if !has_value(s, a) {
        attr_name_end(s, a)
    } else if quoted(s, value_at(s, a)) {
        capped(value_end(s, a), s.len() as int)
    } else {
        value_end(s, a)
    }
}

/// The attributes of a tag, from index `j` within it.
pub open spec fn attr_list(s: Seq<u8>, j: int) -> Seq<AttrModel>
    decreases s.len() - j,
{
    let a = scan(s, j, Class::TagPart);
    if j < 0 || a >= s.len() || s[a] == 62 {
        Seq::empty()
    } else {
        let n = attr_next(s, a);
        if j < n <= s.len() {
            seq![attribute(s, a)] + attr_list(s, n)
        } else {
            Seq::empty()
        }
    }
}

/// The index after the `>` that closes the tag, from index `j` within it.
pub open spec fn tag_close(s: Seq<u8>, j: int) -> int
    decreases s.len() - j,
{
    let a = scan(s, j, Class::TagPart);
    if j < 0 || a >= s.len() {
        s.len() as int
    } else if s[a] == 62 {
        a + 1
    } else {
        let n = attr_next(s, a);
        if j < n <= s.len() {
            tag_close(s, n)
        } else {
            s.len() as int
        }
    }
}

/// The four bytes that open a comment: `<!--`.
pub open spec fn comment_open() -> Seq<u8> {
    seq![60u8, 33u8, 45u8, 45u8]
}

/// The three bytes that close a comment: `-->`.
pub open spec fn comment_close() -> Seq<u8> {
    seq![45u8, 45u8, 62u8]
}

/// At `i` a comment begins.
pub open spec fn comment_at(s: Seq<u8>, i: int) -> bool {
    occurs_at(s, i, comment_open())
}

/// At `i` a declaration or a processing instruction begins.
pub open spec fn decl_at(s: Seq<u8>, i: int) -> bool {
    0 <= i && i + 1 < s.len() && s[i] == 60 && (s[i + 1] == 33 || s[i + 1] == 63)
}

/// At `i` an end tag begins.
pub open spec fn close_at(s: Seq<u8>, i: int) -> bool {
    0 <= i && i + 2 < s.len() && s[i] == 60 && s[i + 1] == 47 && is_letter(s[i + 2])
}

/// At `i` a start tag begins.
pub open spec fn open_at(s: Seq<u8>, i: int) -> bool {
    0 <= i && i + 1 < s.len() && s[i] == 60 && is_letter(s[i + 1])
}

/// The token that begins at `i`, where what begins there is one:
/// comments and declarations are none.
pub open spec fn piece(s: Seq<u8>, i: int) -> Option<TokenModel> {
    if comment_at(s, i) || decl_at(s, i) {
        None
    } else if close_at(s, i) {
        Some(TokenModel::Close { name: lower_seq(s.subrange(i + 2, scan(s, i + 2, Class::NameEnd))) })
    } else if open_at(s, i) {
        let e = scan(s, i + 1, Class::NameEnd);
        Some(TokenModel::Open { name: lower_seq(s.subrange(i + 1, e)), attrs: attr_list(s, e) })
    } else {
        Some(TokenModel::Text { data: s.subrange(i, scan(s, i + 1, Class::Byte(60))) })
    }
}

/// The index after what begins at `i`.
pub open spec fn piece_end(s: Seq<u8>, i: int) -> int {
    if comment_at(s, i) {
        match find(s, comment_close(), i + 4) {
            Some(p) => p + 3,
            None => s.len() as int,
        }
    } else if decl_at(s, i) {
        capped(scan(s, i + 1, Class::Byte(62)), s.len() as int)
    } else if close_at(s, i) {
        capped(scan(s, scan(s, i + 2, Class::NameEnd), Class::Byte(62)), s.len() as int)
    } else if open_at(s, i) {
        tag_close(s, scan(s, i + 1, Class::NameEnd))
    } else {
        scan(s, i + 1, Class::Byte(60))
    }
}

/// An element whose content is no markup: a script, a style sheet, a
/// title or a text area.
pub open spec fn is_raw(name: Seq<u8>) -> bool {
    ||| name == text("script")
    ||| name == text("style")
    ||| name == text("title")
    ||| name == text("textarea")
}

/// The name of the element whose content is no markup, where the token
/// opens one. Otherwise nothing.
pub open spec fn raw_after(t: TokenModel) -> Seq<u8> {
    match t {
        TokenModel::Open { name, attrs } => if is_raw(name) {
            name
        } else {
            Seq::empty()
        },
        _ => Seq::empty(),
    }
}

/// The beginning of the end tag of an element, in lower case.
pub open spec fn close_pattern(name: Seq<u8>) -> Seq<u8> {
    seq![60u8, 47u8] + name
}

/// The tokens of the page from index `i` on. `raw` names the element
/// whose content begins at `i` and is no markup; it is empty elsewhere.
pub open spec fn tokens_from(s: Seq<u8>, i: int, raw: Seq<u8>) -> Seq<TokenModel>
    decreases s.len() - i, raw.len(),
{
    if i < 0 || i >= s.len() {
        Seq::empty()
    } else if raw.len() > 0 {
        let r = match find(lower_seq(s), close_pattern(raw), i) {
            Some(p) => p,
            None => s.len() as int,
        };
        if i < r <= s.len() {
            seq![TokenModel::Text { data: s.subrange(i, r) }] + tokens_from(s, r, Seq::empty())
        } else {
            tokens_from(s, i, Seq::empty())
        }
    } else {
        let e = piece_end(s, i);
        if i < e <= s.len() {
            match piece(s, i) {
                Some(t) => seq![t] + tokens_from(s, e, raw_after(t)),
                None => tokens_from(s, e, Seq::empty()),
            }
        } else {
            Seq::empty()
        }
    }
}

/// The tokens of a page.
pub open spec fn tokens(s: Seq<u8>) -> Seq<TokenModel> {
    tokens_from(s, 0, Seq::empty())
}

/// A text token holds UTF-8.
pub open spec fn text_valid(t: TokenModel) -> bool {
    match t {
        TokenModel::Text { data } => valid_utf8(data),
        _ => true,
    }
}

/// A tag ends after its `>`, or where the page ends.
proof fn lemma_tag_close(s: Seq<u8>, j: int)
    requires
        0 <= j <= s.len(),
    ensures
        j <= tag_close(s, j) <= s.len(),
        tag_close(s, j) == s.len() || (tag_close(s, j) > 0 && s[tag_close(s, j) - 1] == 62),
    decreases s.len() - j,
{
    let a = scan(s, j, Class::TagPart);
    lemma_scan(s, j, Class::TagPart);
    if a < s.len() && s[a] != 62 {
        let n = attr_next(s, a);
        if j < n <= s.len() {
            lemma_tag_close(s, n);
        }
    }
}

/// In a page of UTF-8, what begins at the beginning of a character ends
/// at the beginning of a character.
proof fn lemma_piece_end(s: Seq<u8>, i: int)
    requires
        valid_utf8(s),
        0 <= i < s.len(),
    ensures
        i < piece_end(s, i) <= s.len() ==> starts_char(s, piece_end(s, i)),
{
    let n = s.len() as int;
    let e = piece_end(s, i);
    if i < e <= n {
        if comment_at(s, i) {
            match find(s, comment_close(), i + 4) {
                Some(p) => {
                    lemma_find(s, comment_close(), i + 4);
                    assert(s.subrange(p, p + 3)[2] == 62);
                    lemma_after_ascii(s, p + 3);
                },
                None => {},
            }
        } else if decl_at(s, i) {
            let g = scan(s, i + 1, Class::Byte(62));
            lemma_scan(s, i + 1, Class::Byte(62));
            if g < n {
                lemma_after_ascii(s, g + 1);
            }
        } else if close_at(s, i) {
            let ne = scan(s, i + 2, Class::NameEnd);
            lemma_scan(s, i + 2, Class::NameEnd);
            let g = scan(s, ne, Class::Byte(62));
            lemma_scan(s, ne, Class::Byte(62));
            if g < n {
                lemma_after_ascii(s, g + 1);
            }
        } else if open_at(s, i) {
            let ne = scan(s, i + 1, Class::NameEnd);
            lemma_scan(s, i + 1, Class::NameEnd);
            lemma_tag_close(s, ne);
            if e < n {
                lemma_after_ascii(s, e);
            }
        } else {
            lemma_scan(s, i + 1, Class::Byte(60));
        }
    }
}

/// The text tokens of a page of UTF-8 hold UTF-8: the tokenizer cuts
/// the page only where characters begin.
pub proof fn lemma_text_tokens(s: Seq<u8>, i: int, raw: Seq<u8>)
    requires
        valid_utf8(s),
        starts_char(s, i),
    ensures
        forall|k: int|
            0 <= k < tokens_from(s, i, raw).len() ==> text_valid(
                #[trigger] tokens_from(s, i, raw)[k],
            ),
    decreases s.len() - i, raw.len(),
{
    let n = s.len() as int;
    let all = tokens_from(s, i, raw);
    if i < n {
        if raw.len() > 0 {
            let pat = close_pattern(raw);
            let found = find(lower_seq(s), pat, i);
            lemma_find(lower_seq(s), pat, i);
            let r = match found {
                Some(p) => p,
                None => n,
            };
            if i < r <= n {
                if r < n {
                    assert(lower_seq(s)[r] == lower(s[r]));
                    assert(pat[0] == 60);
                    assert(s[r] == 60);
                }
                lemma_cut_valid(s, i, r);
                lemma_text_tokens(s, r, Seq::empty());
                let first = TokenModel::Text { data: s.subrange(i, r) };
                let rest = tokens_from(s, r, Seq::empty());
                assert(all == seq![first] + rest);
                assert forall|k: int| 0 <= k < all.len() implies text_valid(#[trigger] all[k]) by {
                    if k > 0 {
                        assert(all[k] == rest[k - 1]);
                    }
                }
            } else {
                lemma_text_tokens(s, i, Seq::empty());
                assert(all == tokens_from(s, i, Seq::empty()));
            }
        } else {
            let e = piece_end(s, i);
            if i < e <= n {
                lemma_piece_end(s, i);
                match piece(s, i) {
                    Some(t) => {
                        lemma_text_tokens(s, e, raw_after(t));
                        let rest = tokens_from(s, e, raw_after(t));
                        if t is Text {
                            lemma_cut_valid(s, i, e);
                            assert(t == (TokenModel::Text { data: s.subrange(i, e) }));
                        }
                        assert(all == seq![t] + rest);
                        assert forall|k: int| 0 <= k < all.len() implies text_valid(
                            #[trigger] all[k],
                        ) by {
                            if k > 0 {
                                assert(all[k] == rest[k - 1]);
                            }
                        }
                    },
                    None => {
                        lemma_text_tokens(s, e, Seq::empty());
                        assert(all == tokens_from(s, e, Seq::empty()));
                    },
                }
            } else {
                assert(all == Seq::<TokenModel>::empty());
            }
        }
    } else {
        assert(all == Seq::<TokenModel>::empty());
    }
}

fn letter(c: u8) -> (r: bool)
    ensures
        r == is_letter(c),
{
    (65 <= c && c <= 90) || (97 <= c && c <= 122)
}

/// Reads the attribute at `a`, and says where the next may begin.
fn read_attr(s: &[u8], a: usize) -> (r: (Attr, usize))
    requires
        a < s@.len(),
    ensures
        r.0@ == attribute(s@, a as int),
        r.1 == attr_next(s@, a as int),
        a < r.1 <= s@.len(),
{
    let n = s.len();
    let ne = scan_of(s, a + 1, Class::AttrEnd);
    let low = copy_range(s, a, ne);
    let name = lowered(low.as_slice());
    let k = scan_of(s, ne, Class::Solid);
    if !(k < n && s[k] == 61) {
        return (Attr { name, value: Vec::new() }, ne);
    }
    let v = scan_of(s, k + 1, Class::Solid);
    if v < n && (s[v] == 34 || s[v] == 39) {
        let e = scan_of(s, v + 1, Class::Byte(s[v]));
        let next = if e < n {
            e + 1
        } else {
            n
        };
        (Attr { name, value: copy_range(s, v + 1, e) }, next)
    } else {
        let e = scan_of(s, v, Class::ValueEnd);
        (Attr { name, value: copy_range(s, v, e) }, e)
    }
}

/// Reads the attributes of a tag from index `j` within it, and says
/// where the tag ends.
fn read_attrs(s: &[u8], j: usize) -> (r: (Vec<Attr>, usize))
    requires
        j <= s@.len(),
    ensures
        views(r.0@) == attr_list(s@, j as int),
        r.1 == tag_close(s@, j as int),
        j <= r.1 <= s@.len(),
{
    let n = s.len();
    let mut list: Vec<Attr> = Vec::new();
    let mut at: usize = j;
    assert(views(list@) + attr_list(s@, j as int) =~= attr_list(s@, j as int));
    loop
        invariant
            j <= at <= n,
            n == s@.len(),
            attr_list(s@, j as int) == views(list@) + attr_list(s@, at as int),
            tag_close(s@, j as int) == tag_close(s@, at as int),
        decreases n - at,
    {
        let a = scan_of(s, at, Class::TagPart);
        if a >= n {
            assert(views(list@) + Seq::<AttrModel>::empty() =~= views(list@));
            return (list, n);
        }
        if s[a] == 62 {
            assert(views(list@) + Seq::<AttrModel>::empty() =~= views(list@));
            return (list, a + 1);
        }
        let ghost rest = attr_list(s@, at as int);
        let ghost before = views(list@);
        let (attr, next) = read_attr(s, a);
        proof {
            lemma_views_push(list@, attr);
            assert(rest == seq![attr@] + attr_list(s@, next as int));
            assert(before + rest =~= before.push(attr@) + attr_list(s@, next as int));
        }
        list.push(attr);
        at = next;
    }
}

/// Reads what begins at `i`, and says where it ends.
fn read_piece(s: &[u8], i: usize) -> (r: (Option<Token>, usize))
    requires
        i < s@.len(),
    ensures
        r.0.is_some() == piece(s@, i as int).is_some(),
        r.0 matches Some(t) ==> piece(s@, i as int) == Some(t@),
        r.1 == piece_end(s@, i as int),
        i < r.1 <= s@.len(),
{
    let n = s.len();
    let opening: Vec<u8> = vec![60u8, 33u8, 45u8, 45u8];
    let closing: Vec<u8> = vec![45u8, 45u8, 62u8];
    assert(opening@ =~= comment_open() && closing@ =~= comment_close());
    if matches_at(s, i, opening.as_slice()) {
        let e = match find_from(s, closing.as_slice(), i + 4) {
            Some(p) => p + 3,
            None => n,
        };
        return (None, e);
    }
    if s[i] == 60 && n - i > 1 {
        let c = s[i + 1];
        if c == 33 || c == 63 {
            let g = scan_of(s, i + 1, Class::Byte(62));
            return (None, if g < n {
                g + 1
            } else {
                n
            });
        }
        if c == 47 && n - i > 2 && letter(s[i + 2]) {
            let ne = scan_of(s, i + 2, Class::NameEnd);
            let low = copy_range(s, i + 2, ne);
            let g = scan_of(s, ne, Class::Byte(62));
            return (Some(Token::Close { name: lowered(low.as_slice()) }), if g < n {
                g + 1
            } else {
                n
            });
        }
        if letter(c) {
            let ne = scan_of(s, i + 1, Class::NameEnd);
            let low = copy_range(s, i + 1, ne);
            let (attrs, e) = read_attrs(s, ne);
            return (Some(Token::Open { name: lowered(low.as_slice()), attrs }), e);
        }
    }
    let e = scan_of(s, i + 1, Class::Byte(60));
    (Some(Token::Text { data: copy_range(s, i, e) }), e)
}

/// The name of the element without markup that the token opens, if any.
fn raw_name(t: &Token) -> (r: Vec<u8>)
    ensures
        r@ == raw_after(t@),
{
    match t {
        Token::Open { name, attrs } => {
            let n = name.as_slice();
            if matches_all(n, "script".as_bytes()) || matches_all(n, "style".as_bytes())
                || matches_all(n, "title".as_bytes()) || matches_all(n, "textarea".as_bytes()) {
                name.clone()
            } else {
                Vec::new()
            }
        },
        _ => Vec::new(),
    }
}

/// Splits a page into its tokens.
pub fn tokenize(s: &[u8]) -> (list: Vec<Token>)
    ensures
        views(list@) == tokens(s@),
{
    let n = s.len();
    let low = lowered(s);
    let mut list: Vec<Token> = Vec::new();
    let mut raw: Vec<u8> = Vec::new();
    let mut i: usize = 0;
    assert(views(list@) + tokens_from(s@, 0, raw@) =~= tokens(s@));
    while i < n
        invariant
            i <= n,
            n == s@.len(),
            low@ == lower_seq(s@),
            tokens(s@) == views(list@) + tokens_from(s@, i as int, raw@),
        decreases n - i, raw@.len(),
    {
        let ghost before = views(list@);
        let ghost rest = tokens_from(s@, i as int, raw@);
        if raw.len() > 0 {
            let mut pat: Vec<u8> = vec![60u8, 47u8];
            crate::bytes::append(&mut pat, raw.as_slice());
            assert(pat@ =~= close_pattern(raw@));
            let r = match find_from(low.as_slice(), pat.as_slice(), i) {
                Some(p) => p,
                None => n,
            };
            if r > i {
                let t = Token::Text { data: copy_range(s, i, r) };
                proof {
                    lemma_views_push(list@, t);
                    assert(rest == seq![t@] + tokens_from(s@, r as int, Seq::empty()));
                    assert(before + rest =~= before.push(t@) + tokens_from(
                        s@,
                        r as int,
                        Seq::empty(),
                    ));
                }
                list.push(t);
                i = r;
            } else {
                assert(rest == tokens_from(s@, i as int, Seq::empty()));
            }
            raw = Vec::new();
        } else {
            let (found, e) = read_piece(s, i);
            match found {
                Some(t) => {
                    let next = raw_name(&t);
                    proof {
                        lemma_views_push(list@, t);
                        assert(rest == seq![t@] + tokens_from(s@, e as int, raw_after(t@)));
                        assert(before + rest =~= before.push(t@) + tokens_from(
                            s@,
                            e as int,
                            raw_after(t@),
                        ));
                    }
                    list.push(t);
                    raw = next;
                },
                None => {
                    assert(rest == tokens_from(s@, e as int, Seq::empty()));
                },
            }
            i = e;
        }
    }
    assert(views(list@) + Seq::<TokenModel>::empty() =~= views(list@));
    list
}

} // verus!
