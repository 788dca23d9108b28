//! What a page says of itself: its title, its author, and the image
//! that stands for it.

use crate::bytes::{append, lower_seq, lowered, matches_all, text, views};
use crate::html::{lemma_text_tokens, text_valid, tokens, Attr, AttrModel, Token, TokenModel};
use crate::mime::trimmed;
use vstd::prelude::*;
use vstd::utf8::valid_utf8;

verus! {

/// The value of the first attribute named `name` among those from `i` on.
pub open spec fn attr_value(attrs: Seq<AttrModel>, name: Seq<u8>, i: int) -> Option<Seq<u8>>
    decreases attrs.len() - i,
{
    if i < 0 || i >= attrs.len() {
        None
    } else if attrs[i].name == name {
        Some(attrs[i].value)
    } else {
        attr_value(attrs, name, i + 1)
    }
}

/// The value of the attribute named `name` of a start tag.
pub open spec fn value_of(t: TokenModel, name: Seq<u8>) -> Option<Seq<u8>> {
    match t {
        TokenModel::Open { name: n, attrs } => attr_value(attrs, name, 0),
        _ => None,
    }
}

/// The token is a start tag of the given name.
pub open spec fn opens(t: TokenModel, name: Seq<u8>) -> bool {
    t matches TokenModel::Open { name: n, attrs } && n == name
}

/// What is looked for among the tokens of a page.
pub enum Probe<'a> {
    /// A start tag of this name.
    Element(&'a [u8]),
    /// A `meta` tag whose attribute of the first name has, in lower
    /// case, the second as its value.
    Meta(&'a [u8], &'a [u8]),
    /// A start tag of the first name that has an attribute of the second.
    Holding(&'a [u8], &'a [u8]),
    /// A start tag of the first name whose attribute of the second name
    /// has the third as its value.
    Matching(&'a [u8], &'a [u8], &'a [u8]),
    /// A start tag of any name whose attribute of the first name has, in
    /// lower case, the second as its value.
    Marked(&'a [u8], &'a [u8]),
}

/// The mathematical content of a [`Probe`].
pub enum ProbeModel {
    Element(Seq<u8>),
    Meta(Seq<u8>, Seq<u8>),
    Holding(Seq<u8>, Seq<u8>),
    Matching(Seq<u8>, Seq<u8>, Seq<u8>),
    Marked(Seq<u8>, Seq<u8>),
}

impl<'a> View for Probe<'a> {
    type V = ProbeModel;

    open spec fn view(&self) -> ProbeModel {
        match self {
            Probe::Element(n) => ProbeModel::Element(n@),
            Probe::Meta(k, v) => ProbeModel::Meta(k@, v@),
            Probe::Holding(n, a) => ProbeModel::Holding(n@, a@),
            Probe::Matching(n, a, v) => ProbeModel::Matching(n@, a@, v@),
            Probe::Marked(a, v) => ProbeModel::Marked(a@, v@),
        }
    }
}

/// The token is what is looked for.
pub open spec fn hit(t: TokenModel, probe: ProbeModel) -> bool {
    match probe {
        ProbeModel::Element(n) => opens(t, n),
        ProbeModel::Meta(k, v) => opens(t, text("meta")) && (value_of(t, k) matches Some(x)
            && lower_seq(x) == v),
        ProbeModel::Holding(n, a) => opens(t, n) && value_of(t, a).is_some(),
        ProbeModel::Matching(n, a, v) => opens(t, n) && value_of(t, a) == Some(v),
        ProbeModel::Marked(a, v) => value_of(t, a) matches Some(x) && lower_seq(x) == v,
    }
}

/// The index of the first token at or after `i` that is what is looked
/// for.
pub open spec fn first_hit(tokens: Seq<TokenModel>, probe: ProbeModel, i: int) -> Option<int>
    decreases tokens.len() - i,
{
    if i < 0 || i >= tokens.len() {
        None
    } else if hit(tokens[i], probe) {
        Some(i)
    } else {
        first_hit(tokens, probe, i + 1)
    }
}

/// The text from token `i` up to the end tag named `name`, or to the end
/// of the page: the text tokens, one after the other.
pub open spec fn text_until(tokens: Seq<TokenModel>, i: int, name: Seq<u8>) -> Seq<u8>
    decreases tokens.len() - i,
{
    if i < 0 || i >= tokens.len() {
        Seq::empty()
    } else {
        match tokens[i] {
            TokenModel::Close { name: n } => if n == name {
                Seq::empty()
            } else {
                text_until(tokens, i + 1, name)
            },
            TokenModel::Text { data } => data + text_until(tokens, i + 1, name),
            TokenModel::Open { name: n, attrs } => text_until(tokens, i + 1, name),
        }
    }
}

/// The title of the page: the text of its first `title` element, as it
/// is written. A page without such an element has no title.
pub open spec fn title_of(tokens: Seq<TokenModel>) -> Option<Seq<u8>> {
    match first_hit(tokens, ProbeModel::Element(text("title")), 0) {
        Some(t) => Some(text_until(tokens, t + 1, text("title"))),
        None => None,
    }
}

/// The name of a tag; nothing for text.
pub open spec fn name_of(t: TokenModel) -> Seq<u8> {
    match t {
        TokenModel::Open { name, attrs } => name,
        TokenModel::Close { name } => name,
        TokenModel::Text { data } => Seq::empty(),
    }
}

/// The text of the first element that is marked by an attribute with a
/// value, without the blanks around it.
pub open spec fn marked_text(tokens: Seq<TokenModel>, attr: Seq<u8>, value: Seq<u8>) -> Option<
    Seq<u8>,
> {
    match first_hit(tokens, ProbeModel::Marked(attr, value), 0) {
        Some(i) => Some(trimmed(text_until(tokens, i + 1, name_of(tokens[i])))),
        None => None,
    }
}

/// The author that the head of the page names: what its first `meta`
/// tag named `author` gives as content.
pub open spec fn named_author(tokens: Seq<TokenModel>) -> Option<Seq<u8>> {
    match first_hit(tokens, ProbeModel::Meta(text("name"), text("author")), 0) {
        Some(i) => value_of(tokens[i], text("content")),
        None => None,
    }
}

/// The author of the page: the one that its head names, or else the
/// text of the first element that is marked as naming the author, by
/// `rel="author"` or by `class="byline"`.
pub open spec fn byline_of(tokens: Seq<TokenModel>) -> Option<Seq<u8>> {
    match named_author(tokens) {
        Some(c) => Some(c),
        None => match marked_text(tokens, text("rel"), text("author")) {
            Some(t) => Some(t),
            None => marked_text(tokens, text("class"), text("byline")),
        },
    }
}

/// The address of the image that stands for the page: the content of
/// its first `meta` tag of property `og:image`, or else the source of its
/// first image.
pub open spec fn cover_of(tokens: Seq<TokenModel>) -> Option<Seq<u8>> {
    let named = match first_hit(tokens, ProbeModel::Meta(text("property"), text("og:image")), 0) {
        Some(i) => value_of(tokens[i], text("content")),
        None => None,
    };
    match named {
        Some(c) => Some(c),
        None => match first_hit(tokens, ProbeModel::Holding(text("img"), text("src")), 0) {
            Some(i) => value_of(tokens[i], text("src")),
            None => None,
        },
    }
}

/// The view of bytes that may be absent.
pub open spec fn maybe(o: Option<Vec<u8>>) -> Option<Seq<u8>> {
    match o {
        Some(v) => Some(v@),
        None => None,
    }
}

/// What a page says of itself.
pub struct Metadata {
    pub title: Option<Vec<u8>>,
    pub byline: Option<Vec<u8>>,
    pub cover: Option<Vec<u8>>,
}

/// The mathematical content of [`Metadata`].
pub struct MetadataModel {
    pub title: Option<Seq<u8>>,
    pub byline: Option<Seq<u8>>,
    pub cover: Option<Seq<u8>>,
}

impl View for Metadata {
    type V = MetadataModel;

    open spec fn view(&self) -> MetadataModel {
        MetadataModel {
            title: maybe(self.title),
            byline: maybe(self.byline),
            cover: maybe(self.cover),
        }
    }
}

/// What the page says of itself.
pub open spec fn metadata(tokens: Seq<TokenModel>) -> MetadataModel {
    MetadataModel { title: title_of(tokens), byline: byline_of(tokens), cover: cover_of(tokens) }
}

/// A page whose first `title` element holds the text `x` and nothing
/// else has the title `x`, byte for byte.
pub proof fn lemma_title_kept(tokens: Seq<TokenModel>, i: int, x: Seq<u8>)
    requires
        0 <= i,
        i + 2 < tokens.len(),
        forall|k: int| 0 <= k < i ==> !opens(#[trigger] tokens[k], text("title")),
        opens(tokens[i], text("title")),
        tokens[i + 1] == (TokenModel::Text { data: x }),
        tokens[i + 2] == (TokenModel::Close { name: text("title") }),
    ensures
        title_of(tokens) == Some(x),
{
    lemma_first_hit_is(tokens, ProbeModel::Element(text("title")), 0, i);
    assert(text_until(tokens, i + 2, text("title")) == Seq::<u8>::empty());
    assert(x + Seq::<u8>::empty() =~= x);
}

/// A page without a `title` element has no title.
pub proof fn lemma_title_absent(tokens: Seq<TokenModel>)
    requires
        forall|k: int| 0 <= k < tokens.len() ==> !opens(#[trigger] tokens[k], text("title")),
    ensures
        title_of(tokens).is_none(),
{
    lemma_first_hit_none(tokens, ProbeModel::Element(text("title")), 0);
}

/// Where every text token holds UTF-8, so does the text that is
/// gathered from them.
pub proof fn lemma_text_until_valid(tokens: Seq<TokenModel>, i: int, name: Seq<u8>)
    requires
        forall|k: int| 0 <= k < tokens.len() ==> text_valid(#[trigger] tokens[k]),
    ensures
        valid_utf8(text_until(tokens, i, name)),
    decreases tokens.len() - i,
{
    if 0 <= i < tokens.len() {
        lemma_text_until_valid(tokens, i + 1, name);
        assert(text_valid(tokens[i]));
        match tokens[i] {
            TokenModel::Text { data } => {
                vstd::utf8::valid_utf8_concat(data, text_until(tokens, i + 1, name));
            },
            _ => {},
        }
    }
}

/// The title of a page of UTF-8 is UTF-8.
pub proof fn lemma_title_is_text(page: Seq<u8>)
    requires
        valid_utf8(page),
    ensures
        title_of(tokens(page)) matches Some(t) ==> valid_utf8(t),
{
    lemma_text_tokens(page, 0, Seq::empty());
    match first_hit(tokens(page), ProbeModel::Element(text("title")), 0) {
        Some(t) => {
            lemma_text_until_valid(tokens(page), t + 1, text("title"));
        },
        None => {},
    }
}

proof fn lemma_first_hit_is(tokens: Seq<TokenModel>, probe: ProbeModel, from: int, i: int)
    requires
        0 <= from <= i < tokens.len(),
        forall|k: int| from <= k < i ==> !hit(#[trigger] tokens[k], probe),
        hit(tokens[i], probe),
    ensures
        first_hit(tokens, probe, from) == Some(i),
    decreases i - from,
{
    if from < i {
        lemma_first_hit_is(tokens, probe, from + 1, i);
    }
}

proof fn lemma_first_hit_none(tokens: Seq<TokenModel>, probe: ProbeModel, from: int)
    requires
        0 <= from,
        forall|k: int| from <= k < tokens.len() ==> !hit(#[trigger] tokens[k], probe),
    ensures
        first_hit(tokens, probe, from).is_none(),
    decreases tokens.len() - from,
{
    if from < tokens.len() {
        lemma_first_hit_none(tokens, probe, from + 1);
    }
}

/// Reads the value of the first attribute of the given name.
pub fn attr_of<'a>(attrs: &'a Vec<Attr>, name: &[u8]) -> (r: Option<&'a Vec<u8>>)
    ensures
        r.is_some() == attr_value(views(attrs@), name@, 0).is_some(),
        r matches Some(v) ==> attr_value(views(attrs@), name@, 0) == Some(v@),
{
    let ghost m = views(attrs@);
    let mut i: usize = 0;
    while i < attrs.len()
        invariant
            i <= attrs.len(),
            m == views(attrs@),
            attr_value(m, name@, 0) == attr_value(m, name@, i as int),
        decreases attrs.len() - i,
    {
        assert(m[i as int] == attrs@[i as int]@);
        if matches_all(attrs[i].name.as_slice(), name) {
            return Some(&attrs[i].value);
        }
        i += 1;
    }
    None
}

/// Reads the value of the attribute of the given name of a start tag.
pub fn value_in<'a>(t: &'a Token, name: &[u8]) -> (r: Option<&'a Vec<u8>>)
    ensures
        r.is_some() == value_of(t@, name@).is_some(),
        r matches Some(v) ==> value_of(t@, name@) == Some(v@),
{
    match t {
        Token::Open { name: n, attrs } => attr_of(attrs, name),
        _ => None,
    }
}

/// Decides whether a token is a start tag of the given name.
pub fn is_open(t: &Token, name: &[u8]) -> (r: bool)
    ensures
        r == opens(t@, name@),
{
    match t {
        Token::Open { name: n, attrs } => matches_all(n.as_slice(), name),
        _ => false,
    }
}

fn is_hit(t: &Token, probe: &Probe) -> (r: bool)
    ensures
        r == hit(t@, probe@),
{
    match probe {
        Probe::Element(n) => is_open(t, n),
        Probe::Meta(k, v) => {
            if !is_open(t, "meta".as_bytes()) {
                return false;
            }
            match value_in(t, k) {
                Some(x) => {
                    let low = lowered(x.as_slice());
                    matches_all(low.as_slice(), v)
                },
                None => false,
            }
        },
        Probe::Holding(n, a) => is_open(t, n) && value_in(t, a).is_some(),
        Probe::Matching(n, a, v) => {
            if !is_open(t, n) {
                return false;
            }
            match value_in(t, a) {
                Some(x) => matches_all(x.as_slice(), v),
                None => false,
            }
        },
        Probe::Marked(a, v) => match value_in(t, a) {
            Some(x) => {
                let low = lowered(x.as_slice());
                matches_all(low.as_slice(), v)
            },
            None => false,
        },
    }
}

/// Finds the first token at or after `from` that is what is looked for.
pub fn find_hit(tokens: &Vec<Token>, probe: &Probe, from: usize) -> (r: Option<usize>)
    ensures
        r.is_some() == first_hit(views(tokens@), probe@, from as int).is_some(),
        r matches Some(i) ==> first_hit(views(tokens@), probe@, from as int) == Some(i as int)
            && from <= i < tokens@.len(),
{
    let ghost m = views(tokens@);
    let mut i: usize = from;
    while i < tokens.len()
        invariant
            from <= i,
            m == views(tokens@),
            first_hit(m, probe@, from as int) == first_hit(m, probe@, i as int),
        decreases tokens.len() - i,
    {
        assert(m[i as int] == tokens@[i as int]@);
        if is_hit(&tokens[i], probe) {
            return Some(i);
        }
        i += 1;
    }
    None
}

/// Gathers the text from token `from` up to the end tag of the given name.
pub fn gather_text(tokens: &Vec<Token>, from: usize, name: &[u8]) -> (out: Vec<u8>)
    ensures
        out@ == text_until(views(tokens@), from as int, name@),
{
    let ghost m = views(tokens@);
    let mut out: Vec<u8> = Vec::new();
    let mut i: usize = from;
    assert(out@ + text_until(m, from as int, name@) =~= text_until(m, from as int, name@));
    while i < tokens.len()
        invariant
            from <= i,
            m == views(tokens@),
            text_until(m, from as int, name@) == out@ + text_until(m, i as int, name@),
        decreases tokens.len() - i,
    {
        assert(m[i as int] == tokens@[i as int]@);
        let ghost before = out@;
        match &tokens[i] {
            Token::Close { name: n } => {
                if matches_all(n.as_slice(), name) {
                    assert(out@ + Seq::<u8>::empty() =~= out@);
                    return out;
                }
            },
            Token::Text { data } => {
                append(&mut out, data.as_slice());
                assert(before + (data@ + text_until(m, i + 1, name@)) =~= out@ + text_until(
                    m,
                    i + 1,
                    name@,
                ));
            },
            Token::Open { name: n, attrs } => {},
        }
        i += 1;
    }
    assert(out@ + Seq::<u8>::empty() =~= out@);
    out
}

fn copied(o: Option<&Vec<u8>>) -> (r: Option<Vec<u8>>)
    ensures
        r.is_some() == o.is_some(),
        r matches Some(v) ==> o matches Some(w) && v@ == w@,
{
    match o {
        Some(v) => Some(v.clone()),
        None => None,
    }
}

fn name_in(t: &Token) -> (r: &[u8])
    ensures
        r@ == name_of(t@),
{
    match t {
        Token::Open { name, attrs } => name.as_slice(),
        Token::Close { name } => name.as_slice(),
        Token::Text { data } => {
            let empty: &[u8] = vstd::slice::slice_subrange(data.as_slice(), 0, 0);
            assert(empty@ =~= Seq::<u8>::empty());
            empty
        },
    }
}

fn read_marked(tokens: &Vec<Token>, attr: &[u8], value: &[u8]) -> (r: Option<Vec<u8>>)
    ensures
        maybe(r) == marked_text(views(tokens@), attr@, value@),
{
    let count = tokens.len();
    match find_hit(tokens, &Probe::Marked(attr, value), 0) {
        Some(i) => {
            assert(views(tokens@)[i as int] == tokens@[i as int]@);
            assert(i < count);
            let all = gather_text(tokens, i + 1, name_in(&tokens[i]));
            Some(crate::mime::trim(all.as_slice()))
        },
        None => None,
    }
}

fn read_byline(tokens: &Vec<Token>) -> (r: Option<Vec<u8>>)
    ensures
        maybe(r) == byline_of(views(tokens@)),
{
    let named = match find_hit(tokens, &Probe::Meta("name".as_bytes(), "author".as_bytes()), 0) {
        Some(i) => {
            assert(views(tokens@)[i as int] == tokens@[i as int]@);
            copied(value_in(&tokens[i], "content".as_bytes()))
        },
        None => None,
    };
    match named {
        Some(c) => Some(c),
        None => match read_marked(tokens, "rel".as_bytes(), "author".as_bytes()) {
            Some(t) => Some(t),
            None => read_marked(tokens, "class".as_bytes(), "byline".as_bytes()),
        },
    }
}

/// Reads what a page says of itself.
pub fn extract(tokens: &Vec<Token>) -> (m: Metadata)
    ensures
        m@ == metadata(views(tokens@)),
{
    let ghost model = views(tokens@);
    let count = tokens.len();
    let title = match find_hit(tokens, &Probe::Element("title".as_bytes()), 0) {
        Some(t) => {
            assert(t < count);
            Some(gather_text(tokens, t + 1, "title".as_bytes()))
        },
        None => None,
    };
    let byline = read_byline(tokens);
    let named = match find_hit(
        tokens,
        &Probe::Meta("property".as_bytes(), "og:image".as_bytes()),
        0,
    ) {
        Some(i) => {
            assert(model[i as int] == tokens@[i as int]@);
            copied(value_in(&tokens[i], "content".as_bytes()))
        },
        None => None,
    };
    let cover = match named {
        Some(c) => Some(c),
        None => match find_hit(tokens, &Probe::Holding("img".as_bytes(), "src".as_bytes()), 0) {
            Some(i) => {
                assert(model[i as int] == tokens@[i as int]@);
                copied(value_in(&tokens[i], "src".as_bytes()))
            },
            None => None,
        },
    };
    Metadata { title, byline, cover }
}

} // verus!
