//! What is taken out of every page: scripts and other active or
//! embedded content, the page's own head and styling, and every
//! attribute that is not known to be harmless.

use crate::bytes::{lemma_views_push, matches_all, text, views};
use crate::html::{Attr, AttrModel, Token, TokenModel};
use vstd::prelude::*;

verus! {

/// An element that is removed with all that it holds.
pub open spec fn removed_whole(name: Seq<u8>) -> bool {
    ||| name == text("head")
    ||| name == text("script")
    ||| name == text("style")
    ||| name == text("noscript")
    ||| name == text("iframe")
    ||| name == text("object")
    ||| name == text("applet")
    ||| name == text("template")
    ||| name == text("svg")
    ||| name == text("math")
    ||| name == text("canvas")
    ||| name == text("audio")
    ||| name == text("video")
    ||| name == text("select")
    ||| name == text("textarea")
    ||| name == text("button")
}

/// An element whose tags are removed while what it holds stays.
pub open spec fn removed_tag(name: Seq<u8>) -> bool {
    ||| name == text("html")
    ||| name == text("body")
    ||| name == text("embed")
    ||| name == text("link")
    ||| name == text("meta")
    ||| name == text("base")
    ||| name == text("input")
    ||| name == text("form")
    ||| name == text("source")
    ||| name == text("track")
    ||| name == text("param")
    ||| name == text("picture")
    ||| name == text("font")
    ||| name == text("center")
}

/// A small letter or a digit.
pub open spec fn is_plain(c: u8) -> bool {
    (97 <= c <= 122) || (48 <= c <= 57)
}

/// A name of small letters and digits that begins with a letter: one
/// that can stand in a well-formed document as it is.
pub open spec fn plain_name(name: Seq<u8>) -> bool {
    &&& name.len() > 0
    &&& 97 <= name[0] <= 122
    &&& forall|i: int| 0 <= i < name.len() ==> is_plain(#[trigger] name[i])
}

/// An attribute that stays.
pub open spec fn kept_attr(name: Seq<u8>) -> bool {
    ||| name == text("href")
    ||| name == text("src")
    ||| name == text("alt")
    ||| name == text("title")
    ||| name == text("id")
    ||| name == text("lang")
    ||| name == text("dir")
    ||| name == text("colspan")
    ||| name == text("rowspan")
}

/// An attribute of this name is among the first `n`.
pub open spec fn has_attr(attrs: Seq<AttrModel>, name: Seq<u8>, n: int) -> bool {
    exists|k: int| 0 <= k < n && k < attrs.len() && (#[trigger] attrs[k]).name == name
}

/// Of the first `n` attributes those that stay: the harmless ones, each
/// name once.
pub open spec fn kept_attrs(attrs: Seq<AttrModel>, n: int) -> Seq<AttrModel>
    decreases n,
{
    if n <= 0 {
        Seq::empty()
    } else if kept_attr(attrs[n - 1].name) && !has_attr(attrs, attrs[n - 1].name, n - 1) {
        kept_attrs(attrs, n - 1).push(attrs[n - 1])
    } else {
        kept_attrs(attrs, n - 1)
    }
}

/// The state of the cleaning after some tokens: what has been let
/// through, and the name of the element that is being removed, if one is.
pub struct Cleaning {
    pub out: Seq<TokenModel>,
    pub inside: Seq<u8>,
}

/// The cleaning after one more token.
pub open spec fn clean_step(before: Cleaning, t: TokenModel) -> Cleaning {
    if before.inside.len() > 0 {
        if t == (TokenModel::Close { name: before.inside }) {
            Cleaning { out: before.out, inside: Seq::empty() }
        } else {
            before
        }
    } else {
        match t {
            TokenModel::Open { name, attrs } => if removed_whole(name) && name.len() > 0 {
                Cleaning { out: before.out, inside: name }
            } else if removed_tag(name) || !plain_name(name) {
                before
            } else {
                Cleaning {
                    out: before.out.push(
                        TokenModel::Open { name, attrs: kept_attrs(attrs, attrs.len() as int) },
                    ),
                    inside: Seq::empty(),
                }
            },
            TokenModel::Close { name } => if removed_whole(name) || removed_tag(name)
                || !plain_name(name) {
                before
            } else {
                Cleaning { out: before.out.push(t), inside: Seq::empty() }
            },
            TokenModel::Text { data } => Cleaning { out: before.out.push(t), inside: Seq::empty() },
        }
    }
}

/// The cleaning after the first `n` tokens.
pub open spec fn cleaning(tokens: Seq<TokenModel>, n: int) -> Cleaning
    decreases n,
{
    if n <= 0 {
        Cleaning { out: Seq::empty(), inside: Seq::empty() }
    } else {
        clean_step(cleaning(tokens, n - 1), tokens[n - 1])
    }
}

/// The page without what is taken out of every page.
pub open spec fn cleaned(tokens: Seq<TokenModel>) -> Seq<TokenModel> {
    cleaning(tokens, tokens.len() as int).out
}

/// A token that the cleaning lets through is no tag of an element that
/// is removed, and carries only attributes that stay.
pub open spec fn clean_token(t: TokenModel) -> bool {
    match t {
        TokenModel::Open { name, attrs } => {
            &&& !removed_whole(name)
            &&& !removed_tag(name)
            &&& plain_name(name)
            &&& forall|k: int| 0 <= k < attrs.len() ==> kept_attr((#[trigger] attrs[k]).name)
        },
        TokenModel::Close { name } => !removed_whole(name) && !removed_tag(name) && plain_name(
            name,
        ),
        TokenModel::Text { data } => true,
    }
}

proof fn lemma_kept_attrs(attrs: Seq<AttrModel>, n: int)
    requires
        0 <= n <= attrs.len(),
    ensures
        forall|k: int|
            0 <= k < kept_attrs(attrs, n).len() ==> kept_attr(
                (#[trigger] kept_attrs(attrs, n)[k]).name,
            ),
    decreases n,
{
    if n > 0 {
        lemma_kept_attrs(attrs, n - 1);
        let before = kept_attrs(attrs, n - 1);
        let after = kept_attrs(attrs, n);
        assert forall|k: int| 0 <= k < after.len() implies kept_attr((#[trigger] after[k]).name) by {
            if k < before.len() {
                assert(after[k] == before[k]);
            }
        }
    }
}

/// Whatever the page holds, no script, no style sheet, no embedded
/// frame and no attribute outside the harmless ones is left in it: every
/// token that stays is clean.
pub proof fn lemma_cleaned(tokens: Seq<TokenModel>, n: int)
    requires
        0 <= n <= tokens.len(),
    ensures
        forall|k: int|
            0 <= k < cleaning(tokens, n).out.len() ==> clean_token(
                #[trigger] cleaning(tokens, n).out[k],
            ),
    decreases n,
{
    if n > 0 {
        lemma_cleaned(tokens, n - 1);
        match tokens[n - 1] {
            TokenModel::Open { name, attrs } => {
                lemma_kept_attrs(attrs, attrs.len() as int);
            },
            _ => {},
        }
        let before = cleaning(tokens, n - 1).out;
        let after = cleaning(tokens, n).out;
        assert forall|k: int| 0 <= k < after.len() implies clean_token(#[trigger] after[k]) by {
            if k < before.len() {
                assert(after[k] == before[k]);
            }
        }
    }
}

fn is_removed_whole(name: &[u8]) -> (r: bool)
    ensures
        r == removed_whole(name@),
{
    matches_all(name, "head".as_bytes()) || matches_all(name, "script".as_bytes()) || matches_all(
        name,
        "style".as_bytes(),
    ) || matches_all(name, "noscript".as_bytes()) || matches_all(name, "iframe".as_bytes())
        || matches_all(name, "object".as_bytes()) || matches_all(name, "applet".as_bytes())
        || matches_all(name, "template".as_bytes()) || matches_all(name, "svg".as_bytes())
        || matches_all(name, "math".as_bytes()) || matches_all(name, "canvas".as_bytes())
        || matches_all(name, "audio".as_bytes()) || matches_all(name, "video".as_bytes())
        || matches_all(name, "select".as_bytes()) || matches_all(name, "textarea".as_bytes())
        || matches_all(name, "button".as_bytes())
}

fn is_removed_tag(name: &[u8]) -> (r: bool)
    ensures
        r == removed_tag(name@),
{
    matches_all(name, "html".as_bytes()) || matches_all(name, "body".as_bytes()) || matches_all(
        name,
        "embed".as_bytes(),
    ) || matches_all(name, "link".as_bytes()) || matches_all(name, "meta".as_bytes())
        || matches_all(name, "base".as_bytes()) || matches_all(name, "input".as_bytes())
        || matches_all(name, "form".as_bytes()) || matches_all(name, "source".as_bytes())
        || matches_all(name, "track".as_bytes()) || matches_all(name, "param".as_bytes())
        || matches_all(name, "picture".as_bytes()) || matches_all(name, "font".as_bytes())
        || matches_all(name, "center".as_bytes())
}

/// Decides whether a name is made of small letters and digits and
/// begins with a letter.
pub fn is_plain_name(name: &[u8]) -> (r: bool)
    ensures
        r == plain_name(name@),
{
    if name.len() == 0 || !(97 <= name[0] && name[0] <= 122) {
        return false;
    }
    let mut i: usize = 0;
    while i < name.len()
        invariant
            i <= name.len(),
            forall|k: int| 0 <= k < i ==> is_plain(#[trigger] name@[k]),
        decreases name.len() - i,
    {
        let c = name[i];
        if !((97 <= c && c <= 122) || (48 <= c && c <= 57)) {
            return false;
        }
        i += 1;
    }
    true
}

fn is_kept_attr(name: &[u8]) -> (r: bool)
    ensures
        r == kept_attr(name@),
{
    matches_all(name, "href".as_bytes()) || matches_all(name, "src".as_bytes()) || matches_all(
        name,
        "alt".as_bytes(),
    ) || matches_all(name, "title".as_bytes()) || matches_all(name, "id".as_bytes())
        || matches_all(name, "lang".as_bytes()) || matches_all(name, "dir".as_bytes())
        || matches_all(name, "colspan".as_bytes()) || matches_all(name, "rowspan".as_bytes())
}

fn attr_before(attrs: &Vec<Attr>, name: &[u8], n: usize) -> (r: bool)
    requires
        n <= attrs@.len(),
    ensures
        r == has_attr(views(attrs@), name@, n as int),
{
    let mut k: usize = 0;
    while k < n
        invariant
            k <= n <= attrs@.len(),
            forall|j: int| 0 <= j < k ==> (#[trigger] views(attrs@)[j]).name != name@,
        decreases n - k,
    {
        assert(views(attrs@)[k as int] == attrs@[k as int]@);
        if matches_all(attrs[k].name.as_slice(), name) {
            return true;
        }
        k += 1;
    }
    false
}

/// Copies an attribute.
pub fn copy_attr(a: &Attr) -> (r: Attr)
    ensures
        r@ == a@,
{
    Attr { name: a.name.clone(), value: a.value.clone() }
}

/// Copies the attributes that stay.
fn keep_attrs(attrs: &Vec<Attr>) -> (out: Vec<Attr>)
    ensures
        views(out@) == kept_attrs(views(attrs@), attrs@.len() as int),
{
    let ghost m = views(attrs@);
    let mut out: Vec<Attr> = Vec::new();
    let mut i: usize = 0;
    assert(views(out@) =~= kept_attrs(m, 0));
    while i < attrs.len()
        invariant
            i <= attrs.len(),
            m == views(attrs@),
            views(out@) == kept_attrs(m, i as int),
        decreases attrs.len() - i,
    {
        assert(m[i as int] == attrs@[i as int]@);
        let a = &attrs[i];
        if is_kept_attr(a.name.as_slice()) && !attr_before(attrs, a.name.as_slice(), i) {
            let c = copy_attr(a);
            proof {
                lemma_views_push(out@, c);
            }
            out.push(c);
        }
        i += 1;
    }
    out
}

/// Copies a list of attributes.
pub fn copy_attrs(attrs: &Vec<Attr>) -> (out: Vec<Attr>)
    ensures
        views(out@) == views(attrs@),
{
    let mut out: Vec<Attr> = Vec::new();
    let mut i: usize = 0;
    while i < attrs.len()
        invariant
            i <= attrs.len(),
            out@.len() == i,
            forall|k: int| 0 <= k < i ==> (#[trigger] out@[k])@ == attrs@[k]@,
        decreases attrs.len() - i,
    {
        out.push(copy_attr(&attrs[i]));
        i += 1;
    }
    assert(views(out@) =~= views(attrs@));
    out
}

/// Copies a token.
pub fn copy_token(t: &Token) -> (r: Token)
    ensures
        r@ == t@,
{
    match t {
        Token::Open { name, attrs } => Token::Open { name: name.clone(), attrs: copy_attrs(attrs) },
        Token::Close { name } => Token::Close { name: name.clone() },
        Token::Text { data } => Token::Text { data: data.clone() },
    }
}

/// Takes out of a page what is taken out of every page.
pub fn clean(tokens: &Vec<Token>) -> (out: Vec<Token>)
    ensures
        views(out@) == cleaned(views(tokens@)),
{
    let ghost m = views(tokens@);
    let mut out: Vec<Token> = Vec::new();
    let mut inside: Vec<u8> = Vec::new();
    let mut i: usize = 0;
    assert(views(out@) =~= cleaning(m, 0).out);
    while i < tokens.len()
        invariant
            i <= tokens.len(),
            m == views(tokens@),
            views(out@) == cleaning(m, i as int).out,
            inside@ == cleaning(m, i as int).inside,
        decreases tokens.len() - i,
    {
        assert(m[i as int] == tokens@[i as int]@);
        let t = &tokens[i];
        if inside.len() > 0 {
            match t {
                Token::Close { name } => {
                    if matches_all(name.as_slice(), inside.as_slice()) {
                        inside = Vec::new();
                    }
                },
                _ => {},
            }
        } else {
            match t {
                Token::Open { name, attrs } => {
                    if is_removed_whole(name.as_slice()) && name.len() > 0 {
                        inside = name.clone();
                    } else if !(is_removed_tag(name.as_slice()) || !is_plain_name(
                        name.as_slice(),
                    )) {
                        let c = Token::Open { name: name.clone(), attrs: keep_attrs(attrs) };
                        proof {
                            lemma_views_push(out@, c);
                        }
                        out.push(c);
                    }
                },
                Token::Close { name } => {
                    if !(is_removed_whole(name.as_slice()) || is_removed_tag(name.as_slice())
                        || !is_plain_name(name.as_slice())) {
                        let c = copy_token(t);
                        proof {
                            lemma_views_push(out@, c);
                        }
                        out.push(c);
                    }
                },
                Token::Text { data } => {
                    let c = copy_token(t);
                    proof {
                        lemma_views_push(out@, c);
                    }
                    out.push(c);
                },
            }
        }
        i += 1;
    }
    out
}

} // verus!
