//! The measure of likeness between links, and the rule that tells
//! navigation from content.
//!
//! Two byte strings are as alike as the bytes they share, counted with
//! multiplicity: twice the number of shared bytes over the sum of the
//! lengths, in millionths. Two links are as alike as their addresses and
//! their visible texts are, on average. A link is judged to be navigation
//! when it is at least as like one of its neighbours as the threshold
//! says.

use crate::bytes::{lemma_views_push, text, views};
use crate::clean::{clean_token, copy_token, kept_attr};
use crate::config::SIMILARITY_ONE;
use crate::extract::{
    gather_text, hit, text_until, value_in, value_of, ProbeModel,
};
use crate::html::{Attr, AttrModel, Token, TokenModel};
use vstd::prelude::*;

verus! {

/// How often `c` occurs among the first `n` bytes of `s`.
pub open spec fn count_upto(s: Seq<u8>, c: u8, n: int) -> int
    decreases n,
{
    if n <= 0 {
        0
    } else {
        count_upto(s, c, n - 1) + if s[n - 1] == c {
            1int
        } else {
            0int
        }
    }
}

/// How often `c` occurs in `s`.
pub open spec fn count(s: Seq<u8>, c: u8) -> int {
    count_upto(s, c, s.len() as int)
}

/// The smaller of two numbers.
pub open spec fn least(x: int, y: int) -> int {
    if x <= y {
        x
    } else {
        y
    }
}

/// The number of bytes, of values below `k`, that `a` and `b` share.
pub open spec fn shared_upto(a: Seq<u8>, b: Seq<u8>, k: int) -> int
    decreases k,
{
    if k <= 0 {
        0
    } else {
        shared_upto(a, b, k - 1) + least(count(a, (k - 1) as u8), count(b, (k - 1) as u8))
    }
}

/// The number of bytes that `a` and `b` share, counted with multiplicity.
pub open spec fn shared(a: Seq<u8>, b: Seq<u8>) -> int {
    shared_upto(a, b, 256)
}

/// The likeness of two byte strings, in millionths: 1 000 000 for equal
/// strings, 0 for strings without a byte in common.
pub open spec fn likeness(a: Seq<u8>, b: Seq<u8>) -> int {
    if a.len() + b.len() == 0 {
        SIMILARITY_ONE as int
    } else {
        2 * shared(a, b) * (SIMILARITY_ONE as int) / ((a.len() + b.len()) as int)
    }
}

/// A link as the filter sees it.
pub struct Link {
    pub href: Vec<u8>,
    pub text: Vec<u8>,
}

/// The mathematical content of a [`Link`].
pub struct LinkModel {
    pub href: Seq<u8>,
    pub text: Seq<u8>,
}

impl View for Link {
    type V = LinkModel;

    open spec fn view(&self) -> LinkModel {
        LinkModel { href: self.href@, text: self.text@ }
    }
}

/// The likeness of two links, in millionths: the mean of the likeness of
/// their addresses and of their texts.
pub open spec fn similarity(x: LinkModel, y: LinkModel) -> int {
    (likeness(x.href, y.href) + likeness(x.text, y.text)) / 2
}

/// A score at or above the threshold makes a pair alike.
pub open spec fn alike(score: int, threshold: u32) -> bool {
    score >= threshold
}

/// The link at `i` is navigation: it is alike to the link before it or
/// to the link after it.
pub open spec fn boilerplate(links: Seq<LinkModel>, i: int, threshold: u32) -> bool {
    ||| 0 < i < links.len() && alike(similarity(links[i - 1], links[i]), threshold)
    ||| 0 <= i < links.len() - 1 && alike(similarity(links[i], links[i + 1]), threshold)
}

proof fn lemma_count_bounds(s: Seq<u8>, c: u8, n: int)
    requires
        0 <= n,
    ensures
        0 <= count_upto(s, c, n) <= n,
    decreases n,
{
    if n > 0 {
        lemma_count_bounds(s, c, n - 1);
    }
}

/// The occurrences, among the first `n` bytes, of all values below `k`.
spec fn total_upto(s: Seq<u8>, n: int, k: int) -> int
    decreases k,
{
    if k <= 0 {
        0
    } else {
        total_upto(s, n, k - 1) + count_upto(s, (k - 1) as u8, n)
    }
}

proof fn lemma_total_step(s: Seq<u8>, n: int, k: int)
    requires
        1 <= n,
        0 <= k <= 256,
    ensures
        total_upto(s, n, k) == total_upto(s, n - 1, k) + if s[n - 1] < k {
            1int
        } else {
            0int
        },
    decreases k,
{
    if k > 0 {
        lemma_total_step(s, n, k - 1);
    }
}

proof fn lemma_total(s: Seq<u8>, n: int)
    requires
        0 <= n,
    ensures
        total_upto(s, n, 256) == n,
    decreases n,
{
    if n > 0 {
        lemma_total(s, n - 1);
        lemma_total_step(s, n, 256);
    } else {
        lemma_total_zero(s, 256);
    }
}

proof fn lemma_total_zero(s: Seq<u8>, k: int)
    requires
        0 <= k,
    ensures
        total_upto(s, 0, k) == 0,
    decreases k,
{
    if k > 0 {
        lemma_total_zero(s, k - 1);
    }
}

proof fn lemma_shared_bounds(a: Seq<u8>, b: Seq<u8>, k: int)
    requires
        0 <= k <= 256,
    ensures
        0 <= shared_upto(a, b, k) <= total_upto(a, a.len() as int, k),
        shared_upto(a, b, k) <= total_upto(b, b.len() as int, k),
    decreases k,
{
    if k > 0 {
        lemma_shared_bounds(a, b, k - 1);
        lemma_count_bounds(a, (k - 1) as u8, a.len() as int);
        lemma_count_bounds(b, (k - 1) as u8, b.len() as int);
    }
}

proof fn lemma_shared_symmetric(a: Seq<u8>, b: Seq<u8>, k: int)
    requires
        0 <= k,
    ensures
        shared_upto(a, b, k) == shared_upto(b, a, k),
    decreases k,
{
    if k > 0 {
        lemma_shared_symmetric(a, b, k - 1);
    }
}

proof fn lemma_shared_same(a: Seq<u8>, k: int)
    requires
        0 <= k <= 256,
    ensures
        shared_upto(a, a, k) == total_upto(a, a.len() as int, k),
    decreases k,
{
    if k > 0 {
        lemma_shared_same(a, k - 1);
    }
}

proof fn lemma_shared_none(a: Seq<u8>, b: Seq<u8>, k: int)
    requires
        0 <= k <= 256,
        forall|c: u8| count(a, c) == 0 || count(b, c) == 0,
    ensures
        shared_upto(a, b, k) == 0,
    decreases k,
{
    if k > 0 {
        lemma_shared_none(a, b, k - 1);
        let c = (k - 1) as u8;
        assert(count(a, c) == 0 || count(b, c) == 0);
        lemma_count_bounds(a, c, a.len() as int);
        lemma_count_bounds(b, c, b.len() as int);
    }
}

/// Two strings share no more bytes than the shorter of them has.
pub proof fn lemma_shared_range(a: Seq<u8>, b: Seq<u8>)
    ensures
        0 <= shared(a, b) <= a.len(),
        shared(a, b) <= b.len(),
{
    lemma_shared_bounds(a, b, 256);
    lemma_total(a, a.len() as int);
    lemma_total(b, b.len() as int);
}

/// The likeness of two strings lies between nought and one.
pub proof fn lemma_likeness_range(a: Seq<u8>, b: Seq<u8>)
    ensures
        0 <= likeness(a, b) <= SIMILARITY_ONE,
{
    lemma_shared_range(a, b);
    let n = (a.len() + b.len()) as int;
    if n != 0 {
        let s = shared(a, b);
        assert(0 <= 2 * s * 1_000_000 / n <= 1_000_000) by (nonlinear_arith)
            requires
                0 <= 2 * s <= n,
                n > 0,
        ;
    }
}

/// Likeness does not depend on the order of the two strings.
pub proof fn lemma_likeness_symmetric(a: Seq<u8>, b: Seq<u8>)
    ensures
        likeness(a, b) == likeness(b, a),
{
    lemma_shared_symmetric(a, b, 256);
}

/// A string is wholly like itself.
pub proof fn lemma_likeness_same(a: Seq<u8>)
    ensures
        likeness(a, a) == SIMILARITY_ONE,
{
    lemma_shared_same(a, 256);
    lemma_total(a, a.len() as int);
    let n = a.len() as int;
    if n != 0 {
        assert(2 * n * 1_000_000 / (n + n) == 1_000_000) by (nonlinear_arith)
            requires
                n > 0,
        ;
    }
}

/// Strings without a byte in common, not both empty, are not alike at all.
pub proof fn lemma_likeness_disjoint(a: Seq<u8>, b: Seq<u8>)
    requires
        a.len() + b.len() > 0,
        forall|c: u8| count(a, c) == 0 || count(b, c) == 0,
    ensures
        likeness(a, b) == 0,
{
    lemma_shared_none(a, b, 256);
}

/// The similarity of two links lies between nought and one, does not
/// depend on their order, and is one for a link and itself.
pub proof fn lemma_similarity(x: LinkModel, y: LinkModel)
    ensures
        0 <= similarity(x, y) <= SIMILARITY_ONE,
        similarity(x, y) == similarity(y, x),
        similarity(x, x) == SIMILARITY_ONE,
{
    lemma_likeness_range(x.href, y.href);
    lemma_likeness_range(x.text, y.text);
    lemma_likeness_symmetric(x.href, y.href);
    lemma_likeness_symmetric(x.text, y.text);
    lemma_likeness_same(x.href);
    lemma_likeness_same(x.text);
}

/// Links whose addresses share no byte and whose texts share no byte
/// have similarity nought.
pub proof fn lemma_similarity_disjoint(x: LinkModel, y: LinkModel)
    requires
        x.href.len() + y.href.len() > 0,
        x.text.len() + y.text.len() > 0,
        forall|c: u8| count(x.href, c) == 0 || count(y.href, c) == 0,
        forall|c: u8| count(x.text, c) == 0 || count(y.text, c) == 0,
    ensures
        similarity(x, y) == 0,
{
    lemma_likeness_disjoint(x.href, y.href);
    lemma_likeness_disjoint(x.text, y.text);
}

/// The threshold is inclusive. Two neighbouring links whose similarity
/// equals the threshold are both navigation; a link whose similarity to
/// each neighbour it has is below the threshold, by however little, is
/// not.
pub proof fn lemma_threshold_inclusive(links: Seq<LinkModel>, i: int, threshold: u32)
    requires
        0 <= i < links.len(),
    ensures
        i + 1 < links.len() && similarity(links[i], links[i + 1]) == threshold ==> boilerplate(
            links,
            i,
            threshold,
        ) && boilerplate(links, i + 1, threshold),
        (i > 0 ==> similarity(links[i - 1], links[i]) < threshold) && (i + 1 < links.len()
            ==> similarity(links[i], links[i + 1]) < threshold) ==> !boilerplate(
            links,
            i,
            threshold,
        ),
{
}

/// Counts the occurrences of every byte value.
fn histogram(s: &[u8]) -> (h: Vec<usize>)
    ensures
        h@.len() == 256,
        forall|c: u8| #![trigger h@[c as int]] h@[c as int] == count(s@, c),
{
    let mut h: Vec<usize> = Vec::new();
    let mut k: usize = 0;
    while k < 256
        invariant
            k <= 256,
            h@.len() == k,
            forall|j: int| 0 <= j < k ==> h@[j] == 0,
        decreases 256 - k,
    {
        h.push(0);
        k += 1;
    }
    let mut i: usize = 0;
    while i < s.len()
        invariant
            i <= s.len(),
            h@.len() == 256,
            forall|c: u8| #![trigger h@[c as int]] h@[c as int] == count_upto(s@, c, i as int),
        decreases s.len() - i,
    {
        let b = s[i];
        proof {
            lemma_count_bounds(s@, b, i as int);
        }
        let ghost before = h@;
        let n = h[b as usize];
        h.set(b as usize, n + 1);
        assert forall|c: u8| #![trigger h@[c as int]] h@[c as int] == count_upto(
            s@,
            c,
            i + 1,
        ) by {
            assert(before[c as int] == count_upto(s@, c, i as int));
        }
        i += 1;
    }
    h
}

/// Counts the bytes that two strings share.
fn shared_bytes(a: &[u8], b: &[u8]) -> (n: usize)
    ensures
        n == shared(a@, b@),
{
    let ha = histogram(a);
    let hb = histogram(b);
    let limit: usize = a.len();
    let mut n: usize = 0;
    let mut k: usize = 0;
    while k < 256
        invariant
            k <= 256,
            a@.len() == limit,
            ha@.len() == 256,
            hb@.len() == 256,
            forall|c: u8| #![trigger ha@[c as int]] ha@[c as int] == count(a@, c),
            forall|c: u8| #![trigger hb@[c as int]] hb@[c as int] == count(b@, c),
            n == shared_upto(a@, b@, k as int),
        decreases 256 - k,
    {
        let x = ha[k];
        let y = hb[k];
        proof {
            let c = k as u8;
            assert(ha@[c as int] == count(a@, c));
            assert(hb@[c as int] == count(b@, c));
            lemma_shared_bounds(a@, b@, k + 1);
            lemma_total_below(a@, k + 1);
            assert(shared_upto(a@, b@, k + 1) == shared_upto(a@, b@, k as int) + least(
                count(a@, c),
                count(b@, c),
            ));
        }
        n = n + if x <= y {
            x
        } else {
            y
        };
        k += 1;
    }
    n
}

proof fn lemma_total_below(s: Seq<u8>, k: int)
    requires
        0 <= k <= 256,
    ensures
        total_upto(s, s.len() as int, k) <= s.len(),
    decreases 256 - k,
{
    if k < 256 {
        lemma_total_below(s, k + 1);
        lemma_count_bounds(s, k as u8, s.len() as int);
    } else {
        lemma_total(s, s.len() as int);
    }
}

/// Computes the likeness of two byte strings, in millionths.
pub fn likeness_of(a: &[u8], b: &[u8]) -> (r: u32)
    ensures
        r == likeness(a@, b@),
{
    let total: u128 = a.len() as u128 + b.len() as u128;
    if total == 0 {
        return SIMILARITY_ONE;
    }
    let s: u128 = shared_bytes(a, b) as u128;
    proof {
        lemma_shared_range(a@, b@);
        lemma_likeness_range(a@, b@);
        assert(2 * s * 1_000_000 <= 2 * 0xFFFF_FFFF_FFFF_FFFF * 1_000_000) by (nonlinear_arith)
            requires
                0 <= s <= 0xFFFF_FFFF_FFFF_FFFF,
        ;
    }
    (2 * s * 1_000_000 / total) as u32
}

/// Computes the similarity of two links, in millionths.
pub fn similarity_of(x: &Link, y: &Link) -> (r: u32)
    ensures
        r == similarity(x@, y@),
{
    proof {
        lemma_likeness_range(x@.href, y@.href);
        lemma_likeness_range(x@.text, y@.text);
    }
    let h = likeness_of(x.href.as_slice(), y.href.as_slice());
    let t = likeness_of(x.text.as_slice(), y.text.as_slice());
    (h + t) / 2
}

/// Judges every link of a list, in the order of the page: the flag at
/// `i` says whether the link at `i` is navigation.
pub fn classify(links: &Vec<Link>, threshold: u32) -> (flags: Vec<bool>)
    ensures
        flags@.len() == links@.len(),
        forall|i: int|
            0 <= i < links@.len() ==> flags@[i] == boilerplate(views(links@), i, threshold),
{
    let ghost m = views(links@);
    let mut flags: Vec<bool> = Vec::new();
    let mut previous: bool = false;
    let mut i: usize = 0;
    while i < links.len()
        invariant
            i <= links.len(),
            m == views(links@),
            flags@.len() == i,
            forall|k: int| 0 <= k < i ==> flags@[k] == boilerplate(m, k, threshold),
            previous == (0 < i < links.len() && alike(similarity(m[i - 1], m[i as int]), threshold)),
        decreases links.len() - i,
    {
        let next: bool = if i + 1 < links.len() {
            assert(m[i as int] == links@[i as int]@);
            assert(m[i + 1] == links@[i + 1]@);
            similarity_of(&links[i], &links[i + 1]) >= threshold
        } else {
            false
        };
        flags.push(previous || next);
        previous = next;
        i += 1;
    }
    flags
}

/// The token is a link: a start tag `a` with an address.
pub open spec fn is_anchor(t: TokenModel) -> bool {
    hit(t, ProbeModel::Holding(text("a"), text("href")))
}

/// The link that the anchor at token `i` makes: its address, and its
/// visible text up to the end tag.
pub open spec fn link_at(tokens: Seq<TokenModel>, i: int) -> LinkModel {
    LinkModel {
        href: value_of(tokens[i], text("href")).unwrap(),
        text: text_until(tokens, i + 1, text("a")),
    }
}

/// The links among the first `n` tokens, in the order of the page.
pub open spec fn anchors(tokens: Seq<TokenModel>, n: int) -> Seq<LinkModel>
    decreases n,
{
    if n <= 0 {
        Seq::empty()
    } else if is_anchor(tokens[n - 1]) {
        anchors(tokens, n - 1).push(link_at(tokens, n - 1))
    } else {
        anchors(tokens, n - 1)
    }
}

/// Of the first `n` attributes those that are not named `name`.
pub open spec fn attrs_without(attrs: Seq<AttrModel>, name: Seq<u8>, n: int) -> Seq<AttrModel>
    decreases n,
{
    if n <= 0 {
        Seq::empty()
    } else if attrs[n - 1].name == name {
        attrs_without(attrs, name, n - 1)
    } else {
        attrs_without(attrs, name, n - 1).push(attrs[n - 1])
    }
}

/// The start tag without its address: what is left of a link that leads
/// nowhere. What the element holds is not touched.
pub open spec fn unlinked(t: TokenModel) -> TokenModel {
    match t {
        TokenModel::Open { name, attrs } => TokenModel::Open {
            name,
            attrs: attrs_without(attrs, text("href"), attrs.len() as int),
        },
        _ => t,
    }
}

/// The first `n` tokens after the filter: a link that is judged to be
/// navigation loses its address, every other token stays as it is.
pub open spec fn filtered_upto(tokens: Seq<TokenModel>, threshold: u32, n: int) -> Seq<TokenModel>
    decreases n,
{
    if n <= 0 {
        Seq::empty()
    } else {
        let t = tokens[n - 1];
        let all = anchors(tokens, tokens.len() as int);
        filtered_upto(tokens, threshold, n - 1).push(
            if is_anchor(t) && boilerplate(all, anchors(tokens, n - 1).len() as int, threshold) {
                unlinked(t)
            } else {
                t
            },
        )
    }
}

/// The page after the link filter. With the filter switched off the page
/// stays as it is.
pub open spec fn link_filtered(tokens: Seq<TokenModel>, strip: bool, threshold: u32) -> Seq<
    TokenModel,
> {
    if strip {
        filtered_upto(tokens, threshold, tokens.len() as int)
    } else {
        tokens
    }
}

/// The filter changes no token but links that are judged to be
/// navigation, and of those only the address.
pub proof fn lemma_filter_spares(tokens: Seq<TokenModel>, threshold: u32, n: int)
    requires
        0 <= n <= tokens.len(),
    ensures
        filtered_upto(tokens, threshold, n).len() == n,
        forall|i: int|
            0 <= i < n ==> (#[trigger] filtered_upto(tokens, threshold, n)[i]) == if is_anchor(
                tokens[i],
            ) && boilerplate(
                anchors(tokens, tokens.len() as int),
                anchors(tokens, i).len() as int,
                threshold,
            ) {
                unlinked(tokens[i])
            } else {
                tokens[i]
            },
    decreases n,
{
    if n > 0 {
        lemma_filter_spares(tokens, threshold, n - 1);
    }
}

/// The link of an anchor stands in the list of links at the place that
/// the anchors before it give it.
proof fn lemma_anchor_rank(tokens: Seq<TokenModel>, i: int, n: int)
    requires
        0 <= i < n <= tokens.len(),
        is_anchor(tokens[i]),
    ensures
        anchors(tokens, i).len() < anchors(tokens, n).len(),
        anchors(tokens, n)[anchors(tokens, i).len() as int] == link_at(tokens, i),
    decreases n - i,
{
    if i + 1 < n {
        lemma_anchor_rank(tokens, i, n - 1);
    }
}

/// Between two anchors that follow each other the rank grows by one.
proof fn lemma_next_rank(tokens: Seq<TokenModel>, i: int, j: int)
    requires
        0 <= i < j <= tokens.len(),
        is_anchor(tokens[i]),
        forall|k: int| i < k < j ==> !is_anchor(#[trigger] tokens[k]),
    ensures
        anchors(tokens, j).len() == anchors(tokens, i).len() + 1,
    decreases j - i,
{
    if i + 1 < j {
        lemma_next_rank(tokens, i, j - 1);
    }
}

/// Two links that follow each other in the page and are at least as
/// alike as the threshold says both lose their address: the threshold
/// is inclusive. Are they less alike, by however little, the first
/// keeps its address unless it is alike to the link before it.
pub proof fn lemma_boundary_in_page(tokens: Seq<TokenModel>, threshold: u32, i: int, j: int)
    requires
        0 <= i < j < tokens.len(),
        is_anchor(tokens[i]),
        is_anchor(tokens[j]),
        forall|k: int| i < k < j ==> !is_anchor(#[trigger] tokens[k]),
    ensures
        similarity(link_at(tokens, i), link_at(tokens, j)) >= threshold ==> link_filtered(
            tokens,
            true,
            threshold,
        )[i] == unlinked(tokens[i]) && link_filtered(tokens, true, threshold)[j] == unlinked(
            tokens[j],
        ),
        similarity(link_at(tokens, i), link_at(tokens, j)) < threshold ==> ({
            let all = anchors(tokens, tokens.len() as int);
            let r = anchors(tokens, i).len() as int;
            link_filtered(tokens, true, threshold)[i] == if r > 0 && alike(
                similarity(all[r - 1], all[r]),
                threshold,
            ) {
                unlinked(tokens[i])
            } else {
                tokens[i]
            }
        }),
{
    let n = tokens.len() as int;
    let all = anchors(tokens, n);
    lemma_anchor_rank(tokens, i, n);
    lemma_anchor_rank(tokens, j, n);
    lemma_next_rank(tokens, i, j);
    lemma_filter_spares(tokens, threshold, n);
    let r = anchors(tokens, i).len() as int;
    assert(all[r] == link_at(tokens, i));
    assert(all[r + 1] == link_at(tokens, j));
    if similarity(link_at(tokens, i), link_at(tokens, j)) >= threshold {
        assert(boilerplate(all, r, threshold));
        assert(boilerplate(all, r + 1, threshold));
    }
}

proof fn lemma_without_keeps_clean(attrs: Seq<AttrModel>, name: Seq<u8>, n: int)
    requires
        0 <= n <= attrs.len(),
        forall|k: int| 0 <= k < attrs.len() ==> kept_attr((#[trigger] attrs[k]).name),
    ensures
        forall|k: int|
            0 <= k < attrs_without(attrs, name, n).len() ==> kept_attr(
                (#[trigger] attrs_without(attrs, name, n)[k]).name,
            ),
    decreases n,
{
    if n > 0 {
        lemma_without_keeps_clean(attrs, name, n - 1);
        let before = attrs_without(attrs, name, n - 1);
        let after = attrs_without(attrs, name, n);
        assert forall|k: int| 0 <= k < after.len() implies kept_attr((#[trigger] after[k]).name) by {
            if k < before.len() {
                assert(after[k] == before[k]);
            }
        }
    }
}

/// The filter lets nothing into a page that the cleaning took out: a
/// clean page stays clean.
pub proof fn lemma_filter_keeps_clean(tokens: Seq<TokenModel>, strip: bool, threshold: u32)
    requires
        forall|k: int| 0 <= k < tokens.len() ==> clean_token(#[trigger] tokens[k]),
    ensures
        forall|k: int|
            0 <= k < link_filtered(tokens, strip, threshold).len() ==> clean_token(
                #[trigger] link_filtered(tokens, strip, threshold)[k],
            ),
{
    if strip {
        lemma_filter_spares(tokens, threshold, tokens.len() as int);
        let out = filtered_upto(tokens, threshold, tokens.len() as int);
        assert forall|k: int| 0 <= k < out.len() implies clean_token(#[trigger] out[k]) by {
            assert(clean_token(tokens[k]));
            match tokens[k] {
                TokenModel::Open { name, attrs } => {
                    lemma_without_keeps_clean(attrs, text("href"), attrs.len() as int);
                },
                _ => {},
            }
        }
    }
}

fn anchor(t: &Token) -> (r: bool)
    ensures
        r == is_anchor(t@),
{
    crate::extract::is_open(t, "a".as_bytes()) && value_in(t, "href".as_bytes()).is_some()
}

/// Gathers the links of a page.
pub fn collect_links(tokens: &Vec<Token>) -> (links: Vec<Link>)
    ensures
        views(links@) == anchors(views(tokens@), tokens@.len() as int),
{
    let ghost m = views(tokens@);
    let mut links: Vec<Link> = Vec::new();
    let mut i: usize = 0;
    assert(views(links@) =~= anchors(m, 0));
    while i < tokens.len()
        invariant
            i <= tokens.len(),
            m == views(tokens@),
            views(links@) == anchors(m, i as int),
        decreases tokens.len() - i,
    {
        assert(m[i as int] == tokens@[i as int]@);
        if anchor(&tokens[i]) {
            let href = match value_in(&tokens[i], "href".as_bytes()) {
                Some(v) => v.clone(),
                None => Vec::new(),
            };
            let link = Link { href, text: gather_text(tokens, i + 1, "a".as_bytes()) };
            proof {
                lemma_views_push(links@, link);
            }
            links.push(link);
        }
        i += 1;
    }
    links
}

fn strip_attr(attrs: &Vec<Attr>, name: &[u8]) -> (out: Vec<Attr>)
    ensures
        views(out@) == attrs_without(views(attrs@), name@, attrs@.len() as int),
{
    let ghost m = views(attrs@);
    let mut out: Vec<Attr> = Vec::new();
    let mut i: usize = 0;
    assert(views(out@) =~= attrs_without(m, name@, 0));
    while i < attrs.len()
        invariant
            i <= attrs.len(),
            m == views(attrs@),
            views(out@) == attrs_without(m, name@, i as int),
        decreases attrs.len() - i,
    {
        assert(m[i as int] == attrs@[i as int]@);
        if !crate::bytes::matches_all(attrs[i].name.as_slice(), name) {
            let c = crate::clean::copy_attr(&attrs[i]);
            proof {
                lemma_views_push(out@, c);
            }
            out.push(c);
        }
        i += 1;
    }
    out
}

fn unlink(t: &Token) -> (r: Token)
    ensures
        r@ == unlinked(t@),
{
    match t {
        Token::Open { name, attrs } => Token::Open {
            name: name.clone(),
            attrs: strip_attr(attrs, "href".as_bytes()),
        },
        _ => copy_token(t),
    }
}

/// Applies the link filter to a page.
pub fn filter_links(tokens: Vec<Token>, strip: bool, threshold: u32) -> (out: Vec<Token>)
    ensures
        views(out@) == link_filtered(views(tokens@), strip, threshold),
{
    if !strip {
        return tokens;
    }
    let ghost m = views(tokens@);
    let links = collect_links(&tokens);
    let flags = classify(&links, threshold);
    let mut out: Vec<Token> = Vec::new();
    let mut rank: usize = 0;
    let mut i: usize = 0;
    assert(views(out@) =~= filtered_upto(m, threshold, 0));
    while i < tokens.len()
        invariant
            i <= tokens.len(),
            m == views(tokens@),
            views(links@) == anchors(m, tokens@.len() as int),
            flags@.len() == links@.len(),
            forall|k: int|
                0 <= k < links@.len() ==> flags@[k] == boilerplate(views(links@), k, threshold),
            rank == anchors(m, i as int).len(),
            views(out@) == filtered_upto(m, threshold, i as int),
        decreases tokens.len() - i,
    {
        assert(m[i as int] == tokens@[i as int]@);
        let t = &tokens[i];
        let is_link = anchor(t);
        proof {
            lemma_anchors_grow(m, i + 1, tokens@.len() as int);
        }
        let c = if is_link && flags[rank] {
            unlink(t)
        } else {
            copy_token(t)
        };
        proof {
            lemma_views_push(out@, c);
        }
        out.push(c);
        if is_link {
            rank += 1;
        }
        i += 1;
    }
    out
}

proof fn lemma_anchors_grow(tokens: Seq<TokenModel>, i: int, n: int)
    requires
        0 <= i <= n,
    ensures
        anchors(tokens, i).len() <= anchors(tokens, n).len(),
    decreases n - i,
{
    if i < n {
        lemma_anchors_grow(tokens, i, n - 1);
    }
}

} // verus!
