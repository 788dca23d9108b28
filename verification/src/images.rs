//! The images of a page: which of them go into the book, as what
//! files, and how the page refers to them afterwards.

use crate::archive::{Resource, ResourceModel};
use crate::bytes::{append_decimal, append_str, decimal, lemma_views_push, matches_all, text, views};
use crate::clean::{clean_token, copy_attr, copy_token, kept_attr};
use crate::config::{ImageFormat, ImageHandling};
use crate::extract::{find_hit, first_hit, is_open, opens, value_in, value_of, Probe, ProbeModel};
use crate::html::{Attr, AttrModel, Token, TokenModel};
use crate::raster::{transcode, transcoded, ImageSettings, Outcome, OutcomeModel};
use crate::zip::{Entry, EntryModel};
use vstd::prelude::*;

verus! {

/// The index of the first resource at or after `i` that has the key.
pub open spec fn lookup(resources: Seq<ResourceModel>, key: Seq<u8>, i: int) -> Option<int>
    decreases resources.len() - i,
{
    if i < 0 || i >= resources.len() {
        None
    } else if resources[i].key == key {
        Some(i)
    } else {
        lookup(resources, key, i + 1)
    }
}

/// The page shows an image with this address.
pub open spec fn shows(tokens: Seq<TokenModel>, key: Seq<u8>) -> bool {
    first_hit(tokens, ProbeModel::Matching(text("img"), text("src"), key), 0).is_some()
}

/// The book needs the image with this address: the page shows it, or it
/// is the cover.
pub open spec fn wanted(tokens: Seq<TokenModel>, cover: Option<Seq<u8>>, key: Seq<u8>) -> bool {
    shows(tokens, key) || cover == Some(key)
}

/// What becomes of resource `j` as an image of the book. A resource that
/// the book does not need, or whose key an earlier resource has, is
/// removed unread.
pub open spec fn image_outcome(
    resources: Seq<ResourceModel>,
    tokens: Seq<TokenModel>,
    cover: Option<Seq<u8>>,
    s: ImageSettings,
    j: int,
) -> OutcomeModel {
    if lookup(resources, resources[j].key, 0) == Some(j) && wanted(tokens, cover, resources[j].key) {
        transcoded(resources[j].data, s)
    } else {
        OutcomeModel::Removed
    }
}

/// The ending that files of a format have.
pub open spec fn ending(format: ImageFormat) -> Seq<u8> {
    match format {
        ImageFormat::Jpeg(q) => text(".jpg"),
        ImageFormat::Png => text(".png"),
    }
}

/// The path, within the book, of its image number `k`.
pub open spec fn image_path(k: nat, format: ImageFormat) -> Seq<u8> {
    text("images/img") + decimal(k) + ending(format)
}

/// The images of a book: their files, in the order of the archive; for
/// every resource the number of its file, if it has one; and how many
/// images could not be read or written.
pub struct Gallery {
    pub files: Vec<Entry>,
    pub numbers: Vec<Option<usize>>,
    pub failures: usize,
}

/// The mathematical content of a [`Gallery`].
pub struct GalleryModel {
    pub files: Seq<EntryModel>,
    pub numbers: Seq<Option<usize>>,
    pub failures: nat,
}

impl View for Gallery {
    type V = GalleryModel;

    open spec fn view(&self) -> GalleryModel {
        GalleryModel {
            files: views(self.files@),
            numbers: self.numbers@,
            failures: self.failures as nat,
        }
    }
}

/// The gallery after the first `n` resources.
pub open spec fn gallery(
    resources: Seq<ResourceModel>,
    tokens: Seq<TokenModel>,
    cover: Option<Seq<u8>>,
    s: ImageSettings,
    n: int,
) -> GalleryModel
    decreases n,
{
    if n <= 0 {
        GalleryModel { files: Seq::empty(), numbers: Seq::empty(), failures: 0 }
    } else {
        let g = gallery(resources, tokens, cover, s, n - 1);
        match image_outcome(resources, tokens, cover, s, n - 1) {
            OutcomeModel::Kept(file) => GalleryModel {
                files: g.files.push(
                    EntryModel { name: image_path(g.files.len(), s.format), data: file },
                ),
                numbers: g.numbers.push(Some(g.files.len() as usize)),
                failures: g.failures,
            },
            OutcomeModel::Removed => GalleryModel {
                files: g.files,
                numbers: g.numbers.push(None),
                failures: g.failures,
            },
            OutcomeModel::Failed => GalleryModel {
                files: g.files,
                numbers: g.numbers.push(None),
                failures: g.failures + 1,
            },
        }
    }
}

/// The number of the file that stands for the image with this address.
pub open spec fn placed(
    resources: Seq<ResourceModel>,
    numbers: Seq<Option<usize>>,
    key: Seq<u8>,
) -> Option<usize> {
    match lookup(resources, key, 0) {
        Some(j) => if j < numbers.len() {
            numbers[j]
        } else {
            None
        },
        None => None,
    }
}

/// The first `n` attributes, with `path` as the value of `src`.
pub open spec fn with_src(attrs: Seq<AttrModel>, path: Seq<u8>, n: int) -> Seq<AttrModel>
    decreases n,
{
    if n <= 0 {
        Seq::empty()
    } else if attrs[n - 1].name == text("src") {
        with_src(attrs, path, n - 1).push(AttrModel { name: attrs[n - 1].name, value: path })
    } else {
        with_src(attrs, path, n - 1).push(attrs[n - 1])
    }
}

/// What an image tag becomes: the tag with the path of its file as
/// source, where the image has a file, and nothing otherwise.
pub open spec fn image_tag(
    t: TokenModel,
    resources: Seq<ResourceModel>,
    numbers: Seq<Option<usize>>,
    format: ImageFormat,
) -> Option<TokenModel> {
    match t {
        TokenModel::Open { name, attrs } => match value_of(t, text("src")) {
            Some(key) => match placed(resources, numbers, key) {
                Some(k) => Some(
                    TokenModel::Open {
                        name,
                        attrs: with_src(attrs, image_path(k as nat, format), attrs.len() as int),
                    },
                ),
                None => None,
            },
            None => None,
        },
        _ => None,
    }
}

/// The first `n` tokens with the images of the book in place: every
/// image tag refers to its file or is gone, every other token stays.
pub open spec fn imaged_upto(
    tokens: Seq<TokenModel>,
    resources: Seq<ResourceModel>,
    numbers: Seq<Option<usize>>,
    format: ImageFormat,
    n: int,
) -> Seq<TokenModel>
    decreases n,
{
    if n <= 0 {
        Seq::empty()
    } else {
        let before = imaged_upto(tokens, resources, numbers, format, n - 1);
        let t = tokens[n - 1];
        if opens(t, text("img")) {
            match image_tag(t, resources, numbers, format) {
                Some(tag) => before.push(tag),
                None => before,
            }
        } else {
            before.push(t)
        }
    }
}

/// The page with the images of the book in place.
pub open spec fn imaged(
    tokens: Seq<TokenModel>,
    resources: Seq<ResourceModel>,
    numbers: Seq<Option<usize>>,
    format: ImageFormat,
) -> Seq<TokenModel> {
    imaged_upto(tokens, resources, numbers, format, tokens.len() as int)
}

/// Where every image is removed, the book holds no image file and no
/// resource has a number, whatever the page and the archive hold.
pub proof fn lemma_strip_empties(
    resources: Seq<ResourceModel>,
    tokens: Seq<TokenModel>,
    cover: Option<Seq<u8>>,
    s: ImageSettings,
    n: int,
)
    requires
        s.handling == ImageHandling::Strip,
        0 <= n,
    ensures
        gallery(resources, tokens, cover, s, n).files.len() == 0,
        gallery(resources, tokens, cover, s, n).failures == 0,
        gallery(resources, tokens, cover, s, n).numbers.len() == n,
        forall|j: int| 0 <= j < n ==> gallery(resources, tokens, cover, s, n).numbers[j].is_none(),
    decreases n,
{
    if n > 0 {
        lemma_strip_empties(resources, tokens, cover, s, n - 1);
    }
}

/// A resource that is found has the key, and none before it has.
pub proof fn lemma_lookup(resources: Seq<ResourceModel>, key: Seq<u8>, i: int)
    requires
        0 <= i,
    ensures
        lookup(resources, key, i) matches Some(j) ==> i <= j < resources.len() && resources[j].key
            == key,
    decreases resources.len() - i,
{
    if i < resources.len() && resources[i].key != key {
        lemma_lookup(resources, key, i + 1);
    }
}

/// Where no resource has a number, no image tag is left in the page.
pub proof fn lemma_no_image_left(
    tokens: Seq<TokenModel>,
    resources: Seq<ResourceModel>,
    numbers: Seq<Option<usize>>,
    format: ImageFormat,
    n: int,
)
    requires
        0 <= n <= tokens.len(),
        forall|j: int| 0 <= j < numbers.len() ==> numbers[j].is_none(),
    ensures
        forall|k: int|
            0 <= k < imaged_upto(tokens, resources, numbers, format, n).len() ==> !opens(
                #[trigger] imaged_upto(tokens, resources, numbers, format, n)[k],
                text("img"),
            ),
    decreases n,
{
    if n > 0 {
        lemma_no_image_left(tokens, resources, numbers, format, n - 1);
        let before = imaged_upto(tokens, resources, numbers, format, n - 1);
        let after = imaged_upto(tokens, resources, numbers, format, n);
        assert forall|k: int| 0 <= k < after.len() implies !opens(
            #[trigger] after[k],
            text("img"),
        ) by {
            if k < before.len() {
                assert(after[k] == before[k]);
            } else {
                let t = tokens[n - 1];
                if opens(t, text("img")) {
                    match value_of(t, text("src")) {
                        Some(key) => {
                            lemma_lookup(resources, key, 0);
                            match lookup(resources, key, 0) {
                                Some(j) => {
                                    if 0 <= j < numbers.len() {
                                        assert(numbers[j].is_none());
                                    }
                                },
                                None => {},
                            }
                            assert(placed(resources, numbers, key).is_none());
                        },
                        None => {},
                    }
                    assert(image_tag(t, resources, numbers, format).is_none());
                }
            }
        }
    }
}

/// The gallery has a number for each resource, every number names a
/// file, and there are no more files than resources.
pub proof fn lemma_gallery(
    resources: Seq<ResourceModel>,
    tokens: Seq<TokenModel>,
    cover: Option<Seq<u8>>,
    s: ImageSettings,
    n: int,
)
    requires
        0 <= n,
    ensures
        gallery(resources, tokens, cover, s, n).numbers.len() == n,
        gallery(resources, tokens, cover, s, n).files.len() + gallery(
            resources,
            tokens,
            cover,
            s,
            n,
        ).failures <= n,
        forall|j: int|
            0 <= j < n ==> (#[trigger] gallery(resources, tokens, cover, s, n).numbers[j]
                matches Some(k) ==> k < gallery(resources, tokens, cover, s, n).files.len()),
    decreases n,
{
    if n > 0 {
        lemma_gallery(resources, tokens, cover, s, n - 1);
        let before = gallery(resources, tokens, cover, s, n - 1);
        let after = gallery(resources, tokens, cover, s, n);
        assert forall|j: int| 0 <= j < n implies (#[trigger] after.numbers[j] matches Some(k)
            ==> k < after.files.len()) by {
            if j < n - 1 {
                assert(after.numbers[j] == before.numbers[j]);
            }
        }
    }
}

/// What the gallery holds for a resource does not change as further
/// resources are looked at.
pub proof fn lemma_gallery_grows(
    resources: Seq<ResourceModel>,
    tokens: Seq<TokenModel>,
    cover: Option<Seq<u8>>,
    s: ImageSettings,
    m: int,
    n: int,
)
    requires
        0 <= m <= n,
    ensures
        gallery(resources, tokens, cover, s, m).files.len() <= gallery(
            resources,
            tokens,
            cover,
            s,
            n,
        ).files.len(),
        forall|k: int|
            0 <= k < gallery(resources, tokens, cover, s, m).files.len() ==> gallery(
                resources,
                tokens,
                cover,
                s,
                n,
            ).files[k] == gallery(resources, tokens, cover, s, m).files[k],
        forall|j: int|
            0 <= j < m ==> gallery(resources, tokens, cover, s, n).numbers[j] == gallery(
                resources,
                tokens,
                cover,
                s,
                m,
            ).numbers[j],
    decreases n - m,
{
    if m < n {
        lemma_gallery_grows(resources, tokens, cover, s, m, n - 1);
        lemma_gallery(resources, tokens, cover, s, m);
        lemma_gallery(resources, tokens, cover, s, n - 1);
    }
}

/// A resource that the book does not need has no file in it, whatever
/// the policy is.
pub proof fn lemma_unwanted_left_out(
    resources: Seq<ResourceModel>,
    tokens: Seq<TokenModel>,
    cover: Option<Seq<u8>>,
    s: ImageSettings,
    j: int,
)
    requires
        0 <= j < resources.len(),
        !wanted(tokens, cover, resources[j].key),
    ensures
        gallery(resources, tokens, cover, s, resources.len() as int).numbers[j].is_none(),
{
    let n = resources.len() as int;
    lemma_gallery(resources, tokens, cover, s, j);
    lemma_gallery(resources, tokens, cover, s, j + 1);
    lemma_gallery_grows(resources, tokens, cover, s, j + 1, n);
}

/// A resource that the book needs, that is the first of its key, and
/// whose image is kept has a file in the book: the one that the policy
/// makes of it, under the path of its number.
pub proof fn lemma_kept_has_file(
    resources: Seq<ResourceModel>,
    tokens: Seq<TokenModel>,
    cover: Option<Seq<u8>>,
    s: ImageSettings,
    j: int,
    file: Seq<u8>,
)
    requires
        0 <= j < resources.len() <= usize::MAX,
        lookup(resources, resources[j].key, 0) == Some(j),
        wanted(tokens, cover, resources[j].key),
        transcoded(resources[j].data, s) == OutcomeModel::Kept(file),
    ensures
        ({
            let g = gallery(resources, tokens, cover, s, resources.len() as int);
            &&& g.numbers.len() == resources.len()
            &&& g.numbers[j] matches Some(k) && k < g.files.len() && g.files[k as int]
                == (EntryModel { name: image_path(k as nat, s.format), data: file })
        }),
{
    let n = resources.len() as int;
    lemma_gallery(resources, tokens, cover, s, n);
    lemma_gallery(resources, tokens, cover, s, j);
    lemma_gallery(resources, tokens, cover, s, j + 1);
    lemma_gallery_grows(resources, tokens, cover, s, j + 1, n);
    let before = gallery(resources, tokens, cover, s, j);
    let after = gallery(resources, tokens, cover, s, j + 1);
    assert(after.numbers[j] == Some(before.files.len() as usize));
    assert(after.files[before.files.len() as int] == (EntryModel {
        name: image_path(before.files.len(), s.format),
        data: file,
    }));
}

proof fn lemma_src_keeps_clean(attrs: Seq<AttrModel>, path: Seq<u8>, n: int)
    requires
        0 <= n <= attrs.len(),
        forall|k: int| 0 <= k < attrs.len() ==> kept_attr((#[trigger] attrs[k]).name),
    ensures
        forall|k: int|
            0 <= k < with_src(attrs, path, n).len() ==> kept_attr(
                (#[trigger] with_src(attrs, path, n)[k]).name,
            ),
    decreases n,
{
    if n > 0 {
        lemma_src_keeps_clean(attrs, path, n - 1);
        let before = with_src(attrs, path, n - 1);
        let after = with_src(attrs, path, n);
        assert forall|k: int| 0 <= k < after.len() implies kept_attr((#[trigger] after[k]).name) by {
            if k < before.len() {
                assert(after[k] == before[k]);
            }
        }
    }
}

/// Putting the images in place lets nothing into a page that the
/// cleaning took out: a clean page stays clean.
pub proof fn lemma_images_keep_clean(
    tokens: Seq<TokenModel>,
    resources: Seq<ResourceModel>,
    numbers: Seq<Option<usize>>,
    format: ImageFormat,
    n: int,
)
    requires
        0 <= n <= tokens.len(),
        forall|k: int| 0 <= k < tokens.len() ==> clean_token(#[trigger] tokens[k]),
    ensures
        forall|k: int|
            0 <= k < imaged_upto(tokens, resources, numbers, format, n).len() ==> clean_token(
                #[trigger] imaged_upto(tokens, resources, numbers, format, n)[k],
            ),
    decreases n,
{
    if n > 0 {
        lemma_images_keep_clean(tokens, resources, numbers, format, n - 1);
        let before = imaged_upto(tokens, resources, numbers, format, n - 1);
        let after = imaged_upto(tokens, resources, numbers, format, n);
        let t = tokens[n - 1];
        assert(clean_token(t));
        match t {
            TokenModel::Open { name, attrs } => {
                match value_of(t, text("src")) {
                    Some(key) => match placed(resources, numbers, key) {
                        Some(k) => {
                            lemma_src_keeps_clean(
                                attrs,
                                image_path(k as nat, format),
                                attrs.len() as int,
                            );
                        },
                        None => {},
                    },
                    None => {},
                }
            },
            _ => {},
        }
        assert forall|k: int| 0 <= k < after.len() implies clean_token(#[trigger] after[k]) by {
            if k < before.len() {
                assert(after[k] == before[k]);
            }
        }
    }
}

/// Finds the first resource with the key.
pub fn lookup_of(resources: &Vec<Resource>, key: &[u8]) -> (r: Option<usize>)
    ensures
        r.is_some() == lookup(views(resources@), key@, 0).is_some(),
        r matches Some(j) ==> lookup(views(resources@), key@, 0) == Some(j as int) && j
            < resources@.len(),
{
    let ghost m = views(resources@);
    let mut i: usize = 0;
    while i < resources.len()
        invariant
            i <= resources.len(),
            m == views(resources@),
            lookup(m, key@, 0) == lookup(m, key@, i as int),
        decreases resources.len() - i,
    {
        assert(m[i as int] == resources@[i as int]@);
        if matches_all(resources[i].key.as_slice(), key) {
            return Some(i);
        }
        i += 1;
    }
    None
}

fn is_wanted(tokens: &Vec<Token>, cover: &Option<Vec<u8>>, key: &[u8]) -> (r: bool)
    ensures
        r == wanted(views(tokens@), crate::extract::maybe(*cover), key@),
{
    if find_hit(tokens, &Probe::Matching("img".as_bytes(), "src".as_bytes(), key), 0).is_some() {
        return true;
    }
    match cover {
        Some(c) => matches_all(c.as_slice(), key),
        None => false,
    }
}

/// Writes the path of image number `k`.
pub fn path_of(k: usize, format: ImageFormat) -> (out: Vec<u8>)
    ensures
        out@ == image_path(k as nat, format),
{
    let mut out: Vec<u8> = Vec::new();
    append_str(&mut out, "images/img");
    append_decimal(&mut out, k);
    match format {
        ImageFormat::Jpeg(q) => append_str(&mut out, ".jpg"),
        ImageFormat::Png => append_str(&mut out, ".png"),
    }
    assert(out@ =~= image_path(k as nat, format));
    out
}

/// Applies the image policy to the resources that the book needs.
pub fn build_gallery(
    resources: &Vec<Resource>,
    tokens: &Vec<Token>,
    cover: &Option<Vec<u8>>,
    s: ImageSettings,
) -> (g: Gallery)
    requires
        s.valid(),
    ensures
        g@ == gallery(
            views(resources@),
            views(tokens@),
            crate::extract::maybe(*cover),
            s,
            resources@.len() as int,
        ),
{
    let ghost r = views(resources@);
    let ghost t = views(tokens@);
    let ghost c = crate::extract::maybe(*cover);
    let mut files: Vec<Entry> = Vec::new();
    let mut numbers: Vec<Option<usize>> = Vec::new();
    let mut failures: usize = 0;
    let mut j: usize = 0;
    assert(views(files@) =~= gallery(r, t, c, s, 0).files);
    while j < resources.len()
        invariant
            j <= resources.len(),
            s.valid(),
            r == views(resources@),
            t == views(tokens@),
            c == crate::extract::maybe(*cover),
            views(files@) == gallery(r, t, c, s, j as int).files,
            numbers@ == gallery(r, t, c, s, j as int).numbers,
            failures == gallery(r, t, c, s, j as int).failures,
        decreases resources.len() - j,
    {
        assert(r[j as int] == resources@[j as int]@);
        proof {
            lemma_gallery(r, t, c, s, j as int);
        }
        let res = &resources[j];
        let first = match lookup_of(resources, res.key.as_slice()) {
            Some(f) => f == j,
            None => false,
        };
        let outcome = if first && is_wanted(tokens, cover, res.key.as_slice()) {
            transcode(res.data.as_slice(), s)
        } else {
            Outcome::Removed
        };
        match outcome {
            Outcome::Kept(file) => {
                let k = files.len();
                let e = Entry { name: path_of(k, s.format), data: file };
                proof {
                    lemma_views_push(files@, e);
                }
                files.push(e);
                numbers.push(Some(k));
            },
            Outcome::Removed => {
                numbers.push(None);
            },
            Outcome::Failed => {
                numbers.push(None);
                failures += 1;
            },
        }
        j += 1;
    }
    Gallery { files, numbers, failures }
}

fn set_src(attrs: &Vec<Attr>, path: &[u8]) -> (out: Vec<Attr>)
    ensures
        views(out@) == with_src(views(attrs@), path@, attrs@.len() as int),
{
    let ghost m = views(attrs@);
    let mut out: Vec<Attr> = Vec::new();
    let mut i: usize = 0;
    assert(views(out@) =~= with_src(m, path@, 0));
    while i < attrs.len()
        invariant
            i <= attrs.len(),
            m == views(attrs@),
            views(out@) == with_src(m, path@, i as int),
        decreases attrs.len() - i,
    {
        assert(m[i as int] == attrs@[i as int]@);
        let a = if matches_all(attrs[i].name.as_slice(), "src".as_bytes()) {
            Attr { name: attrs[i].name.clone(), value: crate::bytes::copy_range(path, 0, path.len()) }
        } else {
            copy_attr(&attrs[i])
        };
        proof {
            lemma_views_push(out@, a);
            assert(path@.subrange(0, path@.len() as int) =~= path@);
        }
        out.push(a);
        i += 1;
    }
    out
}

fn place_image(
    t: &Token,
    resources: &Vec<Resource>,
    numbers: &Vec<Option<usize>>,
    format: ImageFormat,
) -> (r: Option<Token>)
    ensures
        r.is_some() == image_tag(t@, views(resources@), numbers@, format).is_some(),
        r matches Some(tag) ==> image_tag(t@, views(resources@), numbers@, format) == Some(tag@),
{
    match t {
        Token::Open { name, attrs } => {
            let key = match value_in(t, "src".as_bytes()) {
                Some(key) => key,
                None => {
                    return None;
                },
            };
            let j = match lookup_of(resources, key.as_slice()) {
                Some(j) => j,
                None => {
                    return None;
                },
            };
            if j >= numbers.len() {
                return None;
            }
            match numbers[j] {
                Some(k) => {
                    let path = path_of(k, format);
                    Some(Token::Open { name: name.clone(), attrs: set_src(attrs, path.as_slice()) })
                },
                None => None,
            }
        },
        _ => None,
    }
}

/// Puts the images of the book in place in the page.
pub fn place_images(
    tokens: &Vec<Token>,
    resources: &Vec<Resource>,
    numbers: &Vec<Option<usize>>,
    format: ImageFormat,
) -> (out: Vec<Token>)
    ensures
        views(out@) == imaged(views(tokens@), views(resources@), numbers@, format),
{
    let ghost m = views(tokens@);
    let ghost r = views(resources@);
    let mut out: Vec<Token> = Vec::new();
    let mut i: usize = 0;
    assert(views(out@) =~= imaged_upto(m, r, numbers@, format, 0));
    while i < tokens.len()
        invariant
            i <= tokens.len(),
            m == views(tokens@),
            r == views(resources@),
            views(out@) == imaged_upto(m, r, numbers@, format, i as int),
        decreases tokens.len() - i,
    {
        assert(m[i as int] == tokens@[i as int]@);
        let t = &tokens[i];
        if is_open(t, "img".as_bytes()) {
            match place_image(t, resources, numbers, format) {
                Some(tag) => {
                    proof {
                        lemma_views_push(out@, tag);
                    }
                    out.push(tag);
                },
                None => {},
            }
        } else {
            let c = copy_token(t);
            proof {
                lemma_views_push(out@, c);
            }
            out.push(c);
        }
        i += 1;
    }
    out
}

} // verus!
