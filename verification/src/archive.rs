//! Web-page archives: one MIME multipart message that holds a page and
//! what the page refers to.

use crate::bytes::{append, lemma_views_push, lowered, matches_all, text, views};
use crate::mime::{
    body_of, body_start_of, field, field_of, head_end_of, head_of, media_type, media_type_of,
    param, param_of, parts, parts_of, Span,
};
use crate::transfer::{decode_transfer, transfer_decoded, TransferEncoding};
use vstd::prelude::*;
use vstd::slice::{slice_subrange, slice_to_vec};
use vstd::utf8::valid_utf8;

verus! {

/// One part of an archive, as its header fields describe it, with its
/// body as it stands in the archive.
pub struct Part {
    pub media: Vec<u8>,
    pub encoding: Option<TransferEncoding>,
    pub key: Vec<u8>,
    pub body: Vec<u8>,
}

/// The mathematical content of a [`Part`].
pub struct PartModel {
    pub media: Seq<u8>,
    pub encoding: Option<TransferEncoding>,
    pub key: Seq<u8>,
    pub body: Seq<u8>,
}

impl View for Part {
    type V = PartModel;

    open spec fn view(&self) -> PartModel {
        PartModel { media: self.media@, encoding: self.encoding, key: self.key@, body: self.body@ }
    }
}

/// Something that the page refers to.
pub struct Resource {
    /// The address under which the page refers to it.
    pub key: Vec<u8>,
    /// Its media type, in lower case.
    pub mime: Vec<u8>,
    /// Its content, decoded.
    pub data: Vec<u8>,
}

/// The mathematical content of a [`Resource`].
pub struct ResourceModel {
    pub key: Seq<u8>,
    pub mime: Seq<u8>,
    pub data: Seq<u8>,
}

impl View for Resource {
    type V = ResourceModel;

    open spec fn view(&self) -> ResourceModel {
        ResourceModel { key: self.key@, mime: self.mime@, data: self.data@ }
    }
}

/// A parsed archive: the page, its address, and what it refers to.
pub struct Archive {
    /// The address that the page was saved from; empty where none is given.
    pub url: Vec<u8>,
    /// The page itself: HTML, in UTF-8.
    pub root: Vec<u8>,
    /// The other parts, in the order of the archive.
    pub resources: Vec<Resource>,
}

/// The mathematical content of an [`Archive`].
pub struct ArchiveModel {
    pub url: Seq<u8>,
    pub root: Seq<u8>,
    pub resources: Seq<ResourceModel>,
}

impl View for Archive {
    type V = ArchiveModel;

    open spec fn view(&self) -> ArchiveModel {
        ArchiveModel { url: self.url@, root: self.root@, resources: views(self.resources@) }
    }
}

/// Why an archive cannot be read.
#[derive(Clone, Copy, Debug, PartialEq, Eq, Structural)]
pub enum ParseError {
    /// The message names no boundary, so it has no parts.
    MissingBoundary,
    /// No part is an HTML page.
    MissingRootDocument,
    /// A part cannot be decoded, or the page is not UTF-8.
    InvalidEncoding,
}

/// The encoding that a `Content-Transfer-Encoding` value names, given in
/// lower case.
pub open spec fn encoding_named(name: Seq<u8>) -> Option<TransferEncoding> {
    if name == text("base64") {
        Some(TransferEncoding::Base64)
    } else if name == text("quoted-printable") {
        Some(TransferEncoding::QuotedPrintable)
    } else if name == text("7bit") || name == text("8bit") || name == text("binary") {
        Some(TransferEncoding::Identity)
    } else {
        None
    }
}

/// A content id without the angle brackets around it.
pub open spec fn bare_id(v: Seq<u8>) -> Seq<u8> {
    if v.len() >= 2 && v[0] == 60 && v[v.len() - 1] == 62 {
        v.subrange(1, v.len() - 1)
    } else {
        v
    }
}

/// The address under which a part is referred to: its location, or where
/// it gives none, `cid:` and its content id, or nothing.
pub open spec fn part_key(h: Seq<u8>) -> Seq<u8> {
    match field(h, text("content-location")) {
        Some(v) if v.len() > 0 => v,
        _ => match field(h, text("content-id")) {
            Some(id) => text("cid:") + bare_id(id),
            None => Seq::empty(),
        },
    }
}

/// The part that a stretch of the archive holds. A part without a
/// content type is plain text; one without a transfer encoding stands
/// as it is.
pub open spec fn part(raw: Seq<u8>) -> PartModel {
    let h = head_of(raw);
    PartModel {
        media: match field(h, text("content-type")) {
            Some(v) => media_type(v),
            None => text("text/plain"),
        },
        encoding: match field(h, text("content-transfer-encoding")) {
            Some(v) => encoding_named(crate::bytes::lower_seq(v)),
            None => Some(TransferEncoding::Identity),
        },
        key: part_key(h),
        body: body_of(raw),
    }
}

/// The boundary that the message names, where it names one.
pub open spec fn boundary_of(bytes: Seq<u8>) -> Option<Seq<u8>> {
    match field(head_of(bytes), text("content-type")) {
        None => None,
        Some(v) => match param(v, text("boundary")) {
            Some(b) if b.len() > 0 => Some(b),
            _ => None,
        },
    }
}

/// The parts of a message with the given boundary, in order.
pub open spec fn part_list(bytes: Seq<u8>, boundary: Seq<u8>) -> Seq<PartModel> {
    let body = body_of(bytes);
    let list = parts(body, boundary);
    Seq::new(list.len(), |i: int| part(body.subrange(list[i].start as int, list[i].end as int)))
}

/// The part is an HTML page.
pub open spec fn is_page(p: PartModel) -> bool {
    p.media == text("text/html")
}

/// The index of the first HTML page among the parts from `i` on.
pub open spec fn first_page(list: Seq<PartModel>, i: int) -> Option<int>
    decreases list.len() - i,
{
    if i < 0 || i >= list.len() {
        None
    } else if is_page(list[i]) {
        Some(i)
    } else {
        first_page(list, i + 1)
    }
}

/// The content of a part: its body, decoded. A part whose encoding is
/// unknown has none.
pub open spec fn content(p: PartModel) -> Option<Seq<u8>> {
    match p.encoding {
        Some(e) => transfer_decoded(e, p.body),
        None => None,
    }
}

/// Every part can be decoded.
pub open spec fn all_decodable(list: Seq<PartModel>) -> bool {
    forall|i: int| 0 <= i < list.len() ==> (#[trigger] content(list[i])).is_some()
}

/// The first `n` parts but the page at `root`, as resources.
pub open spec fn resources_upto(list: Seq<PartModel>, root: int, n: int) -> Seq<ResourceModel>
    decreases n,
{
    if n <= 0 {
        Seq::empty()
    } else if n - 1 == root {
        resources_upto(list, root, n - 1)
    } else {
        resources_upto(list, root, n - 1).push(
            ResourceModel {
                key: list[n - 1].key,
                mime: list[n - 1].media,
                data: content(list[n - 1]).unwrap(),
            },
        )
    }
}

/// The address that the page was saved from: the one that the message
/// gives, or else the location of the page's part.
pub open spec fn source_url(bytes: Seq<u8>, page: PartModel) -> Seq<u8> {
    match field(head_of(bytes), text("snapshot-content-location")) {
        Some(v) => v,
        None => page.key,
    }
}

/// What an archive holds, or why it cannot be read. An archive needs a
/// boundary and, among its parts, an HTML page: the first such part is
/// the page. Only then are the parts decoded; all must be decodable, and
/// the page must be UTF-8.
pub open spec fn parsed(bytes: Seq<u8>) -> Result<ArchiveModel, ParseError> {
    match boundary_of(bytes) {
        None => Err(ParseError::MissingBoundary),
        Some(boundary) => {
            let list = part_list(bytes, boundary);
            match first_page(list, 0) {
                None => Err(ParseError::MissingRootDocument),
                Some(root) => if !all_decodable(list) || !valid_utf8(
                    content(list[root]).unwrap(),
                ) {
                    Err(ParseError::InvalidEncoding)
                } else {
                    Ok(
                        ArchiveModel {
                            url: source_url(bytes, list[root]),
                            root: content(list[root]).unwrap(),
                            resources: resources_upto(list, root, list.len() as int),
                        },
                    )
                },
            }
        },
    }
}

/// None of the parts is an HTML page.
pub open spec fn no_page(list: Seq<PartModel>) -> bool {
    forall|i: int| 0 <= i < list.len() ==> !is_page(#[trigger] list[i])
}

/// The page that is found is an HTML part, and no part before it is.
pub proof fn lemma_first_page(list: Seq<PartModel>, i: int)
    requires
        0 <= i,
    ensures
        match first_page(list, i) {
            Some(r) => i <= r < list.len() && is_page(list[r]),
            None => forall|k: int| i <= k < list.len() ==> !is_page(#[trigger] list[k]),
        },
    decreases list.len() - i,
{
    if i < list.len() && !is_page(list[i]) {
        lemma_first_page(list, i + 1);
    }
}

/// An archive without an HTML part is refused for that, whatever else it
/// holds; and so is one without parts.
pub proof fn lemma_page_required(bytes: Seq<u8>)
    ensures
        match boundary_of(bytes) {
            Some(boundary) => no_page(part_list(bytes, boundary)) <==> parsed(bytes) == Err::<
                ArchiveModel,
                ParseError,
            >(ParseError::MissingRootDocument),
            None => parsed(bytes) == Err::<ArchiveModel, ParseError>(ParseError::MissingBoundary),
        },
{
    match boundary_of(bytes) {
        Some(boundary) => {
            lemma_first_page(part_list(bytes, boundary), 0);
        },
        None => {},
    }
}

/// Calls `core::str::from_utf8` and says whether it accepted the bytes,
/// which it does exactly for well-formed UTF-8.
#[verifier::external_body]
pub(crate) fn is_utf8(bytes: &[u8]) -> (ok: bool)
    ensures
        ok == valid_utf8(bytes@),
{
    core::str::from_utf8(bytes).is_ok()
}

fn encoding_of(name: &[u8]) -> (r: Option<TransferEncoding>)
    ensures
        r == encoding_named(name@),
{
    if matches_all(name, "base64".as_bytes()) {
        Some(TransferEncoding::Base64)
    } else if matches_all(name, "quoted-printable".as_bytes()) {
        Some(TransferEncoding::QuotedPrintable)
    } else if matches_all(name, "7bit".as_bytes()) || matches_all(name, "8bit".as_bytes())
        || matches_all(name, "binary".as_bytes()) {
        Some(TransferEncoding::Identity)
    } else {
        None
    }
}

fn key_of(h: &[u8]) -> (key: Vec<u8>)
    ensures
        key@ == part_key(h@),
{
    match field_of(h, "content-location".as_bytes()) {
        Some(v) => {
            if v.len() > 0 {
                return v;
            }
        },
        None => {},
    }
    match field_of(h, "content-id".as_bytes()) {
        Some(id) => {
            let mut key: Vec<u8> = Vec::new();
            append(&mut key, "cid:".as_bytes());
            let n = id.len();
            if n >= 2 && id[0] == 60 && id[n - 1] == 62 {
                append(&mut key, slice_subrange(id.as_slice(), 1, n - 1));
            } else {
                append(&mut key, id.as_slice());
            }
            assert(key@ =~= text("cid:") + bare_id(id@));
            key
        },
        None => Vec::new(),
    }
}

/// Reads one part of an archive.
pub fn read_part(raw: &[u8]) -> (p: Part)
    ensures
        p@ == part(raw@),
{
    let e = head_end_of(raw);
    let b = body_start_of(raw);
    let h = slice_subrange(raw, 0, e);
    let media = match field_of(h, "content-type".as_bytes()) {
        Some(v) => media_type_of(v.as_slice()),
        None => slice_to_vec("text/plain".as_bytes()),
    };
    let encoding = match field_of(h, "content-transfer-encoding".as_bytes()) {
        Some(v) => {
            let low = lowered(v.as_slice());
            encoding_of(low.as_slice())
        },
        None => Some(TransferEncoding::Identity),
    };
    let key = key_of(h);
    let body = slice_to_vec(slice_subrange(raw, b, raw.len()));
    Part { media, encoding, key, body }
}

fn boundary_in(bytes: &[u8]) -> (r: Option<Vec<u8>>)
    ensures
        r.is_some() == boundary_of(bytes@).is_some(),
        r matches Some(b) ==> boundary_of(bytes@) == Some(b@),
{
    let e = head_end_of(bytes);
    let h = slice_subrange(bytes, 0, e);
    match field_of(h, "content-type".as_bytes()) {
        None => None,
        Some(v) => match param_of(v.as_slice(), "boundary".as_bytes()) {
            Some(b) => if b.len() > 0 {
                Some(b)
            } else {
                None
            },
            None => None,
        },
    }
}

fn read_parts(bytes: &[u8], boundary: &[u8]) -> (list: Vec<Part>)
    ensures
        views(list@) == part_list(bytes@, boundary@),
{
    let b = body_start_of(bytes);
    let body = slice_subrange(bytes, b, bytes.len());
    let found = parts_of(body, boundary);
    let mut list: Vec<Part> = Vec::new();
    let mut i: usize = 0;
    while i < found.len()
        invariant
            i <= found.len(),
            body@ == body_of(bytes@),
            found@ == parts(body@, boundary@),
            crate::mime::within(found@, body@.len() as int),
            list@.len() == i,
            forall|k: int|
                0 <= k < i ==> (#[trigger] list@[k])@ == part(
                    body@.subrange(found@[k].start as int, found@[k].end as int),
                ),
        decreases found.len() - i,
    {
        let sp: Span = found[i];
        assert(found@[i as int].start <= found@[i as int].end <= body@.len());
        let p = read_part(slice_subrange(body, sp.start, sp.end));
        list.push(p);
        i += 1;
    }
    assert(views(list@) =~= part_list(bytes@, boundary@));
    list
}

fn find_page(list: &Vec<Part>) -> (r: Option<usize>)
    ensures
        r.is_some() == first_page(views(list@), 0).is_some(),
        r matches Some(i) ==> first_page(views(list@), 0) == Some(i as int) && i < list@.len(),
{
    let mut i: usize = 0;
    while i < list.len()
        invariant
            i <= list.len(),
            first_page(views(list@), 0) == first_page(views(list@), i as int),
        decreases list.len() - i,
    {
        assert(views(list@)[i as int] == list@[i as int]@);
        if matches_all(list[i].media.as_slice(), "text/html".as_bytes()) {
            return Some(i);
        }
        i += 1;
    }
    None
}

fn decode_part(p: &Part) -> (r: Option<Vec<u8>>)
    ensures
        r.is_some() == content(p@).is_some(),
        r matches Some(v) ==> content(p@) == Some(v@),
{
    match p.encoding {
        Some(e) => decode_transfer(e, p.body.as_slice()),
        None => None,
    }
}

/// Reads an archive.
pub fn parse(bytes: &[u8]) -> (res: Result<Archive, ParseError>)
    ensures
        res.is_ok() == parsed(bytes@).is_ok(),
        res matches Ok(a) ==> parsed(bytes@) == Ok::<ArchiveModel, ParseError>(a@),
        res matches Err(e) ==> parsed(bytes@) == Err::<ArchiveModel, ParseError>(e),
{
    let boundary = match boundary_in(bytes) {
        Some(b) => b,
        None => {
            return Err(ParseError::MissingBoundary);
        },
    };
    let list = read_parts(bytes, boundary.as_slice());
    let ghost m = views(list@);
    let root = match find_page(&list) {
        Some(r) => r,
        None => {
            return Err(ParseError::MissingRootDocument);
        },
    };
    let mut page: Vec<u8> = Vec::new();
    let mut resources: Vec<Resource> = Vec::new();
    let mut i: usize = 0;
    while i < list.len()
        invariant
            i <= list.len(),
            root < list.len(),
            m == views(list@),
            boundary_of(bytes@) == Some(boundary@),
            m == part_list(bytes@, boundary@),
            first_page(m, 0) == Some(root as int),
            forall|k: int| 0 <= k < i ==> (#[trigger] content(m[k])).is_some(),
            views(resources@) == resources_upto(m, root as int, i as int),
            i > root ==> Some(page@) == content(m[root as int]),
        decreases list.len() - i,
    {
        assert(m[i as int] == list@[i as int]@);
        let data = match decode_part(&list[i]) {
            Some(d) => d,
            None => {
                assert(content(m[i as int]).is_none());
                return Err(ParseError::InvalidEncoding);
            },
        };
        if i == root {
            page = data;
        } else {
            let r = Resource {
                key: list[i].key.clone(),
                mime: list[i].media.clone(),
                data,
            };
            proof {
                lemma_views_push(resources@, r);
            }
            resources.push(r);
        }
        i += 1;
    }
    if !is_utf8(page.as_slice()) {
        return Err(ParseError::InvalidEncoding);
    }
    let e = head_end_of(bytes);
    let url = match field_of(slice_subrange(bytes, 0, e), "snapshot-content-location".as_bytes()) {
        Some(v) => v,
        None => list[root].key.clone(),
    };
    assert(m[root as int] == list@[root as int]@);
    Ok(Archive { url, root: page, resources })
}

} // verus!
