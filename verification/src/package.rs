//! The files of a book and their order in the container: the marker, the
//! container descriptor, the package document, the navigation that the
//! chosen version of the standard asks for, the page, the style sheet,
//! and the images.

use crate::bytes::{append, append_decimal, append_str, decimal, lemma_views_push, text, views};
use crate::config::{EpubVersion, ImageFormat};
use crate::render::{escaped, write_escaped};
use crate::zip::{Entry, EntryModel};
use vstd::prelude::*;
use vstd::utf8::encode_utf8;

verus! {

/// What a book is made of.
pub struct Book {
    /// The title of the page, where it has one.
    pub title: Option<Vec<u8>>,
    /// The author of the page, where one is known.
    pub byline: Option<Vec<u8>>,
    /// The number from which the identifier of the book is made.
    pub serial: u32,
    /// The page, as a complete document.
    pub page: Vec<u8>,
    /// The style sheet; empty for none.
    pub css: String,
    /// The image files, with their paths beside the page.
    pub images: Vec<Entry>,
    /// The number of the image that is the cover, if there is one.
    pub cover: Option<usize>,
    pub format: ImageFormat,
    pub version: EpubVersion,
}

/// The mathematical content of a [`Book`].
pub struct BookModel {
    pub title: Option<Seq<u8>>,
    pub byline: Option<Seq<u8>>,
    pub serial: u32,
    pub page: Seq<u8>,
    pub css: Seq<u8>,
    pub images: Seq<EntryModel>,
    pub cover: Option<usize>,
    pub format: ImageFormat,
    pub version: EpubVersion,
}

impl View for Book {
    type V = BookModel;

    open spec fn view(&self) -> BookModel {
        BookModel {
            title: crate::extract::maybe(self.title),
            byline: crate::extract::maybe(self.byline),
            serial: self.serial,
            page: self.page@,
            css: encode_utf8(self.css@),
            images: views(self.images@),
            cover: self.cover,
            format: self.format,
            version: self.version,
        }
    }
}

/// The title under which a book is listed: that of the page, or a
/// default where the page has none.
pub open spec fn shown_title(title: Option<Seq<u8>>) -> Seq<u8> {
    match title {
        Some(t) => t,
        None => text("Untitled"),
    }
}

/// A hexadecimal digit, in lower case.
pub open spec fn hex_digit(v: int) -> u8 {
    if v < 10 {
        (48 + v) as u8
    } else {
        (87 + v) as u8
    }
}

/// The eight hexadecimal digits of a number.
pub open spec fn hex8(v: u32) -> Seq<u8> {
    Seq::new(8, |i: int| hex_digit((v as int / pow16(7 - i)) % 16))
}

/// Sixteen to the power of `k`, for `k` up to seven.
pub open spec fn pow16(k: int) -> int {
    if k <= 0 {
        1
    } else if k == 1 {
        16
    } else if k == 2 {
        256
    } else if k == 3 {
        4096
    } else if k == 4 {
        65536
    } else if k == 5 {
        1048576
    } else if k == 6 {
        16777216
    } else {
        268435456
    }
}

/// The identifier of a book: stable, because it is made from the page.
pub open spec fn identifier(serial: u32) -> Seq<u8> {
    text("urn:page:") + hex8(serial)
}

/// The marker that every container begins with.
pub open spec fn marker() -> EntryModel {
    EntryModel { name: text("mimetype"), data: text("application/epub+zip") }
}

/// The descriptor that points at the package document.
pub open spec fn descriptor() -> EntryModel {
    EntryModel {
        name: text("META-INF/container.xml"),
        data: text(
            "<?xml version=\"1.0\" encoding=\"utf-8\"?>\n<container version=\"1.0\" xmlns=\"urn:oasis:names:tc:opendocument:xmlns:container\"><rootfiles><rootfile full-path=\"OEBPS/content.opf\" media-type=\"application/oebps-package+xml\"/></rootfiles></container>\n",
        ),
    }
}

/// The metadata of the package document.
pub open spec fn metadata_block(b: BookModel) -> Seq<u8> {
    text("<metadata xmlns:dc=\"http://purl.org/dc/elements/1.1/\"><dc:identifier id=\"id\">")
        + identifier(b.serial) + text("</dc:identifier><dc:title>") + escaped(
        shown_title(b.title),
    ) + text("</dc:title><dc:language>en</dc:language>") + creator_line(b.byline) + version_lines(
        b,
    ) + text("</metadata>")
}

/// The line that names the author, where one is known.
pub open spec fn creator_line(byline: Option<Seq<u8>>) -> Seq<u8> {
    match byline {
        Some(name) => text("<dc:creator>") + escaped(name) + text("</dc:creator>"),
        None => Seq::empty(),
    }
}

/// The metadata that depends on the version: the date of the last
/// change in version 3, the cover in version 2.
pub open spec fn version_lines(b: BookModel) -> Seq<u8> {
    match b.version {
        EpubVersion::V30 => text("<meta property=\"dcterms:modified\">2000-01-01T00:00:00Z</meta>"),
        EpubVersion::V20 => match b.cover {
            Some(k) => text("<meta name=\"cover\" content=\"img") + decimal(k as nat) + text(
                "\"/>",
            ),
            None => Seq::empty(),
        },
    }
}

/// The media type of the image files.
pub open spec fn image_type(format: ImageFormat) -> Seq<u8> {
    match format {
        ImageFormat::Jpeg(q) => text("image/jpeg"),
        ImageFormat::Png => text("image/png"),
    }
}

/// The manifest line of image number `k`.
pub open spec fn image_item(b: BookModel, k: int) -> Seq<u8> {
    text("<item id=\"img") + decimal(k as nat) + text("\" href=\"") + b.images[k].name + text(
        "\" media-type=\"",
    ) + image_type(b.format) + if b.version == EpubVersion::V30 && b.cover == Some(k as usize) {
        text("\" properties=\"cover-image\"/>")
    } else {
        text("\"/>")
    }
}

/// The manifest lines of the first `n` images.
pub open spec fn image_items(b: BookModel, n: int) -> Seq<u8>
    decreases n,
{
    if n <= 0 {
        Seq::empty()
    } else {
        image_items(b, n - 1) + image_item(b, n - 1)
    }
}

/// The manifest line of the navigation that the version asks for.
pub open spec fn navigation_item(version: EpubVersion) -> Seq<u8> {
    match version {
        EpubVersion::V30 => text(
            "<item id=\"nav\" href=\"nav.xhtml\" media-type=\"application/xhtml+xml\" properties=\"nav\"/>",
        ),
        EpubVersion::V20 => text(
            "<item id=\"ncx\" href=\"toc.ncx\" media-type=\"application/x-dtbncx+xml\"/>",
        ),
    }
}

/// The manifest line of the style sheet, where there is one.
pub open spec fn style_item(css: Seq<u8>) -> Seq<u8> {
    if css.len() > 0 {
        text("<item id=\"css\" href=\"style.css\" media-type=\"text/css\"/>")
    } else {
        Seq::empty()
    }
}

/// The manifest: one line for every file of the book but the marker,
/// the descriptor and the package document itself.
pub open spec fn manifest_block(b: BookModel) -> Seq<u8> {
    text("<manifest>") + navigation_item(b.version) + text(
        "<item id=\"index\" href=\"index.xhtml\" media-type=\"application/xhtml+xml\"/>",
    ) + style_item(b.css) + image_items(b, b.images.len() as int) + text("</manifest>")
}

/// The spine: the page is all there is to read.
pub open spec fn spine_block(version: EpubVersion) -> Seq<u8> {
    match version {
        EpubVersion::V30 => text("<spine><itemref idref=\"index\"/></spine>"),
        EpubVersion::V20 => text("<spine toc=\"ncx\"><itemref idref=\"index\"/></spine>"),
    }
}

/// The opening of the package document.
pub open spec fn package_open(version: EpubVersion) -> Seq<u8> {
    match version {
        EpubVersion::V30 => text(
            "<?xml version=\"1.0\" encoding=\"utf-8\"?>\n<package xmlns=\"http://www.idpf.org/2007/opf\" version=\"3.0\" unique-identifier=\"id\">",
        ),
        EpubVersion::V20 => text(
            "<?xml version=\"1.0\" encoding=\"utf-8\"?>\n<package xmlns=\"http://www.idpf.org/2007/opf\" version=\"2.0\" unique-identifier=\"id\">",
        ),
    }
}

/// The package document.
pub open spec fn package_document(b: BookModel) -> Seq<u8> {
    package_open(b.version) + metadata_block(b) + manifest_block(b) + spine_block(b.version)
        + text("</package>\n")
}

/// The navigation document of version 3.
pub open spec fn nav_document(title: Seq<u8>) -> Seq<u8> {
    text(
        "<?xml version=\"1.0\" encoding=\"utf-8\"?>\n<html xmlns=\"http://www.w3.org/1999/xhtml\" xmlns:epub=\"http://www.idpf.org/2007/ops\"><head><title>",
    ) + escaped(title) + text(
        "</title></head><body><nav epub:type=\"toc\"><ol><li><a href=\"index.xhtml\">",
    ) + escaped(title) + text("</a></li></ol></nav></body></html>\n")
}

/// The table of contents of version 2.
pub open spec fn ncx_document(title: Seq<u8>, serial: u32) -> Seq<u8> {
    text(
        "<?xml version=\"1.0\" encoding=\"utf-8\"?>\n<ncx xmlns=\"http://www.daisy.org/z3986/2005/ncx/\" version=\"2005-1\"><head><meta name=\"dtb:uid\" content=\"",
    ) + identifier(serial) + text("\"/></head><docTitle><text>") + escaped(title) + text(
        "</text></docTitle><navMap><navPoint id=\"page\" playOrder=\"1\"><navLabel><text>",
    ) + escaped(title) + text(
        "</text></navLabel><content src=\"index.xhtml\"/></navPoint></navMap></ncx>\n",
    )
}

/// The navigation that the version asks for: a navigation document in
/// version 3, a table of contents in version 2, and never both.
pub open spec fn navigation(b: BookModel) -> EntryModel {
    match b.version {
        EpubVersion::V30 => EntryModel {
            name: text("OEBPS/nav.xhtml"),
            data: nav_document(shown_title(b.title)),
        },
        EpubVersion::V20 => EntryModel {
            name: text("OEBPS/toc.ncx"),
            data: ncx_document(shown_title(b.title), b.serial),
        },
    }
}

/// The files that every book has, in their order.
pub open spec fn fixed_entries(b: BookModel) -> Seq<EntryModel> {
    seq![
        marker(),
        descriptor(),
        EntryModel { name: text("OEBPS/content.opf"), data: package_document(b) },
        navigation(b),
        EntryModel { name: text("OEBPS/index.xhtml"), data: b.page },
    ]
}

/// The style sheet as a file, where there is one.
pub open spec fn style_entries(css: Seq<u8>) -> Seq<EntryModel> {
    if css.len() > 0 {
        seq![EntryModel { name: text("OEBPS/style.css"), data: css }]
    } else {
        Seq::empty()
    }
}

/// The first `n` images as files of the container.
pub open spec fn image_entries(images: Seq<EntryModel>, n: int) -> Seq<EntryModel>
    decreases n,
{
    if n <= 0 {
        Seq::empty()
    } else {
        image_entries(images, n - 1).push(
            EntryModel { name: text("OEBPS/") + images[n - 1].name, data: images[n - 1].data },
        )
    }
}

/// The files of a book, in the order in which the container holds them.
pub open spec fn book_entries(b: BookModel) -> Seq<EntryModel> {
    fixed_entries(b) + style_entries(b.css) + image_entries(b.images, b.images.len() as int)
}

/// Whatever a book holds, its first file is the marker, and the
/// navigation is the one of its version.
pub proof fn lemma_book_entries(b: BookModel)
    ensures
        book_entries(b).len() >= 5,
        book_entries(b)[0] == marker(),
        book_entries(b)[1] == descriptor(),
        book_entries(b)[3] == navigation(b),
        book_entries(b)[4].data == b.page,
{
}

fn entry(name: &str, data: Vec<u8>) -> (e: Entry)
    ensures
        e@ == (EntryModel { name: text(name), data: data@ }),
{
    let mut n: Vec<u8> = Vec::new();
    append_str(&mut n, name);
    assert(n@ =~= text(name));
    Entry { name: n, data }
}

fn literal(s: &str) -> (out: Vec<u8>)
    ensures
        out@ == text(s),
{
    let mut out: Vec<u8> = Vec::new();
    append_str(&mut out, s);
    assert(out@ =~= text(s));
    out
}

fn write_title(out: &mut Vec<u8>, title: &Option<Vec<u8>>)
    ensures
        final(out)@ == old(out)@ + escaped(shown_title(crate::extract::maybe(*title))),
{
    match title {
        Some(t) => write_escaped(out, t.as_slice()),
        None => write_escaped(out, "Untitled".as_bytes()),
    }
}

fn write_hex8(out: &mut Vec<u8>, v: u32)
    ensures
        final(out)@ == old(out)@ + hex8(v),
{
    let mut i: usize = 0;
    let mut d: u32 = 268435456;
    assert(out@ =~= old(out)@ + hex8(v).subrange(0, 0));
    while i < 8
        invariant
            i <= 8,
            i < 8 ==> d == pow16(7 - i),
            out@ == old(out)@ + hex8(v).subrange(0, i as int),
        decreases 8 - i,
    {
        let x: u32 = (v / d) % 16;
        let c: u8 = if x < 10 {
            (48 + x) as u8
        } else {
            (87 + x) as u8
        };
        let ghost before = out@;
        out.push(c);
        assert(c == hex8(v)[i as int]);
        assert(out@ =~= old(out)@ + hex8(v).subrange(0, i + 1));
        i += 1;
        if i < 8 {
            d = d / 16;
        }
    }
    assert(hex8(v).subrange(0, 8) =~= hex8(v));
}

fn write_identifier(out: &mut Vec<u8>, serial: u32)
    ensures
        final(out)@ == old(out)@ + identifier(serial),
{
    append_str(out, "urn:page:");
    write_hex8(out, serial);
    assert(out@ =~= old(out)@ + identifier(serial));
}

fn write_creator_line(out: &mut Vec<u8>, byline: &Option<Vec<u8>>)
    ensures
        final(out)@ == old(out)@ + creator_line(crate::extract::maybe(*byline)),
{
    match byline {
        Some(name) => {
            append_str(out, "<dc:creator>");
            write_escaped(out, name.as_slice());
            append_str(out, "</dc:creator>");
        },
        None => {},
    }
    assert(out@ =~= old(out)@ + creator_line(crate::extract::maybe(*byline)));
}

fn write_version_lines(out: &mut Vec<u8>, b: &Book)
    ensures
        final(out)@ == old(out)@ + version_lines(b@),
{
    match b.version {
        EpubVersion::V30 => {
            append_str(out, "<meta property=\"dcterms:modified\">2000-01-01T00:00:00Z</meta>");
        },
        EpubVersion::V20 => match b.cover {
            Some(k) => {
                append_str(out, "<meta name=\"cover\" content=\"img");
                append_decimal(out, k);
                append_str(out, "\"/>");
            },
            None => {},
        },
    }
    assert(out@ =~= old(out)@ + version_lines(b@));
}

fn write_metadata(out: &mut Vec<u8>, b: &Book)
    ensures
        final(out)@ == old(out)@ + metadata_block(b@),
{
    append_str(
        out,
        "<metadata xmlns:dc=\"http://purl.org/dc/elements/1.1/\"><dc:identifier id=\"id\">",
    );
    write_identifier(out, b.serial);
    append_str(out, "</dc:identifier><dc:title>");
    write_title(out, &b.title);
    append_str(out, "</dc:title><dc:language>en</dc:language>");
    write_creator_line(out, &b.byline);
    write_version_lines(out, b);
    append_str(out, "</metadata>");
    assert(out@ =~= old(out)@ + metadata_block(b@));
}

fn write_image_item(out: &mut Vec<u8>, b: &Book, k: usize)
    requires
        k < b.images@.len(),
    ensures
        final(out)@ == old(out)@ + image_item(b@, k as int),
{
    assert(b@.images[k as int] == b.images@[k as int]@);
    append_str(out, "<item id=\"img");
    append_decimal(out, k);
    append_str(out, "\" href=\"");
    append(out, b.images[k].name.as_slice());
    append_str(out, "\" media-type=\"");
    match b.format {
        ImageFormat::Jpeg(q) => append_str(out, "image/jpeg"),
        ImageFormat::Png => append_str(out, "image/png"),
    }
    let is_cover = match b.cover {
        Some(c) => c == k,
        None => false,
    };
    let v3 = match b.version {
        EpubVersion::V30 => true,
        EpubVersion::V20 => false,
    };
    if v3 && is_cover {
        append_str(out, "\" properties=\"cover-image\"/>");
    } else {
        append_str(out, "\"/>");
    }
    assert(out@ =~= old(out)@ + image_item(b@, k as int));
}

fn write_navigation_item(out: &mut Vec<u8>, version: EpubVersion)
    ensures
        final(out)@ == old(out)@ + navigation_item(version),
{
    match version {
        EpubVersion::V30 => append_str(
            out,
            "<item id=\"nav\" href=\"nav.xhtml\" media-type=\"application/xhtml+xml\" properties=\"nav\"/>",
        ),
        EpubVersion::V20 => append_str(
            out,
            "<item id=\"ncx\" href=\"toc.ncx\" media-type=\"application/x-dtbncx+xml\"/>",
        ),
    }
}

fn write_style_item(out: &mut Vec<u8>, b: &Book)
    ensures
        final(out)@ == old(out)@ + style_item(b@.css),
{
    if b.css.as_str().as_bytes().len() > 0 {
        append_str(out, "<item id=\"css\" href=\"style.css\" media-type=\"text/css\"/>");
    } else {
        assert(out@ =~= old(out)@ + Seq::<u8>::empty());
    }
}

fn write_image_items(out: &mut Vec<u8>, b: &Book)
    ensures
        final(out)@ == old(out)@ + image_items(b@, b@.images.len() as int),
{
    let mut k: usize = 0;
    assert(out@ =~= old(out)@ + image_items(b@, 0));
    while k < b.images.len()
        invariant
            k <= b.images.len(),
            out@ == old(out)@ + image_items(b@, k as int),
        decreases b.images.len() - k,
    {
        let ghost before = out@;
        write_image_item(out, b, k);
        assert(image_items(b@, k + 1) == image_items(b@, k as int) + image_item(b@, k as int));
        assert(out@ =~= old(out)@ + image_items(b@, k + 1));
        k += 1;
    }
}

fn write_manifest(out: &mut Vec<u8>, b: &Book)
    ensures
        final(out)@ == old(out)@ + manifest_block(b@),
{
    append_str(out, "<manifest>");
    write_navigation_item(out, b.version);
    append_str(out, "<item id=\"index\" href=\"index.xhtml\" media-type=\"application/xhtml+xml\"/>");
    write_style_item(out, b);
    write_image_items(out, b);
    append_str(out, "</manifest>");
    assert(out@ =~= old(out)@ + manifest_block(b@));
}

fn write_package_open(out: &mut Vec<u8>, version: EpubVersion)
    ensures
        final(out)@ == old(out)@ + package_open(version),
{
    match version {
        EpubVersion::V30 => append_str(
            out,
            "<?xml version=\"1.0\" encoding=\"utf-8\"?>\n<package xmlns=\"http://www.idpf.org/2007/opf\" version=\"3.0\" unique-identifier=\"id\">",
        ),
        EpubVersion::V20 => append_str(
            out,
            "<?xml version=\"1.0\" encoding=\"utf-8\"?>\n<package xmlns=\"http://www.idpf.org/2007/opf\" version=\"2.0\" unique-identifier=\"id\">",
        ),
    }
}

fn write_spine(out: &mut Vec<u8>, version: EpubVersion)
    ensures
        final(out)@ == old(out)@ + spine_block(version),
{
    match version {
        EpubVersion::V30 => append_str(out, "<spine><itemref idref=\"index\"/></spine>"),
        EpubVersion::V20 => append_str(out, "<spine toc=\"ncx\"><itemref idref=\"index\"/></spine>"),
    }
}

/// Writes the package document of a book.
pub fn write_package(b: &Book) -> (out: Vec<u8>)
    ensures
        out@ == package_document(b@),
{
    let mut out: Vec<u8> = Vec::new();
    write_package_open(&mut out, b.version);
    write_metadata(&mut out, b);
    write_manifest(&mut out, b);
    write_spine(&mut out, b.version);
    append_str(&mut out, "</package>\n");
    assert(out@ =~= package_document(b@));
    out
}

fn write_nav(title: &Option<Vec<u8>>) -> (out: Vec<u8>)
    ensures
        out@ == nav_document(shown_title(crate::extract::maybe(*title))),
{
    let mut out: Vec<u8> = Vec::new();
    append_str(
        &mut out,
        "<?xml version=\"1.0\" encoding=\"utf-8\"?>\n<html xmlns=\"http://www.w3.org/1999/xhtml\" xmlns:epub=\"http://www.idpf.org/2007/ops\"><head><title>",
    );
    write_title(&mut out, title);
    append_str(
        &mut out,
        "</title></head><body><nav epub:type=\"toc\"><ol><li><a href=\"index.xhtml\">",
    );
    write_title(&mut out, title);
    append_str(&mut out, "</a></li></ol></nav></body></html>\n");
    assert(out@ =~= nav_document(shown_title(crate::extract::maybe(*title))));
    out
}

fn write_ncx(title: &Option<Vec<u8>>, serial: u32) -> (out: Vec<u8>)
    ensures
        out@ == ncx_document(shown_title(crate::extract::maybe(*title)), serial),
{
    let mut out: Vec<u8> = Vec::new();
    append_str(
        &mut out,
        "<?xml version=\"1.0\" encoding=\"utf-8\"?>\n<ncx xmlns=\"http://www.daisy.org/z3986/2005/ncx/\" version=\"2005-1\"><head><meta name=\"dtb:uid\" content=\"",
    );
    write_identifier(&mut out, serial);
    append_str(&mut out, "\"/></head><docTitle><text>");
    write_title(&mut out, title);
    append_str(
        &mut out,
        "</text></docTitle><navMap><navPoint id=\"page\" playOrder=\"1\"><navLabel><text>",
    );
    write_title(&mut out, title);
    append_str(
        &mut out,
        "</text></navLabel><content src=\"index.xhtml\"/></navPoint></navMap></ncx>\n",
    );
    assert(out@ =~= ncx_document(shown_title(crate::extract::maybe(*title)), serial));
    out
}

fn write_navigation(b: &Book) -> (e: Entry)
    ensures
        e@ == navigation(b@),
{
    match b.version {
        EpubVersion::V30 => entry("OEBPS/nav.xhtml", write_nav(&b.title)),
        EpubVersion::V20 => entry("OEBPS/toc.ncx", write_ncx(&b.title, b.serial)),
    }
}

/// Lists the files of a book in the order of the container.
pub fn assemble(b: &Book) -> (list: Vec<Entry>)
    ensures
        views(list@) == book_entries(b@),
{
    let mut list: Vec<Entry> = Vec::new();
    let e0 = entry("mimetype", literal("application/epub+zip"));
    let e1 = entry(
        "META-INF/container.xml",
        literal(
            "<?xml version=\"1.0\" encoding=\"utf-8\"?>\n<container version=\"1.0\" xmlns=\"urn:oasis:names:tc:opendocument:xmlns:container\"><rootfiles><rootfile full-path=\"OEBPS/content.opf\" media-type=\"application/oebps-package+xml\"/></rootfiles></container>\n",
        ),
    );
    let e2 = entry("OEBPS/content.opf", write_package(b));
    let e3 = write_navigation(b);
    let e4 = entry("OEBPS/index.xhtml", b.page.clone());
    list.push(e0);
    list.push(e1);
    list.push(e2);
    list.push(e3);
    list.push(e4);
    assert(views(list@) =~= fixed_entries(b@));
    let css = b.css.as_str().as_bytes();
    if css.len() > 0 {
        let mut data: Vec<u8> = Vec::new();
        append(&mut data, css);
        assert(data@ =~= b@.css);
        let e5 = entry("OEBPS/style.css", data);
        proof {
            lemma_views_push(list@, e5);
        }
        list.push(e5);
    }
    assert(views(list@) =~= fixed_entries(b@) + style_entries(b@.css));
    let ghost base = views(list@);
    let mut k: usize = 0;
    assert(views(list@) =~= base + image_entries(b@.images, 0));
    while k < b.images.len()
        invariant
            k <= b.images.len(),
            views(list@) == base + image_entries(b@.images, k as int),
        decreases b.images.len() - k,
    {
        assert(b@.images[k as int] == b.images@[k as int]@);
        let mut name: Vec<u8> = Vec::new();
        append_str(&mut name, "OEBPS/");
        append(&mut name, b.images[k].name.as_slice());
        assert(name@ =~= text("OEBPS/") + b@.images[k as int].name);
        let e = Entry { name, data: b.images[k].data.clone() };
        proof {
            lemma_views_push(list@, e);
            assert(base + image_entries(b@.images, k as int).push(e@) =~= (base + image_entries(
                b@.images,
                k as int,
            )).push(e@));
        }
        list.push(e);
        k += 1;
    }
    list
}

} // verus!
