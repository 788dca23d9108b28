//! The conversion itself: from the bytes of an archive and the options
//! to the bytes of a book and the title of the page.

use crate::archive::{
    boundary_of, lemma_first_page, no_page, parse, parsed, part_list,
    Archive, ArchiveModel, ParseError,
};
use crate::bytes::{text, views};
use crate::clean::{clean, cleaned};
use crate::config::{
    ConfigModel, ConversionConfig, ImageHandling,
};
use crate::error::ConversionError;
use crate::extract::{cover_of, extract, maybe, metadata};
use crate::html::{tokenize, tokens, TokenModel};
use crate::images::{
    build_gallery, gallery, image_path, imaged, lemma_gallery, lemma_no_image_left,
    lemma_strip_empties, lookup_of, path_of, place_images, placed, GalleryModel,
};
use crate::links::{filter_links, link_filtered};
use crate::package::{assemble, book_entries, lemma_book_entries, Book, BookModel};
use crate::page::{header_block, page_document, write_header, write_page};
use crate::raster::ImageSettings;
use crate::zip::{archive, checksum, crc32, first_entry_stored, fits, lemma_first_entry, write_archive};
use vstd::prelude::*;
use vstd::utf8::{encode_utf8, valid_utf8};

verus! {

/// A book and what is known of it.
pub struct Conversion {
    /// The book: a ZIP container.
    pub epub: Vec<u8>,
    /// The title of the page, where it has one.
    pub title: Option<String>,
    /// The number of images that were left out because they could not be
    /// decoded, scaled or encoded.
    pub failed_images: usize,
}

/// The mathematical content of a [`Conversion`]; the title as UTF-8.
pub struct ConversionModel {
    pub epub: Seq<u8>,
    pub title: Option<Seq<u8>>,
    pub failed_images: nat,
}

impl View for Conversion {
    type V = ConversionModel;

    open spec fn view(&self) -> ConversionModel {
        ConversionModel {
            epub: self.epub@,
            title: match self.title {
                Some(s) => Some(encode_utf8(s@)),
                None => None,
            },
            failed_images: self.failed_images as nat,
        }
    }
}

/// The settings for images among the options.
pub open spec fn settings_of(config: ConfigModel) -> ImageSettings {
    ImageSettings {
        handling: config.image_handling,
        format: config.image_format,
        max_width: config.max_width,
        max_height: config.max_height,
        filter: config.filter_type,
        brighten: config.brighten,
    }
}

/// The text of the page as it goes into the book, images apart: cleaned,
/// and with the links filtered.
pub open spec fn body_of_page(root: Seq<u8>, config: ConfigModel) -> Seq<TokenModel> {
    link_filtered(cleaned(tokens(root)), config.strip_links, config.href_sim_thresh)
}

/// The address of the cover, where a cover is asked for.
pub open spec fn cover_key(root: Seq<u8>, config: ConfigModel) -> Option<Seq<u8>> {
    if config.include_cover {
        cover_of(tokens(root))
    } else {
        None
    }
}

/// The images of the book.
pub open spec fn gallery_of(a: ArchiveModel, config: ConfigModel) -> GalleryModel {
    gallery(
        a.resources,
        body_of_page(a.root, config),
        cover_key(a.root, config),
        settings_of(config),
        a.resources.len() as int,
    )
}

/// The number of the image that is the cover, where the book holds it.
pub open spec fn cover_number(a: ArchiveModel, config: ConfigModel) -> Option<usize> {
    match cover_key(a.root, config) {
        Some(key) => placed(a.resources, gallery_of(a, config).numbers, key),
        None => None,
    }
}

/// The path of the cover, where the book holds it.
pub open spec fn cover_path(a: ArchiveModel, config: ConfigModel) -> Option<Seq<u8>> {
    match cover_number(a, config) {
        Some(k) => Some(image_path(k as nat, config.image_format)),
        None => None,
    }
}

/// The text of the page as it stands in the book.
pub open spec fn shown(a: ArchiveModel, config: ConfigModel) -> Seq<TokenModel> {
    imaged(
        body_of_page(a.root, config),
        a.resources,
        gallery_of(a, config).numbers,
        config.image_format,
    )
}

/// The book that an archive makes under the options.
pub open spec fn book_of(a: ArchiveModel, config: ConfigModel) -> BookModel {
    let meta = metadata(tokens(a.root));
    BookModel {
        title: meta.title,
        byline: meta.byline,
        serial: crc32(a.root),
        page: page_document(
            config.epub_version,
            meta.title,
            config.css.len() > 0,
            header_block(config, meta, a.url, cover_path(a, config)),
            shown(a, config),
        ),
        css: config.css,
        images: gallery_of(a, config).files,
        cover: cover_number(a, config),
        format: config.image_format,
        version: config.epub_version,
    }
}

/// The title that is handed back: that of the page, where it is UTF-8.
pub open spec fn returned_title(title: Option<Seq<u8>>) -> Option<Seq<u8>> {
    match title {
        Some(t) => if valid_utf8(t) {
            Some(t)
        } else {
            None
        },
        None => None,
    }
}

/// What the conversion of a parsed archive yields: the container of the
/// files of its book, or an error where they do not fit one.
pub open spec fn packed_book(a: ArchiveModel, config: ConfigModel) -> Result<
    ConversionModel,
    ConversionError,
> {
    let entries = book_entries(book_of(a, config));
    if fits(entries) {
        Ok(
            ConversionModel {
                epub: archive(entries),
                title: returned_title(metadata(tokens(a.root)).title),
                failed_images: gallery_of(a, config).failures,
            },
        )
    } else {
        Err(ConversionError::PackagingError)
    }
}

/// What a conversion yields. Options that are not accepted are refused
/// before anything is read; then bytes that are not UTF-8; then an
/// archive that cannot be parsed.
pub open spec fn converted(bytes: Seq<u8>, config: ConfigModel) -> Result<
    ConversionModel,
    ConversionError,
> {
    if !config.valid() {
        Err(ConversionError::InvalidConfig)
    } else if !valid_utf8(bytes) {
        Err(ConversionError::InvalidEncoding)
    } else {
        match parsed(bytes) {
            Err(ParseError::MissingBoundary) => Err(ConversionError::MalformedArchive),
            Err(ParseError::MissingRootDocument) => Err(ConversionError::MalformedArchive),
            Err(ParseError::InvalidEncoding) => Err(ConversionError::InvalidEncoding),
            Ok(a) => packed_book(a, config),
        }
    }
}

/// An archive without a page, or without parts at all, is malformed,
/// whatever else it holds and whatever the options ask for.
pub proof fn lemma_page_needed(bytes: Seq<u8>, config: ConfigModel)
    requires
        config.valid(),
        valid_utf8(bytes),
        match boundary_of(bytes) {
            Some(boundary) => no_page(part_list(bytes, boundary)),
            None => true,
        },
    ensures
        converted(bytes, config) == Err::<ConversionModel, ConversionError>(
            ConversionError::MalformedArchive,
        ),
{
    match boundary_of(bytes) {
        Some(boundary) => {
            lemma_first_page(part_list(bytes, boundary), 0);
        },
        None => {},
    }
}

/// Every book begins with the marker: the first entry of its container
/// is named `mimetype` and is stored without compression.
pub proof fn lemma_marker_first(bytes: Seq<u8>, config: ConfigModel)
    ensures
        converted(bytes, config) matches Ok(c) ==> first_entry_stored(c.epub, text("mimetype")),
{
    match converted(bytes, config) {
        Ok(c) => {
            let a = parsed(bytes).unwrap();
            let entries = book_entries(book_of(a, config));
            lemma_book_entries(book_of(a, config));
            assert(entries[0].name == text("mimetype"));
            lemma_first_entry(entries);
        },
        Err(e) => {},
    }
}

/// Where every image is to be removed, the book holds no image file, and
/// its page shows no image.
pub proof fn lemma_strip_leaves_none(a: ArchiveModel, config: ConfigModel)
    requires
        config.image_handling == ImageHandling::Strip,
    ensures
        book_of(a, config).images.len() == 0,
        book_of(a, config).cover.is_none(),
        gallery_of(a, config).failures == 0,
        forall|k: int|
            0 <= k < shown(a, config).len() ==> !crate::extract::opens(
                #[trigger] shown(a, config)[k],
                text("img"),
            ),
{
    let body = body_of_page(a.root, config);
    let n = a.resources.len() as int;
    lemma_strip_empties(a.resources, body, cover_key(a.root, config), settings_of(config), n);
    let numbers = gallery_of(a, config).numbers;
    lemma_no_image_left(body, a.resources, numbers, config.image_format, body.len() as int);
    match cover_key(a.root, config) {
        Some(key) => {
            crate::images::lemma_lookup(a.resources, key, 0);
        },
        None => {},
    }
}

/// Whatever the page holds, the text that goes into the book holds no
/// script, no style sheet, no embedded frame or object, and no attribute
/// but the harmless ones: no handler of events among them.
pub proof fn lemma_page_is_clean(a: ArchiveModel, config: ConfigModel)
    ensures
        forall|k: int|
            0 <= k < shown(a, config).len() ==> crate::clean::clean_token(
                #[trigger] shown(a, config)[k],
            ),
{
    let raw = tokens(a.root);
    crate::clean::lemma_cleaned(raw, raw.len() as int);
    crate::links::lemma_filter_keeps_clean(
        cleaned(raw),
        config.strip_links,
        config.href_sim_thresh,
    );
    let body = body_of_page(a.root, config);
    crate::images::lemma_images_keep_clean(
        body,
        a.resources,
        gallery_of(a, config).numbers,
        config.image_format,
        body.len() as int,
    );
}

/// The title that is handed back is the title of the page: the text of
/// its first `title` element, where it has one.
pub proof fn lemma_title_returned(bytes: Seq<u8>, config: ConfigModel)
    ensures
        converted(bytes, config) matches Ok(c) ==> c.title == crate::extract::title_of(
            tokens(parsed(bytes).unwrap().root),
        ),
{
    if converted(bytes, config).is_ok() {
        crate::extract::lemma_title_is_text(parsed(bytes).unwrap().root);
    }
}

/// The title that is handed back is the text of the first `title`
/// element of the page, exactly as it is written there; a page without
/// such an element has no title.
pub proof fn lemma_title_round_trip(bytes: Seq<u8>, config: ConfigModel, i: int, x: Seq<u8>)
    requires
        converted(bytes, config).is_ok(),
    ensures
        ({
            let page = tokens(parsed(bytes).unwrap().root);
            let title = converted(bytes, config).unwrap().title;
            &&& (0 <= i && i + 2 < page.len() && (forall|k: int|
                0 <= k < i ==> !crate::extract::opens(#[trigger] page[k], text("title")))
                && crate::extract::opens(page[i], text("title")) && page[i + 1]
                == (TokenModel::Text { data: x }) && page[i + 2] == (TokenModel::Close {
                name: text("title"),
            })) ==> title == Some(x)
            &&& (forall|k: int|
                0 <= k < page.len() ==> !crate::extract::opens(#[trigger] page[k], text("title")))
                ==> title.is_none()
        }),
{
    let page = tokens(parsed(bytes).unwrap().root);
    lemma_title_returned(bytes, config);
    if 0 <= i && i + 2 < page.len() && (forall|k: int|
        0 <= k < i ==> !crate::extract::opens(#[trigger] page[k], text("title")))
        && crate::extract::opens(page[i], text("title")) && page[i + 1] == (TokenModel::Text {
        data: x,
    }) && page[i + 2] == (TokenModel::Close { name: text("title") }) {
        crate::extract::lemma_title_kept(page, i, x);
    }
    if forall|k: int|
        0 <= k < page.len() ==> !crate::extract::opens(#[trigger] page[k], text("title")) {
        crate::extract::lemma_title_absent(page);
    }
}

/// Where every image is to be kept, an image that the page shows and
/// that can be decoded and processed is in the book, as a file that
/// holds it at a size within the bounds, no larger than it was, and of
/// its proportions.
pub proof fn lemma_keep_holds(a: ArchiveModel, config: ConfigModel, j: int)
    requires
        config.valid(),
        config.image_handling == ImageHandling::Keep,
        0 <= j < a.resources.len() <= usize::MAX,
        crate::images::lookup(a.resources, a.resources[j].key, 0) == Some(j),
        crate::images::shows(body_of_page(a.root, config), a.resources[j].key),
        crate::raster::decoded(a.resources[j].data).is_some(),
        crate::raster::processed(
            crate::raster::decoded(a.resources[j].data).unwrap(),
            settings_of(config),
        ).is_some(),
    ensures
        ({
            let r = crate::raster::decoded(a.resources[j].data).unwrap();
            let size = crate::raster::target_size(r, settings_of(config));
            let file = crate::raster::processed(r, settings_of(config)).unwrap();
            let g = gallery_of(a, config);
            &&& 1 <= size.0 <= config.max_width && size.0 <= r.width
            &&& 1 <= size.1 <= config.max_height && size.1 <= r.height
            &&& crate::raster::same_proportions(r.width as int, r.height as int, size.0, size.1)
            &&& g.numbers[j] matches Some(k) && k < book_of(a, config).images.len() && book_of(
                a,
                config,
            ).images[k as int].data == file
        }),
{
    let s = settings_of(config);
    crate::raster::lemma_keep_fits(a.resources[j].data, s);
    let r = crate::raster::decoded(a.resources[j].data).unwrap();
    let file = crate::raster::processed(r, s).unwrap();
    crate::images::lemma_kept_has_file(
        a.resources,
        body_of_page(a.root, config),
        cover_key(a.root, config),
        s,
        j,
        file,
    );
}

/// The same archive under the same options makes the same book, byte
/// for byte: what a conversion yields depends on nothing else.
pub proof fn lemma_repeatable(
    bytes: Seq<u8>,
    config: ConfigModel,
    first: Result<ConversionModel, ConversionError>,
    second: Result<ConversionModel, ConversionError>,
)
    requires
        first == converted(bytes, config),
        second == converted(bytes, config),
    ensures
        first == second,
{
}

/// Calls `String::from_utf8`, which accepts exactly the well-formed
/// UTF-8 and then yields the string that these bytes encode.
#[verifier::external_body]
fn string_of(bytes: Vec<u8>) -> (res: Option<String>)
    ensures
        res.is_some() == valid_utf8(bytes@),
        res matches Some(s) ==> encode_utf8(s@) == bytes@,
{
    String::from_utf8(bytes).ok()
}

fn copy_maybe(o: &Option<Vec<u8>>) -> (r: Option<Vec<u8>>)
    ensures
        maybe(r) == maybe(*o),
{
    match o {
        Some(v) => Some(v.clone()),
        None => None,
    }
}

fn title_string(title: &Option<Vec<u8>>) -> (r: Option<String>)
    ensures
        match r {
            Some(s) => returned_title(maybe(*title)) == Some(encode_utf8(s@)),
            None => returned_title(maybe(*title)).is_none(),
        },
{
    match title {
        Some(t) => string_of(t.clone()),
        None => None,
    }
}

/// Makes the book of a parsed archive.
pub fn pack(a: &Archive, config: &ConversionConfig) -> (res: Result<Conversion, ConversionError>)
    requires
        config@.valid(),
    ensures
        res matches Ok(c) ==> packed_book(a@, config@) == Ok::<ConversionModel, ConversionError>(
            c@,
        ),
        res matches Err(e) ==> packed_book(a@, config@) == Err::<ConversionModel, ConversionError>(
            e,
        ),
{
    let settings = ImageSettings {
        handling: config.image_handling,
        format: config.image_format,
        max_width: config.max_width,
        max_height: config.max_height,
        filter: config.filter_type,
        brighten: config.brighten,
    };
    let raw = tokenize(a.root.as_slice());
    let meta = extract(&raw);
    let body = filter_links(clean(&raw), config.strip_links, config.href_sim_thresh);
    let cover: Option<Vec<u8>> = if config.include_cover {
        copy_maybe(&meta.cover)
    } else {
        None
    };
    let g = build_gallery(&a.resources, &body, &cover, settings);
    let page_tokens = place_images(&body, &a.resources, &g.numbers, config.image_format);
    proof {
        lemma_gallery(
            views(a.resources@),
            views(body@),
            maybe(cover),
            settings,
            a.resources@.len() as int,
        );
    }
    let number: Option<usize> = match &cover {
        Some(key) => match lookup_of(&a.resources, key.as_slice()) {
            Some(j) => g.numbers[j],
            None => None,
        },
        None => None,
    };
    let path: Option<Vec<u8>> = match number {
        Some(k) => Some(path_of(k, config.image_format)),
        None => None,
    };
    let styled = config.css.as_str().as_bytes().len() > 0;
    let header = write_header(config, &meta, a.url.as_slice(), &path);
    let page = write_page(config.epub_version, &meta.title, styled, &header, &page_tokens);
    let title = title_string(&meta.title);
    let failed_images = g.failures;
    let book = Book {
        title: meta.title,
        byline: meta.byline,
        serial: checksum(a.root.as_slice()),
        page,
        css: config.css.clone(),
        images: g.files,
        cover: number,
        format: config.image_format,
        version: config.epub_version,
    };
    assert(book@ == book_of(a@, config@));
    let entries = assemble(&book);
    match write_archive(&entries) {
        Some(epub) => Ok(Conversion { epub, title, failed_images }),
        None => Err(ConversionError::PackagingError),
    }
}

/// Converts an archive into a book.
pub fn convert(bytes: &[u8], config: &ConversionConfig) -> (res: Result<
    Conversion,
    ConversionError,
>)
    ensures
        res matches Ok(c) ==> converted(bytes@, config@) == Ok::<ConversionModel, ConversionError>(
            c@,
        ),
        res matches Err(e) ==> converted(bytes@, config@) == Err::<
            ConversionModel,
            ConversionError,
        >(e),
        res matches Ok(c) ==> first_entry_stored(c.epub@, text("mimetype")),
        res matches Ok(c) ==> c@.title == crate::extract::title_of(
            tokens(parsed(bytes@).unwrap().root),
        ),
        res != Err::<Conversion, ConversionError>(ConversionError::ImageDecodeError),
{
    proof {
        lemma_marker_first(bytes@, config@);
        lemma_title_returned(bytes@, config@);
    }
    if !config.is_valid() {
        return Err(ConversionError::InvalidConfig);
    }
    if !crate::archive::is_utf8(bytes) {
        return Err(ConversionError::InvalidEncoding);
    }
    match parse(bytes) {
        Ok(a) => pack(&a, config),
        Err(ParseError::MissingBoundary) => Err(ConversionError::MalformedArchive),
        Err(ParseError::MissingRootDocument) => Err(ConversionError::MalformedArchive),
        Err(ParseError::InvalidEncoding) => Err(ConversionError::InvalidEncoding),
    }
}

} // verus!
