//! Conversion of single-file web-page archives (MHTML) into EPUB books.
//!
//! [`convert::convert`] takes the bytes of an archive and the options of
//! [`config::ConversionConfig`]; [`render`] is the same conversion with
//! the options of a reading device fixed and the rest given one by one.

pub mod archive;
pub mod bytes;
pub mod clean;
pub mod config;
pub mod convert;
pub mod error;
pub mod extract;
pub mod html;
pub mod images;
pub mod links;
pub mod mime;
pub mod package;
pub mod page;
pub mod raster;
pub mod render;
pub mod transfer;
pub mod zip;

use crate::bytes::text;
use crate::config::{
    image_handling_named, parse_image_handling, ConfigModel, ConversionConfig, EpubVersion,
    FilterKind, ImageFormat, ImageHandling,
};
use crate::convert::{convert, converted};
use crate::error::message_of;
use vstd::prelude::*;
use vstd::string::StringExecFns;
use vstd::utf8::{encode_utf8, valid_utf8};

verus! {

/// A book and the title of the page that it was made from.
pub struct Epub {
    pub epub: Vec<u8>,
    pub title: Option<String>,
}

/// The title as UTF-8, where there is one.
pub open spec fn title_bytes(title: Option<String>) -> Option<Seq<u8>> {
    match title {
        Some(s) => Some(encode_utf8(s@)),
        None => None,
    }
}

/// The options of [`render`]: those that it is given, and for the rest
/// a title above the text, JPEG of quality 90, a screen of 1404 by 1872
/// pixels, the triangle kernel, and version 3 of the standard.
pub open spec fn render_options(
    handling: ImageHandling,
    href_sim_thresh: u32,
    image_brightness: u32,
    filter_links: bool,
    css: Seq<u8>,
    href_header: bool,
    byline_header: bool,
    cover_header: bool,
) -> ConfigModel {
    ConfigModel {
        include_url: href_header,
        include_title: true,
        include_byline: byline_header,
        include_cover: cover_header,
        strip_links: filter_links,
        href_sim_thresh,
        image_handling: handling,
        image_format: ImageFormat::Jpeg(90),
        css,
        max_width: 1404,
        max_height: 1872,
        filter_type: FilterKind::Triangle,
        brighten: image_brightness,
        epub_version: EpubVersion::V30,
    }
}

/// Converts an archive into a book for a reading device.
///
/// The image policy is given by name (`strip`, `filter` or `keep`), the
/// similarity threshold in millionths and the brightness in thousandths.
/// A name that is no policy is refused first, then bytes that are not
/// UTF-8; every other failure is that of the conversion, in its own
/// words.
pub fn render(
    mhtml: &[u8],
    image_handling: &str,
    href_sim_thresh: u32,
    image_brightness: u32,
    filter_links: bool,
    css: &str,
    href_header: bool,
    byline_header: bool,
    cover_header: bool,
) -> (res: Result<Epub, String>)
    ensures
        match image_handling_named(text(image_handling)) {
            None => res matches Err(m) && m@ == "invalid image handling"@,
            Some(handling) => if !valid_utf8(mhtml@) {
                res matches Err(m) && m@ == "invalid utf8"@
            } else {
                match converted(
                    mhtml@,
                    render_options(
                        handling,
                        href_sim_thresh,
                        image_brightness,
                        filter_links,
                        text(css),
                        href_header,
                        byline_header,
                        cover_header,
                    ),
                ) {
                    Ok(c) => res matches Ok(e) && e.epub@ == c.epub && title_bytes(e.title)
                        == c.title,
                    Err(x) => res matches Err(m) && m@ == message_of(x),
                }
            },
        },
{
    let handling = match parse_image_handling(image_handling) {
        Ok(h) => h,
        Err(e) => {
            return Err(String::from_str("invalid image handling"));
        },
    };
    let config = ConversionConfig {
        include_url: href_header,
        include_title: true,
        include_byline: byline_header,
        include_cover: cover_header,
        strip_links: filter_links,
        href_sim_thresh,
        image_handling: handling,
        image_format: ImageFormat::Jpeg(90),
        css: String::from_str(css),
        max_width: 1404,
        max_height: 1872,
        filter_type: FilterKind::Triangle,
        brighten: image_brightness,
        epub_version: EpubVersion::V30,
    };
    if !crate::archive::is_utf8(mhtml) {
        return Err(String::from_str("invalid utf8"));
    }
    match convert(mhtml, &config) {
        Ok(c) => Ok(Epub { epub: c.epub, title: c.title }),
        Err(e) => Err(e.message()),
    }
}

} // verus!
