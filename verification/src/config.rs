//! The options of one conversion.
//!
//! Fractions are held in fixed point: the link-similarity threshold in
//! millionths, the brightness factor in thousandths.

use crate::bytes::{matches_all, text};
use crate::error::ConversionError;
use vstd::prelude::*;
use vstd::utf8::encode_utf8;

verus! {

/// What becomes of the images of the page.
#[derive(Clone, Copy, Debug, PartialEq, Eq, Structural)]
pub enum ImageHandling {
    /// Every image is removed.
    Strip,
    /// Decorative images are removed, the others are kept.
    Filter,
    /// Every image that can be decoded is kept.
    Keep,
}

/// The format in which kept images are written.
#[derive(Clone, Copy, Debug, PartialEq, Eq, Structural)]
pub enum ImageFormat {
    /// JPEG at the given quality, 1 to 100.
    Jpeg(u8),
    /// PNG.
    Png,
}

/// The kernel used when an image is scaled down. Both are computed with
/// additions, multiplications and divisions alone, so that an image
/// comes out the same wherever the book is made.
#[derive(Clone, Copy, Debug, PartialEq, Eq, Structural)]
pub enum FilterKind {
    /// The nearest pixels, each with the same weight.
    Nearest,
    /// Linear weights: the kernel is a triangle.
    Triangle,
}

/// The version of the EPUB standard that the book follows.
#[derive(Clone, Copy, Debug, PartialEq, Eq, Structural)]
pub enum EpubVersion {
    V20,
    V30,
}

/// One in the unit of the similarity threshold.
pub const SIMILARITY_ONE: u32 = 1_000_000;

/// One in the unit of the brightness factor.
pub const BRIGHTNESS_ONE: u32 = 1000;

/// The options of one conversion. Built once, read only.
pub struct ConversionConfig {
    /// Put the address of the page above the text.
    pub include_url: bool,
    /// Put the title above the text, as a heading.
    pub include_title: bool,
    /// Put the byline above the text, where one is found.
    pub include_byline: bool,
    /// Put the cover image above the text, where one is found.
    pub include_cover: bool,
    /// Take the address out of links that are judged to be navigation.
    pub strip_links: bool,
    /// Similarity, in millionths, from which on two neighbouring links
    /// are judged to be navigation.
    pub href_sim_thresh: u32,
    pub image_handling: ImageHandling,
    pub image_format: ImageFormat,
    /// Style sheet of the book; empty for none.
    pub css: String,
    /// Greatest width of an image, in pixels; at least 1.
    pub max_width: u32,
    /// Greatest height of an image, in pixels; at least 1.
    pub max_height: u32,
    pub filter_type: FilterKind,
    /// Factor, in thousandths, by which every colour value is multiplied.
    pub brighten: u32,
    pub epub_version: EpubVersion,
}

/// The mathematical content of a [`ConversionConfig`]: the same options,
/// with the style sheet as bytes.
pub struct ConfigModel {
    pub include_url: bool,
    pub include_title: bool,
    pub include_byline: bool,
    pub include_cover: bool,
    pub strip_links: bool,
    pub href_sim_thresh: u32,
    pub image_handling: ImageHandling,
    pub image_format: ImageFormat,
    pub css: Seq<u8>,
    pub max_width: u32,
    pub max_height: u32,
    pub filter_type: FilterKind,
    pub brighten: u32,
    pub epub_version: EpubVersion,
}

impl View for ConversionConfig {
    type V = ConfigModel;

    open spec fn view(&self) -> ConfigModel {
        ConfigModel {
            include_url: self.include_url,
            include_title: self.include_title,
            include_byline: self.include_byline,
            include_cover: self.include_cover,
            strip_links: self.strip_links,
            href_sim_thresh: self.href_sim_thresh,
            image_handling: self.image_handling,
            image_format: self.image_format,
            css: encode_utf8(self.css@),
            max_width: self.max_width,
            max_height: self.max_height,
            filter_type: self.filter_type,
            brighten: self.brighten,
            epub_version: self.epub_version,
        }
    }
}

impl ConfigModel {
    /// The values that the conversion accepts: a threshold of at most one
    /// and positive image bounds. Any brightness is accepted.
    pub open spec fn valid(self) -> bool {
        &&& self.href_sim_thresh <= SIMILARITY_ONE
        &&& self.max_width >= 1
        &&& self.max_height >= 1
    }
}

impl ConversionConfig {
    /// Decides whether the options are such as the conversion accepts.
    pub fn is_valid(&self) -> (ok: bool)
        ensures
            ok == self@.valid(),
    {
        self.href_sim_thresh <= SIMILARITY_ONE && self.max_width >= 1 && self.max_height >= 1
    }
}

/// The policy that a name stands for, if it is one of the three names.
pub open spec fn image_handling_named(name: Seq<u8>) -> Option<ImageHandling> {
    if name == text("strip") {
        Some(ImageHandling::Strip)
    } else if name == text("filter") {
        Some(ImageHandling::Filter)
    } else if name == text("keep") {
        Some(ImageHandling::Keep)
    } else {
        None
    }
}

/// Reads the name of an image policy: `strip`, `filter` or `keep`,
/// written exactly so. Any other name is refused: it is no policy, and
/// none is put in its place.
pub fn parse_image_handling(name: &str) -> (res: Result<ImageHandling, ConversionError>)
    ensures
        res == match image_handling_named(text(name)) {
            Some(handling) => Ok::<ImageHandling, ConversionError>(handling),
            None => Err::<ImageHandling, ConversionError>(ConversionError::InvalidConfig),
        },
{
    let bytes = name.as_bytes();
    if matches_all(bytes, "strip".as_bytes()) {
        Ok(ImageHandling::Strip)
    } else if matches_all(bytes, "filter".as_bytes()) {
        Ok(ImageHandling::Filter)
    } else if matches_all(bytes, "keep".as_bytes()) {
        Ok(ImageHandling::Keep)
    } else {
        Err(ConversionError::InvalidConfig)
    }
}

} // verus!
