//! The page as the one document of the book: a fresh head, the lines
//! that are put above the text, and the text itself.

use crate::bytes::{append, append_str, text, views};
use crate::config::{ConfigModel, ConversionConfig, EpubVersion};
use crate::extract::{maybe, Metadata, MetadataModel};
use crate::html::{Token, TokenModel};
use crate::package::shown_title;
use crate::render::{escaped, print, printed, write_escaped};
use vstd::prelude::*;

verus! {

/// The heading that shows the title, where it is asked for and the page
/// has a title.
pub open spec fn title_line(config: ConfigModel, title: Option<Seq<u8>>) -> Seq<u8> {
    match title {
        Some(t) => if config.include_title {
            text("<h1>") + escaped(t) + text("</h1>")
        } else {
            Seq::empty()
        },
        None => Seq::empty(),
    }
}

/// The line that names the author, where it is asked for and an author
/// is known.
pub open spec fn byline_line(config: ConfigModel, byline: Option<Seq<u8>>) -> Seq<u8> {
    match byline {
        Some(b) => if config.include_byline {
            text("<p>") + escaped(b) + text("</p>")
        } else {
            Seq::empty()
        },
        None => Seq::empty(),
    }
}

/// The line that gives the address of the page, where it is asked for
/// and the archive gives one.
pub open spec fn url_line(config: ConfigModel, url: Seq<u8>) -> Seq<u8> {
    if config.include_url && url.len() > 0 {
        text("<p><a href=\"") + escaped(url) + text("\">") + escaped(url) + text("</a></p>")
    } else {
        Seq::empty()
    }
}

/// The cover as the first image of the page, where it is asked for and
/// the book holds it.
pub open spec fn cover_line(config: ConfigModel, path: Option<Seq<u8>>) -> Seq<u8> {
    match path {
        Some(p) => if config.include_cover {
            text("<p><img src=\"") + escaped(p) + text("\" alt=\"\"/></p>")
        } else {
            Seq::empty()
        },
        None => Seq::empty(),
    }
}

/// What is put above the text: title, author, address, cover.
pub open spec fn header_block(
    config: ConfigModel,
    meta: MetadataModel,
    url: Seq<u8>,
    cover_path: Option<Seq<u8>>,
) -> Seq<u8> {
    title_line(config, meta.title) + byline_line(config, meta.byline) + url_line(config, url)
        + cover_line(config, cover_path)
}

/// The beginning of the document, up to its title.
pub open spec fn page_open(version: EpubVersion) -> Seq<u8> {
    match version {
        EpubVersion::V30 => text(
            "<?xml version=\"1.0\" encoding=\"utf-8\"?>\n<!DOCTYPE html>\n<html xmlns=\"http://www.w3.org/1999/xhtml\"><head><title>",
        ),
        EpubVersion::V20 => text(
            "<?xml version=\"1.0\" encoding=\"utf-8\"?>\n<!DOCTYPE html PUBLIC \"-//W3C//DTD XHTML 1.1//EN\" \"http://www.w3.org/TR/xhtml11/DTD/xhtml11.dtd\">\n<html xmlns=\"http://www.w3.org/1999/xhtml\"><head><title>",
        ),
    }
}

/// The reference to the style sheet of the book, where it has one.
pub open spec fn style_link(styled: bool) -> Seq<u8> {
    if styled {
        text("<link rel=\"stylesheet\" type=\"text/css\" href=\"style.css\"/>")
    } else {
        Seq::empty()
    }
}

/// The document: a head with the title and the style sheet of the book,
/// and a body with the header lines and the text, well nested.
pub open spec fn page_document(
    version: EpubVersion,
    title: Option<Seq<u8>>,
    styled: bool,
    header: Seq<u8>,
    tokens: Seq<TokenModel>,
) -> Seq<u8> {
    page_open(version) + escaped(shown_title(title)) + text("</title>") + style_link(styled)
        + text("</head><body>") + header + printed(tokens) + text("</body></html>\n")
}

fn write_title_line(out: &mut Vec<u8>, config: &ConversionConfig, title: &Option<Vec<u8>>)
    ensures
        final(out)@ == old(out)@ + title_line(config@, maybe(*title)),
{
    match title {
        Some(t) => {
            if config.include_title {
                append_str(out, "<h1>");
                write_escaped(out, t.as_slice());
                append_str(out, "</h1>");
            }
        },
        None => {},
    }
    assert(out@ =~= old(out)@ + title_line(config@, maybe(*title)));
}

fn write_byline_line(out: &mut Vec<u8>, config: &ConversionConfig, byline: &Option<Vec<u8>>)
    ensures
        final(out)@ == old(out)@ + byline_line(config@, maybe(*byline)),
{
    match byline {
        Some(b) => {
            if config.include_byline {
                append_str(out, "<p>");
                write_escaped(out, b.as_slice());
                append_str(out, "</p>");
            }
        },
        None => {},
    }
    assert(out@ =~= old(out)@ + byline_line(config@, maybe(*byline)));
}

fn write_url_line(out: &mut Vec<u8>, config: &ConversionConfig, url: &[u8])
    ensures
        final(out)@ == old(out)@ + url_line(config@, url@),
{
    if config.include_url && url.len() > 0 {
        append_str(out, "<p><a href=\"");
        write_escaped(out, url);
        append_str(out, "\">");
        write_escaped(out, url);
        append_str(out, "</a></p>");
    }
    assert(out@ =~= old(out)@ + url_line(config@, url@));
}

fn write_cover_line(out: &mut Vec<u8>, config: &ConversionConfig, path: &Option<Vec<u8>>)
    ensures
        final(out)@ == old(out)@ + cover_line(config@, maybe(*path)),
{
    match path {
        Some(p) => {
            if config.include_cover {
                append_str(out, "<p><img src=\"");
                write_escaped(out, p.as_slice());
                append_str(out, "\" alt=\"\"/></p>");
            }
        },
        None => {},
    }
    assert(out@ =~= old(out)@ + cover_line(config@, maybe(*path)));
}

/// Writes what is put above the text.
pub fn write_header(
    config: &ConversionConfig,
    meta: &Metadata,
    url: &[u8],
    cover_path: &Option<Vec<u8>>,
) -> (out: Vec<u8>)
    ensures
        out@ == header_block(config@, meta@, url@, maybe(*cover_path)),
{
    let mut out: Vec<u8> = Vec::new();
    write_title_line(&mut out, config, &meta.title);
    write_byline_line(&mut out, config, &meta.byline);
    write_url_line(&mut out, config, url);
    write_cover_line(&mut out, config, cover_path);
    assert(out@ =~= header_block(config@, meta@, url@, maybe(*cover_path)));
    out
}

fn write_page_open(out: &mut Vec<u8>, version: EpubVersion)
    ensures
        final(out)@ == old(out)@ + page_open(version),
{
    match version {
        EpubVersion::V30 => append_str(
            out,
            "<?xml version=\"1.0\" encoding=\"utf-8\"?>\n<!DOCTYPE html>\n<html xmlns=\"http://www.w3.org/1999/xhtml\"><head><title>",
        ),
        EpubVersion::V20 => append_str(
            out,
            "<?xml version=\"1.0\" encoding=\"utf-8\"?>\n<!DOCTYPE html PUBLIC \"-//W3C//DTD XHTML 1.1//EN\" \"http://www.w3.org/TR/xhtml11/DTD/xhtml11.dtd\">\n<html xmlns=\"http://www.w3.org/1999/xhtml\"><head><title>",
        ),
    }
}

fn write_shown_title(out: &mut Vec<u8>, title: &Option<Vec<u8>>)
    ensures
        final(out)@ == old(out)@ + escaped(shown_title(maybe(*title))),
{
    match title {
        Some(t) => write_escaped(out, t.as_slice()),
        None => write_escaped(out, "Untitled".as_bytes()),
    }
}

fn write_style_link(out: &mut Vec<u8>, styled: bool)
    ensures
        final(out)@ == old(out)@ + style_link(styled),
{
    if styled {
        append_str(out, "<link rel=\"stylesheet\" type=\"text/css\" href=\"style.css\"/>");
    }
    assert(out@ =~= old(out)@ + style_link(styled));
}

/// Writes the document.
pub fn write_page(
    version: EpubVersion,
    title: &Option<Vec<u8>>,
    styled: bool,
    header: &Vec<u8>,
    tokens: &Vec<Token>,
) -> (out: Vec<u8>)
    ensures
        out@ == page_document(version, maybe(*title), styled, header@, views(tokens@)),
{
    let mut out: Vec<u8> = Vec::new();
    write_page_open(&mut out, version);
    write_shown_title(&mut out, title);
    append_str(&mut out, "</title>");
    write_style_link(&mut out, styled);
    append_str(&mut out, "</head><body>");
    append(&mut out, header.as_slice());
    print(&mut out, tokens);
    append_str(&mut out, "</body></html>\n");
    assert(out@ =~= page_document(version, maybe(*title), styled, header@, views(tokens@)));
    out
}

} // verus!
