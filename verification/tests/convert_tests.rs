use repub_bind::config::{parse_image_handling, ConversionConfig, EpubVersion, FilterKind, ImageFormat, ImageHandling};
use repub_bind::convert::convert;
use repub_bind::error::ConversionError;
use repub_bind::render;
use std::io::Cursor;

fn base64(data: &[u8]) -> String {
    let table = b"ABCDEFGHIJKLMNOPQRSTUVWXYZabcdefghijklmnopqrstuvwxyz0123456789+/";
    let mut out = String::new();
    let mut column = 0;
    for chunk in data.chunks(3) {
        let b = [chunk[0], *chunk.get(1).unwrap_or(&0), *chunk.get(2).unwrap_or(&0)];
        let n = ((b[0] as u32) << 16) | ((b[1] as u32) << 8) | (b[2] as u32);
        out.push(table[(n >> 18) as usize & 63] as char);
        out.push(table[(n >> 12) as usize & 63] as char);
        out.push(if chunk.len() > 1 { table[(n >> 6) as usize & 63] as char } else { '=' });
        out.push(if chunk.len() > 2 { table[n as usize & 63] as char } else { '=' });
        column += 4;
        if column >= 76 {
            out.push_str("\r\n");
            column = 0;
        }
    }
    out
}

fn png(width: u32, height: u32) -> Vec<u8> {
    let img = image::RgbImage::from_fn(width, height, |x, y| {
        image::Rgb([(x % 251) as u8, (y % 241) as u8, ((x + y) % 239) as u8])
    });
    let mut out = Vec::new();
    image::DynamicImage::ImageRgb8(img).write_to(&mut Cursor::new(&mut out), image::ImageFormat::Png).unwrap();
    out
}

fn jpeg(width: u32, height: u32) -> Vec<u8> {
    let img = image::RgbImage::from_fn(width, height, |x, y| {
        image::Rgb([(x / 8 % 251) as u8, (y / 12 % 241) as u8, ((x + y) / 20 % 239) as u8])
    });
    let mut out = Vec::new();
    image::DynamicImage::ImageRgb8(img).write_to(&mut Cursor::new(&mut out), image::ImageFormat::Jpeg).unwrap();
    out
}

fn archive(page: &str, images: &[(&str, &str, &[u8])]) -> Vec<u8> {
    let mut s = String::new();
    s.push_str("From: <Saved by Blink>\r\nSnapshot-Content-Location: https://example.com/story\r\nSubject: story\r\nMIME-Version: 1.0\r\n");
    s.push_str("Content-Type: multipart/related;\r\n\ttype=\"text/html\";\r\n\tboundary=\"----Boundary--x----\"\r\n\r\n\r\n");
    s.push_str("------Boundary--x----\r\nContent-Type: text/html\r\nContent-Transfer-Encoding: binary\r\nContent-Location: https://example.com/story\r\n\r\n");
    s.push_str(page);
    s.push_str("\r\n");
    for (key, mime, data) in images {
        s.push_str("------Boundary--x----\r\n");
        s.push_str(&format!("Content-Type: {}\r\nContent-Transfer-Encoding: base64\r\nContent-Location: {}\r\n\r\n", mime, key));
        s.push_str(&base64(data));
        s.push_str("\r\n");
    }
    s.push_str("------Boundary--x------\r\n");
    s.into_bytes()
}

fn config(handling: ImageHandling) -> ConversionConfig {
    ConversionConfig {
        include_url: false,
        include_title: false,
        include_byline: false,
        include_cover: false,
        strip_links: false,
        href_sim_thresh: 1_000_000,
        image_handling: handling,
        image_format: ImageFormat::Jpeg(90),
        css: String::new(),
        max_width: 1404,
        max_height: 1872,
        filter_type: FilterKind::Triangle,
        brighten: 1000,
        epub_version: EpubVersion::V30,
    }
}

fn le16(b: &[u8], at: usize) -> usize {
    b[at] as usize | (b[at + 1] as usize) << 8
}

fn le32(b: &[u8], at: usize) -> usize {
    le16(b, at) | le16(b, at + 2) << 16
}

/// The files of a container whose entries are all stored, in order.
fn files(zip: &[u8]) -> Vec<(String, Vec<u8>)> {
    let mut out = Vec::new();
    let mut at = 0;
    while &zip[at..at + 4] == [0x50, 0x4b, 3, 4] {
        assert_eq!(le16(zip, at + 8), 0);
        let size = le32(zip, at + 18);
        assert_eq!(le32(zip, at + 22), size);
        let name = le16(zip, at + 26);
        let extra = le16(zip, at + 28);
        let start = at + 30 + name + extra;
        out.push((String::from_utf8(zip[at + 30..at + 30 + name].to_vec()).unwrap(), zip[start..start + size].to_vec()));
        at = start + size;
    }
    out
}

fn file<'a>(list: &'a [(String, Vec<u8>)], name: &str) -> Option<&'a Vec<u8>> {
    list.iter().find(|(n, _)| n == name).map(|(_, d)| d)
}

fn text_of(list: &[(String, Vec<u8>)], name: &str) -> String {
    String::from_utf8(file(list, name).unwrap().clone()).unwrap()
}

const PAGE: &str = "<!DOCTYPE html><html><head><meta charset=\"utf-8\"><title>A story &amp; more</title><meta name=\"author\" content=\"Ann Author\"><script>var x = '<p>';</script></head><body onload=\"go()\"><p class=\"lead\" onclick=\"x()\">Hello<br>world &nbsp; &copy; <b>bold</p><img src=\"https://example.com/photo.png\" alt=\"a photo\"><img src=\"https://example.com/pixel.gif\"><img src=\"https://example.com/missing.png\"></body></html>";

const PIXEL: &[u8] = &[
    0x47, 0x49, 0x46, 0x38, 0x39, 0x61, 0x01, 0x00, 0x01, 0x00, 0x80, 0x00, 0x00, 0x00, 0x00, 0x00, 0xff, 0xff, 0xff, 0x21, 0xf9, 0x04, 0x01, 0x00, 0x00, 0x00, 0x00, 0x2c, 0x00, 0x00, 0x00, 0x00, 0x01,
    0x00, 0x01, 0x00, 0x00, 0x02, 0x01, 0x44, 0x00, 0x3b,
];

#[test]
fn photo_is_scaled_and_tracking_pixel_is_left_out() {
    let photo = jpeg(2000, 3000);
    let bytes = archive(PAGE, &[("https://example.com/photo.png", "image/jpeg", &photo), ("https://example.com/pixel.gif", "image/gif", PIXEL)]);
    let c = convert(&bytes, &config(ImageHandling::Filter)).ok().unwrap();
    assert_eq!(c.failed_images, 0);
    let list = files(&c.epub);
    let names: Vec<&str> = list.iter().map(|(n, _)| n.as_str()).collect();
    assert_eq!(names, vec!["mimetype", "META-INF/container.xml", "OEBPS/content.opf", "OEBPS/nav.xhtml", "OEBPS/index.xhtml", "OEBPS/images/img0.jpg"]);
    let img = image::load_from_memory(file(&list, "OEBPS/images/img0.jpg").unwrap()).unwrap();
    assert_eq!((img.width(), img.height()), (1248, 1872));
    let opf = text_of(&list, "OEBPS/content.opf");
    assert_eq!(opf.matches("media-type=\"image/").count(), 1);
    assert!(opf.contains("<item id=\"img0\" href=\"images/img0.jpg\" media-type=\"image/jpeg\"/>"));
    let page = text_of(&list, "OEBPS/index.xhtml");
    assert_eq!(page.matches("<img").count(), 1);
    assert!(page.contains("<img src=\"images/img0.jpg\" alt=\"a photo\"/>"));
}

#[test]
fn page_is_cleaned_and_well_nested() {
    let bytes = archive(PAGE, &[]);
    let c = convert(&bytes, &config(ImageHandling::Keep)).ok().unwrap();
    let list = files(&c.epub);
    let page = text_of(&list, "OEBPS/index.xhtml");
    assert_eq!(
        page,
        "<?xml version=\"1.0\" encoding=\"utf-8\"?>\n<!DOCTYPE html>\n<html xmlns=\"http://www.w3.org/1999/xhtml\"><head><title>A story &amp; more</title></head><body><p>Hello<br/>world &#160; &amp;copy; <b>bold</b></p></body></html>\n"
    );
    assert_eq!(c.title.as_deref(), Some("A story &amp; more"));
}

#[test]
fn archive_without_page_is_malformed() {
    let mut s = String::new();
    s.push_str("Content-Type: multipart/related; boundary=\"b\"\r\n\r\n--b\r\nContent-Type: image/gif\r\nContent-Transfer-Encoding: base64\r\n\r\n");
    s.push_str(&base64(PIXEL));
    s.push_str("\r\n--b--\r\n");
    assert_eq!(convert(s.as_bytes(), &config(ImageHandling::Keep)).err(), Some(ConversionError::MalformedArchive));
    assert_eq!(convert(b"no archive at all", &config(ImageHandling::Keep)).err(), Some(ConversionError::MalformedArchive));
    assert_eq!(convert(b"", &config(ImageHandling::Strip)).err(), Some(ConversionError::MalformedArchive));
}

#[test]
fn first_entry_is_the_stored_marker() {
    let bytes = archive(PAGE, &[("https://example.com/photo.png", "image/png", &png(20, 10))]);
    for handling in [ImageHandling::Strip, ImageHandling::Filter, ImageHandling::Keep] {
        let c = convert(&bytes, &config(handling)).ok().unwrap();
        assert_eq!(&c.epub[0..4], &[0x50, 0x4b, 3, 4]);
        assert_eq!(&c.epub[8..10], &[0, 0]);
        assert_eq!(le16(&c.epub, 26), 8);
        assert_eq!(le16(&c.epub, 28), 0);
        assert_eq!(&c.epub[30..38], b"mimetype");
        assert_eq!(&c.epub[38..58], b"application/epub+zip");
    }
}

#[test]
fn title_is_returned_as_written() {
    let with = archive("<html><head><title> Caf\u{e9} &lt;1&gt; </title></head><body><p>x</p></body></html>", &[]);
    let c = convert(&with, &config(ImageHandling::Keep)).ok().unwrap();
    assert_eq!(c.title.as_deref(), Some(" Caf\u{e9} &lt;1&gt; "));
    let without = archive("<html><head></head><body><p>x</p></body></html>", &[]);
    let c = convert(&without, &config(ImageHandling::Keep)).ok().unwrap();
    assert_eq!(c.title, None);
    let list = files(&c.epub);
    assert!(text_of(&list, "OEBPS/content.opf").contains("<dc:title>Untitled</dc:title>"));
}

#[test]
fn strip_leaves_no_image() {
    let bytes = archive(PAGE, &[("https://example.com/photo.png", "image/png", &png(20, 10)), ("https://example.com/pixel.gif", "image/gif", PIXEL)]);
    let c = convert(&bytes, &config(ImageHandling::Strip)).ok().unwrap();
    let list = files(&c.epub);
    assert_eq!(list.len(), 5);
    assert!(list.iter().all(|(n, _)| !n.starts_with("OEBPS/images/")));
    assert!(!text_of(&list, "OEBPS/content.opf").contains("image/"));
    assert!(!text_of(&list, "OEBPS/index.xhtml").contains("<img"));
    assert_eq!(c.failed_images, 0);
}

#[test]
fn keep_holds_every_image_within_bounds() {
    let bytes = archive(PAGE, &[("https://example.com/photo.png", "image/png", &png(300, 200)), ("https://example.com/pixel.gif", "image/gif", PIXEL)]);
    let mut cfg = config(ImageHandling::Keep);
    cfg.max_width = 100;
    cfg.max_height = 100;
    let c = convert(&bytes, &cfg).ok().unwrap();
    let list = files(&c.epub);
    let a = image::load_from_memory(file(&list, "OEBPS/images/img0.jpg").unwrap()).unwrap();
    assert_eq!((a.width(), a.height()), (100, 66));
    let b = image::load_from_memory(file(&list, "OEBPS/images/img1.jpg").unwrap()).unwrap();
    assert_eq!((b.width(), b.height()), (1, 1));
    let page = text_of(&list, "OEBPS/index.xhtml");
    assert!(page.contains("<img src=\"images/img0.jpg\" alt=\"a photo\"/><img src=\"images/img1.jpg\"/>"));
    assert!(!page.contains("missing"));
}

#[test]
fn undecodable_image_is_left_out_and_counted() {
    let bytes = archive(PAGE, &[("https://example.com/photo.png", "image/png", b"this is no image"), ("https://example.com/pixel.gif", "image/gif", PIXEL)]);
    let c = convert(&bytes, &config(ImageHandling::Keep)).ok().unwrap();
    assert_eq!(c.failed_images, 1);
    let list = files(&c.epub);
    assert_eq!(list.iter().filter(|(n, _)| n.starts_with("OEBPS/images/")).count(), 1);
    assert_eq!(text_of(&list, "OEBPS/index.xhtml").matches("<img").count(), 1);
}

#[test]
fn unit_brightness_changes_no_pixel() {
    let source = png(40, 30);
    let bytes = archive(PAGE, &[("https://example.com/photo.png", "image/png", &source)]);
    let mut cfg = config(ImageHandling::Keep);
    cfg.image_format = ImageFormat::Png;
    let c = convert(&bytes, &cfg).ok().unwrap();
    let list = files(&c.epub);
    let out = image::load_from_memory(file(&list, "OEBPS/images/img0.png").unwrap()).unwrap().into_rgb8();
    let source_pixels = image::load_from_memory(&source).unwrap().into_rgb8();
    assert_eq!(out.as_raw(), source_pixels.as_raw());
    cfg.brighten = 2000;
    let c = convert(&bytes, &cfg).ok().unwrap();
    let list = files(&c.epub);
    let bright = image::load_from_memory(file(&list, "OEBPS/images/img0.png").unwrap()).unwrap().into_rgb8();
    for (a, b) in source_pixels.as_raw().iter().zip(bright.as_raw().iter()) {
        assert_eq!(*b as u32, (*a as u32 * 2).min(255));
    }
}

#[test]
fn conversion_is_repeatable() {
    let bytes = archive(PAGE, &[("https://example.com/photo.png", "image/png", &png(64, 48)), ("https://example.com/pixel.gif", "image/gif", PIXEL)]);
    let mut cfg = config(ImageHandling::Filter);
    cfg.css = String::from("p { margin: 0 }");
    cfg.strip_links = true;
    cfg.href_sim_thresh = 500_000;
    let a = convert(&bytes, &cfg).ok().unwrap();
    let b = convert(&bytes, &cfg).ok().unwrap();
    assert_eq!(a.epub, b.epub);
    assert_eq!(a.title, b.title);
    let list = files(&a.epub);
    assert_eq!(text_of(&list, "OEBPS/style.css"), "p { margin: 0 }");
    assert!(text_of(&list, "OEBPS/index.xhtml").contains("<link rel=\"stylesheet\" type=\"text/css\" href=\"style.css\"/></head>"));
    assert!(text_of(&list, "OEBPS/content.opf").contains("<item id=\"css\" href=\"style.css\" media-type=\"text/css\"/>"));
}

#[test]
fn headers_are_put_above_the_text() {
    let page = "<html><head><title>T</title><meta name=\"author\" content=\"Ann &amp; Bob\"><meta property=\"og:image\" content=\"cover.png\"></head><body><p>x</p></body></html>";
    let bytes = archive(page, &[("cover.png", "image/png", &png(64, 48))]);
    let mut cfg = config(ImageHandling::Keep);
    cfg.include_title = true;
    cfg.include_byline = true;
    cfg.include_url = true;
    cfg.include_cover = true;
    let c = convert(&bytes, &cfg).ok().unwrap();
    let list = files(&c.epub);
    let out = text_of(&list, "OEBPS/index.xhtml");
    assert!(out.contains("<body><h1>T</h1><p>Ann &amp; Bob</p><p><a href=\"https://example.com/story\">https://example.com/story</a></p><p><img src=\"images/img0.jpg\" alt=\"\"/></p><p>x</p>"));
    let opf = text_of(&list, "OEBPS/content.opf");
    assert!(opf.contains("<dc:creator>Ann &amp; Bob</dc:creator>"));
    assert!(opf.contains("<item id=\"img0\" href=\"images/img0.jpg\" media-type=\"image/jpeg\" properties=\"cover-image\"/>"));
    assert!(opf.contains("<dc:identifier id=\"id\">urn:page:"));
    cfg.include_cover = false;
    let c = convert(&bytes, &cfg).ok().unwrap();
    assert_eq!(files(&c.epub).len(), 5);
}

#[test]
fn navigation_follows_the_version() {
    let bytes = archive(PAGE, &[]);
    let mut cfg = config(ImageHandling::Strip);
    let three = files(&convert(&bytes, &cfg).ok().unwrap().epub);
    assert!(file(&three, "OEBPS/nav.xhtml").is_some());
    assert!(file(&three, "OEBPS/toc.ncx").is_none());
    assert!(text_of(&three, "OEBPS/content.opf").contains("version=\"3.0\""));
    assert!(text_of(&three, "OEBPS/nav.xhtml").contains("<a href=\"index.xhtml\">A story &amp; more</a>"));
    cfg.epub_version = EpubVersion::V20;
    let two = files(&convert(&bytes, &cfg).ok().unwrap().epub);
    assert!(file(&two, "OEBPS/nav.xhtml").is_none());
    assert!(file(&two, "OEBPS/toc.ncx").is_some());
    assert!(text_of(&two, "OEBPS/content.opf").contains("<spine toc=\"ncx\">"));
    assert!(text_of(&two, "OEBPS/toc.ncx").contains("<text>A story &amp; more</text>"));
}

#[test]
fn options_out_of_range_are_refused() {
    let bytes = archive(PAGE, &[]);
    let mut cfg = config(ImageHandling::Keep);
    cfg.max_width = 0;
    assert_eq!(convert(&bytes, &cfg).err(), Some(ConversionError::InvalidConfig));
    let mut cfg = config(ImageHandling::Keep);
    cfg.href_sim_thresh = 1_000_001;
    assert_eq!(convert(&bytes, &cfg).err(), Some(ConversionError::InvalidConfig));
    assert_eq!(convert(&[0xff, 0xfe], &cfg).err(), Some(ConversionError::InvalidConfig));
}

#[test]
fn bytes_that_are_not_text_are_refused() {
    let cfg = config(ImageHandling::Keep);
    assert_eq!(convert(&[0xff, 0xfe, 0x00], &cfg).err(), Some(ConversionError::InvalidEncoding));
    let mut s = String::new();
    s.push_str("Content-Type: multipart/related; boundary=\"b\"\r\n\r\n--b\r\nContent-Type: text/html\r\nContent-Transfer-Encoding: base64\r\n\r\n!!!\r\n--b--\r\n");
    assert_eq!(convert(s.as_bytes(), &cfg).err(), Some(ConversionError::InvalidEncoding));
}

#[test]
fn render_names_its_failures() {
    let bytes = archive(PAGE, &[]);
    assert_eq!(render(&bytes, "none", 500_000, 1000, false, "", false, false, false).err().unwrap(), "invalid image handling");
    assert_eq!(render(&bytes, "Keep", 500_000, 1000, false, "", false, false, false).err().unwrap(), "invalid image handling");
    assert_eq!(render(&[0xc3, 0x28], "keep", 500_000, 1000, false, "", false, false, false).err().unwrap(), "invalid utf8");
    assert_eq!(render(&[0xc3, 0x28], "bad", 500_000, 1000, false, "", false, false, false).err().unwrap(), "invalid image handling");
    assert_eq!(render(b"x", "strip", 500_000, 1000, false, "", false, false, false).err().unwrap(), "malformed archive");
    assert_eq!(render(&bytes, "keep", 2_000_000, 1000, false, "", false, false, false).err().unwrap(), "invalid configuration");
}

#[test]
fn archive_as_a_browser_writes_it_is_converted() {
    let mut s = String::new();
    s.push_str("From: <Saved by Blink>\r\nSnapshot-Content-Location: https://example.com/a?b=1&c=2\r\nSubject: =?utf-8?Q?Caf=C3=A9?=\r\nDate: Sat, 1 Jan 2022 00:00:00 -0000\r\nMIME-Version: 1.0\r\n");
    s.push_str("Content-Type: multipart/related;\r\n\ttype=\"text/html\";\r\n\tboundary=\"----MultipartBoundary--AbCdEf0123456789----\"\r\n\r\n\r\n");
    s.push_str("------MultipartBoundary--AbCdEf0123456789----\r\nContent-Type: text/html\r\nContent-ID: <frame-0@mhtml.blink>\r\nContent-Transfer-Encoding: quoted-printable\r\nContent-Location: https://example.com/a?b=3D1\r\n\r\n");
    s.push_str("<!DOCTYPE html><html lang=3D\"en\"><head><meta http-equiv=3D\"Content-Type\" content=3D\"text/html; charset=3DUTF-8\"><link rel=3D\"stylesheet\" href=3D\"cid:css-1@mhtml.blink\"><title>Caf=C3=A9 =E2=80=93 menu</title></head><body><nav><a href=3D\"/one\">One</a> <a href=\r\n=3D\"/two\">Two</a></nav><p>Prix: 5=C2=A0=E2=82=AC</p></body></html>\r\n");
    s.push_str("------MultipartBoundary--AbCdEf0123456789----\r\nContent-Type: text/css\r\nContent-Transfer-Encoding: quoted-printable\r\nContent-Location: cid:css-1@mhtml.blink\r\n\r\n@charset \"utf-8\";\r\n\r\nbody { margin: 0px; }\r\n");
    s.push_str("------MultipartBoundary--AbCdEf0123456789------\r\n");
    let mut cfg = config(ImageHandling::Filter);
    cfg.include_url = true;
    cfg.strip_links = true;
    cfg.href_sim_thresh = 250_000;
    let c = convert(s.as_bytes(), &cfg).ok().unwrap();
    assert_eq!(c.title.as_deref(), Some("Caf\u{e9} \u{2013} menu"));
    let list = files(&c.epub);
    assert_eq!(list.len(), 5);
    let page = text_of(&list, "OEBPS/index.xhtml");
    assert_eq!(
        page,
        "<?xml version=\"1.0\" encoding=\"utf-8\"?>\n<!DOCTYPE html>\n<html xmlns=\"http://www.w3.org/1999/xhtml\"><head><title>Caf\u{e9} \u{2013} menu</title></head><body><p><a href=\"https://example.com/a?b=1&amp;c=2\">https://example.com/a?b=1&amp;c=2</a></p><nav><a>One</a> <a>Two</a></nav><p>Prix: 5\u{a0}\u{20ac}</p></body></html>\n"
    );
    cfg.href_sim_thresh = 250_001;
    let c = convert(s.as_bytes(), &cfg).ok().unwrap();
    assert!(text_of(&files(&c.epub), "OEBPS/index.xhtml").contains("<nav><a href=\"/one\">One</a> <a href=\"/two\">Two</a></nav>"));
}

#[test]
fn policy_is_read_by_name() {
    assert_eq!(parse_image_handling("strip"), Ok(ImageHandling::Strip));
    assert_eq!(parse_image_handling("filter"), Ok(ImageHandling::Filter));
    assert_eq!(parse_image_handling("keep"), Ok(ImageHandling::Keep));
    assert_eq!(parse_image_handling("Keep"), Err(ConversionError::InvalidConfig));
    assert_eq!(parse_image_handling("keep "), Err(ConversionError::InvalidConfig));
    assert_eq!(parse_image_handling(""), Err(ConversionError::InvalidConfig));
}

#[test]
fn errors_say_what_went_wrong() {
    assert_eq!(ConversionError::InvalidConfig.message(), "invalid configuration");
    assert_eq!(ConversionError::MalformedArchive.message(), "malformed archive");
    assert_eq!(ConversionError::InvalidEncoding.message(), "invalid encoding");
    assert_eq!(ConversionError::ImageDecodeError.message(), "image cannot be decoded");
    assert_eq!(ConversionError::PackagingError.message(), "book cannot be packaged");
}

#[test]
fn render_makes_a_book_with_a_title() {
    let bytes = archive(PAGE, &[("https://example.com/photo.png", "image/png", &png(64, 48))]);
    let e = render(&bytes, "keep", 500_000, 1000, true, "body { color: black }", true, true, true).ok().unwrap();
    assert_eq!(e.title.as_deref(), Some("A story &amp; more"));
    let list = files(&e.epub);
    let page = text_of(&list, "OEBPS/index.xhtml");
    assert!(page.contains("<h1>A story &amp; more</h1><p>Ann Author</p><p><a href=\"https://example.com/story\">"));
    assert!(file(&list, "OEBPS/images/img0.jpg").is_some());
    assert_eq!(text_of(&list, "OEBPS/style.css"), "body { color: black }");
}
