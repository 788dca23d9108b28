use repub_bind::config::{EpubVersion, ImageFormat};
use repub_bind::images::{build_gallery, lookup_of, path_of, place_images};
use repub_bind::archive::Resource;
use repub_bind::config::{FilterKind, ImageHandling};
use repub_bind::html::tokenize;
use repub_bind::mime::{field_of, media_type_of, param_of, parts_of, trim};
use repub_bind::package::{assemble, write_package, Book};
use repub_bind::raster::ImageSettings;
use repub_bind::zip::{checksum, write_archive, Entry};
use std::io::Cursor;

fn book(version: EpubVersion) -> Book {
    Book {
        title: Some(b"T < U".to_vec()),
        byline: Some(b"Ann".to_vec()),
        serial: 0x00ab_cdef,
        page: b"<html/>".to_vec(),
        css: String::from("p{}"),
        images: vec![Entry { name: b"images/img0.png".to_vec(), data: vec![1, 2, 3] }, Entry { name: b"images/img1.png".to_vec(), data: vec![4] }],
        cover: Some(1),
        format: ImageFormat::Png,
        version,
    }
}

#[test]
fn package_document_lists_every_file() {
    let opf = String::from_utf8(write_package(&book(EpubVersion::V30))).unwrap();
    assert_eq!(
        opf,
        "<?xml version=\"1.0\" encoding=\"utf-8\"?>\n<package xmlns=\"http://www.idpf.org/2007/opf\" version=\"3.0\" unique-identifier=\"id\"><metadata xmlns:dc=\"http://purl.org/dc/elements/1.1/\"><dc:identifier id=\"id\">urn:page:00abcdef</dc:identifier><dc:title>T &lt; U</dc:title><dc:language>en</dc:language><dc:creator>Ann</dc:creator><meta property=\"dcterms:modified\">2000-01-01T00:00:00Z</meta></metadata><manifest><item id=\"nav\" href=\"nav.xhtml\" media-type=\"application/xhtml+xml\" properties=\"nav\"/><item id=\"index\" href=\"index.xhtml\" media-type=\"application/xhtml+xml\"/><item id=\"css\" href=\"style.css\" media-type=\"text/css\"/><item id=\"img0\" href=\"images/img0.png\" media-type=\"image/png\"/><item id=\"img1\" href=\"images/img1.png\" media-type=\"image/png\" properties=\"cover-image\"/></manifest><spine><itemref idref=\"index\"/></spine></package>\n"
    );
    let two = String::from_utf8(write_package(&book(EpubVersion::V20))).unwrap();
    assert!(two.contains("version=\"2.0\""));
    assert!(two.contains("<meta name=\"cover\" content=\"img1\"/></metadata>"));
    assert!(two.contains("<item id=\"ncx\" href=\"toc.ncx\" media-type=\"application/x-dtbncx+xml\"/>"));
    assert!(two.contains("<item id=\"img1\" href=\"images/img1.png\" media-type=\"image/png\"/>"));
    assert!(!two.contains("dcterms"));
}

#[test]
fn files_come_in_the_order_of_the_container() {
    let list = assemble(&book(EpubVersion::V30));
    let names: Vec<String> = list.iter().map(|e| String::from_utf8(e.name.clone()).unwrap()).collect();
    assert_eq!(names, vec!["mimetype", "META-INF/container.xml", "OEBPS/content.opf", "OEBPS/nav.xhtml", "OEBPS/index.xhtml", "OEBPS/style.css", "OEBPS/images/img0.png", "OEBPS/images/img1.png"]);
    assert_eq!(list[0].data, b"application/epub+zip");
    assert!(String::from_utf8(list[1].data.clone()).unwrap().contains("full-path=\"OEBPS/content.opf\""));
    assert_eq!(list[4].data, b"<html/>");
    assert_eq!(list[5].data, b"p{}");
    assert_eq!(list[7].data, vec![4]);
    let mut plain = book(EpubVersion::V20);
    plain.css = String::new();
    plain.images = Vec::new();
    plain.cover = None;
    let list = assemble(&plain);
    assert_eq!(list.len(), 5);
    assert_eq!(list[3].name, b"OEBPS/toc.ncx");
    assert!(String::from_utf8(list[3].data.clone()).unwrap().contains("content=\"urn:page:00abcdef\""));
}

#[test]
fn container_has_a_directory_that_matches() {
    let entries = vec![Entry { name: b"mimetype".to_vec(), data: b"application/epub+zip".to_vec() }, Entry { name: b"a/b.txt".to_vec(), data: b"hello".to_vec() }, Entry { name: b"empty".to_vec(), data: Vec::new() }];
    let z = write_archive(&entries).unwrap();
    let end = z.len() - 22;
    assert_eq!(&z[end..end + 4], &[0x50, 0x4b, 5, 6]);
    assert_eq!(&z[end + 8..end + 12], &[3, 0, 3, 0]);
    let size = u32::from_le_bytes([z[end + 12], z[end + 13], z[end + 14], z[end + 15]]) as usize;
    let at = u32::from_le_bytes([z[end + 16], z[end + 17], z[end + 18], z[end + 19]]) as usize;
    assert_eq!(at + size, end);
    assert_eq!(at, 58 + 30 + 7 + 5 + 30 + 5);
    assert_eq!(&z[at..at + 4], &[0x50, 0x4b, 1, 2]);
    assert_eq!(&z[at + 46..at + 54], b"mimetype");
    let second = at + 54;
    assert_eq!(&z[second + 42..second + 46], &[58, 0, 0, 0]);
    assert_eq!(&z[second + 16..second + 20], &checksum(b"hello").to_le_bytes());
    assert_eq!(checksum(b"hello"), 0x3610_a686);
    assert_eq!(&z[58 + 14..58 + 18], &0x3610_a686u32.to_le_bytes());
    assert_eq!(&z[58 + 18..58 + 22], &[5, 0, 0, 0]);
    assert_eq!(write_archive(&Vec::new()).unwrap().len(), 22);
}

#[test]
fn entries_that_do_not_fit_are_refused() {
    let long = vec![Entry { name: vec![b'a'; 65536], data: Vec::new() }];
    assert!(write_archive(&long).is_none());
    let fits = vec![Entry { name: vec![b'a'; 65535], data: Vec::new() }];
    assert!(write_archive(&fits).is_some());
    let many: Vec<Entry> = (0..65536).map(|_| Entry { name: Vec::new(), data: Vec::new() }).collect();
    assert!(write_archive(&many).is_none());
}

#[test]
fn header_fields_are_read() {
    let h = b"From: x\r\nContent-Type: multipart/related;\r\n\ttype=\"text/html\";\r\n boundary=\"--B;b--\"\r\ncontent-location:  http://a/b \r\nX-Empty:\r\n";
    assert_eq!(field_of(h, b"from").unwrap(), b"x");
    assert_eq!(field_of(h, b"content-location").unwrap(), b"http://a/b");
    assert_eq!(field_of(h, b"x-empty").unwrap(), b"");
    assert!(field_of(h, b"type").is_none());
    assert!(field_of(h, b"location").is_none());
    let ct = field_of(h, b"content-type").unwrap();
    assert_eq!(ct, b"multipart/related;\ttype=\"text/html\"; boundary=\"--B;b--\"".to_vec());
    assert_eq!(media_type_of(&ct), b"multipart/related");
    assert_eq!(param_of(&ct, b"boundary").unwrap(), b"--B;b--");
    assert_eq!(param_of(&ct, b"type").unwrap(), b"text/html");
    assert!(param_of(&ct, b"charset").is_none());
    assert_eq!(param_of(b"text/html; Charset=UTF-8; x=1", b"charset").unwrap(), b"UTF-8");
    assert_eq!(media_type_of(b" Text/HTML ; charset=x"), b"text/html");
    assert_eq!(trim(b" \t a b \r\n"), b"a b");
    assert_eq!(trim(b"   "), b"");
}

#[test]
fn body_is_split_at_delimiter_lines() {
    let body = b"preamble\r\n--b\r\none\r\n--b\r\n\r\n--b\nthree\nlines\n--b--\r\nepilogue\r\n--b\r\nnever";
    let list = parts_of(body, b"b");
    let found: Vec<&[u8]> = list.iter().map(|s| &body[s.start..s.end]).collect();
    assert_eq!(found, vec![&b"one"[..], &b""[..], &b"three\nlines"[..]]);
    assert_eq!(parts_of(b"no delimiter here", b"b").len(), 0);
    assert_eq!(parts_of(b"x--b\r\nnot at line start", b"b").len(), 0);
    let open = b"--b\r\nunfinished";
    let list = parts_of(open, b"b");
    assert_eq!(list.len(), 1);
    assert_eq!(&open[list[0].start..list[0].end], b"unfinished");
}

fn png(width: u32, height: u32) -> Vec<u8> {
    let img = image::RgbImage::from_fn(width, height, |x, y| image::Rgb([(x * 7 % 256) as u8, (y * 5 % 256) as u8, 9]));
    let mut out = Vec::new();
    image::DynamicImage::ImageRgb8(img).write_to(&mut Cursor::new(&mut out), image::ImageFormat::Png).unwrap();
    out
}

#[test]
fn gallery_holds_what_the_page_shows() {
    let resources = vec![
        Resource { key: b"a.png".to_vec(), mime: b"image/png".to_vec(), data: png(20, 20) },
        Resource { key: b"unused.png".to_vec(), mime: b"image/png".to_vec(), data: png(30, 30) },
        Resource { key: b"bad.png".to_vec(), mime: b"image/png".to_vec(), data: b"junk".to_vec() },
        Resource { key: b"a.png".to_vec(), mime: b"image/png".to_vec(), data: png(40, 40) },
        Resource { key: b"c.png".to_vec(), mime: b"image/png".to_vec(), data: png(10, 10) },
    ];
    let tokens = tokenize(b"<p><img src=c.png><img src=bad.png><img src=a.png alt=A><img src=gone.png><img></p>");
    let s = ImageSettings { handling: ImageHandling::Keep, format: ImageFormat::Png, max_width: 100, max_height: 100, filter: FilterKind::Triangle, brighten: 1000 };
    let g = build_gallery(&resources, &tokens, &None, s);
    assert_eq!(g.numbers, vec![Some(0), None, None, None, Some(1)]);
    assert_eq!(g.failures, 1);
    assert_eq!(g.files.len(), 2);
    assert_eq!(g.files[0].name, b"images/img0.png");
    assert_eq!(g.files[1].name, b"images/img1.png");
    assert_eq!(image::load_from_memory(&g.files[0].data).unwrap().width(), 20);
    assert_eq!(image::load_from_memory(&g.files[1].data).unwrap().width(), 10);
    let placed = place_images(&tokens, &resources, &g.numbers, ImageFormat::Png);
    let mut out = Vec::new();
    repub_bind::render::print(&mut out, &placed);
    assert_eq!(String::from_utf8(out).unwrap(), "<p><img src=\"images/img1.png\"/><img src=\"images/img0.png\" alt=\"A\"/></p>");
    let with_cover = build_gallery(&resources, &tokens, &Some(b"unused.png".to_vec()), s);
    assert_eq!(with_cover.numbers, vec![Some(0), Some(1), None, None, Some(2)]);
    assert_eq!(lookup_of(&resources, b"a.png"), Some(0));
    assert_eq!(lookup_of(&resources, b"zz"), None);
    assert_eq!(path_of(12, ImageFormat::Jpeg(90)), b"images/img12.jpg");
    assert_eq!(path_of(0, ImageFormat::Png), b"images/img0.png");
}
