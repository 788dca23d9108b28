use repub_bind::archive::{parse, read_part, ParseError};
use repub_bind::transfer::{decode_base64, decode_quoted, TransferEncoding};

fn sample(parts: &str) -> Vec<u8> {
    let mut s = String::new();
    s.push_str("From: <Saved by Blink>\r\n");
    s.push_str("Snapshot-Content-Location: https://example.com/story\r\n");
    s.push_str("Subject: A story\r\n");
    s.push_str("MIME-Version: 1.0\r\n");
    s.push_str("Content-Type: multipart/related;\r\n\ttype=\"text/html\";\r\n\tboundary=\"----Boundary--x----\"\r\n");
    s.push_str("\r\n\r\n");
    s.push_str(parts);
    s.into_bytes()
}

const PAGE: &str = "------Boundary--x----\r\nContent-Type: text/html\r\nContent-ID: <frame-1@mhtml.blink>\r\nContent-Transfer-Encoding: quoted-printable\r\nContent-Location: https://example.com/story\r\n\r\n<html><head><title>Caf=C3=A9</title></head><body><p>Hello =\r\nworld</p></body></html>\r\n";

const PIXEL: &str = "------Boundary--x----\r\nContent-Type: image/gif\r\nContent-Transfer-Encoding: base64\r\nContent-Location: https://example.com/p.gif\r\n\r\nR0lGODlhAQABAIAAAAAAAP///yH5BAEAAAAALAAAAAABAAEAAAIBRAA7\r\n";

const END: &str = "------Boundary--x------\r\n";

#[test]
fn base64_decodes_groups_and_tails() {
    assert_eq!(decode_base64(b"TWFu").unwrap(), b"Man");
    assert_eq!(decode_base64(b"TWE=").unwrap(), b"Ma");
    assert_eq!(decode_base64(b"TQ==").unwrap(), b"M");
    assert_eq!(decode_base64(b"TW\r\nFu").unwrap(), b"Man");
    assert_eq!(decode_base64(b"").unwrap(), b"");
    assert!(decode_base64(b"T").is_none());
    assert!(decode_base64(b"TW*u").is_none());
}

#[test]
fn quoted_printable_decodes_escapes_and_soft_breaks() {
    assert_eq!(decode_quoted(b"a=3Db").unwrap(), b"a=b");
    assert_eq!(decode_quoted(b"a=\r\nb").unwrap(), b"ab");
    assert_eq!(decode_quoted(b"a=\nb").unwrap(), b"ab");
    assert_eq!(decode_quoted(b"=c3=A9").unwrap(), vec![0xc3, 0xa9]);
    assert!(decode_quoted(b"a=zz").is_none());
    assert!(decode_quoted(b"a=").is_none());
}

#[test]
fn part_is_read_from_its_header_fields() {
    let p = read_part(b"Content-Type: Image/PNG; x=y\r\nContent-Transfer-Encoding: BASE64\r\nContent-ID: <abc@x>\r\n\r\nAAAA");
    assert_eq!(p.media, b"image/png");
    assert_eq!(p.encoding, Some(TransferEncoding::Base64));
    assert_eq!(p.key, b"cid:abc@x");
    assert_eq!(p.body, b"AAAA");
    let q = read_part(b"Content-Location: a.css\n\nbody{}");
    assert_eq!(q.media, b"text/plain");
    assert_eq!(q.encoding, Some(TransferEncoding::Identity));
    assert_eq!(q.key, b"a.css");
    assert_eq!(q.body, b"body{}");
}

#[test]
fn archive_is_parsed_into_page_and_resources() {
    let bytes = sample(&format!("{}{}{}", PAGE, PIXEL, END));
    let a = parse(&bytes).ok().unwrap();
    assert_eq!(a.url, b"https://example.com/story");
    assert_eq!(
        String::from_utf8(a.root).unwrap(),
        "<html><head><title>Caf\u{e9}</title></head><body><p>Hello world</p></body></html>"
    );
    assert_eq!(a.resources.len(), 1);
    assert_eq!(a.resources[0].key, b"https://example.com/p.gif");
    assert_eq!(a.resources[0].mime, b"image/gif");
    assert_eq!(a.resources[0].data.len(), 42);
    assert_eq!(&a.resources[0].data[0..6], b"GIF89a");
}

#[test]
fn archive_without_page_is_refused() {
    let bytes = sample(&format!("{}{}", PIXEL, END));
    assert_eq!(parse(&bytes).err(), Some(ParseError::MissingRootDocument));
    let none = sample(END);
    assert_eq!(parse(&none).err(), Some(ParseError::MissingRootDocument));
}

#[test]
fn archive_without_boundary_is_refused() {
    assert_eq!(parse(b"Content-Type: text/html\r\n\r\n<html></html>").err(), Some(ParseError::MissingBoundary));
    assert_eq!(parse(b"").err(), Some(ParseError::MissingBoundary));
}

#[test]
fn undecodable_part_is_refused() {
    let bad = "------Boundary--x----\r\nContent-Type: image/gif\r\nContent-Transfer-Encoding: base64\r\nContent-Location: https://example.com/p.gif\r\n\r\n!!!!\r\n";
    let bytes = sample(&format!("{}{}{}", PAGE, bad, END));
    assert_eq!(parse(&bytes).err(), Some(ParseError::InvalidEncoding));
    let latin = "------Boundary--x----\r\nContent-Type: text/html\r\nContent-Transfer-Encoding: quoted-printable\r\n\r\n<p>caf=E9</p>\r\n";
    let bytes = sample(&format!("{}{}", latin, END));
    assert_eq!(parse(&bytes).err(), Some(ParseError::InvalidEncoding));
}
