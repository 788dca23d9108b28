use repub_bind::zip::{checksum, write_archive, Entry};

#[test]
fn checksum_of_known_text() {
    assert_eq!(checksum(b"123456789"), 0xCBF4_3926);
    assert_eq!(checksum(b""), 0);
}

#[test]
fn archive_begins_with_stored_entry() {
    let entries = vec![Entry { name: b"mimetype".to_vec(), data: b"application/epub+zip".to_vec() }];
    let out = write_archive(&entries).unwrap();
    assert_eq!(&out[0..4], &[0x50, 0x4b, 3, 4]);
    assert_eq!(&out[8..10], &[0, 0]);
    assert_eq!(&out[30..38], b"mimetype");
    assert_eq!(&out[38..58], b"application/epub+zip");
}
