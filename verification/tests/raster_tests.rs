use repub_bind::config::{FilterKind, ImageFormat, ImageHandling};
use repub_bind::raster::{
    brighten, decode, encode, fit_within, is_decorative, raster_from, resize, transcode, treat, ImageSettings, Outcome, Raster,
};
use std::io::Cursor;

fn png(width: u32, height: u32) -> Vec<u8> {
    let img = image::RgbImage::from_fn(width, height, |x, y| image::Rgb([(x * 7 % 256) as u8, (y * 5 % 256) as u8, 9]));
    let mut out = Vec::new();
    image::DynamicImage::ImageRgb8(img).write_to(&mut Cursor::new(&mut out), image::ImageFormat::Png).unwrap();
    out
}

fn settings(handling: ImageHandling) -> ImageSettings {
    ImageSettings { handling, format: ImageFormat::Jpeg(90), max_width: 1404, max_height: 1872, filter: FilterKind::Triangle, brighten: 1000 }
}

#[test]
fn size_fits_the_bounds_and_keeps_proportions() {
    assert_eq!(fit_within(2000, 3000, 1404, 1872), (1248, 1872));
    assert_eq!(fit_within(3000, 2000, 1404, 1872), (1404, 936));
    assert_eq!(fit_within(1404, 1872, 1404, 1872), (1404, 1872));
    assert_eq!(fit_within(10, 20, 1404, 1872), (10, 20));
    assert_eq!(fit_within(1405, 1, 1404, 1872), (1404, 1));
    assert_eq!(fit_within(1, 5000, 1404, 1872), (1, 1872));
    assert_eq!(fit_within(4_000_000_000, 4_000_000_000, 1, 1), (1, 1));
    assert_eq!(fit_within(300, 200, 100, 100), (100, 66));
    assert_eq!(fit_within(7, 7, 3, 2), (2, 2));
}

#[test]
fn brightness_multiplies_and_clamps() {
    assert_eq!(brighten(&[0, 1, 100, 200, 255], 1000), vec![0, 1, 100, 200, 255]);
    assert_eq!(brighten(&[0, 1, 100, 200, 255], 2000), vec![0, 2, 200, 255, 255]);
    assert_eq!(brighten(&[0, 1, 100, 200, 255], 500), vec![0, 0, 50, 100, 127]);
    assert_eq!(brighten(&[0, 1, 100, 200, 255], 0), vec![0, 0, 0, 0, 0]);
    assert_eq!(brighten(&[0, 1, 100, 200, 255], u32::MAX), vec![0, 255, 255, 255, 255]);
    assert_eq!(brighten(&[3], 1500), vec![4]);
    assert_eq!(brighten(&[], 1500), Vec::<u8>::new());
}

#[test]
fn decorative_images_are_small_or_of_one_colour() {
    let one = Raster { width: 1, height: 1, pixels: vec![1, 2, 3] };
    assert!(is_decorative(&one));
    let strip = Raster { width: 600, height: 7, pixels: (0..600 * 7 * 3).map(|i| (i % 256) as u8).collect() };
    assert!(is_decorative(&strip));
    let flat = Raster { width: 8, height: 8, pixels: [10u8, 20, 30].iter().cycle().take(192).cloned().collect() };
    assert!(is_decorative(&flat));
    let mut px: Vec<u8> = [10u8, 20, 30].iter().cycle().take(192).cloned().collect();
    px[191] = 31;
    let nearly = Raster { width: 8, height: 8, pixels: px };
    assert!(!is_decorative(&nearly));
}

#[test]
fn decoding_reads_the_image_whatever_it_is_called() {
    let r = decode(&png(5, 4)).unwrap();
    assert_eq!((r.width, r.height), (5, 4));
    assert_eq!(r.pixels.len(), 60);
    assert_eq!(&r.pixels[0..6], &[0, 0, 9, 7, 0, 9]);
    assert!(decode(b"not an image").is_none());
    assert!(decode(b"").is_none());
}

#[test]
fn resizing_gives_the_size_asked_for() {
    let r = decode(&png(40, 20)).unwrap();
    let small = resize(r, 10, 5, FilterKind::Triangle).unwrap();
    assert_eq!((small.width, small.height), (10, 5));
    assert_eq!(small.pixels.len(), 150);
    let r = decode(&png(40, 20)).unwrap();
    let before = r.pixels.clone();
    let same = resize(r, 40, 20, FilterKind::Nearest).unwrap();
    assert_eq!(same.pixels, before);
}

#[test]
fn encoding_writes_a_file_of_the_format() {
    let r = decode(&png(16, 16)).unwrap();
    let j = encode(&r, ImageFormat::Jpeg(90)).unwrap();
    assert_eq!(&j[0..3], &[0xff, 0xd8, 0xff]);
    assert_eq!(image::guess_format(&j).unwrap(), image::ImageFormat::Jpeg);
    let p = encode(&r, ImageFormat::Png).unwrap();
    assert_eq!(&p[0..8], &[0x89, b'P', b'N', b'G', 0x0d, 0x0a, 0x1a, 0x0a]);
    let back = image::load_from_memory(&p).unwrap().into_rgb8();
    assert_eq!(back.as_raw(), &r.pixels);
    let zero = Raster { width: 70000, height: 1, pixels: vec![0; 210000] };
    assert!(encode(&zero, ImageFormat::Jpeg(90)).is_none());
}

#[test]
fn buffer_must_hold_exactly_the_image() {
    let r = raster_from(2, 2, vec![7; 12]).unwrap();
    assert_eq!((r.width, r.height, r.pixels.len()), (2, 2, 12));
    assert!(raster_from(2, 2, vec![7; 11]).is_none());
    assert!(raster_from(2, 2, vec![7; 13]).is_none());
    assert!(raster_from(0, 2, Vec::new()).is_none());
    assert!(raster_from(2, 0, Vec::new()).is_none());
    assert!(raster_from(1, 1, vec![1, 2, 3]).is_some());
}

#[test]
fn decoded_image_is_treated_as_the_policy_says() {
    let pixel = Raster { width: 1, height: 1, pixels: vec![9, 9, 9] };
    assert!(matches!(treat(pixel, settings(ImageHandling::Filter)), Outcome::Removed));
    let pixel = Raster { width: 1, height: 1, pixels: vec![9, 9, 9] };
    assert!(matches!(treat(pixel, settings(ImageHandling::Keep)), Outcome::Kept(_)));
    let photo = Raster { width: 16, height: 8, pixels: (0..384).map(|i| (i % 251) as u8).collect() };
    let mut s = settings(ImageHandling::Filter);
    s.format = ImageFormat::Png;
    s.max_width = 4;
    s.max_height = 4;
    s.filter = FilterKind::Nearest;
    if let Outcome::Kept(file) = treat(photo, s) {
        let img = image::load_from_memory(&file).unwrap();
        assert_eq!((img.width(), img.height()), (4, 2));
    } else {
        panic!("not kept");
    }
    let wide = Raster { width: 70000, height: 8, pixels: (0..70000 * 8 * 3).map(|i| (i % 251) as u8).collect() };
    let mut s = settings(ImageHandling::Keep);
    s.max_width = 100_000;
    assert!(matches!(treat(wide, s), Outcome::Failed));
}

#[test]
fn policy_decides_what_becomes_of_an_image() {
    let photo = png(64, 48);
    assert!(matches!(transcode(&photo, settings(ImageHandling::Strip)), Outcome::Removed));
    assert!(matches!(transcode(&photo, settings(ImageHandling::Filter)), Outcome::Kept(_)));
    assert!(matches!(transcode(&photo, settings(ImageHandling::Keep)), Outcome::Kept(_)));
    let tiny = png(1, 1);
    assert!(matches!(transcode(&tiny, settings(ImageHandling::Strip)), Outcome::Removed));
    assert!(matches!(transcode(&tiny, settings(ImageHandling::Filter)), Outcome::Removed));
    assert!(matches!(transcode(&tiny, settings(ImageHandling::Keep)), Outcome::Kept(_)));
    assert!(matches!(transcode(b"junk", settings(ImageHandling::Strip)), Outcome::Removed));
    assert!(matches!(transcode(b"junk", settings(ImageHandling::Filter)), Outcome::Failed));
    assert!(matches!(transcode(b"junk", settings(ImageHandling::Keep)), Outcome::Failed));
    let mut s = settings(ImageHandling::Keep);
    s.max_width = 16;
    s.max_height = 16;
    if let Outcome::Kept(file) = transcode(&photo, s) {
        let img = image::load_from_memory(&file).unwrap();
        assert_eq!((img.width(), img.height()), (16, 12));
    } else {
        panic!("not kept");
    }
}
