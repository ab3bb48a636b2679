use cook_book::cdn::is_webp;
use cook_book::cdn::Cdn;
use cook_book::index::MetaIndex;
use cook_book::cdn::normalize_upload;
use cook_book::cdn::transcode_outcome;
use cook_book::cdn::CdnError;
use cook_book::cdn::Normalized;
use std::io::Cursor;

fn tiny_webp() -> Vec<u8> {
    let img = image::DynamicImage::ImageRgb8(image::RgbImage::from_pixel(
        8,
        8,
        image::Rgb([120u8, 130, 140]),
    ));
    let encoder = webp::Encoder::from_image(&img).unwrap();
    encoder.encode(70.0).to_vec()
}

fn tiny_png() -> Vec<u8> {
    let img = image::DynamicImage::ImageRgb8(image::RgbImage::from_pixel(
        8,
        8,
        image::Rgb([120u8, 130, 140]),
    ));
    let mut buf = Vec::new();
    img.write_to(&mut Cursor::new(&mut buf), image::ImageFormat::Png).unwrap();
    buf
}

// the decode-and-re-encode work the process around the store performs when
// the store answers `Normalized::Transcode`
fn transcode(buffer: &[u8]) -> Option<Vec<u8>> {
    if image::guess_format(buffer).is_err() {
        return None;
    }
    let img = image::load_from_memory(buffer).ok()?;
    let encoder = webp::Encoder::from_image(&img).ok()?;
    Some(encoder.encode(70.0).to_vec())
}

#[test]
fn canonical_buffer_passes_through_unchanged() {
    let bytes = tiny_webp();
    assert!(is_webp(&bytes));
    match normalize_upload(&bytes) {
        Normalized::Ready(stored) => assert_eq!(stored, bytes),
        Normalized::Transcode => panic!("a canonical buffer must pass through"),
    }
}

#[test]
fn png_is_transcoded_and_decodes_to_similar_pixels() {
    let png = tiny_png();
    assert!(!is_webp(&png));
    match normalize_upload(&png) {
        Normalized::Ready(_) => panic!("a png buffer must be transcoded"),
        Normalized::Transcode => {}
    }
    let stored = transcode_outcome(transcode(&png)).unwrap();
    assert!(is_webp(&stored));
    let decoded = image::load_from_memory(&stored).unwrap().to_rgb8();
    assert_eq!(decoded.dimensions(), (8, 8));
    for pixel in decoded.pixels() {
        let [r, g, b] = pixel.0;
        assert!(r.abs_diff(120) <= 20, "red channel drifted: {r}");
        assert!(g.abs_diff(130) <= 20, "green channel drifted: {g}");
        assert!(b.abs_diff(140) <= 20, "blue channel drifted: {b}");
    }
}

#[test]
fn unrecognized_bytes_are_an_unsupported_format() {
    let garbage = [0x13u8, 0x37, 0x00, 0xff, 0xee, 0xdd, 0xcc, 0xbb, 0xaa, 0x99, 0x88, 0x77];
    assert!(!is_webp(&garbage));
    assert!(matches!(normalize_upload(&garbage), Normalized::Transcode));
    assert_eq!(
        transcode_outcome(transcode(&garbage)).unwrap_err(),
        CdnError::UnsupportedImageFormat
    );
}

#[test]
fn icon_prepare_passes_canonical_bytes_through() {
    let mut cdn = Cdn::new("root/".to_string(), MetaIndex::new());
    let low = cdn.create_recipe_prepare("Tea").unwrap();
    cdn.create_recipe_commit(low, true).unwrap();
    let bytes = tiny_webp();
    match cdn.upload_icon_prepare("tea", &bytes) {
        Ok(Normalized::Ready(stored)) => assert_eq!(stored, bytes),
        other => panic!("canonical icon bytes must pass through: {other:?}"),
    }
}

#[test]
fn webp_magic_needs_both_riff_and_webp_tags() {
    assert!(!is_webp(b"RIFF\x00\x00\x00\x00WEB")); // too short
    assert!(!is_webp(b"RIFX\x00\x00\x00\x00WEBP")); // wrong container tag
    assert!(!is_webp(b"RIFF\x00\x00\x00\x00WAVE")); // a different riff payload
    assert!(is_webp(b"RIFF\x12\x34\x56\x78WEBPxxxx")); // length bytes are ignored
    assert!(is_webp(b"RIFF\x00\x00\x00\x00WEBP")); // twelve bytes suffice
}
