use tourvia::logo::{downloaded_logo, process_logo};

fn png_of(width: u32, height: u32) -> Vec<u8> {
    let img = image::RgbImage::from_pixel(width, height, image::Rgb([200, 30, 30]));
    let mut buf = std::io::Cursor::new(Vec::new());
    image::DynamicImage::ImageRgb8(img).write_to(&mut buf, image::ImageFormat::Png).unwrap();
    buf.into_inner()
}

#[test]
fn a_large_logo_is_shrunk_to_fit() {
    let raw = png_of(300, 200);
    let png = process_logo(&raw).unwrap();
    assert_ne!(png, raw);
    let back = image::load_from_memory(&png).unwrap();
    assert_eq!(back.width(), 128);
    assert!(back.height() <= 128);
}

#[test]
fn bytes_that_are_no_image_are_refused() {
    let e = process_logo(b"not an image").unwrap_err();
    assert!(e.starts_with("Invalid image: "));
}

#[test]
fn the_picker_reports_download_and_processing_failures() {
    assert_eq!(
        downloaded_logo(&Err("timeout".to_string())),
        Err("Download failed: timeout".to_string())
    );
    assert_eq!(
        downloaded_logo(&Ok(b"junk".to_vec())),
        Err("Failed to process downloaded image.".to_string())
    );
    let png = downloaded_logo(&Ok(png_of(64, 64))).unwrap();
    assert_eq!(image::load_from_memory(&png).unwrap().width(), 128);
}

#[test]
fn a_logo_starts_with_a_png_header_within_the_size() {
    let png = process_logo(&png_of(400, 100)).unwrap();
    assert_eq!(&png[..16], &[137, 80, 78, 71, 13, 10, 26, 10, 0, 0, 0, 13, 73, 72, 68, 82]);
    let w = u32::from_be_bytes([png[16], png[17], png[18], png[19]]);
    let h = u32::from_be_bytes([png[20], png[21], png[22], png[23]]);
    assert_eq!((w, h), (128, 32));
}
