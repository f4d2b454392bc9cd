use shufflepic::image_loader::{
    app_icon, decode_color, is_oversized, is_supported, judge_attempt, same_fingerprint, scan_dir,
    vram_size, DecodeError, FileFingerprint, FolderEntry, RgbaPixels, SUPPORTED_EXTS,
};

fn entry(name: &str, is_file: bool) -> FolderEntry {
    FolderEntry { path: format!("/pics/{name}"), file_name: name.to_string(), is_file }
}

fn std_supported(path: &str) -> bool {
    match std::path::Path::new(path).extension().and_then(|e| e.to_str()) {
        Some(ext) => SUPPORTED_EXTS.contains(&ext.to_ascii_lowercase().as_str()),
        None => false,
    }
}

#[test]
fn known_extensions_are_supported() {
    for name in ["a.jpg", "a.jpeg", "a.png", "a.gif", "a.bmp", "a.webp", "A.PNG", "b.JpEg"] {
        assert!(is_supported(name), "{name}");
    }
    for name in ["a.txt", "a", "png", ".png", "a.png.txt", "a.pngx", "a.", ""] {
        assert!(!is_supported(name), "{name}");
    }
}

#[test]
fn extensions_are_those_of_the_file_name() {
    let parts = [
        "", "a", ".", "..", "a.png", ".png", "..png", "x.JPG", "写真.webp", "a b.Gif", "a.png ",
    ];
    for a in parts {
        for b in parts {
            for c in parts {
                let name = format!("{a}{b}{c}");
                assert_eq!(is_supported(&name), std_supported(&name), "{name:?}");
            }
        }
    }
}

#[test]
fn scan_keeps_supported_files_in_order() {
    let found = scan_dir(vec![
        entry("b.png", true),
        entry("a.txt", true),
        entry("delete", false),
        entry("folder.png", false),
        entry("a.JPG", true),
    ]);
    assert_eq!(found, vec!["/pics/b.png".to_string(), "/pics/a.JPG".to_string()]);
}

#[test]
fn texture_memory_is_four_bytes_a_pixel() {
    assert_eq!(vram_size(16, 16), 1024);
    assert_eq!(vram_size(0, 5), 0);
    assert_eq!(vram_size(10_000, 3_200), 128_000_000);
}

#[test]
fn oversized_by_area_or_side() {
    assert!(!is_oversized(10_000, 3_200));
    assert!(is_oversized(10_000, 3_201));
    assert!(is_oversized(10_001, 1));
    assert!(is_oversized(1, 10_001));
    assert!(!is_oversized(1, 10_000));
    assert!(is_oversized(u32::MAX, u32::MAX));
    assert!(!is_oversized(0, 0));
}

#[test]
fn fingerprints_compare_length_and_time() {
    let a = Some(FileFingerprint { len: 3, modified: Some(10) });
    let same = Some(FileFingerprint { len: 3, modified: Some(10) });
    let longer = Some(FileFingerprint { len: 4, modified: Some(10) });
    let later = Some(FileFingerprint { len: 3, modified: Some(11) });
    let timeless = Some(FileFingerprint { len: 3, modified: None });
    assert!(same_fingerprint(&a, &same));
    assert!(same_fingerprint(&None, &None));
    assert!(same_fingerprint(&timeless, &timeless));
    assert!(!same_fingerprint(&a, &longer));
    assert!(!same_fingerprint(&a, &later));
    assert!(!same_fingerprint(&a, &timeless));
    assert!(!same_fingerprint(&a, &None));
}

fn pixels(width: u32, height: u32) -> RgbaPixels {
    let n = (width as usize) * (height as usize);
    let bytes = (0..n * 4).map(|i| if i % 4 == 3 { 255 } else { (i % 200) as u8 }).collect();
    RgbaPixels { width, height, bytes }
}

#[test]
fn decoded_picture_has_its_pixels() {
    let px = pixels(3, 2);
    let raw = px.bytes.clone();
    let image = match judge_attempt(Some((3, 2)), Some(px), true) {
        Ok(image) => image,
        Err(e) => panic!("{e:?}"),
    };
    assert_eq!(image.width(), 3);
    assert_eq!(image.height(), 2);
    assert_eq!(image.rgba_bytes(), 24);
    let color = image.into_color();
    assert_eq!(color.size, [3, 2]);
    for i in 0..6 {
        let want = egui::Color32::from_rgb(raw[4 * i], raw[4 * i + 1], raw[4 * i + 2]);
        assert_eq!(color.pixels[i], want);
    }
}

#[test]
fn transparent_pixels_are_multiplied() {
    let px = RgbaPixels { width: 2, height: 1, bytes: vec![200, 100, 50, 0, 255, 255, 255, 128] };
    let image = match judge_attempt(Some((2, 1)), Some(px), true) {
        Ok(image) => image,
        Err(e) => panic!("{e:?}"),
    };
    let color = image.into_color();
    assert_eq!(color.pixels[0], egui::Color32::TRANSPARENT);
    assert_eq!(color.pixels[1], egui::Color32::from_rgba_unmultiplied(255, 255, 255, 128));
}

#[test]
fn decoding_tells_its_errors_apart() {
    let none: Option<RgbaPixels> = None;
    assert!(matches!(judge_attempt(None, none, true), Err(DecodeError::Failed)));
    assert!(matches!(judge_attempt(None, None, false), Err(DecodeError::Missing)));
    assert!(matches!(judge_attempt(Some((4, 4)), None, true), Err(DecodeError::Failed)));
    assert!(matches!(judge_attempt(Some((4, 4)), None, false), Err(DecodeError::Missing)));
    assert!(matches!(
        judge_attempt(Some((10_002, 1)), None, true),
        Err(DecodeError::Oversized { w: 10_002, h: 1 })
    ));
}

#[test]
fn icon_is_read_from_png() {
    let image = image::RgbaImage::from_fn(2, 3, |x, y| {
        image::Rgba([x as u8, y as u8, 77, 255 - y as u8])
    });
    let mut file = std::io::Cursor::new(Vec::new());
    image::DynamicImage::ImageRgba8(image.clone())
        .write_to(&mut file, image::ImageFormat::Png)
        .unwrap();
    let icon = app_icon(&file.into_inner()).unwrap();
    assert_eq!((icon.width, icon.height), (2, 3));
    assert_eq!(icon.bytes, image.into_raw());
}

#[test]
fn icon_of_other_bytes_is_none() {
    assert!(app_icon(&[]).is_none());
    assert!(app_icon(&[1, 2, 3, 4, 5, 6, 7, 8]).is_none());
    assert!(app_icon(&[0x89, b'P', b'N', b'G', 0x0d, 0x0a, 0x1a, 0x0a, 9]).is_none());
}

fn encoded(image: &image::RgbaImage, format: image::ImageFormat) -> Vec<u8> {
    let mut file = std::io::Cursor::new(Vec::new());
    let image = image::DynamicImage::ImageRgba8(image.clone());
    let image = if format == image::ImageFormat::Jpeg {
        image::DynamicImage::ImageRgb8(image.to_rgb8())
    } else {
        image
    };
    image.write_to(&mut file, format).unwrap();
    file.into_inner()
}

fn opaque(width: u32, height: u32) -> image::RgbaImage {
    image::RgbaImage::from_fn(width, height, |x, y| {
        image::Rgba([10 * x as u8, 20 * y as u8, 77, 255])
    })
}

#[test]
fn files_are_decoded_by_their_extension() {
    let picture = opaque(3, 2);
    for (name, format) in [
        ("a.png", image::ImageFormat::Png),
        ("b.PNG", image::ImageFormat::Png),
        ("c.bmp", image::ImageFormat::Bmp),
        ("d.webp", image::ImageFormat::WebP),
    ] {
        let bytes = encoded(&picture, format);
        let image = match decode_color(name, Some((3, 2)), Some(bytes), true) {
            Ok(image) => image,
            Err(e) => panic!("{name}: {e:?}"),
        };
        assert_eq!((image.width(), image.height(), image.rgba_bytes()), (3, 2, 24));
        let color = image.into_color();
        for (i, pixel) in picture.pixels().enumerate() {
            let [r, g, b, _] = pixel.0;
            assert_eq!(color.pixels[i], egui::Color32::from_rgb(r, g, b), "{name} {i}");
        }
    }
    for (name, format) in
        [("e.gif", image::ImageFormat::Gif), ("f.jpeg", image::ImageFormat::Jpeg)]
    {
        let bytes = encoded(&picture, format);
        let image = match decode_color(name, Some((3, 2)), Some(bytes), true) {
            Ok(image) => image,
            Err(e) => panic!("{name}: {e:?}"),
        };
        assert_eq!((image.width(), image.height(), image.rgba_bytes()), (3, 2, 24));
    }
}

#[test]
fn file_with_the_wrong_extension_fails() {
    let png = encoded(&opaque(2, 2), image::ImageFormat::Png);
    for name in ["a.jpg", "a.bmp", "a", "a.txt", ".png"] {
        let outcome = decode_color(name, Some((2, 2)), Some(png.clone()), true);
        assert!(matches!(outcome, Err(DecodeError::Failed)), "{name}");
    }
}

#[test]
fn decoding_a_file_tells_its_errors_apart() {
    let png = encoded(&opaque(2, 2), image::ImageFormat::Png);
    let broken = png[..20].to_vec();
    assert!(matches!(
        decode_color("a.png", Some((2, 2)), Some(broken.clone()), true),
        Err(DecodeError::Failed)
    ));
    assert!(matches!(
        decode_color("a.png", Some((2, 2)), Some(broken), false),
        Err(DecodeError::Missing)
    ));
    assert!(matches!(
        decode_color("a.png", Some((2, 2)), None, false),
        Err(DecodeError::Missing)
    ));
    assert!(matches!(
        decode_color("a.png", None, Some(png.clone()), true),
        Err(DecodeError::Failed)
    ));
    assert!(matches!(
        decode_color("a.png", Some((1, 10_001)), Some(png), true),
        Err(DecodeError::Oversized { w: 1, h: 10_001 })
    ));
}

#[test]
fn icon_is_read_by_its_first_bytes() {
    let picture = opaque(3, 2);
    for format in [image::ImageFormat::Bmp, image::ImageFormat::WebP] {
        let icon = app_icon(&encoded(&picture, format)).unwrap();
        assert_eq!((icon.width, icon.height), (3, 2));
        assert_eq!(icon.bytes, picture.clone().into_raw());
    }
}

#[test]
fn jpeg_files_are_decoded_to_their_size() {
    let bytes = encoded(&opaque(16, 8), image::ImageFormat::Jpeg);
    for name in ["a.jpg", "a.JPEG"] {
        let image = match decode_color(name, Some((16, 8)), Some(bytes.clone()), true) {
            Ok(image) => image,
            Err(e) => panic!("{name}: {e:?}"),
        };
        assert_eq!((image.width(), image.height(), image.rgba_bytes()), (16, 8, 512));
        let again = match decode_color(name, Some((16, 8)), Some(bytes.clone()), true) {
            Ok(image) => image,
            Err(e) => panic!("{name}: {e:?}"),
        };
        assert_eq!(image.into_color().pixels, again.into_color().pixels);
    }
}

#[test]
fn half_transparent_pixels_keep_their_colours_apart() {
    let bytes = vec![200, 100, 50, 128, 50, 200, 100, 128, 0, 0, 9, 77];
    let px = RgbaPixels { width: 3, height: 1, bytes: bytes.clone() };
    let image = match judge_attempt(Some((3, 1)), Some(px), true) {
        Ok(image) => image,
        Err(e) => panic!("{e:?}"),
    };
    let pixels = image.into_color().pixels;
    for i in 0..3 {
        let b = &bytes[4 * i..4 * i + 4];
        let want = egui::Color32::from_rgba_unmultiplied(b[0], b[1], b[2], b[3]);
        assert_eq!(pixels[i], want);
    }
    assert!(pixels[0].r() > pixels[0].g() && pixels[0].g() > pixels[0].b());
    assert_eq!(pixels[0].r(), pixels[1].g(), "one table for all colours");
    assert_eq!(pixels[0].g(), pixels[1].b());
    assert_eq!((pixels[2].r(), pixels[2].g(), pixels[2].a()), (0, 0, 77));
}
