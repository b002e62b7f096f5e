use pixel_palette_colorizer::palette::{Palette, PaletteError, PaletteSource};

struct InMemorySource {
    ext: &'static str,
    data: Vec<u8>,
}

impl PaletteSource for InMemorySource {
    fn extension_of(&self) -> &str {
        self.extension()
    }

    fn extension(&self) -> &str {
        self.ext
    }

    fn read_bytes(&self) -> Result<Vec<u8>, String> {
        Ok(self.data.clone())
    }
}

struct FailingSource;

impl PaletteSource for FailingSource {
    fn extension_of(&self) -> &str {
        self.extension()
    }

    fn extension(&self) -> &str {
        "hex"
    }

    fn read_bytes(&self) -> Result<Vec<u8>, String> {
        Err("Failed to read palette file".to_string())
    }
}

fn src(ext: &'static str, data: &str) -> InMemorySource {
    InMemorySource { ext, data: data.as_bytes().to_vec() }
}

fn make_png_bytes(colors: &[[u8; 4]]) -> Vec<u8> {
    let mut img = image::RgbaImage::new(colors.len() as u32, 1);
    for (i, &c) in colors.iter().enumerate() {
        img.put_pixel(i as u32, 0, image::Rgba(c));
    }
    let mut buf = std::io::Cursor::new(Vec::new());
    img.write_to(&mut buf, image::ImageFormat::Png).unwrap();
    buf.into_inner()
}

#[test]
fn hex_parses_six_char_rgb() {
    let p = Palette::load(&src("hex", "#ff0000\n")).unwrap();
    assert_eq!(p.colors(), &[[255u8, 0, 0, 255]]);
}

#[test]
fn hex_parses_eight_char_rgba() {
    let p = Palette::load(&src("hex", "ff000080\n")).unwrap();
    assert_eq!(p.colors(), &[[255u8, 0, 0, 128]]);
}

#[test]
fn hex_skips_blank_lines() {
    let p = Palette::load(&src("hex", "\n#ff0000\n\n#00ff00\n\n")).unwrap();
    assert_eq!(p.colors().len(), 2);
}

#[test]
fn hex_parses_six_char_rgb_without_prefix() {
    let p = Palette::load(&src("txt", "ff0000\n")).unwrap();
    assert_eq!(p.colors(), &[[255u8, 0, 0, 255]]);
}

#[test]
fn hex_skips_wrong_length_lines() {
    // 5-char hex is invalid after shorthand expansion
    let p = Palette::load(&src("hex", "#fffff\n#ff0000\n")).unwrap();
    assert_eq!(p.colors().len(), 1);
}

#[test]
fn hex_expands_three_char_shorthand() {
    let p = Palette::load(&src("hex", "#FFF\n")).unwrap();
    assert_eq!(p.colors(), &[[255u8, 255, 255, 255]]);
}

#[test]
fn hex_expands_three_char_shorthand_lowercase() {
    let p = Palette::load(&src("hex", "#fff\n")).unwrap();
    assert_eq!(p.colors(), &[[255u8, 255, 255, 255]]);
}

#[test]
fn hex_expands_four_char_shorthand_with_alpha() {
    // #F00A -> FF0000AA -> [255, 0, 0, 170]
    let p = Palette::load(&src("hex", "#F00A\n")).unwrap();
    assert_eq!(p.colors(), &[[255u8, 0, 0, 170]]);
}

#[test]
fn hex_rejects_invalid_hex_digits() {
    let result = Palette::load(&src("hex", "gggggg\n"));
    assert!(result.is_err());
}

#[test]
fn image_extracts_unique_colors() {
    let bytes = make_png_bytes(&[[255u8, 0, 0, 255], [0, 255, 0, 255], [255, 0, 0, 255]]);
    let source = InMemorySource { ext: "png", data: bytes };
    let p = Palette::load(&source).unwrap();
    assert_eq!(p.colors().len(), 2); // [255,0,0,255] deduped
}

#[test]
fn image_jpeg_extension_also_works() {
    let bytes = make_png_bytes(&[[0u8, 0, 255, 255]]);
    let source = InMemorySource { ext: "jpg", data: bytes };
    assert!(Palette::load(&source).is_ok());
}

#[test]
fn empty_text_palette_is_rejected() {
    assert!(Palette::load(&src("hex", "\n\n")).is_err());
}

#[test]
fn unknown_extension_is_rejected() {
    let err = Palette::load(&src("csv", "#ff0000\n")).unwrap_err();
    assert!(err.message().contains("Unsupported"), "{}", err.message());
}

#[test]
fn image_colors_keep_first_occurrence_order() {
    let bytes = make_png_bytes(&[
        [0u8, 0, 255, 255],
        [255, 0, 0, 255],
        [0, 0, 255, 255],
        [0, 255, 0, 10],
        [255, 0, 0, 255],
    ]);
    let source = InMemorySource { ext: "png", data: bytes };
    let p = Palette::load(&source).unwrap();
    assert_eq!(p.colors(), &[[0u8, 0, 255, 255], [255, 0, 0, 255], [0, 255, 0, 10]]);
    assert_eq!(p.len(), 3);
}

#[test]
fn image_with_undecodable_bytes_is_rejected() {
    let err = Palette::load(&src("png", "not an image")).unwrap_err();
    assert!(matches!(err, PaletteError::Undecodable));
    assert_eq!(err.message(), "Failed to decode palette image");
}

#[test]
fn hex_text_that_is_not_utf8_is_rejected() {
    let source = InMemorySource { ext: "txt", data: vec![0xff, 0xfe, b'\n'] };
    let err = Palette::load(&source).unwrap_err();
    assert!(matches!(err, PaletteError::NotUtf8));
    assert_eq!(err.message(), "Palette text is not valid UTF-8");
}

#[test]
fn invalid_digit_error_names_hex_color() {
    let err = Palette::load(&src("hex", "#ff0000\n12345g\n")).unwrap_err();
    assert!(matches!(err, PaletteError::InvalidHexColor));
    assert_eq!(err.message(), "Invalid hex color");
}

#[test]
fn empty_palette_error_says_no_colors() {
    let err = Palette::load(&src("txt", "  \n#\n##\n")).unwrap_err();
    assert!(matches!(err, PaletteError::NoColors));
    assert_eq!(err.message(), "Palette contains no colors");
}

#[test]
fn unsupported_format_message_names_extension() {
    let err = Palette::load(&src("PNG", "x")).unwrap_err();
    assert_eq!(err.message(), "Unsupported palette file format: PNG");
}

#[test]
fn read_failure_is_reported() {
    let err = Palette::load(&FailingSource).unwrap_err();
    assert!(matches!(err, PaletteError::Read(_)));
    assert_eq!(err.message(), "Failed to read palette file");
}

#[test]
fn hex_plus_sign_is_rejected() {
    assert!(matches!(Palette::load(&src("hex", "+f0000\n")), Err(PaletteError::InvalidHexColor)));
    assert!(matches!(Palette::load(&src("hex", "+f+f+f\n")), Err(PaletteError::InvalidHexColor)));
}

#[test]
fn hex_minus_sign_is_rejected() {
    assert!(matches!(Palette::load(&src("hex", "-f0000\n")), Err(PaletteError::InvalidHexColor)));
}

#[test]
fn hex_trims_whitespace_and_many_hashes() {
    let p = Palette::load(&src("hex", "  \t##00FF7f \r\n\u{3000}#abc\u{a0}\n")).unwrap();
    assert_eq!(p.colors(), &[[0u8, 255, 127, 255], [170, 187, 204, 255]]);
}

#[test]
fn hex_without_final_newline_is_read() {
    let p = Palette::load(&src("hex", "010203\n0a0b0c0d")).unwrap();
    assert_eq!(p.colors(), &[[1u8, 2, 3, 255], [10, 11, 12, 13]]);
}

#[test]
fn hex_two_byte_character_in_pair_is_invalid() {
    // "éé11" is six bytes; its first pair is the single character é.
    assert!(matches!(Palette::load(&src("hex", "é1\n")), Err(PaletteError::InvalidHexColor)));
}

#[test]
fn hex_pair_splitting_a_character_is_reported() {
    // "a€a" is five bytes, doubled to ten: skipped; "€€" is six bytes whose
    // first pair ends inside the first character.
    assert!(matches!(Palette::load(&src("hex", "€\n")), Err(PaletteError::SplitCharacter)));
    let p = Palette::load(&src("hex", "a€a\nffffff\n")).unwrap();
    assert_eq!(p.colors(), &[[255u8, 255, 255, 255]]);
}

#[test]
fn from_bytes_reads_hex_text() {
    let p = Palette::from_bytes("txt", b"#123456\n#fff8\n").unwrap();
    assert_eq!(p.colors(), &[[0x12u8, 0x34, 0x56, 255], [255, 255, 255, 0x88]]);
}

#[test]
fn extension_match_is_case_sensitive_for_palettes() {
    assert!(matches!(Palette::load(&src("HEX", "#ffffff\n")), Err(PaletteError::UnsupportedFormat(_))));
}

#[test]
fn leading_hash_is_optional() {
    let with_hash = Palette::load(&src("hex", "#0f0\n#12345678\n")).unwrap();
    let without = Palette::load(&src("hex", "0f0\n12345678\n")).unwrap();
    assert_eq!(with_hash.colors(), without.colors());
    assert_eq!(with_hash.colors(), &[[0u8, 255, 0, 255], [0x12, 0x34, 0x56, 0x78]]);
}
