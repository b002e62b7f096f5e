use pixel_palette_colorizer::color_space::{
    available_names, from_name, ColorSpace, ColorSpaceKind, RgbSpace,
};

#[test]
fn from_name_rgb_returns_working_space() {
    assert_eq!(from_name("rgb").unwrap(), ColorSpaceKind::Rgb);
    let space = RgbSpace;
    let white = [255u8, 255, 255, 255];
    let black = [0u8, 0, 0, 255];
    assert!(space.distance_key(&white, &black) > Some(0));
    assert_eq!(space.distance_key(&white, &white), Some(0));
}

#[test]
fn from_name_unknown_is_err() {
    assert!(from_name("xyz").is_err());
}

#[test]
fn registry_is_coherent() {
    let names: Vec<_> = available_names();
    assert_eq!(names.len(), 4, "expected 4 registered color spaces");
    for name in &names {
        assert!(from_name(name).is_ok(), "from_name failed for {name}");
    }
}

#[test]
fn registry_lists_names_in_order() {
    assert_eq!(available_names(), vec!["rgb", "hsl", "lab", "oklab"]);
    assert_eq!(from_name("oklab").unwrap(), ColorSpaceKind::Oklab);
    assert_eq!(from_name("lab").unwrap(), ColorSpaceKind::Lab);
    assert_eq!(from_name("hsl").unwrap(), ColorSpaceKind::Hsl);
    assert_eq!(ColorSpaceKind::Hsl.name(), "hsl");
}

#[test]
fn unknown_name_error_message() {
    let err = from_name("RGB").unwrap_err();
    assert_eq!(err.name, "RGB");
    assert_eq!(err.message(), "Unknown color space: RGB");
    assert!(from_name("").is_err());
    assert!(from_name("rgb ").is_err());
}
