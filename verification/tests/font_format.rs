use fontcull::format::FontFormat;

#[test]
fn test_font_format_detection() {
    // WOFF2 magic: "wOF2"
    assert_eq!(
        FontFormat::detect(&[0x77, 0x4F, 0x46, 0x32]),
        FontFormat::Woff2
    );
    // WOFF1 magic: "wOFF"
    assert_eq!(
        FontFormat::detect(&[0x77, 0x4F, 0x46, 0x46]),
        FontFormat::Woff
    );
    // TrueType magic: 0x00010000
    assert_eq!(
        FontFormat::detect(&[0x00, 0x01, 0x00, 0x00]),
        FontFormat::Ttf
    );
    // OpenType magic: "OTTO"
    assert_eq!(
        FontFormat::detect(&[0x4F, 0x54, 0x54, 0x4F]),
        FontFormat::Otf
    );
    // Too short
    assert_eq!(FontFormat::detect(&[0x00, 0x01]), FontFormat::Unknown);
    // Unknown
    assert_eq!(
        FontFormat::detect(&[0xDE, 0xAD, 0xBE, 0xEF]),
        FontFormat::Unknown
    );
}

#[test]
fn test_font_format_is_woff2() {
    assert!(FontFormat::Woff2.is_woff2());
    assert!(!FontFormat::Woff.is_woff2());
    assert!(!FontFormat::Ttf.is_woff2());
    assert!(!FontFormat::Otf.is_woff2());
    assert!(!FontFormat::Unknown.is_woff2());
}
