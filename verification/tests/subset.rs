use fontcull::format::FontFormat;
use fontcull::subset::{
    compress_to_woff2, decode_outcome, decompress_font, encode_outcome, parse_failure,
    subset_file_name, subsetter_outcome, SubsetError,
};
use fontcull::glyph_sets::codes_of_chars;

#[test]
fn test_subset_error_display() {
    let err = SubsetError::FontParse("invalid header".to_string());
    assert_eq!(err.message(), "failed to parse font: invalid header");
}

#[test]
fn lib_test_subset_error_display() {
    let err = SubsetError::FontParse("invalid header".to_string());
    assert_eq!(format!("{}", err.message()), "failed to parse font: invalid header");
}

#[test]
fn test_decompress_ttf_passthrough() {
    // A minimal valid-ish TTF header (just for format detection)
    let ttf_data = [0x00, 0x01, 0x00, 0x00, 0x00, 0x00, 0x00, 0x00];
    let result = decompress_font(&ttf_data).unwrap();
    assert_eq!(result, ttf_data);
}

#[test]
fn every_error_has_its_sentence() {
    assert_eq!(
        SubsetError::Subset("x".to_string()).message(),
        "failed to subset font: x"
    );
    assert_eq!(
        SubsetError::Woff2("y".to_string()).message(),
        "failed to compress to WOFF2: y"
    );
    assert_eq!(
        SubsetError::WoffDecompress("z".to_string()).message(),
        "failed to decompress WOFF: z"
    );
    assert_eq!(SubsetError::FontParse(String::new()).message(), "failed to parse font: ");
}

#[test]
fn decompress_takes_unknown_data_as_it_is() {
    assert_eq!(decompress_font(&[]).unwrap(), Vec::<u8>::new());
    assert_eq!(decompress_font(&[1, 2, 3]).unwrap(), vec![1, 2, 3]);
    assert_eq!(decompress_font(b"OTTOxyz").unwrap(), b"OTTOxyz".to_vec());
}

#[test]
fn decompress_refuses_woff1() {
    match decompress_font(b"wOFF\x00\x01\x00\x00rest") {
        Err(SubsetError::WoffDecompress(msg)) => assert_eq!(
            msg,
            "WOFF1 decompression not supported, please convert to WOFF2 or TTF first"
        ),
        other => panic!("unexpected: {:?}", other),
    }
}

#[test]
fn decompress_reports_a_broken_woff2() {
    match decompress_font(b"wOF2 this is no font at all") {
        Err(SubsetError::WoffDecompress(msg)) => assert_eq!(msg, "WOFF2 decompression failed"),
        other => panic!("unexpected: {:?}", other),
    }
}

#[test]
fn compress_reports_what_is_no_font() {
    match compress_to_woff2(b"this is no font at all") {
        Err(SubsetError::Woff2(msg)) => assert_eq!(msg, "WOFF2 compression failed"),
        other => panic!("unexpected: {:?}", other),
    }
}

#[test]
fn outcomes_follow_the_answers() {
    assert_eq!(decode_outcome(Some(vec![1, 2])).unwrap(), vec![1, 2]);
    assert!(matches!(decode_outcome(None), Err(SubsetError::WoffDecompress(_))));
    assert_eq!(encode_outcome(Some(vec![3])).unwrap(), vec![3]);
    assert!(matches!(encode_outcome(None), Err(SubsetError::Woff2(_))));
    assert_eq!(subsetter_outcome(Ok(vec![4, 5])).unwrap(), vec![4, 5]);
    match subsetter_outcome(Err("bad table".to_string())) {
        Err(SubsetError::Subset(msg)) => assert_eq!(msg, "bad table"),
        other => panic!("unexpected: {:?}", other),
    }
    match parse_failure("OutOfBounds".to_string()) {
        SubsetError::FontParse(msg) => assert_eq!(msg, "OutOfBounds"),
        other => panic!("unexpected: {:?}", other),
    }
}

#[test]
fn chars_become_codepoints() {
    assert_eq!(codes_of_chars(&['A', 'z', '\u{1F600}', 'A']), vec![0x41, 0x7A, 0x1F600, 0x41]);
    assert_eq!(codes_of_chars(&[]), Vec::<u32>::new());
}

#[test]
fn subset_file_is_named_after_the_stem() {
    assert_eq!(subset_file_name("Inter-Regular"), "Inter-Regular-subset.woff2");
    assert_eq!(subset_file_name(""), "-subset.woff2");
}

#[test]
fn format_of_each_magic_number() {
    assert_eq!(FontFormat::detect(b"ttcf...."), FontFormat::Ttf);
    assert_eq!(FontFormat::detect(b"true"), FontFormat::Ttf);
    assert_eq!(FontFormat::detect(b"OTTO"), FontFormat::Otf);
    assert_eq!(FontFormat::detect(b"wOF2"), FontFormat::Woff2);
    assert_eq!(FontFormat::detect(b"wOFF"), FontFormat::Woff);
    assert_eq!(FontFormat::detect(b"wOF"), FontFormat::Unknown);
    assert_eq!(FontFormat::detect(b""), FontFormat::Unknown);
    assert_eq!(FontFormat::detect(b"tru3"), FontFormat::Unknown);
    assert_eq!(FontFormat::detect(&[0, 1, 0, 0, 9, 9]), FontFormat::Ttf);
}

/// A font that holds a `head` table and nothing else.
fn minimal_font() -> Vec<u8> {
    let mut head = vec![0u8; 54];
    head[0..4].copy_from_slice(&0x0001_0000u32.to_be_bytes());
    head[12..16].copy_from_slice(&0x5F0F_3CF5u32.to_be_bytes());
    head[18..20].copy_from_slice(&1000u16.to_be_bytes());
    let mut sum: u32 = 0;
    for word in head.chunks(4) {
        let mut bytes = [0u8; 4];
        bytes[..word.len()].copy_from_slice(word);
        sum = sum.wrapping_add(u32::from_be_bytes(bytes));
    }
    let mut font = Vec::new();
    font.extend_from_slice(&0x0001_0000u32.to_be_bytes());
    font.extend_from_slice(&1u16.to_be_bytes());
    font.extend_from_slice(&16u16.to_be_bytes());
    font.extend_from_slice(&0u16.to_be_bytes());
    font.extend_from_slice(&0u16.to_be_bytes());
    font.extend_from_slice(b"head");
    font.extend_from_slice(&sum.to_be_bytes());
    font.extend_from_slice(&28u32.to_be_bytes());
    font.extend_from_slice(&54u32.to_be_bytes());
    font.extend_from_slice(&head);
    font.extend_from_slice(&[0, 0]);
    font
}

#[test]
fn woff2_holds_a_font_and_gives_it_back() {
    let font = minimal_font();
    assert_eq!(FontFormat::detect(&font), FontFormat::Ttf);

    let woff2 = compress_to_woff2(&font).unwrap();
    assert_eq!(FontFormat::detect(&woff2), FontFormat::Woff2);
    assert_ne!(woff2, font);

    let back = decompress_font(&woff2).unwrap();
    assert_eq!(FontFormat::detect(&back), FontFormat::Ttf);
    assert_eq!(back.len(), font.len());
    assert_ne!(back, woff2);

    // The same bytes give the same bytes.
    assert_eq!(compress_to_woff2(&font).unwrap(), woff2);
    assert_eq!(decompress_font(&woff2).unwrap(), back);
}
