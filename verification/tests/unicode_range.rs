use fontcull::unicode_range::{sort_codes, to_unicode_range};

/// Reads a unicode-range back into the codepoints it names.
fn expand(text: &str) -> Vec<u32> {
    let mut out = Vec::new();
    if text.is_empty() {
        return out;
    }
    for token in text.split(',') {
        let body = token.strip_prefix("U+").unwrap();
        let (lo, hi) = match body.split_once('-') {
            Some((lo, hi)) => (lo, hi),
            None => (body, body),
        };
        let lo = u32::from_str_radix(lo, 16).unwrap();
        let hi = u32::from_str_radix(hi, 16).unwrap();
        let mut c = lo;
        loop {
            out.push(c);
            if c == hi {
                break;
            }
            c += 1;
        }
    }
    out
}

#[test]
fn range_of_nothing_is_empty() {
    assert_eq!(to_unicode_range(Vec::new()), "");
}

#[test]
fn range_of_one_codepoint() {
    assert_eq!(to_unicode_range(vec![0x41]), "U+41");
}

#[test]
fn range_merges_consecutive_codepoints() {
    assert_eq!(to_unicode_range(vec![0x41, 0x42, 0x43, 0x61]), "U+41-43,U+61");
}

#[test]
fn range_of_two_consecutive_codepoints_is_a_run() {
    assert_eq!(to_unicode_range(vec![0x30, 0x31]), "U+30-31");
}

#[test]
fn range_sorts_and_drops_duplicates() {
    assert_eq!(
        to_unicode_range(vec![0x61, 0x43, 0x41, 0x42, 0x41, 0x61, 0x43]),
        "U+41-43,U+61"
    );
}

#[test]
fn range_writes_upper_case_hex_without_padding() {
    assert_eq!(to_unicode_range(vec![0x1F600, 0xAB, 0xA]), "U+A,U+AB,U+1F600");
    assert_eq!(to_unicode_range(vec![0]), "U+0");
    assert_eq!(to_unicode_range(vec![0xABCDEF]), "U+ABCDEF");
}

#[test]
fn range_reaches_the_largest_codepoint() {
    assert_eq!(
        to_unicode_range(vec![u32::MAX, u32::MAX - 1, 0]),
        "U+0,U+FFFFFFFE-FFFFFFFF"
    );
}

#[test]
fn range_of_separate_codepoints() {
    assert_eq!(to_unicode_range(vec![1, 3, 5]), "U+1,U+3,U+5");
}

#[test]
fn range_expands_back_to_the_sorted_codepoints() {
    let inputs: Vec<Vec<u32>> = vec![
        vec![],
        vec![7],
        vec![0x48, 0x65, 0x6C, 0x6C, 0x6F, 0x20, 0x57, 0x6F, 0x72, 0x6C, 0x64],
        vec![10, 9, 8, 7, 6, 5, 100, 102, 101, 5, 7],
        vec![0x4E00, 0x4E01, 0x4E03, 0x20, 0x21, 0x10FFFF],
    ];
    for input in inputs {
        let mut expected = input.clone();
        expected.sort();
        expected.dedup();
        assert_eq!(expand(&to_unicode_range(input.clone())), expected);
        assert_eq!(sort_codes(&input), expected);
    }
}
