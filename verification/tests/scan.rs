use fontcull::glyph_sets::GlyphSets;
use fontcull::scan::{codes_from, glyph_sets_from_json, links_from_json, JsonMember, JsonValue};

fn number(n: u64) -> JsonValue {
    JsonValue::Number(Some(n))
}

fn member(name: &str, value: JsonValue) -> JsonMember {
    JsonMember { name: name.to_string(), value }
}

fn text(s: &str) -> JsonValue {
    JsonValue::Text(s.to_string())
}

#[test]
fn glyph_sets_are_read_from_an_object_of_arrays() {
    let value = JsonValue::Object(vec![
        member("Inter", JsonValue::Array(vec![number(72), number(105)])),
        member("*", JsonValue::Array(vec![number(72), number(105), number(33)])),
    ]);
    let sets = glyph_sets_from_json(&value);
    assert_eq!(sets.len(), 2);
    assert_eq!(sets[0].family, "Inter");
    assert_eq!(sets[0].codes, vec![72, 105]);
    assert_eq!(sets[1].family, "*");
    assert_eq!(sets[1].codes, vec![72, 105, 33]);
}

#[test]
fn glyph_sets_pass_over_what_is_no_array_and_no_number() {
    let value = JsonValue::Object(vec![
        member("A", text("not an array")),
        member(
            "B",
            JsonValue::Array(vec![
                number(1),
                JsonValue::Number(None),
                text("2"),
                JsonValue::Null,
                JsonValue::Bool(true),
                JsonValue::Array(vec![number(9)]),
                number(3),
            ]),
        ),
        member("C", JsonValue::Array(Vec::new())),
        member("D", JsonValue::Null),
    ]);
    let sets = glyph_sets_from_json(&value);
    assert_eq!(sets.len(), 2);
    assert_eq!(sets[0].family, "B");
    assert_eq!(sets[0].codes, vec![1, 3]);
    assert_eq!(sets[1].family, "C");
    assert_eq!(sets[1].codes, Vec::<u32>::new());
}

#[test]
fn glyph_sets_of_what_is_no_object_are_none() {
    assert!(glyph_sets_from_json(&JsonValue::Null).is_empty());
    assert!(glyph_sets_from_json(&JsonValue::Array(vec![number(1)])).is_empty());
    assert!(glyph_sets_from_json(&text("x")).is_empty());
    assert!(glyph_sets_from_json(&JsonValue::Object(Vec::new())).is_empty());
}

#[test]
fn glyph_sets_keep_the_last_member_of_a_name() {
    let value = JsonValue::Object(vec![
        member("A", JsonValue::Array(vec![number(1)])),
        member("B", JsonValue::Array(vec![number(2)])),
        member("A", JsonValue::Array(vec![number(3), number(4)])),
    ]);
    let sets = glyph_sets_from_json(&value);
    assert_eq!(sets.len(), 2);
    assert_eq!(sets[0].family, "A");
    assert_eq!(sets[0].codes, vec![3, 4]);
    assert_eq!(sets[1].codes, vec![2]);
}

#[test]
fn codes_keep_the_low_32_bits() {
    let items = vec![number(0x41), number(0x1_0000_0042), number(u64::MAX), number(0xFFFF_FFFF)];
    assert_eq!(codes_from(&items), vec![0x41, 0x42, 0xFFFF_FFFF, 0xFFFF_FFFF]);
}

#[test]
fn scanned_sets_merge_into_the_aggregate() {
    let page = JsonValue::Object(vec![
        member("Inter", JsonValue::Array(vec![number(65), number(65), number(66)])),
        member("*", JsonValue::Array(vec![number(65), number(66)])),
    ]);
    let mut sets = GlyphSets::new();
    sets.merge(glyph_sets_from_json(&page));
    sets.merge(glyph_sets_from_json(&page));
    assert_eq!(sets.get("Inter").unwrap(), &vec![65, 66]);
    assert_eq!(sets.get_for_families(None), vec![65, 66]);
}

#[test]
fn links_are_the_strings_of_an_array() {
    let value = JsonValue::Array(vec![text("https://a/x"), number(1), JsonValue::Null, text("https://a/y")]);
    assert_eq!(links_from_json(&value), vec!["https://a/x".to_string(), "https://a/y".to_string()]);
    assert!(links_from_json(&JsonValue::Null).is_empty());
    assert!(links_from_json(&text("https://a/x")).is_empty());
    assert!(links_from_json(&JsonValue::Object(vec![member("a", text("b"))])).is_empty());
}
