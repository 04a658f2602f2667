use fontcull::glyph_sets::{FamilyCodes, GlyphSets};
use fontcull::unicode_range::to_unicode_range;

fn entry(family: &str, codes: &[u32]) -> FamilyCodes {
    FamilyCodes { family: family.to_string(), codes: codes.to_vec() }
}

fn sorted(mut codes: Vec<u32>) -> Vec<u32> {
    codes.sort();
    codes
}

fn snapshot(sets: &GlyphSets) -> Vec<(String, Vec<u32>)> {
    let mut all: Vec<(String, Vec<u32>)> = sets
        .families()
        .into_iter()
        .map(|f| {
            let codes = sets.get(&f).unwrap().clone();
            (f, codes)
        })
        .collect();
    all.sort();
    all
}

#[test]
fn new_aggregate_is_empty() {
    let sets = GlyphSets::new();
    assert!(sets.families().is_empty());
    assert_eq!(sets.get_for_families(None), Vec::<u32>::new());
    assert_eq!(sets.get_for_families(Some("x")), Vec::<u32>::new());
}

#[test]
fn merge_unites_per_family() {
    let mut sets = GlyphSets::new();
    sets.merge(vec![entry("Inter", &[65, 66]), entry("*", &[65, 66])]);
    sets.merge(vec![entry("Inter", &[66, 67]), entry("Mono", &[48]), entry("*", &[66, 67, 48])]);
    assert_eq!(sets.get("Inter").unwrap(), &vec![65, 66, 67]);
    assert_eq!(sets.get("Mono").unwrap(), &vec![48]);
    assert_eq!(sets.get("*").unwrap(), &vec![65, 66, 67, 48]);
    assert!(sets.get("inter").is_none());
}

#[test]
fn merge_drops_duplicates_within_one_entry() {
    let mut sets = GlyphSets::new();
    sets.merge(vec![entry("A", &[1, 1, 2, 1, 3, 2])]);
    assert_eq!(sets.get("A").unwrap(), &vec![1, 2, 3]);
}

#[test]
fn merge_is_idempotent() {
    let a = vec![entry("A", &[1, 2, 3]), entry("B", &[9]), entry("A", &[4])];
    let mut sets = GlyphSets::new();
    sets.merge(vec![entry("A", &[3, 7]), entry("C", &[5])]);
    sets.merge(a.clone());
    let once = snapshot(&sets);
    sets.merge(a.clone());
    assert_eq!(snapshot(&sets), once);
    sets.merge(a);
    assert_eq!(snapshot(&sets), once);
}

#[test]
fn merge_of_nothing_changes_nothing() {
    let mut sets = GlyphSets::new();
    sets.merge(vec![entry("A", &[1, 2])]);
    let before = snapshot(&sets);
    sets.merge(Vec::new());
    assert_eq!(snapshot(&sets), before);
}

#[test]
fn merge_of_an_empty_set_changes_nothing() {
    let mut sets = GlyphSets::new();
    sets.merge(vec![entry("*", &[])]);
    assert!(!sets.contains_key("*"));
    assert!(sets.families().is_empty());

    sets.merge(vec![entry("A", &[1])]);
    let before = snapshot(&sets);
    sets.merge(vec![entry("*", &[]), entry("A", &[]), entry("B", &[])]);
    assert_eq!(snapshot(&sets), before);
    assert!(!sets.contains_key("*"));
    assert!(!sets.contains_key("B"));
    assert_eq!(sets.get_for_families(None), vec![1]);
}

#[test]
fn empty_whitelist_changes_nothing() {
    let mut sets = GlyphSets::new();
    sets.merge(vec![entry("A", &[1])]);
    sets.add_whitelist("");
    assert!(!sets.contains_key("*"));
    assert_eq!(sets.get_for_families(None), vec![1]);
}

#[test]
fn copy_holds_the_same_sets() {
    let mut sets = GlyphSets::new();
    sets.merge(vec![entry("A", &[1, 2]), entry("*", &[2, 1])]);
    let copy = sets.clone();
    sets.add_whitelist("z");
    assert_eq!(copy.get("A").unwrap(), &vec![1, 2]);
    assert_eq!(copy.get("*").unwrap(), &vec![2, 1]);
    assert_eq!(sets.get("*").unwrap(), &vec![2, 1, 0x7A]);
}

#[test]
fn select_without_filter_returns_the_universal_family() {
    let mut sets = GlyphSets::new();
    sets.merge(vec![entry("A", &[1, 2]), entry("*", &[2, 1, 3]), entry("B", &[4])]);
    assert_eq!(sets.get_for_families(None), vec![2, 1, 3]);
}

#[test]
fn select_without_filter_unites_all_families_where_none_is_universal() {
    let mut sets = GlyphSets::new();
    sets.merge(vec![entry("A", &[1, 2]), entry("B", &[2, 4]), entry("C", &[])]);
    assert_eq!(sorted(sets.get_for_families(None)), vec![1, 2, 4]);
    assert!(!sets.contains_key("C"));
}

#[test]
fn select_matches_fragments_of_family_names() {
    let mut sets = GlyphSets::new();
    sets.merge(vec![
        entry("FooBar", &[1, 2]),
        entry("myfoo", &[2, 3]),
        entry("Bar", &[4]),
        entry("*", &[1, 2, 3, 4]),
    ]);
    assert_eq!(sorted(sets.get_for_families(Some("Foo"))), vec![1, 2, 3]);
    assert_eq!(sorted(sets.get_for_families(Some("foo"))), vec![1, 2, 3]);
    assert_eq!(sorted(sets.get_for_families(Some("FOO"))), vec![1, 2, 3]);
    assert_eq!(sorted(sets.get_for_families(Some("bar"))), vec![1, 2, 4]);
    assert_eq!(sets.get_for_families(Some("baz")), Vec::<u32>::new());
}

#[test]
fn select_takes_a_comma_separated_filter_with_spaces() {
    let mut sets = GlyphSets::new();
    sets.merge(vec![entry("Inter", &[1]), entry("Iosevka", &[2]), entry("Playfair", &[3])]);
    assert_eq!(sorted(sets.get_for_families(Some(" inter , PLAY "))), vec![1, 3]);
    assert_eq!(sorted(sets.get_for_families(Some("iosevka,inter"))), vec![1, 2]);
}

#[test]
fn select_with_an_empty_fragment_takes_every_family() {
    let mut sets = GlyphSets::new();
    sets.merge(vec![entry("A", &[1]), entry("B", &[2])]);
    assert_eq!(sorted(sets.get_for_families(Some(""))), vec![1, 2]);
    assert_eq!(sorted(sets.get_for_families(Some("zzz,"))), vec![1, 2]);
}

#[test]
fn whitelist_goes_to_the_universal_family_only() {
    let mut sets = GlyphSets::new();
    sets.merge(vec![entry("A", &[1, 2]), entry("*", &[1, 2])]);
    sets.add_whitelist("ab\u{1F600}a");
    assert_eq!(sets.get("A").unwrap(), &vec![1, 2]);
    assert_eq!(sets.get("*").unwrap(), &vec![1, 2, 0x61, 0x62, 0x1F600]);
    let mut names = sets.families();
    names.sort();
    assert_eq!(names, vec!["*".to_string(), "A".to_string()]);
}

#[test]
fn whitelist_makes_the_universal_family() {
    let mut sets = GlyphSets::new();
    sets.merge(vec![entry("A", &[1])]);
    assert_eq!(sets.get_for_families(None), vec![1]);
    sets.add_whitelist("z");
    assert_eq!(sets.get_for_families(None), vec![0x7A]);
}

#[test]
fn whitelist_is_idempotent() {
    let mut sets = GlyphSets::new();
    sets.merge(vec![entry("A", &[1, 2]), entry("*", &[1, 2])]);
    sets.add_whitelist("hello");
    let once = snapshot(&sets);
    sets.add_whitelist("hello");
    assert_eq!(snapshot(&sets), once);
    assert_eq!(sets.get("*").unwrap(), &vec![1, 2, 0x68, 0x65, 0x6C, 0x6F]);
}

#[test]
fn selection_feeds_the_range_encoder() {
    let mut sets = GlyphSets::new();
    sets.merge(vec![entry("Inter", &[0x43, 0x41]), entry("*", &[0x43, 0x41])]);
    sets.merge(vec![entry("Inter", &[0x42]), entry("*", &[0x42])]);
    sets.add_whitelist("a");
    assert_eq!(to_unicode_range(sets.get_for_families(None)), "U+41-43,U+61");
    assert_eq!(to_unicode_range(sets.get_for_families(Some("inter"))), "U+41-43");
}

#[test]
fn default_aggregate_is_empty() {
    let sets = GlyphSets::default();
    assert!(sets.families().is_empty());
    assert!(!sets.contains_key("*"));
}
