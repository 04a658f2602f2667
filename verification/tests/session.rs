use fontcull::glyph_sets::FamilyCodes;
use fontcull::session::Session;

fn strings(items: &[&str]) -> Vec<String> {
    items.iter().map(|s| s.to_string()).collect()
}

fn entry(family: &str, codes: &[u32]) -> FamilyCodes {
    FamilyCodes { family: family.to_string(), codes: codes.to_vec() }
}

#[test]
fn session_crawls_gathers_and_selects() {
    let mut session = Session::new(strings(&["https://a/"]), 3);
    assert_eq!(session.next_url(), Some("https://a/".to_string()));
    assert!(session.follows_links());
    session.page_scanned(
        vec![entry("Inter", &[0x42, 0x41]), entry("*", &[0x42, 0x41])],
        &strings(&["https://a/x#top", "https://b/y", "https://a/z/?q=1", "https://a/x"]),
        "https://a",
    );
    // The page found last is opened first.
    assert_eq!(session.next_url(), Some("https://a/z?q=1".to_string()));
    assert!(session.follows_links());
    session.page_scanned(
        vec![entry("Mono", &[0x43]), entry("*", &[0x43])],
        &strings(&["https://a/w", "https://a/", "https://a/v"]),
        "https://a",
    );
    // One visit was left under the limit, so one link was taken.
    assert_eq!(session.next_url(), Some("https://a/w".to_string()));
    assert!(!session.follows_links());
    session.page_scanned(vec![entry("Inter", &[0x44])], &strings(&["https://a/u"]), "https://a");
    assert_eq!(session.next_url(), Some("https://a/x".to_string()));
    session.page_scanned(Vec::new(), &Vec::new(), "https://a");
    assert_eq!(session.next_url(), None);

    let selection = session.finish(Some("a"), Some("inter"));
    assert_eq!(selection.codes, vec![0x42, 0x41, 0x44]);
    assert_eq!(selection.unicode_range, "U+41-42,U+44");
}

#[test]
fn session_without_filter_ends_with_the_universal_family() {
    let mut session = Session::new(strings(&["s"]), 0);
    assert!(!session.follows_links());
    assert_eq!(session.next_url(), Some("s".to_string()));
    session.page_scanned(
        vec![entry("A", &[0x62]), entry("*", &[0x62])],
        &strings(&["https://a/never"]),
        "https://a",
    );
    assert_eq!(session.next_url(), None);
    let selection = session.finish(Some("ca"), None);
    assert_eq!(selection.codes, vec![0x62, 0x63, 0x61]);
    assert_eq!(selection.unicode_range, "U+61-63");
}

#[test]
fn session_that_gathers_nothing_ends_with_nothing() {
    let mut session = Session::new(Vec::new(), 5);
    assert_eq!(session.next_url(), None);
    let selection = session.finish(None, None);
    assert!(selection.codes.is_empty());
    assert_eq!(selection.unicode_range, "");
}

#[test]
fn session_ends_at_the_failure_of_its_only_page() {
    let mut one = Session::new(strings(&["s"]), 5);
    assert_eq!(one.next_url(), Some("s".to_string()));
    assert!(one.failure_is_fatal());

    let mut two = Session::new(strings(&["s", "t"]), 5);
    assert_eq!(two.next_url(), Some("t".to_string()));
    assert!(!two.failure_is_fatal());
    assert_eq!(two.next_url(), Some("s".to_string()));
    assert!(!two.failure_is_fatal());
}

#[test]
fn session_takes_links_before_it_passes_over_the_visited() {
    let mut session = Session::new(strings(&["https://a/"]), 2);
    assert_eq!(session.next_url(), Some("https://a/".to_string()));
    // One visit is left, and the one link that is taken has been visited.
    session.page_scanned(Vec::new(), &strings(&["https://a/", "https://a/w"]), "https://a");
    assert_eq!(session.next_url(), None);
}
