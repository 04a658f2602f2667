use fontcull::frontier::{frontier_links, normalize_url, CrawlState};

fn strings(items: &[&str]) -> Vec<String> {
    items.iter().map(|s| s.to_string()).collect()
}

#[test]
fn links_are_normalized_deduplicated_and_of_one_origin() {
    let anchors = strings(&[
        "https://a/x#frag",
        "https://a/x?b=2&a=1",
        "https://a/x?a=1&b=2",
        "https://other/y",
    ]);
    assert_eq!(
        frontier_links(&anchors, "https://a", 0),
        strings(&["https://a/x", "https://a/x?a=1&b=2"])
    );
}

#[test]
fn fragment_is_dropped() {
    assert_eq!(normalize_url("https://a/x#frag"), "https://a/x");
    assert_eq!(normalize_url("https://a/x?q=1#frag?y"), "https://a/x?q=1");
    assert_eq!(normalize_url("https://a/#"), "https://a/");
    assert_eq!(normalize_url("#top"), "");
}

#[test]
fn trailing_slash_goes_except_at_the_root() {
    assert_eq!(normalize_url("https://a/x/"), "https://a/x");
    assert_eq!(normalize_url("https://a/x/y/"), "https://a/x/y");
    assert_eq!(normalize_url("https://a/x//"), "https://a/x/");
    assert_eq!(normalize_url("https://a/"), "https://a/");
    assert_eq!(normalize_url("https://a"), "https://a");
    assert_eq!(normalize_url("https://a/x/?q=1"), "https://a/x?q=1");
    assert_eq!(normalize_url("/x/"), "/x");
    assert_eq!(normalize_url("/"), "/");
    assert_eq!(normalize_url("https://"), "https://");
}

#[test]
fn query_parameters_are_sorted_by_name() {
    assert_eq!(normalize_url("https://a/x?b=2&a=1"), "https://a/x?a=1&b=2");
    assert_eq!(normalize_url("https://a/x?b=2&a=1&c"), "https://a/x?a=1&b=2&c");
    assert_eq!(normalize_url("https://a/x?ab=1&a=2&b=3"), "https://a/x?a=2&ab=1&b=3");
    assert_eq!(normalize_url("https://a/x?B=1&a=2"), "https://a/x?B=1&a=2");
}

#[test]
fn parameters_of_one_name_keep_their_order() {
    assert_eq!(normalize_url("https://a/?z=1&a=9&z=0&a=1"), "https://a/?a=9&a=1&z=1&z=0");
}

#[test]
fn empty_parameters_and_empty_queries_go() {
    assert_eq!(normalize_url("https://a/x?"), "https://a/x");
    assert_eq!(normalize_url("https://a/x?&&"), "https://a/x");
    assert_eq!(normalize_url("https://a/x?b=1&&a=2&"), "https://a/x?a=2&b=1");
}

#[test]
fn normal_form_is_stable() {
    for url in [
        "https://a/x#frag",
        "https://a/x/?b=2&a=1&b=0#f",
        "https://a/",
        "https://a/x?&",
        "",
    ] {
        let once = normalize_url(url);
        assert_eq!(normalize_url(&once), once);
    }
}

#[test]
fn other_origins_are_left_out() {
    let anchors = strings(&[
        "https://a.evil.example/x",
        "https://a:8080/x",
        "https://a/ok",
        "http://a/x",
        "https://a",
        "https://a?q=1",
        "https://a#f",
        "mailto:someone@a",
    ]);
    assert_eq!(
        frontier_links(&anchors, "https://a", 0),
        strings(&["https://a/ok", "https://a", "https://a?q=1"])
    );
}

#[test]
fn limit_caps_the_links_of_one_page() {
    let anchors = strings(&["https://a/1", "https://a/2", "https://a/1/", "https://a/3", "https://a/4"]);
    assert_eq!(frontier_links(&anchors, "https://a", 2), strings(&["https://a/1", "https://a/2"]));
    assert_eq!(
        frontier_links(&anchors, "https://a", 4),
        strings(&["https://a/1", "https://a/2", "https://a/3", "https://a/4"])
    );
    assert_eq!(frontier_links(&anchors, "https://a", 9).len(), 4);
    assert_eq!(frontier_links(&anchors, "https://a", 0).len(), 4);
    assert!(frontier_links(&Vec::new(), "https://a", 3).is_empty());
}

#[test]
fn crawl_visits_depth_first_and_each_page_once() {
    let mut state = CrawlState::new(strings(&["s1", "s2", "s2"]), 10);
    assert_eq!(state.visited_count(), 0);
    assert_eq!(state.next_url(), Some("s2".to_string()));
    assert_eq!(state.link_budget(), Some(9));
    state.add_links(strings(&["a", "s2", "b"]));
    assert_eq!(state.next_url(), Some("b".to_string()));
    state.add_links(strings(&["a", "c"]));
    assert_eq!(state.next_url(), Some("c".to_string()));
    assert_eq!(state.next_url(), Some("a".to_string()));
    // The second `a` and the second `s2` have been visited by now.
    assert_eq!(state.next_url(), Some("s1".to_string()));
    assert_eq!(state.visited_count(), 5);
    assert_eq!(state.link_budget(), Some(5));
    assert_eq!(state.next_url(), None);
    assert_eq!(state.next_url(), None);
    assert_eq!(state.visited_count(), 5);
}

#[test]
fn crawl_follows_no_links_without_a_limit_or_beyond_it() {
    let mut none = CrawlState::new(strings(&["s"]), 0);
    assert_eq!(none.link_budget(), None);
    assert_eq!(none.next_url(), Some("s".to_string()));
    assert_eq!(none.link_budget(), None);

    let mut two = CrawlState::new(strings(&["s"]), 2);
    assert_eq!(two.link_budget(), Some(2));
    assert_eq!(two.next_url(), Some("s".to_string()));
    assert_eq!(two.link_budget(), Some(1));
    two.add_links(strings(&["t", "u"]));
    assert_eq!(two.next_url(), Some("u".to_string()));
    assert_eq!(two.link_budget(), None);
    // What waits is still visited.
    assert_eq!(two.next_url(), Some("t".to_string()));
    assert_eq!(two.link_budget(), None);
    assert_eq!(two.next_url(), None);
}

#[test]
fn failure_ends_the_session_only_at_its_sole_page() {
    let mut one = CrawlState::new(strings(&["s"]), 5);
    assert_eq!(one.next_url(), Some("s".to_string()));
    assert!(one.failure_is_fatal());
    one.add_links(strings(&["s"]));
    assert!(one.failure_is_fatal());
    one.add_links(strings(&["t"]));
    assert!(!one.failure_is_fatal());
    assert_eq!(one.next_url(), Some("t".to_string()));
    assert!(!one.failure_is_fatal());

    let mut two = CrawlState::new(strings(&["a", "b"]), 0);
    assert_eq!(two.next_url(), Some("b".to_string()));
    assert!(!two.failure_is_fatal());
    assert_eq!(two.next_url(), Some("a".to_string()));
    assert!(!two.failure_is_fatal());

    let mut same = CrawlState::new(strings(&["a", "a"]), 0);
    assert_eq!(same.next_url(), Some("a".to_string()));
    assert!(same.failure_is_fatal());
}
