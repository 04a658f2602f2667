use fontcull::css::rules::FontFamilyRule;
use fontcull::static_analysis::{
    analyze_fonts, assign_fonts, collect_chars_per_font, extract_css_from_html,
    find_font_family_for_element, join_sheets, PageNode,
};

fn codes(text: &str) -> Vec<u32> {
    let mut out: Vec<u32> = Vec::new();
    for c in text.chars() {
        if !out.contains(&(c as u32)) {
            out.push(c as u32);
        }
    }
    out
}

fn sorted(mut v: Vec<u32>) -> Vec<u32> {
    v.sort();
    v
}

fn element(parent: Option<usize>) -> PageNode {
    PageNode { element: true, text: None, parent }
}

fn text(content: &str, parent: usize) -> PageNode {
    PageNode { element: false, text: Some(content.to_string()), parent: Some(parent) }
}

fn rule(selector: &str, family: &str) -> FontFamilyRule {
    FontFamilyRule { selector: selector.to_string(), font_family: family.to_string() }
}

#[test]
fn last_matching_rule_wins_and_ancestors_are_the_fallback() {
    let css = "body{font-family:\"A\"} h1{font-family:\"B\"}";
    let html = "<body><h1>X</h1><p>Y</p></body>";
    let chars = collect_chars_per_font(html, css);
    assert_eq!(chars.get("B").unwrap(), &codes("X"));
    assert_eq!(chars.get("A").unwrap(), &codes("Y"));
    let mut names = chars.families();
    names.sort();
    assert_eq!(names, vec!["A".to_string(), "B".to_string()]);
}

#[test]
fn later_rule_overrides_earlier_rule_for_one_element() {
    let css = "p{font-family:First} .x{font-family:Second} p{font-family:Third}";
    let html = "<html><body><p class=\"x\">abc</p></body></html>";
    let chars = collect_chars_per_font(html, css);
    assert_eq!(chars.get("Third").unwrap(), &codes("abc"));
    assert!(!chars.contains_key("First"));
    assert!(!chars.contains_key("Second"));
}

#[test]
fn text_without_any_rule_is_sans_serif() {
    let chars = collect_chars_per_font("<p>hi</p>", "h1{font-family:B}");
    assert_eq!(chars.get("sans-serif").unwrap(), &codes("hi"));
    assert_eq!(chars.families(), vec!["sans-serif".to_string()]);
}

#[test]
fn only_own_text_counts_for_an_element() {
    let css = "div{font-family:Outer} b{font-family:Inner}";
    let html = "<div>out <b>in</b> side</div>";
    let chars = collect_chars_per_font(html, css);
    assert_eq!(sorted(chars.get("Outer").unwrap().clone()), sorted(codes("out  side")));
    assert_eq!(chars.get("Inner").unwrap(), &codes("in"));
}

#[test]
fn whitespace_alone_counts_for_no_family() {
    let chars = collect_chars_per_font("<div>  \n <p> </p></div>", "div{font-family:D}");
    assert!(chars.families().is_empty());
}

#[test]
fn nearest_matching_ancestor_decides() {
    let css = "section{font-family:Far} div{font-family:Near}";
    let html = "<section><div><span><i>t</i></span></div></section>";
    let chars = collect_chars_per_font(html, css);
    assert_eq!(chars.get("Near").unwrap(), &codes("t"));
    assert!(!chars.contains_key("Far"));
}

#[test]
fn unreadable_selector_matches_nothing() {
    let css = "p!!{font-family:Bad} p{font-family:Good}";
    let chars = collect_chars_per_font("<p>x</p>", css);
    assert_eq!(chars.get("Good").unwrap(), &codes("x"));
    assert!(!chars.contains_key("Bad"));
    let only_bad = collect_chars_per_font("<p>x</p>", "p!!{font-family:Bad}");
    assert_eq!(only_bad.families(), vec!["sans-serif".to_string()]);
}

#[test]
fn font_families_are_found_on_plain_values() {
    // 0: document, 1: html, 2: body, 3: h1, 4: "X", 5: p, 6: "Y"
    let nodes = vec![
        PageNode { element: false, text: None, parent: None },
        element(Some(0)),
        element(Some(1)),
        element(Some(2)),
        text("X", 3),
        element(Some(2)),
        text("Y", 5),
    ];
    let rules = vec![rule("body", "A"), rule("h1", "B")];
    let hits = vec![
        Some(vec![false, false, true, false, false, false, false]),
        Some(vec![false, false, false, true, false, false, false]),
    ];
    assert_eq!(find_font_family_for_element(&nodes, &rules, &hits, 3), Some("B".to_string()));
    assert_eq!(find_font_family_for_element(&nodes, &rules, &hits, 5), Some("A".to_string()));
    assert_eq!(find_font_family_for_element(&nodes, &rules, &hits, 2), Some("A".to_string()));
    assert_eq!(find_font_family_for_element(&nodes, &rules, &hits, 1), None);
    assert_eq!(find_font_family_for_element(&nodes, &rules, &hits, 0), None);
    assert_eq!(find_font_family_for_element(&nodes, &rules, &hits, 99), None);

    let any = Some(vec![false, true, true, true, false, true, false]);
    let chars = assign_fonts(&nodes, &rules, &hits, &any);
    assert_eq!(chars.get("B").unwrap(), &codes("X"));
    assert_eq!(chars.get("A").unwrap(), &codes("Y"));
    assert!(!chars.contains_key("sans-serif"));
}

#[test]
fn fonts_on_plain_values_cope_with_odd_input() {
    // A node that is its own parent, hits that are too short, and a rule
    // without hits.
    let nodes = vec![element(Some(0)), text("loop", 0), text("lost", 7)];
    let rules = vec![rule("a", "A"), rule("b", "B")];
    let hits = vec![Some(vec![]), None];
    let any = Some(vec![true]);
    assert_eq!(find_font_family_for_element(&nodes, &rules, &hits, 0), None);
    let chars = assign_fonts(&nodes, &rules, &hits, &any);
    assert_eq!(chars.get("sans-serif").unwrap(), &codes("loop"));
    assert_eq!(chars.families().len(), 1);
    let none = assign_fonts(&nodes, &rules, &hits, &None);
    assert!(none.families().is_empty());
}

#[test]
fn last_hit_decides_on_plain_values() {
    let nodes = vec![element(None), element(Some(0)), text("t", 1)];
    let rules = vec![rule("x", "One"), rule("y", "Two"), rule("z", "Three")];
    let hits = vec![Some(vec![false, true, false]), Some(vec![false, true, false]), Some(vec![true, false, false])];
    assert_eq!(find_font_family_for_element(&nodes, &rules, &hits, 1), Some("Two".to_string()));
    assert_eq!(find_font_family_for_element(&nodes, &rules, &hits, 0), Some("Three".to_string()));
}

#[test]
fn css_is_taken_from_style_elements() {
    let html = "<html><head><style>a{color:red}</style></head><body><style>b{}</style><p style=\"c\">x</p></body></html>";
    assert_eq!(extract_css_from_html(html), "a{color:red}\nb{}\n");
    assert_eq!(extract_css_from_html("<p>no style</p>"), "");
}

#[test]
fn sheets_are_joined_with_line_breaks() {
    assert_eq!(join_sheets(&vec!["a".to_string(), "".to_string(), "b\n".to_string()]), "a\n\nb\n\n");
    assert_eq!(join_sheets(&Vec::new()), "");
}

#[test]
fn analysis_gives_chars_and_faces() {
    let html = "<html><head><style>@font-face{font-family:F;src:url(f.woff2)} p{font-family:F}</style></head><body><p>Zz</p></body></html>";
    let css = extract_css_from_html(html);
    let analysis = analyze_fonts(html, &css);
    assert_eq!(analysis.font_faces.len(), 1);
    assert_eq!(analysis.font_faces[0].src, "f.woff2");
    assert_eq!(analysis.chars_per_font.get("F").unwrap(), &codes("Zz"));
    // The text of `style` is the style element's own text and no rule matches it.
    let style_text = codes("@font-face{font-family:F;src:url(f.woff2)} p{font-family:F}");
    assert_eq!(analysis.chars_per_font.get("sans-serif").unwrap(), &style_text);
}
