use fontcull::css::font_face::{parse_font_face_block, parse_font_face_rules, parse_font_src};
use fontcull::css::rules::{
    extract_font_family_with_vars, parse_font_family_rules_with_vars, parse_font_family_value,
    parse_font_family_value_with_vars,
};
use fontcull::css::variables::{parse_css_custom_properties, resolve_css_var, CssVariables};

fn vars(pairs: &[(&str, &str)]) -> CssVariables {
    let mut table = CssVariables::new();
    for (name, value) in pairs {
        table.insert(name.to_string(), value.to_string());
    }
    table
}

#[test]
fn var_resolves_to_the_declared_value() {
    let css = "--c: 'Mono'; x{font-family:var(--c, Arial)}";
    let table = vars(&[("--c", "'Mono'")]);
    let rules = parse_font_family_rules_with_vars(css, &table);
    assert_eq!(rules.len(), 1);
    assert_eq!(rules[0].font_family, "Mono");
    assert_eq!(parse_font_family_value_with_vars("var(--c, Arial)", &table), "Mono");
}

#[test]
fn var_resolves_to_the_fallback_where_undeclared() {
    let css = "x{font-family:var(--c, Arial)}";
    let table = parse_css_custom_properties(css);
    assert_eq!(table.get("--c"), None);
    let rules = parse_font_family_rules_with_vars(css, &table);
    assert_eq!(rules.len(), 1);
    assert_eq!(rules[0].selector, "x");
    assert_eq!(rules[0].font_family, "Arial");
}

#[test]
fn var_declared_in_a_block_resolves_in_a_rule() {
    let css = ":root{--c: 'Mono'} x{font-family:var(--c, Arial)}";
    let table = parse_css_custom_properties(css);
    assert_eq!(table.get("--c"), Some("'Mono'".to_string()));
    let rules = parse_font_family_rules_with_vars(css, &table);
    assert_eq!(rules.len(), 1);
    assert_eq!(rules[0].font_family, "Mono");
}

#[test]
fn var_without_value_or_fallback_resolves_to_nothing() {
    assert_eq!(resolve_css_var("a var(--none) b", &CssVariables::new()), "a  b");
}

#[test]
fn var_inside_a_fallback_is_resolved() {
    let table = vars(&[("--inner", "Georgia")]);
    assert_eq!(resolve_css_var("var(--outer, var(--inner, serif))", &table), "Georgia");
    assert_eq!(
        resolve_css_var("var(--outer, var(--other, serif))", &CssVariables::new()),
        "serif"
    );
}

#[test]
fn var_that_is_never_closed_is_left_as_it_is() {
    let table = vars(&[("--a", "x")]);
    assert_eq!(resolve_css_var("var(--a", &table), "var(--a");
    assert_eq!(resolve_css_var("var(--a) var(--a", &table), "x var(--a");
}

#[test]
fn text_without_var_is_unchanged() {
    assert_eq!(resolve_css_var("Arial, sans-serif", &CssVariables::new()), "Arial, sans-serif");
    assert_eq!(resolve_css_var("", &CssVariables::new()), "");
}

#[test]
fn circular_vars_stop_after_ten_passes() {
    let table = vars(&[("--a", "var(--b)"), ("--b", "var(--a)")]);
    // Ten substitutions turn `--a` into `--b` and back five times.
    assert_eq!(resolve_css_var("var(--a)", &table), "var(--a)");
    assert_eq!(resolve_css_var("var(--b)", &table), "var(--b)");
    let own = vars(&[("--a", "x var(--a)")]);
    assert_eq!(resolve_css_var("var(--a)", &own), "x x x x x x x x x x var(--a)");
}

#[test]
fn resolution_makes_at_most_ten_substitutions() {
    let table = vars(&[("--a", "1")]);
    let eleven = "var(--a) ".repeat(11);
    let expected = format!("{}var(--a) ", "1 ".repeat(10));
    assert_eq!(resolve_css_var(&eleven, &table), expected);
}

#[test]
fn custom_property_declared_twice_keeps_the_last_value() {
    let css = ":root { --f: A; } .dark { --f: B; --g : C }";
    let table = parse_css_custom_properties(css);
    assert_eq!(table.get("--f"), Some("B".to_string()));
    assert_eq!(table.get("--g"), Some("C".to_string()));
    assert_eq!(table.get("--h"), None);
}

#[test]
fn custom_properties_of_at_rule_blocks_are_read() {
    let css = "@font-face { --x: 1; font-family: F } a { color: red; --y: 2 }";
    let table = parse_css_custom_properties(css);
    assert_eq!(table.get("--x"), Some("1".to_string()));
    assert_eq!(table.get("--y"), Some("2".to_string()));
}

#[test]
fn custom_properties_stop_at_a_block_that_is_never_closed() {
    let css = "a { --x: 1 } b { --y: 2 ";
    let table = parse_css_custom_properties(css);
    assert_eq!(table.get("--x"), Some("1".to_string()));
    assert_eq!(table.get("--y"), None);
}

#[test]
fn table_insert_overrides() {
    let mut table = CssVariables::new();
    assert_eq!(table.get("--a"), None);
    table.insert("--a".to_string(), "1".to_string());
    table.insert("--b".to_string(), "2".to_string());
    table.insert("--a".to_string(), "3".to_string());
    assert_eq!(table.get("--a"), Some("3".to_string()));
    assert_eq!(table.get("--b"), Some("2".to_string()));
}

#[test]
fn family_value_takes_the_first_entry_without_quotes() {
    assert_eq!(parse_font_family_value(" \"Inter\", sans-serif "), "Inter");
    assert_eq!(parse_font_family_value("'Playfair Display'"), "Playfair Display");
    assert_eq!(parse_font_family_value("monospace"), "monospace");
    assert_eq!(parse_font_family_value(""), "");
    assert_eq!(parse_font_family_value("\"\"A\"\""), "A");
}

#[test]
fn block_family_is_the_first_font_family_declaration() {
    let none = CssVariables::new();
    assert_eq!(
        extract_font_family_with_vars(" color: red; font-family: A, B; font-family: C ", &none),
        Some("A".to_string())
    );
    assert_eq!(extract_font_family_with_vars("color: red", &none), None);
    assert_eq!(extract_font_family_with_vars("", &none), None);
}

#[test]
fn font_shorthand_sets_no_family() {
    let none = CssVariables::new();
    assert_eq!(extract_font_family_with_vars("font: 12px Arial", &none), None);
    let rules = parse_font_family_rules_with_vars("p { font: 12px Arial; }", &none);
    assert!(rules.is_empty());
}

#[test]
fn rules_of_at_rules_are_left_out() {
    let none = CssVariables::new();
    let css = "@font-face { font-family: F; src: url(f.ttf) } a { font-family: A } { font-family: N }";
    let rules = parse_font_family_rules_with_vars(css, &none);
    assert_eq!(rules.len(), 1);
    assert_eq!(rules[0].selector, "a");
    assert_eq!(rules[0].font_family, "A");
}

#[test]
fn rules_keep_source_order() {
    let none = CssVariables::new();
    let css = "h1, h2 { font-family: A } p { color: red } p { font-family: B } h1 { font-family: C }";
    let rules = parse_font_family_rules_with_vars(css, &none);
    let found: Vec<(String, String)> =
        rules.into_iter().map(|r| (r.selector, r.font_family)).collect();
    assert_eq!(
        found,
        vec![
            ("h1, h2".to_string(), "A".to_string()),
            ("p".to_string(), "B".to_string()),
            ("h1".to_string(), "C".to_string()),
        ]
    );
}

#[test]
fn font_src_takes_the_first_url() {
    assert_eq!(
        parse_font_src(" url(\"/a.woff2\") format(\"woff2\"), url(/b.ttf)"),
        Some("/a.woff2".to_string())
    );
    assert_eq!(parse_font_src("url( 'x y.ttf' )"), Some("x y.ttf".to_string()));
    assert_eq!(parse_font_src("url(plain.ttf)"), Some("plain.ttf".to_string()));
    assert_eq!(parse_font_src("local(Arial)"), None);
    assert_eq!(parse_font_src("url(never-closed"), None);
}

#[test]
fn font_face_needs_family_and_source() {
    assert!(parse_font_face_block("font-family: F").is_none());
    assert!(parse_font_face_block("src: url(f.ttf)").is_none());
    assert!(parse_font_face_block("font-family: F; src: local(F)").is_none());
    let face = parse_font_face_block("font-family: 'F'; src: url(f.ttf); font-style: italic").unwrap();
    assert_eq!(face.family, "F");
    assert_eq!(face.src, "f.ttf");
    assert_eq!(face.weight, None);
    assert_eq!(face.style, Some("italic".to_string()));
}

#[test]
fn font_face_without_source_is_dropped() {
    let css = "@font-face { font-family: A } @font-face { font-family: B; src: url(b.ttf) }";
    let faces = parse_font_face_rules(css);
    assert_eq!(faces.len(), 1);
    assert_eq!(faces[0].family, "B");
    assert_eq!(faces[0].src, "b.ttf");
}

#[test]
fn font_faces_of_a_sheet_without_any() {
    assert!(parse_font_face_rules("body { font-family: A }").is_empty());
    assert!(parse_font_face_rules("").is_empty());
    assert!(parse_font_face_rules("@font-face").is_empty());
    assert!(parse_font_face_rules("@font-face { font-family: A; src: url(a.ttf)").is_empty());
}

#[test]
fn empty_font_face_is_passed_over() {
    let faces = parse_font_face_rules("@font-face{}@font-face{font-family:A;src:url(a.ttf)}");
    assert_eq!(faces.len(), 1);
    assert_eq!(faces[0].family, "A");
    assert_eq!(faces[0].src, "a.ttf");
    assert_eq!(faces[0].weight, None);
    assert_eq!(faces[0].style, None);
    assert!(parse_font_face_rules("@font-face{}").is_empty());
}

#[test]
fn custom_properties_of_rules_inside_at_rules_are_read() {
    let table = parse_css_custom_properties("@media screen{:root{--a:1}}");
    assert_eq!(table.get("--a"), Some("1".to_string()));

    let css = "@media print { a { --x: 1; --y: 2 } b { --x: 3 } } c { --z: 4 }";
    let table = parse_css_custom_properties(css);
    assert_eq!(table.get("--x"), Some("3".to_string()));
    assert_eq!(table.get("--y"), Some("2".to_string()));
    assert_eq!(table.get("--z"), Some("4".to_string()));

    let deep = parse_css_custom_properties("@supports (x) { @media all { d { --w: 5 } } }");
    assert_eq!(deep.get("--w"), Some("5".to_string()));
}

#[test]
fn a_block_is_read_before_the_blocks_inside_it() {
    let table = parse_css_custom_properties("a { --v: 1; b { --v: 2 } }");
    assert_eq!(table.get("--v"), Some("2".to_string()));
}

#[test]
fn closing_brace_without_a_block_makes_no_rule() {
    let none = CssVariables::new();
    let rules = parse_font_family_rules_with_vars("a{font-family:X} b }", &none);
    assert_eq!(rules.len(), 1);
    assert_eq!(rules[0].selector, "a");
    assert_eq!(rules[0].font_family, "X");
    let nested = parse_font_family_rules_with_vars("@media x { h1 { font-family: A } } p { font-family: B }", &none);
    assert_eq!(nested.len(), 1);
    assert_eq!(nested[0].selector, "p");
    assert_eq!(nested[0].font_family, "B");
}

#[test]
fn trimming_takes_unicode_whitespace() {
    assert_eq!(parse_font_family_value("\u{a0}\t\u{3000} A\u{2028}\u{85}"), "A");
    assert_eq!(parse_font_family_value("\u{200b}A"), "\u{200b}A");
}
