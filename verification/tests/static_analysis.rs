use fontcull::css::font_face::parse_font_face_rules;
use fontcull::css::rules::parse_font_family_rules_with_vars;
use fontcull::css::variables::{parse_css_custom_properties, resolve_css_var, CssVariables};
use fontcull::static_analysis::{analyze_fonts, collect_chars_per_font, extract_css_from_html};

fn has(codes: &Vec<u32>, c: char) -> bool {
    codes.contains(&(c as u32))
}

#[test]
fn test_parse_font_family_rules() {
    let css = r#"
            body { font-family: "Inter", sans-serif; }
            h1 { font-family: 'Playfair Display'; }
            .code { font-family: monospace; }
        "#;

    let rules = parse_font_family_rules_with_vars(css, &CssVariables::new());
    assert_eq!(rules.len(), 3);
    assert_eq!(rules[0].selector, "body");
    assert_eq!(rules[0].font_family, "Inter");
    assert_eq!(rules[1].font_family, "Playfair Display");
    assert_eq!(rules[2].font_family, "monospace");
}

#[test]
fn test_collect_chars_basic() {
    let html = r#"
            <html>
            <head>
                <style>
                    body { font-family: "TestFont"; }
                </style>
            </head>
            <body>
                <p>Hello</p>
            </body>
            </html>
        "#;

    let css = extract_css_from_html(html);
    let chars = collect_chars_per_font(html, &css);

    assert!(chars.contains_key("TestFont"));
    let test_font_chars = chars.get("TestFont").unwrap();
    assert!(has(&test_font_chars, 'H'));
    assert!(has(&test_font_chars, 'e'));
    assert!(has(&test_font_chars, 'l'));
    assert!(has(&test_font_chars, 'o'));
}

#[test]
fn test_different_fonts_for_elements() {
    let html = r#"
            <html>
            <head>
                <style>
                    body { font-family: "BodyFont"; }
                    h1 { font-family: "HeadingFont"; }
                </style>
            </head>
            <body>
                <h1>Title</h1>
                <p>Body text</p>
            </body>
            </html>
        "#;

    let css = extract_css_from_html(html);
    let chars = collect_chars_per_font(html, &css);

    // h1 should use HeadingFont
    assert!(chars.contains_key("HeadingFont"));
    assert!(has(&chars.get("HeadingFont").unwrap(), 'T'));

    // p should inherit from body -> BodyFont
    assert!(chars.contains_key("BodyFont"));
    assert!(has(&chars.get("BodyFont").unwrap(), 'B'));
}

#[test]
fn test_parse_font_face_rules() {
    let css = r#"
            @font-face {
                font-family: "Inter";
                src: url("/fonts/Inter-Regular.woff2") format("woff2");
                font-weight: 400;
                font-style: normal;
            }

            @font-face {
                font-family: "Inter";
                src: url('/fonts/Inter-Bold.woff2');
                font-weight: 700;
            }

            @font-face {
                font-family: 'Playfair Display';
                src: url(fonts/Playfair.ttf);
            }

            body { font-family: "Inter", sans-serif; }
        "#;

    let faces = parse_font_face_rules(css);
    assert_eq!(faces.len(), 3);

    assert_eq!(faces[0].family, "Inter");
    assert_eq!(faces[0].src, "/fonts/Inter-Regular.woff2");
    assert_eq!(faces[0].weight, Some("400".to_string()));
    assert_eq!(faces[0].style, Some("normal".to_string()));

    assert_eq!(faces[1].family, "Inter");
    assert_eq!(faces[1].src, "/fonts/Inter-Bold.woff2");
    assert_eq!(faces[1].weight, Some("700".to_string()));
    assert_eq!(faces[1].style, None);

    assert_eq!(faces[2].family, "Playfair Display");
    assert_eq!(faces[2].src, "fonts/Playfair.ttf");
}

#[test]
fn test_analyze_fonts_full() {
    let html = r#"
            <html>
            <head>
                <style>
                    @font-face {
                        font-family: "MyFont";
                        src: url("/fonts/MyFont.woff2");
                    }
                    body { font-family: "MyFont"; }
                </style>
            </head>
            <body>
                <p>Hello World</p>
            </body>
            </html>
        "#;

    let css = extract_css_from_html(html);
    let analysis = analyze_fonts(html, &css);

    // Should have the font-face
    assert_eq!(analysis.font_faces.len(), 1);
    assert_eq!(analysis.font_faces[0].family, "MyFont");
    assert_eq!(analysis.font_faces[0].src, "/fonts/MyFont.woff2");

    // Should have collected chars for MyFont
    assert!(analysis.chars_per_font.contains_key("MyFont"));
    let chars = analysis.chars_per_font.get("MyFont").unwrap();
    assert!(has(&chars, 'H'));
    assert!(has(&chars, 'W'));
}

#[test]
fn test_parse_css_custom_properties() {
    let css = r#"
            :root {
                --font-mono: 'Iosevka', monospace;
                --font-body: "Inter", sans-serif;
                --spacing: 1rem;
            }
            body { color: black; }
        "#;

    let vars = parse_css_custom_properties(css);
    assert_eq!(vars.get("--font-mono"), Some("'Iosevka', monospace".to_string()));
    assert_eq!(vars.get("--font-body"), Some("\"Inter\", sans-serif".to_string()));
    assert_eq!(vars.get("--spacing"), Some("1rem".to_string()));
}

#[test]
fn test_resolve_css_var_simple() {
    let mut vars = CssVariables::new();
    vars.insert("--font-mono".to_string(), "'Iosevka', monospace".to_string());

    let result = resolve_css_var("var(--font-mono)", &vars);
    assert_eq!(result, "'Iosevka', monospace");
}

#[test]
fn test_resolve_css_var_with_fallback() {
    let vars: CssVariables = CssVariables::new();

    // When variable doesn't exist, should use fallback
    let result = resolve_css_var("var(--undefined, Arial)", &vars);
    assert_eq!(result, "Arial");
}

#[test]
fn test_resolve_css_var_nested() {
    let mut vars = CssVariables::new();
    vars.insert("--base-font".to_string(), "'Inter'".to_string());
    vars.insert("--font-stack".to_string(), "var(--base-font), sans-serif".to_string());

    let result = resolve_css_var("var(--font-stack)", &vars);
    assert_eq!(result, "'Inter', sans-serif");
}

#[test]
fn test_font_family_with_css_var() {
    let html = r#"
            <html>
            <head>
                <style>
                    @font-face {
                        font-family: 'Iosevka';
                        src: url('/fonts/Iosevka-Regular.woff2') format('woff2');
                    }

                    :root {
                        --font-mono: 'Iosevka', monospace;
                    }

                    code {
                        font-family: var(--font-mono);
                    }
                </style>
            </head>
            <body>
                <code>fn main() { println!("hello"); }</code>
            </body>
            </html>
        "#;

    let css = extract_css_from_html(html);
    let analysis = analyze_fonts(html, &css);

    // Should have the font-face for Iosevka
    assert_eq!(analysis.font_faces.len(), 1);
    assert_eq!(analysis.font_faces[0].family, "Iosevka");

    // Should have collected chars for Iosevka (not None/empty!)
    assert!(
        analysis.chars_per_font.contains_key("Iosevka"),
        "chars_per_font should contain Iosevka, but got: {:?}",
        analysis.chars_per_font.families()
    );

    let iosevka_chars = analysis.chars_per_font.get("Iosevka").unwrap();
    // Check for characters from: fn main() { println!("hello"); }
    assert!(has(&iosevka_chars, 'f'));
    assert!(has(&iosevka_chars, 'n'));
    assert!(has(&iosevka_chars, 'm'));
    assert!(has(&iosevka_chars, '('));
    assert!(has(&iosevka_chars, '{'));
    assert!(has(&iosevka_chars, 'h'));
    assert!(has(&iosevka_chars, 'e'));
    assert!(has(&iosevka_chars, 'l'));
    assert!(has(&iosevka_chars, 'o'));
}

#[test]
fn test_css_var_in_multiple_rules() {
    let css = r#"
            :root {
                --heading-font: 'Playfair Display';
                --body-font: 'Inter';
            }

            h1 { font-family: var(--heading-font); }
            h2 { font-family: var(--heading-font); }
            p { font-family: var(--body-font); }
        "#;

    let vars = parse_css_custom_properties(css);
    let rules = parse_font_family_rules_with_vars(css, &vars);

    // Should have 3 rules (h1, h2, p)
    assert_eq!(rules.len(), 3);
    assert_eq!(rules[0].font_family, "Playfair Display");
    assert_eq!(rules[1].font_family, "Playfair Display");
    assert_eq!(rules[2].font_family, "Inter");
}
