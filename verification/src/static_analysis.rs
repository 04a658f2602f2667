//! Which characters a page shows in which font family, found from its HTML and
//! CSS alone by a simplified cascade: of the rules whose selector matches an
//! element the last one in the style sheet decides, and an element that no rule
//! matches takes the family of its nearest ancestor that one does.

use crate::css::font_face::{faces_view, font_faces, parse_font_face_rules, FontFace};
use crate::css::rules::{family_rules, parse_font_family_rules_with_vars, rules_view, FontFamilyRule};
use crate::css::variables::{custom_properties, parse_css_custom_properties};
use crate::glyph_sets::{codepoints, codes_of_chars, with_family, GlyphSets};
use crate::text::{append, chars_of, string_of, trim, trimmed};
use vstd::prelude::*;

verus! {

/// One node of a parsed document, as far as the cascade reads it.
#[derive(Debug, Clone)]
pub struct PageNode {
    /// Whether the node is an element.
    pub element: bool,
    /// The node's text, where it is a text node.
    pub text: Option<String>,
    /// The place of the node's parent in the list of nodes.
    pub parent: Option<usize>,
}

/// What a `PageNode` holds, as text.
pub struct NodeText {
    pub element: bool,
    pub text: Option<Seq<char>>,
    pub parent: Option<usize>,
}

impl View for PageNode {
    type V = NodeText;

    open spec fn view(&self) -> NodeText {
        NodeText {
            element: self.element,
            text: match self.text {
                Some(t) => Some(t@),
                None => None,
            },
            parent: self.parent,
        }
    }
}

/// What `nodes` hold, in order.
pub open spec fn nodes_view(nodes: Seq<PageNode>) -> Seq<NodeText> {
    nodes.map_values(|n: PageNode| n@)
}

/// For each selector whether it could be read, and if so, for each node
/// whether it matches.
pub open spec fn hits_view(hits: Seq<Option<Vec<bool>>>) -> Seq<Option<Seq<bool>>> {
    hits.map_values(|h: Option<Vec<bool>>| optional_bools(h))
}

/// The flags of an optional list.
pub open spec fn optional_bools(h: Option<Vec<bool>>) -> Option<Seq<bool>> {
    match h {
        Some(flags) => Some(flags@),
        None => None,
    }
}

// ---------------------------------------------------------------------------
// The cascade on plain values
// ---------------------------------------------------------------------------

/// The family that applies where no rule does.
pub open spec fn default_family() -> Seq<char> {
    seq!['s', 'a', 'n', 's', '-', 's', 'e', 'r', 'i', 'f']
}

/// The selector that matches every element.
pub open spec fn any_element() -> Seq<char> {
    seq!['*']
}

/// The flags `flags` say that node `n` matches.
pub open spec fn flagged(flags: Option<Seq<bool>>, n: int) -> bool {
    match flags {
        Some(f) => 0 <= n < f.len() && f[n],
        None => false,
    }
}

/// The selector of rule `r` matches node `n`. A selector that could not be
/// read matches nothing.
pub open spec fn hit(hits: Seq<Option<Seq<bool>>>, r: int, n: int) -> bool {
    0 <= r < hits.len() && flagged(hits[r], n)
}

/// The family of the last of the first `upto` rules whose selector matches
/// node `n`.
pub open spec fn matched_family(
    rules: Seq<(Seq<char>, Seq<char>)>,
    hits: Seq<Option<Seq<bool>>>,
    n: int,
    upto: int,
) -> Option<Seq<char>>
    decreases upto,
{
    if upto <= 0 {
        None
    } else if upto <= rules.len() && hit(hits, upto - 1, n) {
        Some(rules[upto - 1].1)
    } else {
        matched_family(rules, hits, n, upto - 1)
    }
}

/// Of the rules that match a node the last one decides: where rule `r` matches
/// node `n` and no later rule does, the node has that rule's family.
pub proof fn lemma_last_match_wins(
    rules: Seq<(Seq<char>, Seq<char>)>,
    hits: Seq<Option<Seq<bool>>>,
    n: int,
    r: int,
    upto: int,
)
    requires
        0 <= r < upto <= rules.len(),
        hit(hits, r, n),
        forall|later: int| r < later < upto ==> !hit(hits, later, n),
    ensures
        matched_family(rules, hits, n, upto) == Some(rules[r].1),
    decreases upto,
{
    if r < upto - 1 {
        assert(!hit(hits, upto - 1, n));
        lemma_last_match_wins(rules, hits, n, r, upto - 1);
    }
}

/// A node that no rule matches has no family of its own.
pub proof fn lemma_no_match(
    rules: Seq<(Seq<char>, Seq<char>)>,
    hits: Seq<Option<Seq<bool>>>,
    n: int,
    upto: int,
)
    requires
        forall|r: int| 0 <= r < upto ==> !hit(hits, r, n),
    ensures
        matched_family(rules, hits, n, upto) is None,
    decreases upto,
{
    if upto > 0 {
        assert(!hit(hits, upto - 1, n));
        lemma_no_match(rules, hits, n, upto - 1);
    }
}

/// The parent of node `n`, where it has one among `nodes`.
pub open spec fn parent_of(nodes: Seq<NodeText>, n: int) -> Option<int> {
    if 0 <= n < nodes.len() {
        match nodes[n].parent {
            Some(p) => if p < nodes.len() {
                Some(p as int)
            } else {
                None
            },
            None => None,
        }
    } else {
        None
    }
}

/// The family of the nearest ancestor of node `n` that is an element and that
/// a rule matches, looking at most `steps` ancestors up.
pub open spec fn inherited_family(
    nodes: Seq<NodeText>,
    rules: Seq<(Seq<char>, Seq<char>)>,
    hits: Seq<Option<Seq<bool>>>,
    n: int,
    steps: nat,
) -> Option<Seq<char>>
    decreases steps,
{
    if steps == 0 {
        None
    } else {
        match parent_of(nodes, n) {
            None => None,
            Some(p) => {
                let own = if nodes[p].element {
                    matched_family(rules, hits, p, rules.len() as int)
                } else {
                    None
                };
                match own {
                    Some(family) => Some(family),
                    None => inherited_family(nodes, rules, hits, p, (steps - 1) as nat),
                }
            },
        }
    }
}

/// The family that the rules give node `n`: that of the last rule that matches
/// it, else that of its nearest ancestor that a rule matches. A chain of
/// ancestors is never longer than the list of nodes.
pub open spec fn found_family(
    nodes: Seq<NodeText>,
    rules: Seq<(Seq<char>, Seq<char>)>,
    hits: Seq<Option<Seq<bool>>>,
    n: int,
) -> Option<Seq<char>> {
    match matched_family(rules, hits, n, rules.len() as int) {
        Some(family) => Some(family),
        None => inherited_family(nodes, rules, hits, n, nodes.len()),
    }
}

/// The family in which node `n` is shown.
pub open spec fn family_for(
    nodes: Seq<NodeText>,
    rules: Seq<(Seq<char>, Seq<char>)>,
    hits: Seq<Option<Seq<bool>>>,
    n: int,
) -> Seq<char> {
    match found_family(nodes, rules, hits, n) {
        Some(family) => family,
        None => default_family(),
    }
}

/// The text of the first `upto` nodes that are text nodes with node `n` as
/// their parent.
pub open spec fn own_text_within(nodes: Seq<NodeText>, n: int, upto: int) -> Seq<char>
    decreases upto,
{
    if upto <= 0 || upto > nodes.len() {
        Seq::empty()
    } else {
        let before = own_text_within(nodes, n, upto - 1);
        let child = nodes[upto - 1];
        match child.text {
            Some(t) => if child.parent == Some(n as usize) && 0 <= n < nodes.len() {
                before + t
            } else {
                before
            },
            None => before,
        }
    }
}

/// An element's own text: that of the text nodes directly under it, not what
/// its descendants hold.
pub open spec fn own_text(nodes: Seq<NodeText>, n: int) -> Seq<char> {
    own_text_within(nodes, n, nodes.len() as int)
}

/// Node `n` is one of the document's elements: an element with a parent that
/// the selector for any element matches.
pub open spec fn is_page_element(nodes: Seq<NodeText>, any: Option<Seq<bool>>, n: int) -> bool {
    &&& 0 <= n < nodes.len()
    &&& nodes[n].element
    &&& nodes[n].parent is Some
    &&& flagged(any, n)
}

/// The characters of the first `upto` nodes, each element's own text counted
/// for the family in which the element is shown. Text that is all whitespace
/// counts for none.
pub open spec fn attributed(
    nodes: Seq<NodeText>,
    rules: Seq<(Seq<char>, Seq<char>)>,
    hits: Seq<Option<Seq<bool>>>,
    any: Option<Seq<bool>>,
    upto: int,
) -> Map<Seq<char>, Seq<u32>>
    decreases upto,
{
    if upto <= 0 {
        Map::empty()
    } else {
        let before = attributed(nodes, rules, hits, any, upto - 1);
        let n = upto - 1;
        if is_page_element(nodes, any, n) && trimmed(own_text(nodes, n)).len() > 0 {
            with_family(before, family_for(nodes, rules, hits, n), codepoints(own_text(nodes, n)))
        } else {
            before
        }
    }
}

/// The characters of a document per font family.
pub open spec fn chars_per_family(
    nodes: Seq<NodeText>,
    rules: Seq<(Seq<char>, Seq<char>)>,
    hits: Seq<Option<Seq<bool>>>,
    any: Option<Seq<bool>>,
) -> Map<Seq<char>, Seq<u32>> {
    attributed(nodes, rules, hits, any, nodes.len() as int)
}

/// Whether the flags say that node `n` matches.
fn is_flagged(flags: &Option<Vec<bool>>, n: usize) -> (b: bool)
    ensures
        b == flagged(optional_bools(*flags), n as int),
{
    match flags {
        Some(f) => n < f.len() && f[n],
        None => false,
    }
}

/// The family of the last rule whose selector matches node `n`.
fn last_match<'a>(
    rules: &'a Vec<FontFamilyRule>,
    hits: &Vec<Option<Vec<bool>>>,
    n: usize,
) -> (out: Option<&'a String>)
    ensures
        out is Some <==> matched_family(
            rules_view(rules@),
            hits_view(hits@),
            n as int,
            rules@.len() as int,
        ) is Some,
        out matches Some(family) ==> matched_family(
            rules_view(rules@),
            hits_view(hits@),
            n as int,
            rules@.len() as int,
        ) == Some(family@),
{
    let mut r: usize = rules.len();
    while r > 0
        invariant
            r <= rules.len(),
            matched_family(rules_view(rules@), hits_view(hits@), n as int, rules@.len() as int)
                == matched_family(rules_view(rules@), hits_view(hits@), n as int, r as int),
        decreases r,
    {
        r -= 1;
        if r < hits.len() && is_flagged(&hits[r], n) {
            assert(hits_view(hits@)[r as int] == optional_bools(hits@[r as int]));
            assert(rules_view(rules@)[r as int] == rules@[r as int]@);
            return Some(&rules[r].font_family);
        }
        proof {
            if r < hits.len() {
                assert(hits_view(hits@)[r as int] == optional_bools(hits@[r as int]));
            }
        }
    }
    None
}

/// Find which font-family applies to an element based on CSS rules: that of
/// the last rule that matches node `n`, else that of the nearest ancestor
/// element that a rule matches. `hits` holds for each rule, in order, the
/// nodes that its selector matches.
pub fn find_font_family_for_element(
    nodes: &Vec<PageNode>,
    rules: &Vec<FontFamilyRule>,
    hits: &Vec<Option<Vec<bool>>>,
    n: usize,
) -> (out: Option<String>)
    ensures
        out is Some <==> found_family(
            nodes_view(nodes@),
            rules_view(rules@),
            hits_view(hits@),
            n as int,
        ) is Some,
        out matches Some(family) ==> found_family(
            nodes_view(nodes@),
            rules_view(rules@),
            hits_view(hits@),
            n as int,
        ) == Some(family@),
{
    match last_match(rules, hits, n) {
        Some(family) => {
            return Some(family.clone());
        },
        None => {},
    }
    let ghost all = nodes_view(nodes@);
    let ghost rs = rules_view(rules@);
    let ghost hs = hits_view(hits@);
    let mut at: usize = n;
    let mut steps: usize = nodes.len();
    while steps > 0
        invariant
            steps <= nodes.len(),
            all == nodes_view(nodes@),
            rs == rules_view(rules@),
            hs == hits_view(hits@),
            found_family(all, rs, hs, n as int) == inherited_family(
                all,
                rs,
                hs,
                at as int,
                steps as nat,
            ),
        decreases steps,
    {
        if at >= nodes.len() {
            return None;
        }
        assert(all[at as int] == nodes@[at as int]@);
        let parent: usize = match nodes[at].parent {
            Some(p) => p,
            None => {
                return None;
            },
        };
        if parent >= nodes.len() {
            return None;
        }
        assert(all[parent as int] == nodes@[parent as int]@);
        if nodes[parent].element {
            match last_match(rules, hits, parent) {
                Some(family) => {
                    return Some(family.clone());
                },
                None => {},
            }
        }
        at = parent;
        steps -= 1;
    }
    None
}

/// Each node's own text.
fn own_texts(nodes: &Vec<PageNode>) -> (out: Vec<Vec<char>>)
    ensures
        out@.len() == nodes@.len(),
        forall|n: int| 0 <= n < nodes@.len() ==> (#[trigger] out@[n])@ == own_text(nodes_view(nodes@), n),
{
    let ghost all = nodes_view(nodes@);
    let mut out: Vec<Vec<char>> = Vec::new();
    let mut k: usize = 0;
    while k < nodes.len()
        invariant
            k <= nodes.len(),
            out@.len() == k,
            forall|n: int| 0 <= n < k ==> (#[trigger] out@[n])@ == Seq::<char>::empty(),
        decreases nodes.len() - k,
    {
        out.push(Vec::new());
        k += 1;
    }
    let mut j: usize = 0;
    while j < nodes.len()
        invariant
            j <= nodes.len(),
            all == nodes_view(nodes@),
            out@.len() == nodes@.len(),
            forall|n: int|
                0 <= n < nodes@.len() ==> (#[trigger] out@[n])@ == own_text_within(all, n, j as int),
        decreases nodes.len() - j,
    {
        assert(all[j as int] == nodes@[j as int]@);
        let ghost before = out@;
        match (&nodes[j].text, nodes[j].parent) {
            (Some(text), Some(p)) => {
                if p < nodes.len() {
                    let chars = chars_of(text.as_str());
                    append(&mut out[p], chars.as_slice());
                    assert forall|n: int| 0 <= n < nodes@.len() implies (#[trigger] out@[n])@
                        == own_text_within(all, n, j + 1) by {
                        if n != p {
                            assert(out@[n] == before[n]);
                        }
                    }
                } else {
                    assert forall|n: int| 0 <= n < nodes@.len() implies (#[trigger] out@[n])@
                        == own_text_within(all, n, j + 1) by {}
                }
            },
            _ => {
                assert forall|n: int| 0 <= n < nodes@.len() implies (#[trigger] out@[n])@
                    == own_text_within(all, n, j + 1) by {}
            },
        }
        j += 1;
    }
    out
}

/// Counts each element's own text for the family in which the element is
/// shown. `hits` holds for each rule, in order, the nodes that its selector
/// matches; `any` holds the nodes that are elements of the document.
pub fn assign_fonts(
    nodes: &Vec<PageNode>,
    rules: &Vec<FontFamilyRule>,
    hits: &Vec<Option<Vec<bool>>>,
    any: &Option<Vec<bool>>,
) -> (out: GlyphSets)
    ensures
        out@ == chars_per_family(
            nodes_view(nodes@),
            rules_view(rules@),
            hits_view(hits@),
            optional_bools(*any),
        ),
{
    proof {
        reveal_strlit("sans-serif");
    }
    let fallback = "sans-serif".to_owned();
    assert(fallback@ =~= default_family());
    let ghost all = nodes_view(nodes@);
    let ghost rs = rules_view(rules@);
    let ghost hs = hits_view(hits@);
    let texts = own_texts(nodes);
    let mut out = GlyphSets::new();
    let mut n: usize = 0;
    while n < nodes.len()
        invariant
            n <= nodes.len(),
            all == nodes_view(nodes@),
            rs == rules_view(rules@),
            hs == hits_view(hits@),
            fallback@ == default_family(),
            texts@.len() == nodes@.len(),
            forall|i: int| 0 <= i < nodes@.len() ==> (#[trigger] texts@[i])@ == own_text(all, i),
            out@ == attributed(all, rs, hs, optional_bools(*any), n as int),
        decreases nodes.len() - n,
    {
        assert(all[n as int] == nodes@[n as int]@);
        let text = texts[n].as_slice();
        if nodes[n].element && nodes[n].parent.is_some() && is_flagged(any, n) && trim(text).len()
            > 0 {
            let codes = codes_of_chars(text);
            match find_font_family_for_element(nodes, rules, hits, n) {
                Some(family) => {
                    out.add_codes(&family, codes.as_slice());
                },
                None => {
                    out.add_codes(&fallback, codes.as_slice());
                },
            }
        }
        n += 1;
    }
    out
}

// ---------------------------------------------------------------------------
// Reading documents
// ---------------------------------------------------------------------------

/// The nodes of the tree that `scraper::Html::parse_document` builds from
/// `html`, in the order in which the tree holds them.
pub uninterp spec fn document_nodes(html: Seq<char>) -> Seq<NodeText>;

/// For the selector `selector`, as `scraper::Selector::parse` reads it, and
/// each node of the tree built from `html`: whether the node is an element
/// that `scraper::Selector::matches`. `None` where the selector cannot be read.
pub uninterp spec fn selector_hits(html: Seq<char>, selector: Seq<char>) -> Option<Seq<bool>>;

/// The inner HTML, as `scraper::ElementRef::inner_html` gives it, of each
/// element of the tree built from `html` that `scraper::Html::select` finds
/// for the selector `selector`, as `scraper::Selector::parse` reads it. `None`
/// where the selector cannot be read.
pub uninterp spec fn inner_html_of(html: Seq<char>, selector: Seq<char>) -> Option<
    Seq<Seq<char>>,
>;

/// Parses `html` with `scraper::Html::parse_document` and hands out each node
/// of the tree: whether it is an element, its text where it is a text node,
/// and the place of its parent. The contract gives the result its name and
/// claims nothing more.
#[verifier::external_body]
fn read_nodes(html: &str) -> (nodes: Vec<PageNode>)
    ensures
        nodes_view(nodes@) == document_nodes(html@),
{
    let doc = scraper::Html::parse_document(html);
    let places: std::collections::HashMap<_, usize> =
        doc.tree.nodes().enumerate().map(|(i, n)| (n.id(), i)).collect();
    doc.tree.nodes().map(|n| PageNode {
        element: n.value().is_element(),
        text: n.value().as_text().map(|t| t.to_string()),
        parent: n.parent().and_then(|p| places.get(&p.id()).copied()),
    }).collect()
}

/// Parses `html` with `scraper::Html::parse_document` and each selector with
/// `scraper::Selector::parse`, and asks `scraper::Selector::matches` of each
/// node that is an element. The contract gives each selector's result its name
/// and claims nothing more.
#[verifier::external_body]
fn match_selectors(html: &str, selectors: &Vec<String>) -> (hits: Vec<Option<Vec<bool>>>)
    ensures
        hits@.len() == selectors@.len(),
        forall|i: int|
            0 <= i < selectors@.len() ==> optional_bools(#[trigger] hits@[i]) == selector_hits(
                html@,
                selectors@[i]@,
            ),
{
    let doc = scraper::Html::parse_document(html);
    selectors.iter().map(|s| scraper::Selector::parse(s).ok().map(|sel| {
        doc.tree.nodes().map(|n| scraper::ElementRef::wrap(n).map_or(false, |e| sel.matches(&e))).collect()
    })).collect()
}

/// The texts of an optional list of strings.
pub open spec fn optional_texts(list: Option<Vec<String>>) -> Option<Seq<Seq<char>>> {
    match list {
        Some(strings) => Some(strings@.map_values(|s: String| s@)),
        None => None,
    }
}

/// Parses `html` with `scraper::Html::parse_document` and `selector` with
/// `scraper::Selector::parse`, and hands out what
/// `scraper::ElementRef::inner_html` gives for each element that
/// `scraper::Html::select` finds. The contract gives the result its name and
/// claims nothing more.
#[verifier::external_body]
fn read_inner_html(html: &str, selector: &str) -> (out: Option<Vec<String>>)
    ensures
        optional_texts(out) == inner_html_of(html@, selector@),
{
    let doc = scraper::Html::parse_document(html);
    scraper::Selector::parse(selector).ok().map(|sel| {
        doc.select(&sel).map(|e| e.inner_html()).collect()
    })
}

/// For each of `rules` the nodes of `html` that its selector matches.
pub open spec fn rule_hits(html: Seq<char>, rules: Seq<(Seq<char>, Seq<char>)>) -> Seq<
    Option<Seq<bool>>,
> {
    Seq::new(rules.len(), |r: int| selector_hits(html, rules[r].0))
}

/// The characters that the document `html`, styled by `css`, shows per font
/// family.
pub open spec fn page_chars(html: Seq<char>, css: Seq<char>) -> Map<Seq<char>, Seq<u32>> {
    let rules = family_rules(css, custom_properties(css));
    chars_per_family(
        document_nodes(html),
        rules,
        rule_hits(html, rules),
        selector_hits(html, any_element()),
    )
}

/// Extracts the text of a document and maps it to font families by the CSS
/// rules: for each family the codepoints of the characters shown in it.
pub fn collect_chars_per_font(html: &str, css: &str) -> (out: GlyphSets)
    ensures
        out@ == page_chars(html@, css@),
{
    let css_vars = parse_css_custom_properties(css);
    let rules = parse_font_family_rules_with_vars(css, &css_vars);
    let ghost rs = rules_view(rules@);
    let mut selectors: Vec<String> = Vec::new();
    let mut r: usize = 0;
    while r < rules.len()
        invariant
            r <= rules.len(),
            rs == rules_view(rules@),
            selectors@.len() == r,
            forall|i: int| 0 <= i < r ==> (#[trigger] selectors@[i])@ == rs[i].0,
        decreases rules.len() - r,
    {
        assert(rs[r as int] == rules@[r as int]@);
        selectors.push(rules[r].selector.clone());
        r += 1;
    }
    proof {
        reveal_strlit("*");
    }
    let star = "*".to_owned();
    assert(star@ =~= any_element());
    selectors.push(star);
    let nodes = read_nodes(html);
    let mut hits = match_selectors(html, &selectors);
    let any = match hits.pop() {
        Some(flags) => flags,
        None => None,
    };
    proof {
        assert(hits_view(hits@) =~= rule_hits(html@, rs)) by {
            assert forall|i: int| 0 <= i < rs.len() implies hits_view(hits@)[i] == rule_hits(
                html@,
                rs,
            )[i] by {
                assert(selectors@[i]@ == rs[i].0);
            }
        }
        assert(optional_bools(any) == selector_hits(html@, any_element())) by {
            assert(selectors@[rules@.len() as int]@ == any_element());
        }
    }
    assign_fonts(&nodes, &rules, &hits, &any)
}

/// What an analysis found: the characters per font family and the declared
/// font faces.
#[derive(Debug, Clone)]
pub struct FontAnalysis {
    /// For each font family the codepoints of the characters used with it.
    pub chars_per_font: GlyphSets,
    /// Parsed @font-face rules
    pub font_faces: Vec<FontFace>,
}

impl Default for FontAnalysis {
    /// The analysis of nothing: no characters and no font faces.
    fn default() -> (analysis: FontAnalysis)
        ensures
                analysis.chars_per_font@ == Map::<Seq<char>, Seq<u32>>::empty(),
            analysis.font_faces@.len() == 0,
    {
        FontAnalysis { chars_per_font: GlyphSets::new(), font_faces: Vec::new() }
    }
}

/// Analyze HTML and CSS to collect font usage information.
pub fn analyze_fonts(html: &str, css: &str) -> (analysis: FontAnalysis)
    ensures
        analysis.chars_per_font@ == page_chars(html@, css@),
        faces_view(analysis.font_faces@) == font_faces(css@),
{
    let chars_per_font = collect_chars_per_font(html, css);
    let font_faces = parse_font_face_rules(css);
    FontAnalysis { chars_per_font, font_faces }
}

/// `sheets`, each followed by a line break.
pub open spec fn sheets_text(sheets: Seq<Seq<char>>) -> Seq<char>
    decreases sheets.len(),
{
    if sheets.len() == 0 {
        Seq::empty()
    } else {
        sheets_text(sheets.drop_last()) + sheets.last() + seq!['\n']
    }
}

/// `sheets`, each followed by a line break.
pub fn join_sheets(sheets: &Vec<String>) -> (css: String)
    ensures
        css@ == sheets_text(sheets@.map_values(|s: String| s@)),
{
    let ghost all = sheets@.map_values(|s: String| s@);
    let mut out: Vec<char> = Vec::new();
    let mut i: usize = 0;
    while i < sheets.len()
        invariant
            i <= sheets.len(),
            all == sheets@.map_values(|s: String| s@),
            out@ == sheets_text(all.take(i as int)),
        decreases sheets.len() - i,
    {
        assert(all.take(i + 1).drop_last() =~= all.take(i as int));
        assert(all.take(i + 1).last() == sheets@[i as int]@);
        let chars = chars_of(sheets[i].as_str());
        append(&mut out, chars.as_slice());
        out.push('\n');
        assert(out@ =~= sheets_text(all.take(i as int)) + sheets@[i as int]@ + seq!['\n']);
        i += 1;
    }
    assert(all.take(i as int) =~= all);
    string_of(out.as_slice())
}

/// The selector for the elements that hold a page's CSS.
pub open spec fn style_selector() -> Seq<char> {
    seq!['s', 't', 'y', 'l', 'e']
}

/// The CSS of the document `html`: what its `style` elements hold, each
/// followed by a line break.
pub open spec fn page_css(html: Seq<char>) -> Seq<char> {
    match inner_html_of(html, style_selector()) {
        Some(sheets) => sheets_text(sheets),
        None => Seq::empty(),
    }
}

/// Extract the CSS of an HTML document: what its `style` elements hold, each
/// followed by a line break.
pub fn extract_css_from_html(html: &str) -> (css: String)
    ensures
        css@ == page_css(html@),
{
    proof {
        reveal_strlit("style");
    }
    let selector = "style";
    assert(selector@ =~= style_selector());
    match read_inner_html(html, selector) {
        Some(styles) => join_sheets(&styles),
        None => String::new(),
    }
}

} // verus!
