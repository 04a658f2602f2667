//! Rules that set `font-family`.

use crate::css::variables::{resolve, resolved, CssVariables};
use crate::text::{
    chars_of, copy_of, has_prefix, pieces, split, starts_with, string_of, strip_char, stripped,
    trim, trimmed,
};
use vstd::prelude::*;
use vstd::slice::slice_subrange;

verus! {

/// A rule that sets `font-family`: its selector and the family it names first.
#[derive(Debug)]
pub struct FontFamilyRule {
    pub selector: String,
    pub font_family: String,
}

impl View for FontFamilyRule {
    type V = (Seq<char>, Seq<char>);

    open spec fn view(&self) -> (Seq<char>, Seq<char>) {
        (self.selector@, self.font_family@)
    }
}

/// The selectors and families of `rules`, in order.
pub open spec fn rules_view(rules: Seq<FontFamilyRule>) -> Seq<(Seq<char>, Seq<char>)> {
    rules.map_values(|r: FontFamilyRule| r@)
}

/// The property name, with its colon, that a `font-family` declaration begins
/// with.
pub open spec fn family_prefix() -> Seq<char> {
    seq!['f', 'o', 'n', 't', '-', 'f', 'a', 'm', 'i', 'l', 'y', ':']
}

/// The family that the value of a `font-family` declaration names first: the
/// value is trimmed and its `var()` references resolved, then the text before
/// the first comma is trimmed and loses the double quotes, then the single
/// quotes, at its ends.
pub open spec fn primary_family(value: Seq<char>, vars: Map<Seq<char>, Seq<char>>) -> Seq<char> {
    let first = trimmed(pieces(resolved(trimmed(value), vars), ',')[0]);
    stripped(stripped(first, '"'), '\'')
}

/// The family that the first `font-family` declaration among `raws` names.
pub open spec fn first_family(raws: Seq<Seq<char>>, vars: Map<Seq<char>, Seq<char>>) -> Option<
    Seq<char>,
>
    decreases raws.len(),
{
    if raws.len() == 0 {
        None
    } else {
        let declaration = trimmed(raws[0]);
        if has_prefix(declaration, family_prefix()) {
            Some(primary_family(declaration.skip(12), vars))
        } else {
            first_family(raws.drop_first(), vars)
        }
    }
}

/// The family that the declaration block `block` sets, if it sets one. The
/// `font` shorthand sets none.
pub open spec fn declared_family(block: Seq<char>, vars: Map<Seq<char>, Seq<char>>) -> Option<
    Seq<char>,
> {
    first_family(pieces(block, ';'), vars)
}

/// How far a style sheet has been read: the selector gathered since the last
/// `}`, whether a block is open, what the open block holds so far, and the
/// rules found.
pub struct Scan {
    pub selector: Seq<char>,
    pub in_block: bool,
    pub block: Seq<char>,
    pub rules: Seq<(Seq<char>, Seq<char>)>,
}

/// Nothing read yet.
pub open spec fn scan_start() -> Scan {
    Scan { selector: Seq::empty(), in_block: false, block: Seq::empty(), rules: Seq::empty() }
}

/// The state after the character `c`. A `{` opens a block, which is empty at
/// first. A `}` closes it: where the block sets a family and the trimmed
/// selector is neither empty nor an at-rule, the two make a rule; the selector
/// starts anew and nothing is held of the block, so that a `}` that closes no
/// block makes no rule. Any other character goes to the block if one is open,
/// else to the selector.
pub open spec fn scan_step(st: Scan, c: char, vars: Map<Seq<char>, Seq<char>>) -> Scan {
    if c == '{' {
        Scan { selector: st.selector, in_block: true, block: Seq::empty(), rules: st.rules }
    } else if c == '}' {
        let selector = trimmed(st.selector);
        let rules = match declared_family(st.block, vars) {
            Some(family) => if selector.len() > 0 && selector[0] != '@' {
                st.rules.push((selector, family))
            } else {
                st.rules
            },
            None => st.rules,
        };
        Scan { selector: Seq::empty(), in_block: false, block: Seq::empty(), rules }
    } else if st.in_block {
        Scan {
            selector: st.selector,
            in_block: true,
            block: st.block.push(c),
            rules: st.rules,
        }
    } else {
        Scan {
            selector: st.selector.push(c),
            in_block: false,
            block: st.block,
            rules: st.rules,
        }
    }
}

/// The state after all of `css`.
pub open spec fn scanned(css: Seq<char>, vars: Map<Seq<char>, Seq<char>>) -> Scan
    decreases css.len(),
{
    if css.len() == 0 {
        scan_start()
    } else {
        scan_step(scanned(css.drop_last(), vars), css.last(), vars)
    }
}

/// The rules of `css` that set a family, in source order.
pub open spec fn family_rules(css: Seq<char>, vars: Map<Seq<char>, Seq<char>>) -> Seq<
    (Seq<char>, Seq<char>),
> {
    scanned(css, vars).rules
}

/// Every rule found has a selector that is not empty and is no at-rule.
pub proof fn lemma_rules_are_plain(css: Seq<char>, vars: Map<Seq<char>, Seq<char>>)
    ensures
        forall|i: int|
            0 <= i < family_rules(css, vars).len() ==> (#[trigger] family_rules(css, vars)[i]).0.len()
                > 0 && family_rules(css, vars)[i].0[0] != '@',
    decreases css.len(),
{
    if css.len() > 0 {
        lemma_rules_are_plain(css.drop_last(), vars);
        let before = scanned(css.drop_last(), vars).rules;
        let after = scanned(css, vars).rules;
        assert(before == family_rules(css.drop_last(), vars));
        assert forall|i: int| 0 <= i < after.len() implies (#[trigger] after[i]).0.len() > 0
            && after[i].0[0] != '@' by {
            if i < before.len() {
                assert(after[i] == before[i]);
            }
        }
    }
}

/// The family that the value of a `font-family` declaration names first.
pub fn family_of(value: &[char], vars: &CssVariables) -> (out: Vec<char>)
    ensures
        out@ == primary_family(value@, vars@),
{
    let text = resolve(trim(value), vars);
    let parts = split(text.as_slice(), ',');
    let first = trim(parts[0]);
    copy_of(strip_char(strip_char(first, '"'), '\''))
}

/// Parse a font-family value with CSS variable resolution, returning the
/// first (primary) font.
pub fn parse_font_family_value_with_vars(value: &str, css_vars: &CssVariables) -> (out: String)
    ensures
        out@ == primary_family(value@, css_vars@),
{
    let chars = chars_of(value);
    let family = family_of(chars.as_slice(), css_vars);
    string_of(family.as_slice())
}

/// Parse a font-family value, returning the first (primary) font.
pub fn parse_font_family_value(value: &str) -> (out: String)
    ensures
        out@ == primary_family(value@, Map::empty()),
{
    let none = CssVariables::new();
    parse_font_family_value_with_vars(value, &none)
}

/// The family that the declaration block `block` sets.
pub fn block_family(block: &[char], vars: &CssVariables) -> (out: Option<Vec<char>>)
    ensures
        out is Some <==> declared_family(block@, vars@) is Some,
        out matches Some(family) ==> declared_family(block@, vars@) == Some(family@),
{
    let prefix: [char; 12] = ['f', 'o', 'n', 't', '-', 'f', 'a', 'm', 'i', 'l', 'y', ':'];
    assert(prefix@ =~= family_prefix());
    let raws = split(block, ';');
    let ghost all = pieces(block@, ';');
    let mut k: usize = 0;
    assert(all.skip(0) =~= all);
    while k < raws.len()
        invariant
            k <= raws.len(),
            prefix@ == family_prefix(),
            all == pieces(block@, ';'),
            raws@.len() == all.len(),
            forall|i: int| 0 <= i < raws@.len() ==> raws@[i]@ == all[i],
            first_family(all, vars@) == first_family(all.skip(k as int), vars@),
        decreases raws.len() - k,
    {
        let declaration = trim(raws[k]);
        assert(all.skip(k as int)[0] == all[k as int]);
        if starts_with(declaration, prefix.as_slice()) {
            let n: usize = declaration.len();
            let value = slice_subrange(declaration, 12, n);
            assert(declaration@.skip(12) =~= value@);
            return Some(family_of(value, vars));
        }
        assert(all.skip(k as int).drop_first() =~= all.skip(k + 1));
        k += 1;
    }
    None
}

/// Extract the font-family value from a CSS declaration block, with CSS
/// variable resolution.
pub fn extract_font_family_with_vars(block: &str, css_vars: &CssVariables) -> (out: Option<String>)
    ensures
        out is Some <==> declared_family(block@, css_vars@) is Some,
        out matches Some(family) ==> declared_family(block@, css_vars@) == Some(family@),
{
    let chars = chars_of(block);
    match block_family(chars.as_slice(), css_vars) {
        Some(family) => Some(string_of(family.as_slice())),
        None => None,
    }
}

/// Parse CSS and extract the rules that set font-family, with CSS variable
/// resolution. The rules come in source order; those of at-rules are left out.
pub fn parse_font_family_rules_with_vars(css: &str, css_vars: &CssVariables) -> (rules: Vec<
    FontFamilyRule,
>)
    ensures
        rules_view(rules@) == family_rules(css@, css_vars@),
{
    let chars = chars_of(css);
    let mut rules: Vec<FontFamilyRule> = Vec::new();
    let mut selector: Vec<char> = Vec::new();
    let mut block: Vec<char> = Vec::new();
    let mut in_block = false;
    let mut i: usize = 0;
    assert(rules_view(rules@) =~= Seq::empty());
    while i < chars.len()
        invariant
            i <= chars.len(),
            chars@ == css@,
            scanned(css@.take(i as int), css_vars@) == (Scan {
                selector: selector@,
                in_block,
                block: block@,
                rules: rules_view(rules@),
            }),
        decreases chars.len() - i,
    {
        let c = chars[i];
        assert(css@.take(i + 1).drop_last() =~= css@.take(i as int));
        assert(css@.take(i + 1).last() == c);
        if c == '{' {
            in_block = true;
            block.clear();
        } else if c == '}' {
            in_block = false;
            match block_family(block.as_slice(), css_vars) {
                Some(family) => {
                    let trimmed_selector = trim(selector.as_slice());
                    if trimmed_selector.len() > 0 && trimmed_selector[0] != '@' {
                        let ghost before = rules_view(rules@);
                        rules.push(
                            FontFamilyRule {
                                selector: string_of(trimmed_selector),
                                font_family: string_of(family.as_slice()),
                            },
                        );
                        assert(rules_view(rules@) =~= before.push((trimmed_selector@, family@)));
                    }
                },
                None => {},
            }
            selector.clear();
            block.clear();
        } else if in_block {
            block.push(c);
        } else {
            selector.push(c);
        }
        i += 1;
    }
    assert(css@.take(i as int) =~= css@);
    rules
}

} // verus!
