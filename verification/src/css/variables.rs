//! Custom properties (`--name: value`) and the `var()` references to them.

use crate::text::{
    append, chars_of, copy_of, find, find_char, find_matching_close, first_char,
    first_occurrence, has_prefix, matching_close, pieces, same_text, split, starts_with,
    string_of, trim, trimmed,
};
use vstd::prelude::*;
use vstd::slice::slice_subrange;

verus! {

/// One declaration of a custom property, as written.
#[derive(Debug)]
struct Variable {
    name: Vec<char>,
    value: Vec<char>,
}

/// The custom properties of a style sheet: a flat table from a property's name
/// to its raw value, in which the last declaration of a name counts.
#[derive(Debug)]
pub struct CssVariables {
    entries: Vec<Variable>,
}

/// The table that the declarations `entries` make, each one overriding those
/// before it.
pub open spec fn table_of(entries: Seq<(Seq<char>, Seq<char>)>) -> Map<Seq<char>, Seq<char>>
    decreases entries.len(),
{
    if entries.len() == 0 {
        Map::empty()
    } else {
        table_of(entries.drop_last()).insert(entries.last().0, entries.last().1)
    }
}

/// In `table_of(entries)` a name stands for the value of its last declaration.
pub proof fn lemma_table_declared(entries: Seq<(Seq<char>, Seq<char>)>, name: Seq<char>, i: int)
    requires
        0 <= i < entries.len(),
        entries[i].0 == name,
        forall|j: int| i < j < entries.len() ==> entries[j].0 != name,
    ensures
        table_of(entries).contains_key(name),
        table_of(entries)[name] == entries[i].1,
    decreases entries.len(),
{
    if i < entries.len() - 1 {
        let front = entries.drop_last();
        assert(entries.last().0 != name);
        lemma_table_declared(front, name, i);
    }
}

/// `table_of(entries)` holds no name that `entries` does not declare.
pub proof fn lemma_table_undeclared(entries: Seq<(Seq<char>, Seq<char>)>, name: Seq<char>)
    requires
        forall|j: int| 0 <= j < entries.len() ==> entries[j].0 != name,
    ensures
        !table_of(entries).contains_key(name),
    decreases entries.len(),
{
    if entries.len() > 0 {
        assert(entries.last().0 != name);
        lemma_table_undeclared(entries.drop_last(), name);
    }
}

impl Variable {
    /// The name and the value of the declaration.
    spec fn view(&self) -> (Seq<char>, Seq<char>) {
        (self.name@, self.value@)
    }
}

impl View for CssVariables {
    type V = Map<Seq<char>, Seq<char>>;

    closed spec fn view(&self) -> Map<Seq<char>, Seq<char>> {
        table_of(self.entries@.map_values(|v: Variable| v.view()))
    }
}

impl CssVariables {
    /// The empty table.
    pub fn new() -> (vars: CssVariables)
        ensures
            vars@ == Map::<Seq<char>, Seq<char>>::empty(),
    {
        CssVariables { entries: Vec::new() }
    }

    /// Declares `name` to stand for `value`, in place of what it stood for.
    pub fn insert(&mut self, name: String, value: String)
        ensures
            final(self)@ == old(self)@.insert(name@, value@),
    {
        let name_chars = chars_of(name.as_str());
        let value_chars = chars_of(value.as_str());
        self.declare(name_chars, value_chars);
    }

    /// Declares `name` to stand for `value`, in place of what it stood for.
    pub fn declare(&mut self, name: Vec<char>, value: Vec<char>)
        ensures
            final(self)@ == old(self)@.insert(name@, value@),
    {
        let ghost before = self.entries@.map_values(|v: Variable| v.view());
        self.entries.push(Variable { name, value });
        proof {
            let after = self.entries@.map_values(|v: Variable| v.view());
            assert(after.drop_last() =~= before);
        }
    }

    /// The raw value that `name` stands for.
    pub fn lookup(&self, name: &[char]) -> (value: Option<&Vec<char>>)
        ensures
            value is Some <==> self@.contains_key(name@),
            value matches Some(v) ==> v@ == self@[name@],
    {
        let ghost entries = self.entries@.map_values(|v: Variable| v.view());
        let mut i: usize = self.entries.len();
        while i > 0
            invariant
                i <= self.entries.len(),
                entries == self.entries@.map_values(|v: Variable| v.view()),
                forall|j: int| i <= j < entries.len() ==> entries[j].0 != name@,
            decreases i,
        {
            i -= 1;
            if same_text(self.entries[i].name.as_slice(), name) {
                proof {
                    assert(entries[i as int] == self.entries@[i as int].view());
                    lemma_table_declared(entries, name@, i as int);
                }
                return Some(&self.entries[i].value);
            }
            assert(entries[i as int] == self.entries@[i as int].view());
        }
        proof {
            lemma_table_undeclared(entries, name@);
        }
        None
    }

    /// The raw value that `name` stands for.
    pub fn get(&self, name: &str) -> (value: Option<String>)
        ensures
            value is Some <==> self@.contains_key(name@),
            value matches Some(v) ==> v@ == self@[name@],
    {
        let key = chars_of(name);
        match self.lookup(key.as_slice()) {
            Some(v) => Some(string_of(v.as_slice())),
            None => None,
        }
    }
}

/// The text that opens a reference to a custom property.
pub open spec fn var_open() -> Seq<char> {
    seq!['v', 'a', 'r', '(']
}

/// The text that stands for a reference whose bracket holds `content`: the
/// value of the name before the first comma if `vars` declares it, else the
/// fallback after that comma, else nothing.
pub open spec fn reference_value(content: Seq<char>, vars: Map<Seq<char>, Seq<char>>) -> Seq<
    char,
> {
    match first_char(content, ',') {
        Some(comma) => {
            let name = trimmed(content.take(comma));
            if vars.contains_key(name) {
                vars[name]
            } else {
                trimmed(content.skip(comma + 1))
            }
        },
        None => {
            let name = trimmed(content);
            if vars.contains_key(name) {
                vars[name]
            } else {
                Seq::empty()
            }
        },
    }
}

/// `text` with its first `var(..)` replaced by what the reference stands for;
/// `None` where `text` holds no `var(`, or the first one is never closed.
pub open spec fn substituted(text: Seq<char>, vars: Map<Seq<char>, Seq<char>>) -> Option<
    Seq<char>,
> {
    match first_occurrence(text, var_open()) {
        None => None,
        Some(start) => {
            let after = text.skip(start + 4);
            match matching_close(after, '(', ')') {
                None => None,
                Some(end) => Some(
                    text.take(start) + reference_value(after.take(end), vars) + after.skip(end + 1),
                ),
            }
        },
    }
}

/// `text` after at most `passes` substitutions of its first `var(..)`, each
/// made in the result of the one before.
pub open spec fn resolved_within(
    text: Seq<char>,
    vars: Map<Seq<char>, Seq<char>>,
    passes: nat,
) -> Seq<char>
    decreases passes,
{
    if passes == 0 {
        text
    } else {
        match substituted(text, vars) {
            None => text,
            Some(next) => resolved_within(next, vars, (passes - 1) as nat),
        }
    }
}

/// The number of substitutions after which resolution stops, so that
/// properties that refer to each other in a circle cannot hold it up for ever.
pub const MAX_PASSES: usize = 10;

/// `text` with its `var()` references resolved.
pub open spec fn resolved(text: Seq<char>, vars: Map<Seq<char>, Seq<char>>) -> Seq<char> {
    resolved_within(text, vars, MAX_PASSES as nat)
}

/// A text that holds no `var(` is resolved as it stands.
pub proof fn lemma_resolved_plain(text: Seq<char>, vars: Map<Seq<char>, Seq<char>>)
    requires
        first_occurrence(text, var_open()) is None,
    ensures
        resolved(text, vars) == text,
{
}

/// A text whose first `var(` is never closed is resolved as it stands.
pub proof fn lemma_resolved_open(text: Seq<char>, vars: Map<Seq<char>, Seq<char>>)
    requires
        substituted(text, vars) is None,
    ensures
        resolved(text, vars) == text,
{
}

/// The text that stands for a reference whose bracket holds `content`.
pub fn reference_text(content: &[char], vars: &CssVariables) -> (out: Vec<char>)
    ensures
        out@ == reference_value(content@, vars@),
{
    match find_char(content, ',') {
        Some(comma) => {
            let n: usize = content.len();
            let name = trim(slice_subrange(content, 0, comma));
            let fallback = trim(slice_subrange(content, comma + 1, n));
            assert(content@.take(comma as int) =~= content@.subrange(0, comma as int));
            assert(content@.skip(comma + 1) =~= content@.subrange(comma + 1, n as int));
            match vars.lookup(name) {
                Some(value) => copy_of(value.as_slice()),
                None => copy_of(fallback),
            }
        },
        None => {
            let name = trim(content);
            match vars.lookup(name) {
                Some(value) => copy_of(value.as_slice()),
                None => Vec::new(),
            }
        },
    }
}

/// `text` with its first `var(..)` replaced by what the reference stands for.
pub fn substitute(text: &[char], vars: &CssVariables) -> (out: Option<Vec<char>>)
    ensures
        out is Some <==> substituted(text@, vars@) is Some,
        out matches Some(next) ==> substituted(text@, vars@) == Some(next@),
{
    let open: [char; 4] = ['v', 'a', 'r', '('];
    assert(open@ =~= var_open());
    match find(text, open.as_slice()) {
        None => None,
        Some(start) => {
            let n: usize = text.len();
            let after = slice_subrange(text, start + 4, n);
            assert(text@.skip(start + 4) =~= after@);
            match find_matching_close(after, '(', ')') {
                None => None,
                Some(end) => {
                    let m: usize = after.len();
                    let content = slice_subrange(after, 0, end);
                    assert(after@.take(end as int) =~= content@);
                    let replacement = reference_text(content, vars);
                    let mut out = copy_of(slice_subrange(text, 0, start));
                    assert(text@.take(start as int) =~= text@.subrange(0, start as int));
                    append(&mut out, replacement.as_slice());
                    let tail = slice_subrange(after, end + 1, m);
                    assert(after@.skip(end + 1) =~= tail@);
                    append(&mut out, tail);
                    Some(out)
                },
            }
        },
    }
}

/// `value` with its `var()` references resolved.
pub fn resolve(value: &[char], vars: &CssVariables) -> (out: Vec<char>)
    ensures
        out@ == resolved(value@, vars@),
{
    let mut out = copy_of(value);
    let mut passes: usize = 0;
    while passes < MAX_PASSES
        invariant
            passes <= MAX_PASSES,
            resolved(value@, vars@) == resolved_within(
                out@,
                vars@,
                (MAX_PASSES - passes) as nat,
            ),
        decreases MAX_PASSES - passes,
    {
        match substitute(out.as_slice(), vars) {
            None => {
                return out;
            },
            Some(next) => {
                out = next;
                passes += 1;
            },
        }
    }
    out
}

/// Resolve the `var()` references in a value: `var(--name)` and
/// `var(--name, fallback)`, also where one stands inside another's fallback or
/// value. Resolution stops after `MAX_PASSES` substitutions, or at a `var(`
/// that is never closed, with the text as it then is.
pub fn resolve_css_var(value: &str, css_vars: &CssVariables) -> (out: String)
    ensures
        out@ == resolved(value@, css_vars@),
{
    let chars = chars_of(value);
    let out = resolve(chars.as_slice(), css_vars);
    string_of(out.as_slice())
}

/// The two hyphens that a custom property's name begins with.
pub open spec fn custom_prefix() -> Seq<char> {
    seq!['-', '-']
}

/// `table` after the declaration `raw`: where `raw`, trimmed, begins with two
/// hyphens and holds a colon, the trimmed text before the first colon now
/// stands for the trimmed text after it.
pub open spec fn with_declaration(table: Map<Seq<char>, Seq<char>>, raw: Seq<char>) -> Map<
    Seq<char>,
    Seq<char>,
> {
    let declaration = trimmed(raw);
    if has_prefix(declaration, custom_prefix()) {
        match first_char(declaration, ':') {
            Some(colon) => table.insert(
                trimmed(declaration.take(colon)),
                trimmed(declaration.skip(colon + 1)),
            ),
            None => table,
        }
    } else {
        table
    }
}

/// `table` after the declarations `raws`, taken in order.
pub open spec fn with_declarations(
    table: Map<Seq<char>, Seq<char>>,
    raws: Seq<Seq<char>>,
) -> Map<Seq<char>, Seq<char>>
    decreases raws.len(),
{
    if raws.len() == 0 {
        table
    } else {
        with_declaration(with_declarations(table, raws.drop_last()), raws.last())
    }
}

/// `table` after the declarations of every block of `css`, a block being what
/// stands between a `{` and the `}` that matches it, also where the block
/// stands inside another. The blocks are read in the order in which they open,
/// so a block is read before the blocks inside it. Reading stops at a block
/// that is never closed.
pub open spec fn with_blocks(table: Map<Seq<char>, Seq<char>>, css: Seq<char>) -> Map<
    Seq<char>,
    Seq<char>,
>
    decreases css.len(),
{
    match first_char(css, '{') {
        None => table,
        Some(open) => {
            let after = css.skip(open + 1);
            match matching_close(after, '{', '}') {
                None => table,
                Some(end) => if 0 <= open < css.len() && 0 <= end < after.len() {
                    with_blocks(with_declarations(table, pieces(after.take(end), ';')), after)
                } else {
                    table
                },
            }
        },
    }
}

/// The custom properties that the style sheet `css` declares.
pub open spec fn custom_properties(css: Seq<char>) -> Map<Seq<char>, Seq<char>> {
    with_blocks(Map::empty(), css)
}

/// Records in `vars` the custom property that the declaration `raw` declares,
/// if it declares one.
pub fn read_declaration(vars: &mut CssVariables, raw: &[char])
    ensures
        final(vars)@ == with_declaration(old(vars)@, raw@),
{
    let declaration = trim(raw);
    let prefix: [char; 2] = ['-', '-'];
    assert(prefix@ =~= custom_prefix());
    if starts_with(declaration, prefix.as_slice()) {
        match find_char(declaration, ':') {
            Some(colon) => {
                let n: usize = declaration.len();
                let name = trim(slice_subrange(declaration, 0, colon));
                let value = trim(slice_subrange(declaration, colon + 1, n));
                assert(declaration@.take(colon as int) =~= declaration@.subrange(0, colon as int));
                assert(declaration@.skip(colon + 1) =~= declaration@.subrange(
                    colon + 1,
                    n as int,
                ));
                vars.declare(copy_of(name), copy_of(value));
            },
            None => {},
        }
    }
}

/// Records in `vars` the custom properties that the block `block` declares.
pub fn read_block(vars: &mut CssVariables, block: &[char])
    ensures
        final(vars)@ == with_declarations(old(vars)@, pieces(block@, ';')),
{
    let raws = split(block, ';');
    let ghost all = pieces(block@, ';');
    let mut k: usize = 0;
    while k < raws.len()
        invariant
            k <= raws.len(),
            raws@.len() == all.len(),
            forall|i: int| 0 <= i < raws@.len() ==> raws@[i]@ == all[i],
            vars@ == with_declarations(old(vars)@, all.take(k as int)),
        decreases raws.len() - k,
    {
        assert(all.take(k + 1).drop_last() =~= all.take(k as int));
        read_declaration(vars, raws[k]);
        k += 1;
    }
    assert(all.take(k as int) =~= all);
}

/// Reads the custom properties of a style sheet. Every block is read, that of
/// an at-rule and that of a rule inside an at-rule too; of two declarations of
/// one name the one read later counts.
pub fn parse_css_custom_properties(css: &str) -> (vars: CssVariables)
    ensures
        vars@ == custom_properties(css@),
{
    let chars = chars_of(css);
    let mut vars = CssVariables::new();
    let mut rest: &[char] = chars.as_slice();
    loop
        invariant
            custom_properties(css@) == with_blocks(vars@, rest@),
        decreases rest@.len(),
    {
        match find_char(rest, '{') {
            None => {
                return vars;
            },
            Some(open) => {
                let n: usize = rest.len();
                let after = slice_subrange(rest, open + 1, n);
                assert(rest@.skip(open + 1) =~= after@);
                match find_matching_close(after, '{', '}') {
                    None => {
                        return vars;
                    },
                    Some(end) => {
                        let block = slice_subrange(after, 0, end);
                        assert(after@.take(end as int) =~= block@);
                        read_block(&mut vars, block);
                        rest = after;
                    },
                }
            },
        }
    }
}

} // verus!
