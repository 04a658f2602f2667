//! The codepoints that each font family uses, gathered over a session.

use crate::text::{
    chars_of, contains_text, find, lowercase, lowercase_of, pieces, split, trim, trimmed,
};
use vstd::prelude::*;

verus! {

/// A font family and codepoints found for it.
#[derive(Debug, Clone)]
pub struct FamilyCodes {
    pub family: String,
    pub codes: Vec<u32>,
}

impl View for FamilyCodes {
    type V = (Seq<char>, Seq<u32>);

    open spec fn view(&self) -> (Seq<char>, Seq<u32>) {
        (self.family@, self.codes@)
    }
}

/// The families and codepoints of `entries`, in order.
pub open spec fn entries_view(entries: Seq<FamilyCodes>) -> Seq<(Seq<char>, Seq<u32>)> {
    entries.map_values(|e: FamilyCodes| e@)
}

/// The name of the universal family, which stands for every family.
pub open spec fn star() -> Seq<char> {
    seq!['*']
}

// ---------------------------------------------------------------------------
// The model: a map from a family's name to its codepoints, in the order in
// which they were first seen
// ---------------------------------------------------------------------------

/// `codes` with `c` at its end, unless it is there already.
pub open spec fn with_code(codes: Seq<u32>, c: u32) -> Seq<u32> {
    if codes.contains(c) {
        codes
    } else {
        codes.push(c)
    }
}

/// `codes` followed by those of `more` that it lacks, each once, in order.
pub open spec fn with_codes(codes: Seq<u32>, more: Seq<u32>) -> Seq<u32>
    decreases more.len(),
{
    if more.len() == 0 {
        codes
    } else {
        with_code(with_codes(codes, more.drop_last()), more.last())
    }
}

/// The codepoints that `sets` holds for `family`: none where it does not know
/// the family.
pub open spec fn codes_of(sets: Map<Seq<char>, Seq<u32>>, family: Seq<char>) -> Seq<u32> {
    if sets.contains_key(family) {
        sets[family]
    } else {
        Seq::empty()
    }
}

/// `sets` with the codepoints `more` united into those of `family`. Where
/// `more` is empty the sets stay as they are: a family that was unknown stays
/// unknown.
pub open spec fn with_family(
    sets: Map<Seq<char>, Seq<u32>>,
    family: Seq<char>,
    more: Seq<u32>,
) -> Map<Seq<char>, Seq<u32>> {
    if more.len() == 0 {
        sets
    } else {
        sets.insert(family, with_codes(codes_of(sets, family), more))
    }
}

/// `sets` with every entry of `other` united into it.
pub open spec fn merged(
    sets: Map<Seq<char>, Seq<u32>>,
    other: Seq<(Seq<char>, Seq<u32>)>,
) -> Map<Seq<char>, Seq<u32>>
    decreases other.len(),
{
    if other.len() == 0 {
        sets
    } else {
        with_family(merged(sets, other.drop_last()), other.last().0, other.last().1)
    }
}

/// The codepoints of the characters of `text`.
pub open spec fn codepoints(text: Seq<char>) -> Seq<u32> {
    text.map_values(|c: char| c as u32)
}

/// `sets` with the characters of `text` united into the universal family.
pub open spec fn whitelisted(sets: Map<Seq<char>, Seq<u32>>, text: Seq<char>) -> Map<
    Seq<char>,
    Seq<u32>,
> {
    with_family(sets, star(), codepoints(text))
}

/// The fragments of a family filter: its comma-separated parts, each trimmed
/// and in lower case.
pub open spec fn fragments(filter: Seq<char>) -> Seq<Seq<char>> {
    pieces(filter, ',').map_values(|part: Seq<char>| lowercase_of(trimmed(part)))
}

/// One of the fragments `frags` stands in the name `family` put in lower case.
pub open spec fn fragment_selects(family: Seq<char>, frags: Seq<Seq<char>>) -> bool {
    exists|i: int|
        0 <= i < frags.len() && contains_text(lowercase_of(family), #[trigger] frags[i])
}

/// The family passes: with fragments, one of them selects it; without, every
/// family passes.
pub open spec fn passes(family: Seq<char>, frags: Option<Seq<Seq<char>>>) -> bool {
    match frags {
        Some(f) => fragment_selects(family, f),
        None => true,
    }
}

/// The codepoints of the families that pass.
pub open spec fn union_codes(sets: Map<Seq<char>, Seq<u32>>, frags: Option<Seq<Seq<char>>>) -> Set<
    u32,
> {
    Set::new(
        |c: u32|
            exists|family: Seq<char>|
                sets.contains_key(family) && passes(family, frags) && #[trigger] sets[family].contains(
                    c,
                ),
    )
}

/// The filter selects `family`: the family's name, in lower case, holds one of
/// the filter's fragments. Upper and lower case do not matter; the empty
/// fragment selects every family.
pub open spec fn family_selected(family: Seq<char>, filter: Seq<char>) -> bool {
    fragment_selects(family, fragments(filter))
}

/// The codepoints of the families that the filter selects.
pub open spec fn selected_codes(sets: Map<Seq<char>, Seq<u32>>, filter: Seq<char>) -> Set<u32> {
    union_codes(sets, Some(fragments(filter)))
}

/// The codepoints of all families.
pub open spec fn all_codes(sets: Map<Seq<char>, Seq<u32>>) -> Set<u32> {
    union_codes(sets, None)
}

/// What `get_for_families` owes for the filter `families` on `sets`: no
/// codepoint twice; with a filter, the codepoints of the families it selects;
/// without one, the universal family's codepoints as they stand, or, where
/// that family is unknown, the codepoints of all families.
pub open spec fn selection(
    sets: Map<Seq<char>, Seq<u32>>,
    families: Option<Seq<char>>,
    out: Seq<u32>,
) -> bool {
    &&& out.no_duplicates()
    &&& match families {
        Some(filter) => out.to_set() == selected_codes(sets, filter),
        None => if sets.contains_key(star()) {
            out == sets[star()]
        } else {
            out.to_set() == all_codes(sets)
        },
    }
}

/// No family holds a codepoint twice.
pub open spec fn sets_valid(sets: Map<Seq<char>, Seq<u32>>) -> bool {
    forall|family: Seq<char>| sets.contains_key(family) ==> (#[trigger] sets[family]).no_duplicates()
}

// ---------------------------------------------------------------------------
// Facts about the model
// ---------------------------------------------------------------------------

/// Uniting codepoints into a sequence keeps what was there, adds exactly the
/// new ones, and repeats nothing.
pub proof fn lemma_with_codes(codes: Seq<u32>, more: Seq<u32>)
    ensures
        codes.is_prefix_of(with_codes(codes, more)),
        forall|c: u32|
            with_codes(codes, more).contains(c) <==> codes.contains(c) || more.contains(c),
        codes.no_duplicates() ==> with_codes(codes, more).no_duplicates(),
    decreases more.len(),
{
    if more.len() > 0 {
        let front = more.drop_last();
        let last = more.last();
        lemma_with_codes(codes, front);
        let mid = with_codes(codes, front);
        assert forall|c: u32|
            with_codes(codes, more).contains(c) <==> codes.contains(c) || more.contains(
                c,
            ) by {
            if more.contains(c) {
                let i = choose|i: int| 0 <= i < more.len() && more[i] == c;
                if i < more.len() - 1 {
                    assert(front[i] == c);
                }
            }
            if front.contains(c) {
                let i = choose|i: int| 0 <= i < front.len() && front[i] == c;
                assert(more[i] == c);
            }
            assert(more[more.len() - 1] == last);
            if !mid.contains(last) {
                assert(mid.push(last)[mid.len() as int] == last);
                if mid.contains(c) {
                    let i = choose|i: int| 0 <= i < mid.len() && mid[i] == c;
                    assert(mid.push(last)[i] == c);
                }
            }
        }
    }
}

/// Uniting into a sequence codepoints that it holds already changes nothing.
pub proof fn lemma_with_codes_absorbs(codes: Seq<u32>, more: Seq<u32>)
    requires
        forall|i: int| 0 <= i < more.len() ==> codes.contains(more[i]),
    ensures
        with_codes(codes, more) == codes,
    decreases more.len(),
{
    if more.len() > 0 {
        lemma_with_codes_absorbs(codes, more.drop_last());
        assert(codes.contains(more[more.len() - 1]));
    }
}

/// `sets` knows `family` and holds each of `codes` for it, if there are any.
pub open spec fn holds_codes(
    sets: Map<Seq<char>, Seq<u32>>,
    family: Seq<char>,
    codes: Seq<u32>,
) -> bool {
    codes.len() > 0 ==> sets.contains_key(family) && forall|c: u32|
        codes.contains(c) ==> sets[family].contains(c)
}

/// Uniting codepoints into a family keeps held what was held.
proof fn lemma_with_family_keeps(
    sets: Map<Seq<char>, Seq<u32>>,
    family: Seq<char>,
    more: Seq<u32>,
    held: Seq<char>,
    codes: Seq<u32>,
)
    requires
        holds_codes(sets, held, codes),
    ensures
        holds_codes(with_family(sets, family, more), held, codes),
{
    lemma_with_codes(codes_of(sets, family), more);
}

/// After a merge every family for which `other` gives codepoints is known and
/// holds them all, what was known is known and begins as it began, and what
/// was valid stays valid.
pub proof fn lemma_merged_holds(
    sets: Map<Seq<char>, Seq<u32>>,
    other: Seq<(Seq<char>, Seq<u32>)>,
)
    ensures
        forall|i: int|
            0 <= i < other.len() ==> holds_codes(
                merged(sets, other),
                (#[trigger] other[i]).0,
                other[i].1,
            ),
        forall|family: Seq<char>| #[trigger]
            sets.contains_key(family) ==> merged(sets, other).contains_key(family)
                && sets[family].is_prefix_of(merged(sets, other)[family]),
        sets_valid(sets) ==> sets_valid(merged(sets, other)),
    decreases other.len(),
{
    if other.len() == 0 {
        assert forall|f: Seq<char>| #[trigger] sets.contains_key(f) implies sets[f].is_prefix_of(
            sets[f],
        ) by {
            assert(sets[f].subrange(0, sets[f].len() as int) =~= sets[f]);
        }
    } else {
        let front = other.drop_last();
        let family = other.last().0;
        let more = other.last().1;
        let mid = merged(sets, front);
        let end = merged(sets, other);
        lemma_merged_holds(sets, front);
        lemma_with_codes(codes_of(mid, family), more);
        assert forall|i: int| 0 <= i < other.len() implies holds_codes(
            end,
            (#[trigger] other[i]).0,
            other[i].1,
        ) by {
            if i < other.len() - 1 {
                assert(front[i] == other[i]);
                lemma_with_family_keeps(mid, family, more, other[i].0, other[i].1);
            }
        }
        assert forall|f: Seq<char>| #[trigger] sets.contains_key(f) implies end.contains_key(f)
            && sets[f].is_prefix_of(end[f]) by {
            assert(mid.contains_key(f));
            assert(sets[f].is_prefix_of(mid[f]));
            assert(mid[f].is_prefix_of(end[f])) by {
                if f != family || more.len() == 0 {
                    assert(mid[f].subrange(0, mid[f].len() as int) =~= mid[f]);
                }
            }
            lemma_prefix_chain(sets[f], mid[f], end[f]);
        }
    }
}

/// A prefix of a prefix is a prefix.
pub proof fn lemma_prefix_chain(a: Seq<u32>, b: Seq<u32>, c: Seq<u32>)
    requires
        a.is_prefix_of(b),
        b.is_prefix_of(c),
    ensures
        a.is_prefix_of(c),
{
    assert(a =~= c.subrange(0, a.len() as int)) by {
        assert(forall|i: int| 0 <= i < a.len() ==> a[i] == b.subrange(0, a.len() as int)[i]);
        assert(forall|i: int| 0 <= i < b.len() ==> b[i] == c.subrange(0, b.len() as int)[i]);
    }
}

/// Merging again what has been merged changes nothing.
pub proof fn lemma_merge_idempotent(
    sets: Map<Seq<char>, Seq<u32>>,
    other: Seq<(Seq<char>, Seq<u32>)>,
)
    ensures
        merged(merged(sets, other), other) == merged(sets, other),
{
    lemma_merged_holds(sets, other);
    lemma_merge_absorbed(merged(sets, other), other);
}

/// Merging into `sets` entries whose codepoints it holds already, under their
/// families, changes nothing.
pub proof fn lemma_merge_absorbed(
    sets: Map<Seq<char>, Seq<u32>>,
    other: Seq<(Seq<char>, Seq<u32>)>,
)
    requires
        forall|i: int|
            0 <= i < other.len() ==> holds_codes(sets, (#[trigger] other[i]).0, other[i].1),
    ensures
        merged(sets, other) == sets,
    decreases other.len(),
{
    if other.len() > 0 {
        let front = other.drop_last();
        let last = other.last();
        assert forall|i: int| 0 <= i < front.len() implies holds_codes(
            sets,
            (#[trigger] front[i]).0,
            front[i].1,
        ) by {
            assert(front[i] == other[i]);
        }
        lemma_merge_absorbed(sets, front);
        assert(holds_codes(sets, other[other.len() - 1].0, other[other.len() - 1].1));
        if last.1.len() > 0 {
            assert forall|k: int| 0 <= k < last.1.len() implies sets[last.0].contains(
                last.1[k],
            ) by {
                assert(last.1.contains(last.1[k]));
            }
            lemma_with_codes_absorbs(sets[last.0], last.1);
            assert(sets.insert(last.0, sets[last.0]) =~= sets);
        }
    }
}

/// Merging the empty collection changes nothing.
pub proof fn lemma_merge_nothing(sets: Map<Seq<char>, Seq<u32>>)
    ensures
        merged(sets, Seq::empty()) == sets,
{
}

/// Merging an entry without codepoints changes nothing: its family is known
/// afterwards only if it was known before.
pub proof fn lemma_merge_empty_entry(
    sets: Map<Seq<char>, Seq<u32>>,
    other: Seq<(Seq<char>, Seq<u32>)>,
    family: Seq<char>,
)
    ensures
        merged(sets, other.push((family, Seq::empty()))) == merged(sets, other),
{
    assert(other.push((family, Seq::<u32>::empty())).drop_last() =~= other);
}

/// A whitelist without characters changes nothing.
pub proof fn lemma_whitelist_nothing(sets: Map<Seq<char>, Seq<u32>>)
    ensures
        whitelisted(sets, Seq::empty()) == sets,
{
    assert(codepoints(Seq::empty()) =~= Seq::<u32>::empty());
}

/// A whitelist touches the universal family alone: every other family is
/// known or unknown as before, with the codepoints it had.
pub proof fn lemma_whitelist_frame(
    sets: Map<Seq<char>, Seq<u32>>,
    text: Seq<char>,
    family: Seq<char>,
)
    requires
        family != star(),
    ensures
        whitelisted(sets, text).contains_key(family) == sets.contains_key(family),
        sets.contains_key(family) ==> whitelisted(sets, text)[family] == sets[family],
{
}

/// Whitelisting the same text again changes nothing.
pub proof fn lemma_whitelist_idempotent(sets: Map<Seq<char>, Seq<u32>>, text: Seq<char>)
    ensures
        whitelisted(whitelisted(sets, text), text) == whitelisted(sets, text),
{
    let more = codepoints(text);
    let once = whitelisted(sets, text);
    if more.len() > 0 {
        lemma_with_codes(codes_of(sets, star()), more);
        assert forall|i: int| 0 <= i < more.len() implies once[star()].contains(more[i]) by {
            assert(more.contains(more[i]));
        }
        lemma_with_codes_absorbs(once[star()], more);
        assert(once.insert(star(), once[star()]) =~= once);
    }
}

/// After a whitelist the universal family holds every character of the text.
pub proof fn lemma_whitelist_holds(sets: Map<Seq<char>, Seq<u32>>, text: Seq<char>, i: int)
    requires
        0 <= i < text.len(),
    ensures
        whitelisted(sets, text).contains_key(star()),
        whitelisted(sets, text)[star()].contains(text[i] as u32),
        sets_valid(sets) ==> sets_valid(whitelisted(sets, text)),
{
    let more = codepoints(text);
    lemma_with_codes(codes_of(sets, star()), more);
    assert(more[i] == text[i] as u32);
    assert(more.contains(more[i]));
}

/// A merge is a union: afterwards the families known are those known before
/// and those for which `other` gives codepoints, and a family holds what it
/// held and what `other` gives for it.
pub proof fn lemma_merged_members(
    sets: Map<Seq<char>, Seq<u32>>,
    other: Seq<(Seq<char>, Seq<u32>)>,
    family: Seq<char>,
    c: u32,
)
    ensures
        merged(sets, other).contains_key(family) <==> sets.contains_key(family) || exists|i: int|
            0 <= i < other.len() && (#[trigger] other[i]).0 == family && other[i].1.len() > 0,
        codes_of(merged(sets, other), family).contains(c) <==> codes_of(sets, family).contains(c)
            || exists|i: int|
            0 <= i < other.len() && (#[trigger] other[i]).0 == family && other[i].1.contains(c),
    decreases other.len(),
{
    if other.len() > 0 {
        let front = other.drop_last();
        let last = other.last();
        let mid = merged(sets, front);
        lemma_merged_members(sets, front, family, c);
        lemma_with_codes(codes_of(mid, last.0), last.1);
        assert(other[other.len() - 1] == last);
        if exists|i: int|
            0 <= i < front.len() && (#[trigger] front[i]).0 == family && front[i].1.len() > 0 {
            let i = choose|i: int|
                0 <= i < front.len() && (#[trigger] front[i]).0 == family && front[i].1.len() > 0;
            assert(other[i] == front[i]);
        }
        if exists|i: int|
            0 <= i < other.len() && (#[trigger] other[i]).0 == family && other[i].1.len() > 0 {
            let i = choose|i: int|
                0 <= i < other.len() && (#[trigger] other[i]).0 == family && other[i].1.len() > 0;
            if i < other.len() - 1 {
                assert(front[i] == other[i]);
            }
        }
        if exists|i: int|
            0 <= i < front.len() && (#[trigger] front[i]).0 == family && front[i].1.contains(c) {
            let i = choose|i: int|
                0 <= i < front.len() && (#[trigger] front[i]).0 == family && front[i].1.contains(c);
            assert(other[i] == front[i]);
        }
        if exists|i: int|
            0 <= i < other.len() && (#[trigger] other[i]).0 == family && other[i].1.contains(c) {
            let i = choose|i: int|
                0 <= i < other.len() && (#[trigger] other[i]).0 == family && other[i].1.contains(c);
            if i < other.len() - 1 {
                assert(front[i] == other[i]);
            }
        }
    }
}

/// The universal family holds whatever any family holds.
pub open spec fn star_covers(sets: Map<Seq<char>, Seq<u32>>) -> bool {
    forall|family: Seq<char>, c: u32|
        sets.contains_key(family) && (#[trigger] sets[family].contains(c)) ==> sets.contains_key(
            star(),
        ) && sets[star()].contains(c)
}

/// Among `other` an entry for the universal family holds whatever any entry
/// holds.
pub open spec fn star_covers_entries(other: Seq<(Seq<char>, Seq<u32>)>) -> bool {
    forall|i: int, c: u32|
        0 <= i < other.len() && (#[trigger] other[i].1.contains(c)) ==> exists|j: int|
            0 <= j < other.len() && (#[trigger] other[j]).0 == star() && other[j].1.contains(c)
}

/// Where the universal family covers the aggregate and what is merged into
/// it, it covers the result.
pub proof fn lemma_merge_keeps_cover(
    sets: Map<Seq<char>, Seq<u32>>,
    other: Seq<(Seq<char>, Seq<u32>)>,
)
    requires
        star_covers(sets),
        star_covers_entries(other),
    ensures
        star_covers(merged(sets, other)),
{
    let end = merged(sets, other);
    assert forall|family: Seq<char>, c: u32|
        end.contains_key(family) && (#[trigger] end[family].contains(c)) implies end.contains_key(
        star(),
    ) && end[star()].contains(c) by {
        lemma_merged_members(sets, other, family, c);
        lemma_merged_members(sets, other, star(), c);
        if codes_of(sets, family).contains(c) {
            assert(sets.contains_key(family));
            assert(sets[family].contains(c));
        } else {
            let i = choose|i: int|
                0 <= i < other.len() && (#[trigger] other[i]).0 == family && other[i].1.contains(c);
            assert(other[i].1.contains(c));
            let j = choose|j: int|
                0 <= j < other.len() && (#[trigger] other[j]).0 == star() && other[j].1.contains(c);
            assert(other[j].0 == star());
        }
    }
}

/// A whitelist keeps the universal family covering the aggregate.
pub proof fn lemma_whitelist_keeps_cover(sets: Map<Seq<char>, Seq<u32>>, text: Seq<char>)
    requires
        star_covers(sets),
    ensures
        star_covers(whitelisted(sets, text)),
{
    let end = whitelisted(sets, text);
    lemma_with_codes(codes_of(sets, star()), codepoints(text));
    assert forall|family: Seq<char>, c: u32|
        end.contains_key(family) && (#[trigger] end[family].contains(c)) implies end.contains_key(
        star(),
    ) && end[star()].contains(c) by {
        if family != star() {
            assert(sets[family].contains(c));
        }
    }
}

// ---------------------------------------------------------------------------
// The aggregate
// ---------------------------------------------------------------------------

/// The map that `entries` stand for, each entry giving one family its
/// codepoints.
pub open spec fn sets_of(entries: Seq<(Seq<char>, Seq<u32>)>) -> Map<Seq<char>, Seq<u32>>
    decreases entries.len(),
{
    if entries.len() == 0 {
        Map::empty()
    } else {
        sets_of(entries.drop_last()).insert(entries.last().0, entries.last().1)
    }
}

/// No two of `entries` speak of one family.
pub open spec fn distinct_families(entries: Seq<(Seq<char>, Seq<u32>)>) -> bool {
    forall|i: int, j: int| 0 <= i < j < entries.len() ==> entries[i].0 != entries[j].0
}

/// The families of `sets_of(entries)` are those of the entries.
pub proof fn lemma_sets_of_keys(entries: Seq<(Seq<char>, Seq<u32>)>, family: Seq<char>)
    ensures
        sets_of(entries).contains_key(family) <==> exists|i: int|
            0 <= i < entries.len() && #[trigger] entries[i].0 == family,
    decreases entries.len(),
{
    if entries.len() > 0 {
        let front = entries.drop_last();
        lemma_sets_of_keys(front, family);
        if sets_of(entries).contains_key(family) {
            if entries.last().0 == family {
                assert(entries[entries.len() - 1].0 == family);
            } else {
                let i = choose|i: int| 0 <= i < front.len() && #[trigger] front[i].0 == family;
                assert(entries[i].0 == family);
            }
        }
        if exists|i: int| 0 <= i < entries.len() && #[trigger] entries[i].0 == family {
            let i = choose|i: int| 0 <= i < entries.len() && #[trigger] entries[i].0 == family;
            if i < entries.len() - 1 {
                assert(front[i].0 == family);
            }
        }
    }
}

/// Where the families are distinct, `sets_of(entries)` gives each entry's
/// family that entry's codepoints.
pub proof fn lemma_sets_of_entry(entries: Seq<(Seq<char>, Seq<u32>)>, i: int)
    requires
        distinct_families(entries),
        0 <= i < entries.len(),
    ensures
        sets_of(entries).contains_key(entries[i].0),
        sets_of(entries)[entries[i].0] == entries[i].1,
    decreases entries.len(),
{
    if i < entries.len() - 1 {
        let front = entries.drop_last();
        assert(entries[i].0 != entries[entries.len() - 1].0);
        assert(distinct_families(front)) by {
            assert forall|a: int, b: int| 0 <= a < b < front.len() implies front[a].0
                != front[b].0 by {
                assert(entries[a].0 != entries[b].0);
            }
        }
        lemma_sets_of_entry(front, i);
    }
}

/// Giving one entry other codepoints gives its family those codepoints.
pub proof fn lemma_sets_of_update(entries: Seq<(Seq<char>, Seq<u32>)>, i: int, codes: Seq<u32>)
    requires
        distinct_families(entries),
        0 <= i < entries.len(),
    ensures
        sets_of(entries.update(i, (entries[i].0, codes))) == sets_of(entries).insert(
            entries[i].0,
            codes,
        ),
        distinct_families(entries.update(i, (entries[i].0, codes))),
    decreases entries.len(),
{
    let updated = entries.update(i, (entries[i].0, codes));
    let front = entries.drop_last();
    assert(distinct_families(updated)) by {
        assert forall|a: int, b: int| 0 <= a < b < updated.len() implies updated[a].0
            != updated[b].0 by {
            assert(entries[a].0 != entries[b].0);
        }
    }
    if i == entries.len() - 1 {
        assert(updated.drop_last() =~= front);
        assert(sets_of(updated) =~= sets_of(entries).insert(entries[i].0, codes));
    } else {
        assert(distinct_families(front)) by {
            assert forall|a: int, b: int| 0 <= a < b < front.len() implies front[a].0
                != front[b].0 by {
                assert(entries[a].0 != entries[b].0);
            }
        }
        lemma_sets_of_update(front, i, codes);
        assert(updated.drop_last() =~= front.update(i, (entries[i].0, codes)));
        assert(entries[i].0 != entries[entries.len() - 1].0);
        assert(sets_of(updated) =~= sets_of(entries).insert(entries[i].0, codes));
    }
}

/// Whether `codes` holds `c`.
pub fn contains_code(codes: &[u32], c: u32) -> (found: bool)
    ensures
        found == codes@.contains(c),
{
    let mut i: usize = 0;
    while i < codes.len()
        invariant
            i <= codes.len(),
            forall|j: int| 0 <= j < i ==> codes@[j] != c,
        decreases codes.len() - i,
    {
        if codes[i] == c {
            return true;
        }
        i += 1;
    }
    false
}

/// Appends to `out` those of `more` that it lacks, each once, in order.
pub fn extend_unique(out: &mut Vec<u32>, more: &[u32])
    ensures
        final(out)@ == with_codes(old(out)@, more@),
{
    let mut k: usize = 0;
    while k < more.len()
        invariant
            k <= more.len(),
            out@ == with_codes(old(out)@, more@.take(k as int)),
        decreases more.len() - k,
    {
        assert(more@.take(k + 1).drop_last() =~= more@.take(k as int));
        let c = more[k];
        if !contains_code(out.as_slice(), c) {
            out.push(c);
        }
        k += 1;
    }
    assert(more@.take(k as int) =~= more@);
}

/// The codepoints of `chars`.
pub fn codes_of_chars(chars: &[char]) -> (out: Vec<u32>)
    ensures
        out@ == codepoints(chars@),
{
    let mut out: Vec<u32> = Vec::new();
    let mut i: usize = 0;
    while i < chars.len()
        invariant
            i <= chars.len(),
            out@ == codepoints(chars@.take(i as int)),
        decreases chars.len() - i,
    {
        assert(codepoints(chars@.take(i + 1)) =~= codepoints(chars@.take(i as int)).push(
            chars@[i as int] as u32,
        ));
        out.push(chars[i] as u32);
        i += 1;
    }
    assert(chars@.take(i as int) =~= chars@);
    out
}

/// `entries` are sound: they hold each family once, and no codepoint twice for
/// a family.
pub open spec fn sound(entries: Seq<FamilyCodes>) -> bool {
    &&& distinct_families(entries_view(entries))
    &&& forall|i: int| 0 <= i < entries.len() ==> (#[trigger] entries[i]).codes@.no_duplicates()
}

/// Sound entries stand for sets in which no family holds a codepoint twice.
pub proof fn lemma_sound_valid(entries: Seq<FamilyCodes>)
    requires
        sound(entries),
    ensures
        sets_valid(sets_of(entries_view(entries))),
{
    let view = entries_view(entries);
    let sets = sets_of(view);
    assert forall|family: Seq<char>| sets.contains_key(family) implies (
    #[trigger] sets[family]).no_duplicates() by {
        lemma_sets_of_keys(view, family);
        let i = choose|i: int| 0 <= i < view.len() && #[trigger] view[i].0 == family;
        lemma_sets_of_entry(view, i);
        assert(view[i] == entries[i]@);
    }
}

/// The place of `family` among `entries`.
fn position(entries: &Vec<FamilyCodes>, family: &String) -> (found: Option<usize>)
    ensures
        found matches Some(i) ==> i < entries@.len() && entries@[i as int].family@ == family@,
        found is None ==> forall|j: int|
            0 <= j < entries@.len() ==> (#[trigger] entries@[j]).family@ != family@,
{
    let mut i: usize = 0;
    while i < entries.len()
        invariant
            i <= entries.len(),
            forall|j: int| 0 <= j < i ==> (#[trigger] entries@[j]).family@ != family@,
        decreases entries.len() - i,
    {
        if entries[i].family == *family {
            return Some(i);
        }
        i += 1;
    }
    None
}

/// The codepoints that sound `entries` hold for `family`.
fn lookup<'a>(entries: &'a Vec<FamilyCodes>, family: &String) -> (codes: Option<&'a Vec<u32>>)
    requires
        sound(entries@),
    ensures
        codes is Some <==> sets_of(entries_view(entries@)).contains_key(family@),
        codes matches Some(c) ==> c@ == sets_of(entries_view(entries@))[family@]
            && c@.no_duplicates(),
{
    let ghost view = entries_view(entries@);
    match position(entries, family) {
        Some(i) => {
            proof {
                lemma_sets_of_entry(view, i as int);
                assert(view[i as int] == entries@[i as int]@);
            }
            Some(&entries[i].codes)
        },
        None => {
            proof {
                assert forall|j: int| 0 <= j < view.len() implies view[j].0 != family@ by {
                    assert(entries@[j].family@ != family@);
                }
                lemma_sets_of_keys(view, family@);
            }
            None
        },
    }
}

/// Unites the codepoints `more` into those that `entries` hold for `family`;
/// without codepoints nothing changes.
fn unite(entries: &mut Vec<FamilyCodes>, family: &String, more: &[u32])
    requires
        sound(old(entries)@),
    ensures
        sound(final(entries)@),
        sets_of(entries_view(final(entries)@)) == with_family(
            sets_of(entries_view(old(entries)@)),
            family@,
            more@,
        ),
{
    if more.len() == 0 {
        return;
    }
    let ghost before = entries_view(entries@);
    let found = position(entries, family);
    let idx: usize = match found {
        Some(i) => {
            proof {
                lemma_sets_of_entry(before, i as int);
            }
            i
        },
        None => {
            proof {
                assert forall|j: int| 0 <= j < before.len() implies before[j].0 != family@ by {
                    assert(entries@[j].family@ != family@);
                }
                lemma_sets_of_keys(before, family@);
            }
            entries.push(FamilyCodes { family: family.clone(), codes: Vec::new() });
            entries.len() - 1
        },
    };
    let ghost mid = entries_view(entries@);
    let ghost base = codes_of(sets_of(before), family@);
    proof {
        if found is None {
            assert(mid.drop_last() =~= before);
        } else {
            assert(mid =~= before);
        }
        assert(mid[idx as int] == (family@, base));
        assert(distinct_families(mid)) by {
            assert forall|a: int, b: int| 0 <= a < b < mid.len() implies mid[a].0 != mid[b].0 by {
                if b < before.len() {
                    assert(before[a].0 != before[b].0);
                } else {
                    assert(mid[a] == before[a]);
                }
            }
        }
        assert(sets_of(mid) =~= sets_of(before).insert(family@, base));
    }
    let ghost snapshot = entries@;
    extend_unique(&mut entries[idx].codes, more);
    proof {
        let after = entries_view(entries@);
        lemma_with_codes(base, more@);
        assert(after =~= mid.update(idx as int, (family@, with_codes(base, more@)))) by {
            assert forall|j: int| 0 <= j < after.len() implies after[j] == mid.update(
                idx as int,
                (family@, with_codes(base, more@)),
            )[j] by {
                if j != idx {
                    assert(entries@[j] == snapshot[j]);
                }
            }
        }
        lemma_sets_of_update(mid, idx as int, with_codes(base, more@));
        assert(sets_of(after) =~= with_family(sets_of(before), family@, more@));
        assert forall|i: int| 0 <= i < entries@.len() implies (
        #[trigger] entries@[i]).codes@.no_duplicates() by {
            if i != idx {
                assert(entries@[i] == snapshot[i]);
                if i < old(entries)@.len() {
                    assert(snapshot[i] == old(entries)@[i]);
                }
            }
        }
    }
}

/// The codepoints of those of the sound `entries` whose families pass, each
/// once.
fn collect(entries: &Vec<FamilyCodes>, frags: Option<&Vec<Vec<char>>>) -> (out: Vec<u32>)
    requires
        sound(entries@),
    ensures
        out@.no_duplicates(),
        out@.to_set() == union_codes(sets_of(entries_view(entries@)), texts_view(frags)),
{
    let ghost view = entries_view(entries@);
    let ghost sets = sets_of(view);
    let ghost wanted = texts_view(frags);
    let mut out: Vec<u32> = Vec::new();
    let mut i: usize = 0;
    while i < entries.len()
        invariant
            i <= entries.len(),
            wanted == texts_view(frags),
            out@.no_duplicates(),
            forall|c: u32|
                out@.contains(c) <==> exists|j: int|
                    0 <= j < i && passes(entries@[j].family@, wanted)
                        && #[trigger] entries@[j].codes@.contains(c),
        decreases entries.len() - i,
    {
        let take = match frags {
            Some(f) => selects(f, &entries[i].family),
            None => true,
        };
        let ghost prev = out@;
        if take {
            extend_unique(&mut out, entries[i].codes.as_slice());
            proof {
                lemma_with_codes(prev, entries@[i as int].codes@);
            }
        }
        assert forall|c: u32|
            out@.contains(c) <==> exists|j: int|
                0 <= j < i + 1 && passes(entries@[j].family@, wanted)
                    && #[trigger] entries@[j].codes@.contains(c) by {
            if prev.contains(c) {
                let j = choose|j: int|
                    0 <= j < i && passes(entries@[j].family@, wanted)
                        && #[trigger] entries@[j].codes@.contains(c);
                assert(entries@[j].codes@.contains(c));
            }
            if take && entries@[i as int].codes@.contains(c) {
                assert(out@.contains(c));
            }
            if exists|j: int|
                0 <= j < i + 1 && passes(entries@[j].family@, wanted)
                    && #[trigger] entries@[j].codes@.contains(c) {
                let j = choose|j: int|
                    0 <= j < i + 1 && passes(entries@[j].family@, wanted)
                        && #[trigger] entries@[j].codes@.contains(c);
                if j < i {
                    assert(entries@[j].codes@.contains(c));
                    assert(prev.contains(c));
                }
            }
        }
        i += 1;
    }
    proof {
        assert forall|c: u32| out@.to_set().contains(c) <==> union_codes(sets, wanted).contains(
            c,
        ) by {
            if out@.contains(c) {
                let j = choose|j: int|
                    0 <= j < i && passes(entries@[j].family@, wanted)
                        && #[trigger] entries@[j].codes@.contains(c);
                lemma_sets_of_entry(view, j);
                assert(view[j] == entries@[j]@);
                assert(sets[view[j].0].contains(c));
            }
            if union_codes(sets, wanted).contains(c) {
                let family = choose|family: Seq<char>|
                    sets.contains_key(family) && passes(family, wanted)
                        && #[trigger] sets[family].contains(c);
                lemma_sets_of_keys(view, family);
                let j = choose|j: int| 0 <= j < view.len() && #[trigger] view[j].0 == family;
                lemma_sets_of_entry(view, j);
                assert(view[j] == entries@[j]@);
                assert(entries@[j].codes@.contains(c));
            }
        }
        assert(out@.to_set() =~= union_codes(sets, wanted));
    }
    out
}

/// The character sets of a session: for each font family the codepoints seen
/// with it, and under the name `*` those seen with any. No family holds a
/// codepoint twice.
#[derive(Debug)]
pub struct GlyphSets {
    sets: Vec<FamilyCodes>,
}

impl View for GlyphSets {
    type V = Map<Seq<char>, Seq<u32>>;

    closed spec fn view(&self) -> Map<Seq<char>, Seq<u32>> {
        sets_of(entries_view(self.sets@))
    }
}

impl Clone for GlyphSets {
    /// A copy that holds the same sets.
    fn clone(&self) -> (copy: GlyphSets)
        ensures
            copy@ == self@,
    {
        proof {
            use_type_invariant(self);
        }
        let mut sets: Vec<FamilyCodes> = Vec::new();
        let mut i: usize = 0;
        assert(entries_view(sets@) =~= entries_view(self.sets@).take(0));
        while i < self.sets.len()
            invariant
                i <= self.sets.len(),
                sets@.len() == i,
                forall|j: int| 0 <= j < i ==> (#[trigger] sets@[j])@ == self.sets@[j]@,
            decreases self.sets.len() - i,
        {
            let family = self.sets[i].family.clone();
            let codes = self.sets[i].codes.clone();
            sets.push(FamilyCodes { family, codes });
            i += 1;
        }
        proof {
            assert(entries_view(sets@) =~= entries_view(self.sets@));
            assert forall|j: int| 0 <= j < sets@.len() implies (
            #[trigger] sets@[j]).codes@.no_duplicates() by {
                assert(sets@[j]@ == self.sets@[j]@);
            }
        }
        GlyphSets { sets }
    }
}

impl Default for GlyphSets {
    /// An aggregate that knows no family.
    fn default() -> (sets: GlyphSets)
        ensures
            sets@ == Map::<Seq<char>, Seq<u32>>::empty(),
    {
        GlyphSets::new()
    }
}

impl GlyphSets {
    /// The aggregate holds each family once, and no codepoint twice for a
    /// family.
    #[verifier::type_invariant]
    spec fn wf(self) -> bool {
        sound(self.sets@)
    }

    /// An aggregate that knows no family.
    pub fn new() -> (sets: GlyphSets)
        ensures
            sets@ == Map::<Seq<char>, Seq<u32>>::empty(),
    {
        GlyphSets { sets: Vec::new() }
    }

    /// Unites the codepoints `more` into those of `family`. Without codepoints
    /// nothing changes.
    pub fn add_codes(&mut self, family: &String, more: &[u32])
        ensures
            final(self)@ == with_family(old(self)@, family@, more@),
            sets_valid(final(self)@),
    {
        proof {
            use_type_invariant(&*self);
        }
        let mut sets: Vec<FamilyCodes> = Vec::new();
        core::mem::swap(&mut sets, &mut self.sets);
        unite(&mut sets, family, more);
        proof {
            lemma_sound_valid(sets@);
        }
        self.sets = sets;
    }

    /// Unites every family's codepoints of `other` into the aggregate. To
    /// merge the same again, nothing, or a family without codepoints changes
    /// nothing. Where the universal
    /// family covered the aggregate and covers what is merged, it covers the
    /// result.
    pub fn merge(&mut self, other: Vec<FamilyCodes>)
        ensures
            final(self)@ == merged(old(self)@, entries_view(other@)),
            sets_valid(final(self)@),
            star_covers(old(self)@) && star_covers_entries(entries_view(other@)) ==> star_covers(
                final(self)@,
            ),
    {
        proof {
            use_type_invariant(&*self);
            lemma_sound_valid(self.sets@);
            if star_covers(self@) && star_covers_entries(entries_view(other@)) {
                lemma_merge_keeps_cover(self@, entries_view(other@));
            }
        }
        let ghost all = entries_view(other@);
        let mut k: usize = 0;
        while k < other.len()
            invariant
                k <= other.len(),
                all == entries_view(other@),
                sets_valid(self@),
                self@ == merged(old(self)@, all.take(k as int)),
            decreases other.len() - k,
        {
            assert(all.take(k + 1).drop_last() =~= all.take(k as int));
            assert(all.take(k + 1).last() == other@[k as int]@);
            self.add_codes(&other[k].family, other[k].codes.as_slice());
            k += 1;
        }
        assert(all.take(k as int) =~= all);
    }

    /// Unites every character of `whitelist` into the universal family, and
    /// into no other. An empty whitelist changes nothing.
    pub fn add_whitelist(&mut self, whitelist: &str)
        ensures
            final(self)@ == whitelisted(old(self)@, whitelist@),
            sets_valid(final(self)@),
            star_covers(old(self)@) ==> star_covers(final(self)@),
    {
        proof {
            reveal_strlit("*");
            if star_covers(self@) {
                lemma_whitelist_keeps_cover(self@, whitelist@);
            }
        }
        let universal = "*".to_owned();
        assert(universal@ =~= star());
        let chars = chars_of(whitelist);
        let codes = codes_of_chars(chars.as_slice());
        self.add_codes(&universal, codes.as_slice());
    }

    /// Whether the aggregate knows `family`.
    pub fn contains_key(&self, family: &str) -> (known: bool)
        ensures
            known == self@.contains_key(family@),
    {
        self.get(family).is_some()
    }

    /// The codepoints of `family`, in the order in which they were first seen.
    pub fn get(&self, family: &str) -> (codes: Option<&Vec<u32>>)
        ensures
            codes is Some <==> self@.contains_key(family@),
            codes matches Some(c) ==> c@ == self@[family@] && c@.no_duplicates(),
    {
        proof {
            use_type_invariant(self);
        }
        let name = family.to_owned();
        lookup(&self.sets, &name)
    }

    /// The names of the families that the aggregate knows, each once.
    pub fn families(&self) -> (names: Vec<String>)
        ensures
            forall|family: Seq<char>|
                self@.contains_key(family) <==> exists|i: int|
                    0 <= i < names@.len() && (#[trigger] names@[i])@ == family,
            forall|i: int, j: int| 0 <= i < j < names@.len() ==> names@[i]@ != names@[j]@,
    {
        proof {
            use_type_invariant(self);
        }
        let ghost entries = entries_view(self.sets@);
        let mut names: Vec<String> = Vec::new();
        let mut k: usize = 0;
        while k < self.sets.len()
            invariant
                k <= self.sets.len(),
                names@.len() == k,
                forall|i: int| 0 <= i < k ==> (#[trigger] names@[i])@ == self.sets@[i].family@,
            decreases self.sets.len() - k,
        {
            names.push(self.sets[k].family.clone());
            k += 1;
        }
        proof {
            assert forall|family: Seq<char>|
                self@.contains_key(family) <==> exists|i: int|
                    0 <= i < names@.len() && (#[trigger] names@[i])@ == family by {
                lemma_sets_of_keys(entries, family);
                if self@.contains_key(family) {
                    let i = choose|i: int| 0 <= i < entries.len() && #[trigger] entries[i].0 == family;
                    assert(entries[i] == self.sets@[i]@);
                    assert(names@[i]@ == family);
                }
                if exists|i: int| 0 <= i < names@.len() && (#[trigger] names@[i])@ == family {
                    let i = choose|i: int| 0 <= i < names@.len() && (#[trigger] names@[i])@ == family;
                    assert(entries[i] == self.sets@[i]@);
                    assert(entries[i].0 == family);
                }
            }
            assert forall|i: int, j: int| 0 <= i < j < names@.len() implies names@[i]@
                != names@[j]@ by {
                assert(entries[i] == self.sets@[i]@);
                assert(entries[j] == self.sets@[j]@);
                assert(entries[i].0 != entries[j].0);
            }
        }
        names
    }

    /// The codepoints to keep. With a filter, a comma-separated list of
    /// fragments of family names, those of every family whose name holds one of
    /// the fragments, whatever the case of either. Without a filter, those of
    /// the universal family if it is known, else those of all families.
    pub fn get_for_families(&self, families: Option<&str>) -> (out: Vec<u32>)
        ensures
            selection(self@, optional_filter(families), out@),
    {
        proof {
            use_type_invariant(self);
        }
        match families {
            Some(filter) => {
                let frags = fragments_of(filter);
                assert(texts_view(Some(&frags)) == Some(fragments(filter@))) by {
                    assert(frags@.map_values(|f: Vec<char>| f@) =~= fragments(filter@));
                }
                collect(&self.sets, Some(&frags))
            },
            None => {
                proof {
                    reveal_strlit("*");
                }
                let universal = "*".to_owned();
                assert(universal@ =~= star());
                match lookup(&self.sets, &universal) {
                    Some(codes) => codes.clone(),
                    None => collect(&self.sets, None),
                }
            },
        }
    }
}

/// The text of an optional filter.
pub open spec fn optional_filter(families: Option<&str>) -> Option<Seq<char>> {
    match families {
        Some(filter) => Some(filter@),
        None => None,
    }
}

/// The texts of optional fragments.
pub open spec fn texts_view(frags: Option<&Vec<Vec<char>>>) -> Option<Seq<Seq<char>>> {
    match frags {
        Some(f) => Some(f@.map_values(|t: Vec<char>| t@)),
        None => None,
    }
}

/// The fragments of a family filter.
pub fn fragments_of(filter: &str) -> (out: Vec<Vec<char>>)
    ensures
        out@.len() == fragments(filter@).len(),
        forall|i: int| 0 <= i < out@.len() ==> out@[i]@ == fragments(filter@)[i],
{
    let chars = chars_of(filter);
    let parts = split(chars.as_slice(), ',');
    let mut out: Vec<Vec<char>> = Vec::new();
    let mut k: usize = 0;
    while k < parts.len()
        invariant
            k <= parts.len(),
            chars@ == filter@,
            parts@.len() == pieces(filter@, ',').len(),
            forall|i: int| 0 <= i < parts@.len() ==> parts@[i]@ == pieces(filter@, ',')[i],
            out@.len() == k,
            forall|i: int| 0 <= i < k ==> out@[i]@ == fragments(filter@)[i],
        decreases parts.len() - k,
    {
        out.push(lowercase(trim(parts[k])));
        k += 1;
    }
    out
}

/// Whether one of the fragments `frags` stands in the name `family` put in
/// lower case.
pub fn selects(frags: &Vec<Vec<char>>, family: &String) -> (chosen: bool)
    ensures
        chosen == fragment_selects(family@, frags@.map_values(|t: Vec<char>| t@)),
{
    let name = chars_of(family.as_str());
    let lower = lowercase(name.as_slice());
    let ghost texts = frags@.map_values(|t: Vec<char>| t@);
    let mut k: usize = 0;
    while k < frags.len()
        invariant
            k <= frags.len(),
            lower@ == lowercase_of(family@),
            texts == frags@.map_values(|t: Vec<char>| t@),
            forall|i: int| 0 <= i < k ==> !contains_text(lower@, #[trigger] texts[i]),
        decreases frags.len() - k,
    {
        if find(lower.as_slice(), frags[k].as_slice()).is_some() {
            assert(contains_text(lowercase_of(family@), texts[k as int]));
            return true;
        }
        k += 1;
    }
    false
}

} // verus!
