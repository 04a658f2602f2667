//! What a page's scripts hand back: JSON values, and what is read out of them.

use crate::glyph_sets::{
    distinct_families, entries_view, lemma_sets_of_update, sets_of, FamilyCodes,
};
use vstd::prelude::*;

verus! {

/// A JSON value, as far as the scanner reads it.
#[derive(Debug)]
pub enum JsonValue {
    Null,
    Bool(bool),
    /// A number: as an unsigned integer where it is one of at most 64 bits,
    /// else `None`.
    Number(Option<u64>),
    Text(String),
    Array(Vec<JsonValue>),
    Object(Vec<JsonMember>),
}

/// A member of a JSON object.
#[derive(Debug)]
pub struct JsonMember {
    pub name: String,
    pub value: JsonValue,
}

/// The codepoints among `items`: of each unsigned number its low 32 bits, in
/// order; what is no such number is passed over.
pub open spec fn codes_in(items: Seq<JsonValue>) -> Seq<u32>
    decreases items.len(),
{
    if items.len() == 0 {
        Seq::empty()
    } else {
        let before = codes_in(items.drop_last());
        match items.last() {
            JsonValue::Number(Some(n)) => before.push(n as u32),
            _ => before,
        }
    }
}

/// The strings among `items`, in order; what is no string is passed over.
pub open spec fn texts_in(items: Seq<JsonValue>) -> Seq<Seq<char>>
    decreases items.len(),
{
    if items.len() == 0 {
        Seq::empty()
    } else {
        let before = texts_in(items.drop_last());
        match items.last() {
            JsonValue::Text(t) => before.push(t@),
            _ => before,
        }
    }
}

/// The character sets that `members` give: each member whose value is an array
/// gives the family of its name the codepoints in the array, in place of what
/// an earlier member of that name gave.
pub open spec fn sets_in(members: Seq<JsonMember>) -> Map<Seq<char>, Seq<u32>>
    decreases members.len(),
{
    if members.len() == 0 {
        Map::empty()
    } else {
        let before = sets_in(members.drop_last());
        match members.last().value {
            JsonValue::Array(items) => before.insert(members.last().name@, codes_in(items@)),
            _ => before,
        }
    }
}

/// The character sets that the result of the glyph script gives: those of its
/// members if it is an object, else none.
pub open spec fn page_sets(value: JsonValue) -> Map<Seq<char>, Seq<u32>> {
    match value {
        JsonValue::Object(members) => sets_in(members@),
        _ => Map::empty(),
    }
}

/// The links that the result of the link script gives: the strings of the
/// array if it is one, else none.
pub open spec fn page_links(value: JsonValue) -> Seq<Seq<char>> {
    match value {
        JsonValue::Array(items) => texts_in(items@),
        _ => Seq::empty(),
    }
}

/// The low 32 bits of `n`.
fn low_bits(n: u64) -> (c: u32)
    ensures
        c == n as u32,
{
    #[verifier::truncate]
    (n as u32)
}

/// The codepoints among `items`.
pub fn codes_from(items: &Vec<JsonValue>) -> (out: Vec<u32>)
    ensures
        out@ == codes_in(items@),
{
    let mut out: Vec<u32> = Vec::new();
    let mut i: usize = 0;
    while i < items.len()
        invariant
            i <= items.len(),
            out@ == codes_in(items@.take(i as int)),
        decreases items.len() - i,
    {
        assert(items@.take(i + 1).drop_last() =~= items@.take(i as int));
        assert(items@.take(i + 1).last() == items@[i as int]);
        match &items[i] {
            JsonValue::Number(Some(n)) => {
                out.push(low_bits(*n));
            },
            _ => {},
        }
        i += 1;
    }
    assert(items@.take(i as int) =~= items@);
    out
}

/// The place among `entries` of the family `name`.
fn place_of(entries: &Vec<FamilyCodes>, name: &String) -> (found: Option<usize>)
    ensures
        found matches Some(i) ==> i < entries@.len() && entries@[i as int].family@ == name@,
        found is None ==> forall|j: int|
            0 <= j < entries@.len() ==> (#[trigger] entries@[j]).family@ != name@,
{
    let mut i: usize = 0;
    while i < entries.len()
        invariant
            i <= entries.len(),
            forall|j: int| 0 <= j < i ==> (#[trigger] entries@[j]).family@ != name@,
        decreases entries.len() - i,
    {
        if entries[i].family == *name {
            return Some(i);
        }
        i += 1;
    }
    None
}

/// Reads the result of the glyph script: a mapping from a family's name to an
/// array of codepoints. Anything else gives no sets; a member that is no array
/// gives none; in an array what is no unsigned number is passed over.
pub fn glyph_sets_from_json(value: &JsonValue) -> (out: Vec<FamilyCodes>)
    ensures
        distinct_families(entries_view(out@)),
        sets_of(entries_view(out@)) == page_sets(*value),
{
    let mut out: Vec<FamilyCodes> = Vec::new();
    match value {
        JsonValue::Object(members) => {
            let mut k: usize = 0;
            while k < members.len()
                invariant
                    k <= members.len(),
                    distinct_families(entries_view(out@)),
                    sets_of(entries_view(out@)) == sets_in(members@.take(k as int)),
                decreases members.len() - k,
            {
                assert(members@.take(k + 1).drop_last() =~= members@.take(k as int));
                assert(members@.take(k + 1).last() == members@[k as int]);
                let ghost before = entries_view(out@);
                match &members[k].value {
                    JsonValue::Array(items) => {
                        let codes = codes_from(items);
                        match place_of(&out, &members[k].name) {
                            Some(i) => {
                                out[i].codes = codes;
                                proof {
                                    let after = entries_view(out@);
                                    assert(after =~= before.update(
                                        i as int,
                                        (members@[k as int].name@, codes@),
                                    ));
                                    assert(before[i as int].0 == members@[k as int].name@);
                                    lemma_sets_of_update(before, i as int, codes@);
                                }
                            },
                            None => {
                                out.push(FamilyCodes { family: members[k].name.clone(), codes });
                                proof {
                                    let after = entries_view(out@);
                                    assert(after.drop_last() =~= before);
                                    assert forall|a: int, b: int|
                                        0 <= a < b < after.len() implies after[a].0
                                        != after[b].0 by {
                                        if b < before.len() {
                                            assert(before[a].0 != before[b].0);
                                        } else {
                                            assert(after[a] == out@[a]@);
                                        }
                                    }
                                }
                            },
                        }
                    },
                    _ => {},
                }
                k += 1;
            }
            assert(members@.take(k as int) =~= members@);
        },
        _ => {},
    }
    out
}

/// Reads the result of the link script: an array of strings. Anything else
/// gives no links; in the array what is no string is passed over.
pub fn links_from_json(value: &JsonValue) -> (out: Vec<String>)
    ensures
        out@.map_values(|s: String| s@) == page_links(*value),
{
    let mut out: Vec<String> = Vec::new();
    match value {
        JsonValue::Array(items) => {
            let mut i: usize = 0;
            assert(out@.map_values(|s: String| s@) =~= Seq::empty());
            while i < items.len()
                invariant
                    i <= items.len(),
                    out@.map_values(|s: String| s@) == texts_in(items@.take(i as int)),
                decreases items.len() - i,
            {
                assert(items@.take(i + 1).drop_last() =~= items@.take(i as int));
                assert(items@.take(i + 1).last() == items@[i as int]);
                let ghost before = out@.map_values(|s: String| s@);
                match &items[i] {
                    JsonValue::Text(t) => {
                        out.push(t.clone());
                        assert(out@.map_values(|s: String| s@) =~= before.push(t@));
                    },
                    _ => {},
                }
                i += 1;
            }
            assert(items@.take(i as int) =~= items@);
        },
        _ => {
            assert(out@.map_values(|s: String| s@) =~= Seq::empty());
        },
    }
    out
}

} // verus!
