//! The crawl frontier: which links of a page are worth a visit, each in one
//! normal form, and which page is visited next.
//!
//! Pages wait on a stack, so the crawl goes depth first: of the pages that
//! wait, the one found last is visited first.

use crate::text::{
    append, chars_of, copy_of, find, find_char, first_char, first_occurrence, has_prefix, join,
    joined, lemma_first_char, lemma_joined_chars, lemma_pieces_chars, pieces, same_text, split,
    starts_with, string_of, texts_of,
};
use vstd::prelude::*;
use vstd::slice::slice_subrange;

verus! {

// ---------------------------------------------------------------------------
// The normal form of a URL
// ---------------------------------------------------------------------------

/// `url` without its fragment: the text before the first `#`.
pub open spec fn without_fragment(url: Seq<char>) -> Seq<char> {
    match first_char(url, '#') {
        Some(i) => url.take(i),
        None => url,
    }
}

/// What stands before the query of `url`: the text before the first `?`.
pub open spec fn base_of(url: Seq<char>) -> Seq<char> {
    match first_char(url, '?') {
        Some(i) => url.take(i),
        None => url,
    }
}

/// The query of `url`: the text after the first `?`, if there is one.
pub open spec fn query_of(url: Seq<char>) -> Option<Seq<char>> {
    match first_char(url, '?') {
        Some(i) => Some(url.skip(i + 1)),
        None => None,
    }
}

/// The text that ends a URL's scheme.
pub open spec fn scheme_end() -> Seq<char> {
    seq![':', '/', '/']
}

/// Where the path of `base` begins: at the first `/` after the `://` that ends
/// the scheme, or at the first `/` where there is no scheme.
pub open spec fn path_start(base: Seq<char>) -> Option<int> {
    let from = match first_occurrence(base, scheme_end()) {
        Some(i) => i + 3,
        None => 0,
    };
    match first_char(base.skip(from), '/') {
        Some(j) => Some(from + j),
        None => None,
    }
}

/// `base` without the slash at its end, unless its path is the root.
pub open spec fn without_trailing_slash(base: Seq<char>) -> Seq<char> {
    match path_start(base) {
        Some(p) => if base.len() - p > 1 && base.last() == '/' {
            base.drop_last()
        } else {
            base
        },
        None => base,
    }
}

/// The name of a query parameter: the text before its first `=`.
pub open spec fn param_name(param: Seq<char>) -> Seq<char> {
    match first_char(param, '=') {
        Some(i) => param.take(i),
        None => param,
    }
}

/// `a` comes before `b` in the order of a dictionary, the characters compared
/// by their codepoints.
pub open spec fn text_less(a: Seq<char>, b: Seq<char>) -> bool
    decreases a.len(),
{
    if b.len() == 0 {
        false
    } else if a.len() == 0 {
        true
    } else if a[0] != b[0] {
        (a[0] as u32) < (b[0] as u32)
    } else {
        text_less(a.drop_first(), b.drop_first())
    }
}

/// Where `param` goes among the sorted `params`: behind every parameter whose
/// name does not come after its own.
pub open spec fn param_place(params: Seq<Seq<char>>, param: Seq<char>) -> int
    decreases params.len(),
{
    if params.len() == 0 {
        0
    } else if text_less(param_name(param), param_name(params.last())) {
        param_place(params.drop_last(), param)
    } else {
        params.len() as int
    }
}

/// The parameters among `raws`, sorted by name; those of one name keep their
/// order, and empty ones are left out.
pub open spec fn sorted_params(raws: Seq<Seq<char>>) -> Seq<Seq<char>>
    decreases raws.len(),
{
    if raws.len() == 0 {
        Seq::empty()
    } else {
        let before = sorted_params(raws.drop_last());
        if raws.last().len() == 0 {
            before
        } else {
            before.insert(param_place(before, raws.last()), raws.last())
        }
    }
}

/// The normal form of `url`: without its fragment, without the slash at the
/// end of a path that is not the root, and with its query parameters sorted by
/// name. A query without parameters goes, with its `?`.
pub open spec fn normalized(url: Seq<char>) -> Seq<char> {
    let kept = without_fragment(url);
    let base = without_trailing_slash(base_of(kept));
    match query_of(kept) {
        None => base,
        Some(query) => {
            let params = sorted_params(pieces(query, '&'));
            if params.len() == 0 {
                base
            } else {
                base + seq!['?'] + joined(params, '&')
            }
        },
    }
}

/// `href` is of the origin `origin`: it begins with it, and the origin's host
/// and port end where `origin` ends.
pub open spec fn same_origin(href: Seq<char>, origin: Seq<char>) -> bool {
    &&& has_prefix(href, origin)
    &&& (href.len() == origin.len() || href[origin.len() as int] == '/' || href[origin.len() as int]
        == '?' || href[origin.len() as int] == '#')
}

/// The links to follow among `anchors`: the normal forms of those of the
/// origin, each once, in the order in which they first come.
pub open spec fn gathered(anchors: Seq<Seq<char>>, origin: Seq<char>) -> Seq<Seq<char>>
    decreases anchors.len(),
{
    if anchors.len() == 0 {
        Seq::empty()
    } else {
        let before = gathered(anchors.drop_last(), origin);
        let link = normalized(anchors.last());
        if same_origin(anchors.last(), origin) && !before.contains(link) {
            before.push(link)
        } else {
            before
        }
    }
}

/// The first `limit` of `links`, or all of them where `limit` is 0.
pub open spec fn capped(links: Seq<Seq<char>>, limit: usize) -> Seq<Seq<char>> {
    if limit > 0 && links.len() > limit {
        links.take(limit as int)
    } else {
        links
    }
}

/// The links of a page to put on the frontier.
pub open spec fn frontier(anchors: Seq<Seq<char>>, origin: Seq<char>, limit: usize) -> Seq<
    Seq<char>,
> {
    capped(gathered(anchors, origin), limit)
}

/// Of two texts at most one comes before the other.
pub proof fn lemma_less_one_way(a: Seq<char>, b: Seq<char>)
    requires
        text_less(a, b),
    ensures
        !text_less(b, a),
    decreases a.len(),
{
    if a.len() > 0 && b.len() > 0 && a[0] == b[0] {
        lemma_less_one_way(a.drop_first(), b.drop_first());
    }
}

/// What does not come after `p` comes before whatever `p` comes before.
pub proof fn lemma_less_chain(s: Seq<char>, p: Seq<char>, t: Seq<char>)
    requires
        !text_less(p, s),
        text_less(p, t),
    ensures
        text_less(s, t),
    decreases p.len(),
{
    assert(t.len() > 0);
    if s.len() > 0 {
        assert(p.len() > 0);
        if p[0] == s[0] && p[0] == t[0] {
            lemma_less_chain(s.drop_first(), p.drop_first(), t.drop_first());
        } else if p[0] == s[0] {
            assert((s[0] as u32) < (t[0] as u32));
        } else {
            lemma_codepoints_differ(s[0], p[0]);
            assert((s[0] as u32) < (p[0] as u32));
            assert((s[0] as u32) < (t[0] as u32));
        }
    }
}

/// Two characters that differ have codepoints that differ.
proof fn lemma_codepoints_differ(a: char, b: char)
    requires
        a != b,
    ensures
        a as u32 != b as u32,
{
}

/// The names of `params` are in order: none comes before one that stands
/// before it.
pub open spec fn name_ordered(params: Seq<Seq<char>>) -> bool {
    forall|i: int, j: int|
        0 <= i < j < params.len() ==> !text_less(param_name(params[j]), param_name(params[i]))
}

/// A parameter's place among ordered parameters is behind all whose names do
/// not come after its own and before all others.
pub proof fn lemma_param_place(params: Seq<Seq<char>>, param: Seq<char>)
    requires
        name_ordered(params),
    ensures
        0 <= param_place(params, param) <= params.len(),
        forall|i: int|
            0 <= i < param_place(params, param) ==> !text_less(
                param_name(param),
                param_name(#[trigger] params[i]),
            ),
        forall|i: int|
            param_place(params, param) <= i < params.len() ==> text_less(
                param_name(param),
                param_name(#[trigger] params[i]),
            ),
    decreases params.len(),
{
    if params.len() > 0 {
        let front = params.drop_last();
        assert(name_ordered(front)) by {
            assert forall|i: int, j: int| 0 <= i < j < front.len() implies !text_less(
                param_name(front[j]),
                param_name(front[i]),
            ) by {
                assert(!text_less(param_name(params[j]), param_name(params[i])));
            }
        }
        let name = param_name(param);
        if text_less(name, param_name(params.last())) {
            lemma_param_place(front, param);
            assert forall|i: int| 0 <= i < param_place(params, param) implies !text_less(
                name,
                param_name(#[trigger] params[i]),
            ) by {
                assert(params[i] == front[i]);
            }
            assert forall|i: int| param_place(params, param) <= i < params.len() implies text_less(
                name,
                param_name(#[trigger] params[i]),
            ) by {
                if i < params.len() - 1 {
                    assert(params[i] == front[i]);
                }
            }
        } else {
            let last = params.len() - 1;
            assert forall|i: int| 0 <= i < params.len() implies !text_less(
                name,
                param_name(#[trigger] params[i]),
            ) by {
                if i < last {
                    assert(!text_less(param_name(params[last]), param_name(params[i])));
                    if text_less(name, param_name(params[i])) {
                        lemma_less_chain(param_name(params[last]), name, param_name(params[i]));
                    }
                }
            }
        }
    }
}

/// `sorted_params` sorts: the names of its result are in order, and the result
/// holds the parameters that are not empty, each as often as it came.
pub proof fn lemma_sorted_params(raws: Seq<Seq<char>>)
    ensures
        name_ordered(sorted_params(raws)),
        sorted_params(raws).to_multiset() == raws.filter(|p: Seq<char>| p.len() > 0).to_multiset(),
    decreases raws.len(),
{
    broadcast use vstd::seq_lib::group_to_multiset_ensures;

    let kept = |p: Seq<char>| p.len() > 0;
    if raws.len() == 0 {
        assert(raws.filter(kept) =~= Seq::empty());
    } else {
        let front = raws.drop_last();
        let param = raws.last();
        let before = sorted_params(front);
        lemma_sorted_params(front);
        assert(raws =~= front.push(param));
        front.lemma_filter_push(param, kept);
        if param.len() > 0 {
            lemma_param_place(before, param);
            let k = param_place(before, param);
            let after = before.insert(k, param);
            vstd::seq_lib::to_multiset_insert(before, k, param);
            assert(front.filter(kept).push(param).to_multiset() =~= front.filter(
                kept,
            ).to_multiset().insert(param));
            assert forall|i: int, j: int| 0 <= i < j < after.len() implies !text_less(
                param_name(after[j]),
                param_name(after[i]),
            ) by {
                if j < k {
                    assert(!text_less(param_name(before[j]), param_name(before[i])));
                } else if i < k && j == k {
                    assert(!text_less(param_name(param), param_name(before[i])));
                } else if i < k && j > k {
                    assert(!text_less(param_name(before[j - 1]), param_name(before[i])));
                } else if i == k {
                    assert(text_less(param_name(param), param_name(before[j - 1])));
                    lemma_less_one_way(param_name(param), param_name(before[j - 1]));
                } else {
                    assert(!text_less(param_name(before[j - 1]), param_name(before[i - 1])));
                }
            }
        }
    }
}

/// What `sorted_params` gives was among what it took.
pub proof fn lemma_sorted_params_members(raws: Seq<Seq<char>>)
    ensures
        forall|k: int|
            0 <= k < sorted_params(raws).len() ==> raws.contains(#[trigger] sorted_params(raws)[k]),
    decreases raws.len(),
{
    if raws.len() > 0 {
        let front = raws.drop_last();
        let before = sorted_params(front);
        lemma_sorted_params_members(front);
        assert forall|k: int| 0 <= k < sorted_params(raws).len() implies raws.contains(
            #[trigger] sorted_params(raws)[k],
        ) by {
            let p = sorted_params(raws)[k];
            assert(raws[raws.len() - 1] == raws.last());
            if raws.last().len() == 0 {
                assert(front.contains(before[k]));
                let m = choose|m: int| 0 <= m < front.len() && front[m] == before[k];
                assert(raws[m] == p);
            } else {
                let place = param_place(before, raws.last());
                lemma_place_bounds(before, raws.last());
                if k < place {
                    assert(p == before[k]);
                    assert(front.contains(before[k]));
                    let m = choose|m: int| 0 <= m < front.len() && front[m] == before[k];
                    assert(raws[m] == p);
                } else if k > place {
                    assert(p == before[k - 1]);
                    assert(front.contains(before[k - 1]));
                    let m = choose|m: int| 0 <= m < front.len() && front[m] == before[k - 1];
                    assert(raws[m] == p);
                } else {
                    assert(p == raws.last());
                }
            }
        }
    }
}

/// The normal form of a URL holds no `#`: the fragment is gone.
pub proof fn lemma_normalized_has_no_fragment(url: Seq<char>)
    ensures
        forall|k: int| 0 <= k < normalized(url).len() ==> normalized(url)[k] != '#',
{
    let kept = without_fragment(url);
    lemma_first_char(url, '#');
    assert forall|j: int| 0 <= j < kept.len() implies kept[j] != '#' by {
        assert(kept[j] == url[j]);
    }
    let base = base_of(kept);
    lemma_first_char(kept, '?');
    assert forall|j: int| 0 <= j < base.len() implies base[j] != '#' by {
        assert(base[j] == kept[j]);
    }
    let trimmed_base = without_trailing_slash(base);
    assert forall|j: int| 0 <= j < trimmed_base.len() implies trimmed_base[j] != '#' by {
        assert(trimmed_base[j] == base[j]);
    }
    match query_of(kept) {
        None => {},
        Some(query) => {
            let i = first_char(kept, '?')->0;
            assert forall|j: int| 0 <= j < query.len() implies query[j] != '#' by {
                assert(query[j] == kept[i + 1 + j]);
            }
            let raws = pieces(query, '&');
            let params = sorted_params(raws);
            lemma_pieces_chars(query, '&');
            lemma_sorted_params_members(raws);
            assert forall|a: int, b: int| 0 <= a < params.len() && 0 <= b < params[a].len() implies (
            #[trigger] params[a][b]) != '#' by {
                assert(raws.contains(params[a]));
                let m = choose|m: int| 0 <= m < raws.len() && raws[m] == params[a];
                assert(query.contains(raws[m][b]));
            }
            lemma_joined_chars(params, '&', '#');
            if params.len() > 0 {
                let tail = joined(params, '&');
                assert forall|k: int| 0 <= k < normalized(url).len() implies normalized(url)[k]
                    != '#' by {
                    if k < trimmed_base.len() {
                        assert(normalized(url)[k] == trimmed_base[k]);
                    } else if k > trimmed_base.len() {
                        assert(normalized(url)[k] == tail[k - trimmed_base.len() - 1]);
                    }
                }
            }
        },
    }
}

/// A parameter's place lies within the parameters.
pub proof fn lemma_place_bounds(params: Seq<Seq<char>>, p: Seq<char>)
    ensures
        0 <= param_place(params, p) <= params.len(),
    decreases params.len(),
{
    if params.len() > 0 {
        lemma_place_bounds(params.drop_last(), p);
    }
}

/// The links gathered hold nothing twice, and each is the normal form of an
/// anchor of the origin.
pub proof fn lemma_gathered(anchors: Seq<Seq<char>>, origin: Seq<char>)
    ensures
        gathered(anchors, origin).no_duplicates(),
        gathered(anchors, origin).len() <= anchors.len(),
        forall|k: int|
            0 <= k < gathered(anchors, origin).len() ==> exists|i: int|
                0 <= i < anchors.len() && same_origin(anchors[i], origin) && (
                #[trigger] gathered(anchors, origin)[k]) == normalized(anchors[i]),
        forall|i: int|
            0 <= i < anchors.len() && same_origin(anchors[i], origin) ==> gathered(
                anchors,
                origin,
            ).contains(normalized(#[trigger] anchors[i])),
    decreases anchors.len(),
{
    if anchors.len() > 0 {
        let front = anchors.drop_last();
        let before = gathered(front, origin);
        let after = gathered(anchors, origin);
        let link = normalized(anchors.last());
        lemma_gathered(front, origin);
        assert forall|k: int| 0 <= k < after.len() implies exists|i: int|
            0 <= i < anchors.len() && same_origin(anchors[i], origin) && (#[trigger] after[k])
                == normalized(anchors[i]) by {
            if k < before.len() {
                let i = choose|i: int|
                    0 <= i < front.len() && same_origin(front[i], origin) && before[k]
                        == normalized(front[i]);
                assert(anchors[i] == front[i]);
            } else {
                assert(after[k] == normalized(anchors[anchors.len() - 1]));
            }
        }
        assert forall|i: int|
            0 <= i < anchors.len() && same_origin(anchors[i], origin) implies after.contains(
            normalized(#[trigger] anchors[i]),
        ) by {
            if i < anchors.len() - 1 {
                assert(front[i] == anchors[i]);
                let k = choose|k: int| 0 <= k < before.len() && before[k] == normalized(front[i]);
                assert(after[k] == normalized(anchors[i]));
            } else if before.contains(link) {
                let k = choose|k: int| 0 <= k < before.len() && before[k] == link;
                assert(after[k] == link);
            } else {
                assert(after[before.len() as int] == link);
            }
        }
    }
}

/// The links of a page hold nothing twice and, under a limit, are no more than
/// the limit.
pub proof fn lemma_frontier(anchors: Seq<Seq<char>>, origin: Seq<char>, limit: usize)
    ensures
        frontier(anchors, origin, limit).no_duplicates(),
        limit > 0 ==> frontier(anchors, origin, limit).len() <= limit,
        forall|k: int|
            0 <= k < frontier(anchors, origin, limit).len() ==> gathered(anchors, origin).contains(
                #[trigger] frontier(anchors, origin, limit)[k],
            ),
{
    lemma_gathered(anchors, origin);
    let all = gathered(anchors, origin);
    let kept = frontier(anchors, origin, limit);
    assert forall|k: int| 0 <= k < kept.len() implies all.contains(#[trigger] kept[k]) by {
        assert(kept[k] == all[k]);
    }
}

/// Whether `a` comes before `b` in the order of a dictionary.
pub fn less(a: &[char], b: &[char]) -> (r: bool)
    ensures
        r == text_less(a@, b@),
{
    let mut i: usize = 0;
    assert(a@.skip(0) =~= a@);
    assert(b@.skip(0) =~= b@);
    loop
        invariant
            i <= a.len(),
            i <= b.len(),
            text_less(a@, b@) == text_less(a@.skip(i as int), b@.skip(i as int)),
        decreases a.len() - i,
    {
        if i >= b.len() {
            return false;
        }
        if i >= a.len() {
            return true;
        }
        assert(a@.skip(i as int)[0] == a@[i as int]);
        assert(b@.skip(i as int)[0] == b@[i as int]);
        if a[i] != b[i] {
            return (a[i] as u32) < (b[i] as u32);
        }
        assert(a@.skip(i as int).drop_first() =~= a@.skip(i + 1));
        assert(b@.skip(i as int).drop_first() =~= b@.skip(i + 1));
        i += 1;
    }
}

/// The name of a query parameter.
pub fn name_of(param: &[char]) -> (name: &[char])
    ensures
        name@ == param_name(param@),
{
    match find_char(param, '=') {
        Some(i) => {
            assert(param@.take(i as int) =~= param@.subrange(0, i as int));
            slice_subrange(param, 0, i)
        },
        None => param,
    }
}

/// Puts `param` in its place among the sorted `params`.
pub fn insert_param(params: &mut Vec<Vec<char>>, param: &[char])
    ensures
        texts_of(final(params)@) == texts_of(old(params)@).insert(
            param_place(texts_of(old(params)@), param@),
            param@,
        ),
{
    let ghost before = texts_of(params@);
    let name = name_of(param);
    let mut k: usize = params.len();
    assert(before.take(k as int) =~= before);
    while k > 0 && less(name, name_of(params[k - 1].as_slice()))
        invariant
            k <= params.len(),
            params@ == old(params)@,
            before == texts_of(params@),
            name@ == param_name(param@),
            param_place(before, param@) == param_place(before.take(k as int), param@),
        decreases k,
    {
        assert(before.take(k as int).last() == params@[k - 1]@);
        assert(before.take(k as int).drop_last() =~= before.take(k - 1));
        k -= 1;
    }
    assert(param_place(before, param@) == k) by {
        if k > 0 {
            assert(before.take(k as int).last() == params@[k - 1]@);
        }
    }
    params.insert(k, copy_of(param));
    assert(texts_of(params@) =~= before.insert(k as int, param@));
}

/// The parameters of the query `query`, sorted by name.
pub fn sort_params(query: &[char]) -> (params: Vec<Vec<char>>)
    ensures
        texts_of(params@) == sorted_params(pieces(query@, '&')),
{
    let raws = split(query, '&');
    let ghost all = pieces(query@, '&');
    let mut params: Vec<Vec<char>> = Vec::new();
    let mut i: usize = 0;
    assert(texts_of(params@) =~= Seq::empty());
    while i < raws.len()
        invariant
            i <= raws.len(),
            raws@.len() == all.len(),
            forall|j: int| 0 <= j < raws@.len() ==> raws@[j]@ == all[j],
            texts_of(params@) == sorted_params(all.take(i as int)),
        decreases raws.len() - i,
    {
        assert(all.take(i + 1).drop_last() =~= all.take(i as int));
        assert(all.take(i + 1).last() == all[i as int]);
        if raws[i].len() > 0 {
            insert_param(&mut params, raws[i]);
        }
        i += 1;
    }
    assert(all.take(i as int) =~= all);
    params
}

/// `base` without the slash at its end, unless its path is the root.
pub fn trim_trailing_slash(base: &[char]) -> (out: &[char])
    ensures
        out@ == without_trailing_slash(base@),
{
    let marker: [char; 3] = [':', '/', '/'];
    assert(marker@ =~= scheme_end());
    let n: usize = base.len();
    let from: usize = match find(base, marker.as_slice()) {
        Some(i) => i + 3,
        None => 0,
    };
    let tail = slice_subrange(base, from, n);
    assert(base@.skip(from as int) =~= tail@);
    match find_char(tail, '/') {
        Some(j) => {
            let p: usize = from + j;
            if n - p > 1 && base[n - 1] == '/' {
                assert(base@.drop_last() =~= base@.subrange(0, n - 1));
                slice_subrange(base, 0, n - 1)
            } else {
                base
            }
        },
        None => base,
    }
}

/// The normal form of `url`.
pub fn normalize(url: &[char]) -> (out: Vec<char>)
    ensures
        out@ == normalized(url@),
{
    let kept: &[char] = match find_char(url, '#') {
        Some(i) => {
            assert(url@.take(i as int) =~= url@.subrange(0, i as int));
            slice_subrange(url, 0, i)
        },
        None => url,
    };
    match find_char(kept, '?') {
        Some(i) => {
            let n: usize = kept.len();
            assert(kept@.take(i as int) =~= kept@.subrange(0, i as int));
            assert(kept@.skip(i + 1) =~= kept@.subrange(i + 1, n as int));
            let base = trim_trailing_slash(slice_subrange(kept, 0, i));
            let params = sort_params(slice_subrange(kept, i + 1, n));
            let mut out = copy_of(base);
            if params.len() > 0 {
                out.push('?');
                let query = join(&params, '&');
                append(&mut out, query.as_slice());
            }
            out
        },
        None => copy_of(trim_trailing_slash(kept)),
    }
}

/// The normal form of a URL, in which two URLs of one page are alike: the
/// fragment goes, the slash at the end of a path that is not the root goes,
/// and the query parameters stand sorted by name.
pub fn normalize_url(url: &str) -> (out: String)
    ensures
        out@ == normalized(url@),
{
    let chars = chars_of(url);
    let out = normalize(chars.as_slice());
    string_of(out.as_slice())
}

/// Whether `href` is of the origin `origin`.
pub fn is_same_origin(href: &[char], origin: &[char]) -> (same: bool)
    ensures
        same == same_origin(href@, origin@),
{
    if !starts_with(href, origin) {
        return false;
    }
    let n: usize = origin.len();
    if href.len() == n {
        return true;
    }
    let next = href[n];
    next == '/' || next == '?' || next == '#'
}

/// Whether `links` holds the text `link`.
fn holds(links: &Vec<Vec<char>>, link: &[char]) -> (found: bool)
    ensures
        found == texts_of(links@).contains(link@),
{
    let mut i: usize = 0;
    while i < links.len()
        invariant
            i <= links.len(),
            forall|j: int| 0 <= j < i ==> texts_of(links@)[j] != link@,
        decreases links.len() - i,
    {
        if same_text(links[i].as_slice(), link) {
            assert(texts_of(links@)[i as int] == link@);
            return true;
        }
        i += 1;
    }
    false
}

/// The links of a page to put on the frontier: of the anchors `anchors`, those
/// of the origin `origin`, each in its normal form and once, in the order in
/// which they first come; and of these the first `limit`, or all where `limit`
/// is 0.
pub fn frontier_links(anchors: &Vec<String>, origin: &str, limit: usize) -> (out: Vec<String>)
    ensures
        out@.map_values(|s: String| s@) == frontier(
            anchors@.map_values(|s: String| s@),
            origin@,
            limit,
        ),
{
    let ghost all = anchors@.map_values(|s: String| s@);
    let from = chars_of(origin);
    let mut links: Vec<Vec<char>> = Vec::new();
    let mut i: usize = 0;
    assert(texts_of(links@) =~= Seq::empty());
    while i < anchors.len()
        invariant
            i <= anchors.len(),
            from@ == origin@,
            all == anchors@.map_values(|s: String| s@),
            texts_of(links@) == gathered(all.take(i as int), origin@),
        decreases anchors.len() - i,
    {
        assert(all.take(i + 1).drop_last() =~= all.take(i as int));
        assert(all.take(i + 1).last() == anchors@[i as int]@);
        let href = chars_of(anchors[i].as_str());
        if is_same_origin(href.as_slice(), from.as_slice()) {
            let link = normalize(href.as_slice());
            if !holds(&links, link.as_slice()) {
                let ghost before = texts_of(links@);
                links.push(link);
                assert(texts_of(links@) =~= before.push(link@));
            }
        }
        i += 1;
    }
    assert(all.take(i as int) =~= all);
    let keep: usize = if limit > 0 && links.len() > limit {
        limit
    } else {
        links.len()
    };
    let ghost wanted = frontier(all, origin@, limit);
    assert(wanted =~= texts_of(links@).take(keep as int));
    let mut out: Vec<String> = Vec::new();
    let mut k: usize = 0;
    assert(out@.map_values(|s: String| s@) =~= wanted.take(0));
    while k < keep
        invariant
            k <= keep <= links.len(),
            wanted == texts_of(links@).take(keep as int),
            out@.map_values(|s: String| s@) == wanted.take(k as int),
        decreases keep - k,
    {
        let ghost before = out@.map_values(|s: String| s@);
        out.push(string_of(links[k].as_slice()));
        assert(out@.map_values(|s: String| s@) =~= before.push(links@[k as int]@));
        assert(wanted.take(k + 1) =~= wanted.take(k as int).push(links@[k as int]@));
        k += 1;
    }
    assert(wanted.take(k as int) =~= wanted);
    out
}

// ---------------------------------------------------------------------------
// The state of a crawl
// ---------------------------------------------------------------------------

/// The texts of `urls`, in order.
pub open spec fn urls_view(urls: Seq<String>) -> Seq<Seq<char>> {
    urls.map_values(|u: String| u@)
}

/// The place in `pending` of the page to visit next: the last one that is not
/// among `visited`.
pub open spec fn next_unvisited(pending: Seq<Seq<char>>, visited: Seq<Seq<char>>) -> Option<int>
    decreases pending.len(),
{
    if pending.len() == 0 {
        None
    } else if !visited.contains(pending.last()) {
        Some(pending.len() - 1)
    } else {
        next_unvisited(pending.drop_last(), visited)
    }
}

/// Those of `links` that are not among `visited`, in order.
pub open spec fn unvisited(links: Seq<Seq<char>>, visited: Seq<Seq<char>>) -> Seq<Seq<char>>
    decreases links.len(),
{
    if links.len() == 0 {
        Seq::empty()
    } else {
        let before = unvisited(links.drop_last(), visited);
        if visited.contains(links.last()) {
            before
        } else {
            before.push(links.last())
        }
    }
}

/// How many links the page just visited may add, after `visited` visits under
/// the limit `limit`: as many as there are visits left, and `None`, which
/// means that its links are not looked for, where the limit is 0 or reached.
pub open spec fn budget(visited: nat, limit: usize) -> Option<usize> {
    if limit > 0 && visited < limit {
        Some((limit - visited) as usize)
    } else {
        None
    }
}

/// The page just taken is the only one of the session: no other has been
/// visited, and no unvisited page waits.
pub open spec fn sole_page(visited: Seq<Seq<char>>, pending: Seq<Seq<char>>) -> bool {
    visited.len() <= 1 && next_unvisited(pending, visited) is None
}

/// The state of a crawl: the pages visited, the pages that wait, and the
/// number of visits after which no more links are followed.
#[derive(Debug)]
pub struct CrawlState {
    visited: Vec<String>,
    pending: Vec<String>,
    spider_limit: usize,
}

/// Whether `urls` holds `url`.
fn holds_url(urls: &Vec<String>, url: &String) -> (found: bool)
    ensures
        found == urls_view(urls@).contains(url@),
{
    let mut i: usize = 0;
    while i < urls.len()
        invariant
            i <= urls.len(),
            forall|j: int| 0 <= j < i ==> urls_view(urls@)[j] != url@,
        decreases urls.len() - i,
    {
        if urls[i] == *url {
            assert(urls_view(urls@)[i as int] == url@);
            return true;
        }
        i += 1;
    }
    false
}

impl CrawlState {
    /// The pages visited, in the order of the visits.
    pub closed spec fn visited(&self) -> Seq<Seq<char>> {
        urls_view(self.visited@)
    }

    /// The pages that wait, the one to visit next at the end.
    pub closed spec fn pending(&self) -> Seq<Seq<char>> {
        urls_view(self.pending@)
    }

    /// The number of visits after which no more links are followed; 0 where
    /// none are followed at all.
    pub closed spec fn limit(&self) -> usize {
        self.spider_limit
    }

    /// No page has been visited twice.
    #[verifier::type_invariant]
    spec fn wf(self) -> bool {
        urls_view(self.visited@).no_duplicates()
    }

    /// A crawl that starts from `seeds`, of which the last is visited first.
    pub fn new(seeds: Vec<String>, spider_limit: usize) -> (state: CrawlState)
        ensures
            state.visited() == Seq::<Seq<char>>::empty(),
            state.pending() == urls_view(seeds@),
            state.limit() == spider_limit,
    {
        let visited: Vec<String> = Vec::new();
        assert(urls_view(visited@) =~= Seq::empty());
        CrawlState { visited, pending: seeds, spider_limit }
    }

    /// The page to visit next: the one that has waited the shortest and has
    /// not been visited. It counts as visited from now on; it and the pages
    /// behind it, which were visited already, wait no longer. `None` where no
    /// page that waits is unvisited: the crawl is over.
    pub fn next_url(&mut self) -> (url: Option<String>)
        ensures
            final(self).limit() == old(self).limit(),
            final(self).visited().no_duplicates(),
            match next_unvisited(old(self).pending(), old(self).visited()) {
                Some(i) => {
                    &&& 0 <= i < old(self).pending().len()
                    &&& url matches Some(u) && u@ == old(self).pending()[i]
                    &&& final(self).pending() == old(self).pending().take(i)
                    &&& final(self).visited() == old(self).visited().push(old(self).pending()[i])
                },
                None => {
                    &&& url is None
                    &&& final(self).pending() == Seq::<Seq<char>>::empty()
                    &&& final(self).visited() == old(self).visited()
                },
            },
    {
        proof {
            use_type_invariant(&*self);
        }
        let ghost waiting = urls_view(self.pending@);
        let ghost seen = urls_view(self.visited@);
        let mut pending: Vec<String> = Vec::new();
        core::mem::swap(&mut pending, &mut self.pending);
        assert(waiting.take(waiting.len() as int) =~= waiting);
        loop
            invariant
                self.spider_limit == old(self).spider_limit,
                self.visited@ == old(self).visited@,
                waiting == urls_view(old(self).pending@),
                seen == urls_view(old(self).visited@),
                seen.no_duplicates(),
                pending@.len() <= waiting.len(),
                urls_view(pending@) == waiting.take(pending@.len() as int),
                next_unvisited(waiting, seen) == next_unvisited(urls_view(pending@), seen),
            decreases pending@.len(),
        {
            let ghost before = urls_view(pending@);
            match pending.pop() {
                None => {
                    assert(urls_view(pending@) =~= Seq::empty());
                    self.pending = pending;
                    return None;
                },
                Some(url) => {
                    assert(before.last() == url@);
                    assert(urls_view(pending@) =~= before.drop_last());
                    assert(before.drop_last() =~= waiting.take(pending@.len() as int));
                    if !holds_url(&self.visited, &url) {
                        let mut visited: Vec<String> = Vec::new();
                        core::mem::swap(&mut visited, &mut self.visited);
                        visited.push(url.clone());
                        assert(urls_view(visited@) =~= seen.push(url@));
                        self.visited = visited;
                        self.pending = pending;
                        return Some(url);
                    }
                },
            }
        }
    }

    /// How many links the page just visited may add to the frontier; `None`
    /// where its links are not to be looked for.
    pub fn link_budget(&self) -> (left: Option<usize>)
        ensures
            left == budget(self.visited().len(), self.limit()),
    {
        if self.spider_limit > 0 && self.visited.len() < self.spider_limit {
            Some(self.spider_limit - self.visited.len())
        } else {
            None
        }
    }

    /// Lets those of `links` wait that have not been visited, the last of them
    /// to be visited first.
    pub fn add_links(&mut self, links: Vec<String>)
        ensures
            final(self).limit() == old(self).limit(),
            final(self).visited() == old(self).visited(),
            final(self).pending() == old(self).pending() + unvisited(
                urls_view(links@),
                old(self).visited(),
            ),
    {
        proof {
            use_type_invariant(&*self);
        }
        let ghost all = urls_view(links@);
        let ghost waiting = urls_view(self.pending@);
        let ghost seen = urls_view(self.visited@);
        let mut pending: Vec<String> = Vec::new();
        core::mem::swap(&mut pending, &mut self.pending);
        let mut i: usize = 0;
        assert(waiting + unvisited(all.take(0), seen) =~= waiting);
        while i < links.len()
            invariant
                i <= links.len(),
                self.spider_limit == old(self).spider_limit,
                self.visited@ == old(self).visited@,
                all == urls_view(links@),
                waiting == urls_view(old(self).pending@),
                seen == urls_view(old(self).visited@),
                urls_view(pending@) == waiting + unvisited(all.take(i as int), seen),
            decreases links.len() - i,
        {
            assert(all.take(i + 1).drop_last() =~= all.take(i as int));
            assert(all.take(i + 1).last() == links@[i as int]@);
            if !holds_url(&self.visited, &links[i]) {
                let ghost before = urls_view(pending@);
                pending.push(links[i].clone());
                assert(urls_view(pending@) =~= before.push(links@[i as int]@));
                assert(waiting + unvisited(all.take(i as int), seen).push(links@[i as int]@)
                    =~= before.push(links@[i as int]@));
            }
            i += 1;
        }
        assert(all.take(i as int) =~= all);
        self.pending = pending;
    }

    /// Whether a failure at the page just taken ends the session. It does
    /// where that page is the only one of the session: no other has been
    /// visited and none waits. Else the page is passed over and the crawl goes
    /// on.
    pub fn failure_is_fatal(&self) -> (fatal: bool)
        ensures
            fatal == sole_page(self.visited(), self.pending()),
    {
        if self.visited.len() > 1 {
            return false;
        }
        let ghost waiting = urls_view(self.pending@);
        let ghost seen = urls_view(self.visited@);
        let mut k: usize = self.pending.len();
        assert(waiting.take(k as int) =~= waiting);
        while k > 0
            invariant
                k <= self.pending.len(),
                waiting == urls_view(self.pending@),
                seen == urls_view(self.visited@),
                next_unvisited(waiting, seen) == next_unvisited(waiting.take(k as int), seen),
            decreases k,
        {
            assert(waiting.take(k as int).last() == self.pending@[k - 1]@);
            assert(waiting.take(k as int).drop_last() =~= waiting.take(k - 1));
            if !holds_url(&self.visited, &self.pending[k - 1]) {
                return false;
            }
            k -= 1;
        }
        true
    }

    /// The number of pages visited.
    pub fn visited_count(&self) -> (n: usize)
        ensures
            n == self.visited().len(),
    {
        self.visited.len()
    }
}

} // verus!
