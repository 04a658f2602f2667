//! Character sequences: the operations on text that the rest of the library is
//! written in, each with its meaning as a function on `Seq<char>`.

use vstd::prelude::*;
use vstd::slice::slice_subrange;

verus! {

/// `String::push` appends one character to the end of the string.
pub assume_specification[ String::push ](s: &mut String, ch: char)
    ensures
        final(s)@ == old(s)@.push(ch),
;

/// `c` is whitespace: it has the Unicode property White_Space, as
/// `char::is_whitespace` has it.
pub open spec fn is_whitespace(c: char) -> bool {
    let n = c as u32;
    ||| 0x09 <= n <= 0x0D
    ||| n == 0x20
    ||| n == 0x85
    ||| n == 0xA0
    ||| n == 0x1680
    ||| 0x2000 <= n <= 0x200A
    ||| n == 0x2028
    ||| n == 0x2029
    ||| n == 0x202F
    ||| n == 0x205F
    ||| n == 0x3000
}

/// Whether `c` is whitespace.
pub fn whitespace(c: char) -> (b: bool)
    ensures
        b == is_whitespace(c),
{
    let n: u32 = c as u32;
    (0x09 <= n && n <= 0x0D) || n == 0x20 || n == 0x85 || n == 0xA0 || n == 0x1680 || (0x2000 <= n
        && n <= 0x200A) || n == 0x2028 || n == 0x2029 || n == 0x202F || n == 0x205F || n == 0x3000
}

/// What `str::to_lowercase` makes of the text `s`.
pub uninterp spec fn lowercase_of(s: Seq<char>) -> Seq<char>;

/// Calls `str::to_lowercase` on the text made of `s`; nothing is claimed beyond
/// the name of its result.
#[verifier::external_body]
pub(crate) fn lowercase(s: &[char]) -> (out: Vec<char>)
    ensures
        out@ == lowercase_of(s@),
{
    let text: String = s.iter().collect();
    text.to_lowercase().chars().collect()
}

/// The characters of `s`, in order.
pub fn chars_of(s: &str) -> (out: Vec<char>)
    ensures
        out@ == s@,
{
    broadcast use vstd::string::group_string_axioms;

    let mut out: Vec<char> = Vec::new();
    let chars = s.chars();
    for c in it: chars
        invariant
            it.seq() == s@,
            out@ == s@.take(it.index()),
    {
        out.push(c);
    }
    out
}

/// The string made of the characters `chars`.
pub fn string_of(chars: &[char]) -> (out: String)
    ensures
        out@ == chars@,
{
    let mut out = String::new();
    let mut i: usize = 0;
    while i < chars.len()
        invariant
            i <= chars.len(),
            out@ == chars@.take(i as int),
        decreases chars.len() - i,
    {
        out.push(chars[i]);
        i += 1;
    }
    out
}

/// An owned copy of `chars`.
pub fn copy_of(chars: &[char]) -> (out: Vec<char>)
    ensures
        out@ == chars@,
{
    let mut out: Vec<char> = Vec::new();
    let mut i: usize = 0;
    while i < chars.len()
        invariant
            i <= chars.len(),
            out@ == chars@.take(i as int),
        decreases chars.len() - i,
    {
        out.push(chars[i]);
        i += 1;
    }
    out
}

/// Appends the characters `tail` to `out`.
pub fn append(out: &mut Vec<char>, tail: &[char])
    ensures
        final(out)@ == old(out)@ + tail@,
{
    let mut i: usize = 0;
    while i < tail.len()
        invariant
            i <= tail.len(),
            out@ == old(out)@ + tail@.take(i as int),
        decreases tail.len() - i,
    {
        out.push(tail[i]);
        i += 1;
    }
}

/// Whether two texts are the same.
pub fn same_text(a: &[char], b: &[char]) -> (same: bool)
    ensures
        same == (a@ == b@),
{
    if a.len() != b.len() {
        return false;
    }
    let mut i: usize = 0;
    while i < a.len()
        invariant
            i <= a.len(),
            a.len() == b.len(),
            forall|j: int| 0 <= j < i ==> a@[j] == b@[j],
        decreases a.len() - i,
    {
        if a[i] != b[i] {
            return false;
        }
        i += 1;
    }
    assert(a@ =~= b@);
    true
}

// ---------------------------------------------------------------------------
// Searching
// ---------------------------------------------------------------------------

/// `i` is the position of the first `c` in `s`.
pub open spec fn is_first_char(s: Seq<char>, c: char, i: int) -> bool {
    &&& 0 <= i < s.len()
    &&& s[i] == c
    &&& forall|j: int| 0 <= j < i ==> s[j] != c
}

/// The position of the first `c` in `s`, if there is one.
pub open spec fn first_char(s: Seq<char>, c: char) -> Option<int> {
    if exists|i: int| is_first_char(s, c, i) {
        Some(choose|i: int| is_first_char(s, c, i))
    } else {
        None
    }
}

/// A position that is the first `c` is the one `first_char` names.
pub proof fn lemma_first_char_at(s: Seq<char>, c: char, i: int)
    requires
        is_first_char(s, c, i),
    ensures
        first_char(s, c) == Some(i),
{
    let k = choose|k: int| is_first_char(s, c, k);
    assert(is_first_char(s, c, k));
    if k < i {
        assert(s[k] != c);
    } else if i < k {
        assert(s[i] != c);
    }
}

/// Where no character of `s` is `c`, `first_char` finds none.
pub proof fn lemma_first_char_absent(s: Seq<char>, c: char)
    requires
        forall|j: int| 0 <= j < s.len() ==> s[j] != c,
    ensures
        first_char(s, c) is None,
{
}

/// What `first_char` names is a first occurrence, and where it names none, no
/// character of `s` is `c`.
pub proof fn lemma_first_char(s: Seq<char>, c: char)
    ensures
        match first_char(s, c) {
            Some(i) => is_first_char(s, c, i),
            None => forall|j: int| 0 <= j < s.len() ==> s[j] != c,
        },
{
    if exists|i: int| is_first_char(s, c, i) {
    } else {
        assert forall|j: int| 0 <= j < s.len() implies s[j] != c by {
            if s[j] == c {
                lemma_earliest_char(s, c, j);
            }
        }
    }
}

/// Where `c` stands in `s` at all, it stands somewhere first.
proof fn lemma_earliest_char(s: Seq<char>, c: char, j: int)
    requires
        0 <= j < s.len(),
        s[j] == c,
    ensures
        exists|i: int| is_first_char(s, c, i),
    decreases j,
{
    if forall|k: int| 0 <= k < j ==> s[k] != c {
        assert(is_first_char(s, c, j));
    } else {
        let k = choose|k: int| 0 <= k < j && s[k] == c;
        lemma_earliest_char(s, c, k);
    }
}

/// The position of the first `c` in `s`.
pub fn find_char(s: &[char], c: char) -> (found: Option<usize>)
    ensures
        found is Some <==> first_char(s@, c) is Some,
        found matches Some(i) ==> i < s@.len() && first_char(s@, c) == Some(i as int)
            && is_first_char(s@, c, i as int),
        found is None ==> forall|j: int| 0 <= j < s@.len() ==> s@[j] != c,
{
    let mut i: usize = 0;
    while i < s.len()
        invariant
            i <= s.len(),
            forall|j: int| 0 <= j < i ==> s@[j] != c,
        decreases s.len() - i,
    {
        if s[i] == c {
            proof {
                lemma_first_char_at(s@, c, i as int);
            }
            return Some(i);
        }
        i += 1;
    }
    proof {
        lemma_first_char_absent(s@, c);
    }
    None
}

/// The text `pat` stands in `s` at position `i`.
pub open spec fn occurs_at(s: Seq<char>, pat: Seq<char>, i: int) -> bool {
    &&& 0 <= i
    &&& i + pat.len() <= s.len()
    &&& s.subrange(i, i + pat.len()) == pat
}

/// `i` is the first position at which `pat` stands in `s`.
pub open spec fn is_first_occurrence(s: Seq<char>, pat: Seq<char>, i: int) -> bool {
    &&& occurs_at(s, pat, i)
    &&& forall|j: int| 0 <= j < i ==> !occurs_at(s, pat, j)
}

/// The first position at which `pat` stands in `s`, if it does anywhere.
pub open spec fn first_occurrence(s: Seq<char>, pat: Seq<char>) -> Option<int> {
    if exists|i: int| is_first_occurrence(s, pat, i) {
        Some(choose|i: int| is_first_occurrence(s, pat, i))
    } else {
        None
    }
}

/// `pat` stands somewhere in `s`.
pub open spec fn contains_text(s: Seq<char>, pat: Seq<char>) -> bool {
    exists|i: int| occurs_at(s, pat, i)
}

/// A position that is the first occurrence is the one `first_occurrence` names.
pub proof fn lemma_first_occurrence_at(s: Seq<char>, pat: Seq<char>, i: int)
    requires
        is_first_occurrence(s, pat, i),
    ensures
        first_occurrence(s, pat) == Some(i),
        contains_text(s, pat),
{
    let k = choose|k: int| is_first_occurrence(s, pat, k);
    assert(is_first_occurrence(s, pat, k));
    if k < i {
        assert(!occurs_at(s, pat, k));
    } else if i < k {
        assert(!occurs_at(s, pat, i));
    }
}

/// Where `pat` stands nowhere in `s`, `first_occurrence` finds none.
pub proof fn lemma_first_occurrence_absent(s: Seq<char>, pat: Seq<char>)
    requires
        forall|j: int| 0 <= j <= s.len() - pat.len() ==> !occurs_at(s, pat, j),
    ensures
        first_occurrence(s, pat) is None,
        !contains_text(s, pat),
{
}

/// Whether `pat` stands in `s` at position `i`.
pub fn matches_at(s: &[char], pat: &[char], i: usize) -> (b: bool)
    ensures
        b == occurs_at(s@, pat@, i as int),
{
    if pat.len() > s.len() || i > s.len() - pat.len() {
        return false;
    }
    let mut k: usize = 0;
    while k < pat.len()
        invariant
            k <= pat.len(),
            i + pat.len() <= s.len(),
            forall|j: int| 0 <= j < k ==> s@[i + j] == pat@[j],
        decreases pat.len() - k,
    {
        if s[i + k] != pat[k] {
            assert(s@.subrange(i as int, i + pat@.len())[k as int] != pat@[k as int]);
            return false;
        }
        k += 1;
    }
    assert(s@.subrange(i as int, i + pat@.len()) =~= pat@);
    true
}

/// The first position at which `pat` stands in `s`.
pub fn find(s: &[char], pat: &[char]) -> (found: Option<usize>)
    ensures
        found is Some <==> contains_text(s@, pat@),
        found matches Some(i) ==> first_occurrence(s@, pat@) == Some(i as int)
            && is_first_occurrence(s@, pat@, i as int),
        found is None ==> first_occurrence(s@, pat@) is None,
{
    if pat.len() > s.len() {
        proof {
            lemma_first_occurrence_absent(s@, pat@);
        }
        return None;
    }
    let last: usize = s.len() - pat.len();
    let mut i: usize = 0;
    loop
        invariant
            i <= last,
            last == s.len() - pat.len(),
            forall|j: int| 0 <= j < i ==> !occurs_at(s@, pat@, j),
        decreases last - i,
    {
        if matches_at(s, pat, i) {
            proof {
                lemma_first_occurrence_at(s@, pat@, i as int);
            }
            return Some(i);
        }
        if i == last {
            proof {
                lemma_first_occurrence_absent(s@, pat@);
            }
            return None;
        }
        i += 1;
    }
}

/// `s` begins with `prefix`.
pub open spec fn has_prefix(s: Seq<char>, prefix: Seq<char>) -> bool {
    occurs_at(s, prefix, 0)
}

/// Whether `s` begins with `prefix`.
pub fn starts_with(s: &[char], prefix: &[char]) -> (b: bool)
    ensures
        b == has_prefix(s@, prefix@),
{
    matches_at(s, prefix, 0)
}

// ---------------------------------------------------------------------------
// Trimming
// ---------------------------------------------------------------------------

/// `s` without the whitespace it begins with.
pub open spec fn trimmed_start(s: Seq<char>) -> Seq<char>
    decreases s.len(),
{
    if s.len() > 0 && is_whitespace(s[0]) {
        trimmed_start(s.drop_first())
    } else {
        s
    }
}

/// `s` without the whitespace it ends with.
pub open spec fn trimmed_end(s: Seq<char>) -> Seq<char>
    decreases s.len(),
{
    if s.len() > 0 && is_whitespace(s.last()) {
        trimmed_end(s.drop_last())
    } else {
        s
    }
}

/// `s` without the whitespace at either end.
pub open spec fn trimmed(s: Seq<char>) -> Seq<char> {
    trimmed_end(trimmed_start(s))
}

/// `s` without the run of `c` it begins with.
pub open spec fn stripped_start(s: Seq<char>, c: char) -> Seq<char>
    decreases s.len(),
{
    if s.len() > 0 && s[0] == c {
        stripped_start(s.drop_first(), c)
    } else {
        s
    }
}

/// `s` without the run of `c` it ends with.
pub open spec fn stripped_end(s: Seq<char>, c: char) -> Seq<char>
    decreases s.len(),
{
    if s.len() > 0 && s.last() == c {
        stripped_end(s.drop_last(), c)
    } else {
        s
    }
}

/// `s` without the runs of `c` at either end.
pub open spec fn stripped(s: Seq<char>, c: char) -> Seq<char> {
    stripped_end(stripped_start(s, c), c)
}

/// `s` without the whitespace at either end.
pub fn trim(s: &[char]) -> (out: &[char])
    ensures
        out@ == trimmed(s@),
{
    let mut a: usize = 0;
    assert(s@.skip(0) =~= s@);
    while a < s.len() && whitespace(s[a])
        invariant
            a <= s.len(),
            trimmed_start(s@) == trimmed_start(s@.skip(a as int)),
        decreases s.len() - a,
    {
        assert(s@.skip(a as int).drop_first() =~= s@.skip(a + 1));
        a += 1;
    }
    let mut b: usize = s.len();
    assert(s@.skip(a as int) =~= s@.subrange(a as int, b as int));
    while b > a && whitespace(s[b - 1])
        invariant
            a <= b <= s.len(),
            trimmed(s@) == trimmed_end(s@.subrange(a as int, b as int)),
        decreases b,
    {
        assert(s@.subrange(a as int, b as int).drop_last() =~= s@.subrange(a as int, b - 1));
        b -= 1;
    }
    slice_subrange(s, a, b)
}

/// `s` without the runs of `c` at either end.
pub fn strip_char(s: &[char], c: char) -> (out: &[char])
    ensures
        out@ == stripped(s@, c),
{
    let mut a: usize = 0;
    assert(s@.skip(0) =~= s@);
    while a < s.len() && s[a] == c
        invariant
            a <= s.len(),
            stripped_start(s@, c) == stripped_start(s@.skip(a as int), c),
        decreases s.len() - a,
    {
        assert(s@.skip(a as int).drop_first() =~= s@.skip(a + 1));
        a += 1;
    }
    let mut b: usize = s.len();
    assert(s@.skip(a as int) =~= s@.subrange(a as int, b as int));
    while b > a && s[b - 1] == c
        invariant
            a <= b <= s.len(),
            stripped(s@, c) == stripped_end(s@.subrange(a as int, b as int), c),
        decreases b,
    {
        assert(s@.subrange(a as int, b as int).drop_last() =~= s@.subrange(a as int, b - 1));
        b -= 1;
    }
    slice_subrange(s, a, b)
}

// ---------------------------------------------------------------------------
// Splitting
// ---------------------------------------------------------------------------

/// The pieces into which the separator `d` cuts `s`: always at least one, and
/// an empty one wherever two separators meet or one stands at an end.
pub open spec fn pieces(s: Seq<char>, d: char) -> Seq<Seq<char>>
    decreases s.len(),
{
    match first_char(s, d) {
        Some(i) => if 0 <= i < s.len() {
            seq![s.take(i)] + pieces(s.skip(i + 1), d)
        } else {
            seq![s]
        },
        None => seq![s],
    }
}

/// The pieces of a text hold no separator, and no character that the text does
/// not hold.
pub proof fn lemma_pieces_chars(s: Seq<char>, d: char)
    ensures
        forall|i: int, j: int|
            0 <= i < pieces(s, d).len() && 0 <= j < pieces(s, d)[i].len() ==> s.contains(
                #[trigger] pieces(s, d)[i][j],
            ) && pieces(s, d)[i][j] != d,
    decreases s.len(),
{
    lemma_first_char(s, d);
    match first_char(s, d) {
        Some(k) => {
            let head = s.take(k);
            let tail = s.skip(k + 1);
            lemma_pieces_chars(tail, d);
            let rest = pieces(tail, d);
            assert(pieces(s, d) == seq![head] + rest);
            assert forall|i: int, j: int|
                0 <= i < pieces(s, d).len() && 0 <= j < pieces(s, d)[i].len() implies s.contains(
                #[trigger] pieces(s, d)[i][j],
            ) && pieces(s, d)[i][j] != d by {
                if i == 0 {
                    assert(head[j] == s[j]);
                } else {
                    assert(pieces(s, d)[i] == rest[i - 1]);
                    assert(tail.contains(rest[i - 1][j]));
                    let m = choose|m: int| 0 <= m < tail.len() && tail[m] == rest[i - 1][j];
                    assert(s[k + 1 + m] == rest[i - 1][j]);
                }
            }
        },
        None => {
            assert(pieces(s, d) == seq![s]);
            assert forall|i: int, j: int|
                0 <= i < pieces(s, d).len() && 0 <= j < pieces(s, d)[i].len() implies s.contains(
                #[trigger] pieces(s, d)[i][j],
            ) && pieces(s, d)[i][j] != d by {
                assert(s[j] == pieces(s, d)[i][j]);
            }
        },
    }
}

/// The pieces into which the separator `d` cuts `s`.
pub fn split<'a>(s: &'a [char], d: char) -> (out: Vec<&'a [char]>)
    ensures
        out@.len() == pieces(s@, d).len(),
        forall|i: int| 0 <= i < out@.len() ==> out@[i]@ == pieces(s@, d)[i],
{
    let mut out: Vec<&[char]> = Vec::new();
    let mut rest: &[char] = s;
    let ghost mut done: Seq<Seq<char>> = Seq::empty();
    loop
        invariant
            done.len() == out@.len(),
            forall|i: int| 0 <= i < out@.len() ==> out@[i]@ == done[i],
            pieces(s@, d) == done + pieces(rest@, d),
        decreases rest@.len(),
    {
        match find_char(rest, d) {
            Some(i) => {
                let n: usize = rest.len();
                let piece = slice_subrange(rest, 0, i);
                let next = slice_subrange(rest, i + 1, n);
                proof {
                    assert(rest@.take(i as int) =~= piece@);
                    assert(rest@.skip(i + 1) =~= next@);
                    assert(pieces(rest@, d) == seq![piece@] + pieces(next@, d));
                    assert(done + (seq![piece@] + pieces(next@, d)) =~= done.push(piece@) + pieces(
                        next@,
                        d,
                    ));
                    done = done.push(piece@);
                }
                out.push(piece);
                rest = next;
            },
            None => {
                proof {
                    assert(pieces(rest@, d) == seq![rest@]);
                    assert(done + seq![rest@] =~= done.push(rest@));
                    done = done.push(rest@);
                }
                out.push(rest);
                return out;
            },
        }
    }
}

// ---------------------------------------------------------------------------
// Nesting
// ---------------------------------------------------------------------------

/// The position at or after `i` of the `close` that brings a nesting of
/// `depth` open brackets back to none, where `open` adds one level and `close`
/// takes one away.
pub open spec fn closing_from(s: Seq<char>, open: char, close: char, depth: nat, i: int) -> Option<
    int,
>
    decreases s.len() - i,
{
    if i < 0 || i >= s.len() {
        None
    } else if s[i] == open {
        closing_from(s, open, close, depth + 1, i + 1)
    } else if s[i] == close {
        if depth <= 1 {
            Some(i)
        } else {
            closing_from(s, open, close, (depth - 1) as nat, i + 1)
        }
    } else {
        closing_from(s, open, close, depth, i + 1)
    }
}

/// The position in `s` of the `close` that matches an `open` standing just
/// before `s`.
pub open spec fn matching_close(s: Seq<char>, open: char, close: char) -> Option<int> {
    closing_from(s, open, close, 1, 0)
}

/// The position in `s` of the `close` that matches an `open` standing just
/// before `s`.
pub fn find_matching_close(s: &[char], open: char, close: char) -> (found: Option<usize>)
    ensures
        found is Some <==> matching_close(s@, open, close) is Some,
        found matches Some(i) ==> i < s@.len() && matching_close(s@, open, close) == Some(
            i as int,
        ),
{
    // The brackets that are open inside `s`; the one before `s` is not counted.
    let mut inner: usize = 0;
    let mut i: usize = 0;
    while i < s.len()
        invariant
            i <= s.len(),
            inner <= i,
            closing_from(s@, open, close, (inner + 1) as nat, i as int) == matching_close(
                s@,
                open,
                close,
            ),
        decreases s.len() - i,
    {
        let c = s[i];
        if c == open {
            inner += 1;
        } else if c == close {
            if inner == 0 {
                return Some(i);
            }
            inner -= 1;
        }
        i += 1;
    }
    None
}

// ---------------------------------------------------------------------------
// Joining
// ---------------------------------------------------------------------------

/// `parts` with the separator `d` between each two.
pub open spec fn joined(parts: Seq<Seq<char>>, d: char) -> Seq<char>
    decreases parts.len(),
{
    if parts.len() == 0 {
        Seq::empty()
    } else if parts.len() == 1 {
        parts[0]
    } else {
        joined(parts.drop_last(), d) + seq![d] + parts.last()
    }
}

/// Joining two parts or more puts the first part, the separator, and the
/// others joined.
pub proof fn lemma_joined_first(parts: Seq<Seq<char>>, d: char)
    requires
        parts.len() >= 2,
    ensures
        joined(parts, d) == parts[0] + seq![d] + joined(parts.drop_first(), d),
    decreases parts.len(),
{
    let rest = parts.drop_first();
    if parts.len() == 2 {
        assert(parts.drop_last() =~= seq![parts[0]]);
        assert(joined(parts.drop_last(), d) == parts[0]);
        assert(rest =~= seq![parts[1]]);
        assert(joined(rest, d) == parts[1]);
    } else {
        lemma_joined_first(parts.drop_last(), d);
        assert(parts.drop_last().drop_first() =~= rest.drop_last());
        assert(parts.drop_last()[0] == parts[0]);
        assert(rest.last() == parts.last());
        assert(joined(parts, d) =~= parts[0] + seq![d] + joined(rest, d));
    }
}

/// Cutting at the separators what was joined by them gives the parts back, if
/// no part holds the separator.
pub proof fn lemma_pieces_of_joined(parts: Seq<Seq<char>>, d: char)
    requires
        parts.len() >= 1,
        forall|i: int, j: int|
            0 <= i < parts.len() && 0 <= j < parts[i].len() ==> (#[trigger] parts[i][j]) != d,
    ensures
        pieces(joined(parts, d), d) == parts,
    decreases parts.len(),
{
    if parts.len() == 1 {
        assert forall|j: int| 0 <= j < parts[0].len() implies parts[0][j] != d by {}
        lemma_first_char_absent(parts[0], d);
        assert(pieces(parts[0], d) =~= parts);
    } else {
        let rest = parts.drop_first();
        lemma_joined_first(parts, d);
        let text = joined(parts, d);
        let k = parts[0].len() as int;
        assert(is_first_char(text, d, k)) by {
            assert(text[k] == d);
            assert forall|j: int| 0 <= j < k implies text[j] != d by {
                assert(text[j] == parts[0][j]);
            }
        }
        lemma_first_char_at(text, d, k);
        assert(text.take(k) =~= parts[0]);
        assert(text.skip(k + 1) =~= joined(rest, d));
        assert forall|i: int, j: int| 0 <= i < rest.len() && 0 <= j < rest[i].len() implies (
        #[trigger] rest[i][j]) != d by {
            assert(rest[i] == parts[i + 1]);
            assert(parts[i + 1][j] != d);
        }
        lemma_pieces_of_joined(rest, d);
        assert(pieces(text, d) =~= parts);
    }
}

/// What is joined holds, beside the separator, only what the parts hold.
pub proof fn lemma_joined_chars(parts: Seq<Seq<char>>, d: char, c: char)
    requires
        c != d,
        forall|i: int, j: int|
            0 <= i < parts.len() && 0 <= j < parts[i].len() ==> (#[trigger] parts[i][j]) != c,
    ensures
        forall|k: int| 0 <= k < joined(parts, d).len() ==> joined(parts, d)[k] != c,
    decreases parts.len(),
{
    if parts.len() == 1 {
        assert forall|k: int| 0 <= k < parts[0].len() implies parts[0][k] != c by {}
    } else if parts.len() >= 2 {
        let front = parts.drop_last();
        assert forall|i: int, j: int| 0 <= i < front.len() && 0 <= j < front[i].len() implies (
        #[trigger] front[i][j]) != c by {
            assert(front[i] == parts[i]);
            assert(parts[i][j] != c);
        }
        lemma_joined_chars(front, d, c);
        let head = joined(front, d);
        let last = parts.last();
        assert forall|k: int| 0 <= k < joined(parts, d).len() implies joined(parts, d)[k]
            != c by {
            if k < head.len() {
                assert(joined(parts, d)[k] == head[k]);
            } else if k > head.len() {
                assert(joined(parts, d)[k] == last[k - head.len() - 1]);
                assert(parts[parts.len() - 1][k - head.len() - 1] != c);
            }
        }
    }
}

/// The texts that `parts` hold, in order.
pub open spec fn texts_of(parts: Seq<Vec<char>>) -> Seq<Seq<char>> {
    parts.map_values(|p: Vec<char>| p@)
}

/// `parts` with the separator `d` between each two.
pub fn join(parts: &Vec<Vec<char>>, d: char) -> (out: Vec<char>)
    ensures
        out@ == joined(texts_of(parts@), d),
{
    let ghost all = texts_of(parts@);
    let mut out: Vec<char> = Vec::new();
    let mut i: usize = 0;
    while i < parts.len()
        invariant
            i <= parts.len(),
            all == texts_of(parts@),
            out@ == joined(all.take(i as int), d),
        decreases parts.len() - i,
    {
        assert(all.take(i + 1).drop_last() =~= all.take(i as int));
        assert(all.take(i + 1).last() == parts@[i as int]@);
        if i > 0 {
            out.push(d);
        }
        append(&mut out, parts[i].as_slice());
        proof {
            if i == 0 {
                assert(out@ =~= parts@[0]@);
                assert(all.take(1)[0] == parts@[0]@);
            } else {
                assert(out@ =~= joined(all.take(i as int), d) + seq![d] + parts@[i as int]@);
            }
        }
        i += 1;
    }
    assert(all.take(i as int) =~= all);
    out
}

} // verus!
