//! Codepoints written as a CSS `unicode-range`: `U+41-5A,U+61`.

use crate::text::{
    first_char, has_prefix, is_first_char, joined, lemma_first_char_absent, lemma_first_char_at,
    lemma_pieces_of_joined, pieces, string_of,
};
use vstd::prelude::*;

verus! {

// ---------------------------------------------------------------------------
// Sorting
// ---------------------------------------------------------------------------

/// Each codepoint of `s` is less than the next.
pub open spec fn increasing(s: Seq<u32>) -> bool {
    forall|i: int, j: int| 0 <= i < j < s.len() ==> s[i] < s[j]
}

/// How many codepoints of the increasing sequence `s` are less than `c`.
pub open spec fn rank(s: Seq<u32>, c: u32) -> int
    decreases s.len(),
{
    if s.len() == 0 {
        0
    } else if s.last() < c {
        s.len() as int
    } else {
        rank(s.drop_last(), c)
    }
}

/// The increasing sequence `s` with `c` in its place, unless it is there
/// already.
pub open spec fn inserted(s: Seq<u32>, c: u32) -> Seq<u32> {
    let k = rank(s, c);
    if 0 <= k < s.len() && s[k] == c {
        s
    } else {
        s.insert(k, c)
    }
}

/// The codepoints of `codes` in ascending order, each once.
pub open spec fn sorted_codes(codes: Seq<u32>) -> Seq<u32>
    decreases codes.len(),
{
    if codes.len() == 0 {
        Seq::empty()
    } else {
        inserted(sorted_codes(codes.drop_last()), codes.last())
    }
}

/// `rank` cuts an increasing sequence into what is less than `c` and what is
/// not.
pub proof fn lemma_rank(s: Seq<u32>, c: u32)
    requires
        increasing(s),
    ensures
        0 <= rank(s, c) <= s.len(),
        forall|i: int| 0 <= i < rank(s, c) ==> s[i] < c,
        forall|i: int| rank(s, c) <= i < s.len() ==> s[i] >= c,
    decreases s.len(),
{
    if s.len() > 0 {
        if s.last() < c {
            assert forall|i: int| 0 <= i < s.len() implies s[i] < c by {
                if i < s.len() - 1 {
                    assert(s[i] < s[s.len() - 1]);
                }
            }
        } else {
            let front = s.drop_last();
            assert(increasing(front)) by {
                assert forall|i: int, j: int| 0 <= i < j < front.len() implies front[i]
                    < front[j] by {
                    assert(s[i] < s[j]);
                }
            }
            lemma_rank(front, c);
            assert forall|i: int| 0 <= i < rank(s, c) implies s[i] < c by {
                assert(front[i] < c);
            }
            assert forall|i: int| rank(s, c) <= i < s.len() implies s[i] >= c by {
                if i < s.len() - 1 {
                    assert(front[i] >= c);
                }
            }
        }
    }
}

/// Inserting keeps the sequence increasing and adds exactly `c`.
pub proof fn lemma_inserted(s: Seq<u32>, c: u32)
    requires
        increasing(s),
    ensures
        increasing(inserted(s, c)),
        forall|x: u32| inserted(s, c).contains(x) <==> s.contains(x) || x == c,
{
    lemma_rank(s, c);
    let k = rank(s, c);
    let r = inserted(s, c);
    if k < s.len() && s[k] == c {
        assert(s.contains(c));
    } else {
        assert forall|i: int, j: int| 0 <= i < j < r.len() implies r[i] < r[j] by {
            if j < k {
                assert(s[i] < s[j]);
            } else if i < k && j == k {
            } else if i < k && j > k {
                assert(s[i] < s[j - 1]);
            } else if i == k {
                assert(s[j - 1] >= c);
            } else {
                assert(s[i - 1] < s[j - 1]);
            }
        }
        assert forall|x: u32| r.contains(x) <==> s.contains(x) || x == c by {
            if r.contains(x) {
                let i = choose|i: int| 0 <= i < r.len() && r[i] == x;
                if i < k {
                    assert(s[i] == x);
                } else if i > k {
                    assert(s[i - 1] == x);
                }
            }
            if s.contains(x) {
                let i = choose|i: int| 0 <= i < s.len() && s[i] == x;
                if i < k {
                    assert(r[i] == x);
                } else {
                    assert(r[i + 1] == x);
                }
            }
            assert(r[k] == c);
        }
    }
}

/// `sorted_codes(codes)` is increasing and holds the codepoints of `codes`
/// and no others.
pub proof fn lemma_sorted_codes(codes: Seq<u32>)
    ensures
        increasing(sorted_codes(codes)),
        forall|x: u32| sorted_codes(codes).contains(x) <==> codes.contains(x),
    decreases codes.len(),
{
    if codes.len() > 0 {
        let front = codes.drop_last();
        lemma_sorted_codes(front);
        lemma_inserted(sorted_codes(front), codes.last());
        assert forall|x: u32| sorted_codes(codes).contains(x) <==> codes.contains(x) by {
            if codes.contains(x) {
                let i = choose|i: int| 0 <= i < codes.len() && codes[i] == x;
                if i < codes.len() - 1 {
                    assert(front[i] == x);
                }
            }
            if front.contains(x) {
                let i = choose|i: int| 0 <= i < front.len() && front[i] == x;
                assert(codes[i] == x);
            }
            assert(codes[codes.len() - 1] == codes.last());
        }
    }
}

/// Puts `c` in its place in the increasing `v`, unless it is there already.
pub fn insert_sorted(v: &mut Vec<u32>, c: u32)
    ensures
        final(v)@ == inserted(old(v)@, c),
        increasing(old(v)@) ==> increasing(final(v)@),
{
    proof {
        if increasing(v@) {
            lemma_inserted(v@, c);
        }
    }
    let mut k: usize = v.len();
    assert(v@.take(k as int) =~= v@);
    while k > 0 && v[k - 1] >= c
        invariant
            k <= v.len(),
            v@ == old(v)@,
            rank(v@, c) == rank(v@.take(k as int), c),
        decreases k,
    {
        assert(v@.take(k as int).drop_last() =~= v@.take(k - 1));
        k -= 1;
    }
    assert(rank(v@, c) == k) by {
        if k > 0 {
            assert(v@.take(k as int).last() == v@[k - 1]);
        }
    }
    if k < v.len() && v[k] == c {
    } else {
        v.insert(k, c);
    }
}

/// The codepoints of `codes` in ascending order, each once.
pub fn sort_codes(codes: &[u32]) -> (out: Vec<u32>)
    ensures
        out@ == sorted_codes(codes@),
        increasing(out@),
{
    let mut out: Vec<u32> = Vec::new();
    let mut i: usize = 0;
    while i < codes.len()
        invariant
            i <= codes.len(),
            out@ == sorted_codes(codes@.take(i as int)),
            increasing(out@),
        decreases codes.len() - i,
    {
        assert(codes@.take(i + 1).drop_last() =~= codes@.take(i as int));
        insert_sorted(&mut out, codes[i]);
        i += 1;
    }
    assert(codes@.take(i as int) =~= codes@);
    out
}

// ---------------------------------------------------------------------------
// Runs
// ---------------------------------------------------------------------------

/// The maximal runs of consecutive codepoints in the increasing sequence
/// `sorted`, each as its first and last codepoint.
pub open spec fn runs(sorted: Seq<u32>) -> Seq<(u32, u32)>
    decreases sorted.len(),
{
    if sorted.len() == 0 {
        Seq::empty()
    } else {
        let before = runs(sorted.drop_last());
        let c = sorted.last();
        if before.len() > 0 && before.last().1 + 1 == c {
            before.drop_last().push((before.last().0, c))
        } else {
            before.push((c, c))
        }
    }
}

/// One of `ranges` covers `c`.
pub open spec fn covered(ranges: Seq<(u32, u32)>, c: int) -> bool {
    exists|i: int| 0 <= i < ranges.len() && (#[trigger] ranges[i]).0 <= c <= ranges[i].1
}

/// The runs of an increasing sequence are in order, apart from each other by
/// at least one codepoint, end where the sequence ends, and cover its
/// codepoints and no others.
pub proof fn lemma_runs(sorted: Seq<u32>)
    requires
        increasing(sorted),
    ensures
        forall|i: int| 0 <= i < runs(sorted).len() ==> (#[trigger] runs(sorted)[i]).0 <= runs(sorted)[i].1,
        forall|i: int, j: int|
            0 <= i < j < runs(sorted).len() ==> (#[trigger] runs(sorted)[i]).1 + 1 < (
            #[trigger] runs(sorted)[j]).0,
        sorted.len() > 0 ==> runs(sorted).len() > 0 && runs(sorted).last().1 == sorted.last(),
        sorted.len() == 0 ==> runs(sorted).len() == 0,
        forall|c: int|
            covered(runs(sorted), c) <==> 0 <= c <= u32::MAX && sorted.contains(c as u32),
    decreases sorted.len(),
{
    if sorted.len() > 0 {
        let front = sorted.drop_last();
        let last = sorted.last();
        assert(increasing(front)) by {
            assert forall|i: int, j: int| 0 <= i < j < front.len() implies front[i] < front[j] by {
                assert(sorted[i] < sorted[j]);
            }
        }
        lemma_runs(front);
        let before = runs(front);
        let after = runs(sorted);
        if front.len() > 0 {
            assert(front.last() == sorted[sorted.len() - 2]);
            assert(sorted[sorted.len() - 2] < sorted[sorted.len() - 1]);
        }
        // Every run of `before` ends at or before the last codepoint of `front`.
        assert forall|i: int| 0 <= i < before.len() implies (#[trigger] before[i]).1 < last by {
            if i < before.len() - 1 {
                assert(before[i].1 + 1 < before[before.len() - 1].0);
                assert(before[before.len() - 1].0 <= before[before.len() - 1].1);
            }
        }
        let grown = before.len() > 0 && before.last().1 + 1 == last;
        assert forall|c: int| covered(after, c) <==> 0 <= c <= u32::MAX && sorted.contains(
            c as u32,
        ) by {
            if covered(after, c) {
                let i = choose|i: int| 0 <= i < after.len() && (#[trigger] after[i]).0 <= c <= after[i].1;
                if grown {
                    if i < after.len() - 1 {
                        assert(before[i] == after[i]);
                        assert(covered(before, c));
                    } else if c < last {
                        assert(before[before.len() - 1].0 <= c <= before[before.len() - 1].1);
                        assert(covered(before, c));
                    }
                } else {
                    if i < after.len() - 1 {
                        assert(before[i] == after[i]);
                        assert(covered(before, c));
                    }
                }
                if c != last {
                    assert(front.contains(c as u32));
                    let k = choose|k: int| 0 <= k < front.len() && front[k] == c as u32;
                    assert(sorted[k] == c as u32);
                } else {
                    assert(sorted[sorted.len() - 1] == c as u32);
                }
            }
            if 0 <= c <= u32::MAX && sorted.contains(c as u32) {
                let k = choose|k: int| 0 <= k < sorted.len() && sorted[k] == c as u32;
                if k < sorted.len() - 1 {
                    assert(front[k] == c as u32);
                    assert(covered(before, c));
                    let i = choose|i: int| 0 <= i < before.len() && (#[trigger] before[i]).0 <= c <= before[i].1;
                    if grown && i == before.len() - 1 {
                        assert(after[after.len() - 1].0 <= c <= after[after.len() - 1].1);
                    } else {
                        assert(after[i] == before[i]);
                    }
                } else {
                    assert(after[after.len() - 1].0 <= c <= after[after.len() - 1].1);
                }
            }
        }
        assert forall|i: int, j: int| 0 <= i < j < after.len() implies (#[trigger] after[i]).1 + 1 < (
        #[trigger] after[j]).0 by {
            if grown {
                if j < after.len() - 1 {
                    assert(before[i].1 + 1 < before[j].0);
                } else {
                    assert(before[i].1 + 1 < before[before.len() - 1].0);
                }
            } else {
                if j < after.len() - 1 {
                    assert(before[i].1 + 1 < before[j].0);
                } else {
                    assert(before[i].1 < last);
                    if i == before.len() - 1 {
                    } else {
                        assert(before[i].1 + 1 < before[before.len() - 1].0);
                        assert(before[before.len() - 1].0 <= before[before.len() - 1].1);
                        assert(before[before.len() - 1].1 < last);
                    }
                }
            }
        }
    } else {
        assert forall|c: int| covered(runs(sorted), c) <==> 0 <= c <= u32::MAX && sorted.contains(
            c as u32,
        ) by {}
    }
}

/// The maximal runs of consecutive codepoints in the increasing `sorted`.
pub fn runs_of(sorted: &[u32]) -> (out: Vec<(u32, u32)>)
    ensures
        out@ == runs(sorted@),
{
    let mut out: Vec<(u32, u32)> = Vec::new();
    if sorted.len() == 0 {
        return out;
    }
    let mut start: u32 = sorted[0];
    let mut end: u32 = sorted[0];
    let mut i: usize = 1;
    assert(runs(sorted@.take(1)) =~= out@.push((start, end))) by {
        assert(sorted@.take(1).drop_last() =~= Seq::<u32>::empty());
        assert(runs(Seq::<u32>::empty()) =~= Seq::<(u32, u32)>::empty());
        assert(sorted@.take(1).last() == sorted@[0]);
    }
    while i < sorted.len()
        invariant
            1 <= i <= sorted.len(),
            runs(sorted@.take(i as int)) == out@.push((start, end)),
        decreases sorted.len() - i,
    {
        let c = sorted[i];
        assert(sorted@.take(i + 1).drop_last() =~= sorted@.take(i as int));
        assert(sorted@.take(i + 1).last() == c);
        let ghost before = out@.push((start, end));
        if end < u32::MAX && c == end + 1 {
            end = c;
            assert(before.drop_last().push((start, end)) =~= out@.push((start, end)));
        } else {
            out.push((start, end));
            start = c;
            end = c;
        }
        i += 1;
    }
    assert(sorted@.take(i as int) =~= sorted@);
    out.push((start, end));
    out
}

// ---------------------------------------------------------------------------
// Writing
// ---------------------------------------------------------------------------

/// The upper-case hexadecimal digit for `d`; `F` for what is more than 15.
pub open spec fn hex_digit(d: int) -> char {
    if d == 0 {
        '0'
    } else if d == 1 {
        '1'
    } else if d == 2 {
        '2'
    } else if d == 3 {
        '3'
    } else if d == 4 {
        '4'
    } else if d == 5 {
        '5'
    } else if d == 6 {
        '6'
    } else if d == 7 {
        '7'
    } else if d == 8 {
        '8'
    } else if d == 9 {
        '9'
    } else if d == 10 {
        'A'
    } else if d == 11 {
        'B'
    } else if d == 12 {
        'C'
    } else if d == 13 {
        'D'
    } else if d == 14 {
        'E'
    } else {
        'F'
    }
}

/// `n` in upper-case hexadecimal, with no digit more than needed.
pub open spec fn hex(n: nat) -> Seq<char>
    decreases n,
{
    if n < 16 {
        seq![hex_digit(n as int)]
    } else {
        hex(n / 16).push(hex_digit((n % 16) as int))
    }
}

/// The token for the run from `lo` to `hi`: `U+<lo>` for a single codepoint,
/// `U+<lo>-<hi>` for more.
pub open spec fn token(run: (u32, u32)) -> Seq<char> {
    if run.0 == run.1 {
        seq!['U', '+'] + hex(run.0 as nat)
    } else {
        seq!['U', '+'] + hex(run.0 as nat) + seq!['-'] + hex(run.1 as nat)
    }
}

/// The tokens of `ranges`, in order.
pub open spec fn tokens(ranges: Seq<(u32, u32)>) -> Seq<Seq<char>> {
    ranges.map_values(|run: (u32, u32)| token(run))
}

/// The codepoints `codes` as a unicode-range: sorted, each once, every maximal
/// run of consecutive codepoints as one token, the tokens joined by commas.
pub open spec fn unicode_range(codes: Seq<u32>) -> Seq<char> {
    joined(tokens(runs(sorted_codes(codes))), ',')
}

/// The upper-case hexadecimal digit for `d`.
pub fn digit_char(d: u32) -> (c: char)
    ensures
        c == hex_digit(d as int),
{
    if d == 0 {
        '0'
    } else if d == 1 {
        '1'
    } else if d == 2 {
        '2'
    } else if d == 3 {
        '3'
    } else if d == 4 {
        '4'
    } else if d == 5 {
        '5'
    } else if d == 6 {
        '6'
    } else if d == 7 {
        '7'
    } else if d == 8 {
        '8'
    } else if d == 9 {
        '9'
    } else if d == 10 {
        'A'
    } else if d == 11 {
        'B'
    } else if d == 12 {
        'C'
    } else if d == 13 {
        'D'
    } else if d == 14 {
        'E'
    } else {
        'F'
    }
}

/// Appends `n` in upper-case hexadecimal to `out`.
pub fn push_hex(out: &mut Vec<char>, n: u32)
    ensures
        final(out)@ == old(out)@ + hex(n as nat),
    decreases n,
{
    if n < 16 {
        out.push(digit_char(n));
        assert(out@ =~= old(out)@ + hex(n as nat));
    } else {
        push_hex(out, n / 16);
        out.push(digit_char(n % 16));
        assert(out@ =~= old(out)@ + hex(n as nat));
    }
}

/// Appends the token for `run` to `out`.
pub fn push_token(out: &mut Vec<char>, run: (u32, u32))
    ensures
        final(out)@ == old(out)@ + token(run),
{
    out.push('U');
    out.push('+');
    push_hex(out, run.0);
    if run.0 != run.1 {
        out.push('-');
        push_hex(out, run.1);
        assert(out@ =~= old(out)@ + token(run));
    } else {
        assert(out@ =~= old(out)@ + token(run));
    }
}

/// Convert character codes to a unicode-range string (`U+XX-YY` format). The
/// codes may come in any order and more than once; of no codes the string is
/// empty.
pub fn to_unicode_range(chars: Vec<u32>) -> (out: String)
    ensures
        out@ == unicode_range(chars@),
        chars@.len() == 0 ==> out@.len() == 0,
{
    let sorted = sort_codes(chars.as_slice());
    let ranges = runs_of(sorted.as_slice());
    let ghost parts = tokens(ranges@);
    let mut text: Vec<char> = Vec::new();
    let mut i: usize = 0;
    while i < ranges.len()
        invariant
            i <= ranges.len(),
            parts == tokens(ranges@),
            text@ == joined(parts.take(i as int), ','),
        decreases ranges.len() - i,
    {
        assert(parts.take(i + 1).drop_last() =~= parts.take(i as int));
        assert(parts.take(i + 1).last() == token(ranges@[i as int]));
        if i > 0 {
            text.push(',');
        }
        let ghost before = text@;
        push_token(&mut text, ranges[i]);
        proof {
            if i == 0 {
                assert(text@ =~= token(ranges@[0]));
                assert(parts.take(1)[0] == token(ranges@[0]));
            } else {
                assert(text@ =~= joined(parts.take(i as int), ',') + seq![','] + token(
                    ranges@[i as int],
                ));
            }
        }
        i += 1;
    }
    assert(parts.take(i as int) =~= parts);
    string_of(text.as_slice())
}

// ---------------------------------------------------------------------------
// Reading back
// ---------------------------------------------------------------------------

/// The number that the upper-case hexadecimal digit `c` stands for.
pub open spec fn digit_value(c: char) -> Option<int> {
    if c == '0' {
        Some(0)
    } else if c == '1' {
        Some(1)
    } else if c == '2' {
        Some(2)
    } else if c == '3' {
        Some(3)
    } else if c == '4' {
        Some(4)
    } else if c == '5' {
        Some(5)
    } else if c == '6' {
        Some(6)
    } else if c == '7' {
        Some(7)
    } else if c == '8' {
        Some(8)
    } else if c == '9' {
        Some(9)
    } else if c == 'A' {
        Some(10)
    } else if c == 'B' {
        Some(11)
    } else if c == 'C' {
        Some(12)
    } else if c == 'D' {
        Some(13)
    } else if c == 'E' {
        Some(14)
    } else if c == 'F' {
        Some(15)
    } else {
        None
    }
}

/// The number that the hexadecimal numeral `s` stands for; `None` where `s` is
/// empty or holds anything but digits.
pub open spec fn hex_value(s: Seq<char>) -> Option<nat>
    decreases s.len(),
{
    if s.len() == 0 {
        None
    } else {
        match digit_value(s.last()) {
            None => None,
            Some(d) => if s.len() == 1 {
                Some(d as nat)
            } else {
                match hex_value(s.drop_last()) {
                    Some(h) => Some((16 * h + d) as nat),
                    None => None,
                }
            },
        }
    }
}

/// The first and last codepoint that the token `t` names: `U+<lo>` names one
/// codepoint, `U+<lo>-<hi>` a run.
pub open spec fn token_range(t: Seq<char>) -> Option<(nat, nat)> {
    if has_prefix(t, seq!['U', '+']) {
        let body = t.skip(2);
        match first_char(body, '-') {
            None => match hex_value(body) {
                Some(v) => Some((v, v)),
                None => None,
            },
            Some(i) => match (hex_value(body.take(i)), hex_value(body.skip(i + 1))) {
                (Some(lo), Some(hi)) => Some((lo, hi)),
                _ => None,
            },
        }
    } else {
        None
    }
}

/// The token `t` names a run that holds `c`.
pub open spec fn token_covers(t: Seq<char>, c: nat) -> bool {
    match token_range(t) {
        Some((lo, hi)) => lo <= c <= hi,
        None => false,
    }
}

/// The codepoints that the unicode-range `text` names: those that one of its
/// comma-separated tokens covers.
pub open spec fn expanded(text: Seq<char>) -> Set<nat> {
    Set::new(
        |c: nat|
            exists|i: int|
                0 <= i < pieces(text, ',').len() && token_covers(#[trigger] pieces(text, ',')[i], c),
    )
}

/// A hexadecimal numeral is not empty, holds digits only, and stands for the
/// number it was written for.
pub proof fn lemma_hex(n: nat)
    ensures
        hex(n).len() >= 1,
        forall|i: int| 0 <= i < hex(n).len() ==> digit_value(#[trigger] hex(n)[i]) is Some,
        hex_value(hex(n)) == Some(n),
    decreases n,
{
    if n >= 16 {
        lemma_hex(n / 16);
        let front = hex(n / 16);
        let d = (n % 16) as int;
        assert(hex(n).drop_last() =~= front);
        assert(hex(n).last() == hex_digit(d));
        assert(digit_value(hex_digit(d)) == Some(d));
        assert forall|i: int| 0 <= i < hex(n).len() implies digit_value(#[trigger] hex(n)[i]) is Some by {
            if i < front.len() {
                assert(hex(n)[i] == front[i]);
            }
        }
    } else {
        assert(digit_value(hex_digit(n as int)) == Some(n as int));
    }
}

/// A hexadecimal numeral is not empty and stands for the number it was written
/// for.
pub proof fn lemma_hex_value(n: nat)
    ensures
        hex(n).len() >= 1,
        hex_value(hex(n)) == Some(n),
{
    lemma_hex(n);
}

/// A hexadecimal numeral holds neither a hyphen nor a comma.
pub proof fn lemma_hex_plain(n: nat)
    ensures
        forall|i: int| 0 <= i < hex(n).len() ==> hex(n)[i] != '-' && hex(n)[i] != ',',
{
    lemma_hex(n);
    assert forall|i: int| 0 <= i < hex(n).len() implies hex(n)[i] != '-' && hex(n)[i] != ',' by {
        assert(digit_value(hex(n)[i]) is Some);
    }
}

/// The token of a single codepoint names that codepoint.
proof fn lemma_token_single(c: u32)
    ensures
        token_range(token((c, c))) == Some((c as nat, c as nat)),
        forall|i: int| 0 <= i < token((c, c)).len() ==> token((c, c))[i] != ',',
{
    let t = token((c, c));
    let digits = hex(c as nat);
    lemma_hex_value(c as nat);
    lemma_hex_plain(c as nat);
    assert(t == seq!['U', '+'] + digits);
    assert(t.subrange(0, 2) =~= seq!['U', '+']);
    assert(has_prefix(t, seq!['U', '+']));
    assert(t.skip(2) =~= digits);
    lemma_first_char_absent(digits, '-');
    assert forall|i: int| 0 <= i < t.len() implies t[i] != ',' by {
        if i >= 2 {
            assert(t[i] == digits[i - 2]);
        }
    }
}

/// The token of a run of several codepoints names its first and its last.
proof fn lemma_token_run(lo: u32, hi: u32)
    requires
        lo != hi,
    ensures
        token_range(token((lo, hi))) == Some((lo as nat, hi as nat)),
        forall|i: int| 0 <= i < token((lo, hi)).len() ==> token((lo, hi))[i] != ',',
{
    let t = token((lo, hi));
    let first = hex(lo as nat);
    let last = hex(hi as nat);
    lemma_hex_value(lo as nat);
    lemma_hex_value(hi as nat);
    lemma_hex_plain(lo as nat);
    lemma_hex_plain(hi as nat);
    let body = first + seq!['-'] + last;
    assert(t == seq!['U', '+'] + first + seq!['-'] + last);
    assert(t =~= seq!['U', '+'] + body);
    assert(t.subrange(0, 2) =~= seq!['U', '+']);
    assert(has_prefix(t, seq!['U', '+']));
    assert(t.skip(2) =~= body);
    let k = first.len() as int;
    assert(is_first_char(body, '-', k)) by {
        assert(body[k] == '-');
        assert forall|j: int| 0 <= j < k implies body[j] != '-' by {
            assert(body[j] == first[j]);
        }
    }
    lemma_first_char_at(body, '-', k);
    assert(body.take(k) =~= first);
    assert(body.skip(k + 1) =~= last);
    assert forall|i: int| 0 <= i < t.len() implies t[i] != ',' by {
        if i >= 2 {
            let j = i - 2;
            assert(t[i] == body[j]);
            if j < k {
                assert(body[j] == first[j]);
            } else if j > k {
                assert(body[j] == last[j - k - 1]);
            }
        }
    }
}

/// A token holds no comma, and names the run it was written for.
pub proof fn lemma_token(run: (u32, u32))
    ensures
        forall|i: int| 0 <= i < token(run).len() ==> token(run)[i] != ',',
        token_range(token(run)) == Some((run.0 as nat, run.1 as nat)),
{
    if run.0 == run.1 {
        lemma_token_single(run.0);
    } else {
        lemma_token_run(run.0, run.1);
    }
}

/// No codes make the empty string.
pub proof fn lemma_range_of_nothing()
    ensures
        unicode_range(Seq::empty()) == Seq::<char>::empty(),
{
    assert(tokens(Seq::empty()) =~= Seq::empty());
}

/// Reading a unicode-range back gives the codepoints it was written for:
/// those of `codes`, whatever their order and however often each came.
pub proof fn lemma_range_round_trip(codes: Seq<u32>)
    ensures
        forall|n: nat|
            expanded(unicode_range(codes)).contains(n) <==> n <= u32::MAX && codes.contains(
                n as u32,
            ),
{
    let sorted = sorted_codes(codes);
    let ranges = runs(sorted);
    let parts = tokens(ranges);
    let text = unicode_range(codes);
    lemma_sorted_codes(codes);
    lemma_runs(sorted);
    if ranges.len() == 0 {
        assert(parts =~= Seq::empty());
        assert(text =~= Seq::<char>::empty());
        lemma_first_char_absent(text, ',');
        assert(pieces(text, ',') =~= seq![text]);
        assert(!has_prefix(text, seq!['U', '+']));
        assert forall|n: nat| expanded(text).contains(n) <==> n <= u32::MAX && codes.contains(
            n as u32,
        ) by {
            if expanded(text).contains(n) {
                let i = choose|i: int|
                    0 <= i < pieces(text, ',').len() && token_covers(
                        #[trigger] pieces(text, ',')[i],
                        n,
                    );
                assert(pieces(text, ',')[i] == text);
            }
            if n <= u32::MAX && codes.contains(n as u32) {
                assert(sorted.contains(n as u32));
                assert(covered(ranges, n as int));
            }
        }
    } else {
        assert forall|i: int, j: int| 0 <= i < parts.len() && 0 <= j < parts[i].len() implies (
        #[trigger] parts[i][j]) != ',' by {
            assert(ranges[i].0 <= ranges[i].1);
            lemma_token(ranges[i]);
        }
        lemma_pieces_of_joined(parts, ',');
        assert forall|n: nat| expanded(text).contains(n) <==> n <= u32::MAX && codes.contains(
            n as u32,
        ) by {
            if expanded(text).contains(n) {
                let i = choose|i: int|
                    0 <= i < pieces(text, ',').len() && token_covers(
                        #[trigger] pieces(text, ',')[i],
                        n,
                    );
                assert(parts[i] == token(ranges[i]));
                assert(ranges[i].0 <= ranges[i].1);
                lemma_token(ranges[i]);
                assert(ranges[i].0 <= n <= ranges[i].1);
                assert(covered(ranges, n as int));
                assert(sorted.contains(n as u32));
            }
            if n <= u32::MAX && codes.contains(n as u32) {
                assert(sorted.contains(n as u32));
                assert(covered(ranges, n as int));
                let i = choose|i: int|
                    0 <= i < ranges.len() && (#[trigger] ranges[i]).0 <= n as int <= ranges[i].1;
                lemma_token(ranges[i]);
                assert(parts[i] == token(ranges[i]));
                assert(token_covers(pieces(text, ',')[i], n));
            }
        }
    }
}

} // verus!
