//! `@font-face` blocks.

use crate::css::rules::{family_of, family_prefix, primary_family};
use crate::css::variables::CssVariables;
use crate::text::{
    chars_of, copy_of, find, find_char, find_matching_close, first_char, first_occurrence,
    has_prefix, matching_close, pieces, split, starts_with, string_of, strip_char, stripped, trim,
    trimmed,
};
use vstd::prelude::*;
use vstd::slice::slice_subrange;

verus! {

/// A parsed `@font-face` rule.
#[derive(Debug, Clone, PartialEq, Eq)]
pub struct FontFace {
    /// The font-family name declared in @font-face
    pub family: String,
    /// The URL to the font file (from src)
    pub src: String,
    /// Font weight (e.g., "400", "bold")
    pub weight: Option<String>,
    /// Font style (e.g., "normal", "italic")
    pub style: Option<String>,
}

/// What a `FontFace` holds, as text.
pub struct FaceText {
    pub family: Seq<char>,
    pub src: Seq<char>,
    pub weight: Option<Seq<char>>,
    pub style: Option<Seq<char>>,
}

/// The text of an optional string.
pub open spec fn optional_text(s: Option<String>) -> Option<Seq<char>> {
    match s {
        Some(text) => Some(text@),
        None => None,
    }
}

impl View for FontFace {
    type V = FaceText;

    open spec fn view(&self) -> FaceText {
        FaceText {
            family: self.family@,
            src: self.src@,
            weight: optional_text(self.weight),
            style: optional_text(self.style),
        }
    }
}

/// What `faces` hold, in order.
pub open spec fn faces_view(faces: Seq<FontFace>) -> Seq<FaceText> {
    faces.map_values(|f: FontFace| f@)
}

/// The text that opens a URL.
pub open spec fn url_open() -> Seq<char> {
    seq!['u', 'r', 'l', '(']
}

/// The property name, with its colon, of a source declaration.
pub open spec fn src_prefix() -> Seq<char> {
    seq!['s', 'r', 'c', ':']
}

/// The property name, with its colon, of a weight declaration.
pub open spec fn weight_prefix() -> Seq<char> {
    seq!['f', 'o', 'n', 't', '-', 'w', 'e', 'i', 'g', 'h', 't', ':']
}

/// The property name, with its colon, of a style declaration.
pub open spec fn style_prefix() -> Seq<char> {
    seq!['f', 'o', 'n', 't', '-', 's', 't', 'y', 'l', 'e', ':']
}

/// The at-rule that opens a font face.
pub open spec fn face_keyword() -> Seq<char> {
    seq!['@', 'f', 'o', 'n', 't', '-', 'f', 'a', 'c', 'e']
}

/// The URL of a `src` value: what stands between the first `url(` and the next
/// `)`, trimmed and without the double quotes, then the single quotes, at its
/// ends. `None` where the value holds no `url(` or no `)` after it.
pub open spec fn source_url(value: Seq<char>) -> Option<Seq<char>> {
    let v = trimmed(value);
    match first_occurrence(v, url_open()) {
        None => None,
        Some(start) => {
            let after = v.skip(start + 4);
            match first_char(after, ')') {
                None => None,
                Some(end) => Some(stripped(stripped(trimmed(after.take(end)), '"'), '\'')),
            }
        },
    }
}

/// What has been read of a font face: each field is there once a declaration
/// has set it.
pub struct FaceFields {
    pub family: Option<Seq<char>>,
    pub src: Option<Seq<char>>,
    pub weight: Option<Seq<char>>,
    pub style: Option<Seq<char>>,
}

/// The fields after the declaration `raw`, which sets the field it names and
/// leaves the others. A `src` without a URL unsets the source.
pub open spec fn with_face_declaration(fields: FaceFields, raw: Seq<char>) -> FaceFields {
    let declaration = trimmed(raw);
    if has_prefix(declaration, family_prefix()) {
        FaceFields {
            family: Some(primary_family(declaration.skip(12), Map::empty())),
            src: fields.src,
            weight: fields.weight,
            style: fields.style,
        }
    } else if has_prefix(declaration, src_prefix()) {
        FaceFields {
            family: fields.family,
            src: source_url(declaration.skip(4)),
            weight: fields.weight,
            style: fields.style,
        }
    } else if has_prefix(declaration, weight_prefix()) {
        FaceFields {
            family: fields.family,
            src: fields.src,
            weight: Some(trimmed(declaration.skip(12))),
            style: fields.style,
        }
    } else if has_prefix(declaration, style_prefix()) {
        FaceFields {
            family: fields.family,
            src: fields.src,
            weight: fields.weight,
            style: Some(trimmed(declaration.skip(11))),
        }
    } else {
        fields
    }
}

/// The fields after the declarations `raws`, taken in order.
pub open spec fn face_fields(raws: Seq<Seq<char>>) -> FaceFields
    decreases raws.len(),
{
    if raws.len() == 0 {
        FaceFields { family: None, src: None, weight: None, style: None }
    } else {
        with_face_declaration(face_fields(raws.drop_last()), raws.last())
    }
}

/// The font face that the block `block` declares: there is one where the
/// block sets both a family and a source with a URL.
pub open spec fn face_of_block(block: Seq<char>) -> Option<FaceText> {
    let fields = face_fields(pieces(block, ';'));
    match (fields.family, fields.src) {
        (Some(family), Some(src)) => Some(
            FaceText { family, src, weight: fields.weight, style: fields.style },
        ),
        _ => None,
    }
}

/// The font faces of `css`, in source order. A face is the block that follows
/// an `@font-face`; one that lacks a family or a source, an empty one too, is
/// passed over and reading goes on. Reading stops at an `@font-face` without a
/// block and at a block that is never closed.
pub open spec fn font_faces(css: Seq<char>) -> Seq<FaceText>
    decreases css.len(),
{
    match first_occurrence(css, face_keyword()) {
        None => Seq::empty(),
        Some(start) => {
            let after_keyword = css.skip(start + 10);
            match first_char(after_keyword, '{') {
                None => Seq::empty(),
                Some(open) => {
                    let after_open = after_keyword.skip(open + 1);
                    match matching_close(after_open, '{', '}') {
                        None => Seq::empty(),
                        Some(end) => if 0 <= start && 0 <= open && 0 <= end < after_open.len() {
                            let rest = font_faces(after_open.skip(end + 1));
                            match face_of_block(after_open.take(end)) {
                                Some(face) => seq![face] + rest,
                                None => rest,
                            }
                        } else {
                            Seq::empty()
                        },
                    }
                },
            }
        },
    }
}

/// The URL of a `src` value.
pub fn source_of(value: &[char]) -> (out: Option<Vec<char>>)
    ensures
        out is Some <==> source_url(value@) is Some,
        out matches Some(url) ==> source_url(value@) == Some(url@),
{
    let v = trim(value);
    let open: [char; 4] = ['u', 'r', 'l', '('];
    assert(open@ =~= url_open());
    match find(v, open.as_slice()) {
        None => None,
        Some(start) => {
            let n: usize = v.len();
            let after = slice_subrange(v, start + 4, n);
            assert(v@.skip(start + 4) =~= after@);
            match find_char(after, ')') {
                None => None,
                Some(end) => {
                    let content = slice_subrange(after, 0, end);
                    assert(after@.take(end as int) =~= content@);
                    Some(copy_of(strip_char(strip_char(trim(content), '"'), '\'')))
                },
            }
        },
    }
}

/// Parse the src property of @font-face. Handles `url("/path/to/font.woff2")`,
/// `url('/path')` and `url(path)`, and takes the first where there are several.
pub fn parse_font_src(value: &str) -> (out: Option<String>)
    ensures
        out is Some <==> source_url(value@) is Some,
        out matches Some(url) ==> source_url(value@) == Some(url@),
{
    let chars = chars_of(value);
    match source_of(chars.as_slice()) {
        Some(url) => Some(string_of(url.as_slice())),
        None => None,
    }
}

/// The text of an optional run of characters.
pub open spec fn optional_chars(s: Option<Vec<char>>) -> Option<Seq<char>> {
    match s {
        Some(text) => Some(text@),
        None => None,
    }
}

/// The string made of an optional run of characters.
fn optional_string(s: &Option<Vec<char>>) -> (out: Option<String>)
    ensures
        optional_text(out) == optional_chars(*s),
{
    match s {
        Some(text) => Some(string_of(text.as_slice())),
        None => None,
    }
}

/// The font face that the block `block` declares.
pub fn face_in_block(block: &[char]) -> (out: Option<FontFace>)
    ensures
        out is Some <==> face_of_block(block@) is Some,
        out matches Some(face) ==> face_of_block(block@) == Some(face@),
{
    let family_name: [char; 12] = ['f', 'o', 'n', 't', '-', 'f', 'a', 'm', 'i', 'l', 'y', ':'];
    let src_name: [char; 4] = ['s', 'r', 'c', ':'];
    let weight_name: [char; 12] = ['f', 'o', 'n', 't', '-', 'w', 'e', 'i', 'g', 'h', 't', ':'];
    let style_name: [char; 11] = ['f', 'o', 'n', 't', '-', 's', 't', 'y', 'l', 'e', ':'];
    assert(family_name@ =~= family_prefix());
    assert(src_name@ =~= src_prefix());
    assert(weight_name@ =~= weight_prefix());
    assert(style_name@ =~= style_prefix());
    let none = CssVariables::new();
    let mut family: Option<Vec<char>> = None;
    let mut src: Option<Vec<char>> = None;
    let mut weight: Option<Vec<char>> = None;
    let mut style: Option<Vec<char>> = None;
    let raws = split(block, ';');
    let ghost all = pieces(block@, ';');
    let mut k: usize = 0;
    while k < raws.len()
        invariant
            k <= raws.len(),
            family_name@ == family_prefix(),
            src_name@ == src_prefix(),
            weight_name@ == weight_prefix(),
            style_name@ == style_prefix(),
            none@ == Map::<Seq<char>, Seq<char>>::empty(),
            raws@.len() == all.len(),
            forall|i: int| 0 <= i < raws@.len() ==> raws@[i]@ == all[i],
            face_fields(all.take(k as int)) == (FaceFields {
                family: optional_chars(family),
                src: optional_chars(src),
                weight: optional_chars(weight),
                style: optional_chars(style),
            }),
        decreases raws.len() - k,
    {
        assert(all.take(k + 1).drop_last() =~= all.take(k as int));
        assert(all.take(k + 1).last() == all[k as int]);
        let declaration = trim(raws[k]);
        let n: usize = declaration.len();
        if starts_with(declaration, family_name.as_slice()) {
            let value = slice_subrange(declaration, 12, n);
            assert(declaration@.skip(12) =~= value@);
            family = Some(family_of(value, &none));
        } else if starts_with(declaration, src_name.as_slice()) {
            let value = slice_subrange(declaration, 4, n);
            assert(declaration@.skip(4) =~= value@);
            src = source_of(value);
        } else if starts_with(declaration, weight_name.as_slice()) {
            let value = slice_subrange(declaration, 12, n);
            assert(declaration@.skip(12) =~= value@);
            weight = Some(copy_of(trim(value)));
        } else if starts_with(declaration, style_name.as_slice()) {
            let value = slice_subrange(declaration, 11, n);
            assert(declaration@.skip(11) =~= value@);
            style = Some(copy_of(trim(value)));
        }
        k += 1;
    }
    assert(all.take(k as int) =~= all);
    match (family, src) {
        (Some(family), Some(src)) => Some(
            FontFace {
                family: string_of(family.as_slice()),
                src: string_of(src.as_slice()),
                weight: optional_string(&weight),
                style: optional_string(&style),
            },
        ),
        _ => None,
    }
}

/// Parse a single @font-face block content.
pub fn parse_font_face_block(block: &str) -> (out: Option<FontFace>)
    ensures
        out is Some <==> face_of_block(block@) is Some,
        out matches Some(face) ==> face_of_block(block@) == Some(face@),
{
    let chars = chars_of(block);
    face_in_block(chars.as_slice())
}

/// Parse the @font-face rules of a style sheet.
pub fn parse_font_face_rules(css: &str) -> (faces: Vec<FontFace>)
    ensures
        faces_view(faces@) == font_faces(css@),
{
    let chars = chars_of(css);
    let keyword: [char; 10] = ['@', 'f', 'o', 'n', 't', '-', 'f', 'a', 'c', 'e'];
    assert(keyword@ =~= face_keyword());
    let mut faces: Vec<FontFace> = Vec::new();
    let mut rest: &[char] = chars.as_slice();
    assert(faces_view(faces@) =~= Seq::empty());
    loop
        invariant
            keyword@ == face_keyword(),
            font_faces(css@) == faces_view(faces@) + font_faces(rest@),
        decreases rest@.len(),
    {
        match find(rest, keyword.as_slice()) {
            None => {
                return faces;
            },
            Some(start) => {
                let n: usize = rest.len();
                let after_keyword = slice_subrange(rest, start + 10, n);
                assert(rest@.skip(start + 10) =~= after_keyword@);
                match find_char(after_keyword, '{') {
                    None => {
                        return faces;
                    },
                    Some(open) => {
                        let m: usize = after_keyword.len();
                        let after_open = slice_subrange(after_keyword, open + 1, m);
                        assert(after_keyword@.skip(open + 1) =~= after_open@);
                        match find_matching_close(after_open, '{', '}') {
                            None => {
                                return faces;
                            },
                            Some(end) => {
                                let l: usize = after_open.len();
                                let block = slice_subrange(after_open, 0, end);
                                assert(after_open@.take(end as int) =~= block@);
                                let next = slice_subrange(after_open, end + 1, l);
                                assert(after_open@.skip(end + 1) =~= next@);
                                let ghost before = faces_view(faces@);
                                match face_in_block(block) {
                                    Some(face) => {
                                        faces.push(face);
                                        assert(faces_view(faces@) =~= before.push(face@));
                                        assert(before + (seq![face@] + font_faces(next@))
                                            =~= before.push(face@) + font_faces(next@));
                                    },
                                    None => {},
                                }
                                rest = next;
                            },
                        }
                    },
                }
            },
        }
    }
}

} // verus!
