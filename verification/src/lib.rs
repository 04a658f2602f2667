//! Finds out which Unicode codepoints each font family of a web page uses, so
//! that font files can be cut down to the glyphs that are needed.
//!
//! Character sets come from two sources: from HTML and CSS alone, by a
//! simplified cascade (`static_analysis`, on top of `css`), or from a browser
//! that runs a script in each page of a crawl (`session`, on top of `scan`
//! and `frontier`). Either way they are gathered per family (`glyph_sets`),
//! and what is chosen of them is written as a CSS unicode-range
//! (`unicode_range`) or handed on to the subsetter (`subset`, `format`).

pub mod css;
pub mod format;
pub mod frontier;
pub mod glyph_sets;
pub mod scan;
pub mod session;
pub mod static_analysis;
pub mod subset;
pub mod text;
pub mod unicode_range;

pub use css::font_face::FontFace;
pub use format::FontFormat;
pub use glyph_sets::GlyphSets;
pub use session::Session;
pub use static_analysis::{
    analyze_fonts, collect_chars_per_font, extract_css_from_html, FontAnalysis,
};
pub use subset::{compress_to_woff2, decompress_font, SubsetError};
pub use unicode_range::to_unicode_range;
