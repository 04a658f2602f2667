//! A small reader of CSS: custom properties, `var()` references,
//! `font-family` rules and `@font-face` blocks.

pub mod font_face;
pub mod rules;
pub mod variables;
