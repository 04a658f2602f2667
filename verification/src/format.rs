//! Recognising a font container by its first four bytes.

use vstd::prelude::*;

verus! {

/// The container format of a font file.
#[derive(Debug, Clone, Copy, PartialEq, Eq, Structural)]
pub enum FontFormat {
    /// TrueType font (.ttf)
    Ttf,
    /// OpenType font (.otf)
    Otf,
    /// WOFF (Web Open Font Format) version 1
    Woff,
    /// WOFF (Web Open Font Format) version 2
    Woff2,
    /// Unknown format
    Unknown,
}

/// The format that a file starting with `data` announces by its magic number.
pub open spec fn format_of(data: Seq<u8>) -> FontFormat {
    if data.len() < 4 {
        FontFormat::Unknown
    } else {
        let magic = (data[0], data[1], data[2], data[3]);
        if magic == (0x77u8, 0x4Fu8, 0x46u8, 0x32u8) {
            FontFormat::Woff2
        } else if magic == (0x77u8, 0x4Fu8, 0x46u8, 0x46u8) {
            FontFormat::Woff
        } else if magic == (0x00u8, 0x01u8, 0x00u8, 0x00u8) {
            FontFormat::Ttf
        } else if magic == (0x4Fu8, 0x54u8, 0x54u8, 0x4Fu8) {
            FontFormat::Otf
        } else if magic == (0x74u8, 0x74u8, 0x63u8, 0x66u8) {
            FontFormat::Ttf
        } else if magic == (0x74u8, 0x72u8, 0x75u8, 0x65u8) {
            FontFormat::Ttf
        } else {
            FontFormat::Unknown
        }
    }
}

impl FontFormat {
    /// Detect the format of a font file from its magic bytes.
    pub fn detect(data: &[u8]) -> (format: FontFormat)
        ensures
            format == format_of(data@),
    {
        if data.len() < 4 {
            return FontFormat::Unknown;
        }
        let b0: u8 = data[0];
        let b1: u8 = data[1];
        let b2: u8 = data[2];
        let b3: u8 = data[3];
        if b0 == 0x77 && b1 == 0x4F && b2 == 0x46 && b3 == 0x32 {
            FontFormat::Woff2
        } else if b0 == 0x77 && b1 == 0x4F && b2 == 0x46 && b3 == 0x46 {
            FontFormat::Woff
        } else if b0 == 0x00 && b1 == 0x01 && b2 == 0x00 && b3 == 0x00 {
            FontFormat::Ttf
        } else if b0 == 0x4F && b1 == 0x54 && b2 == 0x54 && b3 == 0x4F {
            FontFormat::Otf
        } else if b0 == 0x74 && b1 == 0x74 && b2 == 0x63 && b3 == 0x66 {
            FontFormat::Ttf
        } else if b0 == 0x74 && b1 == 0x72 && b2 == 0x75 && b3 == 0x65 {
            FontFormat::Ttf
        } else {
            FontFormat::Unknown
        }
    }

    /// Returns true if this format is WOFF2.
    pub fn is_woff2(&self) -> (b: bool)
        ensures
            b == (*self == FontFormat::Woff2),
    {
        match self {
            FontFormat::Woff2 => true,
            _ => false,
        }
    }
}

} // verus!
