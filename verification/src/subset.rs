//! What surrounds the cutting down of a font file: the WOFF2 container, the
//! errors, and the name of the file that is written.

use crate::format::{format_of, FontFormat};
use vstd::prelude::*;
use vstd::slice::slice_to_vec;
use vstd::string::StringExecFns;

verus! {

/// Error type for font subsetting
#[derive(Debug)]
pub enum SubsetError {
    /// Failed to parse font file
    FontParse(String),
    /// Failed to subset font
    Subset(String),
    /// Failed to compress to WOFF2
    Woff2(String),
    /// Failed to decompress WOFF font
    WoffDecompress(String),
}

/// What a `SubsetError` holds, as text.
pub enum Failure {
    FontParse(Seq<char>),
    Subset(Seq<char>),
    Woff2(Seq<char>),
    WoffDecompress(Seq<char>),
}

impl View for SubsetError {
    type V = Failure;

    open spec fn view(&self) -> Failure {
        match self {
            SubsetError::FontParse(msg) => Failure::FontParse(msg@),
            SubsetError::Subset(msg) => Failure::Subset(msg@),
            SubsetError::Woff2(msg) => Failure::Woff2(msg@),
            SubsetError::WoffDecompress(msg) => Failure::WoffDecompress(msg@),
        }
    }
}

/// The sentence that reports `failure`.
pub open spec fn failure_text(failure: Failure) -> Seq<char> {
    match failure {
        Failure::FontParse(msg) => "failed to parse font: "@ + msg,
        Failure::Subset(msg) => "failed to subset font: "@ + msg,
        Failure::Woff2(msg) => "failed to compress to WOFF2: "@ + msg,
        Failure::WoffDecompress(msg) => "failed to decompress WOFF: "@ + msg,
    }
}

impl SubsetError {
    /// The sentence that reports this error.
    pub fn message(&self) -> (text: String)
        ensures
            text@ == failure_text(self@),
    {
        match self {
            SubsetError::FontParse(msg) => {
                let mut text = "failed to parse font: ".to_owned();
                text.append(msg.as_str());
                text
            },
            SubsetError::Subset(msg) => {
                let mut text = "failed to subset font: ".to_owned();
                text.append(msg.as_str());
                text
            },
            SubsetError::Woff2(msg) => {
                let mut text = "failed to compress to WOFF2: ".to_owned();
                text.append(msg.as_str());
                text
            },
            SubsetError::WoffDecompress(msg) => {
                let mut text = "failed to decompress WOFF: ".to_owned();
                text.append(msg.as_str());
                text
            },
        }
    }
}

/// What a result holds: the bytes, or the failure as text.
pub open spec fn outcome_view(r: Result<Vec<u8>, SubsetError>) -> Result<Seq<u8>, Failure> {
    match r {
        Ok(bytes) => Ok(bytes@),
        Err(e) => Err(e@),
    }
}

/// The bytes of an optional buffer.
pub open spec fn optional_bytes(b: Option<Vec<u8>>) -> Option<Seq<u8>> {
    match b {
        Some(bytes) => Some(bytes@),
        None => None,
    }
}

/// What a result of bytes or a message holds.
pub open spec fn bytes_or_message(r: Result<Vec<u8>, String>) -> Result<Seq<u8>, Seq<char>> {
    match r {
        Ok(bytes) => Ok(bytes@),
        Err(msg) => Err(msg@),
    }
}

// ---------------------------------------------------------------------------
// The WOFF2 container
// ---------------------------------------------------------------------------

/// What `woofwoof::decompress` makes of `data`.
pub uninterp spec fn woff2_decoded(data: Seq<u8>) -> Option<Seq<u8>>;

/// What `woofwoof::compress` makes of `data` with the given metadata, Brotli
/// quality and choice of table transforms.
pub uninterp spec fn woff2_encoded(
    data: Seq<u8>,
    metadata: Seq<char>,
    quality: usize,
    transform: bool,
) -> Option<Seq<u8>>;

/// Calls `woofwoof::decompress`; the contract gives the result its name and
/// claims nothing more.
#[verifier::external_body]
fn woff2_decompress(data: &[u8]) -> (out: Option<Vec<u8>>)
    ensures
        optional_bytes(out) == woff2_decoded(data@),
{
    woofwoof::decompress(data)
}

/// Calls `woofwoof::compress`, for one of the qualities that Brotli knows, 0
/// to 11; the contract gives the result its name and claims nothing more.
#[verifier::external_body]
fn woff2_compress(data: &[u8], metadata: &str, quality: usize, transform: bool) -> (out: Option<
    Vec<u8>,
>)
    requires
        quality <= 11,
    ensures
        optional_bytes(out) == woff2_encoded(data@, metadata@, quality, transform),
{
    woofwoof::compress(data, metadata, quality, transform)
}

/// The Brotli quality asked for: the highest.
pub const QUALITY: usize = 11;

/// What decompressing makes of what the decoder gave.
pub open spec fn decoded_outcome(decoded: Option<Seq<u8>>) -> Result<Seq<u8>, Failure> {
    match decoded {
        Some(bytes) => Ok(bytes),
        None => Err(Failure::WoffDecompress("WOFF2 decompression failed"@)),
    }
}

/// What compressing makes of what the encoder gave.
pub open spec fn encoded_outcome(encoded: Option<Seq<u8>>) -> Result<Seq<u8>, Failure> {
    match encoded {
        Some(bytes) => Ok(bytes),
        None => Err(Failure::Woff2("WOFF2 compression failed"@)),
    }
}

/// The font in `data` as TTF or OTF: WOFF2 is decoded, WOFF1 is refused,
/// anything else is taken as it is.
pub open spec fn decompressed(data: Seq<u8>) -> Result<Seq<u8>, Failure> {
    match format_of(data) {
        FontFormat::Woff2 => decoded_outcome(woff2_decoded(data)),
        FontFormat::Woff => Err(
            Failure::WoffDecompress(
                "WOFF1 decompression not supported, please convert to WOFF2 or TTF first"@,
            ),
        ),
        _ => Ok(data),
    }
}

/// The result of decompressing, given what the decoder answered.
pub fn decode_outcome(decoded: Option<Vec<u8>>) -> (out: Result<Vec<u8>, SubsetError>)
    ensures
        outcome_view(out) == decoded_outcome(optional_bytes(decoded)),
{
    match decoded {
        Some(bytes) => Ok(bytes),
        None => Err(SubsetError::WoffDecompress("WOFF2 decompression failed".to_owned())),
    }
}

/// The result of compressing, given what the encoder answered.
pub fn encode_outcome(encoded: Option<Vec<u8>>) -> (out: Result<Vec<u8>, SubsetError>)
    ensures
        outcome_view(out) == encoded_outcome(optional_bytes(encoded)),
{
    match encoded {
        Some(bytes) => Ok(bytes),
        None => Err(SubsetError::Woff2("WOFF2 compression failed".to_owned())),
    }
}

/// Decompress a WOFF font to TTF/OTF.
///
/// If the input is already TTF/OTF, returns a copy unchanged. If the input is
/// WOFF2, decompresses it to TTF/OTF. WOFF1 is not supported.
pub fn decompress_font(font_data: &[u8]) -> (out: Result<Vec<u8>, SubsetError>)
    ensures
        outcome_view(out) == decompressed(font_data@),
{
    match FontFormat::detect(font_data) {
        FontFormat::Woff2 => decode_outcome(woff2_decompress(font_data)),
        FontFormat::Woff => Err(
            SubsetError::WoffDecompress(
                "WOFF1 decompression not supported, please convert to WOFF2 or TTF first".to_owned(),
            ),
        ),
        _ => Ok(slice_to_vec(font_data)),
    }
}

/// `data` as WOFF2, with the highest compression, table transforms and no
/// metadata.
pub open spec fn compressed(data: Seq<u8>) -> Result<Seq<u8>, Failure> {
    encoded_outcome(woff2_encoded(data, ""@, QUALITY, true))
}

/// Compress TTF/OTF font data to WOFF2.
///
/// Uses maximum compression (level 11) with no embedded metadata.
pub fn compress_to_woff2(font_data: &[u8]) -> (out: Result<Vec<u8>, SubsetError>)
    ensures
        outcome_view(out) == compressed(font_data@),
{
    encode_outcome(woff2_compress(font_data, "", QUALITY, true))
}

// ---------------------------------------------------------------------------
// Subsetting
// ---------------------------------------------------------------------------

/// What subsetting makes of the answer of the subsetter: its bytes, or its
/// complaint as a failure to subset.
pub open spec fn subset_outcome(subset: Result<Seq<u8>, Seq<char>>) -> Result<Seq<u8>, Failure> {
    match subset {
        Ok(bytes) => Ok(bytes),
        Err(msg) => Err(Failure::Subset(msg)),
    }
}

/// The failure to report where the font could not be read.
pub fn parse_failure(msg: String) -> (e: SubsetError)
    ensures
        e@ == Failure::FontParse(msg@),
{
    SubsetError::FontParse(msg)
}

/// The result of subsetting, given what the subsetter answered.
pub fn subsetter_outcome(subset: Result<Vec<u8>, String>) -> (out: Result<Vec<u8>, SubsetError>)
    ensures
        outcome_view(out) == subset_outcome(bytes_or_message(subset)),
{
    match subset {
        Ok(bytes) => Ok(bytes),
        Err(msg) => Err(SubsetError::Subset(msg)),
    }
}

/// The name of the file that holds the subset of the font whose file name,
/// without its extension, is `stem`.
pub open spec fn subset_name(stem: Seq<char>) -> Seq<char> {
    stem + "-subset.woff2"@
}

/// The name of the file to write the subset to: `<stem>-subset.woff2`.
pub fn subset_file_name(stem: &str) -> (name: String)
    ensures
        name@ == subset_name(stem@),
{
    let mut name = stem.to_owned();
    name.append("-subset.woff2");
    name
}

} // verus!
