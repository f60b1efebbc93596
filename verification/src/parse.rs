//! Error taxonomy shared by the byte-level and bit-level parsing layers.

use vstd::prelude::*;

verus! {

use crate::bits::{InsufficientBits, ReadStringError};

/// What ran out while reading.
#[derive(Debug, Clone, PartialEq, Eq)]
pub enum Needed {
    Bits { requested: usize, available: usize },
    Bytes { requested: usize, available: usize },
}

/// Why decompressing a string-table payload failed.
#[derive(Debug, Clone, PartialEq, Eq)]
pub enum DecompressionError {
    /// The declared compressed size cannot even hold the compression magic.
    CompressedSizeTooSmall,
    /// The compression magic is neither Snappy nor LZSS.
    BadCompressionType(u32),
    /// The Snappy codec rejected the compressed bytes.
    Snappy,
}

/// An error while decoding a demo.
#[derive(Debug, Clone, PartialEq, Eq)]
pub enum ParseError {
    InsufficientBits(InsufficientBits),
    Needed(Needed),
    Utf8,
    BadEnumIndex { name: &'static str, value: u32 },
    OutOfBounds { name: &'static str, value: u32, min: u32, max: u32 },
    Decompression(DecompressionError),
    /// A wire construct this decoder does not claim to support.
    Unsupported { name: &'static str },
}

impl From<InsufficientBits> for ParseError {
    fn from(e: InsufficientBits) -> (r: Self) {
        ParseError::InsufficientBits(e)
    }
}

impl vstd::std_specs::convert::FromSpecImpl<InsufficientBits> for ParseError {
    open spec fn obeys_from_spec() -> bool {
        true
    }

    open spec fn from_spec(e: InsufficientBits) -> Self {
        ParseError::InsufficientBits(e)
    }
}

impl From<ReadStringError> for ParseError {
    fn from(e: ReadStringError) -> (r: Self) {
        match e {
            ReadStringError::InsufficientBits(i) => ParseError::InsufficientBits(i),
            ReadStringError::Utf8 => ParseError::Utf8,
        }
    }
}

impl vstd::std_specs::convert::FromSpecImpl<ReadStringError> for ParseError {
    open spec fn obeys_from_spec() -> bool {
        true
    }

    open spec fn from_spec(e: ReadStringError) -> Self {
        match e {
            ReadStringError::InsufficientBits(i) => ParseError::InsufficientBits(i),
            ReadStringError::Utf8 => ParseError::Utf8,
        }
    }
}

impl From<Needed> for ParseError {
    fn from(e: Needed) -> (r: Self) {
        ParseError::Needed(e)
    }
}

impl vstd::std_specs::convert::FromSpecImpl<Needed> for ParseError {
    open spec fn obeys_from_spec() -> bool {
        true
    }

    open spec fn from_spec(e: Needed) -> Self {
        ParseError::Needed(e)
    }
}

} // verus!
