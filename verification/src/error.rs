//! Every failure mode the codec can produce, and its mathematical model.

use vstd::prelude::*;

verus! {

/// Every failure mode this codec can produce. No parse path panics on
/// malformed input: all of them return `Err` with the offending context.
#[derive(Debug, Clone, PartialEq, Eq)]
pub enum FontError {
    /// Input ended before a structure could be read.
    Truncated { needed: usize, available: usize, while_reading: &'static str },
    /// The container magic did not match any supported format.
    UnknownContainer { magic: [u8; 4] },
    /// A TrueType Collection was supplied; only single fonts are handled.
    FontCollection,
    /// `sfntVersion` / `flavor` is not a recognised outline format.
    UnknownFlavor { flavor: u32 },
    /// Table count of zero.
    BadTableCount { count: u16 },
    /// A directory entry points outside the file.
    TableOutOfBounds { tag: [u8; 4], offset: u32, length: u32, file_len: usize },
    /// A zlib or brotli stream did not decode.
    Decompress { tag: Option<[u8; 4]>, detail: &'static str },
    /// Decompressed size disagreed with the size declared in the directory.
    LengthMismatch { tag: [u8; 4], declared: u32, actual: usize },
    /// A UIntBase128 value was non-minimal, overlong, or overflowed u32.
    BadBase128 { detail: &'static str },
    /// A WOFF2 table transform that is not implemented.
    UnsupportedTransform { tag: [u8; 4], version: u8 },
    /// Two directory entries claimed the same tag.
    DuplicateTable { tag: [u8; 4] },
}

/// The model of a [`FontError`]: the same variants, with every four-byte tag
/// taken as its byte sequence.
pub enum ErrorModel {
    Truncated { needed: usize, available: usize, while_reading: &'static str },
    UnknownContainer { magic: Seq<u8> },
    FontCollection,
    UnknownFlavor { flavor: u32 },
    BadTableCount { count: u16 },
    TableOutOfBounds { tag: Seq<u8>, offset: u32, length: u32, file_len: usize },
    Decompress { tag: Option<Seq<u8>>, detail: &'static str },
    LengthMismatch { tag: Seq<u8>, declared: u32, actual: usize },
    BadBase128 { detail: &'static str },
    UnsupportedTransform { tag: Seq<u8>, version: u8 },
    DuplicateTable { tag: Seq<u8> },
}

impl View for FontError {
    type V = ErrorModel;

    open spec fn view(&self) -> ErrorModel {
        match *self {
            FontError::Truncated { needed, available, while_reading } =>
                ErrorModel::Truncated { needed, available, while_reading },
            FontError::UnknownContainer { magic } => ErrorModel::UnknownContainer { magic: magic@ },
            FontError::FontCollection => ErrorModel::FontCollection,
            FontError::UnknownFlavor { flavor } => ErrorModel::UnknownFlavor { flavor },
            FontError::BadTableCount { count } => ErrorModel::BadTableCount { count },
            FontError::TableOutOfBounds { tag, offset, length, file_len } =>
                ErrorModel::TableOutOfBounds { tag: tag@, offset, length, file_len },
            FontError::Decompress { tag, detail } => ErrorModel::Decompress {
                tag: match tag {
                    Some(t) => Some(t@),
                    None => None,
                },
                detail,
            },
            FontError::LengthMismatch { tag, declared, actual } =>
                ErrorModel::LengthMismatch { tag: tag@, declared, actual },
            FontError::BadBase128 { detail } => ErrorModel::BadBase128 { detail },
            FontError::UnsupportedTransform { tag, version } =>
                ErrorModel::UnsupportedTransform { tag: tag@, version },
            FontError::DuplicateTable { tag } => ErrorModel::DuplicateTable { tag: tag@ },
        }
    }
}

/// The error a bounds-checked read reports when `needed` bytes are asked for
/// and only `available` remain.
pub open spec fn truncated(needed: int, available: int, while_reading: &'static str) -> ErrorModel {
    ErrorModel::Truncated {
        needed: needed as usize,
        available: (if available > 0 { available } else { 0 }) as usize,
        while_reading,
    }
}

/// The crate's result type.
pub type Result<T> = core::result::Result<T, FontError>;

} // verus!
