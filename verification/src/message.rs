//! The human-readable message of each error, built and proved here so that
//! every front end shows the codec's own words.

use crate::error::{ErrorModel, FontError};
use vstd::prelude::*;

verus! {

/// `String::push_str`: appends the string slice `t` to the end of `s`.
#[verifier::external_body]
fn append_str(s: &mut String, t: &str)
    ensures
        final(s)@ == old(s)@ + t@,
{
    s.push_str(t)
}

/// `String::push`: appends the character `c` to the end of `s`.
#[verifier::external_body]
fn append_char(s: &mut String, c: char)
    ensures
        final(s)@ == old(s)@.push(c),
{
    s.push(c)
}

/// The lowercase hexadecimal digit for `d` (0 to 15).
pub open spec fn digit_char(d: int) -> char {
    if d == 0 { '0' } else if d == 1 { '1' } else if d == 2 { '2' } else if d == 3 { '3' } else if d == 4 { '4' }
    else if d == 5 { '5' } else if d == 6 { '6' } else if d == 7 { '7' } else if d == 8 { '8' } else if d == 9 { '9' }
    else if d == 10 { 'a' } else if d == 11 { 'b' } else if d == 12 { 'c' } else if d == 13 { 'd' } else if d == 14 { 'e' }
    else { 'f' }
}

/// `n` in decimal, without leading zeros.
pub open spec fn decimal(n: nat) -> Seq<char>
    decreases n,
{
    if n < 10 { seq![digit_char(n as int)] } else { decimal(n / 10).push(digit_char((n % 10) as int)) }
}

/// The last `k` hexadecimal digits of `n`, zero-padded.
pub open spec fn hex_digits(n: nat, k: nat) -> Seq<char>
    decreases k,
{
    if k == 0 { Seq::empty() } else { hex_digits(n / 16, (k - 1) as nat).push(digit_char((n % 16) as int)) }
}

/// A byte as it shows in a tag: printable ASCII as itself, anything else as '.'.
pub open spec fn printable(b: u8) -> char {
    if 0x20 <= b < 0x7f { b as char } else { '.' }
}

/// A tag as text.
pub open spec fn tag_text(t: Seq<u8>) -> Seq<char> {
    Seq::new(t.len(), |i: int| printable(t[i]))
}

/// Four bytes as a list of decimal numbers: `[1, 2, 3, 4]`.
pub open spec fn byte_list(t: Seq<u8>) -> Seq<char> {
    "["@ + decimal(t[0] as nat) + ", "@ + decimal(t[1] as nat) + ", "@ + decimal(t[2] as nat) + ", "@ + decimal(t[3] as nat)
        + "]"@
}

/// The message of an error.
pub open spec fn error_message(e: ErrorModel) -> Seq<char> {
    match e {
        ErrorModel::Truncated { needed, available, while_reading } => "truncated input while reading "@ + while_reading@
            + ": needed "@ + decimal(needed as nat) + " bytes, "@ + decimal(available as nat) + " available"@,
        ErrorModel::UnknownContainer { magic } => "unrecognised container magic "@ + byte_list(magic) + " ("@ + tag_text(
            magic,
        ) + ")"@,
        ErrorModel::FontCollection => "TrueType Collection (ttcf) is not supported; extract a single font first"@,
        ErrorModel::UnknownFlavor { flavor } => "unrecognised outline flavor 0x"@ + hex_digits(flavor as nat, 8),
        ErrorModel::BadTableCount { count } => "invalid table count "@ + decimal(count as nat),
        ErrorModel::TableOutOfBounds { tag, offset, length, file_len } => "table '"@ + tag_text(tag) + "' at offset "@
            + decimal(offset as nat) + " length "@ + decimal(length as nat) + " exceeds file length "@ + decimal(
            file_len as nat,
        ),
        ErrorModel::Decompress { tag, detail } => match tag {
            Some(t) => "decompression failed for table '"@ + tag_text(t) + "': "@ + detail@,
            None => "decompression failed: "@ + detail@,
        },
        ErrorModel::LengthMismatch { tag, declared, actual } => "table '"@ + tag_text(tag) + "' declared "@ + decimal(
            declared as nat,
        ) + " bytes but produced "@ + decimal(actual as nat),
        ErrorModel::BadBase128 { detail } => "malformed UIntBase128: "@ + detail@,
        ErrorModel::UnsupportedTransform { tag, version } => "table '"@ + tag_text(tag) + "' uses transform version "@
            + decimal(version as nat) + ", which is not implemented"@,
        ErrorModel::DuplicateTable { tag } => "duplicate table tag '"@ + tag_text(tag) + "'"@,
    }
}

fn digit(d: u64) -> (c: char)
    requires
        d < 16,
    ensures
        c == digit_char(d as int),
{
    if d == 0 { '0' } else if d == 1 { '1' } else if d == 2 { '2' } else if d == 3 { '3' } else if d == 4 { '4' }
    else if d == 5 { '5' } else if d == 6 { '6' } else if d == 7 { '7' } else if d == 8 { '8' } else if d == 9 { '9' }
    else if d == 10 { 'a' } else if d == 11 { 'b' } else if d == 12 { 'c' } else if d == 13 { 'd' } else if d == 14 { 'e' }
    else { 'f' }
}

fn push_decimal(s: &mut String, n: u64)
    ensures
        final(s)@ == old(s)@ + decimal(n as nat),
    decreases n,
{
    if n >= 10 {
        push_decimal(s, n / 10);
    }
    append_char(s, digit(n % 10));
    assert(final(s)@ =~= old(s)@ + decimal(n as nat));
}

fn push_hex(s: &mut String, n: u64, k: u32)
    ensures
        final(s)@ == old(s)@ + hex_digits(n as nat, k as nat),
    decreases k,
{
    if k == 0 {
        assert(final(s)@ =~= old(s)@ + hex_digits(n as nat, 0));
        return;
    }
    push_hex(s, n / 16, k - 1);
    append_char(s, digit(n % 16));
    assert(final(s)@ =~= old(s)@ + hex_digits(n as nat, k as nat));
}

fn push_tag(s: &mut String, t: &[u8; 4])
    ensures
        final(s)@ == old(s)@ + tag_text(t@),
{
    let ghost start = s@;
    let mut i: usize = 0;
    while i < 4
        invariant
            i <= 4,
            t@.len() == 4,
            s@ == start + tag_text(t@).subrange(0, i as int),
        decreases 4 - i,
    {
        let b = t[i];
        let c = if 0x20 <= b && b < 0x7f { b as char } else { '.' };
        append_char(s, c);
        assert(s@ =~= start + tag_text(t@).subrange(0, i + 1));
        i = i + 1;
    }
    assert(tag_text(t@).subrange(0, 4) =~= tag_text(t@));
}

fn push_byte_list(s: &mut String, t: &[u8; 4])
    ensures
        final(s)@ == old(s)@ + byte_list(t@),
{
    let ghost start = s@;
    append_str(s, "[");
    push_decimal(s, t[0] as u64);
    append_str(s, ", ");
    push_decimal(s, t[1] as u64);
    append_str(s, ", ");
    push_decimal(s, t[2] as u64);
    append_str(s, ", ");
    push_decimal(s, t[3] as u64);
    append_str(s, "]");
    assert(s@ =~= start + byte_list(t@));
}

impl FontError {
    /// The error in words, as the command line and the browser show it.
    pub fn message(&self) -> (s: String)
        ensures
            s@ == error_message(self@),
    {
        let mut s = String::new();
        match self {
            FontError::Truncated { needed, available, while_reading } => {
                append_str(&mut s, "truncated input while reading ");
                append_str(&mut s, while_reading);
                append_str(&mut s, ": needed ");
                push_decimal(&mut s, *needed as u64);
                append_str(&mut s, " bytes, ");
                push_decimal(&mut s, *available as u64);
                append_str(&mut s, " available");
            },
            FontError::UnknownContainer { magic } => {
                append_str(&mut s, "unrecognised container magic ");
                push_byte_list(&mut s, magic);
                append_str(&mut s, " (");
                push_tag(&mut s, magic);
                append_str(&mut s, ")");
            },
            FontError::FontCollection => {
                append_str(&mut s, "TrueType Collection (ttcf) is not supported; extract a single font first");
            },
            FontError::UnknownFlavor { flavor } => {
                append_str(&mut s, "unrecognised outline flavor 0x");
                push_hex(&mut s, *flavor as u64, 8);
            },
            FontError::BadTableCount { count } => {
                append_str(&mut s, "invalid table count ");
                push_decimal(&mut s, *count as u64);
            },
            FontError::TableOutOfBounds { tag, offset, length, file_len } => {
                append_str(&mut s, "table '");
                push_tag(&mut s, tag);
                append_str(&mut s, "' at offset ");
                push_decimal(&mut s, *offset as u64);
                append_str(&mut s, " length ");
                push_decimal(&mut s, *length as u64);
                append_str(&mut s, " exceeds file length ");
                push_decimal(&mut s, *file_len as u64);
            },
            FontError::Decompress { tag, detail } => {
                match tag {
                    Some(t) => {
                        append_str(&mut s, "decompression failed for table '");
                        push_tag(&mut s, t);
                        append_str(&mut s, "': ");
                    },
                    None => {
                        append_str(&mut s, "decompression failed: ");
                    },
                }
                append_str(&mut s, detail);
            },
            FontError::LengthMismatch { tag, declared, actual } => {
                append_str(&mut s, "table '");
                push_tag(&mut s, tag);
                append_str(&mut s, "' declared ");
                push_decimal(&mut s, *declared as u64);
                append_str(&mut s, " bytes but produced ");
                push_decimal(&mut s, *actual as u64);
            },
            FontError::BadBase128 { detail } => {
                append_str(&mut s, "malformed UIntBase128: ");
                append_str(&mut s, detail);
            },
            FontError::UnsupportedTransform { tag, version } => {
                append_str(&mut s, "table '");
                push_tag(&mut s, tag);
                append_str(&mut s, "' uses transform version ");
                push_decimal(&mut s, *version as u64);
                append_str(&mut s, ", which is not implemented");
            },
            FontError::DuplicateTable { tag } => {
                append_str(&mut s, "duplicate table tag '");
                push_tag(&mut s, tag);
                append_str(&mut s, "'");
            },
        }
        assert(s@ =~= error_message(self@));
        s
    }
}

} // verus!
