//! The byte-exact model of the reader: a recursive-descent parser over a byte
//! sequence, returning for every input either the parsed entries and the
//! count of bytes consumed, or the kind of error the codec reports.
//!
//! Reading past the end of the input is the stream error (`IoError`); bytes
//! that are not valid UTF-8 where a string is expected are a decode error; a
//! string or document length prefix that does not match the decoded content
//! is an incorrect-length error; a tag byte outside the table is an
//! unrecognised-code error carrying that byte.
use vstd::prelude::*;
use vstd::utf8::valid_utf8;
use vstd::utf8::decode_utf8;
use vstd::bytes::spec_u32_from_le_bytes;
use vstd::bytes::spec_u64_from_le_bytes;

use crate::error::ErrorKind;
use crate::model::Entries;
use crate::model::Val;
use crate::model::doc_size;
use crate::model::entry_insert;

verus! {

/// Number of bytes from position `i` up to (excluding) the first NUL byte,
/// or `None` when no NUL follows before the end of the input.
pub open spec fn cstr_len(b: Seq<u8>, i: int) -> Option<nat>
    decreases b.len() - i,
{
    if !(0 <= i < b.len()) {
        None
    } else if b[i] == 0 {
        Some(0nat)
    } else {
        match cstr_len(b, i + 1) {
            None => None,
            Some(n) => Some((n + 1) as nat),
        }
    }
}

/// Parse a cstring at `i`: the decoded characters and the bytes consumed,
/// terminator included.
pub open spec fn parse_cstr(b: Seq<u8>, i: int) -> Result<(Seq<char>, nat), ErrorKind> {
    match cstr_len(b, i) {
        None => Err(ErrorKind::IoError),
        Some(n) => {
            let raw = b.subrange(i, i + n);
            if valid_utf8(raw) {
                Ok((decode_utf8(raw), (n + 1) as nat))
            } else {
                Err(ErrorKind::StringDecodeError)
            }
        },
    }
}

/// The little-endian 32-bit value at `i`.
pub open spec fn le_u32_at(b: Seq<u8>, i: int) -> u32 {
    spec_u32_from_le_bytes(b.subrange(i, i + 4))
}

/// The little-endian 64-bit value at `i`.
pub open spec fn le_u64_at(b: Seq<u8>, i: int) -> u64 {
    spec_u64_from_le_bytes(b.subrange(i, i + 8))
}

/// Parse the payload of a value with the given tag at position `i`.
///
/// A boolean payload mirrors the writer's encoding: zero is false and any
/// other byte reads as true. A string payload fails with incorrect-length
/// when its declared inner length is not the byte count plus one.
pub open spec fn parse_value(b: Seq<u8>, i: int, tag: u8) -> Result<(Val, nat), ErrorKind>
    decreases b.len() - i, 1int,
{
    if tag == 0x01 {
        if i + 8 <= b.len() {
            Ok((Val::Double(le_u64_at(b, i)), 8nat))
        } else {
            Err(ErrorKind::IoError)
        }
    } else if tag == 0x02 {
        if i + 4 <= b.len() {
            let l = le_u32_at(b, i) as i32;
            match parse_cstr(b, i + 4) {
                Err(k) => Err(k),
                Ok((s, c)) => {
                    if l == c as int {
                        Ok((Val::Text(s), (4 + c) as nat))
                    } else {
                        Err(ErrorKind::IncorrectLength)
                    }
                },
            }
        } else {
            Err(ErrorKind::IoError)
        }
    } else if tag == 0x03 {
        match parse_doc(b, i) {
            Err(k) => Err(k),
            Ok((m, c)) => Ok((Val::SubDoc(m), c)),
        }
    } else if tag == 0x08 {
        if i + 1 <= b.len() {
            Ok((Val::Bool(b[i] != 0), 1nat))
        } else {
            Err(ErrorKind::IoError)
        }
    } else if tag == 0x09 {
        if i + 8 <= b.len() {
            Ok((Val::UTCDatetime(le_u64_at(b, i) as i64), 8nat))
        } else {
            Err(ErrorKind::IoError)
        }
    } else if tag == 0x0A {
        Ok((Val::Null, 0nat))
    } else if tag == 0x0B {
        match parse_cstr(b, i) {
            Err(k) => Err(k),
            Ok((pat, c1)) => match parse_cstr(b, i + c1 as int) {
                Err(k) => Err(k),
                Ok((opts, c2)) => Ok((Val::Regex { pat, opts }, (c1 + c2) as nat)),
            },
        }
    } else if tag == 0x10 {
        if i + 4 <= b.len() {
            Ok((Val::Int32(le_u32_at(b, i) as i32), 4nat))
        } else {
            Err(ErrorKind::IoError)
        }
    } else if tag == 0x12 {
        if i + 8 <= b.len() {
            Ok((Val::Int64(le_u64_at(b, i) as i64), 8nat))
        } else {
            Err(ErrorKind::IoError)
        }
    } else {
        Err(ErrorKind::UnrecognisedCode(tag))
    }
}

/// Parse a whole document at `i`: the little-endian 32-bit declared size, the
/// entries up to the terminating NUL, then the sole integrity check of the
/// format: the size recomputed from the parsed content must equal the
/// declared prefix.
pub open spec fn parse_doc(b: Seq<u8>, i: int) -> Result<(Entries, nat), ErrorKind>
    decreases b.len() - i, 0int,
{
    if i + 4 <= b.len() && 0 <= i {
        let declared = le_u32_at(b, i) as i32;
        match parse_entries(b, i + 4, Seq::empty()) {
            Err(k) => Err(k),
            Ok((m, c)) => {
                if declared as int == doc_size(m) {
                    Ok((m, (4 + c) as nat))
                } else {
                    Err(ErrorKind::IncorrectLength)
                }
            },
        }
    } else {
        Err(ErrorKind::IoError)
    }
}

/// Parse entries starting at `i` into the accumulated document `acc`,
/// entry by entry, until the terminating NUL tag; each parsed entry is
/// inserted with overwrite, as the reader builds its document.
///
/// The two trailing bounds tests keep the recursion measure within the
/// input; a successful sub-parse never consumes past the end, so they never
/// fail on a reachable path.
pub open spec fn parse_entries(b: Seq<u8>, i: int, acc: Entries) -> Result<
    (Entries, nat),
    ErrorKind,
>
    decreases b.len() - i, 2int,
{
    if !(0 <= i < b.len()) {
        Err(ErrorKind::IoError)
    } else {
        let tag = b[i];
        if tag == 0 {
            Ok((acc, 1nat))
        } else {
            match parse_cstr(b, i + 1) {
                Err(k) => Err(k),
                Ok((key, c)) => {
                    if i + 1 + c as int <= b.len() {
                        match parse_value(b, i + 1 + c as int, tag) {
                            Err(k) => Err(k),
                            Ok((v, vc)) => {
                                if i + 1 + c as int + vc as int <= b.len() {
                                    match parse_entries(
                                        b,
                                        i + 1 + c as int + vc as int,
                                        entry_insert(acc, key, v),
                                    ) {
                                        Err(k) => Err(k),
                                        Ok((m, ec)) => Ok((m, (1 + c + vc + ec) as nat)),
                                    }
                                } else {
                                    Err(ErrorKind::IoError)
                                }
                            },
                        }
                    } else {
                        Err(ErrorKind::IoError)
                    }
                },
            }
        }
    }
}

} // verus!
