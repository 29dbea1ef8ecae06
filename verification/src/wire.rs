//! Executable little-endian helpers over byte buffers: fixed-width reads
//! that advance a position, and fixed-width appends to a sink.
use vstd::prelude::*;
use vstd::bytes::spec_u32_to_le_bytes;
use vstd::bytes::spec_u64_to_le_bytes;
use vstd::bytes::u32_from_le_bytes;
use vstd::bytes::u32_to_le_bytes;
use vstd::bytes::u64_from_le_bytes;
use vstd::bytes::u64_to_le_bytes;
use vstd::slice::slice_subrange;

use crate::error::BsonError;
use crate::error::ErrorKind;
use crate::parse::le_u32_at;
use crate::parse::le_u64_at;

verus! {

/// Read a little-endian 32-bit value at `*pos`; too few remaining bytes are
/// the stream error.
pub(crate) fn read_u32_le(b: &[u8], pos: &mut usize) -> (r: Result<u32, BsonError>)
    requires
        *old(pos) <= b@.len(),
    ensures
        *old(pos) + 4 <= b@.len() ==> {
            &&& r is Ok
            &&& r->Ok_0 == le_u32_at(b@, *old(pos) as int)
            &&& *final(pos) == *old(pos) + 4
        },
        *old(pos) + 4 > b@.len() ==> r is Err && r->Err_0.spec_kind() == ErrorKind::IoError
            && r->Err_0.spec_desc() == crate::error::desc_for(ErrorKind::IoError),
{
    if b.len() - *pos >= 4 {
        let s = slice_subrange(b, *pos, *pos + 4);
        let x = u32_from_le_bytes(s);
        *pos = *pos + 4;
        Ok(x)
    } else {
        Err(BsonError::new(ErrorKind::IoError, None))
    }
}

/// Read a little-endian 64-bit value at `*pos`; too few remaining bytes are
/// the stream error.
pub(crate) fn read_u64_le(b: &[u8], pos: &mut usize) -> (r: Result<u64, BsonError>)
    requires
        *old(pos) <= b@.len(),
    ensures
        *old(pos) + 8 <= b@.len() ==> {
            &&& r is Ok
            &&& r->Ok_0 == le_u64_at(b@, *old(pos) as int)
            &&& *final(pos) == *old(pos) + 8
        },
        *old(pos) + 8 > b@.len() ==> r is Err && r->Err_0.spec_kind() == ErrorKind::IoError
            && r->Err_0.spec_desc() == crate::error::desc_for(ErrorKind::IoError),
{
    if b.len() - *pos >= 8 {
        let s = slice_subrange(b, *pos, *pos + 8);
        let x = u64_from_le_bytes(s);
        *pos = *pos + 8;
        Ok(x)
    } else {
        Err(BsonError::new(ErrorKind::IoError, None))
    }
}

/// Append the four little-endian bytes of a 32-bit value.
pub(crate) fn write_u32_le(out: &mut Vec<u8>, x: u32)
    ensures
        final(out)@ == old(out)@ + spec_u32_to_le_bytes(x),
{
    let mut bytes = u32_to_le_bytes(x);
    out.append(&mut bytes);
}

/// Append the eight little-endian bytes of a 64-bit value.
pub(crate) fn write_u64_le(out: &mut Vec<u8>, x: u64)
    ensures
        final(out)@ == old(out)@ + spec_u64_to_le_bytes(x),
{
    let mut bytes = u64_to_le_bytes(x);
    out.append(&mut bytes);
}

} // verus!
