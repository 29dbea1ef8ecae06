//! Executable cstring helpers: writing a string as its UTF-8 bytes plus a
//! NUL terminator, and scanning one back, with UTF-8 validation.
use vstd::prelude::*;
use vstd::slice::slice_index_get;
use vstd::utf8::decode_utf8;
use vstd::utf8::encode_utf8;
use vstd::utf8::encode_utf8_decode_utf8;
use vstd::utf8::valid_utf8;

use crate::enc::enc_cstring;
use crate::error::BsonError;
use crate::error::ErrorKind;
use crate::lemmas::lemma_cstr_len_of;
use crate::model::no_nul;
use crate::parse::cstr_len;
use crate::parse::parse_cstr;

verus! {

/// Relies on `alloc::string::String::from_utf8`: it succeeds exactly on
/// valid UTF-8 input, and the returned string holds exactly the decoded
/// characters of those bytes.
#[verifier::external_body]
fn string_from_utf8(bytes: Vec<u8>) -> (r: Option<String>)
    ensures
        r is Some <==> valid_utf8(bytes@),
        r is Some ==> r->0@ == decode_utf8(bytes@),
{
    String::from_utf8(bytes).ok()
}

/// Whether no byte of the sequence from `i` on is a NUL: then a cstring scan
/// runs off the end.
pub proof fn lemma_cstr_len_none(b: Seq<u8>, i: int)
    requires
        0 <= i,
        forall|j: int| i <= j < b.len() ==> b[j] != 0,
    ensures
        cstr_len(b, i) is None,
    decreases b.len() - i,
{
    if i < b.len() {
        lemma_cstr_len_none(b, i + 1);
    }
}

/// Two string slices are equal exactly when their characters are: compared
/// byte by byte, since UTF-8 encoding is one to one.
pub fn str_eq(a: &str, b: &str) -> (r: bool)
    ensures
        r == (a@ == b@),
{
    let ab = a.as_bytes();
    let bb = b.as_bytes();
    proof {
        encode_utf8_decode_utf8(a@);
        encode_utf8_decode_utf8(b@);
    }
    if ab.len() != bb.len() {
        return false;
    }
    let n = ab.len();
    for i in 0..n
        invariant
            n == ab@.len(),
            n == bb@.len(),
            ab@ == encode_utf8(a@),
            bb@ == encode_utf8(b@),
            forall|j: int| 0 <= j < i ==> ab@[j] == bb@[j],
    {
        if *slice_index_get(ab, i) != *slice_index_get(bb, i) {
            assert(ab@[i as int] != bb@[i as int]);
            assert(encode_utf8(a@) != encode_utf8(b@));
            return false;
        }
    }
    proof {
        assert(ab@ =~= bb@);
    }
    true
}

/// Append a string to the sink as a cstring: its UTF-8 bytes, then a single
/// NUL terminator. The string must hold no NUL of its own.
pub fn write_cstring(out: &mut Vec<u8>, s: &str)
    requires
        no_nul(s@),
    ensures
        final(out)@ == old(out)@ + enc_cstring(s@),
{
    let bytes = s.as_bytes();
    let n = bytes.len();
    for i in 0..n
        invariant
            n == bytes@.len(),
            bytes@ == encode_utf8(s@),
            out@ == old(out)@ + bytes@.subrange(0, i as int),
    {
        out.push(*slice_index_get(bytes, i));
        proof {
            assert(out@ =~= old(out)@ + bytes@.subrange(0, i + 1));
        }
    }
    out.push(0u8);
    proof {
        assert(bytes@.subrange(0, n as int) =~= bytes@);
        assert(out@ =~= old(out)@ + enc_cstring(s@));
    }
}

/// Read a cstring from `b` at `*pos`: collect bytes up to the first NUL and
/// decode them as UTF-8. Running off the end is the stream error; bytes that
/// do not decode are a string-decode error.
pub fn read_cstring(b: &[u8], pos: &mut usize) -> (r: Result<String, BsonError>)
    requires
        *old(pos) <= b@.len(),
    ensures
        match parse_cstr(b@, *old(pos) as int) {
            Ok((s, c)) => {
                &&& r is Ok
                &&& r->Ok_0@ == s
                &&& *final(pos) == *old(pos) + c
                &&& *final(pos) <= b@.len()
            },
            Err(k) => r is Err && r->Err_0.spec_kind() == k && r->Err_0.spec_desc()
                == crate::error::desc_for(k),
        },
{
    let ghost start = *old(pos) as int;
    let mut bytes: Vec<u8> = Vec::new();
    loop
        invariant
            start == *old(pos) as int,
            0 <= start <= *pos <= b@.len(),
            bytes@ == b@.subrange(start, *pos as int),
            forall|j: int| start <= j < *pos ==> b@[j] != 0,
        decreases b@.len() - *pos,
    {
        if *pos >= b.len() {
            proof {
                lemma_cstr_len_none(b@, start);
            }
            return Err(BsonError::new(ErrorKind::IoError, None));
        }
        let byte = *slice_index_get(b, *pos);
        if byte == 0 {
            proof {
                lemma_cstr_len_of(b@, start, *pos - start);
            }
            *pos = *pos + 1;
            match string_from_utf8(bytes) {
                Some(s) => {
                    return Ok(s);
                },
                None => {
                    return Err(
                        BsonError::new(
                            ErrorKind::StringDecodeError,
                            Some("String not UTF-8 encoded".to_owned()),
                        ),
                    );
                },
            }
        }
        bytes.push(byte);
        *pos = *pos + 1;
        proof {
            assert(bytes@ =~= b@.subrange(start, *pos as int));
        }
    }
}

} // verus!
