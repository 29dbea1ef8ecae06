//! The byte-exact model of the writer: for every model value the exact byte
//! sequence the codec emits, and the proof that its length is the size the
//! accounting of [`crate::model`] computes.
use vstd::prelude::*;
use vstd::utf8::encode_utf8;
use vstd::bytes::spec_u32_to_le_bytes;
use vstd::bytes::spec_u64_to_le_bytes;
use vstd::bytes::lemma_auto_spec_u32_to_from_le_bytes;
use vstd::bytes::lemma_auto_spec_u64_to_from_le_bytes;

use crate::model::Entries;
use crate::model::Val;
use crate::model::doc_size;
use crate::model::entries_size;
use crate::model::entry_size;
use crate::model::val_size;

verus! {

/// The stable one-byte code that precedes each field, by value kind.
pub open spec fn tag_of(v: Val) -> u8 {
    match v {
        Val::Double(_) => 0x01,
        Val::Text(_) => 0x02,
        Val::SubDoc(_) => 0x03,
        Val::Bool(_) => 0x08,
        Val::UTCDatetime(_) => 0x09,
        Val::Null => 0x0A,
        Val::Regex { .. } => 0x0B,
        Val::Int32(_) => 0x10,
        Val::Int64(_) => 0x12,
    }
}

/// A cstring on the wire: the UTF-8 bytes, then a single NUL.
pub open spec fn enc_cstring(s: Seq<char>) -> Seq<u8> {
    encode_utf8(s) + seq![0u8]
}

/// The payload bytes of one value. Multi-byte integers, the double's bit
/// pattern and embedded length prefixes are little-endian; a string payload is
/// its byte count plus one as a 32-bit prefix, then its cstring.
pub open spec fn enc_val(v: Val) -> Seq<u8>
    decreases v, 0int,
{
    match v {
        Val::Double(b) => spec_u64_to_le_bytes(b),
        Val::Text(s) => spec_u32_to_le_bytes((encode_utf8(s).len() + 1) as u32) + enc_cstring(s),
        Val::SubDoc(m) => enc_doc(m),
        Val::Bool(b) => seq![if b { 1u8 } else { 0u8 }],
        Val::UTCDatetime(t) => spec_u64_to_le_bytes(t as u64),
        Val::Null => Seq::empty(),
        Val::Regex { pat, opts } => enc_cstring(pat) + enc_cstring(opts),
        Val::Int32(x) => spec_u32_to_le_bytes(x as u32),
        Val::Int64(x) => spec_u64_to_le_bytes(x as u64),
    }
}

/// One entry on the wire: tag byte, key cstring, payload.
pub open spec fn enc_entry(k: Seq<char>, v: Val) -> Seq<u8>
    decreases v, 1int,
{
    seq![tag_of(v)] + enc_cstring(k) + enc_val(v)
}

/// A run of entries on the wire, in enumeration order.
pub open spec fn enc_entries(m: Entries) -> Seq<u8>
    decreases m, 0int,
{
    if m.len() == 0 {
        Seq::empty()
    } else {
        enc_entry(m[0].0, m[0].1) + enc_entries(m.drop_first())
    }
}

/// A whole document on the wire: little-endian 32-bit total size, the
/// entries, and the terminating NUL byte.
pub open spec fn enc_doc(m: Entries) -> Seq<u8>
    decreases m, 1int,
{
    spec_u32_to_le_bytes(doc_size(m) as u32) + enc_entries(m) + seq![0u8]
}

/// A value's payload is exactly as long as the size accounting says.
pub proof fn lemma_enc_val_len(v: Val)
    ensures
        enc_val(v).len() == val_size(v),
    decreases v, 0int,
{
    lemma_auto_spec_u32_to_from_le_bytes();
    lemma_auto_spec_u64_to_from_le_bytes();
    match v {
        Val::SubDoc(m) => lemma_enc_doc_len(m),
        _ => {},
    }
}

/// A run of entries is exactly as long as the size accounting says.
pub proof fn lemma_enc_entries_len(m: Entries)
    ensures
        enc_entries(m).len() == entries_size(m),
    decreases m, 0int,
{
    if m.len() != 0 {
        lemma_enc_val_len(m[0].1);
        lemma_enc_entries_len(m.drop_first());
        assert(enc_entry(m[0].0, m[0].1).len() == entry_size(m[0].0, m[0].1));
        assert(entries_size(m) == entry_size(m[0].0, m[0].1) + entries_size(m.drop_first()));
    }
}

/// The bytes of a document are exactly as many as its size: `size` and
/// `write` agree, at any nesting depth.
pub proof fn lemma_enc_doc_len(m: Entries)
    ensures
        enc_doc(m).len() == doc_size(m),
    decreases m, 1int,
{
    lemma_auto_spec_u32_to_from_le_bytes();
    lemma_enc_entries_len(m);
}


/// Encodings concatenate over concatenation of entry runs.
pub proof fn lemma_enc_entries_concat(m1: Entries, m2: Entries)
    ensures
        enc_entries(m1 + m2) == enc_entries(m1) + enc_entries(m2),
    decreases m1,
{
    if m1.len() == 0 {
        assert(m1 + m2 =~= m2);
        assert(enc_entries(m1 + m2) =~= enc_entries(m1) + enc_entries(m2));
    } else {
        assert((m1 + m2).drop_first() =~= m1.drop_first() + m2);
        assert((m1 + m2)[0] == m1[0]);
        lemma_enc_entries_concat(m1.drop_first(), m2);
        assert(enc_entries(m1 + m2) =~= enc_entries(m1) + enc_entries(m2));
    }
}


/// One step of the encoding along a prefix.
pub proof fn lemma_enc_entries_take_step(m: Entries, j: int)
    requires
        0 <= j < m.len(),
    ensures
        enc_entries(m.take(j + 1)) == enc_entries(m.take(j)) + enc_entry(m[j].0, m[j].1),
{
    assert(m.take(j + 1) =~= m.take(j) + seq![m[j]]);
    lemma_enc_entries_concat(m.take(j), seq![m[j]]);
    assert(enc_entries(seq![m[j]]) == enc_entry(m[j].0, m[j].1)) by {
        let single = seq![m[j]];
        assert(single[0] == m[j]);
        assert(single.drop_first() =~= Seq::<(Seq<char>, Val)>::empty());
        assert(enc_entries(single.drop_first()) =~= Seq::<u8>::empty());
        assert(enc_entries(single) == enc_entry(single[0].0, single[0].1) + enc_entries(
            single.drop_first(),
        ));
        assert(enc_entry(m[j].0, m[j].1) + Seq::<u8>::empty() =~= enc_entry(m[j].0, m[j].1));
    }
}

} // verus!
