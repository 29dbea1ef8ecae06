//! The format's laws, stated over the models that the exec contracts use:
//! the round trip, the size accounting, and the stability of the tag codes.
use vstd::prelude::*;

use crate::enc::enc_doc;
use crate::enc::enc_entry;
use crate::enc::lemma_enc_doc_len;
use crate::enc::tag_of;
use crate::error::ErrorKind;
use crate::model::Entries;
use crate::model::Val;
use crate::model::doc_size;
use crate::model::entries_wf;
use crate::parse::parse_doc;
use crate::roundtrip::lemma_parse_enc_doc;

verus! {

/// Round-trip law: parsing the bytes the writer emits for any well-formed
/// document that fits the 32-bit length prefix gives back exactly that
/// document, consuming exactly its size. Together with the contracts of
/// `Document::to_bytes` and `Document::from_bytes`, this is
/// `read(write(d)) == d`.
pub proof fn lemma_round_trip(m: Entries)
    requires
        entries_wf(m),
        doc_size(m) <= i32::MAX,
    ensures
        parse_doc(enc_doc(m), 0) == Ok::<_, ErrorKind>((m, doc_size(m) as nat)),
{
    lemma_enc_doc_len(m);
    let b = enc_doc(m);
    assert(b.subrange(0, doc_size(m)) =~= b);
    lemma_parse_enc_doc(b, 0, m);
}

/// Size law: the writer emits exactly `doc_size(m)` bytes for every
/// document, nested documents included. Together with the contracts of
/// `Document::size` and `Document::to_bytes`, this is
/// `size(d) == len(write(d))`.
pub proof fn lemma_size_is_length(m: Entries)
    ensures
        enc_doc(m).len() == doc_size(m),
{
    lemma_enc_doc_len(m);
}

/// Tag-code stability: every entry the writer emits begins with its value
/// kind's fixed one-byte code, and those codes are the table of the format.
pub proof fn lemma_tag_codes(k: Seq<char>, v: Val)
    ensures
        enc_entry(k, v).len() > 0,
        enc_entry(k, v)[0] == tag_of(v),
        v is Double ==> tag_of(v) == 0x01,
        v is Text ==> tag_of(v) == 0x02,
        v is SubDoc ==> tag_of(v) == 0x03,
        v is Bool ==> tag_of(v) == 0x08,
        v is UTCDatetime ==> tag_of(v) == 0x09,
        v is Null ==> tag_of(v) == 0x0A,
        v is Regex ==> tag_of(v) == 0x0B,
        v is Int32 ==> tag_of(v) == 0x10,
        v is Int64 ==> tag_of(v) == 0x12,
{
    assert(enc_entry(k, v)[0] == tag_of(v)) by {
        assert((seq![tag_of(v)] + crate::enc::enc_cstring(k))[0] == tag_of(v));
    }
}

} // verus!
