//! The inversion argument: the parser of [`crate::parse`] applied to the
//! bytes of the encoder of [`crate::enc`] gives back exactly the encoded
//! entries. This is the round-trip law at the level of the models; the exec
//! `read` and `write` carry it through their contracts.
use vstd::prelude::*;
use vstd::utf8::encode_utf8;
use vstd::bytes::lemma_auto_spec_u32_to_from_le_bytes;
use vstd::bytes::lemma_auto_spec_u64_to_from_le_bytes;

use crate::enc::enc_cstring;
use crate::enc::enc_doc;
use crate::enc::enc_entries;
use crate::enc::enc_entry;
use crate::enc::enc_val;
use crate::enc::lemma_enc_entries_len;
use crate::enc::lemma_enc_val_len;
use crate::enc::tag_of;
use crate::error::ErrorKind;
use crate::lemmas::lemma_parse_cstr_enc;
use crate::model::Entries;
use crate::model::Val;
use crate::model::doc_size;
use crate::model::entries_size;
use crate::model::entries_wf;
use crate::model::entry_insert;
use crate::model::entry_size;
use crate::model::has_key;
use crate::model::keys_distinct;
use crate::model::lemma_entries_size_nonneg;
use crate::model::lemma_val_size_nonneg;
use crate::model::no_nul;
use crate::model::val_size;
use crate::model::val_wf;
use crate::model::vals_wf;
use crate::parse::parse_cstr;
use crate::parse::parse_doc;
use crate::parse::parse_entries;
use crate::parse::parse_value;

verus! {

/// Inserting under a key that is not present appends the entry.
pub proof fn lemma_entry_insert_fresh(m: Entries, k: Seq<char>, v: Val)
    requires
        !has_key(m, k),
    ensures
        entry_insert(m, k, v) == m.push((k, v)),
    decreases m,
{
    if m.len() == 0 {
        assert(entry_insert(m, k, v) =~= m.push((k, v)));
    } else {
        assert(m[0].0 != k);
        assert(!has_key(m.drop_first(), k)) by {
            if has_key(m.drop_first(), k) {
                let j = choose|j: int| 0 <= j < m.drop_first().len() && m.drop_first()[j].0 == k;
                assert(m[j + 1].0 == k);
            }
        }
        lemma_entry_insert_fresh(m.drop_first(), k, v);
        assert(entry_insert(m, k, v) =~= m.push((k, v)));
    }
}

/// Parsing the payload the writer emitted for a well-formed value gives that
/// value back and consumes exactly its size.
pub proof fn lemma_parse_enc_val(b: Seq<u8>, i: int, v: Val)
    requires
        val_wf(v),
        val_size(v) <= 0x7fffffff,
        0 <= i,
        i + val_size(v) <= b.len(),
        b.subrange(i, i + val_size(v)) == enc_val(v),
    ensures
        parse_value(b, i, tag_of(v)) == Ok::<_, ErrorKind>((v, val_size(v) as nat)),
    decreases v, 0int,
{
    lemma_auto_spec_u32_to_from_le_bytes();
    lemma_auto_spec_u64_to_from_le_bytes();
    let w = b.subrange(i, i + val_size(v));
    match v {
        Val::Double(x) => {
            assert(b.subrange(i, i + 8) =~= w);
        },
        Val::Text(s) => {
            let e = encode_utf8(s);
            let el = e.len() as int;
            let lpre = vstd::bytes::spec_u32_to_le_bytes((el + 1) as u32);
            assert(w == lpre + enc_cstring(s));
            assert(lpre.len() == 4);
            assert(b.subrange(i, i + 4) =~= lpre);
            assert(vstd::bytes::spec_u32_from_le_bytes(lpre) == (el + 1) as u32);
            assert((el + 1) as u32 as i32 == el + 1);
            assert(b.subrange(i + 4, i + 4 + el) =~= e) by {
                assert(forall|t: int| 0 <= t < el ==> w[4 + t] == e[t]);
            }
            assert(b[i + 4 + el] == w[4 + el]);
            assert(w[4 + el] == enc_cstring(s)[el]);
            assert(enc_cstring(s)[el] == 0u8);
            lemma_parse_cstr_enc(b, i + 4, s);
        },
        Val::SubDoc(m) => {
            lemma_parse_enc_doc(b, i, m);
        },
        Val::Bool(x) => {
            assert(b[i] == w[0]);
            assert(w[0] == (if x { 1u8 } else { 0u8 }));
        },
        Val::UTCDatetime(t) => {
            assert(b.subrange(i, i + 8) =~= w);
            assert(t as u64 as i64 == t) by (bit_vector);
        },
        Val::Null => {},
        Val::Regex { pat, opts } => {
            let ep = encode_utf8(pat);
            let eo = encode_utf8(opts);
            let pl = ep.len() as int;
            let ol = eo.len() as int;
            assert(w == enc_cstring(pat) + enc_cstring(opts));
            assert(b.subrange(i, i + pl) =~= ep) by {
                assert(forall|t: int| 0 <= t < pl ==> w[t] == enc_cstring(pat)[t] && enc_cstring(
                    pat,
                )[t] == ep[t]);
            }
            assert(b[i + pl] == w[pl]);
            assert(w[pl] == enc_cstring(pat)[pl]);
            lemma_parse_cstr_enc(b, i, pat);
            let c1 = (pl + 1) as int;
            assert(b.subrange(i + c1, i + c1 + ol) =~= eo) by {
                assert(forall|t: int| 0 <= t < ol ==> w[c1 + t] == enc_cstring(opts)[t]
                    && enc_cstring(opts)[t] == eo[t]);
            }
            assert(b[i + c1 + ol] == w[c1 + ol]);
            assert(w[c1 + ol] == enc_cstring(opts)[ol]);
            lemma_parse_cstr_enc(b, i + c1, opts);
        },
        Val::Int32(x) => {
            assert(b.subrange(i, i + 4) =~= w);
            assert(x as u32 as i32 == x) by (bit_vector);
        },
        Val::Int64(x) => {
            assert(b.subrange(i, i + 8) =~= w);
            assert(x as u64 as i64 == x) by (bit_vector);
        },
    }
}

/// Parsing the bytes the writer emitted for a run of well-formed entries,
/// terminator included, appends exactly those entries to the accumulator.
pub proof fn lemma_parse_enc_entries(b: Seq<u8>, i: int, m: Entries, acc: Entries)
    requires
        vals_wf(m),
        keys_distinct(acc + m),
        entries_size(m) <= 0x7fffffff,
        0 <= i,
        i + entries_size(m) + 1 <= b.len(),
        b.subrange(i, i + entries_size(m)) == enc_entries(m),
        b[i + entries_size(m)] == 0,
    ensures
        parse_entries(b, i, acc) == Ok::<_, ErrorKind>(
            (acc + m, (entries_size(m) + 1) as nat),
        ),
    decreases m, 0int,
{
    lemma_entries_size_nonneg(m);
    if m.len() == 0 {
        assert(b[i] == 0);
        assert(acc + m =~= acc);
    } else {
        let k = m[0].0;
        let v = m[0].1;
        let e = encode_utf8(k);
        let el = e.len() as int;
        let vs = val_size(v);
        let es = entry_size(k, v);
        let rest = m.drop_first();
        lemma_val_size_nonneg(v);
        lemma_entries_size_nonneg(rest);
        lemma_enc_val_len(v);
        lemma_enc_entries_len(rest);
        let w = b.subrange(i, i + entries_size(m));
        assert(w == enc_entry(k, v) + enc_entries(rest));
        assert(enc_entry(k, v) == seq![tag_of(v)] + enc_cstring(k) + enc_val(v));
        assert(enc_entry(k, v).len() == es) by {
            lemma_enc_val_len(v);
        }
        // the tag byte
        assert(b[i] == w[0]);
        assert(w[0] == enc_entry(k, v)[0]);
        assert(enc_entry(k, v)[0] == tag_of(v)) by {
            assert((seq![tag_of(v)] + enc_cstring(k))[0] == tag_of(v));
        }
        assert(tag_of(v) != 0);
        // the key cstring
        assert(forall|t: int| 0 <= t < es ==> w[t] == enc_entry(k, v)[t]);
        assert(forall|t: int| 0 <= t < el + 1 ==> enc_entry(k, v)[1 + t] == enc_cstring(k)[t])
            by {
            assert(forall|t: int| 0 <= t < el + 1 ==> (seq![tag_of(v)] + enc_cstring(k))[1 + t]
                == enc_cstring(k)[t]);
        }
        assert(b.subrange(i + 1, i + 1 + el) =~= e) by {
            assert(forall|t: int| 0 <= t < el ==> b[i + 1 + t] == w[1 + t] && w[1 + t]
                == enc_cstring(k)[t] && enc_cstring(k)[t] == e[t]);
        }
        assert(b[i + 1 + el] == w[1 + el]);
        assert(w[1 + el] == enc_cstring(k)[el]);
        assert(enc_cstring(k)[el] == 0u8);
        assert(no_nul(k) && val_wf(v));
        lemma_parse_cstr_enc(b, i + 1, k);
        assert(parse_cstr(b, i + 1) == Ok::<_, ErrorKind>((k, (el + 1) as nat)));
        let c = (el + 1) as int;
        // the value payload
        assert(forall|t: int| 0 <= t < vs ==> enc_entry(k, v)[1 + c + t] == enc_val(v)[t]);
        assert(b.subrange(i + 1 + c, i + 1 + c + vs) =~= enc_val(v)) by {
            assert(forall|t: int| 0 <= t < vs ==> b[i + 1 + c + t] == w[1 + c + t] && w[1 + c + t]
                == enc_val(v)[t]);
        }
        assert(vs <= entries_size(m));
        lemma_parse_enc_val(b, i + 1 + c, v);
        // the accumulated entry, then the remaining entries
        assert(!has_key(acc, k)) by {
            if has_key(acc, k) {
                let j = choose|j: int| 0 <= j < acc.len() && acc[j].0 == k;
                assert((acc + m)[j].0 == k);
                assert((acc + m)[acc.len() as int].0 == k);
            }
        }
        lemma_entry_insert_fresh(acc, k, v);
        assert((k, v) == m[0]);
        let acc2 = acc.push(m[0]);
        assert(acc2 + rest =~= acc + m);
        let i2 = i + 1 + c + vs;
        assert(i2 == i + es);
        assert(b.subrange(i2, i2 + entries_size(rest)) =~= enc_entries(rest)) by {
            assert(forall|t: int| 0 <= t < entries_size(rest) ==> b[i2 + t] == w[es + t] && w[es
                + t] == enc_entries(rest)[t]);
        }
        assert(b[i2 + entries_size(rest)] == 0);
        lemma_parse_enc_entries(b, i2, rest, acc2);
        assert(parse_entries(b, i, acc) == Ok::<_, ErrorKind>(
            (acc + m, (entries_size(m) + 1) as nat),
        ));
    }
}

/// Parsing the bytes the writer emitted for a whole well-formed document
/// gives back exactly its entries and consumes exactly its size.
pub proof fn lemma_parse_enc_doc(b: Seq<u8>, i: int, m: Entries)
    requires
        entries_wf(m),
        doc_size(m) <= 0x7fffffff,
        0 <= i,
        i + doc_size(m) <= b.len(),
        b.subrange(i, i + doc_size(m)) == enc_doc(m),
    ensures
        parse_doc(b, i) == Ok::<_, ErrorKind>((m, doc_size(m) as nat)),
    decreases m, 1int,
{
    lemma_auto_spec_u32_to_from_le_bytes();
    lemma_entries_size_nonneg(m);
    lemma_enc_entries_len(m);
    let w = b.subrange(i, i + doc_size(m));
    let lpre = vstd::bytes::spec_u32_to_le_bytes(doc_size(m) as u32);
    assert(w == lpre + enc_entries(m) + seq![0u8]);
    assert(lpre.len() == 4);
    assert(b.subrange(i, i + 4) =~= lpre) by {
        assert(forall|t: int| 0 <= t < 4 ==> b[i + t] == w[t] && w[t] == lpre[t]);
    }
    assert(vstd::bytes::spec_u32_from_le_bytes(lpre) == doc_size(m) as u32);
    assert(doc_size(m) as u32 as i32 == doc_size(m));
    let es = entries_size(m);
    assert(b.subrange(i + 4, i + 4 + es) =~= enc_entries(m)) by {
        assert(forall|t: int| 0 <= t < es ==> b[i + 4 + t] == w[4 + t] && w[4 + t]
            == ((lpre + enc_entries(m))[4 + t]) && (lpre + enc_entries(m))[4 + t]
            == enc_entries(m)[t]);
    }
    assert(b[i + 4 + es] == w[4 + es]);
    assert(w[4 + es] == 0u8);
    assert(keys_distinct(Seq::<(Seq<char>, Val)>::empty() + m)) by {
        assert(Seq::<(Seq<char>, Val)>::empty() + m =~= m);
    }
    lemma_parse_enc_entries(b, i + 4, m, Seq::empty());
    assert(Seq::<(Seq<char>, Val)>::empty() + m =~= m);
}

} // verus!
