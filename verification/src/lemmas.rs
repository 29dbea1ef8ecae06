//! Facts about the models: where a NUL byte can appear in a UTF-8 encoding,
//! how the cstring scanner behaves, how far a successful parse reaches, and
//! that parsed documents are well formed.
use vstd::prelude::*;
use vstd::utf8::char_u32_cast;
use vstd::utf8::decode_utf8;
use vstd::utf8::decode_utf8_encode_utf8;
use vstd::utf8::encode_scalar;
use vstd::utf8::encode_utf8;
use vstd::utf8::encode_utf8_decode_utf8;
use vstd::utf8::encode_utf8_valid_utf8;
use vstd::utf8::is_scalar;

use crate::model::Entries;
use crate::model::Val;
use crate::model::entries_wf;
use crate::model::entry_insert;
use crate::model::has_key;
use crate::model::keys_distinct;
use crate::model::no_nul;
use crate::model::val_wf;
use crate::model::vals_wf;
use crate::parse::cstr_len;
use crate::parse::parse_cstr;
use crate::parse::parse_doc;
use crate::parse::parse_entries;
use crate::parse::parse_value;

verus! {

/// The one-byte encoding of scalar zero is the only place a NUL byte occurs
/// in the UTF-8 encoding of a scalar.
pub proof fn lemma_encode_scalar_nul(s: u32)
    requires
        is_scalar(s),
    ensures
        encode_scalar(s).contains(0u8) <==> s == 0,
{
    if vstd::utf8::has_width_1_encoding(s) {
        assert((s & 0x7F) == s) by (bit_vector)
            requires
                s < 0x80,
        ;
        assert(encode_scalar(s)[0] == (s & 0x7F) as u8);
        if s == 0 {
            assert(encode_scalar(s).contains(0u8));
        } else {
            assert(forall|i: int| 0 <= i < encode_scalar(s).len() ==> encode_scalar(s)[i] != 0u8);
        }
    } else {
        assert(0xC0 | ((s >> 6) & 0x1F) as u8 != 0u8) by (bit_vector);
        assert(0xE0 | ((s >> 12) & 0x0F) as u8 != 0u8) by (bit_vector);
        assert(0xF0 | ((s >> 18) & 0x7) as u8 != 0u8) by (bit_vector);
        assert(0x80 | (s & 0x3F) as u8 != 0u8) by (bit_vector);
        assert(0x80 | ((s >> 6) & 0x3F) as u8 != 0u8) by (bit_vector);
        assert(0x80 | ((s >> 12) & 0x3F) as u8 != 0u8) by (bit_vector);
        assert(forall|i: int| 0 <= i < encode_scalar(s).len() ==> encode_scalar(s)[i] != 0u8);
        assert(s != 0);
    }
}

/// A UTF-8 encoding holds a NUL byte exactly when the characters hold the
/// NUL character.
pub proof fn lemma_encode_utf8_nul(s: Seq<char>)
    ensures
        encode_utf8(s).contains(0u8) <==> s.contains('\0'),
    decreases s.len(),
{
    if s.len() == 0 {
        assert(!encode_utf8(s).contains(0u8));
        assert(!s.contains('\0'));
    } else {
        let head = encode_scalar(s[0] as u32);
        let tail = encode_utf8(s.drop_first());
        vstd::utf8::char_is_scalar(s[0]);
        lemma_encode_scalar_nul(s[0] as u32);
        lemma_encode_utf8_nul(s.drop_first());
        assert(encode_utf8(s) == head + tail);
        if encode_utf8(s).contains(0u8) {
            let i = choose|i: int| 0 <= i < encode_utf8(s).len() && encode_utf8(s)[i] == 0u8;
            if i < head.len() {
                assert(head.contains(0u8));
                assert(s[0] as u32 == 0);
                char_u32_cast(s[0], 0);
                assert(s[0] == '\0');
                assert(s.contains('\0'));
            } else {
                assert(tail[i - head.len()] == 0u8);
                assert(tail.contains(0u8));
                let j = choose|j: int| 0 <= j < s.drop_first().len() && s.drop_first()[j] == '\0';
                assert(s[j + 1] == '\0');
                assert(s.contains('\0'));
            }
        }
        if s.contains('\0') {
            let j = choose|j: int| 0 <= j < s.len() && s[j] == '\0';
            if j == 0 {
                assert(s[0] as u32 == 0);
                assert(head.contains(0u8));
                let i = choose|i: int| 0 <= i < head.len() && head[i] == 0u8;
                assert(encode_utf8(s)[i] == 0u8);
                assert(encode_utf8(s).contains(0u8));
            } else {
                assert(s.drop_first()[j - 1] == '\0');
                assert(s.drop_first().contains('\0'));
                assert(tail.contains(0u8));
                let i = choose|i: int| 0 <= i < tail.len() && tail[i] == 0u8;
                assert(encode_utf8(s)[head.len() + i] == 0u8);
                assert(encode_utf8(s).contains(0u8));
            }
        }
    }
}

/// What a successful cstring scan says about the input: the terminator sits
/// just past `n` NUL-free bytes, inside the input.
pub proof fn lemma_cstr_len_bounds(b: Seq<u8>, i: int)
    requires
        cstr_len(b, i) is Some,
    ensures
        0 <= i,
        i + cstr_len(b, i)->0 < b.len(),
        b[i + cstr_len(b, i)->0] == 0,
        forall|j: int| i <= j < i + cstr_len(b, i)->0 ==> b[j] != 0,
    decreases b.len() - i,
{
    if 0 <= i < b.len() && b[i] != 0 {
        lemma_cstr_len_bounds(b, i + 1);
    }
}

/// The scan finds exactly the NUL that ends a NUL-free run.
pub proof fn lemma_cstr_len_of(b: Seq<u8>, i: int, n: int)
    requires
        0 <= i,
        0 <= n,
        i + n < b.len(),
        b[i + n] == 0,
        forall|j: int| i <= j < i + n ==> b[j] != 0,
    ensures
        cstr_len(b, i) == Some(n as nat),
    decreases n,
{
    if n > 0 {
        lemma_cstr_len_of(b, i + 1, n - 1);
    }
}

/// Parsing a cstring the writer laid down gives back exactly the written
/// characters, consuming the bytes and the terminator.
pub proof fn lemma_parse_cstr_enc(b: Seq<u8>, i: int, s: Seq<char>)
    requires
        no_nul(s),
        0 <= i,
        i + encode_utf8(s).len() + 1 <= b.len(),
        b.subrange(i, i + encode_utf8(s).len() as int) == encode_utf8(s),
        b[i + encode_utf8(s).len()] == 0,
    ensures
        parse_cstr(b, i) == Ok::<_, crate::error::ErrorKind>(
            (s, (encode_utf8(s).len() + 1) as nat),
        ),
{
    let e = encode_utf8(s);
    lemma_encode_utf8_nul(s);
    assert(forall|j: int| i <= j < i + e.len() ==> b[j] == e[j - i] && b[j] != 0u8) by {
        assert(forall|t: int| 0 <= t < e.len() ==> e[t] != 0u8) by {
            assert(!e.contains(0u8));
        }
        assert(forall|j: int| i <= j < i + e.len() ==> b[j] == b.subrange(
            i,
            i + e.len() as int,
        )[j - i]);
    }
    lemma_cstr_len_of(b, i, e.len() as int);
    encode_utf8_valid_utf8(s);
    encode_utf8_decode_utf8(s);
    assert(b.subrange(i, i + cstr_len(b, i)->0) == e);
}

/// A successful cstring parse stays within the input and consumes at least
/// the terminator.
pub proof fn lemma_parse_cstr_bounds(b: Seq<u8>, i: int)
    requires
        parse_cstr(b, i) is Ok,
    ensures
        0 <= i,
        1 <= parse_cstr(b, i)->Ok_0.1,
        i + parse_cstr(b, i)->Ok_0.1 <= b.len(),
{
    lemma_cstr_len_bounds(b, i);
}


/// A parsed cstring never holds the NUL character: the scan stopped at the
/// first NUL byte, and a NUL character would have put one earlier.
pub proof fn lemma_parse_cstr_no_nul(b: Seq<u8>, i: int)
    requires
        parse_cstr(b, i) is Ok,
    ensures
        no_nul(parse_cstr(b, i)->Ok_0.0),
{
    let n = cstr_len(b, i)->0 as int;
    let raw = b.subrange(i, i + n);
    lemma_cstr_len_bounds(b, i);
    assert(forall|t: int| 0 <= t < raw.len() ==> raw[t] != 0u8);
    assert(!raw.contains(0u8));
    decode_utf8_encode_utf8(raw);
    lemma_encode_utf8_nul(decode_utf8(raw));
}

/// What a successful value parse guarantees: it stays inside the input and
/// yields a well-formed value.
pub proof fn lemma_parse_value_props(b: Seq<u8>, i: int, tag: u8)
    requires
        parse_value(b, i, tag) is Ok,
        i <= b.len(),
    ensures
        i + parse_value(b, i, tag)->Ok_0.1 <= b.len(),
        val_wf(parse_value(b, i, tag)->Ok_0.0),
    decreases b.len() - i, 1int,
{
    if tag == 0x02 {
        lemma_parse_cstr_bounds(b, i + 4);
        lemma_parse_cstr_no_nul(b, i + 4);
    } else if tag == 0x03 {
        lemma_parse_doc_props(b, i);
    } else if tag == 0x0B {
        lemma_parse_cstr_bounds(b, i);
        lemma_parse_cstr_no_nul(b, i);
        let c1 = parse_cstr(b, i)->Ok_0.1;
        lemma_parse_cstr_bounds(b, i + c1 as int);
        lemma_parse_cstr_no_nul(b, i + c1 as int);
    }
}

/// What a successful document parse guarantees: it stays inside the input
/// and yields well-formed entries.
pub proof fn lemma_parse_doc_props(b: Seq<u8>, i: int)
    requires
        parse_doc(b, i) is Ok,
    ensures
        i + parse_doc(b, i)->Ok_0.1 <= b.len(),
        5 <= parse_doc(b, i)->Ok_0.1,
        entries_wf(parse_doc(b, i)->Ok_0.0),
    decreases b.len() - i, 0int,
{
    lemma_parse_entries_props(b, i + 4, Seq::empty());
}

/// What a successful entries parse guarantees, given well-formed entries
/// accumulated so far.
pub proof fn lemma_parse_entries_props(b: Seq<u8>, i: int, acc: Entries)
    requires
        parse_entries(b, i, acc) is Ok,
        entries_wf(acc),
    ensures
        i + parse_entries(b, i, acc)->Ok_0.1 <= b.len(),
        1 <= parse_entries(b, i, acc)->Ok_0.1,
        entries_wf(parse_entries(b, i, acc)->Ok_0.0),
    decreases b.len() - i, 2int,
{
    let tag = b[i];
    if tag != 0 {
        let (key, c) = parse_cstr(b, i + 1)->Ok_0;
        lemma_parse_cstr_bounds(b, i + 1);
        lemma_parse_cstr_no_nul(b, i + 1);
        let (v, vc) = parse_value(b, i + 1 + c as int, tag)->Ok_0;
        lemma_parse_value_props(b, i + 1 + c as int, tag);
        lemma_entry_insert_wf(acc, key, v);
        lemma_parse_entries_props(b, i + 1 + c as int + vc as int, entry_insert(acc, key, v));
    }
}

/// Inserting with overwrite keeps exactly the old keys plus the new one.
pub proof fn lemma_entry_insert_keys(m: Entries, k: Seq<char>, v: Val)
    ensures
        forall|k2: Seq<char>|
            #[trigger] has_key(entry_insert(m, k, v), k2) <==> (k2 == k || has_key(m, k2)),
        entry_insert(m, k, v).len() <= m.len() + 1,
    decreases m,
{
    let r = entry_insert(m, k, v);
    if m.len() == 0 {
        assert(forall|k2: Seq<char>| #[trigger] has_key(r, k2) ==> r[choose|j: int| 0 <= j < r.len() && r[j].0 == k2].0 == k2);
        assert(r[0].0 == k);
        assert(has_key(r, k));
    } else if m[0].0 == k {
        assert forall|k2: Seq<char>| #[trigger] has_key(r, k2) implies (k2 == k || has_key(m, k2)) by {
            let j = choose|j: int| 0 <= j < r.len() && r[j].0 == k2;
            if j > 0 {
                assert(m[j] == r[j]);
            }
        }
        assert forall|k2: Seq<char>| k2 == k || has_key(m, k2) implies #[trigger] has_key(r, k2) by {
            if k2 == k {
                assert(r[0].0 == k);
            } else {
                let j = choose|j: int| 0 <= j < m.len() && m[j].0 == k2;
                assert(j != 0);
                assert(r[j] == m[j]);
            }
        }
    } else {
        lemma_entry_insert_keys(m.drop_first(), k, v);
        let rr = entry_insert(m.drop_first(), k, v);
        assert(r == seq![m[0]] + rr);
        assert forall|k2: Seq<char>| #[trigger] has_key(r, k2) implies (k2 == k || has_key(m, k2)) by {
            let j = choose|j: int| 0 <= j < r.len() && r[j].0 == k2;
            if j == 0 {
                assert(m[0].0 == k2);
            } else {
                assert(rr[j - 1].0 == k2);
                assert(has_key(rr, k2));
                if k2 != k {
                    let t = choose|t: int| 0 <= t < m.drop_first().len() && m.drop_first()[t].0 == k2;
                    assert(m[t + 1].0 == k2);
                }
            }
        }
        assert forall|k2: Seq<char>| k2 == k || has_key(m, k2) implies #[trigger] has_key(r, k2) by {
            if k2 == k {
                assert(has_key(rr, k2));
                let t = choose|t: int| 0 <= t < rr.len() && rr[t].0 == k2;
                assert(r[t + 1].0 == k2);
            } else {
                let j = choose|j: int| 0 <= j < m.len() && m[j].0 == k2;
                if j == 0 {
                    assert(r[0].0 == k2);
                } else {
                    assert(m.drop_first()[j - 1].0 == k2);
                    assert(has_key(rr, k2));
                    let t = choose|t: int| 0 <= t < rr.len() && rr[t].0 == k2;
                    assert(r[t + 1].0 == k2);
                }
            }
        }
    }
}

/// Inserting a well-formed value under a NUL-free key into well-formed
/// entries keeps them well formed.
pub proof fn lemma_entry_insert_wf(m: Entries, k: Seq<char>, v: Val)
    requires
        entries_wf(m),
        no_nul(k),
        val_wf(v),
    ensures
        entries_wf(entry_insert(m, k, v)),
    decreases m,
{
    let r = entry_insert(m, k, v);
    if m.len() == 0 {
        assert(r =~= seq![(k, v)]);
        assert(vals_wf(r.drop_first()));
    } else if m[0].0 == k {
        assert(r.drop_first() =~= m.drop_first());
        assert(vals_wf(m.drop_first()));
        assert(vals_wf(r));
        assert forall|x: int, y: int| 0 <= x < y < r.len() implies r[x].0 != r[y].0 by {
            if x > 0 {
                assert(r[x] == m[x] && r[y] == m[y]);
            } else {
                assert(r[y] == m[y]);
            }
        }
    } else {
        assert(keys_distinct(m.drop_first())) by {
            assert(forall|x: int, y: int|
                0 <= x < y < m.drop_first().len() ==> m.drop_first()[x] == m[x + 1]
                    && m.drop_first()[y] == m[y + 1]);
        }
        lemma_entry_insert_wf(m.drop_first(), k, v);
        lemma_entry_insert_keys(m.drop_first(), k, v);
        let rr = entry_insert(m.drop_first(), k, v);
        assert(r == seq![m[0]] + rr);
        assert(r.drop_first() =~= rr);
        assert(vals_wf(rr));
        assert(no_nul(m[0].0) && val_wf(m[0].1));
        assert(vals_wf(r));
        assert forall|x: int, y: int| 0 <= x < y < r.len() implies r[x].0 != r[y].0 by {
            if x == 0 {
                assert(r[y] == rr[y - 1]);
                assert(has_key(rr, rr[y - 1].0));
                if r[0].0 == rr[y - 1].0 {
                    assert(rr[y - 1].0 == k || has_key(m.drop_first(), rr[y - 1].0));
                    if has_key(m.drop_first(), rr[y - 1].0) {
                        let t = choose|t: int|
                            0 <= t < m.drop_first().len() && m.drop_first()[t].0 == rr[y - 1].0;
                        assert(m[t + 1].0 == m[0].0);
                    }
                }
            } else {
                assert(r[x] == rr[x - 1] && r[y] == rr[y - 1]);
            }
        }
    }
}


/// Inserting under the first index that carries the key overwrites in place.
pub proof fn lemma_entry_insert_found(m: Entries, k: Seq<char>, v: Val, j: int)
    requires
        0 <= j < m.len(),
        m[j].0 == k,
        forall|t: int| 0 <= t < j ==> m[t].0 != k,
    ensures
        entry_insert(m, k, v) == m.update(j, (k, v)),
    decreases m,
{
    if j == 0 {
        assert(entry_insert(m, k, v) =~= m.update(0, (k, v)));
    } else {
        assert(m[0].0 != k);
        assert(m.drop_first()[j - 1].0 == k);
        assert(forall|t: int| 0 <= t < j - 1 ==> m.drop_first()[t] == m[t + 1]);
        lemma_entry_insert_found(m.drop_first(), k, v, j - 1);
        assert(entry_insert(m, k, v) =~= m.update(j, (k, v)));
    }
}

} // verus!
