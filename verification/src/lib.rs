//! A binary document serialization format: a self-describing, length-prefixed,
//! tagged encoding for a small set of scalar and nested-document value types.
//!
//! A [`Document`] maps string keys to [`BsonValue`]s. `write`/`to_bytes` emit
//! the wire form `<int32 LE total-size><entry>*<0x00>`, where each entry is
//! `<u8 tag><cstring key><payload>`; `read`/`from_bytes` parse it back and
//! validate the declared size against the size recomputed from the parsed
//! content.
mod cstring;
pub mod enc;
pub mod error;
pub mod laws;
pub mod lemmas;
pub mod model;
pub mod parse;
pub mod roundtrip;
mod wire;

use vstd::prelude::*;

use model::doc_size;
use model::has_key;
use model::entry_size;
use model::lemma_entries_size_nonneg;
use model::lemma_entries_size_prefix;
use model::lemma_entries_size_take_step;
use model::lemma_entries_view_index;
use model::lemma_entries_view_push;
use model::lemma_val_size_nonneg;
use model::lemma_vals_wf_index;
use model::lemma_vals_wf_index_refute;
use model::no_nul;
use model::val_size;
use model::val_wf;
use model::keys_distinct;
use lemmas::lemma_entry_insert_found;
use lemmas::lemma_entry_insert_wf;
use roundtrip::lemma_entry_insert_fresh;

pub use cstring::read_cstring;
pub use cstring::str_eq;
pub use cstring::write_cstring;
pub use error::BsonError;
pub use error::ErrorKind;
pub use error::desc_for;
pub use laws::lemma_round_trip;
pub use laws::lemma_size_is_length;
pub use laws::lemma_tag_codes;
pub use model::Entries;
pub use model::Val;
pub use model::entries_wf;
pub use model::entry_insert;
pub use model::val_view;
pub use model::entries_view;

verus! {

/// A value of the format: a closed tagged union of the supported scalar and
/// container kinds.
///
/// A 64-bit float is carried as its IEEE-754 bit pattern (`Double` holds the
/// result of `f64::to_bits`), so that the codec's byte-exact behaviour can be
/// stated and checked over plain integers.
#[derive(Debug, PartialEq)]
pub enum BsonValue {
    Double(u64),
    String(String),
    Doc(Document),
    Bool(bool),
    UTCDatetime(i64),
    Null,
    Regex { pat: String, opts: String },
    Int32(i32),
    Int64(i64),
}

/// An ordered-by-insertion keyed container of values. Keys are unique:
/// inserting an existing key overwrites its value in place.
#[derive(Debug, PartialEq)]
pub struct Document {
    pub entries: Vec<(String, BsonValue)>,
}

/// Conversion from a supported native type into the value union.
///
/// `bson` is the model of the value the conversion produces; `to_bson`
/// produces exactly that value.
pub trait ToBson: Sized {
    spec fn bson(self) -> Val;

    fn to_bson(self) -> (r: BsonValue)
        ensures
            r@ == self.bson(),
    ;
}

impl ToBson for i32 {
    open spec fn bson(self) -> Val {
        Val::Int32(self)
    }

    fn to_bson(self) -> (r: BsonValue) {
        BsonValue::Int32(self)
    }
}

impl ToBson for i64 {
    open spec fn bson(self) -> Val {
        Val::Int64(self)
    }

    fn to_bson(self) -> (r: BsonValue) {
        BsonValue::Int64(self)
    }
}

impl ToBson for String {
    open spec fn bson(self) -> Val {
        Val::Text(self@)
    }

    fn to_bson(self) -> (r: BsonValue) {
        BsonValue::String(self)
    }
}

impl ToBson for Document {
    open spec fn bson(self) -> Val {
        Val::SubDoc(self@)
    }

    fn to_bson(self) -> (r: BsonValue) {
        BsonValue::Doc(self)
    }
}

impl ToBson for bool {
    open spec fn bson(self) -> Val {
        Val::Bool(self)
    }

    fn to_bson(self) -> (r: BsonValue) {
        BsonValue::Bool(self)
    }
}

impl ToBson for BsonValue {
    open spec fn bson(self) -> Val {
        val_view(self)
    }

    fn to_bson(self) -> (r: BsonValue) {
        self
    }
}

/// The first index whose key equals `key`, or the length when none does.
fn index_of(entries: &Vec<(String, BsonValue)>, key: &str) -> (r: usize)
    ensures
        r <= entries@.len(),
        r < entries@.len() ==> entries@[r as int].0@ == key@,
        forall|t: int| 0 <= t < r ==> #[trigger] entries@[t].0@ != key@,
{
    let n = entries.len();
    let mut j: usize = 0;
    while j < n
        invariant
            n == entries@.len(),
            j <= n,
            forall|t: int| 0 <= t < j ==> #[trigger] entries@[t].0@ != key@,
        decreases n - j,
    {
        if str_eq(entries[j].0.as_str(), key) {
            return j;
        }
        j = j + 1;
    }
    n
}

/// The encoded payload length of one value, when it fits the 32-bit length
/// prefix; `None` when it does not.
fn val_size_checked(v: &BsonValue) -> (r: Option<u64>)
    ensures
        match r {
            Some(x) => x == val_size(v@) && x <= 0x1_0000_0000,
            None => val_size(v@) > 0x7fff_ffff,
        },
    decreases v,
{
    match v {
        BsonValue::Double(_) => Some(8),
        BsonValue::String(sv) => {
            let l = sv.as_str().as_bytes().len();
            if l > 0x7fff_ffff {
                None
            } else {
                Some(l as u64 + 5)
            }
        },
        BsonValue::Doc(d) => {
            match d.size_checked() {
                Some(x) => {
                    proof {
                        lemma_entries_size_nonneg(d@);
                    }
                    Some(x as u64)
                },
                None => None,
            }
        },
        BsonValue::Bool(_) => Some(1),
        BsonValue::UTCDatetime(_) => Some(8),
        BsonValue::Null => Some(0),
        BsonValue::Regex { pat, opts } => {
            let pl = pat.as_str().as_bytes().len();
            let ol = opts.as_str().as_bytes().len();
            if pl > 0x7fff_ffff || ol > 0x7fff_ffff {
                proof {
                    lemma_val_size_nonneg(v@);
                }
                None
            } else {
                Some(pl as u64 + ol as u64 + 2)
            }
        },
        BsonValue::Int32(_) => Some(4),
        BsonValue::Int64(_) => Some(8),
    }
}

/// Append one entry to the sink: the value's tag byte, the key as a
/// cstring, then the type-specific payload.
fn write_entry(out: &mut Vec<u8>, key: &str, v: &BsonValue)
    requires
        no_nul(key@),
        val_wf(v@),
        val_size(v@) <= i32::MAX,
    ensures
        final(out)@ == old(out)@ + enc::enc_entry(key@, v@),
    decreases v,
{
    match v {
        BsonValue::Double(x) => {
            out.push(0x01u8);
            write_cstring(out, key);
            wire::write_u64_le(out, *x);
            proof {
                assert(out@ =~= old(out)@ + enc::enc_entry(key@, v@));
            }
        },
        BsonValue::String(sv) => {
            out.push(0x02u8);
            write_cstring(out, key);
            let l = sv.as_str().as_bytes().len();
            wire::write_u32_le(out, l as u32 + 1);
            write_cstring(out, sv.as_str());
            proof {
                assert(l as u32 + 1 == (vstd::utf8::encode_utf8(sv@).len() + 1) as u32);
                assert(out@ =~= old(out)@ + enc::enc_entry(key@, v@));
            }
        },
        BsonValue::Doc(d) => {
            out.push(0x03u8);
            write_cstring(out, key);
            d.write(out);
            proof {
                assert(out@ =~= old(out)@ + enc::enc_entry(key@, v@));
            }
        },
        BsonValue::Bool(x) => {
            out.push(0x08u8);
            write_cstring(out, key);
            if *x {
                out.push(0x01u8);
            } else {
                out.push(0x00u8);
            }
            proof {
                assert(out@ =~= old(out)@ + enc::enc_entry(key@, v@));
            }
        },
        BsonValue::UTCDatetime(t) => {
            out.push(0x09u8);
            write_cstring(out, key);
            wire::write_u64_le(out, *t as u64);
            proof {
                assert(out@ =~= old(out)@ + enc::enc_entry(key@, v@));
            }
        },
        BsonValue::Null => {
            out.push(0x0Au8);
            write_cstring(out, key);
            proof {
                assert(enc::enc_val(v@) =~= Seq::<u8>::empty());
                assert(out@ =~= old(out)@ + enc::enc_entry(key@, v@));
            }
        },
        BsonValue::Regex { pat, opts } => {
            out.push(0x0Bu8);
            write_cstring(out, key);
            write_cstring(out, pat.as_str());
            write_cstring(out, opts.as_str());
            proof {
                assert(out@ =~= old(out)@ + enc::enc_entry(key@, v@));
            }
        },
        BsonValue::Int32(x) => {
            out.push(0x10u8);
            write_cstring(out, key);
            wire::write_u32_le(out, *x as u32);
            proof {
                assert(out@ =~= old(out)@ + enc::enc_entry(key@, v@));
            }
        },
        BsonValue::Int64(x) => {
            out.push(0x12u8);
            write_cstring(out, key);
            wire::write_u64_le(out, *x as u64);
            proof {
                assert(out@ =~= old(out)@ + enc::enc_entry(key@, v@));
            }
        },
    }
}

/// Read one value payload for the given tag at `*pos`, mirroring the
/// write-side encodings; an unknown tag is the unrecognised-code error
/// carrying that byte.
fn read_value(b: &[u8], pos: &mut usize, tag: u8) -> (r: Result<BsonValue, BsonError>)
    requires
        *old(pos) <= b@.len(),
    ensures
        match parse::parse_value(b@, *old(pos) as int, tag) {
            Ok((v, c)) => {
                &&& r is Ok
                &&& r->Ok_0@ == v
                &&& val_wf(v)
                &&& *final(pos) == *old(pos) + c
                &&& *final(pos) <= b@.len()
            },
            Err(k) => r is Err && r->Err_0.spec_kind() == k && r->Err_0.spec_desc()
                == desc_for(k),
        },
    decreases b@.len() - *old(pos), 1int,
{
    if tag == 0x01 {
        match wire::read_u64_le(b, pos) {
            Ok(x) => Ok(BsonValue::Double(x)),
            Err(e) => Err(e),
        }
    } else if tag == 0x02 {
        let l = match wire::read_u32_le(b, pos) {
            Ok(x) => x as i32,
            Err(e) => {
                return Err(e);
            },
        };
        let ghost cpos = *pos as int;
        match read_cstring(b, pos) {
            Ok(sv) => {
                let vl = sv.as_str().as_bytes().len();
                proof {
                    let n0 = parse::cstr_len(b@, cpos)->0 as int;
                    let raw = b@.subrange(cpos, cpos + n0);
                    lemmas::lemma_cstr_len_bounds(b@, cpos);
                    vstd::utf8::decode_utf8_encode_utf8(raw);
                    assert(vl == n0);
                    lemmas::lemma_parse_cstr_no_nul(b@, cpos);
                }
                if l >= 1 && l as usize == vl + 1 {
                    Ok(BsonValue::String(sv))
                } else {
                    Err(
                        BsonError::new(
                            ErrorKind::IncorrectLength,
                            Some("A string was the incorrect length".to_owned()),
                        ),
                    )
                }
            },
            Err(e) => Err(e),
        }
    } else if tag == 0x03 {
        match Document::read(b, pos) {
            Ok(d) => Ok(BsonValue::Doc(d)),
            Err(e) => Err(e),
        }
    } else if tag == 0x08 {
        if *pos < b.len() {
            let byte = *vstd::slice::slice_index_get(b, *pos);
            *pos = *pos + 1;
            Ok(BsonValue::Bool(byte != 0))
        } else {
            Err(BsonError::new(ErrorKind::IoError, None))
        }
    } else if tag == 0x09 {
        match wire::read_u64_le(b, pos) {
            Ok(x) => Ok(BsonValue::UTCDatetime(x as i64)),
            Err(e) => Err(e),
        }
    } else if tag == 0x0A {
        Ok(BsonValue::Null)
    } else if tag == 0x0B {
        let ghost p0 = *pos as int;
        match read_cstring(b, pos) {
            Ok(pat) => {
                proof {
                    lemmas::lemma_parse_cstr_no_nul(b@, p0);
                }
                match read_cstring(b, pos) {
                    Ok(opts) => {
                        proof {
                            lemmas::lemma_parse_cstr_no_nul(
                                b@,
                                p0 + parse::parse_cstr(b@, p0)->Ok_0.1 as int,
                            );
                        }
                        Ok(BsonValue::Regex { pat, opts })
                    },
                    Err(e) => Err(e),
                }
            },
            Err(e) => Err(e),
        }
    } else if tag == 0x10 {
        match wire::read_u32_le(b, pos) {
            Ok(x) => Ok(BsonValue::Int32(x as i32)),
            Err(e) => Err(e),
        }
    } else if tag == 0x12 {
        match wire::read_u64_le(b, pos) {
            Ok(x) => Ok(BsonValue::Int64(x as i64)),
            Err(e) => Err(e),
        }
    } else {
        Err(BsonError::new(ErrorKind::UnrecognisedCode(tag), None))
    }
}

/// Whether a string holds no NUL character, checked over its UTF-8 bytes.
fn str_no_nul(s: &str) -> (r: bool)
    ensures
        r == no_nul(s@),
{
    let bytes = s.as_bytes();
    let n = bytes.len();
    proof {
        lemmas::lemma_encode_utf8_nul(s@);
    }
    for i in 0..n
        invariant
            n == bytes@.len(),
            bytes@ == vstd::utf8::encode_utf8(s@),
            no_nul(s@) <==> !bytes@.contains(0u8),
            forall|j: int| 0 <= j < i ==> bytes@[j] != 0u8,
    {
        if *vstd::slice::slice_index_get(bytes, i) == 0 {
            proof {
                assert(bytes@.contains(0u8));
            }
            return false;
        }
    }
    proof {
        assert(!bytes@.contains(0u8));
    }
    true
}

/// Whether a value is well formed: every string a cstring can carry, nested
/// documents well formed.
fn val_is_wf(v: &BsonValue) -> (r: bool)
    ensures
        r == val_wf(v@),
    decreases v,
{
    match v {
        BsonValue::String(sv) => str_no_nul(sv.as_str()),
        BsonValue::Doc(d) => d.is_well_formed(),
        BsonValue::Regex { pat, opts } => str_no_nul(pat.as_str()) && str_no_nul(opts.as_str()),
        _ => true,
    }
}

impl Document {
    /// An empty document.
    pub fn new() -> (d: Document)
        ensures
            d@ == Seq::<(Seq<char>, Val)>::empty(),
            entries_wf(d@),
    {
        let d = Document { entries: Vec::new() };
        proof {
            assert(d@ =~= Seq::<(Seq<char>, Val)>::empty());
        }
        d
    }

    /// Store `val` under `key`, overwriting any prior value for that key and
    /// keeping its position; a new key is appended. The key must hold no NUL
    /// character, and the value must be well formed.
    pub fn insert<V: ToBson>(&mut self, key: &str, val: V)
        requires
            no_nul(key@),
            val_wf(val.bson()),
        ensures
            final(self)@ == entry_insert(old(self)@, key@, val.bson()),
            entries_wf(old(self)@) ==> entries_wf(final(self)@),
    {
        let ghost vm = val.bson();
        let value = val.to_bson();
        let n = self.entries.len();
        let j = index_of(&self.entries, key);
        let ghost m = self@;
        let ghost s0 = self.entries@;
        proof {
            lemma_entries_view_index(s0);
        }
        let owned = key.to_owned();
        if j < n {
            self.entries.remove(j);
            self.entries.insert(j, (owned, value));
            proof {
                assert(self.entries@ =~= s0.update(j as int, (owned, value)));
                lemma_entries_view_index(self.entries@);
                assert(m[j as int].0 == key@);
                lemma_entry_insert_found(m, key@, vm, j as int);
                assert(self@ =~= m.update(j as int, (key@, vm)));
                if entries_wf(m) {
                    lemma_entry_insert_wf(m, key@, vm);
                }
            }
        } else {
            self.entries.push((owned, value));
            proof {
                assert(!has_key(m, key@)) by {
                    if has_key(m, key@) {
                        let t = choose|t: int| 0 <= t < m.len() && m[t].0 == key@;
                        assert(s0[t].0@ != key@);
                    }
                }
                lemma_entry_insert_fresh(m, key@, vm);
                lemma_entries_view_push(s0, (owned, value));
                assert(self@ =~= m.push((key@, vm)));
                if entries_wf(m) {
                    lemma_entry_insert_wf(m, key@, vm);
                }
            }
        }
    }

    /// Whether this document is well formed: keys pairwise distinct, no NUL
    /// character in any key, string value or regex part, at any nesting
    /// depth. Documents built through `new` and `insert` always are.
    pub fn is_well_formed(&self) -> (r: bool)
        ensures
            r == entries_wf(self@),
        decreases *self,
    {
        let ghost m = self@;
        let n = self.entries.len();
        proof {
            lemma_entries_view_index(self.entries@);
        }
        let mut j: usize = 0;
        while j < n
            invariant
                n == self.entries@.len(),
                m == self@,
                m.len() == n,
                j <= n,
                forall|t: int|
                    0 <= t < n ==> #[trigger] m[t] == (
                        self.entries@[t].0@,
                        val_view(self.entries@[t].1),
                    ),
                forall|t: int| 0 <= t < j ==> no_nul(#[trigger] m[t].0) && val_wf(m[t].1),
                forall|x: int, y: int| 0 <= x < y < j ==> m[x].0 != m[y].0,
            decreases n - j,
        {
            let entry = vstd::slice::slice_index_get(self.entries.as_slice(), j);
            proof {
                assert(*entry == self.entries@[j as int]);
            }
            if !str_no_nul(entry.0.as_str()) {
                proof {
                    lemma_vals_wf_index_refute(m, j as int);
                }
                return false;
            }
            if !val_is_wf(&entry.1) {
                proof {
                    lemma_vals_wf_index_refute(m, j as int);
                }
                return false;
            }
            let mut t: usize = 0;
            while t < j
                invariant
                    t <= j < n,
                    n == self.entries@.len(),
                    m == self@,
                    m.len() == n,
                    forall|x: int|
                        0 <= x < n ==> #[trigger] m[x] == (
                            self.entries@[x].0@,
                            val_view(self.entries@[x].1),
                        ),
                    forall|x: int| 0 <= x < t ==> m[x].0 != m[j as int].0,
                decreases j - t,
            {
                let earlier = vstd::slice::slice_index_get(self.entries.as_slice(), t);
                let current = vstd::slice::slice_index_get(self.entries.as_slice(), j);
                if str_eq(earlier.0.as_str(), current.0.as_str()) {
                    proof {
                        assert(m[t as int].0 == m[j as int].0);
                        assert(!keys_distinct(m));
                    }
                    return false;
                }
                t = t + 1;
            }
            j = j + 1;
        }
        proof {
            assert forall|x: int| 0 <= x < m.len() implies no_nul(#[trigger] m[x].0) && val_wf(
                m[x].1,
            ) by {
                assert(no_nul(m[x].0) && val_wf(m[x].1));
            }
            model::lemma_vals_wf_from_index(m);
            assert(keys_distinct(m));
        }
        true
    }

    /// The exact encoded byte length of this document, when it fits the
    /// 32-bit length prefix; `None` when it does not.
    pub fn size_checked(&self) -> (r: Option<i32>)
        ensures
            match r {
                Some(x) => doc_size(self@) <= i32::MAX && x == doc_size(self@),
                None => doc_size(self@) > i32::MAX,
            },
        decreases *self,
    {
        let n = self.entries.len();
        let mut total: u64 = 5;
        proof {
            lemma_entries_view_index(self.entries@);
            assert(self@.take(0) =~= Seq::<(Seq<char>, Val)>::empty());
        }
        for j in 0..n
            invariant
                n == self.entries@.len(),
                self@.len() == n,
                forall|t: int|
                    0 <= t < n ==> #[trigger] self@[t] == (
                        self.entries@[t].0@,
                        val_view(self.entries@[t].1),
                    ),
                total == 5 + model::entries_size(self@.take(j as int)),
                total <= i32::MAX,
        {
            let ghost m = self@;
            proof {
                assert(m[j as int] == (self.entries@[j as int].0@, val_view(self.entries@[j as int].1)));
            }
            let entry = vstd::slice::slice_index_get(self.entries.as_slice(), j);
            proof {
                assert(*entry == self.entries@[j as int]);
            }
            let key_len = entry.0.as_str().as_bytes().len();
            proof {
                lemma_entries_size_prefix(m, j as int);
                lemma_val_size_nonneg(m[j as int].1);
                lemma_entries_size_nonneg(m.take(j as int));
            }
            if key_len > 0x7fff_ffff {
                proof {
                    assert(entry_size(m[j as int].0, m[j as int].1) > i32::MAX);
                }
                return None;
            }
            let vs: u64 = match val_size_checked(&entry.1) {
                Some(x) => x,
                None => {
                    proof {
                        assert(entry_size(m[j as int].0, m[j as int].1) > i32::MAX);
                    }
                    return None;
                },
            };
            proof {
                assert(val_view(entry.1) == m[j as int].1);
                assert(vs == val_size(m[j as int].1));
            }
            let new_total: u64 = total + 2 + key_len as u64 + vs;
            proof {
                lemma_entries_size_take_step(m, j as int);
                assert(new_total == 5 + model::entries_size(m.take(j as int + 1)));
            }
            if new_total > 0x7fff_ffff {
                proof {
                    lemma_entries_size_prefix(m, j as int + 1);
                }
                return None;
            }
            total = new_total;
        }
        proof {
            assert(self@.take(n as int) =~= self@);
        }
        Some(total as i32)
    }

    /// Parse a document from `b` at `*pos`: the little-endian 32-bit
    /// declared size, then entries until the terminating NUL tag, inserting
    /// each; finally the declared size must equal the size recomputed from
    /// the parsed content, the format's sole integrity check.
    pub fn read(b: &[u8], pos: &mut usize) -> (r: Result<Document, BsonError>)
        requires
            *old(pos) <= b@.len(),
        ensures
            match parse::parse_doc(b@, *old(pos) as int) {
                Ok((m, c)) => {
                    &&& r is Ok
                    &&& r->Ok_0@ == m
                    &&& entries_wf(m)
                    &&& *final(pos) == *old(pos) + c
                    &&& *final(pos) <= b@.len()
                },
                Err(k) => r is Err && r->Err_0.spec_kind() == k && r->Err_0.spec_desc()
                == desc_for(k),
            },
        decreases b@.len() - *old(pos), 0int,
    {
        let declared = match wire::read_u32_le(b, pos) {
            Ok(x) => x as i32,
            Err(e) => {
                return Err(e);
            },
        };
        let ghost start = *old(pos) as int + 4;
        let mut doc = Document::new();
        proof {
            assert(parse::parse_entries(b@, start, doc@) == parse::parse_entries(
                b@,
                start,
                Seq::empty(),
            ));
        }
        loop
            invariant_except_break
                (match parse::parse_entries(b@, *pos as int, doc@) {
                    Ok((m2, c2)) => parse::parse_entries(b@, start, Seq::empty())
                        == Ok::<_, ErrorKind>((m2, (*pos as int - start + c2) as nat)),
                    Err(k2) => parse::parse_entries(b@, start, Seq::empty()) == Err::<
                        (Entries, nat),
                        _,
                    >(k2),
                }),
            invariant
                start == *old(pos) as int + 4,
                *old(pos) as int + 4 <= b@.len(),
                start <= *pos as int <= b@.len(),
                entries_wf(doc@),
                declared as int == parse::le_u32_at(b@, *old(pos) as int) as i32 as int,
            ensures
                start <= *pos as int <= b@.len(),
                entries_wf(doc@),
                parse::parse_entries(b@, start, Seq::empty()) == Ok::<_, ErrorKind>(
                    (doc@, (*pos as int - start) as nat),
                ),
            decreases b@.len() - *pos,
        {
            if *pos >= b.len() {
                return Err(BsonError::new(ErrorKind::IoError, None));
            }
            let ghost i0 = *pos as int;
            let ghost doc0 = doc@;
            let tag = *vstd::slice::slice_index_get(b, *pos);
            if tag == 0 {
                *pos = *pos + 1;
                break;
            }
            *pos = *pos + 1;
            let key = match read_cstring(b, pos) {
                Ok(k) => k,
                Err(e) => {
                    return Err(e);
                },
            };
            proof {
                lemmas::lemma_parse_cstr_no_nul(b@, i0 + 1);
            }
            let value = match read_value(b, pos, tag) {
                Ok(v) => v,
                Err(e) => {
                    return Err(e);
                },
            };
            doc.insert(key.as_str(), value);
            proof {
                let k = parse::parse_cstr(b@, i0 + 1)->Ok_0.0;
                let ck = parse::parse_cstr(b@, i0 + 1)->Ok_0.1 as int;
                let v = parse::parse_value(b@, i0 + 1 + ck, tag)->Ok_0.0;
                let vc = parse::parse_value(b@, i0 + 1 + ck, tag)->Ok_0.1 as int;
                assert(b@[i0] == tag && tag != 0);
                assert(i0 + 1 + ck <= b@.len());
                assert(i0 + 1 + ck + vc <= b@.len());
                assert(*pos as int == i0 + 1 + ck + vc);
                assert(doc@ == entry_insert(doc0, k, v));
                let inner = parse::parse_entries(b@, i0 + 1 + ck + vc, entry_insert(doc0, k, v));
                assert(parse::parse_entries(b@, i0, doc0) == (match inner {
                    Ok((mm, ec)) => Ok::<_, ErrorKind>((mm, (1 + ck + vc + ec as int) as nat)),
                    Err(kk) => Err::<(Entries, nat), _>(kk),
                }));
                match inner {
                    Ok((mm, ec)) => {
                        assert(parse::parse_entries(b@, i0, doc0) == Ok::<_, ErrorKind>(
                            (mm, (1 + ck + vc + ec as int) as nat),
                        ));
                        assert(parse::parse_entries(b@, start, Seq::empty())
                            == Ok::<_, ErrorKind>(
                            (mm, (i0 - start + 1 + ck + vc + ec as int) as nat),
                        ));
                    },
                    Err(kk) => {
                        assert(parse::parse_entries(b@, start, Seq::empty()) == Err::<
                            (Entries, nat),
                            _,
                        >(kk));
                    },
                }
            }
        }
        match doc.size_checked() {
            Some(sz) => {
                if sz == declared {
                    Ok(doc)
                } else {
                    Err(
                        BsonError::new(
                            ErrorKind::IncorrectLength,
                            Some("The document was not the correct length".to_owned()),
                        ),
                    )
                }
            },
            None => {
                Err(
                    BsonError::new(
                        ErrorKind::IncorrectLength,
                        Some("The document was not the correct length".to_owned()),
                    ),
                )
            },
        }
    }

    /// Parse one document from the front of `b`; bytes past the document are
    /// ignored, as a stream reader would leave them unread.
    pub fn from_bytes(b: &[u8]) -> (r: Result<Document, BsonError>)
        ensures
            match parse::parse_doc(b@, 0) {
                Ok((m, c)) => r is Ok && r->Ok_0@ == m && entries_wf(m),
                Err(k) => r is Err && r->Err_0.spec_kind() == k && r->Err_0.spec_desc()
                == desc_for(k),
            },
    {
        let mut pos: usize = 0;
        Document::read(b, &mut pos)
    }

    /// Emit this document to the sink: the little-endian 32-bit total size
    /// computed by `size`, each entry in enumeration order, and one
    /// terminating NUL byte closing the document.
    pub fn write(&self, out: &mut Vec<u8>)
        requires
            entries_wf(self@),
            doc_size(self@) <= i32::MAX,
        ensures
            final(out)@ == old(out)@ + enc::enc_doc(self@),
        decreases *self,
    {
        let sz = self.size();
        wire::write_u32_le(out, sz as u32);
        let ghost m = self@;
        let ghost base = old(out)@ + vstd::bytes::spec_u32_to_le_bytes(doc_size(m) as u32);
        proof {
            lemma_entries_size_nonneg(m);
            lemma_vals_wf_index(m);
            lemma_entries_view_index(self.entries@);
            assert(m.take(0) =~= Seq::<(Seq<char>, Val)>::empty());
            assert(out@ =~= base + enc::enc_entries(m.take(0)));
        }
        let n = self.entries.len();
        for j in 0..n
            invariant
                n == self.entries@.len(),
                m == self@,
                m.len() == n,
                entries_wf(m),
                doc_size(m) <= i32::MAX,
                forall|t: int|
                    0 <= t < n ==> #[trigger] m[t] == (
                        self.entries@[t].0@,
                        val_view(self.entries@[t].1),
                    ),
                forall|t: int| 0 <= t < n ==> no_nul(#[trigger] m[t].0) && val_wf(m[t].1),
                out@ == base + enc::enc_entries(m.take(j as int)),
        {
            let entry = vstd::slice::slice_index_get(self.entries.as_slice(), j);
            proof {
                assert(*entry == self.entries@[j as int]);
                lemma_entries_size_prefix(m, j as int);
                lemma_entries_size_nonneg(m.take(j as int));
                lemma_val_size_nonneg(m[j as int].1);
                assert(val_size(m[j as int].1) <= i32::MAX);
            }
            write_entry(out, entry.0.as_str(), &entry.1);
            proof {
                enc::lemma_enc_entries_take_step(m, j as int);
                assert(out@ =~= base + enc::enc_entries(m.take(j as int + 1)));
            }
        }
        out.push(0u8);
        proof {
            assert(m.take(n as int) =~= m);
            assert(out@ =~= old(out)@ + enc::enc_doc(m));
        }
    }

    /// The bytes of this document, as `write` emits them: exactly `size`
    /// bytes, and exactly what `read` parses back into this document.
    pub fn to_bytes(&self) -> (r: Vec<u8>)
        requires
            entries_wf(self@),
            doc_size(self@) <= i32::MAX,
        ensures
            r@ == enc::enc_doc(self@),
            r@.len() == doc_size(self@),
            parse::parse_doc(r@, 0) == Ok::<_, ErrorKind>((self@, doc_size(self@) as nat)),
    {
        let mut out: Vec<u8> = Vec::new();
        self.write(&mut out);
        proof {
            assert(out@ =~= enc::enc_doc(self@));
            enc::lemma_enc_doc_len(self@);
            assert(out@.subrange(0, doc_size(self@)) =~= out@);
            roundtrip::lemma_parse_enc_doc(out@, 0, self@);
        }
        out
    }

    /// The exact encoded byte length of this document: 4 bytes of length
    /// prefix, 1 terminating NUL, and each entry's tag, key cstring and
    /// type-dependent payload.
    pub fn size(&self) -> (r: i32)
        requires
            doc_size(self@) <= i32::MAX,
        ensures
            r == doc_size(self@),
    {
        match self.size_checked() {
            Some(x) => x,
            None => {
                // excluded by the precondition: None means the size exceeds
                // what the 32-bit length prefix can carry
                proof {
                    assert(false);
                }
                0
            },
        }
    }
}

} // verus!
