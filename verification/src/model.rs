//! The mathematical model of documents: a ghost value type [`Val`] mirroring
//! [`BsonValue`](crate::BsonValue), entries as sequences of key/value pairs,
//! the well-formedness predicates, insertion with overwrite, and the exact
//! byte-size accounting that writer and reader must agree on.
use vstd::prelude::*;
use vstd::utf8::encode_utf8;

use crate::BsonValue;
use crate::Document;

verus! {

/// Ghost counterpart of a [`BsonValue`]: strings are modelled as their
/// character sequences, a double as its raw bit pattern, and a nested
/// document as its sequence of entries.
pub enum Val {
    Double(u64),
    Text(Seq<char>),
    SubDoc(Seq<(Seq<char>, Val)>),
    Bool(bool),
    UTCDatetime(i64),
    Null,
    Regex { pat: Seq<char>, opts: Seq<char> },
    Int32(i32),
    Int64(i64),
}

/// The model of a document: its entries, in enumeration order.
pub type Entries = Seq<(Seq<char>, Val)>;

/// A string that can stand in a cstring: it holds no NUL character, so its
/// UTF-8 bytes followed by a single zero byte decode back unambiguously.
pub open spec fn no_nul(s: Seq<char>) -> bool {
    !s.contains('\0')
}

/// Keys are pairwise distinct.
pub open spec fn keys_distinct(m: Entries) -> bool {
    forall|i: int, j: int| 0 <= i < j < m.len() ==> m[i].0 != m[j].0
}

/// Every entry has a NUL-free key and a well-formed value.
pub open spec fn vals_wf(m: Entries) -> bool
    decreases m, 0int,
{
    m.len() == 0 || {
        &&& no_nul(m[0].0)
        &&& val_wf(m[0].1)
        &&& vals_wf(m.drop_first())
    }
}

/// A value is well formed when every string run through a cstring encoding
/// (text values, regex parts, nested keys) is NUL-free, and nested documents
/// are well formed in turn.
pub open spec fn val_wf(v: Val) -> bool
    decreases v, 0int,
{
    match v {
        Val::Text(s) => no_nul(s),
        Val::SubDoc(m) => entries_wf(m),
        Val::Regex { pat, opts } => no_nul(pat) && no_nul(opts),
        _ => true,
    }
}

/// A document model is well formed: distinct keys, well-formed entries.
pub open spec fn entries_wf(m: Entries) -> bool
    decreases m, 1int,
{
    keys_distinct(m) && vals_wf(m)
}

/// Whether some entry carries the key `k`.
pub open spec fn has_key(m: Entries, k: Seq<char>) -> bool {
    exists|j: int| 0 <= j < m.len() && m[j].0 == k
}

/// Insertion with overwrite: replaces the value at the first entry whose key
/// equals `k`, keeping its position, or appends a new entry.
pub open spec fn entry_insert(m: Entries, k: Seq<char>, v: Val) -> Entries
    decreases m,
{
    if m.len() == 0 {
        seq![(k, v)]
    } else if m[0].0 == k {
        seq![(k, v)] + m.drop_first()
    } else {
        seq![m[0]] + entry_insert(m.drop_first(), k, v)
    }
}

/// The encoded byte length of one value's payload.
pub open spec fn val_size(v: Val) -> int
    decreases v, 0int,
{
    match v {
        Val::Double(_) => 8,
        Val::Text(s) => 4 + encode_utf8(s).len() as int + 1,
        Val::SubDoc(m) => doc_size(m),
        Val::Bool(_) => 1,
        Val::UTCDatetime(_) => 8,
        Val::Null => 0,
        Val::Regex { pat, opts } => encode_utf8(pat).len() as int + 1 + encode_utf8(opts).len() as int + 1,
        Val::Int32(_) => 4,
        Val::Int64(_) => 8,
    }
}

/// The encoded byte length of one entry: tag, key cstring, payload.
pub open spec fn entry_size(k: Seq<char>, v: Val) -> int
    decreases v, 1int,
{
    1 + encode_utf8(k).len() as int + 1 + val_size(v)
}

/// The encoded byte length of a run of entries.
pub open spec fn entries_size(m: Entries) -> int
    decreases m, 0int,
{
    if m.len() == 0 {
        0
    } else {
        entry_size(m[0].0, m[0].1) + entries_size(m.drop_first())
    }
}

/// The total encoded byte length of a document: 4 bytes of length prefix, the
/// entries, and the terminating NUL.
pub open spec fn doc_size(m: Entries) -> int
    decreases m, 1int,
{
    4 + entries_size(m) + 1
}

/// Entry sizes are never negative.
pub proof fn lemma_entries_size_nonneg(m: Entries)
    ensures
        entries_size(m) >= 0,
    decreases m,
{
    if m.len() != 0 {
        lemma_entries_size_nonneg(m.drop_first());
        lemma_val_size_nonneg(m[0].1);
        assert(entry_size(m[0].0, m[0].1) >= 0);
        assert(entries_size(m) == entry_size(m[0].0, m[0].1) + entries_size(m.drop_first()));
    }
}

/// A value's payload size is never negative.
pub proof fn lemma_val_size_nonneg(v: Val)
    ensures
        val_size(v) >= 0,
    decreases v,
{
    match v {
        Val::SubDoc(m) => lemma_entries_size_nonneg(m),
        _ => {},
    }
}

/// The model of an exec value.
pub open spec fn val_view(v: BsonValue) -> Val
    decreases v,
{
    match v {
        BsonValue::Double(b) => Val::Double(b),
        BsonValue::String(s) => Val::Text(s@),
        BsonValue::Doc(d) => Val::SubDoc(entries_view(d.entries@)),
        BsonValue::Bool(b) => Val::Bool(b),
        BsonValue::UTCDatetime(t) => Val::UTCDatetime(t),
        BsonValue::Null => Val::Null,
        BsonValue::Regex { pat, opts } => Val::Regex { pat: pat@, opts: opts@ },
        BsonValue::Int32(x) => Val::Int32(x),
        BsonValue::Int64(x) => Val::Int64(x),
    }
}

/// The model of an exec entry vector.
pub open spec fn entries_view(s: Seq<(String, BsonValue)>) -> Entries
    decreases s,
{
    if s.len() == 0 {
        Seq::empty()
    } else {
        entries_view(s.drop_last()).push((s.last().0@, val_view(s.last().1)))
    }
}

impl View for BsonValue {
    type V = Val;

    open spec fn view(&self) -> Val {
        val_view(*self)
    }
}

impl View for Document {
    type V = Entries;

    open spec fn view(&self) -> Entries {
        entries_view(self.entries@)
    }
}

/// A step of [`entries_view`], stated from the front for parallel reasoning
/// with the recursive definitions over models.
pub proof fn lemma_entries_view_push(s: Seq<(String, BsonValue)>, e: (String, BsonValue))
    ensures
        entries_view(s.push(e)) == entries_view(s).push((e.0@, val_view(e.1))),
{
    assert(s.push(e).drop_last() =~= s);
    assert(s.push(e).last() == e);
}


/// Sizes add over concatenation of entry runs.
pub proof fn lemma_entries_size_concat(m1: Entries, m2: Entries)
    ensures
        entries_size(m1 + m2) == entries_size(m1) + entries_size(m2),
    decreases m1,
{
    if m1.len() == 0 {
        assert(m1 + m2 =~= m2);
    } else {
        assert((m1 + m2).drop_first() =~= m1.drop_first() + m2);
        assert((m1 + m2)[0] == m1[0]);
        lemma_entries_size_concat(m1.drop_first(), m2);
    }
}

/// The view of an exec entry vector, entry by entry.
pub proof fn lemma_entries_view_index(s: Seq<(String, BsonValue)>)
    ensures
        entries_view(s).len() == s.len(),
        forall|j: int|
            0 <= j < s.len() ==> #[trigger] entries_view(s)[j] == (s[j].0@, val_view(s[j].1)),
    decreases s,
{
    if s.len() != 0 {
        lemma_entries_view_index(s.drop_last());
    }
}


/// Well-formedness of the entries, read off at any index.
pub proof fn lemma_vals_wf_index(m: Entries)
    requires
        vals_wf(m),
    ensures
        forall|j: int| 0 <= j < m.len() ==> no_nul(#[trigger] m[j].0) && val_wf(m[j].1),
    decreases m,
{
    if m.len() != 0 {
        lemma_vals_wf_index(m.drop_first());
        assert forall|j: int| 0 <= j < m.len() implies no_nul(#[trigger] m[j].0) && val_wf(
            m[j].1,
        ) by {
            if j > 0 {
                assert(m.drop_first()[j - 1] == m[j]);
            }
        }
    }
}

/// The size of a whole run bounds the size of any prefix, and leaves room
/// for the entry that follows it.
pub proof fn lemma_entries_size_prefix(m: Entries, j: int)
    requires
        0 <= j <= m.len(),
    ensures
        entries_size(m) >= entries_size(m.take(j)),
        j < m.len() ==> entries_size(m) >= entries_size(m.take(j)) + entry_size(m[j].0, m[j].1),
{
    assert(m =~= m.take(j) + m.skip(j));
    lemma_entries_size_concat(m.take(j), m.skip(j));
    lemma_entries_size_nonneg(m.skip(j));
    if j < m.len() {
        assert(m.skip(j)[0] == m[j]);
        lemma_entries_size_nonneg(m.skip(j).drop_first());
        lemma_val_size_nonneg(m[j].1);
        assert(entries_size(m.skip(j)) == entry_size(m[j].0, m[j].1) + entries_size(
            m.skip(j).drop_first(),
        ));
    }
}

/// One step of the size accounting along a prefix.
pub proof fn lemma_entries_size_take_step(m: Entries, j: int)
    requires
        0 <= j < m.len(),
    ensures
        entries_size(m.take(j + 1)) == entries_size(m.take(j)) + entry_size(m[j].0, m[j].1),
{
    assert(m.take(j + 1) =~= m.take(j) + seq![m[j]]);
    lemma_entries_size_concat(m.take(j), seq![m[j]]);
    assert(entries_size(seq![m[j]]) == entry_size(m[j].0, m[j].1)) by {
        let single = seq![m[j]];
        assert(single[0] == m[j]);
        assert(single.drop_first() =~= Seq::<(Seq<char>, Val)>::empty());
        assert(entries_size(single.drop_first()) == 0);
        assert(entries_size(single) == entry_size(single[0].0, single[0].1) + entries_size(
            single.drop_first(),
        ));
    }
}


/// Well-formedness of the entries, rebuilt from the indexed facts.
pub proof fn lemma_vals_wf_from_index(m: Entries)
    requires
        forall|j: int| 0 <= j < m.len() ==> no_nul(#[trigger] m[j].0) && val_wf(m[j].1),
    ensures
        vals_wf(m),
    decreases m,
{
    if m.len() != 0 {
        assert(forall|j: int| 0 <= j < m.drop_first().len() ==> m.drop_first()[j] == m[j + 1]);
        lemma_vals_wf_from_index(m.drop_first());
    }
}


/// A single ill-formed entry refutes well-formedness of the whole run.
pub proof fn lemma_vals_wf_index_refute(m: Entries, j: int)
    requires
        0 <= j < m.len(),
        !(no_nul(m[j].0) && val_wf(m[j].1)),
    ensures
        !vals_wf(m),
{
    if vals_wf(m) {
        lemma_vals_wf_index(m);
    }
}

} // verus!
