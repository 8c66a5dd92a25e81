//! The key index and store: replays the append log into a mapping from
//! key to the latest record, serves point reads from memory, appends a
//! record on every write or delete, and compacts the log when asked.
//!
//! Per key the store moves through `Absent -> Live -> Tombstoned`, and
//! compaction takes a tombstoned key back to `Absent`.

use vstd::prelude::*;
use vstd::map::*;
use vstd::string::StringExecFns;
use vstd::utf8::{decode_utf8, encode_utf8, valid_utf8};

use crate::buffer::{
    payload_wf, rec_wf, rec_wf_sizes, spec_encode, str_eq, Buffer, RecView, ValueType,
};
use crate::log::{
    lemma_parse_snoc, lemma_parse_total_len, lemma_total_len_push, recs_of, spec_header_val,
    spec_parse, total_len, AppendLog, DEFAULT_CAPACITY,
};
use crate::Error;

verus! {

/// One index entry: the latest record seen for a key, kept in memory.
/// A tombstoned key keeps its entry, with the `Deleted` type, until
/// compaction drops it.
#[derive(Debug)]
pub struct IndexEntry {
    key: String,
    typ: ValueType,
    value: Vec<u8>,
}

impl IndexEntry {
    /// The key this entry is for.
    pub closed spec fn key_view(self) -> Seq<char> {
        self.key@
    }

    /// The stored value type.
    pub closed spec fn typ_view(self) -> ValueType {
        self.typ
    }

    /// The stored payload bytes.
    pub closed spec fn val_view(self) -> Seq<u8> {
        self.value@
    }

    /// The serialized size of the record this entry stands for.
    pub open spec fn enc_len(self) -> nat {
        9 + encode_utf8(self.key_view()).len() + self.val_view().len()
    }

    /// Whether this entry is a tombstone.
    fn is_tombstone(&self) -> (r: bool)
        ensures
            r == (self.typ_view() is Deleted),
    {
        match self.typ {
            ValueType::Deleted => true,
            _ => false,
        }
    }
}

/// An entry whose record could be written back out: encodable lengths
/// and a payload of the shape its type fixes.
pub open spec fn entry_wf(e: IndexEntry) -> bool {
    &&& 1 <= encode_utf8(e.key_view()).len() <= u32::MAX
    &&& e.val_view().len() <= u32::MAX
    &&& payload_wf(e.typ_view(), e.val_view())
}

/// No two entries are for the same key.
pub open spec fn unique_keys(es: Seq<IndexEntry>) -> bool {
    forall|i: int, j: int|
        0 <= i < j < es.len() ==> (#[trigger] es[i]).key_view() != (#[trigger] es[j]).key_view()
}

/// The mapping an entry sequence stands for; a later entry for the
/// same key wins.
pub open spec fn index_map_of(es: Seq<IndexEntry>) -> Map<Seq<char>, (ValueType, Seq<u8>)>
    decreases es.len(),
{
    if es.len() == 0 {
        Map::empty()
    } else {
        index_map_of(es.drop_last()).insert(
            es.last().key_view(),
            (es.last().typ_view(), es.last().val_view()),
        )
    }
}

/// The added-up serialized sizes of an entry sequence.
pub open spec fn entries_len(es: Seq<IndexEntry>) -> nat
    decreases es.len(),
{
    if es.len() == 0 {
        0
    } else {
        entries_len(es.drop_last()) + es.last().enc_len()
    }
}

/// The serialized bytes that the live (non-tombstoned) entries stand
/// for: what a compacted log would hold.
pub open spec fn live_len(es: Seq<IndexEntry>) -> nat
    decreases es.len(),
{
    if es.len() == 0 {
        0
    } else {
        live_len(es.drop_last()) + (if es.last().typ_view() is Deleted {
            0
        } else {
            es.last().enc_len()
        })
    }
}

/// Live entries never add up to more than all entries.
proof fn lemma_live_len_le(es: Seq<IndexEntry>)
    ensures
        live_len(es) <= entries_len(es),
    decreases es.len(),
{
    if es.len() > 0 {
        lemma_live_len_le(es.drop_last());
    }
}

/// The key a record is filed under: its key bytes read back as text.
pub open spec fn rec_key_chars(r: RecView) -> Seq<char>
    recommends
        valid_utf8(r.key),
{
    decode_utf8(r.key)
}

/// One record applied to the index mapping.
pub open spec fn apply_rec(
    m: Map<Seq<char>, (ValueType, Seq<u8>)>,
    r: RecView,
) -> Map<Seq<char>, (ValueType, Seq<u8>)> {
    m.insert(rec_key_chars(r), (r.typ, r.value))
}

/// The index mapping a record sequence replays to, applied in log
/// order: later records override earlier ones for the same key.
pub open spec fn replay_map(rs: Seq<RecView>) -> Map<Seq<char>, (ValueType, Seq<u8>)>
    decreases rs.len(),
{
    if rs.len() == 0 {
        Map::empty()
    } else {
        apply_rec(replay_map(rs.drop_last()), rs.last())
    }
}

/// What a point read of `k` sees in a mapping: the stored pair when the
/// key is present and not tombstoned, nothing otherwise.
pub open spec fn live_of(
    m: Map<Seq<char>, (ValueType, Seq<u8>)>,
    k: Seq<char>,
) -> Option<(ValueType, Seq<u8>)> {
    if m.contains_key(k) && !(m[k].0 is Deleted) {
        Some(m[k])
    } else {
        None
    }
}

/// Tombstone semantics: once a key's mapping is a tombstone, a read of
/// that key sees nothing. A successful `delete(k)` binds exactly this
/// tombstone in the index map while extending — never rewriting — the
/// log, and `get(k)` returns `KeyNotFound` exactly when the read sees
/// nothing; so after `delete(k)`, `get(k)` is `KeyNotFound` even
/// though a physical record for `k` still stands in the log.
pub proof fn lemma_tombstone_semantics(m: Map<Seq<char>, (ValueType, Seq<u8>)>, k: Seq<char>)
    ensures
        live_of(m.insert(k, (ValueType::Deleted, Seq::empty())), k) is None,
{
}

/// What a mapping says at each entry of a unique-keyed entry sequence:
/// exactly the keys of the entries are present, each at its entry's
/// value.
proof fn lemma_index_map_membership(es: Seq<IndexEntry>)
    requires
        unique_keys(es),
    ensures
        forall|k: Seq<char>|
            #[trigger] index_map_of(es).contains_key(k) <==> exists|i: int|
                0 <= i < es.len() && (#[trigger] es[i]).key_view() == k,
        forall|i: int|
            0 <= i < es.len() ==> index_map_of(es)[(#[trigger] es[i]).key_view()] == (
            es[i].typ_view(),
            es[i].val_view(),
            ),
    decreases es.len(),
{
    if es.len() > 0 {
        let head = es.drop_last();
        let last = es.last();
        assert(unique_keys(head)) by {
            assert(forall|i: int, j: int|
                0 <= i < j < head.len() ==> (#[trigger] head[i]).key_view() != (
                #[trigger] head[j]).key_view()) by {
                assert(forall|i: int| 0 <= i < head.len() ==> head[i] == es[i]);
            }
        }
        lemma_index_map_membership(head);
        assert(forall|i: int| 0 <= i < head.len() ==> head[i] == es[i]);
        assert(forall|i: int|
            0 <= i < es.len() - 1 ==> (#[trigger] es[i]).key_view() != es[es.len() - 1].key_view());
        assert forall|k: Seq<char>| #[trigger] index_map_of(es).contains_key(k) implies exists|i: int|
            0 <= i < es.len() && (#[trigger] es[i]).key_view() == k by {
            if k == last.key_view() {
                assert(es[es.len() - 1].key_view() == k);
            } else {
                assert(index_map_of(head).contains_key(k));
                let i = choose|i: int| 0 <= i < head.len() && (#[trigger] head[i]).key_view() == k;
                assert(es[i].key_view() == k);
            }
        }
        assert forall|k: Seq<char>| (exists|i: int|
            0 <= i < es.len() && (#[trigger] es[i]).key_view() == k) implies #[trigger] index_map_of(
            es,
        ).contains_key(k) by {
            let i = choose|i: int| 0 <= i < es.len() && (#[trigger] es[i]).key_view() == k;
            if i < es.len() - 1 {
                assert(head[i].key_view() == k);
                assert(index_map_of(head).contains_key(k));
            } else {
                assert(k == last.key_view());
            }
        }
        assert forall|i: int| 0 <= i < es.len() implies index_map_of(es)[(
        #[trigger] es[i]).key_view()] == (es[i].typ_view(), es[i].val_view()) by {
            if i < es.len() - 1 {
                assert(es[i].key_view() != last.key_view());
                assert(index_map_of(head)[head[i].key_view()] == (
                    head[i].typ_view(),
                    head[i].val_view(),
                ));
            }
        }
    }
}

/// A prefix of an entry sequence never adds up to more bytes than the
/// whole.
proof fn lemma_entries_len_prefix(es: Seq<IndexEntry>, j: int)
    requires
        0 <= j <= es.len(),
    ensures
        entries_len(es.subrange(0, j)) <= entries_len(es),
    decreases es.len(),
{
    if j == es.len() {
        assert(es.subrange(0, j) =~= es);
    } else {
        let head = es.drop_last();
        assert(es.subrange(0, j) =~= head.subrange(0, j));
        lemma_entries_len_prefix(head, j);
    }
}

/// Replacing the entry for a key binds that key anew and leaves every
/// other binding alone.
proof fn lemma_index_map_update(es: Seq<IndexEntry>, i: int, e: IndexEntry)
    requires
        unique_keys(es),
        0 <= i < es.len(),
        es[i].key_view() == e.key_view(),
    ensures
        index_map_of(es.update(i, e)) == index_map_of(es).insert(
            e.key_view(),
            (e.typ_view(), e.val_view()),
        ),
        unique_keys(es.update(i, e)),
{
    let es2 = es.update(i, e);
    let k = e.key_view();
    assert(forall|a: int| 0 <= a < es2.len() ==> (#[trigger] es2[a]).key_view() == es[a].key_view());
    assert(unique_keys(es2));
    lemma_index_map_membership(es);
    lemma_index_map_membership(es2);
    let m2 = index_map_of(es2);
    let m1 = index_map_of(es).insert(k, (e.typ_view(), e.val_view()));
    assert forall|key: Seq<char>| #[trigger] m2.contains_key(key) implies m1.contains_key(key) by {
        let a = choose|a: int| 0 <= a < es2.len() && (#[trigger] es2[a]).key_view() == key;
        if a != i {
            assert(index_map_of(es).contains_key(key));
        }
    }
    assert forall|key: Seq<char>| #[trigger] m1.contains_key(key) implies m2.contains_key(key) by {
        if key == k {
            assert(es2[i].key_view() == key);
        } else {
            let a = choose|a: int| 0 <= a < es.len() && (#[trigger] es[a]).key_view() == key;
            assert(es2[a].key_view() == key);
        }
    }
    assert forall|key: Seq<char>| m2.contains_key(key) && m1.contains_key(key) implies #[trigger] m2[key]
        == #[trigger] m1[key] by {
        if key == k {
            assert(es2[i].key_view() == key);
            assert(m2[key] == (es2[i].typ_view(), es2[i].val_view()));
        } else {
            let a = choose|a: int| 0 <= a < es.len() && (#[trigger] es[a]).key_view() == key;
            assert(a != i);
            assert(es2[a] == es[a]);
            assert(m2[key] == (es2[a].typ_view(), es2[a].val_view()));
            assert(index_map_of(es)[key] == (es[a].typ_view(), es[a].val_view()));
        }
    }
    assert(m2.dom() =~= m1.dom());
    assert(m2 =~= m1);
}

/// Replacing the entry at `i` changes the added-up size by the
/// difference of the two entries.
proof fn lemma_entries_len_update(es: Seq<IndexEntry>, i: int, e: IndexEntry)
    requires
        0 <= i < es.len(),
    ensures
        entries_len(es.update(i, e)) + es[i].enc_len() == entries_len(es) + e.enc_len(),
    decreases es.len(),
{
    let es2 = es.update(i, e);
    if i == es.len() - 1 {
        assert(es2.drop_last() =~= es.drop_last());
        assert(es2.last() == e);
    } else {
        assert(es2.drop_last() =~= es.drop_last().update(i, e));
        assert(es2.last() == es.last());
        lemma_entries_len_update(es.drop_last(), i, e);
        assert(es.drop_last()[i] == es[i]);
    }
}

/// An in-memory copy of a record, ready for the index.
fn entry_of(b: &Buffer) -> (e: IndexEntry)
    ensures
        e.key_view() == b.spec_key(),
        e.typ_view() == b@.typ,
        e.val_view() == b@.value,
{
    IndexEntry {
        key: String::from_str(b.key()),
        typ: b.value_type(),
        value: vstd::slice::slice_to_vec(b.value()),
    }
}

/// The position of the entry for `key`, if the index holds one.
fn find_entry(index: &Vec<IndexEntry>, key: &str) -> (r: Option<usize>)
    ensures
        r matches Some(i) ==> i < index@.len() && index@[i as int].key_view() == key@,
        r is None ==> forall|i: int|
            0 <= i < index@.len() ==> (#[trigger] index@[i]).key_view() != key@,
{
    let n = index.len();
    let mut i: usize = 0;
    while i < n
        invariant
            n == index@.len(),
            i <= n,
            forall|j: int| 0 <= j < i ==> (#[trigger] index@[j]).key_view() != key@,
        decreases n - i,
    {
        if str_eq(index[i].key.as_str(), key) {
            return Some(i);
        }
        i = i + 1;
    }
    None
}

/// Applies one record to the index: replaces the entry for its key, or
/// adds one. The index mapping afterwards is the mapping before with
/// that key bound to the record's type and payload.
fn index_apply(index: &mut Vec<IndexEntry>, b: &Buffer)
    requires
        unique_keys(old(index)@),
        forall|i: int| 0 <= i < old(index)@.len() ==> entry_wf(#[trigger] old(index)@[i]),
        b.wf(),
    ensures
        unique_keys(final(index)@),
        forall|i: int| 0 <= i < final(index)@.len() ==> entry_wf(#[trigger] final(index)@[i]),
        index_map_of(final(index)@) == index_map_of(old(index)@).insert(
            b.spec_key(),
            (b@.typ, b@.value),
        ),
        entries_len(final(index)@) <= entries_len(old(index)@) + spec_encode(b@).len(),
{
    let e = entry_of(b);
    proof {
        b.lemma_key_encoding();
        assert(entry_wf(e));
        assert(e.enc_len() == spec_encode(b@).len());
    }
    let ghost k = b.spec_key();
    match find_entry(index, b.key()) {
        Some(i) => {
            let ghost es = index@;
            index[i] = e;
            proof {
                let es2 = index@;
                assert(es2 =~= es.update(i as int, e));
                lemma_index_map_update(es, i as int, e);
                lemma_entries_len_update(es, i as int, e);
            }
        },
        None => {
            let ghost es = index@;
            index.push(e);
            proof {
                let es2 = index@;
                assert(es2.drop_last() =~= es);
                assert(es2.last() == e);
                assert(unique_keys(es2)) by {
                    assert(forall|a: int| 0 <= a < es.len() ==> es2[a] == es[a]);
                    assert(es2[es2.len() - 1].key_view() == k);
                }
                assert(index_map_of(es2) == index_map_of(es).insert(k, (b@.typ, b@.value)));
                assert(entries_len(es2) == entries_len(es) + e.enc_len());
            }
        },
    }
}

/// Whether `region`, read from a backing file, opens and replays into
/// a store: a short region counts as a new file; otherwise the header
/// must fit the region and every record must parse.
pub open spec fn open_parses(region: Seq<u8>) -> bool {
    if region.len() < 8 {
        true
    } else if 8 + spec_header_val(region) <= region.len() {
        spec_parse(region.subrange(8, 8 + spec_header_val(region) as int)) is Some
    } else {
        false
    }
}

/// The records replayed when a store opens over `region`.
pub open spec fn open_records(region: Seq<u8>) -> Seq<RecView> {
    if region.len() < 8 {
        Seq::empty()
    } else {
        spec_parse(region.subrange(8, 8 + spec_header_val(region) as int))->Some_0
    }
}

/// The store: the append log plus the in-memory index replayed from
/// it.
#[derive(Debug)]
pub struct Store {
    log: AppendLog,
    index: Vec<IndexEntry>,
}

impl Store {
    /// The append log the store owns.
    pub closed spec fn spec_log(self) -> AppendLog {
        self.log
    }

    /// The index entries, in first-appearance order.
    pub closed spec fn spec_index(self) -> Seq<IndexEntry> {
        self.index@
    }

    /// The mapping from key to latest type and payload.
    pub open spec fn index_map(self) -> Map<Seq<char>, (ValueType, Seq<u8>)> {
        index_map_of(self.spec_index())
    }

    /// What a read of `k` sees.
    pub open spec fn spec_live(self, k: Seq<char>) -> Option<(ValueType, Seq<u8>)> {
        live_of(self.index_map(), k)
    }

    /// The store invariant: the log is well formed and parses, the
    /// index is exactly the log's replay, keys are unique, every entry
    /// can be written back out, and the entries never add up to more
    /// bytes than the log holds.
    pub open spec fn wf(self) -> bool {
        &&& self.spec_log().wf()
        &&& self.spec_log().records() is Some
        &&& replay_map(self.spec_log().records()->Some_0) == self.index_map()
        &&& unique_keys(self.spec_index())
        &&& forall|i: int|
            0 <= i < self.spec_index().len() ==> entry_wf(#[trigger] self.spec_index()[i])
        &&& entries_len(self.spec_index()) <= self.spec_log().data().len()
    }

    /// Opens a store over the bytes of its backing file: opens the log
    /// and replays every record, in log order, into a fresh index.
    /// `DecodeFailed` exactly when the header overruns the region or a
    /// record is malformed.
    pub fn open(region: Vec<u8>) -> (r: Result<Store, Error>)
        ensures
            r is Ok <==> open_parses(region@),
            r matches Ok(s) ==> ({
                &&& s.wf()
                &&& s.spec_log().records() == Some(open_records(region@))
                &&& s.index_map() == replay_map(open_records(region@))
            }),
            r is Err ==> r matches Err(Error::DecodeFailed(_)),
    {
        let log = match AppendLog::open(region) {
            Ok(l) => l,
            Err(e) => {
                return Err(e);
            },
        };
        let scanned = match log.scan() {
            Ok(v) => v,
            Err(e) => {
                return Err(e);
            },
        };
        let ghost rs = recs_of(scanned@);
        let n = scanned.len();
        let mut index: Vec<IndexEntry> = Vec::new();
        let mut i: usize = 0;
        proof {
            assert(rs.subrange(0, 0) =~= Seq::<RecView>::empty());
            assert(index_map_of(index@) == replay_map(rs.subrange(0, 0)));
        }
        while i < n
            invariant
                n == scanned@.len(),
                i <= n,
                rs == recs_of(scanned@),
                forall|j: int| 0 <= j < scanned@.len() ==> (#[trigger] scanned@[j]).wf(),
                unique_keys(index@),
                forall|j: int| 0 <= j < index@.len() ==> entry_wf(#[trigger] index@[j]),
                index_map_of(index@) == replay_map(rs.subrange(0, i as int)),
                entries_len(index@) <= total_len(rs.subrange(0, i as int)),
            decreases n - i,
        {
            let b = &scanned[i];
            let ghost pre = rs.subrange(0, i as int);
            let ghost post = rs.subrange(0, i + 1);
            proof {
                assert(post.drop_last() =~= pre);
                assert(post.last() == b@);
                assert(replay_map(post) == apply_rec(replay_map(pre), b@));
                b.lemma_key_encoding();
                vstd::utf8::encode_utf8_decode_utf8(b.spec_key());
                assert(rec_key_chars(b@) == b.spec_key());
                lemma_total_len_push(pre, b@);
                assert(pre.push(b@) =~= post);
            }
            index_apply(&mut index, b);
            i = i + 1;
        }
        proof {
            assert(rs.subrange(0, n as int) =~= rs);
            lemma_parse_total_len(log.data());
        }
        Ok(Store { log, index })
    }

    /// Writes one record: serializes it, appends it to the log — and
    /// nothing else; the log keeps every byte it held — and only then
    /// binds the key in the index. On any failure the store is
    /// unchanged, so the index never claims data the log does not
    /// hold. `EncodeFailed` exactly when the record's key is empty or
    /// a length overruns its prefix; `IOError` exactly when the log
    /// would outgrow the address space.
    pub fn put(&mut self, buf: &Buffer) -> (r: Result<(), Error>)
        requires
            old(self).wf(),
            payload_wf(buf@.typ, buf@.value),
        ensures
            final(self).wf(),
            r is Ok ==> final(self).index_map() == old(self).index_map().insert(
                buf.spec_key(),
                (buf@.typ, buf@.value),
            ),
            r is Ok ==> final(self).spec_log().data() == old(self).spec_log().data()
                + spec_encode(buf@),
            r is Ok ==> final(self).spec_log().capacity() >= old(self).spec_log().capacity(),
            r is Err ==> *final(self) == *old(self),
            r is Ok <==> rec_wf_sizes(buf@) && 8 + old(self).spec_log().header() + spec_encode(
                buf@,
            ).len() <= usize::MAX,
            r is Err ==> (r matches Err(Error::EncodeFailed(_)) || r matches Err(
                Error::IOError(_),
            )),
    {
        let bytes = match buf.to_bytes() {
            Ok(b) => b,
            Err(e) => {
                return Err(e);
            },
        };
        let ghost old_rs = self.log.records()->Some_0;
        match self.log.append(&bytes) {
            Err(e) => {
                return Err(e);
            },
            Ok(_) => {},
        }
        proof {
            buf.lemma_key_encoding();
            lemma_parse_snoc(old(self).spec_log().data(), buf@);
            assert(self.log.records() == Some(old_rs.push(buf@)));
            assert(old_rs.push(buf@).drop_last() =~= old_rs);
            assert(replay_map(old_rs.push(buf@)) == apply_rec(replay_map(old_rs), buf@));
            vstd::utf8::encode_utf8_decode_utf8(buf.spec_key());
            lemma_total_len_push(old_rs, buf@);
            lemma_parse_total_len(old(self).spec_log().data());
            lemma_parse_total_len(self.log.data());
        }
        index_apply(&mut self.index, buf);
        Ok(())
    }

    /// Deletes a key by appending a tombstone record for it; the key
    /// then reads as absent though its records remain, and the
    /// tombstone itself stands physically in the log, until compaction.
    pub fn delete(&mut self, key: &str) -> (r: Result<(), Error>)
        requires
            old(self).wf(),
        ensures
            final(self).wf(),
            r is Ok ==> final(self).index_map() == old(self).index_map().insert(
                key@,
                (ValueType::Deleted, Seq::empty()),
            ),
            r is Ok ==> final(self).spec_log().data() == old(self).spec_log().data()
                + spec_encode(
                (RecView { key: encode_utf8(key@), typ: ValueType::Deleted, value: Seq::empty() }),
            ),
            r is Err ==> *final(self) == *old(self),
            r is Ok <==> 1 <= encode_utf8(key@).len() <= u32::MAX && 8 + old(
                self,
            ).spec_log().header() + 9 + encode_utf8(key@).len() <= usize::MAX,
            r is Err ==> (r matches Err(Error::EncodeFailed(_)) || r matches Err(
                Error::IOError(_),
            )),
    {
        let t = Buffer::tombstone(key);
        self.put(&t)
    }

    /// Reads a key from memory alone: the record's current type and
    /// payload, under the key the caller asked for. `KeyNotFound`
    /// exactly when the key is absent or tombstoned.
    pub fn get(&self, key: &str) -> (r: Result<Buffer, Error>)
        requires
            self.wf(),
        ensures
            r is Ok <==> self.spec_live(key@) is Some,
            r matches Ok(b) ==> ({
                &&& self.spec_live(key@) == Some((b@.typ, b@.value))
                &&& b.spec_key() == key@
                &&& b.wf()
            }),
            r is Err ==> r == Err::<Buffer, Error>(Error::KeyNotFound),
    {
        proof {
            lemma_index_map_membership(self.index@);
        }
        let i = match find_entry(&self.index, key) {
            Some(i) => i,
            None => {
                return Err(Error::KeyNotFound);
            },
        };
        let e = &self.index[i];
        if e.is_tombstone() {
            return Err(Error::KeyNotFound);
        }
        let b = Buffer::from_kv(e.key.as_str(), e.typ, crate::bytes::clone_bytes(&e.value));
        proof {
            b.lemma_key_encoding();
        }
        Ok(b)
    }

    /// The raw bytes of the log's region, for a caller that mirrors
    /// them to a backing file; reopening a store over a copy of these
    /// bytes rebuilds this store's index.
    pub fn region_bytes(&self) -> (r: &Vec<u8>)
        ensures
            r@ == self.spec_log().region_view(),
    {
        self.log.region_bytes()
    }

    /// The number of live record bytes the log holds.
    pub fn log_size(&self) -> (r: usize)
        requires
            self.wf(),
        ensures
            r == self.spec_log().header(),
    {
        self.log.header_len()
    }

    /// Bytes of live record data: the added-up serialized sizes of the
    /// latest non-tombstoned record of each key. Against `log_size`
    /// this gives a caller the superseded-plus-tombstoned share of the
    /// log, the ratio a compaction trigger policy watches.
    pub fn live_size(&self) -> (r: usize)
        requires
            self.wf(),
        ensures
            r == live_len(self.spec_index()),
            r <= self.spec_log().header(),
    {
        let ghost es = self.spec_index();
        let total = self.log.header_len();
        proof {
            lemma_live_len_le(es);
            assert(self.spec_log().data().len() == self.spec_log().header());
            assert(es.subrange(0, 0) =~= Seq::<IndexEntry>::empty());
        }
        let n = self.index.len();
        let mut sum: usize = 0;
        let mut i: usize = 0;
        while i < n
            invariant
                es == self.spec_index(),
                n == es.len(),
                i <= n,
                forall|j: int| 0 <= j < es.len() ==> entry_wf(#[trigger] es[j]),
                sum == live_len(es.subrange(0, i as int)),
                entries_len(es) <= total,
            decreases n - i,
        {
            let ghost pre = es.subrange(0, i as int);
            let ghost post = es.subrange(0, i + 1);
            proof {
                assert(post.drop_last() =~= pre);
                assert(post.last() == es[i as int]);
                lemma_live_len_le(pre);
                lemma_entries_len_prefix(es, i + 1);
            }
            let e = &self.index[i];
            if !e.is_tombstone() {
                let kb = e.key.as_str().as_bytes_vec();
                proof {
                    assert(es[i as int].enc_len() == 9 + kb@.len() + e.value@.len());
                    assert(entries_len(post) == entries_len(pre) + es[i as int].enc_len());
                    assert(sum + es[i as int].enc_len() <= total);
                }
                let el = 9 + kb.len() + e.value.len();
                sum = sum + el;
            }
            i = i + 1;
        }
        proof {
            assert(es.subrange(0, n as int) =~= es);
        }
        sum
    }

    /// Rewrites the log to hold one record per live key and drops the
    /// tombstoned keys from the index. Every read sees exactly what it
    /// saw before; the rewritten log holds no tombstone and no two
    /// records for one key, so its header is reset to exactly the live
    /// records' bytes and never exceeds what it held before.
    pub fn compact(&mut self)
        requires
            old(self).wf(),
        ensures
            final(self).wf(),
            forall|k: Seq<char>| final(self).spec_live(k) == old(self).spec_live(k),
            final(self).spec_log().data().len() <= old(self).spec_log().data().len(),
            ({
                let rs = final(self).spec_log().records()->Some_0;
                &&& forall|i: int| 0 <= i < rs.len() ==> !((#[trigger] rs[i]).typ is Deleted)
                &&& forall|i: int, j: int|
                    0 <= i < j < rs.len() ==> (#[trigger] rs[i]).key != (#[trigger] rs[j]).key
            }),
            final(self).spec_log().slack_zeroed(),
    {
        let cap = self.log.capacity_len();
        let mut new_log = AppendLog::create(DEFAULT_CAPACITY);
        let mut new_index: Vec<IndexEntry> = Vec::new();
        let n = self.index.len();
        let mut i: usize = 0;
        let ghost es = self.index@;
        proof {
            lemma_index_map_membership(es);
            assert(es.subrange(0, 0) =~= Seq::<IndexEntry>::empty());
            assert(old(self).spec_log().data().len() == old(self).spec_log().header());
            assert(8 + entries_len(es) <= cap);
        }
        while i < n
            invariant
                n == es.len(),
                es == self.index@,
                i <= n,
                unique_keys(es),
                forall|j: int| 0 <= j < es.len() ==> entry_wf(#[trigger] es[j]),
                new_log.wf(),
                new_log.records() is Some,
                replay_map(new_log.records()->Some_0) == index_map_of(new_index@),
                unique_keys(new_index@),
                forall|j: int| 0 <= j < new_index@.len() ==> entry_wf(#[trigger] new_index@[j]),
                entries_len(new_index@) <= new_log.data().len(),
                new_log.data().len() <= entries_len(es.subrange(0, i as int)),
                8 + entries_len(es) <= usize::MAX,
                new_log.slack_zeroed(),
                ({
                    let nrs = new_log.records()->Some_0;
                    &&& forall|t: int| 0 <= t < nrs.len() ==> !((#[trigger] nrs[t]).typ is Deleted)
                    &&& forall|t1: int, t2: int|
                        0 <= t1 < t2 < nrs.len() ==> (#[trigger] nrs[t1]).key != (
                        #[trigger] nrs[t2]).key
                    &&& forall|t: int|
                        #![trigger nrs[t]]
                        0 <= t < nrs.len() ==> exists|j: int|
                            #![auto]
                            0 <= j < i && nrs[t].key == encode_utf8(es[j].key_view())
                }),
                forall|j: int|
                    0 <= j < i ==> ({
                        let e = #[trigger] es[j];
                        if e.typ_view() is Deleted {
                            !index_map_of(new_index@).contains_key(e.key_view())
                        } else {
                            index_map_of(new_index@).contains_key(e.key_view())
                                && index_map_of(new_index@)[e.key_view()] == (
                            e.typ_view(),
                            e.val_view(),
                            )
                        }
                    }),
                forall|k: Seq<char>|
                    #[trigger] index_map_of(new_index@).contains_key(k) ==> exists|j: int|
                        0 <= j < i && (#[trigger] es[j]).key_view() == k && !(es[j].typ_view()
                            is Deleted),
            decreases n - i,
        {
            let ghost pre = es.subrange(0, i as int);
            let ghost post = es.subrange(0, i + 1);
            proof {
                assert(post.drop_last() =~= pre);
                assert(post.last() == es[i as int]);
                assert(entries_len(post) == entries_len(pre) + es[i as int].enc_len());
                lemma_entries_len_prefix(es, i + 1);
            }
            let e = &self.index[i];
            if !e.is_tombstone() {
                let b = Buffer::from_kv(e.key.as_str(), e.typ, crate::bytes::clone_bytes(&e.value));
                proof {
                    b.lemma_key_encoding();
                    assert(rec_wf(b@));
                    assert(spec_encode(b@).len() == es[i as int].enc_len());
                }
                let bytes = match b.to_bytes() {
                    Ok(v) => v,
                    Err(_) => {
                        proof {
                            assert(false);
                        }
                        return ;
                    },
                };
                let ghost nrs = new_log.records()->Some_0;
                let ghost pre_data = new_log.data();
                match new_log.append(&bytes) {
                    Ok(_) => {},
                    Err(_) => {
                        proof {
                            assert(new_log.header() == new_log.data().len());
                            assert(8 + new_log.header() + bytes@.len() <= usize::MAX);
                            assert(false);
                        }
                        return ;
                    },
                }
                proof {
                    lemma_parse_snoc(pre_data, b@);
                }
                proof {
                    assert(new_log.records() == Some(nrs.push(b@)));
                    assert(nrs.push(b@).drop_last() =~= nrs);
                    assert(replay_map(nrs.push(b@)) == apply_rec(replay_map(nrs), b@));
                    vstd::utf8::encode_utf8_decode_utf8(b.spec_key());
                    lemma_parse_total_len(new_log.data());
                    let nrs2 = nrs.push(b@);
                    assert(b@.key == encode_utf8(es[i as int].key_view()));
                    assert(!(b@.typ is Deleted));
                    assert forall|t: int| 0 <= t < nrs.len() implies (#[trigger] nrs[t]).key
                        != b@.key by {
                        let j = choose|j: int|
                            #![auto]
                            0 <= j < i && nrs[t].key == encode_utf8(es[j].key_view());
                        if nrs[t].key == b@.key {
                            vstd::utf8::encode_utf8_decode_utf8(es[j].key_view());
                            vstd::utf8::encode_utf8_decode_utf8(es[i as int].key_view());
                            assert(es[j].key_view() == es[i as int].key_view());
                        }
                    }
                    assert forall|t: int|
                        #![trigger nrs2[t]]
                        0 <= t < nrs2.len() implies exists|j: int|
                        #![auto]
                        0 <= j < i + 1 && nrs2[t].key == encode_utf8(es[j].key_view()) by {
                        if t < nrs.len() {
                            let j = choose|j: int|
                                #![auto]
                                0 <= j < i && nrs[t].key == encode_utf8(es[j].key_view());
                            assert(nrs2[t].key == encode_utf8(es[j].key_view()));
                        } else {
                            assert(nrs2[t].key == encode_utf8(es[i as int].key_view()));
                        }
                    }
                }
                let ghost old_entries = new_index@;
                index_apply(&mut new_index, &b);
                proof {
                    lemma_index_map_membership(new_index@);
                    assert forall|j: int| 0 <= j < i + 1 implies ({
                        let en = #[trigger] es[j];
                        if en.typ_view() is Deleted {
                            !index_map_of(new_index@).contains_key(en.key_view())
                        } else {
                            index_map_of(new_index@).contains_key(en.key_view())
                                && index_map_of(new_index@)[en.key_view()] == (
                            en.typ_view(),
                            en.val_view(),
                            )
                        }
                    }) by {
                        let en = es[j];
                        if j < i {
                            assert(en.key_view() != es[i as int].key_view());
                        }
                    }
                }
            } else {
                proof {
                    assert(!index_map_of(new_index@).contains_key(es[i as int].key_view()));
                }
            }
            i = i + 1;
        }
        proof {
            assert(es.subrange(0, n as int) =~= es);
            lemma_index_map_membership(es);
        }
        self.log = new_log;
        self.index = new_index;
        proof {
            let old_map = index_map_of(es);
            let new_map = index_map_of(self.index@);
            assert forall|k: Seq<char>| #[trigger] live_of(new_map, k) == live_of(old_map, k) by {
                if old_map.contains_key(k) {
                    let j = choose|j: int|
                        0 <= j < es.len() && (#[trigger] es[j]).key_view() == k;
                    if es[j].typ_view() is Deleted {
                        assert(old_map[k] == (es[j].typ_view(), es[j].val_view()));
                        assert(!new_map.contains_key(k));
                    } else {
                        assert(new_map.contains_key(k));
                        assert(new_map[k] == (es[j].typ_view(), es[j].val_view()));
                        assert(old_map[k] == (es[j].typ_view(), es[j].val_view()));
                    }
                } else {
                    if new_map.contains_key(k) {
                        let j = choose|j: int|
                            0 <= j < es.len() && (#[trigger] es[j]).key_view() == k && !(
                            es[j].typ_view() is Deleted);
                        assert(old_map.contains_key(k));
                    }
                }
            }
        }
    }
}

/// Replay idempotence: the index of any well-formed store is exactly
/// the replay of its log, and its region bytes open again into the
/// same index. Together with the contract of [`Store::open`] — whose
/// result's index is `replay_map(open_records(region))` — closing a
/// store and reopening it over the same bytes rebuilds an identical
/// index, whatever interleaving of writes and deletes produced it.
pub proof fn lemma_replay_idempotence(s: Store)
    requires
        s.wf(),
    ensures
        s.spec_log().records() is Some,
        replay_map(s.spec_log().records()->Some_0) == s.index_map(),
        open_parses(s.spec_log().region_view()),
        replay_map(open_records(s.spec_log().region_view())) == s.index_map(),
{
    let region = s.spec_log().region_view();
    assert(region.subrange(8, 8 + spec_header_val(region) as int) == s.spec_log().data());
}

} // verus!
