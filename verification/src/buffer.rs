//! The typed record codec: a `Buffer` holds one key/type/payload record,
//! and the codec turns it into a self-delimiting, length-prefixed binary
//! form and back.
//!
//! Wire format of one record, big-endian throughout:
//!
//! ```text
//! key_length  : 4 bytes, u32, number of UTF-8 key bytes, at least 1
//! key_bytes   : key_length bytes, UTF-8
//! type_tag    : 1 byte
//! payload_len : 4 bytes, u32
//! payload     : payload_len bytes, shape fixed by the type tag
//! ```

use vstd::prelude::*;
use vstd::utf8::*;
use vstd::string::StrSliceExecFns;
use vstd::string::StringExecFns;

use crate::bytes::{
    bytes_eq, clone_bytes, copy_range, push_u32_be, read_u32_be, read_u64_be, u32_be, u32_of_be,
    u64_be, u64_of_be, lemma_u32_be_round_trip, lemma_u32_be_inverse,
};
use crate::Error;

verus! {

broadcast use vstd::utf8::encode_utf8_valid_utf8;

/// The closed set of value kinds a record can carry. `Deleted` is the
/// tombstone marker and never holds a payload.
#[derive(Clone, Copy, Debug, PartialEq, Eq, Structural)]
pub enum ValueType {
    Byte,
    ByteArray,
    Str,
    I32,
    I64,
    F32,
    F64,
    I32Array,
    I64Array,
    F32Array,
    F64Array,
    Deleted,
}

/// The mathematical content of one record: its key's UTF-8 bytes, its
/// type, and its payload bytes.
#[verifier::ext_equal]
pub ghost struct RecView {
    pub key: Seq<u8>,
    pub typ: ValueType,
    pub value: Seq<u8>,
}

/// The one-byte wire tag of each value type.
pub open spec fn spec_tag(t: ValueType) -> u8 {
    match t {
        ValueType::Deleted => 0u8,
        ValueType::Byte => 1u8,
        ValueType::ByteArray => 2u8,
        ValueType::Str => 3u8,
        ValueType::I32 => 4u8,
        ValueType::I64 => 5u8,
        ValueType::F32 => 6u8,
        ValueType::F64 => 7u8,
        ValueType::I32Array => 8u8,
        ValueType::I64Array => 9u8,
        ValueType::F32Array => 10u8,
        ValueType::F64Array => 11u8,
    }
}

/// The value type a wire tag stands for; an unrecognized tag decodes to
/// nothing rather than guessing.
pub open spec fn spec_tag_type(b: u8) -> Option<ValueType> {
    if b == 0 {
        Some(ValueType::Deleted)
    } else if b == 1 {
        Some(ValueType::Byte)
    } else if b == 2 {
        Some(ValueType::ByteArray)
    } else if b == 3 {
        Some(ValueType::Str)
    } else if b == 4 {
        Some(ValueType::I32)
    } else if b == 5 {
        Some(ValueType::I64)
    } else if b == 6 {
        Some(ValueType::F32)
    } else if b == 7 {
        Some(ValueType::F64)
    } else if b == 8 {
        Some(ValueType::I32Array)
    } else if b == 9 {
        Some(ValueType::I64Array)
    } else if b == 10 {
        Some(ValueType::F32Array)
    } else if b == 11 {
        Some(ValueType::F64Array)
    } else {
        None
    }
}

fn tag_byte(t: ValueType) -> (r: u8)
    ensures
        r == spec_tag(t),
{
    match t {
        ValueType::Deleted => 0u8,
        ValueType::Byte => 1u8,
        ValueType::ByteArray => 2u8,
        ValueType::Str => 3u8,
        ValueType::I32 => 4u8,
        ValueType::I64 => 5u8,
        ValueType::F32 => 6u8,
        ValueType::F64 => 7u8,
        ValueType::I32Array => 8u8,
        ValueType::I64Array => 9u8,
        ValueType::F32Array => 10u8,
        ValueType::F64Array => 11u8,
    }
}

fn type_of_tag(b: u8) -> (r: Option<ValueType>)
    ensures
        r == spec_tag_type(b),
{
    if b == 0 {
        Some(ValueType::Deleted)
    } else if b == 1 {
        Some(ValueType::Byte)
    } else if b == 2 {
        Some(ValueType::ByteArray)
    } else if b == 3 {
        Some(ValueType::Str)
    } else if b == 4 {
        Some(ValueType::I32)
    } else if b == 5 {
        Some(ValueType::I64)
    } else if b == 6 {
        Some(ValueType::F32)
    } else if b == 7 {
        Some(ValueType::F64)
    } else if b == 8 {
        Some(ValueType::I32Array)
    } else if b == 9 {
        Some(ValueType::I64Array)
    } else if b == 10 {
        Some(ValueType::F32Array)
    } else if b == 11 {
        Some(ValueType::F64Array)
    } else {
        None
    }
}

/// Whether a payload has the shape its type fixes: exact width for
/// scalars, a multiple of the element width for arrays, empty for the
/// tombstone, anything for strings and raw bytes.
pub open spec fn payload_wf(t: ValueType, p: Seq<u8>) -> bool {
    match t {
        ValueType::Byte => p.len() == 1,
        ValueType::ByteArray => true,
        ValueType::Str => true,
        ValueType::I32 => p.len() == 4,
        ValueType::I64 => p.len() == 8,
        ValueType::F32 => p.len() == 4,
        ValueType::F64 => p.len() == 8,
        ValueType::I32Array => p.len() % 4 == 0,
        ValueType::I64Array => p.len() % 8 == 0,
        ValueType::F32Array => p.len() % 4 == 0,
        ValueType::F64Array => p.len() % 8 == 0,
        ValueType::Deleted => p.len() == 0,
    }
}

/// A record that can be written: non-empty key, length fields that fit
/// their 32-bit prefixes, and a payload of the shape its type fixes.
pub open spec fn rec_wf(r: RecView) -> bool {
    &&& 1 <= r.key.len() <= u32::MAX
    &&& r.value.len() <= u32::MAX
    &&& payload_wf(r.typ, r.value)
}

/// The serialized bytes of one record.
pub open spec fn spec_encode(r: RecView) -> Seq<u8> {
    u32_be(r.key.len() as u32) + r.key + seq![spec_tag(r.typ)] + u32_be(r.value.len() as u32)
        + r.value
}

/// Parses one record from the front of `d`: the record and the number of
/// bytes it occupies, or nothing when `d` is truncated, carries an
/// unrecognized tag, an empty or non-UTF-8 key, or a payload of the
/// wrong shape.
pub open spec fn spec_decode(d: Seq<u8>) -> Option<(RecView, int)> {
    if d.len() < 4 {
        None
    } else {
        let klen = u32_of_be(d[0], d[1], d[2], d[3]) as int;
        if klen < 1 || d.len() < 9 + klen {
            None
        } else {
            let key = d.subrange(4, 4 + klen);
            match spec_tag_type(d[4 + klen]) {
                None => None,
                Some(t) => {
                    let plen = u32_of_be(
                        d[5 + klen],
                        d[6 + klen],
                        d[7 + klen],
                        d[8 + klen],
                    ) as int;
                    if d.len() < 9 + klen + plen {
                        None
                    } else {
                        let p = d.subrange(9 + klen, 9 + klen + plen);
                        if valid_utf8(key) && payload_wf(t, p) {
                            Some((RecView { key, typ: t, value: p }, 9 + klen + plen))
                        } else {
                            None
                        }
                    }
                },
            }
        }
    }
}

/// What a successful parse guarantees: a well-formed record whose
/// serialized form is exactly the bytes consumed.
pub proof fn lemma_decode_bounds(d: Seq<u8>)
    requires
        spec_decode(d) is Some,
    ensures
        ({
            let (r, n) = spec_decode(d)->Some_0;
            &&& rec_wf(r)
            &&& valid_utf8(r.key)
            &&& 10 <= n <= d.len()
            &&& n == spec_encode(r).len()
            &&& spec_encode(r) =~= d.subrange(0, n)
        }),
{
    let (r, n) = spec_decode(d)->Some_0;
    let klen = u32_of_be(d[0], d[1], d[2], d[3]) as int;
    let plen = u32_of_be(d[5 + klen], d[6 + klen], d[7 + klen], d[8 + klen]) as int;
    lemma_u32_be_inverse(d[0], d[1], d[2], d[3]);
    lemma_u32_be_inverse(d[5 + klen], d[6 + klen], d[7 + klen], d[8 + klen]);
    assert(r.key.len() == klen);
    assert(r.value.len() == plen);
    assert(u32_be(r.key.len() as u32) =~= d.subrange(0, 4));
    assert(u32_be(r.value.len() as u32) =~= d.subrange(5 + klen, 9 + klen));
    assert(spec_tag_type(d[4 + klen]) == Some(r.typ));
    assert(spec_tag(r.typ) == d[4 + klen]);
    assert(spec_encode(r) =~= d.subrange(0, n));
}

/// Round trip of the codec: decoding the serialized form of any
/// well-formed record, whatever follows it in the buffer, gives back
/// that record and consumes exactly its own bytes.
pub proof fn lemma_round_trip_at(r: RecView, rest: Seq<u8>)
    requires
        rec_wf(r),
        valid_utf8(r.key),
    ensures
        spec_decode(spec_encode(r) + rest) == Some((r, spec_encode(r).len() as int)),
{
    let e = spec_encode(r);
    let d = e + rest;
    let klen = r.key.len() as int;
    let plen = r.value.len() as int;
    let kl32 = r.key.len() as u32;
    let pl32 = r.value.len() as u32;
    assert(e.len() == 9 + klen + plen);
    assert forall|i: int| 0 <= i < 4 implies d[i] == u32_be(kl32)[i] by {}
    lemma_u32_be_round_trip(kl32);
    assert(u32_of_be(d[0], d[1], d[2], d[3]) == kl32);
    assert(d.subrange(4, 4 + klen) =~= r.key);
    assert(d[4 + klen] == spec_tag(r.typ));
    assert(spec_tag_type(spec_tag(r.typ)) == Some(r.typ));
    assert forall|i: int| 0 <= i < 4 implies d[5 + klen + i] == u32_be(pl32)[i] by {}
    lemma_u32_be_round_trip(pl32);
    assert(u32_of_be(d[5 + klen], d[6 + klen], d[7 + klen], d[8 + klen]) == pl32);
    assert(d.subrange(9 + klen, 9 + klen + plen) =~= r.value);
    let parsed = spec_decode(d)->Some_0;
    assert(parsed.0 =~= r);
}

/// Round trip of the codec on a buffer holding exactly one record.
pub proof fn lemma_round_trip(r: RecView)
    requires
        rec_wf(r),
        valid_utf8(r.key),
    ensures
        spec_decode(spec_encode(r)) == Some((r, spec_encode(r).len() as int)),
{
    lemma_round_trip_at(r, Seq::empty());
    assert(spec_encode(r) + Seq::<u8>::empty() =~= spec_encode(r));
}

/// A parse is unchanged by bytes that follow the record it consumed.
pub proof fn lemma_decode_frame(d: Seq<u8>, e: Seq<u8>)
    requires
        spec_decode(d) is Some,
    ensures
        spec_decode(d + e) == spec_decode(d),
{
    lemma_decode_bounds(d);
    let dd = d + e;
    let (r, n) = spec_decode(d)->Some_0;
    let klen = u32_of_be(d[0], d[1], d[2], d[3]) as int;
    assert(u32_of_be(dd[0], dd[1], dd[2], dd[3]) as int == klen);
    assert(dd.subrange(4, 4 + klen) =~= d.subrange(4, 4 + klen));
    assert(dd[4 + klen] == d[4 + klen]);
    let plen = u32_of_be(d[5 + klen], d[6 + klen], d[7 + klen], d[8 + klen]) as int;
    assert(u32_of_be(dd[5 + klen], dd[6 + klen], dd[7 + klen], dd[8 + klen]) as int == plen);
    assert(dd.subrange(9 + klen, 9 + klen + plen) =~= d.subrange(9 + klen, 9 + klen + plen));
    assert(spec_decode(dd) == spec_decode(d));
}

/// The big-endian payload bytes of a sequence of 32-bit integers.
pub open spec fn i32s_be(s: Seq<i32>) -> Seq<u8>
    decreases s.len(),
{
    if s.len() == 0 {
        Seq::empty()
    } else {
        i32s_be(s.drop_last()) + u32_be(s.last() as u32)
    }
}

/// The big-endian payload bytes of a sequence of 64-bit integers.
pub open spec fn i64s_be(s: Seq<i64>) -> Seq<u8>
    decreases s.len(),
{
    if s.len() == 0 {
        Seq::empty()
    } else {
        i64s_be(s.drop_last()) + u64_be(s.last() as u64)
    }
}

/// Packed 32-bit elements occupy four bytes each.
pub proof fn lemma_i32s_be_len(s: Seq<i32>)
    ensures
        i32s_be(s).len() == 4 * s.len(),
    decreases s.len(),
{
    if s.len() > 0 {
        lemma_i32s_be_len(s.drop_last());
    }
}

/// Packed 64-bit elements occupy eight bytes each.
pub proof fn lemma_i64s_be_len(s: Seq<i64>)
    ensures
        i64s_be(s).len() == 8 * s.len(),
    decreases s.len(),
{
    if s.len() > 0 {
        lemma_i64s_be_len(s.drop_last());
    }
}

/// Relies on `String::from_utf8`: returns the string read from the bytes
/// when they are valid UTF-8, and reports the bytes invalid otherwise.
#[verifier::external_body]
fn bytes_to_string(b: Vec<u8>) -> (r: Option<String>)
    ensures
        r matches Some(s) ==> encode_utf8(s@) == b@,
        r is Some <==> valid_utf8(b@),
{
    match String::from_utf8(b) {
        Ok(s) => Some(s),
        Err(_) => None,
    }
}

/// A record read back for a caller: its payload bytes and their type.
pub struct ReaderResult {
    pub data: Vec<u8>,
    pub types: ValueType,
}

/// What a pluggable decoder hands back: the record it found, if any,
/// and how many bytes it consumed.
pub struct DecodeResult {
    pub buffer: Option<Buffer>,
    pub len: u32,
}

/// A pluggable record serializer; the hook an at-rest payload
/// transform implements.
pub trait Encoder: Send {
    fn encode_to_bytes(&self, raw_buffer: &Buffer, position: u32) -> Result<Vec<u8>, Error>;
}

/// A pluggable record parser, the decoding half of the same hook.
pub trait Decoder: Send {
    fn decode_bytes(&self, data: &[u8], position: u32) -> Result<DecodeResult, Error>;
}

/// One typed key/value record, the atomic persisted unit of the log.
#[derive(Debug)]
pub struct Buffer {
    key: String,
    typ: ValueType,
    value: Vec<u8>,
}

impl View for Buffer {
    type V = RecView;

    closed spec fn view(&self) -> RecView {
        RecView { key: encode_utf8(self.key@), typ: self.typ, value: self.value@ }
    }
}

/// What a record decoded from a string-typed payload looks like.
pub open spec fn str_payload_of(s: Seq<char>) -> Seq<u8> {
    encode_utf8(s)
}

impl Buffer {
    /// The key as the caller wrote it.
    pub closed spec fn spec_key(&self) -> Seq<char> {
        self.key@
    }

    /// The key bytes of the view are the UTF-8 form of the key, so the
    /// key read back from a record is the key that was written.
    pub proof fn lemma_key_encoding(&self)
        ensures
            self@.key == encode_utf8(self.spec_key()),
            valid_utf8(self@.key),
    {
    }

    /// A record whose lengths fit the wire format and whose payload has
    /// the shape its type fixes.
    pub open spec fn wf(&self) -> bool {
        rec_wf(self@)
    }

    pub(crate) fn from_kv(key: &str, t: ValueType, value: Vec<u8>) -> (r: Buffer)
        ensures
            r.spec_key() == key@,
            r@ == (RecView { key: encode_utf8(key@), typ: t, value: value@ }),
    {
        Buffer { key: String::from_str(key), typ: t, value }
    }

    /// Serializes the record. Fails with `EncodeFailed` exactly when the
    /// key is empty or a length field would not fit its 32-bit prefix.
    pub fn to_bytes(&self) -> (r: Result<Vec<u8>, Error>)
        ensures
            r is Ok <==> rec_wf_sizes(self@),
            r matches Ok(b) ==> b@ == spec_encode(self@),
            r is Err ==> r matches Err(Error::EncodeFailed(_)),
    {
        let mut kb = self.key.as_str().as_bytes_vec();
        if kb.len() == 0 {
            return Err(Error::EncodeFailed(String::from_str("key must not be empty")));
        }
        if kb.len() > u32::MAX as usize {
            return Err(Error::EncodeFailed(String::from_str("key too long")));
        }
        if self.value.len() > u32::MAX as usize {
            return Err(Error::EncodeFailed(String::from_str("payload too long")));
        }
        let klen = kb.len() as u32;
        let plen = self.value.len() as u32;
        let mut out: Vec<u8> = Vec::new();
        push_u32_be(&mut out, klen);
        out.append(&mut kb);
        out.push(tag_byte(self.typ));
        push_u32_be(&mut out, plen);
        let mut pv = clone_bytes(&self.value);
        out.append(&mut pv);
        assert(out@ =~= spec_encode(self@));
        Ok(out)
    }

    /// Parses one record at `offset`. On success the record and the
    /// number of bytes it occupied; `DecodeFailed` exactly when no
    /// record parses there.
    pub fn decode(data: &Vec<u8>, offset: usize) -> (r: Result<(Buffer, usize), Error>)
        requires
            offset <= data@.len(),
        ensures
            r is Ok <==> spec_decode(data@.skip(offset as int)) is Some,
            r matches Ok((b, n)) ==> spec_decode(data@.skip(offset as int)) == Some(
                (b@, n as int),
            ) && b.wf() && 10 <= n && offset + n <= data@.len(),
            r is Err ==> r matches Err(Error::DecodeFailed(_)),
    {
        let ghost d = data@.skip(offset as int);
        let len = data.len();
        let rem = len - offset;
        if rem < 9 {
            return Err(Error::DecodeFailed(String::from_str("truncated record")));
        }
        let klen32 = read_u32_be(data, offset);
        let klen = klen32 as usize;
        assert(klen as int == u32_of_be(d[0], d[1], d[2], d[3]) as int);
        if klen == 0 {
            return Err(Error::DecodeFailed(String::from_str("empty key")));
        }
        if klen > rem - 9 {
            assert(d.len() < 9 + klen);
            return Err(Error::DecodeFailed(String::from_str("truncated key")));
        }
        let tag = data[offset + 4 + klen];
        assert(tag == d[4 + klen]);
        let typ = match type_of_tag(tag) {
            Some(t) => t,
            None => {
                return Err(Error::DecodeFailed(String::from_str("unknown type tag")));
            },
        };
        let plen32 = read_u32_be(data, offset + 5 + klen);
        let plen = plen32 as usize;
        assert(plen as int == u32_of_be(d[5 + klen], d[6 + klen], d[7 + klen], d[8 + klen]) as int);
        if plen > rem - 9 - klen {
            assert(d.len() < 9 + klen + plen);
            return Err(Error::DecodeFailed(String::from_str("truncated payload")));
        }
        let key_bytes = copy_range(data, offset + 4, offset + 4 + klen);
        assert(key_bytes@ =~= d.subrange(4, 4 + klen as int));
        let payload = copy_range(data, offset + 9 + klen, offset + 9 + klen + plen);
        assert(payload@ =~= d.subrange(9 + klen as int, 9 + klen as int + plen as int));
        if !payload_ok(typ, &payload) {
            return Err(Error::DecodeFailed(String::from_str("payload has the wrong shape")));
        }
        let key = match bytes_to_string(key_bytes) {
            Some(s) => s,
            None => {
                return Err(Error::DecodeFailed(String::from_str("key is not valid UTF-8")));
            },
        };
        let n = 9 + klen + plen;
        let b = Buffer { key, typ, value: payload };
        assert(b@ =~= spec_decode(d)->Some_0.0);
        Ok((b, n))
    }

    /// The record's key.
    pub fn key(&self) -> (r: &str)
        ensures
            r@ == self.spec_key(),
    {
        self.key.as_str()
    }

    /// The raw payload bytes.
    pub fn value(&self) -> (r: &[u8])
        ensures
            r@ == self@.value,
    {
        self.value.as_slice()
    }

    /// The stored value type.
    pub fn value_type(&self) -> (r: ValueType)
        ensures
            r == self@.typ,
    {
        self.typ
    }

    /// Whether this record is a tombstone.
    pub fn is_deleting(&self) -> (r: bool)
        ensures
            r == (self@.typ is Deleted),
    {
        match self.typ {
            ValueType::Deleted => true,
            _ => false,
        }
    }

    /// A tombstoned key reads as absent; a live record of another type
    /// reads as a type mismatch.
    fn check_buffer_type(&self, required: ValueType) -> (r: Result<(), Error>)
        ensures
            r is Ok <==> (!(self@.typ is Deleted) && self@.typ == required),
            self@.typ is Deleted ==> r == Err::<(), Error>(Error::KeyNotFound),
            !(self@.typ is Deleted) && self@.typ != required ==> r == Err::<(), Error>(
                Error::TypeMissMatch,
            ),
    {
        if self.is_deleting() {
            return Err(Error::KeyNotFound);
        }
        if tag_byte(self.typ) == tag_byte(required) {
            assert(self@.typ == required) by {
                lemma_tag_injective(self@.typ, required);
            }
            Ok(())
        } else {
            Err(Error::TypeMissMatch)
        }
    }

    /// Reads a string payload: `KeyNotFound` for a tombstone,
    /// `TypeMissMatch` for another type, `DataInvalid` for bytes that
    /// are not UTF-8.
    pub fn decode_str(&self) -> (r: Result<String, Error>)
        ensures
            self@.typ is Deleted ==> r == Err::<String, Error>(Error::KeyNotFound),
            !(self@.typ is Deleted) && !(self@.typ is Str) ==> r == Err::<String, Error>(
                Error::TypeMissMatch,
            ),
            self@.typ is Str && valid_utf8(self@.value) ==> (r matches Ok(s) && str_payload_of(s@)
                == self@.value),
            self@.typ is Str && !valid_utf8(self@.value) ==> r == Err::<String, Error>(
                Error::DataInvalid,
            ),
    {
        if let Err(e) = self.check_buffer_type(ValueType::Str) {
            return Err(e);
        }
        match bytes_to_string(clone_bytes(&self.value)) {
            Some(s) => Ok(s),
            None => Err(Error::DataInvalid),
        }
    }

    /// Reads a boolean stored as a single byte; 1 is true.
    pub fn decode_bool(&self) -> (r: Result<bool, Error>)
        ensures
            self@.typ is Deleted ==> r == Err::<bool, Error>(Error::KeyNotFound),
            !(self@.typ is Deleted) && !(self@.typ is Byte) ==> r == Err::<bool, Error>(
                Error::TypeMissMatch,
            ),
            self@.typ is Byte && self@.value.len() == 1 ==> r == Ok::<bool, Error>(
                self@.value[0] == 1,
            ),
            self@.typ is Byte && self@.value.len() != 1 ==> r == Err::<bool, Error>(
                Error::DataInvalid,
            ),
    {
        if let Err(e) = self.check_buffer_type(ValueType::Byte) {
            return Err(e);
        }
        if self.value.len() != 1 {
            return Err(Error::DataInvalid);
        }
        Ok(self.value[0] == 1)
    }

    /// Reads a raw byte-array payload.
    pub fn decode_byte_array(&self) -> (r: Result<Vec<u8>, Error>)
        ensures
            self@.typ is Deleted ==> r == Err::<Vec<u8>, Error>(Error::KeyNotFound),
            !(self@.typ is Deleted) && !(self@.typ is ByteArray) ==> r == Err::<Vec<u8>, Error>(
                Error::TypeMissMatch,
            ),
            self@.typ is ByteArray ==> (r matches Ok(v) && v@ == self@.value),
    {
        if let Err(e) = self.check_buffer_type(ValueType::ByteArray) {
            return Err(e);
        }
        Ok(clone_bytes(&self.value))
    }

    /// Reads a 32-bit integer stored as four big-endian bytes.
    pub fn decode_i32(&self) -> (r: Result<i32, Error>)
        ensures
            self@.typ is Deleted ==> r == Err::<i32, Error>(Error::KeyNotFound),
            !(self@.typ is Deleted) && !(self@.typ is I32) ==> r == Err::<i32, Error>(
                Error::TypeMissMatch,
            ),
            self@.typ is I32 && self@.value.len() == 4 ==> (r matches Ok(v) && u32_be(v as u32)
                == self@.value),
            self@.typ is I32 && self@.value.len() != 4 ==> r == Err::<i32, Error>(
                Error::DataInvalid,
            ),
    {
        if let Err(e) = self.check_buffer_type(ValueType::I32) {
            return Err(e);
        }
        if self.value.len() != 4 {
            return Err(Error::DataInvalid);
        }
        let x = read_u32_be(&self.value, 0);
        let v = #[verifier::truncate] (x as i32);
        proof {
            lemma_u32_be_inverse(self@.value[0], self@.value[1], self@.value[2], self@.value[3]);
            assert((x as i32) as u32 == x) by (bit_vector);
            assert(u32_be(v as u32) =~= self@.value);
        }
        Ok(v)
    }

    /// Reads a 64-bit integer stored as eight big-endian bytes.
    pub fn decode_i64(&self) -> (r: Result<i64, Error>)
        ensures
            self@.typ is Deleted ==> r == Err::<i64, Error>(Error::KeyNotFound),
            !(self@.typ is Deleted) && !(self@.typ is I64) ==> r == Err::<i64, Error>(
                Error::TypeMissMatch,
            ),
            self@.typ is I64 && self@.value.len() == 8 ==> (r matches Ok(v) && u64_be(v as u64)
                == self@.value),
            self@.typ is I64 && self@.value.len() != 8 ==> r == Err::<i64, Error>(
                Error::DataInvalid,
            ),
    {
        if let Err(e) = self.check_buffer_type(ValueType::I64) {
            return Err(e);
        }
        if self.value.len() != 8 {
            return Err(Error::DataInvalid);
        }
        let x = read_u64_be(&self.value, 0);
        let v = #[verifier::truncate] (x as i64);
        proof {
            lemma_u64_be_bytes_inverse(self@.value);
            assert((x as i64) as u64 == x) by (bit_vector);
            assert(u64_be(v as u64) =~= self@.value);
        }
        Ok(v)
    }

    /// Reads a packed array of 32-bit integers, four big-endian bytes
    /// an element.
    pub fn decode_i32_array(&self) -> (r: Result<Vec<i32>, Error>)
        ensures
            self@.typ is Deleted ==> r == Err::<Vec<i32>, Error>(Error::KeyNotFound),
            !(self@.typ is Deleted) && !(self@.typ is I32Array) ==> r == Err::<Vec<i32>, Error>(
                Error::TypeMissMatch,
            ),
            self@.typ is I32Array && self@.value.len() % 4 == 0 ==> (r matches Ok(v) && i32s_be(v@)
                == self@.value && v@.len() * 4 == self@.value.len()),
            self@.typ is I32Array && self@.value.len() % 4 != 0 ==> r == Err::<Vec<i32>, Error>(
                Error::DataInvalid,
            ),
    {
        if let Err(e) = self.check_buffer_type(ValueType::I32Array) {
            return Err(e);
        }
        let len = self.value.len();
        if len % 4 != 0 {
            return Err(Error::DataInvalid);
        }
        let n = len / 4;
        let mut out: Vec<i32> = Vec::new();
        let mut i: usize = 0;
        while i < n
            invariant
                n == len / 4,
                len == self@.value.len(),
                len % 4 == 0,
                i <= n,
                out@.len() == i,
                i32s_be(out@) =~= self@.value.subrange(0, 4 * i),
            decreases n - i,
        {
            let x = read_u32_be(&self.value, 4 * i);
            let v = #[verifier::truncate] (x as i32);
            proof {
                let p = self@.value;
                lemma_u32_be_inverse(p[4 * i], p[4 * i + 1], p[4 * i + 2], p[4 * i + 3]);
                assert((x as i32) as u32 == x) by (bit_vector);
                assert(u32_be(v as u32) =~= p.subrange(4 * i, 4 * i + 4));
                assert(out@.push(v).drop_last() =~= out@);
                assert(p.subrange(0, 4 * (i + 1)) =~= p.subrange(0, 4 * i) + p.subrange(
                    4 * i,
                    4 * i + 4,
                ));
            }
            out.push(v);
            i = i + 1;
        }
        proof {
            assert(self@.value.subrange(0, 4 * (n as int)) =~= self@.value);
        }
        Ok(out)
    }

    /// Reads a packed array of 64-bit integers, eight big-endian bytes
    /// an element.
    pub fn decode_i64_array(&self) -> (r: Result<Vec<i64>, Error>)
        ensures
            self@.typ is Deleted ==> r == Err::<Vec<i64>, Error>(Error::KeyNotFound),
            !(self@.typ is Deleted) && !(self@.typ is I64Array) ==> r == Err::<Vec<i64>, Error>(
                Error::TypeMissMatch,
            ),
            self@.typ is I64Array && self@.value.len() % 8 == 0 ==> (r matches Ok(v) && i64s_be(v@)
                == self@.value && v@.len() * 8 == self@.value.len()),
            self@.typ is I64Array && self@.value.len() % 8 != 0 ==> r == Err::<Vec<i64>, Error>(
                Error::DataInvalid,
            ),
    {
        if let Err(e) = self.check_buffer_type(ValueType::I64Array) {
            return Err(e);
        }
        let len = self.value.len();
        if len % 8 != 0 {
            return Err(Error::DataInvalid);
        }
        let n = len / 8;
        let mut out: Vec<i64> = Vec::new();
        let mut i: usize = 0;
        while i < n
            invariant
                n == len / 8,
                len == self@.value.len(),
                len % 8 == 0,
                i <= n,
                out@.len() == i,
                i64s_be(out@) =~= self@.value.subrange(0, 8 * i),
            decreases n - i,
        {
            let x = read_u64_be(&self.value, 8 * i);
            let v = #[verifier::truncate] (x as i64);
            proof {
                let p = self@.value;
                lemma_u64_be_bytes_inverse(p.subrange(8 * i, 8 * i + 8));
                assert((x as i64) as u64 == x) by (bit_vector);
                assert(u64_be(v as u64) =~= p.subrange(8 * i, 8 * i + 8));
                assert(out@.push(v).drop_last() =~= out@);
                assert(p.subrange(0, 8 * (i + 1)) =~= p.subrange(0, 8 * i) + p.subrange(
                    8 * i,
                    8 * i + 8,
                ));
            }
            out.push(v);
            i = i + 1;
        }
        proof {
            assert(self@.value.subrange(0, 8 * (n as int)) =~= self@.value);
        }
        Ok(out)
    }

    /// A record holding raw bytes.
    pub fn from_byte_array(key: &str, value: &[u8]) -> (r: Buffer)
        ensures
            r.spec_key() == key@,
            r@ == (RecView {
                key: encode_utf8(key@),
                typ: ValueType::ByteArray,
                value: value@,
            }),
    {
        Buffer::from_kv(key, ValueType::ByteArray, vstd::slice::slice_to_vec(value))
    }

    /// A record holding a boolean as one byte, 1 for true.
    pub fn from_bool(key: &str, value: bool) -> (r: Buffer)
        ensures
            r.spec_key() == key@,
            r@ == (RecView {
                key: encode_utf8(key@),
                typ: ValueType::Byte,
                value: seq![if value { 1u8 } else { 0u8 }],
            }),
    {
        let out: u8 = if value {
            1
        } else {
            0
        };
        let mut v: Vec<u8> = Vec::new();
        v.push(out);
        assert(v@ =~= seq![if value { 1u8 } else { 0u8 }]);
        Buffer::from_kv(key, ValueType::Byte, v)
    }

    /// A record holding a string as its UTF-8 bytes.
    pub fn form_str(key: &str, value: &str) -> (r: Buffer)
        ensures
            r.spec_key() == key@,
            r@ == (RecView {
                key: encode_utf8(key@),
                typ: ValueType::Str,
                value: str_payload_of(value@),
            }),
    {
        Buffer::from_kv(key, ValueType::Str, value.as_bytes_vec())
    }

    /// A record holding a 32-bit integer as four big-endian bytes.
    pub fn from_i32(key: &str, value: i32) -> (r: Buffer)
        ensures
            r.spec_key() == key@,
            r@ == (RecView {
                key: encode_utf8(key@),
                typ: ValueType::I32,
                value: u32_be(value as u32),
            }),
    {
        let mut v: Vec<u8> = Vec::new();
        push_u32_be(&mut v, value as u32);
        assert(v@ =~= u32_be(value as u32));
        Buffer::from_kv(key, ValueType::I32, v)
    }

    /// A record holding a 64-bit integer as eight big-endian bytes.
    pub fn from_i64(key: &str, value: i64) -> (r: Buffer)
        ensures
            r.spec_key() == key@,
            r@ == (RecView {
                key: encode_utf8(key@),
                typ: ValueType::I64,
                value: u64_be(value as u64),
            }),
    {
        let x = value as u64;
        let mut v: Vec<u8> = Vec::new();
        v.push((x >> 56u64) as u8);
        v.push((x >> 48u64) as u8);
        v.push((x >> 40u64) as u8);
        v.push((x >> 32u64) as u8);
        v.push((x >> 24u64) as u8);
        v.push((x >> 16u64) as u8);
        v.push((x >> 8u64) as u8);
        v.push(x as u8);
        assert(v@ =~= u64_be(x));
        Buffer::from_kv(key, ValueType::I64, v)
    }

    /// A record holding 32-bit integers packed big-endian, four bytes an
    /// element.
    pub fn form_i32_array(key: &str, value: &[i32]) -> (r: Buffer)
        ensures
            r.spec_key() == key@,
            r@ == (RecView {
                key: encode_utf8(key@),
                typ: ValueType::I32Array,
                value: i32s_be(value@),
            }),
    {
        let n = value.len();
        let mut v: Vec<u8> = Vec::new();
        let mut i: usize = 0;
        while i < n
            invariant
                n == value@.len(),
                i <= n,
                v@ =~= i32s_be(value@.subrange(0, i as int)),
            decreases n - i,
        {
            let x = *vstd::slice::slice_index_get(value, i);
            push_u32_be(&mut v, x as u32);
            proof {
                assert(value@.subrange(0, i + 1).drop_last() =~= value@.subrange(0, i as int));
                assert(value@.subrange(0, i + 1).last() == value@[i as int]);
            }
            i = i + 1;
        }
        proof {
            assert(value@.subrange(0, n as int) =~= value@);
        }
        Buffer::from_kv(key, ValueType::I32Array, v)
    }

    /// A record holding 64-bit integers packed big-endian, eight bytes
    /// an element.
    pub fn form_i64_array(key: &str, value: &[i64]) -> (r: Buffer)
        ensures
            r.spec_key() == key@,
            r@ == (RecView {
                key: encode_utf8(key@),
                typ: ValueType::I64Array,
                value: i64s_be(value@),
            }),
    {
        let n = value.len();
        let mut v: Vec<u8> = Vec::new();
        let mut i: usize = 0;
        while i < n
            invariant
                n == value@.len(),
                i <= n,
                v@ =~= i64s_be(value@.subrange(0, i as int)),
            decreases n - i,
        {
            let x = *vstd::slice::slice_index_get(value, i);
            let y = x as u64;
            v.push((y >> 56u64) as u8);
            v.push((y >> 48u64) as u8);
            v.push((y >> 40u64) as u8);
            v.push((y >> 32u64) as u8);
            v.push((y >> 24u64) as u8);
            v.push((y >> 16u64) as u8);
            v.push((y >> 8u64) as u8);
            v.push(y as u8);
            proof {
                assert(value@.subrange(0, i + 1).drop_last() =~= value@.subrange(0, i as int));
                assert(value@.subrange(0, i + 1).last() == value@[i as int]);
                assert(v@ =~= i64s_be(value@.subrange(0, i as int)) + u64_be(y));
            }
            i = i + 1;
        }
        proof {
            assert(value@.subrange(0, n as int) =~= value@);
        }
        Buffer::from_kv(key, ValueType::I64Array, v)
    }

    /// A tombstone: the record that marks `key` as logically removed.
    pub fn tombstone(key: &str) -> (r: Buffer)
        ensures
            r.spec_key() == key@,
            r@ == (RecView {
                key: encode_utf8(key@),
                typ: ValueType::Deleted,
                value: Seq::empty(),
            }),
    {
        let v: Vec<u8> = Vec::new();
        assert(v@ =~= Seq::<u8>::empty());
        Buffer::from_kv(key, ValueType::Deleted, v)
    }

    /// A record from a type tag and raw payload bytes; `DataInvalid`
    /// exactly when the payload does not have the shape the type fixes.
    pub fn from_payload(key: &str, t: ValueType, value: Vec<u8>) -> (r: Result<Buffer, Error>)
        ensures
            r is Ok <==> payload_wf(t, value@),
            r matches Ok(b) ==> b.spec_key() == key@ && b@ == (RecView {
                key: encode_utf8(key@),
                typ: t,
                value: value@,
            }),
            r is Err ==> r == Err::<Buffer, Error>(Error::DataInvalid),
    {
        if !payload_ok(t, &value) {
            return Err(Error::DataInvalid);
        }
        Ok(Buffer::from_kv(key, t, value))
    }
}

/// Whether two strings are the same, decided on their UTF-8 bytes.
pub(crate) fn str_eq(a: &str, b: &str) -> (r: bool)
    ensures
        r == (a@ == b@),
{
    let av = a.as_bytes_vec();
    let bv = b.as_bytes_vec();
    let r = bytes_eq(&av, &bv);
    proof {
        if av@ == bv@ {
            vstd::utf8::encode_utf8_decode_utf8(a@);
            vstd::utf8::encode_utf8_decode_utf8(b@);
        }
    }
    r
}

/// Whether the two length fields of a record fit the wire format; the
/// condition under which serialization succeeds.
pub open spec fn rec_wf_sizes(r: RecView) -> bool {
    1 <= r.key.len() <= u32::MAX && r.value.len() <= u32::MAX
}

/// The executable form of [`payload_wf`].
fn payload_ok(t: ValueType, p: &Vec<u8>) -> (r: bool)
    ensures
        r == payload_wf(t, p@),
{
    match t {
        ValueType::Byte => p.len() == 1,
        ValueType::ByteArray => true,
        ValueType::Str => true,
        ValueType::I32 => p.len() == 4,
        ValueType::I64 => p.len() == 8,
        ValueType::F32 => p.len() == 4,
        ValueType::F64 => p.len() == 8,
        ValueType::I32Array => p.len() % 4 == 0,
        ValueType::I64Array => p.len() % 8 == 0,
        ValueType::F32Array => p.len() % 4 == 0,
        ValueType::F64Array => p.len() % 8 == 0,
        ValueType::Deleted => p.len() == 0,
    }
}

/// Distinct value types have distinct wire tags.
proof fn lemma_tag_injective(a: ValueType, b: ValueType)
    requires
        spec_tag(a) == spec_tag(b),
    ensures
        a == b,
{
}

/// Reading the value of eight arbitrary bytes and writing it back
/// reproduces the bytes.
proof fn lemma_u64_be_bytes_inverse(s: Seq<u8>)
    requires
        s.len() == 8,
    ensures
        u64_be(u64_of_be(s[0], s[1], s[2], s[3], s[4], s[5], s[6], s[7])) =~= s,
{
    let b0 = s[0];
    let b1 = s[1];
    let b2 = s[2];
    let b3 = s[3];
    let b4 = s[4];
    let b5 = s[5];
    let b6 = s[6];
    let b7 = s[7];
    let x = u64_of_be(b0, b1, b2, b3, b4, b5, b6, b7);
    assert((x >> 56) as u8 == b0 && (x >> 48) as u8 == b1 && (x >> 40) as u8 == b2 && (x >> 32)
        as u8 == b3 && (x >> 24) as u8 == b4 && (x >> 16) as u8 == b5 && (x >> 8) as u8 == b6 && x
        as u8 == b7) by (bit_vector)
        requires
            x == ((b0 as u64) << 56) | ((b1 as u64) << 48) | ((b2 as u64) << 40) | ((b3 as u64)
                << 32) | ((b4 as u64) << 24) | ((b5 as u64) << 16) | ((b6 as u64) << 8) | (b7
                as u64),
    ;
}

} // verus!
