//! The append log: an 8-byte big-endian logical-length header followed
//! by serialized records, written contiguously into a fixed-capacity
//! byte region that doubles when exhausted. The header always equals
//! the number of live record bytes, and the region never holds less
//! than header plus data.

use vstd::prelude::*;
use vstd::utf8::valid_utf8;

use crate::buffer::{
    lemma_decode_bounds, lemma_decode_frame, lemma_round_trip_at, rec_wf, spec_decode, spec_encode,
    Buffer, RecView,
};
use crate::bytes::{
    copy_range, read_u64_be, u64_be, u64_of_be, write_bytes, write_u64_be, zero_extend,
    lemma_u64_be_round_trip,
};
use crate::Error;

verus! {

/// The capacity a log starts with when its backing bytes are new.
pub const DEFAULT_CAPACITY: usize = 128;

/// The logical length stored in a region's first eight bytes.
pub open spec fn spec_header_val(region: Seq<u8>) -> nat
    recommends
        region.len() >= 8,
{
    u64_of_be(
        region[0],
        region[1],
        region[2],
        region[3],
        region[4],
        region[5],
        region[6],
        region[7],
    ) as nat
}

/// Parses a whole byte stream as consecutive records, or nothing as
/// soon as one record fails to parse.
pub open spec fn spec_parse(d: Seq<u8>) -> Option<Seq<RecView>>
    decreases d.len(),
{
    if d.len() == 0 {
        Some(Seq::empty())
    } else {
        match spec_decode(d) {
            None => None,
            Some((r, n)) => {
                if 1 <= n <= d.len() {
                    match spec_parse(d.subrange(n, d.len() as int)) {
                        None => None,
                        Some(rs) => Some(seq![r] + rs),
                    }
                } else {
                    None
                }
            },
        }
    }
}

/// The serialized size of a sequence of records.
pub open spec fn total_len(rs: Seq<RecView>) -> nat
    decreases rs.len(),
{
    if rs.len() == 0 {
        0
    } else {
        spec_encode(rs[0]).len() + total_len(rs.drop_first())
    }
}

/// Serialized size distributes over appending one record.
pub proof fn lemma_total_len_push(rs: Seq<RecView>, r: RecView)
    ensures
        total_len(rs.push(r)) == total_len(rs) + spec_encode(r).len(),
    decreases rs.len(),
{
    if rs.len() == 0 {
        assert(rs.push(r)[0] == r);
        assert(rs.push(r).drop_first() =~= Seq::<RecView>::empty());
        assert(total_len(Seq::<RecView>::empty()) == 0);
        assert(total_len(rs.push(r)) == spec_encode(rs.push(r)[0]).len() + total_len(
            rs.push(r).drop_first(),
        ));
    } else {
        assert(rs.push(r)[0] == rs[0]);
        assert(rs.push(r).drop_first() =~= rs.drop_first().push(r));
        lemma_total_len_push(rs.drop_first(), r);
        assert(total_len(rs.push(r)) == spec_encode(rs.push(r)[0]).len() + total_len(
            rs.push(r).drop_first(),
        ));
        assert(total_len(rs) == spec_encode(rs[0]).len() + total_len(rs.drop_first()));
    }
}

/// The header invariant in its stream form: a stream that parses is
/// exactly as long as the serialized sizes of its records added up.
pub proof fn lemma_parse_total_len(d: Seq<u8>)
    requires
        spec_parse(d) is Some,
    ensures
        total_len(spec_parse(d)->Some_0) == d.len(),
    decreases d.len(),
{
    if d.len() != 0 {
        let (r0, n0) = spec_decode(d)->Some_0;
        lemma_decode_bounds(d);
        let rest = d.subrange(n0, d.len() as int);
        lemma_parse_total_len(rest);
        let rs = spec_parse(d)->Some_0;
        assert(rs.drop_first() =~= spec_parse(rest)->Some_0);
        assert(rs[0] == r0);
    }
}

/// A buffer holding exactly one well-formed serialized record parses
/// as that one record.
proof fn lemma_parse_single(r: RecView)
    requires
        rec_wf(r),
        valid_utf8(r.key),
    ensures
        spec_parse(spec_encode(r)) == Some(seq![r]),
{
    let e = spec_encode(r);
    lemma_round_trip_at(r, Seq::empty());
    assert(e + Seq::<u8>::empty() =~= e);
    assert(spec_decode(e) == Some((r, e.len() as int)));
    lemma_decode_bounds(e);
    assert(e.subrange(e.len() as int, e.len() as int) =~= Seq::<u8>::empty());
    assert(spec_parse(Seq::<u8>::empty()) == Some(Seq::<RecView>::empty()));
    assert(spec_parse(e) == Some(seq![r] + Seq::<RecView>::empty()));
    assert(seq![r] + Seq::<RecView>::empty() =~= seq![r]);
}

/// Appending one well-formed serialized record to a stream that parses
/// extends the parse by exactly that record.
pub proof fn lemma_parse_snoc(d: Seq<u8>, r: RecView)
    requires
        spec_parse(d) is Some,
        rec_wf(r),
        valid_utf8(r.key),
    ensures
        spec_parse(d + spec_encode(r)) == Some(spec_parse(d)->Some_0.push(r)),
    decreases d.len(),
{
    let e = spec_encode(r);
    if d.len() == 0 {
        assert(d + e =~= e);
        lemma_parse_single(r);
        assert(spec_parse(d)->Some_0.push(r) =~= seq![r]);
    } else {
        let (r0, n0) = spec_decode(d)->Some_0;
        lemma_decode_bounds(d);
        lemma_decode_frame(d, e);
        let rest = d.subrange(n0, d.len() as int);
        lemma_parse_snoc(rest, r);
        assert((d + e).subrange(n0, (d + e).len() as int) =~= rest + e);
        let tail = spec_parse(rest)->Some_0;
        assert(spec_parse(d + e) == Some(seq![r0] + tail.push(r)));
        assert(seq![r0] + tail.push(r) =~= (seq![r0] + tail).push(r));
    }
}

/// The spec-level content of a sequence of decoded records.
pub open spec fn recs_of(v: Seq<Buffer>) -> Seq<RecView> {
    Seq::new(v.len(), |i: int| v[i]@)
}

/// The append log over its byte region.
#[derive(Debug)]
pub struct AppendLog {
    region: Vec<u8>,
}

impl AppendLog {
    /// The raw bytes of the mapped region, header and slack included.
    pub closed spec fn region_view(self) -> Seq<u8> {
        self.region@
    }

    /// The region's capacity in bytes.
    pub open spec fn capacity(self) -> nat {
        self.region_view().len()
    }

    /// The logical length: bytes of live record data, excluding the
    /// header.
    pub open spec fn header(self) -> nat {
        spec_header_val(self.region_view())
    }

    /// The region is at least header-sized and its capacity covers the
    /// header plus all live data.
    pub open spec fn wf(self) -> bool {
        8 <= self.capacity() && 8 + self.header() <= self.capacity()
    }

    /// The live record bytes.
    pub open spec fn data(self) -> Seq<u8> {
        self.region_view().subrange(8, 8 + self.header() as int)
    }

    /// The records the log holds, when every one of them parses.
    pub open spec fn records(self) -> Option<Seq<RecView>> {
        spec_parse(self.data())
    }

    /// The pre-allocated slack beyond the live data is zero-filled: it
    /// is reserved space, never logically part of the log.
    pub open spec fn slack_zeroed(self) -> bool {
        forall|i: int|
            8 + self.header() <= i < self.capacity() ==> self.region_view()[i] == 0u8
    }

    /// A fresh, empty log over a zero-filled region of at least
    /// `capacity` bytes.
    pub fn create(capacity: usize) -> (r: AppendLog)
        ensures
            r.wf(),
            r.header() == 0,
            r.data() =~= Seq::<u8>::empty(),
            r.capacity() == (if capacity < 8 {
                8
            } else {
                capacity as nat
            }),
            r.slack_zeroed(),
    {
        let mut region: Vec<u8> = Vec::new();
        let cap = if capacity < 8 {
            8
        } else {
            capacity
        };
        zero_extend(&mut region, cap);
        proof {
            assert(u64_of_be(0u8, 0u8, 0u8, 0u8, 0u8, 0u8, 0u8, 0u8) == 0) by (bit_vector);
        }
        let log = AppendLog { region };
        assert(log.data() =~= Seq::<u8>::empty());
        log
    }

    /// Opens a log over the bytes read from a backing file. Fewer than
    /// eight bytes mean a new file: a fresh zeroed region. Otherwise
    /// the header is recovered and checked against the capacity;
    /// `DecodeFailed` exactly when it claims more bytes than there are.
    pub fn open(region: Vec<u8>) -> (r: Result<AppendLog, Error>)
        ensures
            r matches Ok(l) ==> l.wf(),
            region@.len() < 8 ==> (r matches Ok(l) && l.header() == 0 && l.data()
                =~= Seq::<u8>::empty() && l.capacity() == DEFAULT_CAPACITY && l.slack_zeroed()),
            region@.len() >= 8 && 8 + spec_header_val(region@) <= region@.len() ==> (r matches Ok(l)
                && l.region_view() == region@),
            region@.len() >= 8 && 8 + spec_header_val(region@) > region@.len() ==> r matches Err(
                Error::DecodeFailed(_),
            ),
    {
        if region.len() < 8 {
            return Ok(AppendLog::create(DEFAULT_CAPACITY));
        }
        let h = read_u64_be(&region, 0);
        let len = region.len();
        if h > (len - 8) as u64 {
            return Err(Error::DecodeFailed(String::from_str("header exceeds capacity")));
        }
        Ok(AppendLog { region })
    }

    /// The logical length as a machine word.
    pub fn header_len(&self) -> (r: usize)
        requires
            self.wf(),
        ensures
            r == self.header(),
    {
        let cap = self.region.len();
        let h = read_u64_be(&self.region, 0);
        assert(h as nat == self.header());
        assert(h as nat <= cap);
        h as usize
    }

    /// The region's capacity as a machine word.
    pub fn capacity_len(&self) -> (r: usize)
        ensures
            r == self.capacity(),
    {
        self.region.len()
    }

    /// The raw region bytes, for a caller that mirrors them to a
    /// backing store.
    pub fn region_bytes(&self) -> (r: &Vec<u8>)
        ensures
            r@ == self.region_view(),
    {
        &self.region
    }

    /// Appends one serialized record: grows the region (doubling, or to
    /// whatever the write needs) when capacity is exhausted, writes the
    /// bytes after the current data, then updates the header. Returns
    /// the starting offset of the record inside the region. Fails with
    /// `IOError`, leaving the log unchanged, exactly when the new end
    /// would not fit an address; growth never loses a byte already
    /// written.
    pub fn append(&mut self, rec: &Vec<u8>) -> (r: Result<usize, Error>)
        requires
            old(self).wf(),
        ensures
            final(self).wf(),
            r matches Ok(off) ==> ({
                &&& off == 8 + old(self).header()
                &&& final(self).header() == old(self).header() + rec@.len()
                &&& final(self).data() =~= old(self).data() + rec@
                &&& final(self).data().subrange(0, old(self).data().len() as int) =~= old(
                    self,
                ).data()
                &&& final(self).capacity() >= old(self).capacity()
            }),
            r is Ok && 8 + old(self).header() + rec@.len() > old(self).capacity() ==> ({
                &&& final(self).capacity() >= 8 + old(self).header() + rec@.len()
                &&& (final(self).capacity() >= 2 * old(self).capacity() || 2 * old(
                    self,
                ).capacity() > usize::MAX)
            }),
            old(self).slack_zeroed() ==> final(self).slack_zeroed(),
            r is Err ==> *final(self) == *old(self) && (r matches Err(Error::IOError(_))),
            r is Ok <==> 8 + old(self).header() + rec@.len() <= usize::MAX,
    {
        let cap = self.region.len();
        let h = self.header_len();
        assert(8 + h <= cap);
        let start = 8 + h;
        if rec.len() > usize::MAX - start {
            return Err(Error::IOError(String::from_str("log would exceed the address space")));
        }
        let end = start + rec.len();
        let ghost old_region = self.region@;
        if end > self.region.len() {
            let old_cap = self.region.len();
            let new_cap = if old_cap > usize::MAX / 2 {
                end
            } else if old_cap * 2 >= end {
                old_cap * 2
            } else {
                end
            };
            zero_extend(&mut self.region, new_cap);
            proof {
                assert(self.region@.subrange(0, 8) =~= old_region.subrange(0, 8));
                assert(self.header() == old(self).header());
                assert(self.region@.subrange(8, 8 + self.header() as int) =~= old_region.subrange(
                    8,
                    8 + old(self).header() as int,
                ));
                assert(old_cap > usize::MAX / 2 ==> 2 * old_cap > usize::MAX);
                assert(self.region@.len() >= 2 * old_cap || 2 * old_cap > usize::MAX);
            }
        }
        assert(self.header() == old(self).header());
        assert(self.data() =~= old(self).data());
        assert(end <= self.region@.len());
        assert(end > old_region.len() ==> self.region@.len() >= 2 * old_region.len() || 2
            * old_region.len() > usize::MAX);
        let ghost grown = self.region@;
        assert(forall|i: int|
            0 <= i < old_region.len() ==> grown[i] == old_region[i]) by {
            assert(grown.subrange(0, old_region.len() as int) =~= old_region || grown
                == old_region);
            assert(forall|i: int|
                0 <= i < old_region.len() ==> grown.subrange(0, old_region.len() as int)[i]
                    == grown[i]);
        }
        assert(forall|i: int| old_region.len() <= i < grown.len() ==> grown[i] == 0u8);
        write_bytes(&mut self.region, start, rec);
        proof {
            assert(self.region@.subrange(0, 8) =~= grown.subrange(0, 8));
            assert(self.header() == old(self).header());
        }
        let ghost written = self.region@;
        write_u64_be(&mut self.region, 0, (end - 8) as u64);
        proof {
            lemma_u64_be_round_trip((end - 8) as u64);
            assert(self.region@.subrange(0, 8) =~= u64_be((end - 8) as u64));
            assert(self.header() == end - 8);
            assert(self.region@.subrange(8, self.region@.len() as int) =~= written.subrange(
                8,
                written.len() as int,
            ));
            assert(self.data() =~= old(self).data() + rec@);
            if old(self).slack_zeroed() {
                assert forall|i: int|
                    8 + self.header() <= i < self.capacity() implies self.region_view()[i]
                    == 0u8 by {
                    assert(self.region@[i] == self.region@.subrange(
                        8,
                        self.region@.len() as int,
                    )[i - 8]);
                    assert(self.region@[i] == written[i]);
                    assert(written[i] == grown.subrange(end as int, grown.len() as int)[i - end]);
                    assert(written[i] == grown[i]);
                    if i < old_region.len() {
                        assert(old_region[i] == 0u8);
                    }
                }
            }
        }
        Ok(start)
    }

    /// Replays the log: decodes every record from the start of the data
    /// range. `DecodeFailed` exactly when some record is malformed.
    pub fn scan(&self) -> (r: Result<Vec<Buffer>, Error>)
        requires
            self.wf(),
        ensures
            r is Ok <==> self.records() is Some,
            r matches Ok(v) ==> ({
                &&& self.records() == Some(recs_of(v@))
                &&& forall|i: int| 0 <= i < v@.len() ==> (#[trigger] v@[i]).wf()
            }),
            r is Err ==> r matches Err(Error::DecodeFailed(_)),
    {
        let cap = self.region.len();
        let h = self.header_len();
        assert(8 + h <= cap);
        let data = copy_range(&self.region, 8, 8 + h);
        assert(data@ == self.data());
        let dlen = data.len();
        let mut out: Vec<Buffer> = Vec::new();
        let mut cursor: usize = 0;
        proof {
            assert(data@.skip(0) =~= data@);
            if spec_parse(data@) is Some {
                assert(recs_of(out@) + spec_parse(data@)->Some_0 =~= spec_parse(data@)->Some_0);
            }
        }
        while cursor < dlen
            invariant
                dlen == data@.len(),
                cursor <= dlen,
                data@ == self.data(),
                forall|i: int| 0 <= i < out@.len() ==> (#[trigger] out@[i]).wf(),
                spec_parse(data@.skip(cursor as int)) matches Some(rest) ==> spec_parse(data@)
                    == Some(recs_of(out@) + rest),
                spec_parse(data@.skip(cursor as int)) is None ==> spec_parse(data@) is None,
            decreases dlen - cursor,
        {
            let ghost tail = data@.skip(cursor as int);
            match Buffer::decode(&data, cursor) {
                Err(_) => {
                    assert(spec_decode(tail) is None);
                    assert(spec_parse(tail) is None);
                    return Err(Error::DecodeFailed(String::from_str("malformed record stream")));
                },
                Ok((b, n)) => {
                    proof {
                        assert(spec_decode(tail) == Some((b@, n as int)));
                        assert(tail.subrange(n as int, tail.len() as int) =~= data@.skip(
                            cursor + n,
                        ));
                        assert(recs_of(out@.push(b)) =~= recs_of(out@).push(b@));
                        if spec_parse(data@.skip(cursor + n)) is Some {
                            let rest2 = spec_parse(data@.skip(cursor + n))->Some_0;
                            assert(spec_parse(tail) == Some(seq![b@] + rest2));
                            assert(recs_of(out@) + (seq![b@] + rest2) =~= (recs_of(out@).push(b@))
                                + rest2);
                        } else {
                            assert(spec_parse(tail) is None);
                        }
                    }
                    out.push(b);
                    cursor = cursor + n;
                },
            }
        }
        proof {
            assert(data@.skip(cursor as int) =~= Seq::<u8>::empty());
            assert(spec_parse(data@.skip(cursor as int)) == Some(Seq::<RecView>::empty()));
            assert(recs_of(out@) + Seq::<RecView>::empty() =~= recs_of(out@));
        }
        Ok(out)
    }
}

/// The header invariant: after any sequence of successful appends the
/// header value equals the added-up serialized lengths of the records
/// the log holds.
pub proof fn lemma_header_is_total_len(l: AppendLog)
    requires
        l.wf(),
        l.records() is Some,
    ensures
        l.header() == total_len(l.records()->Some_0),
{
    lemma_parse_total_len(l.data());
}

} // verus!
