//! The 32-byte little-endian record that the sample file is made of.
use vstd::bytes::{
    lemma_auto_spec_u64_to_from_le_bytes, spec_u64_from_le_bytes, spec_u64_to_le_bytes,
    u64_from_le_bytes, u64_to_le_bytes,
};
use vstd::prelude::*;
use vstd::slice::slice_subrange;

verus! {

/// Size in bytes of one encoded record.
pub const RECORD_SIZE: usize = 32;

/// Statistics of the logs of one sampled block.
#[derive(Clone, Copy, Debug, PartialEq, Eq, Structural)]
pub struct Record {
    pub block: u64,
    pub log_count: u64,
    pub data_len: u64,
    pub topic_count: u64,
}

/// Why a sample file could not be read.
#[derive(Clone, Copy, Debug, PartialEq, Eq, Structural)]
pub enum DecodeError {
    /// The length is not a whole number of records.
    MalformedFile,
}

/// The encoding of a record: its four fields, eight little-endian bytes each.
pub open spec fn record_bytes(r: Record) -> Seq<u8> {
    spec_u64_to_le_bytes(r.block) + spec_u64_to_le_bytes(r.log_count) + spec_u64_to_le_bytes(
        r.data_len,
    ) + spec_u64_to_le_bytes(r.topic_count)
}

/// The record that 32 bytes encode.
pub open spec fn record_from_bytes(b: Seq<u8>) -> Record
    recommends
        b.len() == 32,
{
    Record {
        block: spec_u64_from_le_bytes(b.subrange(0, 8)),
        log_count: spec_u64_from_le_bytes(b.subrange(8, 16)),
        data_len: spec_u64_from_le_bytes(b.subrange(16, 24)),
        topic_count: spec_u64_from_le_bytes(b.subrange(24, 32)),
    }
}

/// The records of a file whose length is a multiple of 32, one per 32-byte chunk.
pub open spec fn records_from_bytes(b: Seq<u8>) -> Seq<Record> {
    Seq::new(b.len() / 32, |i: int| record_from_bytes(b.subrange(32 * i, 32 * i + 32)))
}

/// A file made by appending the encodings of `rs`, in order.
pub open spec fn file_bytes(rs: Seq<Record>) -> Seq<u8>
    decreases rs.len(),
{
    if rs.len() == 0 {
        Seq::empty()
    } else {
        file_bytes(rs.drop_last()) + record_bytes(rs.last())
    }
}

impl Record {
    /// Encodes the record as `[block, log_count, data_len, topic_count]`,
    /// each field as eight little-endian bytes.
    pub fn encode(&self) -> (r: Vec<u8>)
        ensures
            r@ == record_bytes(*self),
            r@.len() == 32,
    {
        let mut out = u64_to_le_bytes(self.block);
        let mut part = u64_to_le_bytes(self.log_count);
        out.append(&mut part);
        let mut part = u64_to_le_bytes(self.data_len);
        out.append(&mut part);
        let mut part = u64_to_le_bytes(self.topic_count);
        out.append(&mut part);
        out
    }

    /// Decodes one record from exactly 32 bytes; every such input is valid.
    pub fn decode(bytes: &[u8]) -> (r: Record)
        requires
            bytes@.len() == 32,
        ensures
            r == record_from_bytes(bytes@),
    {
        Record {
            block: u64_from_le_bytes(slice_subrange(bytes, 0, 8)),
            log_count: u64_from_le_bytes(slice_subrange(bytes, 8, 16)),
            data_len: u64_from_le_bytes(slice_subrange(bytes, 16, 24)),
            topic_count: u64_from_le_bytes(slice_subrange(bytes, 24, 32)),
        }
    }
}

/// Decodes a whole sample file. A length that is not a multiple of 32 is
/// `MalformedFile`, and nothing is decoded.
pub fn decode_records(buf: &[u8]) -> (r: Result<Vec<Record>, DecodeError>)
    ensures
        r is Err <==> buf@.len() % 32 != 0,
        r matches Err(e) ==> e == DecodeError::MalformedFile,
        r matches Ok(v) ==> v@ == records_from_bytes(buf@),
{
    if buf.len() % RECORD_SIZE != 0 {
        return Err(DecodeError::MalformedFile);
    }
    let n = buf.len() / RECORD_SIZE;
    let mut out: Vec<Record> = Vec::new();
    let mut i: usize = 0;
    while i < n
        invariant
            n == buf@.len() / 32,
            buf@.len() % 32 == 0,
            i <= n,
            out@ == records_from_bytes(buf@).subrange(0, i as int),
        decreases n - i,
    {
        let len = buf.len();
        assert(i * 32 + 32 <= len) by (nonlinear_arith)
            requires
                i < n,
                n == len / 32,
        ;
        let start = i * RECORD_SIZE;
        let rec = Record::decode(slice_subrange(buf, start, start + RECORD_SIZE));
        out.push(rec);
        i += 1;
        assert(out@ =~= records_from_bytes(buf@).subrange(0, i as int));
    }
    assert(out@ =~= records_from_bytes(buf@));
    Ok(out)
}

/// Decoding the encoding of a record gives the record back.
pub proof fn lemma_record_round_trip(r: Record)
    ensures
        record_bytes(r).len() == 32,
        record_from_bytes(record_bytes(r)) == r,
{
    lemma_auto_spec_u64_to_from_le_bytes();
    let b = record_bytes(r);
    assert(b.subrange(0, 8) =~= spec_u64_to_le_bytes(r.block));
    assert(b.subrange(8, 16) =~= spec_u64_to_le_bytes(r.log_count));
    assert(b.subrange(16, 24) =~= spec_u64_to_le_bytes(r.data_len));
    assert(b.subrange(24, 32) =~= spec_u64_to_le_bytes(r.topic_count));
}

/// Encoding the record that 32 bytes decode to gives those bytes back.
pub proof fn lemma_bytes_round_trip(b: Seq<u8>)
    requires
        b.len() == 32,
    ensures
        record_bytes(record_from_bytes(b)) == b,
{
    lemma_auto_spec_u64_to_from_le_bytes();
    let r = record_from_bytes(b);
    assert(spec_u64_to_le_bytes(spec_u64_from_le_bytes(b.subrange(0, 8))) == b.subrange(0, 8));
    assert(spec_u64_to_le_bytes(spec_u64_from_le_bytes(b.subrange(8, 16))) == b.subrange(8, 16));
    assert(spec_u64_to_le_bytes(spec_u64_from_le_bytes(b.subrange(16, 24))) == b.subrange(
        16,
        24,
    ));
    assert(spec_u64_to_le_bytes(spec_u64_from_le_bytes(b.subrange(24, 32))) == b.subrange(
        24,
        32,
    ));
    assert(record_bytes(r) =~= b);
}

/// A file of appended records decodes to exactly those records, in order.
pub proof fn lemma_file_round_trip(rs: Seq<Record>)
    ensures
        file_bytes(rs).len() == 32 * rs.len(),
        records_from_bytes(file_bytes(rs)) == rs,
    decreases rs.len(),
{
    if rs.len() > 0 {
        let prev = rs.drop_last();
        lemma_file_round_trip(prev);
        lemma_record_round_trip(rs.last());
        let f = file_bytes(rs);
        let head = file_bytes(prev);
        assert(f == head + record_bytes(rs.last()));
        let n = rs.len() as int;
        assert forall|i: int| 0 <= i < n implies record_from_bytes(
            #[trigger] f.subrange(32 * i, 32 * i + 32),
        ) == rs[i] by {
            if i < n - 1 {
                assert(f.subrange(32 * i, 32 * i + 32) =~= head.subrange(32 * i, 32 * i + 32));
                assert(records_from_bytes(head)[i] == prev[i]);
            } else {
                assert(f.subrange(32 * i, 32 * i + 32) =~= record_bytes(rs.last()));
            }
        }
        assert(records_from_bytes(f) =~= rs);
    } else {
        assert(records_from_bytes(file_bytes(rs)) =~= rs);
    }
}

} // verus!
