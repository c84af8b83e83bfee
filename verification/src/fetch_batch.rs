//! Encoding of fetch responses (record batches):
//!
//! ```text
//! [count:u16]
//!   repeated count times:
//!     [offset:u64][len:u16][bytes...]
//! ```
//!
//! Offsets travel with the records so consumers can commit the next offset
//! precisely.

use crate::cluster::lemma_window_split;
use crate::error::DmqError;
use crate::partition_log::{records_view, Record, RecordView};
use crate::wire::{
    be16, be64, copy_range, get_u16, get_u64, lemma_u16_window, lemma_u64_window, put_bytes, put_u16, put_u64, u16_at,
    u64_at,
};
use vstd::prelude::*;

verus! {

/// `n`, capped at `u16::MAX`.
pub open spec fn cap16(n: nat) -> nat {
    if n > u16::MAX {
        u16::MAX as nat
    } else {
        n
    }
}

/// A record as a batch carries it: its payload cut to at most `u16::MAX` bytes.
pub open spec fn clipped(r: RecordView) -> RecordView {
    RecordView { offset: r.offset, payload: r.payload.take(cap16(r.payload.len()) as int) }
}

/// What a batch carries of `rs`: at most `u16::MAX` records, each clipped.
pub open spec fn batch_contents(rs: Seq<RecordView>) -> Seq<RecordView> {
    rs.take(cap16(rs.len()) as int).map_values(|r: RecordView| clipped(r))
}

pub open spec fn record_bytes(r: RecordView) -> Seq<u8> {
    be64(r.offset) + be16(r.payload.len() as u16) + r.payload
}

pub open spec fn records_bytes(rs: Seq<RecordView>) -> Seq<u8>
    decreases rs.len(),
{
    if rs.len() == 0 {
        Seq::empty()
    } else {
        records_bytes(rs.drop_last()) + record_bytes(rs.last())
    }
}

/// The encoding of a batch of `rs`.
pub open spec fn batch_bytes(rs: Seq<RecordView>) -> Seq<u8> {
    be16(cap16(rs.len()) as u16) + records_bytes(batch_contents(rs))
}

/// Reads `n` records one after the other from `o`.
pub open spec fn parse_records(p: Seq<u8>, o: int, n: nat) -> Result<(Seq<RecordView>, int), DmqError>
    decreases n,
{
    if n == 0 {
        Ok((Seq::empty(), o))
    } else {
        match parse_records(p, o, (n - 1) as nat) {
            Ok((rs, o1)) => if o1 + 10 > p.len() {
                Err(DmqError::TruncatedRecordHeader)
            } else {
                let len = u16_at(p, o1 + 8) as int;
                if o1 + 10 + len > p.len() {
                    Err(DmqError::TruncatedRecordPayload)
                } else {
                    Ok((rs.push(RecordView { offset: u64_at(p, o1), payload: p.subrange(o1 + 10, o1 + 10 + len) }), o1 + 10 + len))
                }
            },
            Err(e) => Err(e),
        }
    }
}

/// What `decode_records` makes of `p`; bytes after the last record are ignored.
pub open spec fn spec_decode_records(p: Seq<u8>) -> Result<Seq<RecordView>, DmqError> {
    if p.len() < 2 {
        Err(DmqError::BatchTooShort)
    } else {
        match parse_records(p, 2, u16_at(p, 0) as nat) {
            Ok((rs, _)) => Ok(rs),
            Err(e) => Err(e),
        }
    }
}

/// Encodes up to `u16::MAX` records, each payload cut to at most `u16::MAX` bytes.
pub fn encode_records(records: &[Record]) -> (out: Vec<u8>)
    ensures
        out@ == batch_bytes(records_view(records@)),
{
    let ghost rs = records_view(records@);
    let count: u16 = if records.len() > 65535 {
        65535
    } else {
        records.len() as u16
    };
    let ghost contents = batch_contents(rs);
    let mut out: Vec<u8> = Vec::new();
    put_u16(&mut out, count);
    let ghost head = out@;
    let mut i: usize = 0;
    assert(records_bytes(contents.take(0)) =~= Seq::<u8>::empty()) by {
        assert(contents.take(0) =~= Seq::<RecordView>::empty());
    }
    while i < count as usize
        invariant
            rs == records_view(records@),
            contents == batch_contents(rs),
            count == cap16(rs.len()),
            contents.len() == count,
            i <= count,
            out@ == head + records_bytes(contents.take(i as int)),
        decreases count - i,
    {
        let rec = &records[i];
        let len: usize = if rec.payload.len() > 65535 {
            65535
        } else {
            rec.payload.len()
        };
        put_u64(&mut out, rec.offset);
        put_u16(&mut out, len as u16);
        let part = copy_range(rec.payload.as_slice(), 0, len);
        put_bytes(&mut out, part.as_slice());
        proof {
            assert(contents[i as int] == clipped(rs[i as int]));
            assert(rs[i as int] == rec@);
            assert(contents.take(i + 1).drop_last() =~= contents.take(i as int));
            assert(contents.take(i + 1).last() == contents[i as int]);
            assert(part@ =~= contents[i as int].payload);
        }
        i = i + 1;
        assert(out@ =~= head + records_bytes(contents.take(i as int)));
    }
    assert(contents.take(i as int) =~= contents);
    out
}

/// Decodes a batch (see `spec_decode_records`).
pub fn decode_records(bytes: &[u8]) -> (r: Result<Vec<Record>, DmqError>)
    ensures
        match r {
            Ok(rs) => spec_decode_records(bytes@) == Ok::<Seq<RecordView>, DmqError>(records_view(rs@)),
            Err(e) => spec_decode_records(bytes@) == Err::<Seq<RecordView>, DmqError>(e),
        },
{
    let ghost p = bytes@;
    if bytes.len() < 2 {
        return Err(DmqError::BatchTooShort);
    }
    let count = get_u16(bytes, 0) as usize;
    let mut idx: usize = 2;
    let mut out: Vec<Record> = Vec::new();
    let mut i: usize = 0;
    assert(records_view(out@) =~= Seq::<RecordView>::empty());
    while i < count
        invariant
            p == bytes@,
            p.len() >= 2,
            count == u16_at(p, 0),
            i <= count,
            idx <= p.len(),
            parse_records(p, 2, i as nat) == Ok::<(Seq<RecordView>, int), DmqError>((records_view(out@), idx as int)),
        decreases count - i,
    {
        if bytes.len() - idx < 10 {
            proof {
                lemma_records_stuck(p, 2, (i + 1) as nat, count as nat);
            }
            return Err(DmqError::TruncatedRecordHeader);
        }
        let offset = get_u64(bytes, idx);
        let len = get_u16(bytes, idx + 8) as usize;
        if bytes.len() - idx - 10 < len {
            proof {
                lemma_records_stuck(p, 2, (i + 1) as nat, count as nat);
            }
            return Err(DmqError::TruncatedRecordPayload);
        }
        let payload = copy_range(bytes, idx + 10, idx + 10 + len);
        let ghost before = out@;
        let rec = Record { offset, payload };
        out.push(rec);
        assert(records_view(out@) =~= records_view(before).push(rec@));
        idx = idx + 10 + len;
        i = i + 1;
    }
    Ok(out)
}

/// A batch reader that stopped with an error stays stopped as more records are asked for.
pub proof fn lemma_records_stuck(p: Seq<u8>, o: int, i: nat, n: nat)
    requires
        i <= n,
        parse_records(p, o, i) is Err,
    ensures
        parse_records(p, o, n) == parse_records(p, o, i),
    decreases n - i,
{
    if i < n {
        lemma_records_stuck(p, o, i, (n - 1) as nat);
    }
}

proof fn lemma_parse_records(p: Seq<u8>, o: int, rs: Seq<RecordView>)
    requires
        0 <= o,
        o + records_bytes(rs).len() <= p.len(),
        p.subrange(o, o + records_bytes(rs).len()) == records_bytes(rs),
        forall|i: int| 0 <= i < rs.len() ==> #[trigger] rs[i].payload.len() <= u16::MAX,
    ensures
        parse_records(p, o, rs.len()) == Ok::<(Seq<RecordView>, int), DmqError>((rs, o + records_bytes(rs).len())),
    decreases rs.len(),
{
    if rs.len() > 0 {
        let init = rs.drop_last();
        let last = rs.last();
        lemma_window_split(p, o, records_bytes(init), record_bytes(last));
        assert forall|i: int| 0 <= i < init.len() implies #[trigger] init[i].payload.len() <= u16::MAX by {
            assert(init[i] == rs[i]);
        }
        lemma_parse_records(p, o, init);
        let o1 = o + records_bytes(init).len();
        let n = last.payload.len();
        assert(rs[rs.len() - 1].payload.len() <= u16::MAX);
        lemma_window_split(p, o1, be64(last.offset) + be16(n as u16), last.payload);
        lemma_window_split(p, o1, be64(last.offset), be16(n as u16));
        lemma_u64_window(p, o1, last.offset);
        lemma_u16_window(p, o1 + 8, n as u16);
        assert(init.push(last) =~= rs);
    } else {
        assert(rs =~= Seq::<RecordView>::empty());
    }
}

/// Decoding the encoding of a batch gives back what the batch carries: the
/// records themselves when there are at most `u16::MAX` of them and no payload is
/// longer than `u16::MAX` bytes.
pub proof fn lemma_batch_roundtrip(rs: Seq<RecordView>)
    ensures
        spec_decode_records(batch_bytes(rs)) == Ok::<Seq<RecordView>, DmqError>(batch_contents(rs)),
        rs.len() <= u16::MAX && (forall|i: int| 0 <= i < rs.len() ==> #[trigger] rs[i].payload.len() <= u16::MAX)
            ==> batch_contents(rs) == rs,
{
    let c = batch_contents(rs);
    let p = batch_bytes(rs);
    assert forall|i: int| 0 <= i < c.len() implies #[trigger] c[i].payload.len() <= u16::MAX by {
        assert(c[i] == clipped(rs[i]));
    }
    assert(p.subrange(0, p.len() as int) =~= p);
    lemma_window_split(p, 0, be16(cap16(rs.len()) as u16), records_bytes(c));
    lemma_u16_window(p, 0, cap16(rs.len()) as u16);
    assert(p.subrange(2, 2 + records_bytes(c).len() as int) == records_bytes(c));
    lemma_parse_records(p, 2, c);
    if rs.len() <= u16::MAX && (forall|i: int| 0 <= i < rs.len() ==> #[trigger] rs[i].payload.len() <= u16::MAX) {
        assert forall|i: int| 0 <= i < rs.len() implies #[trigger] c[i] == rs[i] by {
            assert(rs[i].payload.len() <= u16::MAX);
            assert(rs[i].payload.take(rs[i].payload.len() as int) =~= rs[i].payload);
        }
        assert(c =~= rs);
    }
}

} // verus!
