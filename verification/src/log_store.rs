//! The on-disk form of a partition log: each record as its offset (`u64`), its
//! payload length (`u16`) and its payload, appended one after another.

use crate::error::DmqError;
use crate::partition_log::{PartitionLog, PartitionLogView, Record, RecordView};
use crate::wire::{be16, be64, copy_range, get_u16, lemma_u16_window, put_bytes, put_u16, put_u64, u16_at};
use vstd::prelude::*;

verus! {

/// The stored form of a record.
pub open spec fn stored_record(r: RecordView) -> Seq<u8> {
    be64(r.offset) + be16(r.payload.len() as u16) + r.payload
}

/// Encodes a record for the log file; a payload longer than `u16::MAX` bytes
/// does not fit and is refused.
pub fn encode_log_record(record: &Record) -> (r: Result<Vec<u8>, DmqError>)
    ensures
        match r {
            Ok(b) => record.payload@.len() <= u16::MAX && b@ == stored_record(record@),
            Err(e) => record.payload@.len() > u16::MAX && e == DmqError::PayloadTooLarge {
                len: record.payload@.len() as u64,
                max: u16::MAX as u64,
            },
        },
{
    if record.payload.len() > 65535 {
        return Err(DmqError::PayloadTooLarge { len: record.payload.len() as u64, max: 65535 });
    }
    let mut out: Vec<u8> = Vec::new();
    put_u64(&mut out, record.offset);
    put_u16(&mut out, record.payload.len() as u16);
    put_bytes(&mut out, record.payload.as_slice());
    assert(out@ =~= stored_record(record@));
    Ok(out)
}

/// The payloads stored in a log file from position `o`: reading stops where
/// fewer than eight bytes (an offset) remain; a record cut short after its
/// offset is refused.
pub open spec fn stored_payloads(b: Seq<u8>, o: int) -> Result<Seq<Seq<u8>>, DmqError>
    decreases b.len() - o,
{
    if o < 0 || o + 8 > b.len() {
        Ok(Seq::empty())
    } else if o + 10 > b.len() {
        Err(DmqError::ShortBuffer)
    } else {
        let n = u16_at(b, o + 8) as int;
        if o + 10 + n > b.len() {
            Err(DmqError::ShortBuffer)
        } else {
            match stored_payloads(b, o + 10 + n) {
                Ok(rest) => Ok(seq![b.subrange(o + 10, o + 10 + n)] + rest),
                Err(e) => Err(e),
            }
        }
    }
}

/// A log after appending each of `ps` in order.
pub open spec fn appended_payloads(log: PartitionLogView, ps: Seq<Seq<u8>>) -> PartitionLogView
    decreases ps.len(),
{
    if ps.len() == 0 {
        log
    } else {
        appended_payloads(log.appended(ps[0]), ps.drop_first())
    }
}

/// The empty log a partition starts as.
pub open spec fn empty_log(max_records: Option<usize>) -> PartitionLogView {
    PartitionLogView { base_offset: 0, next_offset: 0, records: Seq::empty(), max_records }
}

/// Rebuilds a partition log from its file: every stored payload is appended in
/// order to an empty log with the given retention.
pub fn decode_log_data(bytes: &[u8], max_records: Option<usize>) -> (r: Result<PartitionLog, DmqError>)
    ensures
        match r {
            Ok(log) => log@.wf() && (stored_payloads(bytes@, 0) matches Ok(ps) && log@ == appended_payloads(
                empty_log(max_records),
                ps,
            )),
            Err(e) => stored_payloads(bytes@, 0) == Err::<Seq<Seq<u8>>, DmqError>(e),
        },
{
    let mut log = match max_records {
        Some(n) => PartitionLog::with_max_records(n),
        None => PartitionLog::new(),
    };
    let ghost start = log@;
    let mut o: usize = 0;
    let ghost done: Seq<Seq<u8>> = Seq::empty();
    assert(start == empty_log(max_records));
    while bytes.len() - o >= 8
        invariant
            o <= bytes@.len(),
            log@.wf(),
            log@.next_offset <= o,
            stored_payloads(bytes@, 0) == match stored_payloads(bytes@, o as int) {
                Ok(rest) => Ok::<Seq<Seq<u8>>, DmqError>(done + rest),
                Err(e) => Err(e),
            },
            appended_payloads(empty_log(max_records), done) == log@,
            start == empty_log(max_records),
        decreases bytes@.len() - o,
    {
        if bytes.len() - o < 10 {
            return Err(DmqError::ShortBuffer);
        }
        let n = get_u16(bytes, o + 8) as usize;
        if n > bytes.len() - o - 10 {
            return Err(DmqError::ShortBuffer);
        }
        let payload = copy_range(bytes, o + 10, o + 10 + n);
        proof {
            lemma_appended_payloads_push(empty_log(max_records), done, payload@);
        }
        log.append(payload.as_slice());
        proof {
            let p = payload@;
            let next = (o + 10 + n) as int;
            match stored_payloads(bytes@, next) {
                Ok(rest) => {
                    assert(seq![p] + rest == seq![p] + rest);
                    assert(done + (seq![p] + rest) =~= done.push(p) + rest);
                },
                Err(_) => {},
            }
            done = done.push(p);
        }
        o = o + 10 + n;
    }
    proof {
        assert(done + Seq::<Seq<u8>>::empty() =~= done);
    }
    Ok(log)
}

proof fn lemma_appended_payloads_push(log: PartitionLogView, ps: Seq<Seq<u8>>, p: Seq<u8>)
    ensures
        appended_payloads(log, ps.push(p)) == appended_payloads(log, ps).appended(p),
    decreases ps.len(),
{
    if ps.len() == 0 {
        assert(ps.push(p).drop_first() =~= Seq::<Seq<u8>>::empty());
        assert(ps.push(p)[0] == p);
        assert(appended_payloads(log.appended(p), Seq::<Seq<u8>>::empty()) == log.appended(p));
        assert(appended_payloads(log, ps.push(p)) == appended_payloads(log.appended(p), ps.push(p).drop_first()));
    } else {
        assert(ps.push(p).drop_first() =~= ps.drop_first().push(p));
        assert(ps.push(p)[0] == ps[0]);
        lemma_appended_payloads_push(log.appended(ps[0]), ps.drop_first(), p);
        assert(appended_payloads(log, ps.push(p)) == appended_payloads(log.appended(ps[0]), ps.push(p).drop_first()));
    }
}

/// A log file holding `rs`, each record stored after the one before.
pub open spec fn log_file(rs: Seq<RecordView>) -> Seq<u8>
    decreases rs.len(),
{
    if rs.len() == 0 {
        Seq::empty()
    } else {
        stored_record(rs[0]) + log_file(rs.drop_first())
    }
}

/// The payloads of `rs`, in order.
pub open spec fn payloads_of(rs: Seq<RecordView>) -> Seq<Seq<u8>> {
    rs.map_values(|r: RecordView| r.payload)
}

proof fn lemma_log_file_after(pre: Seq<u8>, rs: Seq<RecordView>)
    requires
        forall|i: int| 0 <= i < rs.len() ==> #[trigger] rs[i].payload.len() <= u16::MAX,
    ensures
        stored_payloads(pre + log_file(rs), pre.len() as int) == Ok::<Seq<Seq<u8>>, DmqError>(payloads_of(rs)),
    decreases rs.len(),
{
    let b = pre + log_file(rs);
    let o = pre.len() as int;
    if rs.len() == 0 {
        assert(b =~= pre);
        assert(payloads_of(rs) =~= Seq::<Seq<u8>>::empty());
    } else {
        let r = rs[0];
        let rest = rs.drop_first();
        let n = r.payload.len();
        assert(rs[0].payload.len() <= u16::MAX);
        let e = stored_record(r);
        assert(b =~= pre + e + log_file(rest));
        assert(b.subrange(o + 8, o + 10) =~= be16(n as u16));
        lemma_u16_window(b, o + 8, n as u16);
        assert(b.subrange(o + 10, o + 10 + n) =~= r.payload);
        assert forall|i: int| 0 <= i < rest.len() implies #[trigger] rest[i].payload.len() <= u16::MAX by {
            assert(rest[i] == rs[i + 1]);
        }
        lemma_log_file_after(pre + e, rest);
        assert((pre + e).len() == o + 10 + n);
        assert(pre + e + log_file(rest) =~= b);
        assert(payloads_of(rs) =~= seq![r.payload] + payloads_of(rest));
    }
}

/// A log file written record by record reads back as the payloads written, in
/// order, provided each payload fits its `u16` length.
pub proof fn lemma_log_file_roundtrip(rs: Seq<RecordView>)
    requires
        forall|i: int| 0 <= i < rs.len() ==> #[trigger] rs[i].payload.len() <= u16::MAX,
    ensures
        stored_payloads(log_file(rs), 0) == Ok::<Seq<Seq<u8>>, DmqError>(payloads_of(rs)),
{
    lemma_log_file_after(Seq::empty(), rs);
    assert(Seq::<u8>::empty() + log_file(rs) =~= log_file(rs));
}

} // verus!
