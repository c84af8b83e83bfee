//! Append-only partition log with offset-based fetch.
//!
//! Appends return increasing offsets, fetches read from an offset without
//! removing anything, and retention may evict the oldest records while the base
//! offset keeps pointing at the first record still held.

use crate::wire::to_vec;
use vstd::prelude::*;

verus! {

#[derive(Debug, Clone, PartialEq, Eq)]
pub struct Record {
    pub offset: u64,
    pub payload: Vec<u8>,
}

pub struct RecordView {
    pub offset: u64,
    pub payload: Seq<u8>,
}

impl View for Record {
    type V = RecordView;

    open spec fn view(&self) -> RecordView {
        RecordView { offset: self.offset, payload: self.payload@ }
    }
}

pub open spec fn records_view(rs: Seq<Record>) -> Seq<RecordView> {
    rs.map_values(|r: Record| r@)
}

#[derive(Debug, Clone)]
pub struct FetchResult {
    pub base_offset: u64,
    pub next_offset: u64,
    pub records: Vec<Record>,
}

pub struct FetchResultView {
    pub base_offset: u64,
    pub next_offset: u64,
    pub records: Seq<RecordView>,
}

impl View for FetchResult {
    type V = FetchResultView;

    open spec fn view(&self) -> FetchResultView {
        FetchResultView {
            base_offset: self.base_offset,
            next_offset: self.next_offset,
            records: records_view(self.records@),
        }
    }
}

#[derive(Debug, Clone)]
pub struct PartitionLog {
    base_offset: u64,
    next_offset: u64,
    records: Vec<Record>,
    max_records: Option<usize>,
}

pub struct PartitionLogView {
    pub base_offset: u64,
    pub next_offset: u64,
    pub records: Seq<RecordView>,
    pub max_records: Option<usize>,
}

impl View for PartitionLog {
    type V = PartitionLogView;

    closed spec fn view(&self) -> PartitionLogView {
        PartitionLogView {
            base_offset: self.base_offset,
            next_offset: self.next_offset,
            records: records_view(self.records@),
            max_records: self.max_records,
        }
    }
}

/// `a + b`, capped at `usize::MAX`.
pub open spec fn sat_add(a: usize, b: nat) -> usize {
    if a + b > usize::MAX {
        usize::MAX
    } else {
        (a + b) as usize
    }
}

/// How many records of `rs` a fetch takes: always the first, then each next one
/// while the running byte count (saturating) stays within `max_bytes`.
pub open spec fn fetch_count(rs: Seq<RecordView>, used: usize, max_bytes: usize, any: bool) -> nat
    decreases rs.len(),
{
    if rs.len() == 0 {
        0
    } else if any && sat_add(used, rs[0].payload.len()) > max_bytes {
        0
    } else {
        1 + fetch_count(rs.drop_first(), sat_add(used, rs[0].payload.len()), max_bytes, true)
    }
}

/// The total payload size of some records.
pub open spec fn payload_bytes(rs: Seq<RecordView>) -> nat
    decreases rs.len(),
{
    if rs.len() == 0 {
        0
    } else {
        rs[0].payload.len() + payload_bytes(rs.drop_first())
    }
}

impl PartitionLogView {
    /// Records are numbered from the base offset without gaps, the next offset
    /// follows the last record, and retention is respected.
    pub open spec fn wf(self) -> bool {
        &&& self.next_offset == self.base_offset + self.records.len()
        &&& forall|i: int| 0 <= i < self.records.len() ==> #[trigger] self.records[i].offset == self.base_offset + i
        &&& self.max_records matches Some(m) ==> self.records.len() <= m
    }

    /// The log after appending `payload`: the record gets the next offset, then the
    /// oldest records beyond the retention limit are dropped and the base offset
    /// moves to the first record kept (or to the next offset if none is).
    pub open spec fn appended(self, payload: Seq<u8>) -> PartitionLogView {
        let all = self.records.push(RecordView { offset: self.next_offset, payload });
        let kept = match self.max_records {
            Some(m) => if all.len() > m {
                all.subrange(all.len() - m, all.len() as int)
            } else {
                all
            },
            None => all,
        };
        PartitionLogView {
            base_offset: if kept.len() > 0 {
                kept[0].offset
            } else {
                (self.next_offset + 1) as u64
            },
            next_offset: (self.next_offset + 1) as u64,
            records: kept,
            max_records: self.max_records,
        }
    }

    /// Where a fetch from `from` starts: `from`, or the base offset if `from` is
    /// older than anything held.
    pub open spec fn fetch_start(self, from: u64) -> u64 {
        if from < self.base_offset {
            self.base_offset
        } else {
            from
        }
    }

    /// The records a fetch from `from` with budget `max_bytes` returns.
    pub open spec fn fetched(self, from: u64, max_bytes: usize) -> Seq<RecordView> {
        let start = self.fetch_start(from);
        if start >= self.next_offset || self.records.len() == 0 {
            Seq::empty()
        } else {
            let rest = self.records.subrange(start - self.base_offset, self.records.len() as int);
            rest.take(fetch_count(rest, 0, max_bytes, false) as int)
        }
    }
}

fn copy_record(r: &Record) -> (c: Record)
    ensures
        c@ == r@,
{
    Record { offset: r.offset, payload: to_vec(r.payload.as_slice()) }
}

impl PartitionLog {
    pub fn new() -> (log: PartitionLog)
        ensures
            log@.wf(),
            log@.base_offset == 0,
            log@.next_offset == 0,
            log@.records == Seq::<RecordView>::empty(),
            log@.max_records is None,
    {
        let log = PartitionLog { base_offset: 0, next_offset: 0, records: Vec::new(), max_records: None };
        assert(log@.records =~= Seq::<RecordView>::empty());
        log
    }

    /// An empty log that keeps at most `max_records` records.
    pub fn with_max_records(max_records: usize) -> (log: PartitionLog)
        ensures
            log@.wf(),
            log@.base_offset == 0,
            log@.next_offset == 0,
            log@.records == Seq::<RecordView>::empty(),
            log@.max_records == Some(max_records),
    {
        let log = PartitionLog { base_offset: 0, next_offset: 0, records: Vec::new(), max_records: Some(max_records) };
        assert(log@.records =~= Seq::<RecordView>::empty());
        log
    }

    pub fn base_offset(&self) -> (r: u64)
        ensures
            r == self@.base_offset,
    {
        self.base_offset
    }

    pub fn next_offset(&self) -> (r: u64)
        ensures
            r == self@.next_offset,
    {
        self.next_offset
    }

    pub fn len(&self) -> (r: usize)
        ensures
            r == self@.records.len(),
    {
        self.records.len()
    }

    pub fn is_empty(&self) -> (r: bool)
        ensures
            r == (self@.records.len() == 0),
    {
        self.records.len() == 0
    }

    /// Appends a record and returns its offset. The offset counter must not be at
    /// its maximum (the increment would overflow).
    pub fn append(&mut self, payload: &[u8]) -> (offset: u64)
        requires
            old(self)@.wf(),
            old(self)@.next_offset < u64::MAX,
        ensures
            offset == old(self)@.next_offset,
            final(self)@ == old(self)@.appended(payload@),
            final(self)@.wf(),
    {
        let offset = self.next_offset;
        self.next_offset = offset + 1;
        let ghost before = records_view(self.records@);
        self.records.push(Record { offset, payload: to_vec(payload) });
        assert(records_view(self.records@) =~= before.push(RecordView { offset, payload: payload@ }));
        self.enforce_retention();
        offset
    }

    fn enforce_retention(&mut self)
        requires
            old(self).next_offset == old(self).base_offset + old(self)@.records.len(),
            old(self)@.records.len() >= 1,
            forall|i: int| 0 <= i < old(self)@.records.len() ==> #[trigger] old(self)@.records[i].offset
                == old(self).base_offset + i,
            old(self).max_records matches Some(m) ==> old(self)@.records.len() <= m + 1,
        ensures
            final(self).next_offset == old(self).next_offset,
            final(self).max_records == old(self).max_records,
            ({
                let all = old(self)@.records;
                let kept = match old(self).max_records {
                    Some(m) => if all.len() > m {
                        all.subrange(all.len() - m, all.len() as int)
                    } else {
                        all
                    },
                    None => all,
                };
                &&& final(self)@.records == kept
                &&& final(self).base_offset == if kept.len() > 0 {
                    kept[0].offset
                } else {
                    old(self).next_offset
                }
            }),
    {
        let max_records = match self.max_records {
            Some(m) => m,
            None => {
                assert(self@.records[0].offset == self.base_offset);
                return;
            },
        };
        if self.records.len() <= max_records {
            assert(self@.records[0].offset == self.base_offset);
            return;
        }
        let excess = self.records.len() - max_records;
        let ghost all = self@.records;
        let kept = self.records.split_off(excess);
        self.records = kept;
        assert(records_view(self.records@) =~= all.subrange(all.len() - max_records, all.len() as int));
        if self.records.len() > 0 {
            self.base_offset = self.records[0].offset;
        } else {
            self.base_offset = self.next_offset;
        }
    }

    /// Fetches records from `from_offset` (inclusive) within `max_bytes`: a start
    /// before the base offset reads from the base offset, a start at or past the
    /// next offset reads nothing, and the first record is always returned even
    /// when it alone exceeds the budget.
    pub fn fetch(&self, from_offset: u64, max_bytes: usize) -> (r: FetchResult)
        requires
            self@.wf(),
        ensures
            r@.base_offset == self@.base_offset,
            r@.next_offset == self@.next_offset,
            r@.records == self@.fetched(from_offset, max_bytes),
    {
        let start_offset = if from_offset < self.base_offset {
            self.base_offset
        } else {
            from_offset
        };
        if start_offset >= self.next_offset || self.records.len() == 0 {
            let r = FetchResult { base_offset: self.base_offset, next_offset: self.next_offset, records: Vec::new() };
            assert(r@.records =~= Seq::<RecordView>::empty());
            return r;
        }
        let start_idx = (start_offset - self.base_offset) as usize;
        let ghost all = self@.records;
        let ghost rest = all.subrange(start_idx as int, all.len() as int);
        let mut out: Vec<Record> = Vec::new();
        let mut used: usize = 0;
        let mut i: usize = start_idx;
        assert(rest.subrange(0, rest.len() as int) =~= rest);
        assert(records_view(out@) =~= rest.take(0));
        while i < self.records.len()
            invariant_except_break
                start_idx <= i <= self.records@.len(),
                all == self@.records,
                rest == all.subrange(start_idx as int, all.len() as int),
                records_view(out@) == rest.take(i - start_idx),
                fetch_count(rest, 0, max_bytes, false) == (i - start_idx) + fetch_count(
                    rest.subrange(i - start_idx, rest.len() as int),
                    used,
                    max_bytes,
                    out@.len() > 0,
                ),
            ensures
                records_view(out@) == rest.take(fetch_count(rest, 0, max_bytes, false) as int),
            decreases self.records@.len() - i,
        {
            let ghost tail = rest.subrange(i - start_idx, rest.len() as int);
            assert(tail[0] == self.records@[i as int]@);
            let cost = self.records[i].payload.len();
            if out.len() > 0 && used.saturating_add(cost) > max_bytes {
                assert(fetch_count(tail, used, max_bytes, true) == 0);
                break;
            }
            used = used.saturating_add(cost);
            let ghost before = out@;
            let rec = copy_record(&self.records[i]);
            out.push(rec);
            assert(tail.drop_first() =~= rest.subrange(i + 1 - start_idx, rest.len() as int));
            assert(records_view(out@) =~= records_view(before).push(rec@));
            assert(rest.take(i + 1 - start_idx) =~= rest.take(i - start_idx).push(rest[i - start_idx]));
            i = i + 1;
        }
        proof {
            if i == self.records.len() {
                assert(rest.subrange(i - start_idx, rest.len() as int) =~= Seq::<RecordView>::empty());
            }
        }
        FetchResult { base_offset: self.base_offset, next_offset: self.next_offset, records: out }
    }
}

impl Default for PartitionLog {
    fn default() -> (log: PartitionLog)
        ensures
            log@.wf(),
            log@.next_offset == 0,
            log@.records == Seq::<RecordView>::empty(),
            log@.max_records is None,
    {
        PartitionLog::new()
    }
}

/// Appending keeps the log well formed: offsets stay contiguous from the base,
/// the next offset moves up by one, and retention holds.
pub proof fn lemma_appended_wf(log: PartitionLogView, payload: Seq<u8>)
    requires
        log.wf(),
        log.next_offset < u64::MAX,
    ensures
        log.appended(payload).wf(),
        log.appended(payload).next_offset == log.next_offset + 1,
        log.appended(payload).records.len() > 0 ==> log.appended(payload).records.last() == (RecordView {
            offset: log.next_offset,
            payload,
        }),
        log.max_records != Some(0usize) ==> log.appended(payload).records.len() > 0,
{
    let all = log.records.push(RecordView { offset: log.next_offset, payload });
    assert forall|i: int| 0 <= i < all.len() implies #[trigger] all[i].offset == log.base_offset + i by {
        if i < log.records.len() {
            assert(all[i] == log.records[i]);
        }
    }
}

/// A fetch returns consecutive offsets, beginning where the fetch starts.
pub proof fn lemma_fetch_offsets(log: PartitionLogView, from: u64, max_bytes: usize)
    requires
        log.wf(),
    ensures
        forall|i: int| 0 <= i < log.fetched(from, max_bytes).len() ==> #[trigger] log.fetched(from, max_bytes)[i].offset
            == log.fetch_start(from) + i,
{
    let start = log.fetch_start(from);
    if !(start >= log.next_offset || log.records.len() == 0) {
        let rest = log.records.subrange(start - log.base_offset, log.records.len() as int);
        lemma_fetch_count_bound(rest, 0, max_bytes, false);
        assert forall|i: int| 0 <= i < log.fetched(from, max_bytes).len() implies #[trigger] log.fetched(
            from,
            max_bytes,
        )[i].offset == start + i by {
            assert(log.fetched(from, max_bytes)[i] == rest[i]);
            assert(rest[i] == log.records[start - log.base_offset + i]);
        }
    }
}

/// A fetch returns at least one record exactly when it starts before the next
/// offset: nothing held is skipped for want of budget.
pub proof fn lemma_fetch_nonempty(log: PartitionLogView, from: u64, max_bytes: usize)
    requires
        log.wf(),
    ensures
        log.fetched(from, max_bytes).len() > 0 <==> log.fetch_start(from) < log.next_offset,
{
    let start = log.fetch_start(from);
    if start < log.next_offset {
        let rest = log.records.subrange(start - log.base_offset, log.records.len() as int);
        assert(rest.len() > 0);
        assert(fetch_count(rest, 0, max_bytes, false) >= 1);
        assert(fetch_count(rest, 0, max_bytes, false) <= rest.len()) by {
            lemma_fetch_count_bound(rest, 0, max_bytes, false);
        }
    }
}

proof fn lemma_fetch_count_bound(rs: Seq<RecordView>, used: usize, max_bytes: usize, any: bool)
    ensures
        fetch_count(rs, used, max_bytes, any) <= rs.len(),
    decreases rs.len(),
{
    if rs.len() > 0 {
        lemma_fetch_count_bound(rs.drop_first(), sat_add(used, rs[0].payload.len()), max_bytes, true);
    }
}

/// What is appended can be read back: a fetch from the offset that `append`
/// returned gives exactly that record, unless retention keeps no record at all.
pub proof fn lemma_read_after_append(log: PartitionLogView, payload: Seq<u8>, max_bytes: usize)
    requires
        log.wf(),
        log.next_offset < u64::MAX,
        log.max_records != Some(0usize),
    ensures
        log.appended(payload).fetched(log.next_offset, max_bytes) == seq![RecordView { offset: log.next_offset, payload }],
{
    let l2 = log.appended(payload);
    lemma_appended_wf(log, payload);
    let n = l2.records.len();
    assert(l2.records[n - 1].offset == l2.base_offset + (n - 1));
    let start = l2.fetch_start(log.next_offset);
    assert(start == log.next_offset);
    let rest = l2.records.subrange(start - l2.base_offset, n as int);
    assert(rest =~= seq![RecordView { offset: log.next_offset, payload }]);
    assert(fetch_count(rest.drop_first(), sat_add(0, payload.len()), max_bytes, true) == 0);
    assert(fetch_count(rest, 0, max_bytes, false) == 1);
    assert(rest.take(1) =~= rest);
}

/// Retention drops only the oldest records: what a log keeps after an append is
/// the newest part of what it held plus the new record.
pub proof fn lemma_retention_keeps_newest(log: PartitionLogView, payload: Seq<u8>)
    requires
        log.wf(),
        log.next_offset < u64::MAX,
    ensures
        ({
            let all = log.records.push(RecordView { offset: log.next_offset, payload });
            let kept = log.appended(payload).records;
            &&& kept.len() <= all.len()
            &&& kept == all.subrange(all.len() - kept.len(), all.len() as int)
            &&& (log.max_records matches Some(m) ==> kept.len() == if all.len() < m { all.len() } else { m as nat })
            &&& (log.max_records is None ==> kept == all)
        }),
{
    let all = log.records.push(RecordView { offset: log.next_offset, payload });
    assert(all.subrange(0, all.len() as int) =~= all);
}

proof fn lemma_budget(rs: Seq<RecordView>, used: usize, max_bytes: usize)
    requires
        max_bytes < usize::MAX,
    ensures
        fetch_count(rs, used, max_bytes, true) > 0 ==> used + payload_bytes(
            rs.take(fetch_count(rs, used, max_bytes, true) as int),
        ) <= max_bytes,
    decreases rs.len(),
{
    let k = fetch_count(rs, used, max_bytes, true);
    if rs.len() > 0 && k > 0 {
        let c = rs[0].payload.len();
        let u2 = sat_add(used, c);
        assert(u2 <= max_bytes);
        assert(u2 == used + c);
        lemma_budget(rs.drop_first(), u2, max_bytes);
        lemma_fetch_count_bound(rs, used, max_bytes, true);
        assert(rs.take(k as int).drop_first() =~= rs.drop_first().take(k - 1));
        assert(payload_bytes(rs.take(k as int)) == c + payload_bytes(rs.drop_first().take(k - 1)));
        if k == 1 {
            assert(rs.drop_first().take(0) =~= Seq::<RecordView>::empty());
        }
    }
}

/// A fetch that returns more than one record stays within its byte budget (a
/// budget of `usize::MAX` is no limit at all).
pub proof fn lemma_fetch_within_budget(log: PartitionLogView, from: u64, max_bytes: usize)
    requires
        log.wf(),
        max_bytes < usize::MAX,
        log.fetched(from, max_bytes).len() > 1,
    ensures
        payload_bytes(log.fetched(from, max_bytes)) <= max_bytes,
{
    let start = log.fetch_start(from);
    let rest = log.records.subrange(start - log.base_offset, log.records.len() as int);
    let k = fetch_count(rest, 0, max_bytes, false);
    let c = rest[0].payload.len();
    let u2 = sat_add(0, c);
    lemma_fetch_count_bound(rest, 0, max_bytes, false);
    lemma_budget(rest.drop_first(), u2, max_bytes);
    assert(fetch_count(rest.drop_first(), u2, max_bytes, true) == k - 1);
    assert(u2 == c) by {
        let rest2 = rest.drop_first();
        assert(rest2.len() > 0);
        assert(sat_add(u2, rest2[0].payload.len()) <= max_bytes);
    }
    assert(rest.take(k as int).drop_first() =~= rest.drop_first().take(k - 1));
    assert(payload_bytes(rest.take(k as int)) == c + payload_bytes(rest.drop_first().take(k - 1)));
}

} // verus!
