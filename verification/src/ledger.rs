//! The ledger of acknowledged sequence numbers a stress run keeps, and the audit
//! that compares it with what the log holds.

use crate::acl::split_parts;
use crate::coordinator::{insert_sorted, strictly_sorted};
use crate::error::DmqError;
use crate::stress::{parse_payload, spec_parse_payload, AuditReport};
use crate::text::{parse_unsigned, spec_parse_unsigned};
use crate::wire::copy_range;
use vstd::prelude::*;

verus! {

/// Whitespace that a ledger line is trimmed of.
pub open spec fn is_blank(b: u8) -> bool {
    b == 32 || (9 <= b && b <= 13)
}

/// `s` without leading whitespace.
pub open spec fn trim_start(s: Seq<u8>) -> Seq<u8>
    decreases s.len(),
{
    if s.len() > 0 && is_blank(s[0]) {
        trim_start(s.drop_first())
    } else {
        s
    }
}

/// `s` without trailing whitespace.
pub open spec fn trim_end(s: Seq<u8>) -> Seq<u8>
    decreases s.len(),
{
    if s.len() > 0 && is_blank(s.last()) {
        trim_end(s.drop_last())
    } else {
        s
    }
}

/// `s` without surrounding whitespace.
pub open spec fn trimmed(s: Seq<u8>) -> Seq<u8> {
    trim_end(trim_start(s))
}

/// The sequence numbers the ledger lines `lines` list: blank lines are
/// skipped, and the first line that is not a `u64` is refused.
pub open spec fn ledger_seqs(lines: Seq<Seq<u8>>) -> Result<Set<u64>, DmqError>
    decreases lines.len(),
{
    if lines.len() == 0 {
        Ok(Set::empty())
    } else {
        match ledger_seqs(lines.drop_last()) {
            Err(e) => Err(e),
            Ok(seen) => {
                let t = trimmed(lines.last());
                if t.len() == 0 {
                    Ok(seen)
                } else {
                    match spec_parse_unsigned(t, u64::MAX as nat) {
                        Some(v) => Ok(seen.insert(v as u64)),
                        None => Err(DmqError::InvalidSeq),
                    }
                }
            },
        }
    }
}

/// The sequence numbers of run `run` in `payloads`; the first payload that is not
/// a stress payload is refused.
pub open spec fn run_seqs(run: Seq<char>, payloads: Seq<Seq<u8>>) -> Result<Set<u64>, DmqError>
    decreases payloads.len(),
{
    if payloads.len() == 0 {
        Ok(Set::empty())
    } else {
        match run_seqs(run, payloads.drop_last()) {
            Err(e) => Err(e),
            Ok(seen) => match spec_parse_payload(payloads.last()) {
                Err(e) => Err(e),
                Ok((r, s)) => Ok(
                    if r == run {
                        seen.insert(s)
                    } else {
                        seen
                    },
                ),
            },
        }
    }
}

/// Strips the whitespace around `s`.
fn trim(s: &[u8]) -> (t: Vec<u8>)
    ensures
        t@ == trimmed(s@),
{
    let mut a: usize = 0;
    assert(s@.subrange(0, s@.len() as int) =~= s@);
    while a < s.len() && (s[a] == 32 || (9 <= s[a] && s[a] <= 13))
        invariant
            a <= s@.len(),
            trim_start(s@) == trim_start(s@.subrange(a as int, s@.len() as int)),
        decreases s@.len() - a,
    {
        assert(s@.subrange(a as int, s@.len() as int).drop_first() =~= s@.subrange(a + 1, s@.len() as int));
        assert(s@.subrange(a as int, s@.len() as int)[0] == s@[a as int]);
        a = a + 1;
    }
    proof {
        let rest = s@.subrange(a as int, s@.len() as int);
        if rest.len() > 0 {
            assert(rest[0] == s@[a as int]);
        }
        assert(trim_start(rest) == rest);
    }
    let mut b: usize = s.len();
    while b > a && (s[b - 1] == 32 || (9 <= s[b - 1] && s[b - 1] <= 13))
        invariant
            a <= b <= s@.len(),
            trim_start(s@) == s@.subrange(a as int, s@.len() as int),
            trim_end(s@.subrange(a as int, s@.len() as int)) == trim_end(s@.subrange(a as int, b as int)),
        decreases b - a,
    {
        assert(s@.subrange(a as int, b as int).drop_last() =~= s@.subrange(a as int, b - 1));
        assert(s@.subrange(a as int, b as int).last() == s@[b - 1]);
        b = b - 1;
    }
    proof {
        let mid = s@.subrange(a as int, b as int);
        if mid.len() > 0 {
            assert(mid.last() == s@[b - 1]);
        }
        assert(trim_end(mid) == mid);
    }
    copy_range(s, a, b)
}

/// The views of a list of byte vectors.
pub open spec fn views(vs: Seq<Vec<u8>>) -> Seq<Seq<u8>> {
    vs.map_values(|v: Vec<u8>| v@)
}

/// Splits `text` at every newline.
fn split_lines(text: &[u8]) -> (lines: Vec<Vec<u8>>)
    ensures
        views(lines@) == split_parts(text@, 10),
{
    let mut lines: Vec<Vec<u8>> = Vec::new();
    let mut start: usize = 0;
    let mut i: usize = 0;
    proof {
        assert(text@.take(0) =~= Seq::<u8>::empty());
        assert(split_parts(text@.take(0), 10).drop_last() =~= Seq::<Seq<u8>>::empty());
        assert(text@.subrange(0, 0) =~= Seq::<u8>::empty());
        assert(views(lines@) =~= Seq::<Seq<u8>>::empty());
        crate::acl::lemma_split_parts_nonempty(text@.take(0), 10);
    }
    while i < text.len()
        invariant
            start <= i <= text@.len(),
            split_parts(text@.take(i as int), 10).len() >= 1,
            split_parts(text@.take(i as int), 10).last() == text@.subrange(start as int, i as int),
            views(lines@) == split_parts(text@.take(i as int), 10).drop_last(),
        decreases text@.len() - i,
    {
        let ghost before = split_parts(text@.take(i as int), 10);
        proof {
            assert(text@.take(i + 1).drop_last() =~= text@.take(i as int));
            assert(text@.take(i + 1).last() == text@[i as int]);
        }
        if text[i] == 10 {
            let line = copy_range(text, start, i);
            let ghost lv = line@;
            lines.push(line);
            proof {
                assert(views(lines@) =~= before.drop_last().push(lv));
                assert(before.drop_last().push(before.last()) =~= before);
                assert(split_parts(text@.take(i + 1), 10).drop_last() =~= before);
                assert(text@.subrange(i + 1, i + 1) =~= Seq::<u8>::empty());
            }
            start = i + 1;
        } else {
            proof {
                assert(text@.subrange(start as int, i + 1) =~= text@.subrange(start as int, i as int).push(
                    text@[i as int],
                ));
                assert(split_parts(text@.take(i + 1), 10).drop_last() =~= before.drop_last());
            }
        }
        i = i + 1;
    }
    let ghost before = split_parts(text@.take(i as int), 10);
    let line = copy_range(text, start, i);
    let ghost lv = line@;
    lines.push(line);
    proof {
        assert(views(lines@) =~= before.drop_last().push(lv));
        assert(before.drop_last().push(before.last()) =~= before);
        assert(text@.take(i as int) =~= text@);
    }
    lines
}

/// A refusal by a prefix of the lines is the refusal of all of them.
proof fn lemma_ledger_err_extends(lines: Seq<Seq<u8>>, k: int)
    requires
        0 <= k <= lines.len(),
        ledger_seqs(lines.take(k)) is Err,
    ensures
        ledger_seqs(lines) == ledger_seqs(lines.take(k)),
    decreases lines.len() - k,
{
    if k < lines.len() {
        assert(lines.take(k + 1).drop_last() =~= lines.take(k));
        lemma_ledger_err_extends(lines, k + 1);
    } else {
        assert(lines.take(k) =~= lines);
    }
}

/// Reads a ledger's text: the set of sequence numbers it lists, ascending (see
/// `ledger_seqs` over its lines).
pub fn parse_ledger(text: &[u8]) -> (r: Result<Vec<u64>, DmqError>)
    ensures
        match r {
            Ok(v) => strictly_sorted(v@) && ledger_seqs(split_parts(text@, 10)) == Ok::<Set<u64>, DmqError>(v@.to_set()),
            Err(e) => ledger_seqs(split_parts(text@, 10)) == Err::<Set<u64>, DmqError>(e),
        },
{
    let lines = split_lines(text);
    let ghost ls = views(lines@);
    let mut seen: Vec<u64> = Vec::new();
    let mut k: usize = 0;
    proof {
        assert(ls.take(0) =~= Seq::<Seq<u8>>::empty());
        assert(seen@.to_set() =~= Set::<u64>::empty());
    }
    while k < lines.len()
        invariant
            k <= lines@.len(),
            ls == views(lines@),
            ls == split_parts(text@, 10),
            ledger_seqs(ls.take(k as int)) == Ok::<Set<u64>, DmqError>(seen@.to_set()),
            strictly_sorted(seen@),
        decreases lines@.len() - k,
    {
        proof {
            assert(ls.take(k + 1).drop_last() =~= ls.take(k as int));
            assert(ls.take(k + 1).last() == lines@[k as int]@);
        }
        let line = trim(lines[k].as_slice());
        if line.len() > 0 {
            match parse_unsigned(line.as_slice(), u64::MAX) {
                Some(v) => {
                    let ghost before = seen@;
                    insert_sorted(&mut seen, v);
                },
                None => {
                    proof {
                        lemma_ledger_err_extends(ls, k + 1);
                    }
                    return Err(DmqError::InvalidSeq);
                },
            }
        }
        k = k + 1;
    }
    proof {
        assert(ls.take(k as int) =~= ls);
    }
    Ok(seen)
}


fn contains_seq(v: &Vec<u64>, x: u64) -> (r: bool)
    ensures
        r == v@.contains(x),
{
    let mut i: usize = 0;
    while i < v.len()
        invariant
            i <= v@.len(),
            forall|j: int| 0 <= j < i ==> v@[j] != x,
        decreases v@.len() - i,
    {
        if v[i] == x {
            return true;
        }
        i = i + 1;
    }
    false
}

/// The acknowledged sequence numbers of a run, and the file they are kept in.
pub struct Ledger {
    path: String,
    seen: Vec<u64>,
}

pub struct LedgerView {
    pub path: Seq<char>,
    pub seen: Set<u64>,
}

impl View for Ledger {
    type V = LedgerView;

    closed spec fn view(&self) -> LedgerView {
        LedgerView { path: self.path@, seen: self.seen@.to_set() }
    }
}

impl Ledger {
    /// The numbers are kept in ascending order, each once.
    pub closed spec fn wf(&self) -> bool {
        strictly_sorted(self.seen@)
    }

    /// An empty ledger kept at `path`.
    pub fn open(path: String) -> (l: Ledger)
        ensures
            l.wf(),
            l@.path == path@,
            l@.seen == Set::<u64>::empty(),
    {
        let l = Ledger { path, seen: Vec::new() };
        assert(l.seen@.to_set() =~= Set::<u64>::empty());
        l
    }

    pub fn path(&self) -> (p: &String)
        ensures
            p@ == self@.path,
    {
        &self.path
    }

    /// Records an acknowledged number; says whether it is new (and so must be
    /// appended to the file).
    pub fn record(&mut self, seq: u64) -> (new: bool)
        requires
            old(self).wf(),
        ensures
            final(self).wf(),
            new == !old(self)@.seen.contains(seq),
            final(self)@ == (LedgerView { seen: old(self)@.seen.insert(seq), ..old(self)@ }),
    {
        let known = contains_seq(&self.seen, seq);
        proof {
            assert(known == self@.seen.contains(seq));
        }
        if known {
            assert(self@.seen.insert(seq) =~= self@.seen);
            return false;
        }
        insert_sorted(&mut self.seen, seq);
        true
    }

    /// The recorded numbers, ascending.
    pub fn into_seen(self) -> (v: Vec<u64>)
        requires
            self.wf(),
        ensures
            strictly_sorted(v@),
            v@.to_set() == self@.seen,
    {
        self.seen
    }
}

proof fn lemma_push_contains(s: Seq<u64>, x: u64, y: u64)
    ensures
        s.push(x).contains(y) == (s.contains(y) || y == x),
{
    if s.push(x).contains(y) {
        let j = choose|j: int| 0 <= j < s.push(x).len() && #[trigger] s.push(x)[j] == y;
        if j < s.len() {
            assert(s[j] == y);
        }
    }
    if s.contains(y) {
        let j = choose|j: int| 0 <= j < s.len() && #[trigger] s[j] == y;
        assert(s.push(x)[j] == y);
    }
    if y == x {
        assert(s.push(x)[s.len() as int] == y);
    }
}

/// The numbers of `a` that `b` lacks, ascending.
fn sorted_difference(a: &Vec<u64>, b: &Vec<u64>) -> (d: Vec<u64>)
    requires
        strictly_sorted(a@),
    ensures
        strictly_sorted(d@),
        d@.to_set() == a@.to_set().difference(b@.to_set()),
{
    let mut d: Vec<u64> = Vec::new();
    let mut i: usize = 0;
    assert(a@.take(0).to_set() =~= Set::<u64>::empty());
    assert(d@.to_set() =~= Set::<u64>::empty());
    while i < a.len()
        invariant
            i <= a@.len(),
            strictly_sorted(a@),
            strictly_sorted(d@),
            forall|j: int| 0 <= j < d@.len() ==> exists|k: int| 0 <= k < i && #[trigger] d@[j] == a@[k],
            d@.to_set() == a@.take(i as int).to_set().difference(b@.to_set()),
        decreases a@.len() - i,
    {
        let x = a[i];
        let ghost before = d@;
        let ghost pre = a@.take(i as int);
        proof {
            assert(a@.take(i + 1) =~= pre.push(x));
        }
        if !contains_seq(b, x) {
            d.push(x);
            proof {
                assert(d@ =~= before.push(x));
                assert forall|p: int, q: int| 0 <= p < q < d@.len() implies d@[p] < d@[q] by {
                    if q == d@.len() - 1 {
                        let k = choose|k: int| 0 <= k < i && #[trigger] before[p] == a@[k];
                        assert(a@[k] < a@[i as int]);
                    }
                }
                assert forall|j: int| 0 <= j < d@.len() implies exists|k: int| 0 <= k < i + 1 && #[trigger] d@[j] == a@[k] by {
                    if j == d@.len() - 1 {
                        assert(d@[j] == a@[i as int]);
                    } else {
                        let k = choose|k: int| 0 <= k < i && #[trigger] before[j] == a@[k];
                        assert(d@[j] == a@[k]);
                    }
                }
                assert forall|y: u64| #[trigger] d@.to_set().contains(y) == a@.take(i + 1).to_set().difference(b@.to_set()).contains(y) by {
                    lemma_push_contains(before, x, y);
                    lemma_push_contains(pre, x, y);
                    assert(d@.to_set().contains(y) == d@.contains(y));
                    assert(before.to_set().contains(y) == before.contains(y));
                    assert(pre.to_set().contains(y) == pre.contains(y));
                    assert(a@.take(i + 1).to_set().contains(y) == pre.push(x).contains(y));
                    assert(!b@.contains(x));
                }
                assert(d@.to_set() =~= a@.take(i + 1).to_set().difference(b@.to_set()));
            }
        } else {
            proof {
                assert(b@.to_set().contains(x));
                assert forall|y: u64| #[trigger] d@.to_set().contains(y) == a@.take(i + 1).to_set().difference(b@.to_set()).contains(y) by {
                    lemma_push_contains(pre, x, y);
                    if y == x && d@.contains(y) {
                        let j = choose|j: int| 0 <= j < d@.len() && #[trigger] d@[j] == y;
                        let k = choose|k: int| 0 <= k < i && #[trigger] d@[j] == a@[k];
                        assert(a@[k] < a@[i as int]);
                    }
                }
                assert(d@.to_set() =~= a@.take(i + 1).to_set().difference(b@.to_set()));
            }
        }
        i = i + 1;
    }
    assert(a@.take(i as int) =~= a@);
    d
}


/// A refusal by a prefix of the payloads is the refusal of all of them.
proof fn lemma_run_err_extends(run: Seq<char>, ps: Seq<Seq<u8>>, k: int)
    requires
        0 <= k <= ps.len(),
        run_seqs(run, ps.take(k)) is Err,
    ensures
        run_seqs(run, ps) == run_seqs(run, ps.take(k)),
    decreases ps.len() - k,
{
    if k < ps.len() {
        assert(ps.take(k + 1).drop_last() =~= ps.take(k));
        lemma_run_err_extends(run, ps, k + 1);
    } else {
        assert(ps.take(k) =~= ps);
    }
}

proof fn lemma_sorted_set_len(s: Seq<u64>)
    requires
        strictly_sorted(s),
    ensures
        s.to_set().len() == s.len(),
{
    assert(s.no_duplicates()) by {
        assert forall|i: int, j: int| 0 <= i < s.len() && 0 <= j < s.len() && i != j implies s[i] != s[j] by {
            if i < j {
                assert(s[i] < s[j]);
            } else {
                assert(s[j] < s[i]);
            }
        }
    }
    s.unique_seq_to_set();
}

/// The audit of run `run_id`: `expected` holds the acknowledged numbers
/// (ascending), `payloads` what was read back from the log. The numbers of the
/// run read back are compared with the acknowledged ones; a payload that is not
/// a stress payload makes the audit fail.
pub fn build_audit_report(run_id: &String, expected: &Vec<u64>, payloads: &[Vec<u8>], committed_offset: u64) -> (r: Result<
    AuditReport,
    DmqError,
>)
    requires
        strictly_sorted(expected@),
    ensures
        match r {
            Ok(rep) => run_seqs(run_id@, views(payloads@)) matches Ok(f) && {
                &&& rep.run_id@ == run_id@
                &&& rep.expected == expected@.len()
                &&& rep.fetched_for_run == f.len()
                &&& strictly_sorted(rep.missing@)
                &&& rep.missing@.to_set() == expected@.to_set().difference(f)
                &&& strictly_sorted(rep.unexpected@)
                &&& rep.unexpected@.to_set() == f.difference(expected@.to_set())
                &&& rep.committed_offset == committed_offset
            },
            Err(e) => run_seqs(run_id@, views(payloads@)) == Err::<Set<u64>, DmqError>(e),
        },
{
    let ghost ps = views(payloads@);
    let mut fetched: Vec<u64> = Vec::new();
    let mut k: usize = 0;
    proof {
        assert(ps.take(0) =~= Seq::<Seq<u8>>::empty());
        assert(fetched@.to_set() =~= Set::<u64>::empty());
    }
    while k < payloads.len()
        invariant
            k <= payloads@.len(),
            ps == views(payloads@),
            run_seqs(run_id@, ps.take(k as int)) == Ok::<Set<u64>, DmqError>(fetched@.to_set()),
            strictly_sorted(fetched@),
        decreases payloads@.len() - k,
    {
        proof {
            assert(ps.take(k + 1).drop_last() =~= ps.take(k as int));
            assert(ps.take(k + 1).last() == payloads@[k as int]@);
        }
        match parse_payload(payloads[k].as_slice()) {
            Ok((run, seq)) => {
                if run == *run_id {
                    insert_sorted(&mut fetched, seq);
                }
            },
            Err(e) => {
                proof {
                    lemma_run_err_extends(run_id@, ps, k + 1);
                }
                return Err(e);
            },
        }
        k = k + 1;
    }
    proof {
        assert(ps.take(k as int) =~= ps);
        lemma_sorted_set_len(fetched@);
    }
    let missing = sorted_difference(expected, &fetched);
    let unexpected = sorted_difference(&fetched, expected);
    Ok(
        AuditReport {
            run_id: run_id.clone(),
            expected: expected.len(),
            fetched_for_run: fetched.len(),
            missing,
            unexpected,
            committed_offset,
        },
    )
}

} // verus!
