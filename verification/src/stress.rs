//! The load generator's settings, its payload format and its audit verdict.
//!
//! A stress payload is `run_id:SEQ:` with `SEQ` the sequence number in at least
//! twelve zero-padded digits, cut or padded with `x` to the requested size.

use crate::error::DmqError;
use crate::cluster_state::now_ms;
use crate::text::{decimal, decimal_digits, decimal_string, parse_unsigned, push_decimal, spec_parse_unsigned, string_from_utf8};
use crate::wire::{put_bytes, to_vec};
use vstd::prelude::*;
use vstd::string::StrSliceExecFns;
use vstd::utf8::{decode_utf8, encode_utf8, valid_utf8};

verus! {

/// A stress run. Durations are whole seconds.
#[derive(Debug, Clone)]
pub struct StressConfig {
    pub topic_id: u16,
    pub partition_id: u16,
    pub run_id: String,
    pub target_rps: u64,
    pub duration_secs: u64,
    pub warmup_secs: u64,
    pub workers: usize,
    pub payload_bytes: usize,
    pub producer_id: u64,
    pub ledger_path: Option<String>,
}

impl StressConfig {
    /// How many messages a run should produce: the target rate over the whole
    /// duration (saturating).
    pub fn expected_messages(&self) -> (n: u64)
        ensures
            n == if self.target_rps * self.duration_secs > u64::MAX {
                u64::MAX
            } else {
                (self.target_rps * self.duration_secs) as u64
            },
    {
        match self.target_rps.checked_mul(self.duration_secs) {
            Some(n) => n,
            None => u64::MAX,
        }
    }

    /// The retention of the topic a run creates: room for the expected messages
    /// and one more per worker (saturating), at least 10 000, cut to its low 32
    /// bits.
    pub fn topic_capacity(&self) -> (n: u32)
        ensures
            n == run_capacity(self.target_rps, self.duration_secs, self.workers) % 0x1_0000_0000,
    {
        let expected = self.expected_messages();
        let total = match expected.checked_add(self.workers as u64) {
            Some(t) => t,
            None => u64::MAX,
        };
        let cap = if total < 10000 {
            10000
        } else {
            total
        };
        (cap % 0x1_0000_0000) as u32
    }
}

/// The messages a run at `rps` for `secs` seconds should produce, saturating.
pub open spec fn run_messages(rps: u64, secs: u64) -> int {
    if rps * secs > u64::MAX {
        u64::MAX as int
    } else {
        rps * secs
    }
}

/// The room a run's topic needs: its messages and one more per worker
/// (saturating at `u64::MAX`), and at least 10 000.
pub open spec fn run_capacity(rps: u64, secs: u64, workers: usize) -> int {
    let total = if run_messages(rps, secs) + workers > u64::MAX {
        u64::MAX as int
    } else {
        run_messages(rps, secs) + workers
    };
    if total < 10000 {
        10000
    } else {
        total
    }
}

/// A verification pass over a finished run.
#[derive(Debug, Clone)]
pub struct VerifyConfig {
    pub topic_id: u16,
    pub partition_id: u16,
    pub run_id: String,
    pub ledger_path: Option<String>,
    pub group_id: u16,
}

/// The seconds a duration text names: a `u64`, optionally followed by one `s`.
pub open spec fn spec_parse_duration(text: Seq<u8>) -> Option<nat> {
    if text.len() > 0 && text.last() == 115 {
        spec_parse_unsigned(text.drop_last(), u64::MAX as nat)
    } else {
        spec_parse_unsigned(text, u64::MAX as nat)
    }
}

/// Parses a duration in seconds (see `spec_parse_duration`).
pub fn parse_duration(text: &str) -> (r: Option<u64>)
    ensures
        match r {
            Some(v) => spec_parse_duration(encode_utf8(text@)) == Some(v as nat),
            None => spec_parse_duration(encode_utf8(text@)) is None,
        },
{
    let b = text.as_bytes();
    if b.len() > 0 && b[b.len() - 1] == 115 {
        let (head, _) = b.split_at(b.len() - 1);
        assert(head@ =~= b@.drop_last());
        parse_unsigned(head, 18446744073709551615)
    } else {
        parse_unsigned(b, 18446744073709551615)
    }
}

/// The digits of `n`, zero-padded to at least twelve.
pub open spec fn padded12(n: u64) -> Seq<u8> {
    let d = decimal_digits(n as nat);
    if d.len() < 12 {
        Seq::new((12 - d.len()) as nat, |i: int| 48u8) + d
    } else {
        d
    }
}

/// The header a payload starts with: `run_id:SEQ:`.
pub open spec fn payload_header(run_id: Seq<char>, seq: u64) -> Seq<u8> {
    encode_utf8(run_id) + seq![58u8] + padded12(seq) + seq![58u8]
}

/// A payload of exactly `size` bytes: the header, cut or padded with `x`.
pub open spec fn spec_encode_payload(run_id: Seq<char>, seq: u64, size: nat) -> Seq<u8> {
    let h = payload_header(run_id, seq);
    if h.len() >= size {
        h.take(size as int)
    } else {
        h + Seq::new((size - h.len()) as nat, |i: int| 120u8)
    }
}

pub fn encode_payload(run_id: &str, seq: u64, payload_bytes: usize) -> (out: Vec<u8>)
    ensures
        out@ == spec_encode_payload(run_id@, seq, payload_bytes as nat),
{
    let mut digits: Vec<u8> = Vec::new();
    push_decimal(&mut digits, seq);
    let mut header: Vec<u8> = Vec::new();
    put_bytes(&mut header, run_id.as_bytes());
    header.push(58u8);
    let mut pad: usize = digits.len();
    let ghost h0 = header@;
    while pad < 12
        invariant
            digits@ == decimal_digits(seq as nat),
            digits@.len() <= pad <= 12 || (pad == digits@.len() && pad >= 12),
            header@ == h0 + Seq::new((pad - digits@.len()) as nat, |i: int| 48u8),
        decreases 12 - pad,
    {
        header.push(48u8);
        pad = pad + 1;
        assert(header@ =~= h0 + Seq::new((pad - digits@.len()) as nat, |i: int| 48u8));
    }
    put_bytes(&mut header, digits.as_slice());
    header.push(58u8);
    proof {
        if digits@.len() >= 12 {
            assert(Seq::new((pad - digits@.len()) as nat, |i: int| 48u8) =~= Seq::<u8>::empty());
        }
        assert(header@ =~= payload_header(run_id@, seq));
    }
    let mut out: Vec<u8> = Vec::new();
    let mut i: usize = 0;
    while i < payload_bytes
        invariant
            i <= payload_bytes,
            header@ == payload_header(run_id@, seq),
            out@ == spec_encode_payload(run_id@, seq, payload_bytes as nat).take(i as int),
        decreases payload_bytes - i,
    {
        if i < header.len() {
            out.push(header[i]);
        } else {
            out.push(120u8);
        }
        i = i + 1;
        assert(out@ =~= spec_encode_payload(run_id@, seq, payload_bytes as nat).take(i as int));
    }
    assert(out@ =~= spec_encode_payload(run_id@, seq, payload_bytes as nat));
    out
}

/// The first position at or after `from` that holds `c`.
pub open spec fn find_char(cs: Seq<char>, c: char, from: int) -> Option<int>
    decreases cs.len() - from,
{
    if from < 0 || from >= cs.len() {
        None
    } else if cs[from] == c {
        Some(from)
    } else {
        find_char(cs, c, from + 1)
    }
}

/// The bytes of characters that are all ASCII.
pub open spec fn ascii_bytes(cs: Seq<char>) -> Option<Seq<u8>> {
    if forall|i: int| 0 <= i < cs.len() ==> (#[trigger] cs[i] as u32) < 128 {
        Some(cs.map_values(|c: char| c as u8))
    } else {
        None
    }
}

/// What a payload says: its run id and sequence number.
pub open spec fn spec_parse_payload(p: Seq<u8>) -> Result<(Seq<char>, u64), DmqError> {
    if !valid_utf8(p) {
        Err(DmqError::InvalidUtf8)
    } else {
        let cs = decode_utf8(p);
        match find_char(cs, ':', 0) {
            None => Err(DmqError::MissingRunId),
            Some(i) => match find_char(cs, ':', i + 1) {
                None => Err(DmqError::MissingSeq),
                Some(j) => match ascii_bytes(cs.subrange(i + 1, j)) {
                    Some(b) => match spec_parse_unsigned(b, u64::MAX as nat) {
                        Some(v) => Ok((cs.take(i), v as u64)),
                        None => Err(DmqError::InvalidSeq),
                    },
                    None => Err(DmqError::InvalidSeq),
                },
            },
        }
    }
}

fn find_colon(s: &str, from: usize) -> (r: Option<usize>)
    requires
        from <= s@.len(),
    ensures
        match r {
            Some(i) => find_char(s@, ':', from as int) == Some(i as int),
            None => find_char(s@, ':', from as int) is None,
        },
        s@.len() <= usize::MAX,
{
    let n = s.unicode_len();
    let mut i: usize = from;
    while i < n
        invariant
            from <= i <= n,
            n == s@.len(),
            find_char(s@, ':', from as int) == find_char(s@, ':', i as int),
        decreases n - i,
    {
        if s.get_char(i) == ':' {
            return Some(i);
        }
        i = i + 1;
    }
    None
}

/// Reads back the run id and sequence number of a payload (see `spec_parse_payload`).
pub fn parse_payload(payload: &[u8]) -> (r: Result<(String, u64), DmqError>)
    ensures
        match r {
            Ok((run, seq)) => spec_parse_payload(payload@) == Ok::<(Seq<char>, u64), DmqError>((run@, seq)),
            Err(e) => spec_parse_payload(payload@) == Err::<(Seq<char>, u64), DmqError>(e),
        },
{
    let text = match string_from_utf8(to_vec(payload)) {
        Some(t) => t,
        None => {
            return Err(DmqError::InvalidUtf8);
        },
    };
    let t = text.as_str();
    let i = match find_colon(t, 0) {
        Some(i) => i,
        None => {
            return Err(DmqError::MissingRunId);
        },
    };
    proof {
        lemma_find_char_found(t@, ':', 0);
    }
    let j = match find_colon(t, i + 1) {
        Some(j) => j,
        None => {
            return Err(DmqError::MissingSeq);
        },
    };
    proof {
        lemma_find_char_found(t@, ':', 0);
        lemma_find_char_found(t@, ':', i + 1);
    }
    let mut digits: Vec<u8> = Vec::new();
    let mut k: usize = i + 1;
    let ghost part = t@.subrange(i + 1, j as int);
    while k < j
        invariant
            i + 1 <= k <= j,
            j < t@.len(),
            part == t@.subrange(i + 1, j as int),
            t@ == decode_utf8(payload@),
            valid_utf8(payload@),
            find_char(t@, ':', 0) == Some(i as int),
            find_char(t@, ':', i + 1) == Some(j as int),
            forall|x: int| 0 <= x < k - (i + 1) ==> (#[trigger] part[x] as u32) < 128,
            digits@ == part.take(k - (i + 1)).map_values(|c: char| c as u8),
        decreases j - k,
    {
        let c = t.get_char(k);
        assert(part[k - (i + 1)] == c);
        if (c as u32) >= 128 {
            assert(!((part[k - (i + 1)] as u32) < 128));
            assert(ascii_bytes(part) is None);
            assert(spec_parse_payload(payload@) == Err::<(Seq<char>, u64), DmqError>(DmqError::InvalidSeq));
            return Err(DmqError::InvalidSeq);
        }
        digits.push(c as u8);
        k = k + 1;
        assert(digits@ =~= part.take(k - (i + 1)).map_values(|c: char| c as u8));
    }
    assert(part.take(part.len() as int) =~= part);
    assert(ascii_bytes(part) == Some(digits@));
    let seq = match parse_unsigned(digits.as_slice(), 18446744073709551615) {
        Some(v) => v,
        None => {
            return Err(DmqError::InvalidSeq);
        },
    };
    let run = t.substring_char(0, i).to_string();
    assert(t@.subrange(0, i as int) =~= t@.take(i as int));
    Ok((run, seq))
}

proof fn lemma_find_char_found(cs: Seq<char>, c: char, from: int)
    ensures
        find_char(cs, c, from) matches Some(i) ==> from <= i < cs.len() && cs[i] == c,
    decreases cs.len() - from,
{
    if 0 <= from < cs.len() && cs[from] != c {
        lemma_find_char_found(cs, c, from + 1);
    }
}

/// The verdict of an audit.
#[derive(Debug, PartialEq, Eq)]
pub struct AuditReport {
    pub run_id: String,
    pub expected: usize,
    pub fetched_for_run: usize,
    pub missing: Vec<u64>,
    pub unexpected: Vec<u64>,
    pub committed_offset: u64,
}

impl AuditReport {
    /// A run passes when nothing acknowledged is missing, nothing unexpected was
    /// read, and as many were read as were acknowledged.
    pub fn ok(&self) -> (r: bool)
        ensures
            r == (self.missing@.len() == 0 && self.unexpected@.len() == 0 && self.expected == self.fetched_for_run),
    {
        self.missing.len() == 0 && self.unexpected.len() == 0 && self.expected == self.fetched_for_run
    }
}

// ---------------------------------------------------------------------------
// Command-line settings.

/// The settings of a stress run while its flags are read; text as characters.
pub struct StressDraft {
    pub topic_id: u16,
    pub partition_id: u16,
    pub run_id: Seq<char>,
    pub target_rps: u64,
    pub duration_secs: u64,
    pub warmup_secs: u64,
    pub workers: usize,
    pub payload_bytes: usize,
    pub producer_id: u64,
    pub ledger_path: Option<Seq<char>>,
}

/// The value after a flag.
pub open spec fn next_value(args: Seq<Seq<char>>, i: int, name: Seq<char>) -> Result<Seq<char>, Seq<char>> {
    if 0 <= i < args.len() {
        Ok(args[i])
    } else {
        Err("missing value for --"@ + name)
    }
}

/// The number after a flag, no larger than `max`.
pub open spec fn next_number(args: Seq<Seq<char>>, i: int, name: Seq<char>, max: nat) -> Result<nat, Seq<char>> {
    match next_value(args, i, name) {
        Ok(v) => match spec_parse_unsigned(encode_utf8(v), max) {
            Some(n) => Ok(n),
            None => Err("invalid --"@ + name),
        },
        Err(e) => Err(e),
    }
}

/// The duration after a flag, with the message used when it does not read.
pub open spec fn next_duration(args: Seq<Seq<char>>, i: int, name: Seq<char>, what: Seq<char>) -> Result<nat, Seq<char>> {
    match next_value(args, i, name) {
        Ok(v) => match spec_parse_duration(encode_utf8(v)) {
            Some(n) => Ok(n),
            None => Err(what + v),
        },
        Err(e) => Err(e),
    }
}

/// Reads the flags of a stress run from position `idx` on.
pub open spec fn stress_flags(args: Seq<Seq<char>>, idx: int, d: StressDraft) -> Result<StressDraft, Seq<char>>
    decreases args.len() - idx,
{
    if idx < 0 || idx >= args.len() {
        Ok(d)
    } else {
        let flag = args[idx];
        if flag == "--topic"@ {
            match next_number(args, idx + 1, "topic"@, u16::MAX as nat) {
                Ok(v) => stress_flags(args, idx + 2, StressDraft { topic_id: v as u16, ..d }),
                Err(e) => Err(e),
            }
        } else if flag == "--partition"@ {
            match next_number(args, idx + 1, "partition"@, u16::MAX as nat) {
                Ok(v) => stress_flags(args, idx + 2, StressDraft { partition_id: v as u16, ..d }),
                Err(e) => Err(e),
            }
        } else if flag == "--run-id"@ {
            match next_value(args, idx + 1, "run-id"@) {
                Ok(v) => stress_flags(args, idx + 2, StressDraft { run_id: v, ..d }),
                Err(e) => Err(e),
            }
        } else if flag == "--rps"@ {
            match next_number(args, idx + 1, "rps"@, u64::MAX as nat) {
                Ok(v) => stress_flags(args, idx + 2, StressDraft { target_rps: v as u64, ..d }),
                Err(e) => Err(e),
            }
        } else if flag == "--duration"@ {
            match next_duration(args, idx + 1, "duration"@, "invalid duration: "@) {
                Ok(v) => stress_flags(args, idx + 2, StressDraft { duration_secs: v as u64, ..d }),
                Err(e) => Err(e),
            }
        } else if flag == "--warmup"@ {
            match next_duration(args, idx + 1, "warmup"@, "invalid warmup: "@) {
                Ok(v) => stress_flags(args, idx + 2, StressDraft { warmup_secs: v as u64, ..d }),
                Err(e) => Err(e),
            }
        } else if flag == "--workers"@ {
            match next_number(args, idx + 1, "workers"@, usize::MAX as nat) {
                Ok(v) => stress_flags(args, idx + 2, StressDraft { workers: v as usize, ..d }),
                Err(e) => Err(e),
            }
        } else if flag == "--payload-bytes"@ {
            match next_number(args, idx + 1, "payload-bytes"@, usize::MAX as nat) {
                Ok(v) => stress_flags(args, idx + 2, StressDraft { payload_bytes: v as usize, ..d }),
                Err(e) => Err(e),
            }
        } else if flag == "--producer-id"@ {
            match next_number(args, idx + 1, "producer-id"@, u64::MAX as nat) {
                Ok(v) => stress_flags(args, idx + 2, StressDraft { producer_id: v as u64, ..d }),
                Err(e) => Err(e),
            }
        } else if flag == "--ledger"@ {
            match next_value(args, idx + 1, "ledger"@) {
                Ok(v) => stress_flags(args, idx + 2, StressDraft { ledger_path: Some(v), ..d }),
                Err(e) => Err(e),
            }
        } else {
            Err("unknown flag: "@ + flag)
        }
    }
}

/// The defaults of a stress run, with `run_id` as the run id.
pub open spec fn stress_defaults(run_id: Seq<char>) -> StressDraft {
    StressDraft {
        topic_id: 1,
        partition_id: 0,
        run_id,
        target_rps: 1000,
        duration_secs: 30,
        warmup_secs: 5,
        workers: 8,
        payload_bytes: 64,
        producer_id: 1,
        ledger_path: None,
    }
}

/// The settings of a stress run read from `args` (flags start at position 2),
/// or the message that refuses them.
pub open spec fn spec_stress_args(args: Seq<Seq<char>>, default_run_id: Seq<char>) -> Result<StressDraft, Seq<char>> {
    match stress_flags(args, 2, stress_defaults(default_run_id)) {
        Ok(d) => if d.workers == 0 {
            Err("workers must be >= 1"@)
        } else if d.payload_bytes < 16 {
            Err("payload-bytes must be >= 16"@)
        } else if d.payload_bytes > 240 {
            Err("payload-bytes must be <= 240 for v1 wire framing"@)
        } else {
            Ok(d)
        },
        Err(e) => Err(e),
    }
}

pub open spec fn args_view(args: Seq<String>) -> Seq<Seq<char>> {
    args.map_values(|s: String| s@)
}

impl StressConfig {
    pub open spec fn draft(&self) -> StressDraft {
        StressDraft {
            topic_id: self.topic_id,
            partition_id: self.partition_id,
            run_id: self.run_id@,
            target_rps: self.target_rps,
            duration_secs: self.duration_secs,
            warmup_secs: self.warmup_secs,
            workers: self.workers,
            payload_bytes: self.payload_bytes,
            producer_id: self.producer_id,
            ledger_path: match self.ledger_path {
                Some(p) => Some(p@),
                None => None,
            },
        }
    }
}

fn next_string(args: &[String], idx: usize, name: &str) -> (r: Result<String, String>)
    ensures
        match r {
            Ok(v) => next_value(args_view(args@), idx as int, name@) == Ok::<Seq<char>, Seq<char>>(v@),
            Err(e) => next_value(args_view(args@), idx as int, name@) == Err::<Seq<char>, Seq<char>>(e@),
        },
{
    if idx < args.len() {
        Ok(args[idx].clone())
    } else {
        let mut e = "missing value for --".to_string();
        e.append(name);
        Err(e)
    }
}

fn next_num(args: &[String], idx: usize, name: &str, max: u64) -> (r: Result<u64, String>)
    ensures
        match r {
            Ok(v) => next_number(args_view(args@), idx as int, name@, max as nat) == Ok::<nat, Seq<char>>(v as nat),
            Err(e) => next_number(args_view(args@), idx as int, name@, max as nat) == Err::<nat, Seq<char>>(e@),
        },
{
    let text = next_string(args, idx, name)?;
    match parse_unsigned(text.as_str().as_bytes(), max) {
        Some(v) => Ok(v),
        None => {
            let mut e = "invalid --".to_string();
            e.append(name);
            Err(e)
        },
    }
}

fn next_secs(args: &[String], idx: usize, name: &str, what: &str) -> (r: Result<u64, String>)
    ensures
        match r {
            Ok(v) => next_duration(args_view(args@), idx as int, name@, what@) == Ok::<nat, Seq<char>>(v as nat),
            Err(e) => next_duration(args_view(args@), idx as int, name@, what@) == Err::<nat, Seq<char>>(e@),
        },
{
    let text = next_string(args, idx, name)?;
    match parse_duration(text.as_str()) {
        Some(v) => Ok(v),
        None => {
            let mut e = what.to_string();
            e.append(text.as_str());
            Err(e)
        },
    }
}

fn flag_is(arg: &String, lit: &str) -> (r: bool)
    ensures
        r == (arg@ == lit@),
{
    *arg == lit.to_string()
}

/// Reads the settings of a stress run (see `spec_stress_args`), with
/// `default_run_id` as the run id unless a flag names one.
pub fn parse_stress_args_with(args: &[String], default_run_id: String) -> (r: Result<StressConfig, String>)
    ensures
        match r {
            Ok(c) => spec_stress_args(args_view(args@), default_run_id@) == Ok::<StressDraft, Seq<char>>(c.draft()),
            Err(e) => spec_stress_args(args_view(args@), default_run_id@) == Err::<StressDraft, Seq<char>>(e@),
        },
{
    let ghost av = args_view(args@);
    let mut cfg = StressConfig {
        topic_id: 1,
        partition_id: 0,
        run_id: default_run_id,
        target_rps: 1000,
        duration_secs: 30,
        warmup_secs: 5,
        workers: 8,
        payload_bytes: 64,
        producer_id: 1,
        ledger_path: None,
    };
    let mut idx: usize = 2;
    while idx < args.len()
        invariant
            av == args_view(args@),
            2 <= idx,
            stress_flags(av, 2, stress_defaults(default_run_id@)) == stress_flags(av, idx as int, cfg.draft()),
        decreases args@.len() - idx,
    {
        let arg = &args[idx];
        assert(av[idx as int] == arg@);
        let next = idx + 1;
        if flag_is(arg, "--topic") {
            let v = match next_num(args, next, "topic", 65535) {
                Ok(v) => v,
                Err(e) => {
                    return Err(e);
                },
            };
            cfg.topic_id = v as u16;
        } else if flag_is(arg, "--partition") {
            let v = match next_num(args, next, "partition", 65535) {
                Ok(v) => v,
                Err(e) => {
                    return Err(e);
                },
            };
            cfg.partition_id = v as u16;
        } else if flag_is(arg, "--run-id") {
            let v = match next_string(args, next, "run-id") {
                Ok(v) => v,
                Err(e) => {
                    return Err(e);
                },
            };
            cfg.run_id = v;
        } else if flag_is(arg, "--rps") {
            let v = match next_num(args, next, "rps", 18446744073709551615) {
                Ok(v) => v,
                Err(e) => {
                    return Err(e);
                },
            };
            cfg.target_rps = v;
        } else if flag_is(arg, "--duration") {
            let v = match next_secs(args, next, "duration", "invalid duration: ") {
                Ok(v) => v,
                Err(e) => {
                    return Err(e);
                },
            };
            cfg.duration_secs = v;
        } else if flag_is(arg, "--warmup") {
            let v = match next_secs(args, next, "warmup", "invalid warmup: ") {
                Ok(v) => v,
                Err(e) => {
                    return Err(e);
                },
            };
            cfg.warmup_secs = v;
        } else if flag_is(arg, "--workers") {
            let v = match next_num(args, next, "workers", usize::MAX as u64) {
                Ok(v) => v,
                Err(e) => {
                    return Err(e);
                },
            };
            cfg.workers = v as usize;
        } else if flag_is(arg, "--payload-bytes") {
            let v = match next_num(args, next, "payload-bytes", usize::MAX as u64) {
                Ok(v) => v,
                Err(e) => {
                    return Err(e);
                },
            };
            cfg.payload_bytes = v as usize;
        } else if flag_is(arg, "--producer-id") {
            let v = match next_num(args, next, "producer-id", 18446744073709551615) {
                Ok(v) => v,
                Err(e) => {
                    return Err(e);
                },
            };
            cfg.producer_id = v;
        } else if flag_is(arg, "--ledger") {
            let v = match next_string(args, next, "ledger") {
                Ok(v) => v,
                Err(e) => {
                    return Err(e);
                },
            };
            cfg.ledger_path = Some(v);
        } else {
            let mut e = "unknown flag: ".to_string();
            e.append(arg.as_str());
            return Err(e);
        }
        idx = if next < args.len() {
            next + 1
        } else {
            next
        };
    }
    assert(stress_flags(av, 2, stress_defaults(default_run_id@)) == Ok::<StressDraft, Seq<char>>(cfg.draft()));
    if cfg.workers == 0 {
        let e = "workers must be >= 1".to_string();
        assert(e@ == "workers must be >= 1"@);
        return Err(e);
    }
    if cfg.payload_bytes < 16 {
        let e = "payload-bytes must be >= 16".to_string();
        assert(e@ == "payload-bytes must be >= 16"@);
        return Err(e);
    }
    if cfg.payload_bytes > 240 {
        return Err("payload-bytes must be <= 240 for v1 wire framing".to_string());
    }
    Ok(cfg)
}

/// Reads the settings of a stress run (see `spec_stress_args`); the run id
/// defaults to the current Unix time in seconds.
pub fn parse_stress_args(args: &[String]) -> (r: Result<StressConfig, String>)
    ensures
        exists|secs: nat|
            #![trigger decimal(secs)]
            match r {
                Ok(c) => spec_stress_args(args_view(args@), decimal(secs)) == Ok::<StressDraft, Seq<char>>(c.draft()),
                Err(e) => spec_stress_args(args_view(args@), decimal(secs)) == Err::<StressDraft, Seq<char>>(e@),
            },
{
    let secs = now_ms() / 1000;
    let default_run_id = decimal_string(secs);
    let r = parse_stress_args_with(args, default_run_id);
    assert(match r {
        Ok(c) => spec_stress_args(args_view(args@), decimal(secs as nat)) == Ok::<StressDraft, Seq<char>>(c.draft()),
        Err(e) => spec_stress_args(args_view(args@), decimal(secs as nat)) == Err::<StressDraft, Seq<char>>(e@),
    });
    r
}

/// The settings of a verification pass while its flags are read.
pub struct VerifyDraft {
    pub topic_id: u16,
    pub partition_id: u16,
    pub run_id: Seq<char>,
    pub ledger_path: Option<Seq<char>>,
    pub group_id: u16,
}

pub open spec fn verify_flags(args: Seq<Seq<char>>, idx: int, d: VerifyDraft) -> Result<VerifyDraft, Seq<char>>
    decreases args.len() - idx,
{
    if idx < 0 || idx >= args.len() {
        Ok(d)
    } else {
        let flag = args[idx];
        if flag == "--topic"@ {
            match next_number(args, idx + 1, "topic"@, u16::MAX as nat) {
                Ok(v) => verify_flags(args, idx + 2, VerifyDraft { topic_id: v as u16, ..d }),
                Err(e) => Err(e),
            }
        } else if flag == "--partition"@ {
            match next_number(args, idx + 1, "partition"@, u16::MAX as nat) {
                Ok(v) => verify_flags(args, idx + 2, VerifyDraft { partition_id: v as u16, ..d }),
                Err(e) => Err(e),
            }
        } else if flag == "--run-id"@ {
            match next_value(args, idx + 1, "run-id"@) {
                Ok(v) => verify_flags(args, idx + 2, VerifyDraft { run_id: v, ..d }),
                Err(e) => Err(e),
            }
        } else if flag == "--ledger"@ {
            match next_value(args, idx + 1, "ledger"@) {
                Ok(v) => verify_flags(args, idx + 2, VerifyDraft { ledger_path: Some(v), ..d }),
                Err(e) => Err(e),
            }
        } else if flag == "--group"@ {
            match next_number(args, idx + 1, "group"@, u16::MAX as nat) {
                Ok(v) => verify_flags(args, idx + 2, VerifyDraft { group_id: v as u16, ..d }),
                Err(e) => Err(e),
            }
        } else {
            Err("unknown flag: "@ + flag)
        }
    }
}

/// The settings of a verification pass read from `args` (flags start at
/// position 2): a run id is required.
pub open spec fn spec_verify_args(args: Seq<Seq<char>>) -> Result<VerifyDraft, Seq<char>> {
    match verify_flags(
        args,
        2,
        VerifyDraft { topic_id: 1, partition_id: 0, run_id: Seq::empty(), ledger_path: None, group_id: 1 },
    ) {
        Ok(d) => if d.run_id.len() == 0 {
            Err("--run-id is required for verify"@)
        } else {
            Ok(d)
        },
        Err(e) => Err(e),
    }
}

impl VerifyConfig {
    pub open spec fn draft(&self) -> VerifyDraft {
        VerifyDraft {
            topic_id: self.topic_id,
            partition_id: self.partition_id,
            run_id: self.run_id@,
            ledger_path: match self.ledger_path {
                Some(p) => Some(p@),
                None => None,
            },
            group_id: self.group_id,
        }
    }
}

/// Reads the settings of a verification pass (see `spec_verify_args`).
pub fn parse_verify_args(args: &[String]) -> (r: Result<VerifyConfig, String>)
    ensures
        match r {
            Ok(c) => spec_verify_args(args_view(args@)) == Ok::<VerifyDraft, Seq<char>>(c.draft()),
            Err(e) => spec_verify_args(args_view(args@)) == Err::<VerifyDraft, Seq<char>>(e@),
        },
{
    let ghost av = args_view(args@);
    let mut cfg = VerifyConfig { topic_id: 1, partition_id: 0, run_id: String::new(), ledger_path: None, group_id: 1 };
    assert(cfg.draft() == VerifyDraft { topic_id: 1, partition_id: 0, run_id: Seq::empty(), ledger_path: None, group_id: 1 });
    let mut idx: usize = 2;
    while idx < args.len()
        invariant
            av == args_view(args@),
            2 <= idx,
            verify_flags(
                av,
                2,
                VerifyDraft { topic_id: 1, partition_id: 0, run_id: Seq::empty(), ledger_path: None, group_id: 1 },
            ) == verify_flags(av, idx as int, cfg.draft()),
        decreases args@.len() - idx,
    {
        let arg = &args[idx];
        assert(av[idx as int] == arg@);
        let next = idx + 1;
        if flag_is(arg, "--topic") {
            let v = match next_num(args, next, "topic", 65535) {
                Ok(v) => v,
                Err(e) => {
                    return Err(e);
                },
            };
            cfg.topic_id = v as u16;
        } else if flag_is(arg, "--partition") {
            let v = match next_num(args, next, "partition", 65535) {
                Ok(v) => v,
                Err(e) => {
                    return Err(e);
                },
            };
            cfg.partition_id = v as u16;
        } else if flag_is(arg, "--run-id") {
            let v = match next_string(args, next, "run-id") {
                Ok(v) => v,
                Err(e) => {
                    return Err(e);
                },
            };
            cfg.run_id = v;
        } else if flag_is(arg, "--ledger") {
            let v = match next_string(args, next, "ledger") {
                Ok(v) => v,
                Err(e) => {
                    return Err(e);
                },
            };
            cfg.ledger_path = Some(v);
        } else if flag_is(arg, "--group") {
            let v = match next_num(args, next, "group", 65535) {
                Ok(v) => v,
                Err(e) => {
                    return Err(e);
                },
            };
            cfg.group_id = v as u16;
        } else {
            let mut e = "unknown flag: ".to_string();
            e.append(arg.as_str());
            return Err(e);
        }
        idx = if next < args.len() {
            next + 1
        } else {
            next
        };
    }
    if cfg.run_id.as_str().unicode_len() == 0 {
        let e = "--run-id is required for verify".to_string();
        assert(e@ == "--run-id is required for verify"@);
        return Err(e);
    }
    Ok(cfg)
}

} // verus!
