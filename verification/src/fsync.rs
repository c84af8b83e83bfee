//! The fsync policy for partition log durability.

use crate::text::{ascii_lower, bytes_eq, lower_byte, parse_unsigned, spec_parse_unsigned};
use vstd::prelude::*;

verus! {

#[derive(Debug, Clone, Copy, PartialEq, Eq)]
pub enum FsyncPolicy {
    Always,
    Never,
    EveryN(u32),
}

pub open spec fn lowercase(s: Seq<u8>) -> Seq<u8> {
    s.map_values(|b: u8| ascii_lower(b))
}

/// `n`, or 10 when the text is not a `u32`, and at least 1.
pub open spec fn every_count(text: Seq<u8>) -> u32 {
    let n: u32 = match spec_parse_unsigned(text, u32::MAX as nat) {
        Some(v) => v as u32,
        None => 10,
    };
    if n < 1 {
        1
    } else {
        n
    }
}

/// The policy a setting names (lower-cased first): `never`, `none` and `0` turn
/// syncing off, `always` and `1` sync every append, `every:N` and a bare number
/// `N` sync every N appends; an absent or unknown setting syncs always.
pub open spec fn spec_fsync_policy(setting: Option<Seq<u8>>) -> FsyncPolicy {
    match setting {
        None => FsyncPolicy::Always,
        Some(raw) => {
            let s = lowercase(raw);
            if s == seq![110u8, 101u8, 118u8, 101u8, 114u8] || s == seq![110u8, 111u8, 110u8, 101u8] || s == seq![48u8] {
                FsyncPolicy::Never
            } else if s == seq![97u8, 108u8, 119u8, 97u8, 121u8, 115u8] || s == seq![49u8] {
                FsyncPolicy::Always
            } else if s.len() >= 6 && s.take(6) == seq![101u8, 118u8, 101u8, 114u8, 121u8, 58u8] {
                FsyncPolicy::EveryN(every_count(s.skip(6)))
            } else if spec_parse_unsigned(s, u32::MAX as nat) is Some {
                FsyncPolicy::EveryN(every_count(s))
            } else {
                FsyncPolicy::Always
            }
        },
    }
}

fn lowercase_bytes(s: &[u8]) -> (r: Vec<u8>)
    ensures
        r@ == lowercase(s@),
{
    let mut r: Vec<u8> = Vec::new();
    let mut i: usize = 0;
    while i < s.len()
        invariant
            i <= s@.len(),
            r@ == lowercase(s@.take(i as int)),
        decreases s@.len() - i,
    {
        r.push(lower_byte(s[i]));
        i = i + 1;
        assert(r@ =~= lowercase(s@.take(i as int)));
    }
    assert(s@.take(i as int) =~= s@);
    r
}

fn every_count_of(text: &[u8]) -> (n: u32)
    ensures
        n == every_count(text@),
{
    let n: u32 = match parse_unsigned(text, 4294967295) {
        Some(v) => v as u32,
        None => 10,
    };
    if n < 1 {
        1
    } else {
        n
    }
}

/// Reads the fsync setting (see `spec_fsync_policy`).
pub fn fsync_policy(setting: Option<&[u8]>) -> (p: FsyncPolicy)
    ensures
        p == spec_fsync_policy(match setting {
            Some(v) => Some(v@),
            None => None,
        }),
{
    let raw = match setting {
        None => {
            return FsyncPolicy::Always;
        },
        Some(v) => v,
    };
    let s = lowercase_bytes(raw);
    let never: [u8; 5] = [110u8, 101u8, 118u8, 101u8, 114u8];
    let none: [u8; 4] = [110u8, 111u8, 110u8, 101u8];
    let zero: [u8; 1] = [48u8];
    let always: [u8; 6] = [97u8, 108u8, 119u8, 97u8, 121u8, 115u8];
    let one: [u8; 1] = [49u8];
    let every: [u8; 6] = [101u8, 118u8, 101u8, 114u8, 121u8, 58u8];
    assert(never@ =~= seq![110u8, 101u8, 118u8, 101u8, 114u8]);
    assert(none@ =~= seq![110u8, 111u8, 110u8, 101u8]);
    assert(zero@ =~= seq![48u8]);
    assert(always@ =~= seq![97u8, 108u8, 119u8, 97u8, 121u8, 115u8]);
    assert(one@ =~= seq![49u8]);
    assert(every@ =~= seq![101u8, 118u8, 101u8, 114u8, 121u8, 58u8]);
    if bytes_eq(s.as_slice(), never.as_slice()) || bytes_eq(s.as_slice(), none.as_slice()) || bytes_eq(
        s.as_slice(),
        zero.as_slice(),
    ) {
        return FsyncPolicy::Never;
    }
    if bytes_eq(s.as_slice(), always.as_slice()) || bytes_eq(s.as_slice(), one.as_slice()) {
        return FsyncPolicy::Always;
    }
    if s.len() >= 6 {
        let (head, tail) = s.as_slice().split_at(6);
        assert(head@ =~= s@.take(6));
        assert(tail@ =~= s@.skip(6));
        if bytes_eq(head, every.as_slice()) {
            return FsyncPolicy::EveryN(every_count_of(tail));
        }
    }
    match parse_unsigned(s.as_slice(), 4294967295) {
        Some(_) => FsyncPolicy::EveryN(every_count_of(s.as_slice())),
        None => FsyncPolicy::Always,
    }
}

/// Whether the append counted as `counter` (counting from 0) is synced.
pub open spec fn spec_should_fsync(policy: FsyncPolicy, counter: u32) -> bool {
    match policy {
        FsyncPolicy::Always => true,
        FsyncPolicy::Never => false,
        FsyncPolicy::EveryN(n) => if n == 0 {
            counter == 0
        } else {
            counter % n == 0
        },
    }
}

/// Decides whether to sync after an append, given how many appends came before.
pub fn should_fsync_after_append(policy: FsyncPolicy, counter: u32) -> (r: bool)
    ensures
        r == spec_should_fsync(policy, counter),
{
    match policy {
        FsyncPolicy::Always => true,
        FsyncPolicy::Never => false,
        FsyncPolicy::EveryN(n) => if n == 0 {
            counter == 0
        } else {
            counter % n == 0
        },
    }
}

} // verus!
