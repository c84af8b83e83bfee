//! Big-endian integer encoding used by every binary format of the broker.

use vstd::prelude::*;

verus! {

/// The two big-endian bytes of `v`.
pub open spec fn be16(v: u16) -> Seq<u8> {
    seq![(v >> 8u16) as u8, (v & 0xffu16) as u8]
}

/// The four big-endian bytes of `v`.
pub open spec fn be32(v: u32) -> Seq<u8> {
    seq![(v >> 24u32) as u8, ((v >> 16u32) & 0xffu32) as u8, ((v >> 8u32) & 0xffu32) as u8, (v & 0xffu32) as u8]
}

/// The eight big-endian bytes of `v`.
pub open spec fn be64(v: u64) -> Seq<u8> {
    seq![
        (v >> 56u64) as u8,
        ((v >> 48u64) & 0xffu64) as u8,
        ((v >> 40u64) & 0xffu64) as u8,
        ((v >> 32u64) & 0xffu64) as u8,
        ((v >> 24u64) & 0xffu64) as u8,
        ((v >> 16u64) & 0xffu64) as u8,
        ((v >> 8u64) & 0xffu64) as u8,
        (v & 0xffu64) as u8,
    ]
}

pub open spec fn join16(b0: u8, b1: u8) -> u16 {
    ((b0 as u16) << 8u16) | (b1 as u16)
}

pub open spec fn join32(b0: u8, b1: u8, b2: u8, b3: u8) -> u32 {
    ((b0 as u32) << 24u32) | ((b1 as u32) << 16u32) | ((b2 as u32) << 8u32) | (b3 as u32)
}

pub open spec fn join64(b0: u8, b1: u8, b2: u8, b3: u8, b4: u8, b5: u8, b6: u8, b7: u8) -> u64 {
    ((b0 as u64) << 56u64) | ((b1 as u64) << 48u64) | ((b2 as u64) << 40u64) | ((b3 as u64) << 32u64)
        | ((b4 as u64) << 24u64) | ((b5 as u64) << 16u64) | ((b6 as u64) << 8u64) | (b7 as u64)
}

/// The big-endian `u16` stored at position `i` of `s`.
pub open spec fn u16_at(s: Seq<u8>, i: int) -> u16 {
    join16(s[i], s[i + 1])
}

/// The big-endian `u32` stored at position `i` of `s`.
pub open spec fn u32_at(s: Seq<u8>, i: int) -> u32 {
    join32(s[i], s[i + 1], s[i + 2], s[i + 3])
}

/// The big-endian `u64` stored at position `i` of `s`.
pub open spec fn u64_at(s: Seq<u8>, i: int) -> u64 {
    join64(s[i], s[i + 1], s[i + 2], s[i + 3], s[i + 4], s[i + 5], s[i + 6], s[i + 7])
}

/// Reading back the bytes of `be16(v)` gives `v`.
pub proof fn lemma_be16(v: u16)
    ensures
        join16(be16(v)[0], be16(v)[1]) == v,
{
    let b0 = (v >> 8u16) as u8;
    let b1 = (v & 0xffu16) as u8;
    assert(join16(b0, b1) == v) by (bit_vector)
        requires
            b0 == (v >> 8u16) as u8,
            b1 == (v & 0xffu16) as u8,
    ;
}

/// Reading back the bytes of `be32(v)` gives `v`.
pub proof fn lemma_be32(v: u32)
    ensures
        join32(be32(v)[0], be32(v)[1], be32(v)[2], be32(v)[3]) == v,
{
    let b0 = (v >> 24u32) as u8;
    let b1 = ((v >> 16u32) & 0xffu32) as u8;
    let b2 = ((v >> 8u32) & 0xffu32) as u8;
    let b3 = (v & 0xffu32) as u8;
    assert(join32(b0, b1, b2, b3) == v) by (bit_vector)
        requires
            b0 == (v >> 24u32) as u8,
            b1 == ((v >> 16u32) & 0xffu32) as u8,
            b2 == ((v >> 8u32) & 0xffu32) as u8,
            b3 == (v & 0xffu32) as u8,
    ;
}

/// Reading back the bytes of `be64(v)` gives `v`.
pub proof fn lemma_be64(v: u64)
    ensures
        join64(be64(v)[0], be64(v)[1], be64(v)[2], be64(v)[3], be64(v)[4], be64(v)[5], be64(v)[6], be64(v)[7]) == v,
{
    let b0 = (v >> 56u64) as u8;
    let b1 = ((v >> 48u64) & 0xffu64) as u8;
    let b2 = ((v >> 40u64) & 0xffu64) as u8;
    let b3 = ((v >> 32u64) & 0xffu64) as u8;
    let b4 = ((v >> 24u64) & 0xffu64) as u8;
    let b5 = ((v >> 16u64) & 0xffu64) as u8;
    let b6 = ((v >> 8u64) & 0xffu64) as u8;
    let b7 = (v & 0xffu64) as u8;
    assert(join64(b0, b1, b2, b3, b4, b5, b6, b7) == v) by (bit_vector)
        requires
            b0 == (v >> 56u64) as u8,
            b1 == ((v >> 48u64) & 0xffu64) as u8,
            b2 == ((v >> 40u64) & 0xffu64) as u8,
            b3 == ((v >> 32u64) & 0xffu64) as u8,
            b4 == ((v >> 24u64) & 0xffu64) as u8,
            b5 == ((v >> 16u64) & 0xffu64) as u8,
            b6 == ((v >> 8u64) & 0xffu64) as u8,
            b7 == (v & 0xffu64) as u8,
    ;
}

/// Encoding the value read from two bytes gives those bytes back.
pub proof fn lemma_join16(b0: u8, b1: u8)
    ensures
        be16(join16(b0, b1)) == seq![b0, b1],
{
    let v = join16(b0, b1);
    assert((v >> 8u16) as u8 == b0 && (v & 0xffu16) as u8 == b1) by (bit_vector)
        requires
            v == ((b0 as u16) << 8u16) | (b1 as u16),
    ;
    assert(be16(v) =~= seq![b0, b1]);
}

/// Encoding the value read from four bytes gives those bytes back.
pub proof fn lemma_join32(b0: u8, b1: u8, b2: u8, b3: u8)
    ensures
        be32(join32(b0, b1, b2, b3)) == seq![b0, b1, b2, b3],
{
    let v = join32(b0, b1, b2, b3);
    assert((v >> 24u32) as u8 == b0 && ((v >> 16u32) & 0xffu32) as u8 == b1
        && ((v >> 8u32) & 0xffu32) as u8 == b2 && (v & 0xffu32) as u8 == b3) by (bit_vector)
        requires
            v == ((b0 as u32) << 24u32) | ((b1 as u32) << 16u32) | ((b2 as u32) << 8u32) | (b3 as u32),
    ;
    assert(be32(v) =~= seq![b0, b1, b2, b3]);
}

/// Encoding the value read from eight bytes gives those bytes back.
pub proof fn lemma_join64(b0: u8, b1: u8, b2: u8, b3: u8, b4: u8, b5: u8, b6: u8, b7: u8)
    ensures
        be64(join64(b0, b1, b2, b3, b4, b5, b6, b7)) == seq![b0, b1, b2, b3, b4, b5, b6, b7],
{
    let v = join64(b0, b1, b2, b3, b4, b5, b6, b7);
    assert((v >> 56u64) as u8 == b0 && ((v >> 48u64) & 0xffu64) as u8 == b1
        && ((v >> 40u64) & 0xffu64) as u8 == b2 && ((v >> 32u64) & 0xffu64) as u8 == b3
        && ((v >> 24u64) & 0xffu64) as u8 == b4 && ((v >> 16u64) & 0xffu64) as u8 == b5
        && ((v >> 8u64) & 0xffu64) as u8 == b6 && (v & 0xffu64) as u8 == b7) by (bit_vector)
        requires
            v == ((b0 as u64) << 56u64) | ((b1 as u64) << 48u64) | ((b2 as u64) << 40u64) | ((b3 as u64) << 32u64)
                | ((b4 as u64) << 24u64) | ((b5 as u64) << 16u64) | ((b6 as u64) << 8u64) | (b7 as u64),
    ;
    assert(be64(v) =~= seq![b0, b1, b2, b3, b4, b5, b6, b7]);
}

/// A window of `p` that holds `be16(v)` reads back as `v`.
pub proof fn lemma_u16_window(p: Seq<u8>, o: int, v: u16)
    requires
        0 <= o,
        o + 2 <= p.len(),
        p.subrange(o, o + 2) == be16(v),
    ensures
        u16_at(p, o) == v,
{
    assert(p[o] == p.subrange(o, o + 2)[0]);
    assert(p[o + 1] == p.subrange(o, o + 2)[1]);
    lemma_be16(v);
}

/// A window of `p` that holds `be32(v)` reads back as `v`.
pub proof fn lemma_u32_window(p: Seq<u8>, o: int, v: u32)
    requires
        0 <= o,
        o + 4 <= p.len(),
        p.subrange(o, o + 4) == be32(v),
    ensures
        u32_at(p, o) == v,
{
    let w = p.subrange(o, o + 4);
    assert(p[o] == w[0] && p[o + 1] == w[1] && p[o + 2] == w[2] && p[o + 3] == w[3]);
    lemma_be32(v);
}

/// A window of `p` that holds `be64(v)` reads back as `v`.
pub proof fn lemma_u64_window(p: Seq<u8>, o: int, v: u64)
    requires
        0 <= o,
        o + 8 <= p.len(),
        p.subrange(o, o + 8) == be64(v),
    ensures
        u64_at(p, o) == v,
{
    let w = p.subrange(o, o + 8);
    assert(p[o] == w[0] && p[o + 1] == w[1] && p[o + 2] == w[2] && p[o + 3] == w[3]);
    assert(p[o + 4] == w[4] && p[o + 5] == w[5] && p[o + 6] == w[6] && p[o + 7] == w[7]);
    lemma_be64(v);
}

/// Appends the big-endian bytes of `v`.
pub fn put_u16(out: &mut Vec<u8>, v: u16)
    ensures
        final(out)@ == old(out)@ + be16(v),
{
    out.push((v >> 8) as u8);
    out.push((v & 0xff) as u8);
    assert(final(out)@ =~= old(out)@ + be16(v));
}

/// Appends the big-endian bytes of `v`.
pub fn put_u32(out: &mut Vec<u8>, v: u32)
    ensures
        final(out)@ == old(out)@ + be32(v),
{
    out.push((v >> 24) as u8);
    out.push(((v >> 16) & 0xff) as u8);
    out.push(((v >> 8) & 0xff) as u8);
    out.push((v & 0xff) as u8);
    assert(final(out)@ =~= old(out)@ + be32(v));
}

/// Appends the big-endian bytes of `v`.
pub fn put_u64(out: &mut Vec<u8>, v: u64)
    ensures
        final(out)@ == old(out)@ + be64(v),
{
    out.push((v >> 56) as u8);
    out.push(((v >> 48) & 0xff) as u8);
    out.push(((v >> 40) & 0xff) as u8);
    out.push(((v >> 32) & 0xff) as u8);
    out.push(((v >> 24) & 0xff) as u8);
    out.push(((v >> 16) & 0xff) as u8);
    out.push(((v >> 8) & 0xff) as u8);
    out.push((v & 0xff) as u8);
    assert(final(out)@ =~= old(out)@ + be64(v));
}

/// Appends all of `bytes`.
pub fn put_bytes(out: &mut Vec<u8>, bytes: &[u8])
    ensures
        final(out)@ == old(out)@ + bytes@,
{
    let ghost start = out@;
    let mut i: usize = 0;
    while i < bytes.len()
        invariant
            i <= bytes@.len(),
            out@ == start + bytes@.subrange(0, i as int),
        decreases bytes@.len() - i,
    {
        out.push(bytes[i]);
        i = i + 1;
        assert(out@ =~= start + bytes@.subrange(0, i as int));
    }
    assert(bytes@.subrange(0, i as int) =~= bytes@);
}

/// The bytes `b[start..end]` as a new vector.
pub fn copy_range(b: &[u8], start: usize, end: usize) -> (r: Vec<u8>)
    requires
        start <= end <= b@.len(),
    ensures
        r@ == b@.subrange(start as int, end as int),
{
    let mut r: Vec<u8> = Vec::with_capacity(end - start);
    let mut i: usize = start;
    while i < end
        invariant
            start <= i <= end <= b@.len(),
            r@ == b@.subrange(start as int, i as int),
        decreases end - i,
    {
        r.push(b[i]);
        i = i + 1;
        assert(r@ =~= b@.subrange(start as int, i as int));
    }
    r
}

/// All of `b` as a new vector.
pub fn to_vec(b: &[u8]) -> (r: Vec<u8>)
    ensures
        r@ == b@,
{
    let r = copy_range(b, 0, b.len());
    assert(r@ =~= b@);
    r
}

/// Reads the big-endian `u16` at position `i`.
pub fn get_u16(b: &[u8], i: usize) -> (r: u16)
    requires
        i + 2 <= b@.len(),
    ensures
        r == u16_at(b@, i as int),
{
    ((b[i] as u16) << 8) | (b[i + 1] as u16)
}

/// Reads the big-endian `u32` at position `i`.
pub fn get_u32(b: &[u8], i: usize) -> (r: u32)
    requires
        i + 4 <= b@.len(),
    ensures
        r == u32_at(b@, i as int),
{
    ((b[i] as u32) << 24) | ((b[i + 1] as u32) << 16) | ((b[i + 2] as u32) << 8) | (b[i + 3] as u32)
}

/// Reads the big-endian `u64` at position `i`.
pub fn get_u64(b: &[u8], i: usize) -> (r: u64)
    requires
        i + 8 <= b@.len(),
    ensures
        r == u64_at(b@, i as int),
{
    ((b[i] as u64) << 56) | ((b[i + 1] as u64) << 48) | ((b[i + 2] as u64) << 40) | ((b[i + 3] as u64)
        << 32) | ((b[i + 4] as u64) << 24) | ((b[i + 5] as u64) << 16) | ((b[i + 6] as u64) << 8) | (b[i
        + 7] as u64)
}

} // verus!
