//! The on-disk form of the small metadata files: id lists (a `u32` count, then
//! that many `u16` ids), partition counts (`u32`) and committed offsets (`u64`).

use crate::error::DmqError;
use crate::message::be16_all;
use crate::cluster::lemma_be16_all_len;
use crate::wire::{
    be16, be32, be64, get_u16, get_u32, get_u64, lemma_u16_window, lemma_u32_window, put_u16, put_u32, put_u64, u16_at,
    u32_at, u64_at,
};
use vstd::prelude::*;

verus! {

/// The stored form of an id list.
pub open spec fn id_list_bytes(ids: Seq<u16>) -> Seq<u8> {
    be32(ids.len() as u32) + be16_all(ids)
}

/// Encodes an id list (a broker's topics, a topic's groups).
pub fn encode_id_list(ids: &[u16]) -> (out: Vec<u8>)
    ensures
        out@ == id_list_bytes(ids@),
{
    let mut out: Vec<u8> = Vec::new();
    put_u32(&mut out, ids.len() as u32);
    let ghost head = out@;
    let mut i: usize = 0;
    while i < ids.len()
        invariant
            i <= ids@.len(),
            out@ == head + be16_all(ids@.subrange(0, i as int)),
        decreases ids@.len() - i,
    {
        put_u16(&mut out, ids[i]);
        assert(ids@.subrange(0, i + 1).drop_last() =~= ids@.subrange(0, i as int));
        i = i + 1;
        assert(out@ =~= head + be16_all(ids@.subrange(0, i as int)));
    }
    assert(ids@.subrange(0, i as int) =~= ids@);
    out
}

/// What a stored id list holds: the count, then the ids after it; bytes past
/// the last id are ignored, and too few bytes are refused.
pub open spec fn stored_ids(b: Seq<u8>) -> Result<Seq<u16>, DmqError> {
    if b.len() < 4 || b.len() < 4 + 2 * (u32_at(b, 0) as int) {
        Err(DmqError::ShortBuffer)
    } else {
        Ok(Seq::new(u32_at(b, 0) as nat, |i: int| u16_at(b, 4 + 2 * i)))
    }
}

/// Decodes a stored id list (see `stored_ids`).
pub fn decode_id_list(bytes: &[u8]) -> (r: Result<Vec<u16>, DmqError>)
    ensures
        match r {
            Ok(v) => stored_ids(bytes@) == Ok::<Seq<u16>, DmqError>(v@),
            Err(e) => stored_ids(bytes@) == Err::<Seq<u16>, DmqError>(e),
        },
{
    if bytes.len() < 4 {
        return Err(DmqError::ShortBuffer);
    }
    let count = get_u32(bytes, 0) as usize;
    if (bytes.len() - 4) / 2 < count {
        return Err(DmqError::ShortBuffer);
    }
    assert(4 + 2 * count <= bytes.len()) by (nonlinear_arith)
        requires
            (bytes.len() - 4) / 2 >= count,
            bytes.len() >= 4,
    ;
    let mut ids: Vec<u16> = Vec::new();
    let mut i: usize = 0;
    while i < count
        invariant
            i <= count,
            count == u32_at(bytes@, 0),
            4 + 2 * count <= bytes@.len(),
            ids@ == Seq::new(i as nat, |k: int| u16_at(bytes@, 4 + 2 * k)),
        decreases count - i,
    {
        assert(4 + 2 * i + 2 <= bytes.len()) by (nonlinear_arith)
            requires
                i < count,
                4 + 2 * count <= bytes.len(),
        ;
        ids.push(get_u16(bytes, 4 + 2 * i));
        i = i + 1;
        assert(ids@ =~= Seq::new(i as nat, |k: int| u16_at(bytes@, 4 + 2 * k)));
    }
    Ok(ids)
}

/// Decodes a stored partition count: the `u32` at the start.
pub fn decode_u32_value(bytes: &[u8]) -> (r: Result<u32, DmqError>)
    ensures
        r == if bytes@.len() < 4 {
            Err::<u32, DmqError>(DmqError::ShortBuffer)
        } else {
            Ok(u32_at(bytes@, 0))
        },
{
    if bytes.len() < 4 {
        return Err(DmqError::ShortBuffer);
    }
    Ok(get_u32(bytes, 0))
}

/// Decodes a stored committed offset: the `u64` at the start.
pub fn decode_u64_value(bytes: &[u8]) -> (r: Result<u64, DmqError>)
    ensures
        r == if bytes@.len() < 8 {
            Err::<u64, DmqError>(DmqError::ShortBuffer)
        } else {
            Ok(u64_at(bytes@, 0))
        },
{
    if bytes.len() < 8 {
        return Err(DmqError::ShortBuffer);
    }
    Ok(get_u64(bytes, 0))
}

/// Encodes a partition count.
pub fn encode_u32_value(v: u32) -> (out: Vec<u8>)
    ensures
        out@ == be32(v),
{
    let mut out: Vec<u8> = Vec::new();
    put_u32(&mut out, v);
    assert(out@ =~= be32(v));
    out
}

/// Encodes a committed offset.
pub fn encode_u64_value(v: u64) -> (out: Vec<u8>)
    ensures
        out@ == be64(v),
{
    let mut out: Vec<u8> = Vec::new();
    put_u64(&mut out, v);
    assert(out@ =~= be64(v));
    out
}

pub(crate) proof fn lemma_be16_all_at(vs: Seq<u16>, i: int)
    requires
        0 <= i < vs.len(),
    ensures
        be16_all(vs).subrange(2 * i, 2 * i + 2) == be16(vs[i]),
    decreases vs.len(),
{
    let init = vs.drop_last();
    lemma_be16_all_len(init);
    if i < vs.len() - 1 {
        lemma_be16_all_at(init, i);
        assert(be16_all(vs).subrange(2 * i, 2 * i + 2) =~= be16_all(init).subrange(2 * i, 2 * i + 2));
    } else {
        assert(be16_all(vs).subrange(2 * i, 2 * i + 2) =~= be16(vs.last()));
    }
}

/// A stored id list reads back as written.
pub proof fn lemma_id_list_roundtrip(ids: Seq<u16>)
    requires
        ids.len() <= u32::MAX,
    ensures
        stored_ids(id_list_bytes(ids)) == Ok::<Seq<u16>, DmqError>(ids),
{
    let b = id_list_bytes(ids);
    let n = ids.len() as u32;
    lemma_be16_all_len(ids);
    assert(b.subrange(0, 4) =~= be32(n));
    lemma_u32_window(b, 0, n);
    assert forall|i: int| 0 <= i < ids.len() implies u16_at(b, 4 + 2 * i) == ids[i] by {
        lemma_be16_all_at(ids, i);
        assert(b.subrange(4 + 2 * i, 4 + 2 * i + 2) =~= be16_all(ids).subrange(2 * i, 2 * i + 2));
        lemma_u16_window(b, 4 + 2 * i, ids[i]);
    }
    assert(Seq::new(n as nat, |i: int| u16_at(b, 4 + 2 * i)) =~= ids);
}

} // verus!
