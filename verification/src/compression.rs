//! Payload compression for fetch batches (LZ4 blocks).
//!
//! A wrapped batch is one codec byte followed by the payload, as is or as an LZ4
//! block. A compressed block is only used when it is shorter than the payload.

use crate::error::DmqError;
use crate::text::{bytes_eq, bytes_eq_ignore_case, eq_ignore_case};
use crate::wire::{put_bytes, to_vec};
use vstd::prelude::*;

verus! {

pub const CODEC_NONE: u8 = 0;

pub const CODEC_LZ4: u8 = 1;

#[verifier::external_type_specification]
#[verifier::external_body]
pub struct ExDecompressError(lz4_flex::block::DecompressError);

/// The LZ4 block that `lz4_flex::compress` makes of some bytes.
pub uninterp spec fn lz4_block(data: Seq<u8>) -> Seq<u8>;

/// What `lz4_flex::decompress` makes of a block when given room for `capacity`
/// bytes: the decoded bytes, or nothing if the block is malformed or decodes to
/// more than that.
pub uninterp spec fn lz4_decoded(data: Seq<u8>, capacity: nat) -> Option<Seq<u8>>;

/// Calls `lz4_flex::compress`; its result is named `lz4_block`.
#[verifier::external_body]
fn lz4_compress(data: &[u8]) -> (r: Vec<u8>)
    ensures
        r@ == lz4_block(data@),
{
    lz4_flex::compress(data)
}

/// Calls `lz4_flex::decompress` (its safe decoder, which reports an output that
/// does not fit as an error). The outcome is named `lz4_decoded`. The crate's
/// documentation promises that a block made by `compress` decodes back to its
/// input when the room given is at least the input's length, which the last
/// clause states.
#[verifier::external_body]
fn lz4_decompress(data: &[u8], capacity: usize) -> (r: Result<Vec<u8>, lz4_flex::block::DecompressError>)
    ensures
        match r {
            Ok(v) => lz4_decoded(data@, capacity as nat) == Some(v@),
            Err(_) => lz4_decoded(data@, capacity as nat) is None,
        },
        r matches Ok(v) ==> forall|orig: Seq<u8>| #[trigger] lz4_block(orig) == data@ && orig.len() <= capacity ==> v@ == orig,
        r is Err ==> forall|orig: Seq<u8>| #[trigger] lz4_block(orig) == data@ ==> orig.len() > capacity,
{
    lz4_flex::decompress(data, capacity)
}

/// Whether a compression setting turns compression on: `1`, or `true` or `lz4`
/// in any case.
pub open spec fn setting_enables_compression(value: Seq<u8>) -> bool {
    value == seq![49u8] || eq_ignore_case(value, seq![116u8, 114u8, 117u8, 101u8]) || eq_ignore_case(
        value,
        seq![108u8, 122u8, 52u8],
    )
}

/// Reads the compression setting (absent means off).
pub fn compression_enabled(setting: Option<&[u8]>) -> (r: bool)
    ensures
        r == match setting {
            Some(v) => setting_enables_compression(v@),
            None => false,
        },
{
    match setting {
        Some(v) => {
            let one: [u8; 1] = [49u8];
            let t: [u8; 4] = [116u8, 114u8, 117u8, 101u8];
            let lz: [u8; 3] = [108u8, 122u8, 52u8];
            assert(one@ =~= seq![49u8]);
            assert(t@ =~= seq![116u8, 114u8, 117u8, 101u8]);
            assert(lz@ =~= seq![108u8, 122u8, 52u8]);
            bytes_eq(v, one.as_slice()) || bytes_eq_ignore_case(v, t.as_slice()) || bytes_eq_ignore_case(v, lz.as_slice())
        },
        None => false,
    }
}

/// The codec new batches are written with.
pub fn preferred_codec(compression_on: bool) -> (c: u8)
    ensures
        c == if compression_on {
            CODEC_LZ4
        } else {
            CODEC_NONE
        },
{
    if compression_on {
        CODEC_LZ4
    } else {
        CODEC_NONE
    }
}

/// Compresses bytes into an LZ4 block.
pub fn compress(data: &[u8]) -> (r: Result<Vec<u8>, DmqError>)
    ensures
        r matches Ok(v) && v@ == lz4_block(data@),
{
    Ok(lz4_compress(data))
}

/// Decompresses an LZ4 block, allowing eight times its size.
pub fn decompress(data: &[u8]) -> (r: Result<Vec<u8>, DmqError>)
    requires
        data@.len() * 8 <= usize::MAX,
    ensures
        match r {
            Ok(v) => lz4_decoded(data@, data@.len() * 8) == Some(v@),
            Err(e) => e == DmqError::Decompress && lz4_decoded(data@, data@.len() * 8) is None,
        },
        r matches Ok(v) ==> forall|orig: Seq<u8>| #[trigger] lz4_block(orig) == data@ && orig.len() <= data@.len() * 8 ==> v@ == orig,
        r is Err ==> forall|orig: Seq<u8>| #[trigger] lz4_block(orig) == data@ ==> orig.len() > data@.len() * 8,
{
    match lz4_decompress(data, data.len() * 8) {
        Ok(v) => Ok(v),
        Err(_) => Err(DmqError::Decompress),
    }
}

/// The wrapped form of a payload under a codec: the codec byte and the payload,
/// or, for LZ4 when the block is shorter, the LZ4 codec byte and the block.
pub open spec fn spec_wrap(codec: u8, payload: Seq<u8>) -> Result<Seq<u8>, DmqError> {
    if codec == CODEC_NONE {
        Ok(seq![CODEC_NONE] + payload)
    } else if codec == CODEC_LZ4 {
        if lz4_block(payload).len() >= payload.len() {
            Ok(seq![CODEC_NONE] + payload)
        } else {
            Ok(seq![CODEC_LZ4] + lz4_block(payload))
        }
    } else {
        Err(DmqError::UnknownCodec(codec))
    }
}

/// What unwrapping gives: the payload as is, the decoded LZ4 block (with room for
/// eight times the block's size), or an error.
pub open spec fn spec_unwrap(bytes: Seq<u8>) -> Result<Seq<u8>, DmqError> {
    if bytes.len() == 0 {
        Err(DmqError::EmptyBatch)
    } else if bytes[0] == CODEC_NONE {
        Ok(bytes.drop_first())
    } else if bytes[0] == CODEC_LZ4 {
        match lz4_decoded(bytes.drop_first(), ((bytes.len() - 1) * 8) as nat) {
            Some(v) => Ok(v),
            None => Err(DmqError::Decompress),
        }
    } else {
        Err(DmqError::UnknownCodec(bytes[0]))
    }
}

/// Wraps a payload under `codec` (see `spec_wrap`).
pub fn wrap_batch(codec: u8, payload: &[u8]) -> (r: Result<Vec<u8>, DmqError>)
    ensures
        match r {
            Ok(v) => spec_wrap(codec, payload@) == Ok::<Seq<u8>, DmqError>(v@),
            Err(e) => spec_wrap(codec, payload@) == Err::<Seq<u8>, DmqError>(e),
        },
{
    if codec == CODEC_NONE {
        let mut out: Vec<u8> = Vec::new();
        out.push(CODEC_NONE);
        put_bytes(&mut out, payload);
        return Ok(out);
    }
    if codec == CODEC_LZ4 {
        let compressed = compress(payload)?;
        if compressed.len() >= payload.len() {
            let mut out: Vec<u8> = Vec::new();
            out.push(CODEC_NONE);
            put_bytes(&mut out, payload);
            return Ok(out);
        }
        let mut out: Vec<u8> = Vec::with_capacity(1 + compressed.len());
        out.push(CODEC_LZ4);
        put_bytes(&mut out, compressed.as_slice());
        return Ok(out);
    }
    Err(DmqError::UnknownCodec(codec))
}

/// Unwraps a batch (see `spec_unwrap`). A batch wrapped from `orig` with a known
/// codec gives `orig` back, provided `orig` is no more than eight times as long
/// as its LZ4 block when that block was used.
pub fn unwrap_batch(bytes: &[u8]) -> (r: Result<Vec<u8>, DmqError>)
    requires
        bytes@.len() * 8 <= usize::MAX,
    ensures
        match r {
            Ok(v) => spec_unwrap(bytes@) == Ok::<Seq<u8>, DmqError>(v@),
            Err(e) => spec_unwrap(bytes@) == Err::<Seq<u8>, DmqError>(e),
        },
        forall|codec: u8, orig: Seq<u8>|
            #![trigger spec_wrap(codec, orig)]
            spec_wrap(codec, orig) == Ok::<Seq<u8>, DmqError>(bytes@) && (codec == CODEC_LZ4 && lz4_block(orig).len()
                < orig.len() ==> orig.len() <= lz4_block(orig).len() * 8) ==> (r matches Ok(v) && v@ == orig),
{
    if bytes.len() == 0 {
        return Err(DmqError::EmptyBatch);
    }
    let (_, rest) = bytes.split_at(1);
    assert(rest@ =~= bytes@.drop_first());
    if bytes[0] == CODEC_NONE {
        let out = to_vec(rest);
        proof {
            assert forall|codec: u8, orig: Seq<u8>|
                #![trigger spec_wrap(codec, orig)]
                spec_wrap(codec, orig) == Ok::<Seq<u8>, DmqError>(bytes@) implies out@ == orig by {
                assert((seq![CODEC_NONE] + orig).drop_first() =~= orig);
            }
        }
        return Ok(out);
    }
    if bytes[0] == CODEC_LZ4 {
        let r = decompress(rest);
        proof {
            assert forall|codec: u8, orig: Seq<u8>|
                #![trigger spec_wrap(codec, orig)]
                spec_wrap(codec, orig) == Ok::<Seq<u8>, DmqError>(bytes@) && (codec == CODEC_LZ4 && lz4_block(orig).len()
                    < orig.len() ==> orig.len() <= lz4_block(orig).len() * 8) implies (r matches Ok(v) && v@ == orig) by {
                assert((seq![CODEC_LZ4] + lz4_block(orig)).drop_first() =~= lz4_block(orig));
                assert(rest@ == lz4_block(orig));
            }
        }
        return r;
    }
    Err(DmqError::UnknownCodec(bytes[0]))
}

} // verus!
