//! Request size limits for produce and fetch backpressure.

use crate::error::DmqError;
use vstd::prelude::*;

verus! {

/// The largest produce payload accepted when no limit is configured.
pub const DEFAULT_MAX_PAYLOAD_BYTES: usize = 255;

/// The largest fetch budget granted when no limit is configured.
pub const DEFAULT_MAX_FETCH_BYTES: u32 = 65536;

/// The configured payload limit, or the default.
pub fn max_payload_bytes(configured: Option<usize>) -> (m: usize)
    ensures
        m == match configured {
            Some(v) => v,
            None => DEFAULT_MAX_PAYLOAD_BYTES,
        },
{
    match configured {
        Some(v) => v,
        None => DEFAULT_MAX_PAYLOAD_BYTES,
    }
}

/// The configured fetch limit, or the default.
pub fn max_fetch_bytes(configured: Option<u32>) -> (m: u32)
    ensures
        m == match configured {
            Some(v) => v,
            None => DEFAULT_MAX_FETCH_BYTES,
        },
{
    match configured {
        Some(v) => v,
        None => DEFAULT_MAX_FETCH_BYTES,
    }
}

/// Refuses a produce payload longer than `max` bytes.
pub fn validate_produce_payload(len: usize, max: usize) -> (r: Result<(), DmqError>)
    ensures
        r == if len > max {
            Err::<(), DmqError>(DmqError::PayloadTooLarge { len: len as u64, max: max as u64 })
        } else {
            Ok(())
        },
{
    if len > max {
        return Err(DmqError::PayloadTooLarge { len: len as u64, max: max as u64 });
    }
    Ok(())
}

/// Caps a requested fetch budget at `max`.
pub fn clamp_fetch_bytes(requested: u32, max: u32) -> (r: u32)
    ensures
        r == if requested < max {
            requested
        } else {
            max
        },
{
    if requested < max {
        requested
    } else {
        max
    }
}

} // verus!
