//! Optional bearer-token authentication on the protocol handshake.

use crate::error::DmqError;
use crate::text::{bytes_eq, lossy_string, lossy_text};
use vstd::prelude::*;

verus! {

/// Checks a presented token against the configured one. With no token
/// configured, everything is accepted.
pub fn validate_token(token: &[u8], expected: Option<&[u8]>) -> (r: Result<(), DmqError>)
    ensures
        r == match expected {
            None => Ok::<(), DmqError>(()),
            Some(e) => if token@ == e@ {
                Ok(())
            } else {
                Err(DmqError::InvalidToken)
            },
        },
{
    match expected {
        None => Ok(()),
        Some(e) => {
            if bytes_eq(token, e) {
                Ok(())
            } else {
                Err(DmqError::InvalidToken)
            }
        },
    }
}

/// The principal a token stands for: `anonymous` for an empty token, else the
/// token read as text (invalid UTF-8 replaced).
pub fn principal_from_token(token: &[u8]) -> (p: String)
    ensures
        token@.len() == 0 ==> p@ == "anonymous"@,
        token@.len() > 0 ==> p@ == lossy_text(token@),
{
    if token.len() == 0 {
        "anonymous".to_string()
    } else {
        lossy_string(token)
    }
}

} // verus!
