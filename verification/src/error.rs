//! Error values returned by the broker library.

use vstd::prelude::*;

verus! {

/// Coarse classification of an error, mirroring the categories of `std::io::ErrorKind`
/// that the broker reports.
#[derive(Debug, Clone, Copy, PartialEq, Eq)]
pub enum ErrorKind {
    InvalidData,
    InvalidInput,
    UnexpectedEof,
    PermissionDenied,
    Other,
}

/// Every way an operation of the library can fail.
#[derive(Debug, Clone, Copy, PartialEq, Eq)]
pub enum DmqError {
    /// A frame body with no message-type byte.
    EmptyFrame,
    /// The payload of the message with this type byte is shorter than its fixed header.
    PayloadTooShort(u8),
    /// A length field inside the payload of the message with this type byte runs past its end.
    PayloadTruncated(u8),
    /// A frame whose type byte names no message.
    UnknownMessageType(u8),
    /// A binary record ended before a field could be read.
    ShortBuffer,
    /// Bytes that were expected to hold UTF-8 text do not.
    InvalidUtf8,
    /// Persisted cluster state does not start with the expected magic bytes.
    BadMagic,
    /// A cluster-info payload names a format version that is not understood.
    UnsupportedClusterInfoVersion(u8),
    /// A v1 frame whose length byte is zero.
    EmptyV1Frame,
    /// An extended frame marker followed by an unknown format byte.
    UnsupportedFrameMarker(u8),
    /// A v2 frame body shorter than its header.
    FrameTooShort,
    /// A v2 frame body whose version byte is not 2.
    UnsupportedFrameVersion(u8),
    /// A compressed batch with no codec byte.
    EmptyBatch,
    /// A compressed batch whose codec byte is not known.
    UnknownCodec(u8),
    /// The LZ4 block could not be decompressed.
    Decompress,
    /// A fetch batch shorter than its record count.
    BatchTooShort,
    /// A fetch batch record whose header runs past the end.
    TruncatedRecordHeader,
    /// A fetch batch record whose payload runs past the end.
    TruncatedRecordPayload,
    /// A produce payload longer than the configured limit.
    PayloadTooLarge { len: u64, max: u64 },
    /// An idempotent produce sequence older than the last one accepted.
    SequenceBehind { sequence: u64, last: u64 },
    /// An idempotent produce sequence that skips ahead.
    SequenceGap { expected: u64, got: u64 },
    /// The first idempotent produce of a producer did not use sequence 0.
    FirstSequenceNotZero,
    /// The ACL refuses the operation.
    AclDenied,
    /// The presented authentication token does not match.
    InvalidToken,
    /// The broker is not a replica of the partition.
    NotReplica,
    /// A stress payload without the `:` that ends its run id.
    MissingRunId,
    /// A stress payload without the `:` that ends its sequence number.
    MissingSeq,
    /// A stress payload whose sequence number is not a `u64`.
    InvalidSeq,
    /// A replicated record does not continue the local log.
    ReplicaGap { expected: u64, got: u64 },
    /// A consumer group holds as many members as can be counted.
    GroupFull,
    /// A stored topic does not read back as a topic.
    CorruptTopic,
}

impl DmqError {
    pub open spec fn spec_kind(&self) -> ErrorKind {
        match self {
            DmqError::ShortBuffer => ErrorKind::UnexpectedEof,
            DmqError::PayloadTooLarge { .. } => ErrorKind::InvalidInput,
            DmqError::SequenceBehind { .. } => ErrorKind::InvalidInput,
            DmqError::SequenceGap { .. } => ErrorKind::InvalidInput,
            DmqError::FirstSequenceNotZero => ErrorKind::InvalidInput,
            DmqError::AclDenied => ErrorKind::PermissionDenied,
            DmqError::InvalidToken => ErrorKind::PermissionDenied,
            DmqError::NotReplica => ErrorKind::PermissionDenied,
            _ => ErrorKind::InvalidData,
        }
    }

    /// The category of this error.
    #[verifier::when_used_as_spec(spec_kind)]
    pub fn kind(&self) -> (k: ErrorKind)
        ensures
            k == self.spec_kind(),
    {
        match self {
            DmqError::ShortBuffer => ErrorKind::UnexpectedEof,
            DmqError::PayloadTooLarge { .. } => ErrorKind::InvalidInput,
            DmqError::SequenceBehind { .. } => ErrorKind::InvalidInput,
            DmqError::SequenceGap { .. } => ErrorKind::InvalidInput,
            DmqError::FirstSequenceNotZero => ErrorKind::InvalidInput,
            DmqError::AclDenied => ErrorKind::PermissionDenied,
            DmqError::InvalidToken => ErrorKind::PermissionDenied,
            DmqError::NotReplica => ErrorKind::PermissionDenied,
            _ => ErrorKind::InvalidData,
        }
    }
}

} // verus!
