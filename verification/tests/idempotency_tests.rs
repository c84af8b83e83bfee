use custom_dmq::error::DmqError;
use custom_dmq::idempotency::{entry_key, IdempotencyAction, IdempotencyState};

#[test]
fn duplicate_sequence_returns_cached_offset() {
    let mut state = IdempotencyState::default();
    state.entries.insert(entry_key(1, 0, 7), (0, 42));
    let action = state.resolve(1, 0, 7, 0).unwrap();
    assert_eq!(action, IdempotencyAction::ReturnOffset(42));
}

#[test]
fn sequences_must_advance_by_one() {
    let mut state = IdempotencyState::new();
    assert_eq!(state.resolve(1, 0, 7, 0), Ok(IdempotencyAction::Append));
    assert_eq!(state.resolve(1, 0, 7, 3), Err(DmqError::FirstSequenceNotZero));
    state.record(1, 0, 7, 5, 100);
    assert_eq!(state.resolve(1, 0, 7, 6), Ok(IdempotencyAction::Append));
    assert_eq!(state.resolve(1, 0, 7, 5), Ok(IdempotencyAction::ReturnOffset(100)));
    assert_eq!(state.resolve(1, 0, 7, 4), Err(DmqError::SequenceBehind { sequence: 4, last: 5 }));
    assert_eq!(state.resolve(1, 0, 7, 9), Err(DmqError::SequenceGap { expected: 6, got: 9 }));
    assert_eq!(state.resolve(1, 1, 7, 0), Ok(IdempotencyAction::Append));
}
