use peer::{
    FilePieceIdx, FileState, FileStatePieceError, FileStateSetStatus, FileStateUnsetStatus,
};

#[test]
fn file_state_starts_missing_or_complete() {
    let empty = FileState::empty();
    assert_eq!(empty.len(), 0);
    assert!(empty.is_missing());
    assert!(empty.is_complete());

    let missing = FileState::from_missing(10);
    assert_eq!(missing.len(), 10);
    assert_eq!(missing.num_available(), 0);
    assert_eq!(missing.num_missing(), 10);
    assert!(missing.is_missing());
    assert!(!missing.is_complete());
    assert_eq!(missing.to_vec(), vec![false; 10]);

    let complete = FileState::from_complete(10);
    assert_eq!(complete.num_available(), 10);
    assert_eq!(complete.num_missing(), 0);
    assert!(!complete.is_missing());
    assert!(complete.is_complete());
    assert_eq!(complete.to_vec(), vec![true; 10]);
}

#[test]
fn file_state_set_and_unset_keep_the_count() {
    let mut state = FileState::from_missing(70);
    assert_eq!(state.set(&FilePieceIdx(3)), Ok(FileStateSetStatus::JustSet));
    assert_eq!(state.set(&FilePieceIdx(3)), Ok(FileStateSetStatus::AlreadySet));
    assert_eq!(state.set(&FilePieceIdx(69)), Ok(FileStateSetStatus::JustSet));
    assert_eq!(state.num_available(), 2);
    assert_eq!(state.num_missing(), 68);
    assert_eq!(state.has(&FilePieceIdx(3)), Ok(true));
    assert_eq!(state.has(&FilePieceIdx(4)), Ok(false));
    assert_eq!(state.has(&FilePieceIdx(69)), Ok(true));

    assert_eq!(state.unset(&FilePieceIdx(3)), Ok(FileStateUnsetStatus::JustUnset));
    assert_eq!(state.unset(&FilePieceIdx(3)), Ok(FileStateUnsetStatus::AlreadyUnset));
    assert_eq!(state.num_available(), 1);
    assert_eq!(state.has(&FilePieceIdx(3)), Ok(false));
}

#[test]
fn file_state_rejects_an_index_out_of_range() {
    let mut state = FileState::from_missing(4);
    assert_eq!(state.has(&FilePieceIdx(4)), Err(FileStatePieceError::PieceIndexOutOfRange));
    assert_eq!(state.set(&FilePieceIdx(4)), Err(FileStatePieceError::PieceIndexOutOfRange));
    assert_eq!(state.unset(&FilePieceIdx(9)), Err(FileStatePieceError::PieceIndexOutOfRange));
    assert_eq!(state.num_available(), 0);
    assert_eq!(FileStatePieceError::PieceIndexOutOfRange.message(), "piece index out of range");
}

#[test]
fn file_state_and_keeps_what_both_have() {
    let left = FileState::from_bits(&vec![true, true, false, false, true]).unwrap();
    let right = FileState::from_bits(&vec![true, false, true, false, true]).unwrap();
    let both = left.bitand(&right);
    assert_eq!(both.to_vec(), vec![true, false, false, false, true]);
    assert_eq!(both.num_available(), 2);

    let mut state = FileState::from_complete(3);
    state.and_assign(&FileState::from_bits(&vec![false, true]).unwrap());
    assert_eq!(state.to_vec(), vec![false, true, false]);
    assert_eq!(state.num_available(), 1);
}

#[test]
fn file_state_from_bits_and_raw_count_ones() {
    let bits = vec![false, true, true, false, true, false, false, true, true];
    let state = FileState::from_bits(&bits).unwrap();
    assert_eq!(state.to_vec(), bits);
    assert_eq!(state.num_available(), 5);
    let copy = state.clone();
    assert_eq!(copy.to_vec(), bits);
    let again = FileState::from_raw(state.into_raw());
    assert_eq!(again.num_available(), 5);
    assert_eq!(again.to_vec(), bits);
}
