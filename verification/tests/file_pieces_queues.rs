use peer::{
    FilePieceData, FilePieceIdx, FilePiecesQueueGetError, FilePiecesQueueInsertError,
    FilePiecesQueueRemoveError, FilePiecesQueues, PieceNumConfirmedOwners, PieceNumPossibleOwners,
    PiecePeerShift,
};

fn data(possible: usize) -> FilePieceData {
    FilePieceData {
        peer_shift: PiecePeerShift(0),
        num_confirmed_owners: PieceNumConfirmedOwners(0),
        num_possible_owners: PieceNumPossibleOwners(possible),
    }
}

fn next(queues: &FilePiecesQueues) -> Option<(usize, Vec<usize>)> {
    queues
        .next_queue()
        .map(|(owners, pieces)| (owners.0, pieces.iter().map(|piece| piece.0).collect()))
}

#[test]
fn queues_start_empty() {
    let queues = FilePiecesQueues::new(4);
    assert_eq!(queues.next_queue(), None);
    assert_eq!(queues.get(FilePieceIdx(0)), Err(FilePiecesQueueGetError::PieceIsNotAdded));
    assert_eq!(
        queues.get(FilePieceIdx(4)),
        Err(FilePiecesQueueGetError::PieceIndexOutOfRange { len: 4 })
    );
}

#[test]
fn queues_hand_out_the_lowest_level() {
    let mut queues = FilePiecesQueues::new(8);
    assert_eq!(queues.insert(FilePieceIdx(5), data(3)), Ok(()));
    assert_eq!(next(&queues), Some((3, vec![5])));
    assert_eq!(queues.insert(FilePieceIdx(1), data(1)), Ok(()));
    assert_eq!(queues.insert(FilePieceIdx(2), data(1)), Ok(()));
    assert_eq!(queues.insert(FilePieceIdx(7), data(4)), Ok(()));
    assert_eq!(next(&queues), Some((1, vec![1, 2])));
    assert_eq!(queues.get(FilePieceIdx(5)).unwrap().num_possible_owners.0, 3);

    assert_eq!(queues.remove(&FilePieceIdx(1)).unwrap().num_possible_owners.0, 1);
    assert_eq!(next(&queues), Some((1, vec![2])));
    assert_eq!(queues.remove(&FilePieceIdx(2)).unwrap().num_possible_owners.0, 1);
    assert_eq!(next(&queues), Some((3, vec![5])));
    assert!(queues.remove(&FilePieceIdx(5)).is_ok());
    assert_eq!(next(&queues), Some((4, vec![7])));
    assert!(queues.remove(&FilePieceIdx(7)).is_ok());
    assert_eq!(queues.next_queue(), None);
}

#[test]
fn queues_swap_the_last_piece_into_the_gap() {
    let mut queues = FilePiecesQueues::new(8);
    for piece in 0..5 {
        queues.insert(FilePieceIdx(piece), data(0)).unwrap();
    }
    assert_eq!(next(&queues), Some((0, vec![0, 1, 2, 3, 4])));
    queues.remove(&FilePieceIdx(1)).unwrap();
    assert_eq!(next(&queues), Some((0, vec![0, 4, 2, 3])));
    queues.remove(&FilePieceIdx(4)).unwrap();
    assert_eq!(next(&queues), Some((0, vec![0, 3, 2])));
    queues.remove(&FilePieceIdx(2)).unwrap();
    assert_eq!(next(&queues), Some((0, vec![0, 3])));
    assert!(queues.get(FilePieceIdx(3)).is_ok());
    queues.remove(&FilePieceIdx(3)).unwrap();
    assert_eq!(next(&queues), Some((0, vec![0])));
}

#[test]
fn queues_report_each_error() {
    let mut queues = FilePiecesQueues::new(3);
    assert_eq!(
        queues.insert(FilePieceIdx(3), data(0)),
        Err(FilePiecesQueueInsertError::PieceIndexOutOfRange { len: 3 })
    );
    assert_eq!(queues.insert(FilePieceIdx(2), data(0)), Ok(()));
    assert_eq!(
        queues.insert(FilePieceIdx(2), data(1)),
        Err(FilePiecesQueueInsertError::PieceIsAlreadyAdded)
    );
    assert_eq!(
        queues.remove(&FilePieceIdx(3)),
        Err(FilePiecesQueueRemoveError::PieceIndexOutOfRange { len: 3 })
    );
    assert_eq!(
        queues.remove(&FilePieceIdx(1)),
        Err(FilePiecesQueueRemoveError::PieceIsNotAdded)
    );
    assert_eq!(next(&queues), Some((0, vec![2])));
}

#[test]
fn queues_requeue_moves_a_piece_to_its_new_level() {
    let mut queues = FilePiecesQueues::new(4);
    queues.insert(FilePieceIdx(0), data(0)).unwrap();
    queues.insert(FilePieceIdx(1), data(0)).unwrap();
    queues.requeue(FilePieceIdx(0), data(2));
    assert_eq!(next(&queues), Some((0, vec![1])));
    assert_eq!(queues.get(FilePieceIdx(0)).unwrap().num_possible_owners.0, 2);
    queues.requeue(FilePieceIdx(1), data(2));
    assert_eq!(next(&queues), Some((2, vec![0, 1])));
}
