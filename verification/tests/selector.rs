use peer::{
    File, FileLen, FileMetadata, FilePieceIdx, FileSharingSelector, FileSharingSelectorData,
    FileState, JsRandom, PeerId, Sha256, SharedFile, Time, FILE_PIECE_SIZE,
};
use rand::SeedableRng;
use rand_chacha::ChaCha8Rng;

const CHUNK: usize = 2048;

fn complete(tag: u8, num_pieces: usize) -> SharedFile<Vec<u8>, CHUNK> {
    let metadata = FileMetadata::new(
        Sha256([tag; 32]),
        "file".to_owned(),
        FileLen((num_pieces * FILE_PIECE_SIZE) as u64),
    );
    let mut file = SharedFile::new(File::new(metadata).unwrap());
    for piece in 0..num_pieces {
        file.add_local_piece(FilePieceIdx(piece), &[tag; FILE_PIECE_SIZE]).unwrap();
    }
    let _ = file.take_recently_added_pieces();
    file
}

fn two_files() -> Vec<SharedFile<Vec<u8>, CHUNK>> {
    let mut first = complete(1, 2);
    let mut second = complete(2, 2);
    for peer in [2, 3] {
        first.add_peer(PeerId(peer)).unwrap();
        first.set_peer_file_missing(PeerId(peer)).unwrap();
        second.add_peer(PeerId(peer)).unwrap();
    }
    second.set_peer_state(PeerId(2), FileState::from_bits(&vec![true, false]).unwrap()).unwrap();
    second.set_peer_file_missing(PeerId(3)).unwrap();
    vec![first, second]
}

#[test]
fn selector_without_files_has_nothing_to_give() {
    let mut files: Vec<SharedFile<Vec<u8>, CHUNK>> = Vec::new();
    assert!(FileSharingSelectorData::new(&files).is_none());
    let mut selector = FileSharingSelector::new(&files);
    assert_eq!(selector.num_pending(), 0);
    let mut rng = ChaCha8Rng::seed_from_u64(1);
    assert_eq!(selector.next(&mut files, &mut rng, Time(0)), None);
}

#[test]
fn selector_skips_files_whose_pieces_every_peer_may_hold() {
    let mut file = complete(1, 2);
    file.add_peer(PeerId(2)).unwrap();
    file.set_peer_file_missing(PeerId(2)).unwrap();
    file.select_piece_peer(FilePieceIdx(0), Time(0)).unwrap();
    file.select_piece_peer(FilePieceIdx(1), Time(0)).unwrap();
    assert_eq!(file.piece_queues().next_queue().unwrap().0 .0, 1);
    let mut files = vec![file];
    let mut selector = FileSharingSelector::new(&files);
    assert_eq!(selector.num_pending(), 0);
    let mut rng = ChaCha8Rng::seed_from_u64(1);
    assert_eq!(selector.next(&mut files, &mut rng, Time(1)), None);
}

#[test]
fn rarest_first_across_two_files() {
    for seed in 0..64 {
        let mut files = two_files();
        let mut selector = FileSharingSelector::new(&files);
        assert_eq!(selector.num_pending(), 3);
        let mut rng = ChaCha8Rng::seed_from_u64(seed);
        let first = selector.next(&mut files, &mut rng, Time(0)).unwrap();
        assert!(first.file_idx == 0 || first.piece_idx == FilePieceIdx(1));
        let entry = files[first.file_idx].piece_queues().get(first.piece_idx).unwrap();
        assert_eq!(entry.num_possible_owners.0, 1);
        assert!(first.peer_id == PeerId(2) || first.peer_id == PeerId(3));
        assert_eq!(selector.num_pending(), 2);
    }
}

#[test]
fn selector_gives_every_rarest_piece_before_the_next_level() {
    let mut files = two_files();
    let mut selector = FileSharingSelector::new(&files);
    let mut rng = ChaCha8Rng::seed_from_u64(11);
    let mut given = Vec::new();
    for _ in 0..3 {
        let selected = selector.next(&mut files, &mut rng, Time(0)).unwrap();
        given.push((selected.file_idx, selected.piece_idx.0));
    }
    given.sort();
    assert_eq!(given, vec![(0, 0), (0, 1), (1, 1)]);
    assert_eq!(selector.num_pending(), 0);
    let mut next_level = Vec::new();
    while let Some(selected) = selector.next(&mut files, &mut rng, Time(1)) {
        next_level.push((selected.file_idx, selected.piece_idx.0));
        assert!(next_level.len() <= 8);
    }
    next_level.sort();
    assert_eq!(next_level, vec![(0, 0), (0, 1), (1, 0), (1, 1)]);
    for file in &files {
        for piece in 0..2 {
            assert_eq!(
                file.piece_queues().get(FilePieceIdx(piece)).unwrap().num_possible_owners.0,
                2
            );
        }
    }
}

#[test]
fn take_candidate_takes_the_piece_that_was_asked_for() {
    let mut files = two_files();
    let mut selector = FileSharingSelector::new(&files);
    let selected = selector.take_candidate(&mut files, 2, Time(0)).unwrap();
    assert_eq!((selected.file_idx, selected.piece_idx), (1, FilePieceIdx(1)));
    assert_eq!(selector.num_pending(), 2);
    let selected = selector.take_candidate(&mut files, 0, Time(0)).unwrap();
    assert_eq!((selected.file_idx, selected.piece_idx), (0, FilePieceIdx(0)));
    let selected = selector.take_candidate(&mut files, 0, Time(0)).unwrap();
    assert_eq!((selected.file_idx, selected.piece_idx), (0, FilePieceIdx(1)));
    assert_eq!(selector.num_pending(), 0);
}

#[test]
fn host_seeded_generator_can_drive_the_selector() {
    let mut files = two_files();
    let mut selector = FileSharingSelector::new(&files);
    let mut rng = <ChaCha8Rng as JsRandom>::new().unwrap();
    let mut count = 0;
    while selector.next(&mut files, &mut rng, Time(0)).is_some() {
        count += 1;
        assert!(count <= 7);
    }
    assert_eq!(count, 7);
}

#[test]
fn selector_with_an_empty_pool_looks_at_the_files_again() {
    let none: Vec<SharedFile<Vec<u8>, CHUNK>> = Vec::new();
    let mut selector = FileSharingSelector::new(&none);
    assert_eq!(selector.num_pending(), 0);
    let mut files = two_files();
    let mut rng = ChaCha8Rng::seed_from_u64(5);
    let selected = selector.next(&mut files, &mut rng, Time(3)).unwrap();
    let entry = files[selected.file_idx].piece_queues().get(selected.piece_idx).unwrap();
    assert_eq!(entry.num_possible_owners.0, 1);
    assert_eq!(selector.num_pending(), 2);
    let sent = files[selected.file_idx].sent_pieces();
    assert_eq!(sent.len(), 1);
    assert_eq!(sent[0].time, Time(3));
    assert_eq!(sent[0].peer_id, selected.peer_id);
    assert_eq!(sent[0].piece_idx, selected.piece_idx);
    assert!(files[1 - selected.file_idx].sent_pieces().is_empty());
}

#[test]
fn selector_gives_up_only_when_no_piece_can_go() {
    for seed in 0..16 {
        let mut files = two_files();
        let mut selector = FileSharingSelector::new(&files);
        let mut rng = ChaCha8Rng::seed_from_u64(seed);
        for given in 0..7 {
            assert!(selector.next(&mut files, &mut rng, Time(given)).is_some());
        }
        let sent: Vec<usize> = files.iter().map(|file| file.sent_pieces().len()).collect();
        assert_eq!(sent, vec![4, 3]);
        assert!(selector.next(&mut files, &mut rng, Time(9)).is_none());
        assert_eq!(selector.num_pending(), 0);
        let after: Vec<usize> = files.iter().map(|file| file.sent_pieces().len()).collect();
        assert_eq!(after, sent);
    }
}
