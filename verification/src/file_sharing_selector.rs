//! The choice of the next piece to send, over all shared files: among the
//! pieces with the fewest possible owners, one at random.
use vstd::prelude::*;
use rand_chacha::ChaCha8Rng;
use crate::file_chunk::FileChunk;
use crate::file_piece::FilePieceIdx;
use crate::protocol::PeerId;
use crate::random::random_below;
use crate::shared_file::SharedFile;
use crate::time::Time;

verus! {

/// A piece of a file that can go out.
#[derive(Clone, Copy, Debug, PartialEq, Eq, Structural)]
pub struct QueueItem {
    pub file_idx: usize,
    pub piece_idx: FilePieceIdx,
}

/// A piece that goes out, and the peer it goes to.
#[derive(Clone, Copy, Debug, PartialEq, Eq, Structural)]
pub struct SelectedPiece {
    pub peer_id: PeerId,
    pub file_idx: usize,
    pub piece_idx: FilePieceIdx,
}

/// The number of possible owners of a file's rarest queued pieces, when
/// some peer with a bitmap may still lack them.
pub open spec fn file_key<C: FileChunk, const CHUNK_SIZE: usize>(
    file: SharedFile<C, CHUNK_SIZE>,
) -> Option<int> {
    match file.queues().min_key() {
        Some(owners) => if owners < file.views().len() {
            Some(owners)
        } else {
            None
        },
        None => None,
    }
}

/// The smallest key among the files that have one.
pub open spec fn lowest_key<C: FileChunk, const CHUNK_SIZE: usize>(
    files: Seq<SharedFile<C, CHUNK_SIZE>>,
) -> Option<int>
    decreases files.len(),
{
    if files.len() == 0 {
        None
    } else {
        match (lowest_key(files.drop_last()), file_key(files.last())) {
            (None, key) => key,
            (Some(lowest), None) => Some(lowest),
            (Some(lowest), Some(key)) => Some(
                if key < lowest {
                    key
                } else {
                    lowest
                },
            ),
        }
    }
}

/// The queued pieces of one file at a level, in queue order, when the
/// level is the file's key.
pub open spec fn file_candidates<C: FileChunk, const CHUNK_SIZE: usize>(
    file_idx: int,
    file: SharedFile<C, CHUNK_SIZE>,
    level: int,
) -> Seq<QueueItem> {
    if file_key(file) == Some(level) {
        Seq::new(
            file.queues().queue(level).len(),
            |at: int|
                QueueItem {
                    file_idx: file_idx as usize,
                    piece_idx: file.queues().queue(level)[at],
                },
        )
    } else {
        Seq::empty()
    }
}

/// The pieces at a level of all files whose key is that level, file by
/// file.
pub open spec fn pool_of<C: FileChunk, const CHUNK_SIZE: usize>(
    files: Seq<SharedFile<C, CHUNK_SIZE>>,
    level: int,
) -> Seq<QueueItem>
    decreases files.len(),
{
    if files.len() == 0 {
        Seq::empty()
    } else {
        pool_of(files.drop_last(), level) + file_candidates(
            files.len() - 1,
            files.last(),
            level,
        )
    }
}

/// No file has a key below the lowest, and some file has the lowest.
pub proof fn lemma_lowest_key<C: FileChunk, const CHUNK_SIZE: usize>(
    files: Seq<SharedFile<C, CHUNK_SIZE>>,
)
    ensures
        match lowest_key(files) {
            None => forall|f: int| 0 <= f < files.len() ==> file_key(#[trigger] files[f]) is None,
            Some(lowest) => {
                &&& exists|f: int|
                    0 <= f < files.len() && file_key(#[trigger] files[f]) == Some(lowest)
                &&& forall|f: int|
                    0 <= f < files.len() ==> match file_key(#[trigger] files[f]) {
                        Some(key) => lowest <= key,
                        None => true,
                    }
            },
        },
    decreases files.len(),
{
    if files.len() > 0 {
        let init = files.drop_last();
        lemma_lowest_key(init);
        assert forall|f: int| 0 <= f < init.len() implies init[f] == files[f] by {}
        match lowest_key(files) {
            None => {
                assert forall|f: int| 0 <= f < files.len() implies file_key(
                    #[trigger] files[f],
                ) is None by {
                    if f < init.len() {
                        assert(file_key(init[f]) is None);
                    }
                }
            },
            Some(lowest) => {
                assert forall|f: int| 0 <= f < files.len() implies match file_key(
                    #[trigger] files[f],
                ) {
                    Some(key) => lowest <= key,
                    None => true,
                } by {
                    if f < init.len() {
                        assert(init[f] == files[f]);
                        match lowest_key(init) {
                            Some(before) => {
                                assert(match file_key(init[f]) {
                                    Some(key) => before <= key,
                                    None => true,
                                });
                            },
                            None => {
                                assert(file_key(init[f]) is None);
                            },
                        }
                    }
                }
                if file_key(files.last()) == Some(lowest) {
                    assert(file_key(files[files.len() - 1]) == Some(lowest));
                } else {
                    let f = choose|f: int|
                        0 <= f < init.len() && file_key(#[trigger] init[f]) == Some(lowest);
                    assert(file_key(files[f]) == Some(lowest));
                }
            },
        }
    }
}

/// The pool of a level is not empty when some file has that level as key.
pub proof fn lemma_pool_not_empty<C: FileChunk, const CHUNK_SIZE: usize>(
    files: Seq<SharedFile<C, CHUNK_SIZE>>,
    level: int,
    f: int,
)
    requires
        0 <= f < files.len(),
        files[f].queues().wf(),
        file_key(files[f]) == Some(level),
    ensures
        pool_of(files, level).len() > 0,
    decreases files.len(),
{
    let init = files.drop_last();
    if f == files.len() - 1 {
        files[f].queues().lemma_min_key();
    } else {
        assert(init[f] == files[f]);
        lemma_pool_not_empty(init, level, f);
    }
}

/// The pool of a level holds every piece that is queued at that level in a
/// file that has the level as its key.
pub proof fn lemma_pool_holds<C: FileChunk, const CHUNK_SIZE: usize>(
    files: Seq<SharedFile<C, CHUNK_SIZE>>,
    level: int,
    f: int,
    at: int,
)
    requires
        0 <= f < files.len() <= usize::MAX,
        file_key(files[f]) == Some(level),
        0 <= at < files[f].queues().queue(level).len(),
    ensures
        pool_of(files, level).contains(
            QueueItem { file_idx: f as usize, piece_idx: files[f].queues().queue(level)[at] },
        ),
    decreases files.len(),
{
    let init = files.drop_last();
    let item = QueueItem { file_idx: f as usize, piece_idx: files[f].queues().queue(level)[at] };
    let own = file_candidates(files.len() - 1, files.last(), level);
    if f == files.len() - 1 {
        assert(own[at] == item);
        assert(pool_of(files, level)[pool_of(init, level).len() + at] == item);
    } else {
        assert(init[f] == files[f]);
        lemma_pool_holds(init, level, f, at);
        let place = choose|place: int|
            0 <= place < pool_of(init, level).len() && pool_of(init, level)[place] == item;
        assert(pool_of(files, level)[place] == item);
    }
}

/// The pieces that wait to be picked: those of one level of possible
/// owners, from every file that has that level as its lowest.
#[derive(Debug)]
pub struct FileSharingSelectorData {
    queue_idx: usize,
    states: Vec<QueueItem>,
}

impl FileSharingSelectorData {
    /// The number of possible owners of the waiting pieces.
    pub closed spec fn level(&self) -> int {
        self.queue_idx as int
    }

    /// The waiting pieces.
    pub closed spec fn pending(&self) -> Seq<QueueItem> {
        self.states@
    }

    /// The key of a file.
    fn key_of<C: FileChunk, const CHUNK_SIZE: usize>(file: &SharedFile<C, CHUNK_SIZE>) -> (r:
        Option<usize>)
        requires
            file.wf(),
        ensures
            match r {
                Some(key) => file_key(*file) == Some(key as int),
                None => file_key(*file) is None,
            },
    {
        match file.piece_queues().next_queue() {
            Some((owners, _)) => if owners.0 < file.num_peers_with_state().0 {
                Some(owners.0)
            } else {
                None
            },
            None => None,
        }
    }

    /// The lowest key of the files.
    fn lowest<C: FileChunk, const CHUNK_SIZE: usize>(files: &Vec<SharedFile<C, CHUNK_SIZE>>) -> (r:
        Option<usize>)
        requires
            forall|f: int| 0 <= f < files@.len() ==> (#[trigger] files@[f]).wf(),
        ensures
            match r {
                Some(key) => lowest_key(files@) == Some(key as int),
                None => lowest_key(files@) is None,
            },
    {
        let mut lowest: Option<usize> = None;
        let mut at: usize = 0;
        assert(files@.take(0) =~= Seq::empty());
        while at < files.len()
            invariant
                at <= files@.len(),
                forall|f: int| 0 <= f < files@.len() ==> (#[trigger] files@[f]).wf(),
                match lowest {
                    Some(key) => lowest_key(files@.take(at as int)) == Some(key as int),
                    None => lowest_key(files@.take(at as int)) is None,
                },
            decreases files@.len() - at,
        {
            assert(files@.take(at + 1).drop_last() =~= files@.take(at as int));
            assert(files@.take(at + 1).last() == files@[at as int]);
            let key = Self::key_of(&files[at]);
            lowest = match (lowest, key) {
                (None, key) => key,
                (Some(lowest), None) => Some(lowest),
                (Some(lowest), Some(key)) => Some(
                    if key < lowest {
                        key
                    } else {
                        lowest
                    },
                ),
            };
            at += 1;
        }
        assert(files@.take(at as int) =~= files@);
        lowest
    }

    /// Adds the queued pieces of a file whose key is the level.
    fn merge<C: FileChunk, const CHUNK_SIZE: usize>(
        &mut self,
        file_idx: usize,
        file: &SharedFile<C, CHUNK_SIZE>,
    )
        requires
            file.wf(),
        ensures
            final(self).level() == old(self).level(),
            final(self).pending() == old(self).pending() + file_candidates(
                file_idx as int,
                *file,
                old(self).level(),
            ),
    {
        match file.piece_queues().next_queue() {
            Some((owners, pieces)) => {
                if owners.0 == self.queue_idx && owners.0 < file.num_peers_with_state().0 {
                    let ghost all = file_candidates(file_idx as int, *file, self.level());
                    let mut at: usize = 0;
                    assert(all.take(0) =~= Seq::empty());
                    assert(self.states@ + all.take(0) =~= self.states@);
                    while at < pieces.len()
                        invariant
                            at <= pieces@.len(),
                            all.len() == pieces@.len(),
                            self.queue_idx == old(self).queue_idx,
                            forall|j: int|
                                0 <= j < all.len() ==> all[j] == (QueueItem {
                                    file_idx,
                                    piece_idx: pieces@[j],
                                }),
                            self.states@ == old(self).states@ + all.take(at as int),
                        decreases pieces@.len() - at,
                    {
                        self.states.push(QueueItem { file_idx, piece_idx: pieces[at] });
                        assert(all.take(at + 1) =~= all.take(at as int).push(all[at as int]));
                        assert(self.states@ =~= old(self).states@ + all.take(at + 1));
                        at += 1;
                    }
                    assert(all.take(at as int) =~= all);
                } else {
                    assert(self.states@ + Seq::<QueueItem>::empty() =~= self.states@);
                }
            },
            None => {
                assert(self.states@ + Seq::<QueueItem>::empty() =~= self.states@);
            },
        }
    }

    /// The pieces with the fewest possible owners over all files, or
    /// `None` when no file has a piece that some peer may lack.
    pub fn new<C: FileChunk, const CHUNK_SIZE: usize>(
        files: &Vec<SharedFile<C, CHUNK_SIZE>>,
    ) -> (r: Option<Self>)
        requires
            forall|f: int| 0 <= f < files@.len() ==> (#[trigger] files@[f]).wf(),
        ensures
            match lowest_key(files@) {
                None => r is None,
                Some(lowest) => {
                    &&& r is Some
                    &&& r->0.level() == lowest
                    &&& r->0.pending() == pool_of(files@, lowest)
                    &&& r->0.pending().len() > 0
                },
            },
    {
        let lowest = match Self::lowest(files) {
            Some(lowest) => lowest,
            None => {
                return None;
            },
        };
        let mut data = Self { queue_idx: lowest, states: Vec::new() };
        let mut at: usize = 0;
        assert(files@.take(0) =~= Seq::empty());
        while at < files.len()
            invariant
                at <= files@.len(),
                forall|f: int| 0 <= f < files@.len() ==> (#[trigger] files@[f]).wf(),
                data.queue_idx == lowest,
                data.states@ == pool_of(files@.take(at as int), lowest as int),
            decreases files@.len() - at,
        {
            assert(files@.take(at + 1).drop_last() =~= files@.take(at as int));
            assert(files@.take(at + 1).last() == files@[at as int]);
            data.merge(at, &files[at]);
            at += 1;
        }
        proof {
            assert(files@.take(at as int) =~= files@);
            lemma_lowest_key(files@);
            let f = choose|f: int|
                0 <= f < files@.len() && file_key(#[trigger] files@[f]) == Some(lowest as int);
            lemma_pool_not_empty(files@, lowest as int, f);
        }
        Some(data)
    }
}

/// The chooser of the next piece to send.
#[derive(Debug)]
pub struct FileSharingSelector {
    data: Option<FileSharingSelectorData>,
}

impl FileSharingSelector {
    /// The pieces that wait to be picked.
    pub closed spec fn pending(&self) -> Seq<QueueItem> {
        match self.data {
            Some(data) => data.pending(),
            None => Seq::empty(),
        }
    }

    /// A chooser over the rarest pieces of the files as they are now.
    pub fn new<C: FileChunk, const CHUNK_SIZE: usize>(
        files: &Vec<SharedFile<C, CHUNK_SIZE>>,
    ) -> (r: Self)
        requires
            forall|f: int| 0 <= f < files@.len() ==> (#[trigger] files@[f]).wf(),
        ensures
            r.pending() == Self::rarest(files@),
    {
        Self { data: FileSharingSelectorData::new(files) }
    }

    /// How many pieces wait to be picked.
    pub fn num_pending(&self) -> (r: usize)
        ensures
            r == self.pending().len(),
    {
        match &self.data {
            Some(data) => data.states.len(),
            None => 0,
        }
    }

    /// Takes the waiting piece at place `choice` out of the pool and, if
    /// its file finds a receiver for it, sends it on its way.
    pub fn take_candidate<C: FileChunk, const CHUNK_SIZE: usize>(
        &mut self,
        files: &mut Vec<SharedFile<C, CHUNK_SIZE>>,
        choice: usize,
        time: Time,
    ) -> (r: Option<SelectedPiece>)
        requires
            choice < old(self).pending().len(),
            forall|f: int| 0 <= f < old(files)@.len() ==> (#[trigger] old(files)@[f]).wf(),
        ensures
            forall|f: int| 0 <= f < final(files)@.len() ==> (#[trigger] final(files)@[f]).wf(),
            final(files)@.len() == old(files)@.len(),
            final(self).pending() == old(self).pending().update(
                choice as int,
                old(self).pending().last(),
            ).drop_last(),
            Self::candidate_taken(
                old(files)@,
                final(files)@,
                old(self).pending()[choice as int],
                time,
                r,
            ),
    {
        let candidate = match &mut self.data {
            Some(data) => data.states.swap_remove(choice),
            None => {
                return None;
            },
        };
        if candidate.file_idx >= files.len() {
            return None;
        }
        let ghost before = files@;
        match files[candidate.file_idx].select_piece_peer(candidate.piece_idx, time) {
            Ok(peer_id) => {
                assert(files@ =~= before.update(candidate.file_idx as int, files@[candidate.file_idx as int]));
                Some(
                    SelectedPiece {
                        peer_id,
                        file_idx: candidate.file_idx,
                        piece_idx: candidate.piece_idx,
                    },
                )
            },
            Err(_) => {
                assert(files@ =~= before);
                None
            },
        }
    }

    /// What taking a candidate does to the files: when its file finds a
    /// receiver, that file alone changes, as `select_piece_peer` says, and
    /// the piece and its receiver are handed out; else nothing changes and
    /// nothing is handed out.
    pub open spec fn candidate_taken<C: FileChunk, const CHUNK_SIZE: usize>(
        before: Seq<SharedFile<C, CHUNK_SIZE>>,
        after: Seq<SharedFile<C, CHUNK_SIZE>>,
        candidate: QueueItem,
        time: Time,
        r: Option<SelectedPiece>,
    ) -> bool {
        if candidate.file_idx >= before.len() {
            r is None && after == before
        } else {
            match before[candidate.file_idx as int].spec_select(candidate.piece_idx) {
                Err(_) => r is None && after == before,
                Ok(step) => {
                    &&& r is Some
                    &&& r->0.file_idx == candidate.file_idx
                    &&& r->0.piece_idx == candidate.piece_idx
                    &&& after == before.update(
                        candidate.file_idx as int,
                        after[candidate.file_idx as int],
                    )
                    &&& SharedFile::piece_taken(
                        before[candidate.file_idx as int],
                        after[candidate.file_idx as int],
                        candidate.piece_idx,
                        time,
                        step,
                        r->0.peer_id,
                    )
                },
            }
        }
    }

    /// Picks waiting pieces at random until one finds a receiver, and hands
    /// out that piece with its receiver. When the pool runs out it is
    /// filled once from the files; `None` when no piece found a receiver.
    pub fn next<C: FileChunk, const CHUNK_SIZE: usize>(
        &mut self,
        files: &mut Vec<SharedFile<C, CHUNK_SIZE>>,
        rng: &mut ChaCha8Rng,
        time: Time,
    ) -> (r: Option<SelectedPiece>)
        requires
            forall|f: int| 0 <= f < old(files)@.len() ==> (#[trigger] old(files)@[f]).wf(),
        ensures
            forall|f: int| 0 <= f < final(files)@.len() ==> (#[trigger] final(files)@[f]).wf(),
            final(files)@.len() == old(files)@.len(),
            r is Some <==> Self::some_can_be_taken(old(self).pending(), old(files)@),
            match r {
                None => final(files)@ == old(files)@ && final(self).pending().len() == 0,
                Some(selected) => exists|candidate: QueueItem|
                    {
                        &&& #[trigger] Self::drawn_from(old(self).pending(), old(files)@, candidate)
                        &&& Self::candidate_taken(
                            old(files)@,
                            final(files)@,
                            candidate,
                            time,
                            r,
                        )
                    },
            },
            forall|candidate: QueueItem|
                final(self).pending().contains(candidate) ==> #[trigger] Self::drawn_from(
                    old(self).pending(),
                    old(files)@,
                    candidate,
                ),
    {
        let mut refilled = false;
        loop
            invariant
                files@ == old(files)@,
                forall|f: int| 0 <= f < files@.len() ==> (#[trigger] files@[f]).wf(),
                refilled ==> Self::pool_is_spent(old(self).pending(), old(files)@),
                forall|candidate: QueueItem| #[trigger]
                    self.pending().contains(candidate) ==> if refilled {
                        Self::among_rarest(old(files)@, candidate)
                    } else {
                        old(self).pending().contains(candidate)
                    },
                forall|candidate: QueueItem|
                    #![trigger Self::can_be_taken(old(files)@, candidate)]
                    Self::can_be_taken(old(files)@, candidate) && (if refilled {
                        Self::among_rarest(old(files)@, candidate)
                    } else {
                        old(self).pending().contains(candidate)
                    }) ==> self.pending().contains(candidate),
            decreases
                    if refilled {
                        0int
                    } else {
                        1int
                    },
                    self.pending().len(),
        {
            let mut waiting = self.num_pending();
            if waiting == 0 {
                proof {
                    if !refilled {
                        assert forall|candidate: QueueItem|
                            old(self).pending().contains(candidate) implies !#[trigger] Self::can_be_taken(
                            old(files)@,
                            candidate,
                        ) by {
                            if Self::can_be_taken(old(files)@, candidate) {
                                assert(self.pending().contains(candidate));
                            }
                        }
                    }
                    assert(Self::pool_is_spent(old(self).pending(), old(files)@));
                    assert forall|candidate: QueueItem|
                        Self::offered(
                            old(self).pending(),
                            old(files)@,
                            candidate,
                        ) && refilled implies !#[trigger] Self::can_be_taken(
                        old(files)@,
                        candidate,
                    ) by {
                        if Self::can_be_taken(old(files)@, candidate) {
                            assert(self.pending().contains(candidate));
                        }
                    }
                }
                if refilled {
                    return None;
                }
                refilled = true;
                self.data = FileSharingSelectorData::new(files);
                waiting = self.num_pending();
                if waiting == 0 {
                    proof {
                        assert forall|candidate: QueueItem|
                            Self::offered(
                                old(self).pending(),
                                old(files)@,
                                candidate,
                            ) implies !#[trigger] Self::can_be_taken(old(files)@, candidate) by {
                            if Self::among_rarest(old(files)@, candidate) {
                                assert(self.pending().contains(candidate));
                            }
                        }
                    }
                    return None;
                }
            }
            let choice = random_below(rng, waiting);
            let ghost candidate = self.pending()[choice as int];
            let ghost pool = self.pending();
            assert(pool.contains(candidate));
            match self.take_candidate(files, choice, time) {
                Some(selected) => {
                    assert(Self::drawn_from(old(self).pending(), old(files)@, candidate));
                    assert(Self::candidate_taken(
                        old(files)@,
                        files@,
                        candidate,
                        time,
                        Some(selected),
                    ));
                    assert(Self::can_be_taken(old(files)@, candidate));
                    assert(Self::offered(old(self).pending(), old(files)@, candidate));
                    assert forall|other: QueueItem|
                        self.pending().contains(other) implies #[trigger] Self::drawn_from(
                        old(self).pending(),
                        old(files)@,
                        other,
                    ) by {
                        let at = choose|at: int|
                            0 <= at < self.pending().len() && self.pending()[at] == other;
                        if at == choice {
                            assert(pool[pool.len() - 1] == other);
                        } else {
                            assert(pool[at] == other);
                        }
                        assert(pool.contains(other));
                    }
                    return Some(selected);
                },
                None => {
                    assert(!Self::can_be_taken(old(files)@, candidate));
                    assert forall|other: QueueItem| #[trigger]
                        self.pending().contains(other) implies pool.contains(other) by {
                        let at = choose|at: int|
                            0 <= at < self.pending().len() && self.pending()[at] == other;
                        if at == choice {
                            assert(pool[pool.len() - 1] == other);
                        } else {
                            assert(pool[at] == other);
                        }
                    }
                    assert forall|other: QueueItem|
                        #![trigger Self::can_be_taken(old(files)@, other)]
                        Self::can_be_taken(old(files)@, other) && pool.contains(
                            other,
                        ) implies self.pending().contains(other) by {
                        let was = choose|was: int| 0 <= was < pool.len() && pool[was] == other;
                        assert(was != choice);
                        if was == pool.len() - 1 {
                            assert(self.pending()[choice as int] == other);
                        } else {
                            assert(self.pending()[was] == other);
                        }
                    }
                },
            }
        }
    }

    /// Whether a piece is one that a call of `next` may pick: it waits in
    /// the pool, or it is among the rarest pieces of the files.
    pub open spec fn offered<C: FileChunk, const CHUNK_SIZE: usize>(
        pending: Seq<QueueItem>,
        files: Seq<SharedFile<C, CHUNK_SIZE>>,
        candidate: QueueItem,
    ) -> bool {
        pending.contains(candidate) || Self::among_rarest(files, candidate)
    }

    /// The rarest pieces of the files, file by file: those with the fewest
    /// possible owners that some peer may still lack.
    pub open spec fn rarest<C: FileChunk, const CHUNK_SIZE: usize>(
        files: Seq<SharedFile<C, CHUNK_SIZE>>,
    ) -> Seq<QueueItem> {
        match lowest_key(files) {
            None => Seq::<QueueItem>::empty(),
            Some(lowest) => pool_of(files, lowest),
        }
    }

    /// Whether no piece of the pool finds a receiver.
    pub open spec fn pool_is_spent<C: FileChunk, const CHUNK_SIZE: usize>(
        pending: Seq<QueueItem>,
        files: Seq<SharedFile<C, CHUNK_SIZE>>,
    ) -> bool {
        forall|candidate: QueueItem|
            pending.contains(candidate) ==> !#[trigger] Self::can_be_taken(files, candidate)
    }

    /// Whether a piece is one that a call of `next` picks from: it waits
    /// in the pool, or the pool is spent and the piece is among the rarest
    /// pieces of the files as they are then.
    pub open spec fn drawn_from<C: FileChunk, const CHUNK_SIZE: usize>(
        pending: Seq<QueueItem>,
        files: Seq<SharedFile<C, CHUNK_SIZE>>,
        candidate: QueueItem,
    ) -> bool {
        pending.contains(candidate) || (Self::pool_is_spent(pending, files) && Self::among_rarest(
            files,
            candidate,
        ))
    }

    /// Whether a piece is among the rarest pieces of the files: those with
    /// the fewest possible owners that some peer may still lack.
    pub open spec fn among_rarest<C: FileChunk, const CHUNK_SIZE: usize>(
        files: Seq<SharedFile<C, CHUNK_SIZE>>,
        candidate: QueueItem,
    ) -> bool {
        match lowest_key(files) {
            Some(lowest) => pool_of(files, lowest).contains(candidate),
            None => false,
        }
    }

    /// Whether the piece's file is there and finds a receiver for it.
    pub open spec fn can_be_taken<C: FileChunk, const CHUNK_SIZE: usize>(
        files: Seq<SharedFile<C, CHUNK_SIZE>>,
        candidate: QueueItem,
    ) -> bool {
        candidate.file_idx < files.len() && files[candidate.file_idx as int].spec_select(
            candidate.piece_idx,
        ) is Ok
    }

    /// Whether a call of `next` has a piece to hand out: one of those it
    /// may pick finds a receiver.
    pub open spec fn some_can_be_taken<C: FileChunk, const CHUNK_SIZE: usize>(
        pending: Seq<QueueItem>,
        files: Seq<SharedFile<C, CHUNK_SIZE>>,
    ) -> bool {
        exists|candidate: QueueItem|
            Self::offered(pending, files, candidate) && #[trigger] Self::can_be_taken(
                files,
                candidate,
            )
    }
}

} // verus!
