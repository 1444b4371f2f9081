//! The sharable pieces of one file, grouped by how many remote peers may
//! already hold each of them.
use vstd::prelude::*;
use crate::file_piece::{FilePieceData, FilePieceIdx, PieceNumPossibleOwners};
use crate::vec_ext::{PushAndReturnOffset, SetWithResizeDefault};

verus! {

/// A piece is not below the number of pieces, or has no entry.
#[derive(Clone, Copy, Debug, PartialEq, Eq, Structural)]
pub enum FilePiecesQueueGetError {
    PieceIndexOutOfRange { len: usize },
    PieceIsNotAdded,
}

/// A piece is not below the number of pieces, or has an entry already.
#[derive(Clone, Copy, Debug, PartialEq, Eq, Structural)]
pub enum FilePiecesQueueInsertError {
    PieceIndexOutOfRange { len: usize },
    PieceIsAlreadyAdded,
}

/// A piece is not below the number of pieces, or has no entry.
#[derive(Clone, Copy, Debug, PartialEq, Eq, Structural)]
pub enum FilePiecesQueueRemoveError {
    PieceIndexOutOfRange { len: usize },
    PieceIsNotAdded,
}

/// The entry of one piece: where it stands in its queue, and its data.
#[derive(Clone, Copy, Debug)]
pub struct FilePiecesQueuePiece {
    offset: usize,
    data: FilePieceData,
}

/// One queue of pieces for each number of possible owners, a slot for each
/// piece that says where the piece stands, and the smallest number of
/// possible owners that has a piece queued.
#[derive(Debug)]
pub struct FilePiecesQueues {
    sharable_pieces: Vec<Option<FilePiecesQueuePiece>>,
    pieces_by_num_possible_owners: Vec<Vec<FilePieceIdx>>,
    min_possible_owners: Option<PieceNumPossibleOwners>,
}

impl FilePiecesQueues {
    /// The number of pieces of the file.
    pub closed spec fn num_pieces(&self) -> nat {
        self.sharable_pieces@.len()
    }

    /// Whether the piece has an entry.
    pub closed spec fn contains(&self, piece: int) -> bool {
        0 <= piece < self.sharable_pieces@.len() && self.sharable_pieces@[piece] is Some
    }

    /// The data recorded for a piece that has an entry.
    pub closed spec fn data(&self, piece: int) -> FilePieceData {
        self.sharable_pieces@[piece]->0.data
    }

    /// Where in its queue a piece with an entry stands.
    pub closed spec fn offset(&self, piece: int) -> int {
        self.sharable_pieces@[piece]->0.offset as int
    }

    /// The queue of the pieces that have `owners` possible owners, in the
    /// order in which a consumer sees them.
    pub closed spec fn queue(&self, owners: int) -> Seq<FilePieceIdx> {
        if 0 <= owners < self.pieces_by_num_possible_owners@.len() {
            self.pieces_by_num_possible_owners@[owners]@
        } else {
            Seq::empty()
        }
    }

    /// The data of every piece that has an entry.
    pub open spec fn pieces(&self) -> Map<int, FilePieceData> {
        Map::new(|piece: int| self.contains(piece), |piece: int| self.data(piece))
    }

    /// Every entry points at its own place in the queue of its number of
    /// possible owners.
    pub closed spec fn slots_wf(&self) -> bool {
        forall|piece: int| #[trigger]
            self.contains(piece) ==> {
                let owners = self.data(piece).num_possible_owners.0 as int;
                &&& 0 <= self.offset(piece) < self.queue(owners).len()
                &&& self.queue(owners)[self.offset(piece)] == FilePieceIdx(piece as usize)
            }
    }

    /// Every place in a queue holds a piece whose entry points back at it.
    pub closed spec fn queues_wf(&self) -> bool {
        forall|owners: int, at: int|
            0 <= at < self.queue(owners).len() ==> {
                let piece = (#[trigger] self.queue(owners)[at]).0 as int;
                &&& self.contains(piece)
                &&& self.data(piece).num_possible_owners.0 == owners
                &&& self.offset(piece) == at
            }
    }

    /// `owners` is the smallest number of possible owners with a piece
    /// queued.
    pub open spec fn is_min_key(&self, owners: int) -> bool {
        &&& self.queue(owners).len() > 0
        &&& forall|below: int| 0 <= below < owners ==> (#[trigger] self.queue(below)).len() == 0
    }

    /// No queue holds a piece.
    pub open spec fn all_queues_empty(&self) -> bool {
        forall|owners: int| (#[trigger] self.queue(owners)).len() == 0
    }

    /// The remembered minimum is the smallest non-empty queue, or none is
    /// remembered and every queue is empty.
    pub closed spec fn min_wf(&self) -> bool {
        match self.min_possible_owners {
            Some(owners) => self.is_min_key(owners.0 as int),
            None => self.all_queues_empty(),
        }
    }

    /// The smallest number of possible owners that has a piece queued, as
    /// the queues remember it.
    pub closed spec fn min_key(&self) -> Option<int> {
        match self.min_possible_owners {
            Some(owners) => Some(owners.0 as int),
            None => None,
        }
    }

    /// The queue that `next_queue` hands out has a smaller number of
    /// possible owners than every other queue that holds a piece.
    pub proof fn lemma_min_key_is_least(&self, other: int)
        requires
            self.wf(),
            self.queue(other).len() > 0,
        ensures
            self.min_key() is Some,
            self.min_key()->0 <= other,
    {
        if self.min_key() is Some && other < self.min_key()->0 {
            assert(other >= 0) by {
                if other < 0 {
                    assert(self.queue(other).len() == 0);
                }
            }
            assert(self.queue(other).len() == 0);
        }
    }

    /// What the queues remember as their minimum is the minimum.
    pub proof fn lemma_min_key(&self)
        requires
            self.wf(),
        ensures
            match self.min_key() {
                Some(owners) => 0 <= owners <= usize::MAX && self.is_min_key(owners),
                None => self.all_queues_empty(),
            },
    {
    }

    /// The remembered minimum, or zero when none is remembered.
    pub closed spec fn min_floor(&self) -> int {
        match self.min_possible_owners {
            Some(owners) => owners.0 as int,
            None => 0,
        }
    }

    /// The slots, the queues and the remembered minimum agree.
    pub open spec fn wf(&self) -> bool {
        &&& self.slots_wf()
        &&& self.queues_wf()
        &&& self.min_wf()
    }

    /// A piece with an entry stands in the queue of its number of possible
    /// owners, at the offset that its entry records.
    pub proof fn lemma_entry_in_queue(&self, piece: int)
        requires
            self.wf(),
            self.contains(piece),
        ensures
            0 <= piece < self.num_pieces(),
            0 <= self.offset(piece) < self.queue(
                self.data(piece).num_possible_owners.0 as int,
            ).len(),
            self.queue(self.data(piece).num_possible_owners.0 as int)[self.offset(piece)]
                == FilePieceIdx(piece as usize),
    {
    }

    /// Whatever stands in a queue has an entry with that number of possible
    /// owners.
    pub proof fn lemma_queue_holds_entries(&self, owners: int, at: int)
        requires
            self.wf(),
            0 <= at < self.queue(owners).len(),
        ensures
            self.contains(self.queue(owners)[at].0 as int),
            self.data(self.queue(owners)[at].0 as int).num_possible_owners.0 == owners,
            self.offset(self.queue(owners)[at].0 as int) == at,
    {
    }

    /// Without entries every queue is empty, and the other way round.
    pub proof fn lemma_empty_iff_no_entries(&self)
        requires
            self.wf(),
        ensures
            self.all_queues_empty() <==> (forall|piece: int| !self.contains(piece)),
    {
        if self.all_queues_empty() {
            assert forall|piece: int| !self.contains(piece) by {
                if self.contains(piece) {
                    self.lemma_entry_in_queue(piece);
                }
            }
        }
        if forall|piece: int| !self.contains(piece) {
            assert forall|owners: int| (#[trigger] self.queue(owners)).len() == 0 by {
                if self.queue(owners).len() > 0 {
                    self.lemma_queue_holds_entries(owners, 0);
                }
            }
        }
    }

    /// Queues for a file of `num_pieces` pieces, with no entry.
    pub fn new(num_pieces: usize) -> (r: Self)
        ensures
            r.wf(),
            r.num_pieces() == num_pieces,
            forall|piece: int| !r.contains(piece),
            r.all_queues_empty(),
    {
        let mut sharable_pieces: Vec<Option<FilePiecesQueuePiece>> = Vec::new();
        let mut i: usize = 0;
        while i < num_pieces
            invariant
                i <= num_pieces,
                sharable_pieces@.len() == i,
                forall|j: int| 0 <= j < i ==> sharable_pieces@[j] is None,
            decreases num_pieces - i,
        {
            sharable_pieces.push(None);
            i += 1;
        }
        Self {
            sharable_pieces,
            pieces_by_num_possible_owners: Vec::new(),
            min_possible_owners: None,
        }
    }

    /// The queue with the fewest possible owners among those that hold a
    /// piece, with that number; `None` when nothing is queued.
    pub fn next_queue(&self) -> (r: Option<(PieceNumPossibleOwners, &[FilePieceIdx])>)
        requires
            self.wf(),
        ensures
            match r {
                Some((owners, pieces)) => {
                    &&& pieces@ == self.queue(owners.0 as int)
                    &&& self.is_min_key(owners.0 as int)
                    &&& self.min_key() == Some(owners.0 as int)
                },
                None => self.all_queues_empty() && self.min_key() is None,
            },
    {
        match self.min_possible_owners {
            Some(idx) => Some((idx, self.pieces_by_num_possible_owners[idx.0].as_slice())),
            None => None,
        }
    }

    /// The data of a piece that has an entry.
    pub fn get(&self, piece_idx: FilePieceIdx) -> (r: Result<
        FilePieceData,
        FilePiecesQueueGetError,
    >)
        ensures
            r == if piece_idx.0 >= self.num_pieces() {
                Err::<FilePieceData, FilePiecesQueueGetError>(
                    FilePiecesQueueGetError::PieceIndexOutOfRange {
                        len: self.num_pieces() as usize,
                    },
                )
            } else if !self.contains(piece_idx.0 as int) {
                Err(FilePiecesQueueGetError::PieceIsNotAdded)
            } else {
                Ok(self.data(piece_idx.0 as int))
            },
    {
        if piece_idx.0 >= self.sharable_pieces.len() {
            return Err(
                FilePiecesQueueGetError::PieceIndexOutOfRange { len: self.sharable_pieces.len() },
            );
        }
        match &self.sharable_pieces[piece_idx.0] {
            Some(piece) => Ok(piece.data),
            None => Err(FilePiecesQueueGetError::PieceIsNotAdded),
        }
    }

    /// Gives a piece an entry, at the end of the queue of its number of
    /// possible owners.
    pub fn insert(&mut self, piece_idx: FilePieceIdx, data: FilePieceData) -> (r: Result<
        (),
        FilePiecesQueueInsertError,
    >)
        requires
            old(self).wf(),
            data.num_possible_owners.0 < usize::MAX,
        ensures
            final(self).wf(),
            final(self).num_pieces() == old(self).num_pieces(),
            piece_idx.0 >= old(self).num_pieces() ==> *final(self) == *old(self) && r == Err::<
                (),
                FilePiecesQueueInsertError,
            >(
                FilePiecesQueueInsertError::PieceIndexOutOfRange {
                    len: old(self).num_pieces() as usize,
                },
            ),
            old(self).contains(piece_idx.0 as int) ==> *final(self) == *old(self) && r == Err::<
                (),
                FilePiecesQueueInsertError,
            >(FilePiecesQueueInsertError::PieceIsAlreadyAdded),
            piece_idx.0 < old(self).num_pieces() && !old(self).contains(piece_idx.0 as int) ==> {
                &&& r is Ok
                &&& final(self).pieces() == old(self).pieces().insert(piece_idx.0 as int, data)
                &&& final(self).contains(piece_idx.0 as int)
                &&& final(self).data(piece_idx.0 as int) == data
                &&& forall|other: int|
                    other != piece_idx.0 ==> (#[trigger] final(self).contains(other) <==> old(self).contains(other))
                &&& forall|other: int|
                    other != piece_idx.0 && #[trigger] old(self).contains(other) ==> final(self).data(other) == old(self).data(other)
                &&& final(self).queue(data.num_possible_owners.0 as int) == old(self).queue(
                    data.num_possible_owners.0 as int,
                ).push(piece_idx)
                &&& forall|owners: int|
                    owners != data.num_possible_owners.0 ==> #[trigger] final(self).queue(owners)
                        == old(self).queue(owners)
            },
    {
        if piece_idx.0 >= self.sharable_pieces.len() {
            return Err(
                FilePiecesQueueInsertError::PieceIndexOutOfRange {
                    len: self.sharable_pieces.len(),
                },
            );
        }
        if self.sharable_pieces[piece_idx.0].is_some() {
            return Err(FilePiecesQueueInsertError::PieceIsAlreadyAdded);
        }
        let owners = data.num_possible_owners.0;
        let pieces = self.pieces_by_num_possible_owners.get_mut_or_resize_default(owners);
        let offset = pieces.push_and_get_offset(piece_idx);
        let ghost before = *old(self);
        proof {
            assert(self.queue(owners as int) =~= before.queue(owners as int).push(piece_idx));
            assert forall|k: int| k != owners implies #[trigger] self.queue(k) =~= before.queue(
                k,
            ) by {}
        }
        self.min_possible_owners = Some(
            match self.min_possible_owners {
                None => data.num_possible_owners,
                Some(value) => if value.0 <= owners {
                    value
                } else {
                    data.num_possible_owners
                },
            },
        );
        self.sharable_pieces[piece_idx.0] = Some(FilePiecesQueuePiece { offset, data });
        proof {
            let me = piece_idx.0 as int;
            assert forall|piece: int| piece != me implies (self.contains(piece)
                == before.contains(piece) && (before.contains(piece) ==> self.data(piece)
                == before.data(piece) && self.offset(piece) == before.offset(piece))) by {}
            assert(self.contains(me) && self.data(me) == data && self.offset(me) == offset);
            assert(self.slots_wf()) by {
                assert forall|piece: int| #[trigger] self.contains(piece) implies {
                    let owners = self.data(piece).num_possible_owners.0 as int;
                    &&& 0 <= self.offset(piece) < self.queue(owners).len()
                    &&& self.queue(owners)[self.offset(piece)] == FilePieceIdx(piece as usize)
                } by {
                    if piece != me {
                        assert(before.contains(piece));
                        let k = before.data(piece).num_possible_owners.0 as int;
                        if k != owners {
                            assert(self.queue(k) == before.queue(k));
                        }
                    }
                }
            }
            assert(self.queues_wf()) by {
                assert forall|k: int, at: int| 0 <= at < self.queue(k).len() implies {
                    let piece = (#[trigger] self.queue(k)[at]).0 as int;
                    &&& self.contains(piece)
                    &&& self.data(piece).num_possible_owners.0 == k
                    &&& self.offset(piece) == at
                } by {
                    if k != owners {
                        assert(self.queue(k) == before.queue(k));
                        let piece = before.queue(k)[at].0 as int;
                        assert(before.contains(piece));
                    } else if at < offset {
                        let piece = before.queue(k)[at].0 as int;
                        assert(before.contains(piece));
                    }
                }
            }
            assert(self.min_wf()) by {
                match before.min_possible_owners {
                    Some(m) => {
                        if m.0 <= owners {
                            if m.0 != owners {
                                assert(self.queue(m.0 as int) == before.queue(m.0 as int));
                            }
                            assert forall|below: int| 0 <= below < m.0 implies (
                            #[trigger] self.queue(below)).len() == 0 by {
                                assert(self.queue(below) == before.queue(below));
                                assert(before.queue(below).len() == 0);
                            }
                        } else {
                            assert forall|below: int| 0 <= below < owners implies (
                            #[trigger] self.queue(below)).len() == 0 by {
                                assert(self.queue(below) == before.queue(below));
                                assert(before.queue(below).len() == 0);
                            }
                        }
                    },
                    None => {
                        assert forall|below: int| 0 <= below < owners implies (
                        #[trigger] self.queue(below)).len() == 0 by {
                            assert(self.queue(below) == before.queue(below));
                            assert(before.queue(below).len() == 0);
                        }
                    },
                }
            }
            assert(self.pieces() =~= old(self).pieces().insert(me, data)) by {
                assert forall|piece: int| self.pieces().contains_key(piece) == old(self).pieces().insert(me, data).contains_key(piece) by {
                    if piece != me {
                        assert(self.contains(piece) == before.contains(piece));
                    }
                }
            }
            assert forall|k: int| k != owners implies #[trigger] self.queue(k) == old(self).queue(
                k,
            ) by {
                assert(self.queue(k) == before.queue(k));
            }
        }
        Ok(())
    }

    /// Takes the entry of a piece away and hands back its data. The last
    /// piece of the same queue moves into the place that falls free.
    pub fn remove(&mut self, piece_idx: &FilePieceIdx) -> (r: Result<
        FilePieceData,
        FilePiecesQueueRemoveError,
    >)
        requires
            old(self).wf(),
        ensures
            final(self).wf(),
            final(self).num_pieces() == old(self).num_pieces(),
            piece_idx.0 >= old(self).num_pieces() ==> *final(self) == *old(self) && r == Err::<
                FilePieceData,
                FilePiecesQueueRemoveError,
            >(
                FilePiecesQueueRemoveError::PieceIndexOutOfRange {
                    len: old(self).num_pieces() as usize,
                },
            ),
            piece_idx.0 < old(self).num_pieces() && !old(self).contains(piece_idx.0 as int)
                ==> *final(self) == *old(self) && r == Err::<
                FilePieceData,
                FilePiecesQueueRemoveError,
            >(FilePiecesQueueRemoveError::PieceIsNotAdded),
            old(self).contains(piece_idx.0 as int) ==> {
                let owners = old(self).data(piece_idx.0 as int).num_possible_owners.0 as int;
                let at = old(self).offset(piece_idx.0 as int);
                &&& r == Ok::<FilePieceData, FilePiecesQueueRemoveError>(
                    old(self).data(piece_idx.0 as int),
                )
                &&& final(self).pieces() == old(self).pieces().remove(piece_idx.0 as int)
                &&& !final(self).contains(piece_idx.0 as int)
                &&& forall|other: int|
                    other != piece_idx.0 ==> (#[trigger] final(self).contains(other) <==> old(self).contains(other))
                &&& forall|other: int|
                    other != piece_idx.0 && #[trigger] old(self).contains(other) ==> final(self).data(other) == old(self).data(other)
                &&& final(self).queue(owners) == old(self).queue(owners).update(
                    at,
                    old(self).queue(owners).last(),
                ).drop_last()
                &&& forall|other: int|
                    other != owners ==> #[trigger] final(self).queue(other) == old(self).queue(
                        other,
                    )
            },
    {
        if piece_idx.0 >= self.sharable_pieces.len() {
            return Err(
                FilePiecesQueueRemoveError::PieceIndexOutOfRange {
                    len: self.sharable_pieces.len(),
                },
            );
        }
        let piece = match self.sharable_pieces[piece_idx.0] {
            Some(piece) => piece,
            None => {
                return Err(FilePiecesQueueRemoveError::PieceIsNotAdded);
            },
        };
        let me = piece_idx.0;
        let offset = piece.offset;
        let owners = piece.data.num_possible_owners.0;
        proof {
            assert(old(self).contains(me as int));
            old(self).lemma_entry_in_queue(me as int);
        }
        self.sharable_pieces[me] = None;
        let _ = self.pieces_by_num_possible_owners[owners].swap_remove(offset);
        let ghost last = old(self).queue(owners as int).last();
        assert(self.queue(owners as int) == old(self).queue(owners as int).update(
            offset as int,
            last,
        ).drop_last());
        assert forall|other: int| other != owners implies #[trigger] self.queue(other) == old(self).queue(other) by {}
        proof {
            old(self).lemma_queue_holds_entries(
                owners as int,
                old(self).queue(owners as int).len() - 1,
            );
        }
        if offset != self.pieces_by_num_possible_owners[owners].len() {
            let moved = self.pieces_by_num_possible_owners[owners][offset];
            assert(moved == last);
            assert(old(self).contains(moved.0 as int));
            assert(moved.0 != me);
            match self.sharable_pieces[moved.0] {
                Some(entry) => {
                    self.sharable_pieces[moved.0] = Some(
                        FilePiecesQueuePiece { offset, data: entry.data },
                    );
                },
                None => {},
            }
        }
        proof {
            let moved = last.0 as int;
            assert forall|piece: int| piece != me && piece != moved implies (self.contains(piece)
                == old(self).contains(piece) && (old(self).contains(piece) ==> self.data(piece)
                == old(self).data(piece) && self.offset(piece) == old(self).offset(piece))) by {}
            assert(!self.contains(me as int));
            if moved != me {
                assert(self.contains(moved) && self.data(moved) == old(self).data(moved)
                    && self.offset(moved) == offset);
            }
            assert(self.slots_wf()) by {
                assert forall|piece: int| #[trigger] self.contains(piece) implies {
                    let owners = self.data(piece).num_possible_owners.0 as int;
                    &&& 0 <= self.offset(piece) < self.queue(owners).len()
                    &&& self.queue(owners)[self.offset(piece)] == FilePieceIdx(piece as usize)
                } by {
                    assert(old(self).contains(piece));
                    old(self).lemma_entry_in_queue(piece);
                    let k = old(self).data(piece).num_possible_owners.0 as int;
                    if k != owners {
                        assert(self.queue(k) == old(self).queue(k));
                    } else if piece != moved {
                        let at = old(self).offset(piece);
                        if at == offset {
                            assert(old(self).queue(k)[at] == FilePieceIdx(me));
                        }
                        if at == old(self).queue(k).len() - 1 {
                            assert(old(self).queue(k)[at] == last);
                        }
                    }
                }
            }
            assert(self.queues_wf()) by {
                assert forall|k: int, at: int| 0 <= at < self.queue(k).len() implies {
                    let piece = (#[trigger] self.queue(k)[at]).0 as int;
                    &&& self.contains(piece)
                    &&& self.data(piece).num_possible_owners.0 == k
                    &&& self.offset(piece) == at
                } by {
                    if k != owners {
                        assert(self.queue(k) == old(self).queue(k));
                        old(self).lemma_queue_holds_entries(k, at);
                    } else if at == offset {
                    } else {
                        old(self).lemma_queue_holds_entries(k, at);
                        assert(self.queue(k)[at] == old(self).queue(k)[at]);
                    }
                }
            }
            assert(self.pieces() =~= old(self).pieces().remove(me as int)) by {
                assert forall|piece: int| self.pieces().contains_key(piece) == old(self).pieces().remove(me as int).contains_key(piece) by {
                    if piece != me && piece != moved {
                        assert(self.contains(piece) == old(self).contains(piece));
                    }
                }
                assert forall|piece: int| self.pieces().contains_key(piece) implies self.pieces()[piece]
                    == old(self).pieces().remove(me as int)[piece] by {
                    if piece != me && piece != moved {
                        assert(self.contains(piece) == old(self).contains(piece));
                    }
                }
            }
            assert(old(self).min_possible_owners is Some) by {
                if old(self).min_possible_owners is None {
                    assert(old(self).queue(owners as int).len() == 0);
                }
            }
            assert forall|below: int|
                0 <= below < old(self).min_floor() implies (#[trigger] self.queue(
                below,
            )).len() == 0 by {
                assert(old(self).queue(below).len() == 0);
                if below != owners {
                    assert(self.queue(below) == old(self).queue(below));
                }
            }
        }
        self.update_min_possible_owners_after_remove();
        Ok(piece.data)
    }

    /// The queue of a number of possible owners after the entry of a piece
    /// has been taken away: in the piece's queue the last piece has moved
    /// into its place, and every other queue is as it was.
    pub open spec fn queue_without(&self, piece: int, owners: int) -> Seq<FilePieceIdx> {
        if owners == self.data(piece).num_possible_owners.0 {
            self.queue(owners).update(self.offset(piece), self.queue(owners).last()).drop_last()
        } else {
            self.queue(owners)
        }
    }

    /// Whether `after` is what giving an entry to a piece without one
    /// makes of `before`: the piece stands at the end of the queue of its
    /// number of possible owners, and every other queue is as it was.
    pub open spec fn inserted(
        before: Self,
        after: Self,
        piece_idx: FilePieceIdx,
        data: FilePieceData,
    ) -> bool {
        &&& after.pieces() == before.pieces().insert(piece_idx.0 as int, data)
        &&& forall|owners: int|
            #[trigger] after.queue(owners) == if owners == data.num_possible_owners.0 {
                before.queue(owners).push(piece_idx)
            } else {
                before.queue(owners)
            }
    }

    /// Whether `after` is what replacing the data of a piece makes of
    /// `before`: the piece has left its queue as `remove` says and stands
    /// at the end of the queue of its new number of possible owners.
    pub open spec fn requeued(
        before: Self,
        after: Self,
        piece_idx: FilePieceIdx,
        data: FilePieceData,
    ) -> bool {
        &&& after.pieces() == before.pieces().insert(piece_idx.0 as int, data)
        &&& forall|owners: int|
            #[trigger] after.queue(owners) == if owners == data.num_possible_owners.0 {
                before.queue_without(piece_idx.0 as int, owners).push(piece_idx)
            } else {
                before.queue_without(piece_idx.0 as int, owners)
            }
    }

    /// Replaces the data of a piece that has an entry. The piece moves to
    /// the end of the queue of its new number of possible owners.
    pub fn requeue(&mut self, piece_idx: FilePieceIdx, data: FilePieceData)
        requires
            old(self).wf(),
            old(self).contains(piece_idx.0 as int),
            data.num_possible_owners.0 < usize::MAX,
        ensures
            final(self).wf(),
            final(self).num_pieces() == old(self).num_pieces(),
            Self::requeued(*old(self), *final(self), piece_idx, data),
            final(self).contains(piece_idx.0 as int),
            final(self).data(piece_idx.0 as int) == data,
            forall|other: int|
                other != piece_idx.0 ==> (#[trigger] final(self).contains(other) <==> old(self).contains(other)),
            forall|other: int|
                other != piece_idx.0 && #[trigger] old(self).contains(other) ==> final(self).data(
                    other,
                ) == old(self).data(other),
    {
        proof {
            old(self).lemma_entry_in_queue(piece_idx.0 as int);
        }
        let _ = self.remove(&piece_idx);
        let ghost between = *self;
        let _ = self.insert(piece_idx, data);
        assert(self.pieces() =~= old(self).pieces().insert(piece_idx.0 as int, data));
        assert forall|owners: int|
            #[trigger] self.queue(owners) == if owners == data.num_possible_owners.0 {
                old(self).queue_without(piece_idx.0 as int, owners).push(piece_idx)
            } else {
                old(self).queue_without(piece_idx.0 as int, owners)
            } by {
            assert(between.queue(owners) == old(self).queue_without(piece_idx.0 as int, owners));
        }
        assert forall|other: int|
            other != piece_idx.0 && #[trigger] old(self).contains(other) implies self.data(other)
            == old(self).data(other) by {
            assert(between.contains(other));
        }
    }

    /// The agreement of slots and queues does not depend on the remembered
    /// minimum.
    proof fn lemma_same_tables(&self, other: &Self)
        requires
            self.slots_wf(),
            self.queues_wf(),
            self.sharable_pieces == other.sharable_pieces,
            self.pieces_by_num_possible_owners == other.pieces_by_num_possible_owners,
        ensures
            other.slots_wf(),
            other.queues_wf(),
            forall|k: int| #[trigger] other.queue(k) == self.queue(k),
    {
        assert forall|k: int| #[trigger] other.queue(k) == self.queue(k) by {}
        assert forall|piece: int| #[trigger] other.contains(piece) implies {
            let owners = other.data(piece).num_possible_owners.0 as int;
            &&& 0 <= other.offset(piece) < other.queue(owners).len()
            &&& other.queue(owners)[other.offset(piece)] == FilePieceIdx(piece as usize)
        } by {
            assert(self.contains(piece));
            let owners = self.data(piece).num_possible_owners.0 as int;
            assert(other.queue(owners) == self.queue(owners));
        }
        assert forall|k: int, at: int| 0 <= at < other.queue(k).len() implies {
            let piece = (#[trigger] other.queue(k)[at]).0 as int;
            &&& other.contains(piece)
            &&& other.data(piece).num_possible_owners.0 == k
            &&& other.offset(piece) == at
        } by {
            assert(other.queue(k) == self.queue(k));
            let piece = self.queue(k)[at].0 as int;
            assert(self.contains(piece));
        }
    }

    /// Looks for the first queue that holds a piece, from the remembered
    /// minimum upwards, and remembers it.
    fn update_min_possible_owners_after_remove(&mut self)
        requires
            old(self).slots_wf(),
            old(self).queues_wf(),
            old(self).min_possible_owners is Some,
            forall|below: int|
                0 <= below < old(self).min_floor() ==> (#[trigger] old(self).queue(
                    below,
                )).len() == 0,
        ensures
            final(self).wf(),
            final(self).sharable_pieces == old(self).sharable_pieces,
            final(self).pieces_by_num_possible_owners == old(self).pieces_by_num_possible_owners,
    {
        let mut list_idx: usize = match self.min_possible_owners {
            Some(owners) => owners.0,
            None => 0,
        };
        while list_idx < self.pieces_by_num_possible_owners.len()
            invariant
                old(self).slots_wf(),
                old(self).queues_wf(),
                self.sharable_pieces == old(self).sharable_pieces,
                self.pieces_by_num_possible_owners == old(self).pieces_by_num_possible_owners,
                forall|below: int|
                    0 <= below < list_idx ==> (#[trigger] self.queue(below)).len() == 0,
            decreases self.pieces_by_num_possible_owners.len() - list_idx,
        {
            if !self.pieces_by_num_possible_owners[list_idx].is_empty() {
                self.min_possible_owners = Some(PieceNumPossibleOwners(list_idx));
                proof {
                    assert(self.queue(list_idx as int).len() > 0);
                    old(self).lemma_same_tables(self);
                    assert(self.is_min_key(list_idx as int));
                }
                return ;
            }
            assert(self.queue(list_idx as int).len() == 0);
            list_idx += 1;
        }
        self.min_possible_owners = None;
        proof {
            old(self).lemma_same_tables(self);
            assert forall|k: int| (#[trigger] self.queue(k)).len() == 0 by {
                if 0 <= k < list_idx {
                }
            }
        }
    }
}

} // verus!
