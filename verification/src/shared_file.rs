//! One shared file: what the local peer holds of it, what each remote peer
//! is known or assumed to hold, and which pieces wait to be sent.
use vstd::prelude::*;
use std::collections::HashMap;
use vstd::set_lib::lemma_len_subset;
use vstd::std_specs::hash::spec_keys_iter;
use vstd::std_specs::iter::IteratorSpec;
use crate::bits::{count_ones, lemma_count_ones_update, max_bits};
use crate::peer_views::{
    bit, confirmed_column, has_view, lemma_all_confirmed, lemma_confirmed_at_most_possible,
    lemma_counts_after_bit_change, lemma_counts_after_push, lemma_counts_after_swap_remove,
    num_confirmed_owners, num_possible_owners, possible_column, remote_is_meet, view_ids,
    views_fit, PeerStateView,
};
use crate::file::{File, FileSetPieceError};
use crate::file_chunk::FileChunk;
use crate::file_piece::{
    FilePieceData, FilePieceIdx, PieceNumConfirmedOwners, PieceNumPossibleOwners, PiecePeerShift,
};
use crate::file_pieces_queues::FilePiecesQueues;
use crate::file_state::{FileState, FileStateSetStatus};
use crate::protocol::PeerId;
use crate::stride::{lemma_stride_index_bound, next_shift, peer_stride, stride_index, stride_probe};
use crate::time::Time;

verus! {

/// Whether the remote peer has been told which pieces are present here.
#[derive(Clone, Copy, Debug, PartialEq, Eq, Structural)]
pub enum SharedFileLocalStateStatus {
    NotSent,
    Sent(Time),
    Received,
}

/// What is recorded of every remote peer of the file.
#[derive(Clone, Copy, Debug)]
pub struct SharedFilePeer {
    pub state_idx: Option<usize>,
    pub local_state_status: SharedFileLocalStateStatus,
}

/// The pieces of a remote peer: those it is known to hold, and those it
/// holds or has been sent.
#[derive(Debug)]
pub struct SharedFilePeerState {
    peer_id: PeerId,
    confirmed: FileState,
    possible: FileState,
}

impl SharedFilePeerState {
    /// The bitmaps as plain values.
    pub closed spec fn view_state(&self) -> PeerStateView {
        PeerStateView {
            peer_id: self.peer_id,
            confirmed: self.confirmed@,
            possible: self.possible@,
        }
    }

    /// The bitmaps are in order.
    pub closed spec fn wf(&self) -> bool {
        self.confirmed.wf() && self.possible.wf()
    }

    /// The peer whose pieces these are.
    pub fn peer_id(&self) -> (r: PeerId)
        ensures
            r == self.view_state().peer_id,
    {
        self.peer_id
    }

    /// The pieces that the peer is known to hold.
    pub fn confirmed(&self) -> (r: &FileState)
        requires
            self.wf(),
        ensures
            r.wf(),
            r@ == self.view_state().confirmed,
    {
        &self.confirmed
    }

    /// The pieces that the peer holds or has been sent.
    pub fn possible(&self) -> (r: &FileState)
        requires
            self.wf(),
        ensures
            r.wf(),
            r@ == self.view_state().possible,
    {
        &self.possible
    }
}

/// A piece that went out to a peer and may not have arrived.
#[derive(Clone, Copy, Debug, PartialEq, Eq, Structural)]
pub struct SentPiece {
    pub time: Time,
    pub peer_id: PeerId,
    pub piece_idx: FilePieceIdx,
}

/// The peer has been added before.
#[derive(Clone, Copy, Debug, PartialEq, Eq, Structural)]
pub enum SharedFileAddPeerError {
    PeerIsAlreadyAdded,
}

/// A bitmap could not be taken: the peer has not been added, it has told
/// a bitmap already, or the bitmap has the wrong number of bits.
#[derive(Clone, Copy, Debug, PartialEq, Eq, Structural)]
pub enum SharedFileAddPeerStateError {
    PeerIsNotAdded,
    PeerIsAlreadyHasState,
    PeerInvalidStateLen { peer_len: usize, local_len: usize },
}

/// The peer that was to go has not been added.
#[derive(Clone, Copy, Debug, PartialEq, Eq, Structural)]
pub enum SharedFileRemovePeerError {
    PeerIsNotAdded,
}

/// A bitmap could not be forgotten: the peer has not been added, or it
/// has told none.
#[derive(Clone, Copy, Debug, PartialEq, Eq, Structural)]
pub enum SharedFileRemovePeerStateError {
    PeerIsNotAdded,
    PeerStateIsAlreadyRemoved,
}

/// A bitmap could not be replaced: the peer has not been added, or the
/// bitmap has the wrong number of bits.
#[derive(Clone, Copy, Debug, PartialEq, Eq, Structural)]
pub enum SharedFileSetPeerStateError {
    PeerIsNotAdded,
    PeerInvalidStateLen { peer_len: usize, local_len: usize },
}

/// No peer was picked for a piece: the file has no such piece, every peer
/// on the piece's walk may hold it already, or the piece is not queued.
#[derive(Clone, Copy, Debug, PartialEq, Eq, Structural)]
pub enum SharedFileSelectPiecePeerError {
    PieceIndexOutOfRange,
    PieceIsAlreadyOwned,
    PieceIsNotAdded,
}

/// What marking a piece as acknowledged found.
#[derive(Clone, Copy, Debug, PartialEq, Eq, Structural, Hash)]
pub enum SharedFileMarkStatus {
    JustMarked,
    AlreadyMarked,
}

/// What giving a sent piece up found.
#[derive(Clone, Copy, Debug, PartialEq, Eq, Structural, Hash)]
pub enum SharedFileMarkForResendStatus {
    Received,
    JustMarked,
    AlreadyMarked,
}

/// A piece could not be marked for a peer: the peer has not been added,
/// the file has no such piece, or the peer has told no bitmap.
#[derive(Clone, Copy, Debug, PartialEq, Eq, Structural)]
pub enum SharedFileMarkError {
    PeerIsNotAdded,
    PieceIndexOutOfRange,
    PeerStateIsNotAdded,
}

/// A piece could not be stored: its index or length is wrong, or it is
/// present already.
#[derive(Clone, Copy, Debug, PartialEq, Eq, Structural)]
pub enum SharedFileAddLocalPieceError {
    SetPiece(FileSetPieceError),
    PieceIsAlreadySet,
}

/// The peer whose status was asked for has not been added.
#[derive(Clone, Copy, Debug, PartialEq, Eq, Structural)]
pub enum LocalStateStatusError {
    PeerIsNotAdded,
}

/// The entries of the queues are pieces that are present here, with the
/// true owner counts; and a piece that is present here and that some peer
/// is not known to hold has an entry.
pub open spec fn queues_match(
    queues: FilePiecesQueues,
    views: Seq<PeerStateView>,
    local: Seq<bool>,
    remote: Seq<bool>,
) -> bool {
    &&& forall|piece: int| #[trigger]
        queues.contains(piece) ==> {
            &&& 0 <= piece < local.len()
            &&& local[piece]
            &&& queues.data(piece).num_confirmed_owners.0 == num_confirmed_owners(views, piece)
            &&& queues.data(piece).num_possible_owners.0 == num_possible_owners(views, piece)
        }
    &&& forall|piece: int|
        0 <= piece < local.len() && local[piece] && !remote[piece] ==> #[trigger] queues.contains(
            piece,
        )
}

/// The entries are in the order of their times.
pub open spec fn sent_sorted(sent: Seq<SentPiece>) -> bool {
    forall|a: int, b: int| 0 <= a <= b < sent.len() ==> sent[a].time.0 <= sent[b].time.0
}

/// Where a piece that goes out at `time` enters the list of sent pieces:
/// behind every entry that is not younger.
pub open spec fn sent_position(sent: Seq<SentPiece>, time: Time) -> int
    decreases sent.len(),
{
    if sent.len() == 0 || sent.last().time.0 <= time.0 {
        sent.len() as int
    } else {
        sent_position(sent.drop_last(), time)
    }
}

/// How many entries at the head of the list of sent pieces are older than
/// `time`.
pub open spec fn sent_cutoff(sent: Seq<SentPiece>, time: Time) -> int
    decreases sent.len(),
{
    if sent.len() == 0 || sent.first().time.0 >= time.0 {
        0
    } else {
        1 + sent_cutoff(sent.drop_first(), time)
    }
}

/// The first step, from `step` on and below the number of peers, at which
/// the walk for a piece that starts at `start` reaches a peer that neither
/// holds the piece nor has been sent it.
pub open spec fn first_free_from(
    views: Seq<PeerStateView>,
    piece: int,
    start: int,
    step: int,
) -> Option<int>
    decreases views.len() - step,
{
    if step < 0 || step >= views.len() {
        None
    } else if !views[stride_index(piece, views.len() as int, start + step)].possible[piece] {
        Some(step)
    } else {
        first_free_from(views, piece, start, step + 1)
    }
}

/// The list of sent pieces without those that went to one peer.
pub open spec fn sent_without(sent: Seq<SentPiece>, peer_id: PeerId) -> Seq<SentPiece>
    decreases sent.len(),
{
    if sent.len() == 0 {
        Seq::empty()
    } else if sent.last().peer_id == peer_id {
        sent_without(sent.drop_last(), peer_id)
    } else {
        sent_without(sent.drop_last(), peer_id).push(sent.last())
    }
}

/// What is left of the list of sent pieces without one peer is in the old
/// order, and names that peer nowhere.
pub proof fn lemma_sent_without(sent: Seq<SentPiece>, peer_id: PeerId)
    requires
        sent_sorted(sent),
    ensures
        sent_sorted(sent_without(sent, peer_id)),
        sent_without(sent, peer_id).len() <= sent.len(),
        forall|x: int|
            0 <= x < sent_without(sent, peer_id).len() ==> (#[trigger] sent_without(
                sent,
                peer_id,
            )[x]).peer_id != peer_id && exists|b: int|
                0 <= b < sent.len() && #[trigger] sent[b] == sent_without(sent, peer_id)[x],
    decreases sent.len(),
{
    if sent.len() > 0 {
        let init = sent.drop_last();
        assert(sent_sorted(init)) by {
            assert forall|a: int, b: int| 0 <= a <= b < init.len() implies init[a].time.0
                <= init[b].time.0 by {
                assert(sent[a].time.0 <= sent[b].time.0);
            }
        }
        lemma_sent_without(init, peer_id);
        let rest = sent_without(init, peer_id);
        let all = sent_without(sent, peer_id);
        assert forall|x: int| 0 <= x < rest.len() implies (exists|b: int|
            0 <= b < sent.len() && #[trigger] sent[b] == rest[x]) && rest[x].time.0
            <= sent.last().time.0 by {
            let b = choose|b: int| 0 <= b < init.len() && #[trigger] init[b] == rest[x];
            assert(sent[b] == rest[x]);
            assert(sent[b].time.0 <= sent[sent.len() - 1].time.0);
        }
        if sent.last().peer_id != peer_id {
            assert forall|x: int| 0 <= x < all.len() implies (#[trigger] all[x]).peer_id != peer_id
                && exists|b: int| 0 <= b < sent.len() && #[trigger] sent[b] == all[x] by {
                if x == rest.len() {
                    assert(sent[sent.len() - 1] == all[x]);
                } else {
                    assert(all[x] == rest[x]);
                }
            }
            assert forall|a: int, b: int| 0 <= a <= b < all.len() implies all[a].time.0
                <= all[b].time.0 by {
                if b < rest.len() {
                    assert(rest[a].time.0 <= rest[b].time.0);
                } else if a < rest.len() {
                    assert(all[a] == rest[a]);
                }
            }
        } else {
            assert forall|x: int| 0 <= x < all.len() implies (#[trigger] all[x]).peer_id != peer_id
                && exists|b: int| 0 <= b < sent.len() && #[trigger] sent[b] == all[x] by {
                assert(all[x] == rest[x]);
            }
        }
    }
}

/// A list of sent pieces that names a peer nowhere is the same without
/// that peer.
pub proof fn lemma_sent_without_absent(sent: Seq<SentPiece>, peer_id: PeerId)
    requires
        forall|at: int| 0 <= at < sent.len() ==> (#[trigger] sent[at]).peer_id != peer_id,
    ensures
        sent_without(sent, peer_id) == sent,
    decreases sent.len(),
{
    if sent.len() > 0 {
        let init = sent.drop_last();
        assert forall|at: int| 0 <= at < init.len() implies (#[trigger] init[at]).peer_id
            != peer_id by {
            assert(init[at] == sent[at]);
        }
        lemma_sent_without_absent(init, peer_id);
        assert(init.push(sent.last()) =~= sent);
    } else {
        assert(sent =~= Seq::<SentPiece>::empty());
    }
}

/// The bitmaps after the peer at place `k` has left and the last peer has
/// taken its place.
pub open spec fn views_without(views: Seq<PeerStateView>, k: int) -> Seq<PeerStateView> {
    views.update(k, views.last()).drop_last()
}

/// Whether a list of sent pieces names a piece for a peer.
pub open spec fn sent_names(sent: Seq<SentPiece>, peer_id: PeerId, piece: int) -> bool {
    exists|at: int|
        0 <= at < sent.len() && (#[trigger] sent[at]).peer_id == peer_id && sent[at].piece_idx.0
            == piece
}

/// The bitmaps after the pieces of a list have been given up as lost: a
/// piece that was sent to a peer and not acknowledged is no longer taken
/// to be with that peer.
pub open spec fn resend_views(views: Seq<PeerStateView>, stale: Seq<SentPiece>) -> Seq<
    PeerStateView,
> {
    Seq::new(
        views.len(),
        |k: int|
            PeerStateView {
                peer_id: views[k].peer_id,
                confirmed: views[k].confirmed,
                possible: Seq::new(
                    views[k].possible.len(),
                    |piece: int|
                        views[k].possible[piece] && (views[k].confirmed[piece] || !sent_names(
                            stale,
                            views[k].peer_id,
                            piece,
                        )),
                ),
            },
    )
}

/// Whether every peer with a bitmap holds a piece or has been sent it.
pub open spec fn every_peer_may_hold(views: Seq<PeerStateView>, piece: int) -> bool {
    forall|k: int| 0 <= k < views.len() ==> (#[trigger] views[k]).possible[piece]
}

/// Every peer may hold a piece exactly when the piece has as many possible
/// owners as there are peers with a bitmap.
pub proof fn lemma_every_peer_may_hold(views: Seq<PeerStateView>, piece: int)
    ensures
        every_peer_may_hold(views, piece) <==> num_possible_owners(views, piece) == views.len(),
{
    let column = possible_column(views, piece);
    crate::bits::lemma_count_ones_full(column);
    if every_peer_may_hold(views, piece) {
        assert forall|k: int| 0 <= k < column.len() implies column[k] by {
            assert(views[k].possible[piece]);
        }
    }
    if num_possible_owners(views, piece) == views.len() {
        assert forall|k: int| 0 <= k < views.len() implies (#[trigger] views[k]).possible[piece] by {
            assert(column[k]);
        }
    }
}

/// One file as it is shared with remote peers.
#[derive(Debug)]
pub struct SharedFile<C, const CHUNK_SIZE: usize> {
    /// The metadata, the contents and the local bitmap.
    file: File<C, CHUNK_SIZE>,
    /// The pieces that every peer with a bitmap is known to hold.
    confirmed_remote_state: FileState,
    /// Every peer of the file, by its number.
    peers: HashMap<u32, SharedFilePeer>,
    /// The peers that have told their bitmap, in the order in which a
    /// stride picks among them.
    shared_peers: Vec<SharedFilePeerState>,
    /// The pieces that wait to be sent, by number of possible owners.
    piece_queues: FilePiecesQueues,
    /// The pieces that went out and may not have arrived, oldest first.
    sent_pieces: Vec<SentPiece>,
    /// The pieces that arrived here and have not been announced yet.
    recently_added_pieces: Vec<FilePieceIdx>,
}

impl<C: FileChunk, const CHUNK_SIZE: usize> SharedFile<C, CHUNK_SIZE> {
    /// The file underneath.
    pub closed spec fn spec_file(&self) -> File<C, CHUNK_SIZE> {
        self.file
    }

    /// The number of pieces of the file.
    pub open spec fn spec_num_pieces(&self) -> int {
        self.spec_file().spec_num_pieces()
    }

    /// Which pieces are present here.
    pub open spec fn local(&self) -> Seq<bool> {
        self.spec_file().local()
    }

    /// Which pieces every peer with a bitmap is known to hold.
    pub closed spec fn remote(&self) -> Seq<bool> {
        self.confirmed_remote_state@
    }

    /// Every peer of the file, by its number.
    pub closed spec fn peers(&self) -> Map<u32, SharedFilePeer> {
        self.peers@
    }

    /// The bitmaps of the peers that have told theirs, in stride order.
    pub closed spec fn views(&self) -> Seq<PeerStateView> {
        Seq::new(
            self.shared_peers@.len(),
            |k: int|
                PeerStateView {
                    peer_id: self.shared_peers@[k].peer_id,
                    confirmed: self.shared_peers@[k].confirmed@,
                    possible: self.shared_peers@[k].possible@,
                },
        )
    }

    /// The queues of the pieces that wait to be sent.
    pub closed spec fn queues(&self) -> FilePiecesQueues {
        self.piece_queues
    }

    /// The pieces that went out and may not have arrived, oldest first.
    pub closed spec fn sent(&self) -> Seq<SentPiece> {
        self.sent_pieces@
    }

    /// The pieces that arrived here and have not been announced yet.
    pub closed spec fn recent(&self) -> Seq<FilePieceIdx> {
        self.recently_added_pieces@
    }

    /// The counters of the bitmaps agree with their bits.
    pub closed spec fn bitmaps_wf(&self) -> bool {
        &&& self.confirmed_remote_state.wf()
        &&& forall|k: int|
            0 <= k < self.shared_peers@.len() ==> (#[trigger] self.shared_peers@[k]).confirmed.wf()
                && self.shared_peers@[k].possible.wf()
    }

    /// A peer's record names its place among the bitmaps, and every bitmap
    /// belongs to the peer whose record names it.
    pub open spec fn peers_match(peers: Map<u32, SharedFilePeer>, views: Seq<PeerStateView>) -> bool {
        &&& forall|id: u32| #[trigger]
            peers.contains_key(id) ==> match peers[id].state_idx {
                Some(k) => k < views.len() && views[k as int].peer_id.0 == id,
                None => true,
            }
        &&& forall|k: int|
            0 <= k < views.len() ==> peers.contains_key((#[trigger] views[k]).peer_id.0)
                && peers[views[k].peer_id.0].state_idx == Some(k as usize)
    }

    /// What holds of a shared file between any two calls.
    pub open spec fn wf(&self) -> bool {
        &&& self.spec_file().wf()
        &&& self.bitmaps_wf()
        &&& self.remote().len() == self.local().len()
        &&& Self::peers_match(self.peers(), self.views())
        &&& views_fit(self.views(), self.local())
        &&& remote_is_meet(self.remote(), self.views())
        &&& self.queues().wf()
        &&& self.queues().num_pieces() == self.local().len()
        &&& queues_match(self.queues(), self.views(), self.local(), self.remote())
        &&& (self.peers().len() == 0 ==> self.queues().all_queues_empty())
        &&& self.peers().len() < usize::MAX
        &&& sent_sorted(self.sent())
        &&& forall|at: int|
            0 <= at < self.sent().len() ==> (#[trigger] self.sent()[at]).piece_idx.0
                < self.local().len() && has_view(self.views(), self.sent()[at].peer_id)
    }

    /// A shared file without peers around the given file.
    pub fn new(file: File<C, CHUNK_SIZE>) -> (r: Self)
        requires
            file.wf(),
        ensures
            r.wf(),
            r.spec_file() == file,
            r.remote() == Seq::new(file.local().len(), |i: int| true),
            r.peers() == Map::<u32, SharedFilePeer>::empty(),
            r.views() == Seq::<PeerStateView>::empty(),
            forall|piece: int| !r.queues().contains(piece),
            r.sent() == Seq::<SentPiece>::empty(),
            r.recent() == Seq::<FilePieceIdx>::empty(),
    {
        let num_pieces = file.num_pieces();
        let r = Self {
            file,
            confirmed_remote_state: FileState::from_complete(num_pieces),
            peers: HashMap::new(),
            shared_peers: Vec::new(),
            piece_queues: FilePiecesQueues::new(num_pieces),
            sent_pieces: Vec::new(),
            recently_added_pieces: Vec::new(),
        };
        assert(r.views() =~= Seq::<PeerStateView>::empty());
        r
    }

    /// The file underneath.
    pub fn file(&self) -> (r: &File<C, CHUNK_SIZE>)
        ensures
            *r == self.spec_file(),
    {
        &self.file
    }

    /// The pieces that every peer with a bitmap is known to hold.
    pub fn remote_state(&self) -> (r: &FileState)
        requires
            self.wf(),
        ensures
            r.wf(),
            r@ == self.remote(),
    {
        &self.confirmed_remote_state
    }

    /// How many peers have told their bitmap.
    pub fn num_peers_with_state(&self) -> (r: PieceNumPossibleOwners)
        ensures
            r.0 == self.views().len(),
    {
        PieceNumPossibleOwners(self.shared_peers.len())
    }

    /// The number of pieces of the file.
    pub fn num_pieces(&self) -> (r: usize)
        requires
            self.wf(),
        ensures
            r == self.spec_num_pieces(),
    {
        self.file.num_pieces()
    }

    /// The queues of the pieces that wait to be sent.
    pub fn piece_queues(&self) -> (r: &FilePiecesQueues)
        ensures
            *r == self.queues(),
    {
        &self.piece_queues
    }

    /// Whether the peer has been added.
    pub fn has_peer(&self, peer_id: PeerId) -> (r: bool)
        ensures
            r == self.peers().contains_key(peer_id.0),
    {
        self.peers.contains_key(&peer_id.0)
    }

    /// What a peer's joining does: a peer that was there stays as it was;
    /// a new peer has told no bitmap and has not been told ours.
    pub open spec fn peer_joined(before: Self, after: Self, peer_id: PeerId) -> bool {
        if before.peers().contains_key(peer_id.0) {
            after == before
        } else {
            &&& after.peers() == before.peers().insert(
                peer_id.0,
                SharedFilePeer {
                    state_idx: None,
                    local_state_status: SharedFileLocalStateStatus::NotSent,
                },
            )
            &&& after.spec_file() == before.spec_file()
            &&& after.remote() == before.remote()
            &&& after.views() == before.views()
            &&& after.queues() == before.queues()
            &&& after.sent() == before.sent()
            &&& after.recent() == before.recent()
        }
    }

    /// Adds a peer that has not told its bitmap and has not been told ours.
    pub fn add_peer(&mut self, peer_id: PeerId) -> (r: Result<(), SharedFileAddPeerError>)
        requires
            old(self).wf(),
            old(self).peers().len() + 1 < usize::MAX,
        ensures
            final(self).wf(),
            old(self).peers().contains_key(peer_id.0) ==> r == Err::<(), SharedFileAddPeerError>(
                SharedFileAddPeerError::PeerIsAlreadyAdded,
            ) && *final(self) == *old(self),
            !old(self).peers().contains_key(peer_id.0) ==> {
                &&& r is Ok
                &&& final(self).peers() == old(self).peers().insert(
                    peer_id.0,
                    SharedFilePeer {
                        state_idx: None,
                        local_state_status: SharedFileLocalStateStatus::NotSent,
                    },
                )
                &&& final(self).spec_file() == old(self).spec_file()
                &&& final(self).remote() == old(self).remote()
                &&& final(self).views() == old(self).views()
                &&& final(self).queues() == old(self).queues()
                &&& final(self).sent() == old(self).sent()
                &&& final(self).recent() == old(self).recent()
            },
    {
        if self.peers.contains_key(&peer_id.0) {
            return Err(SharedFileAddPeerError::PeerIsAlreadyAdded);
        }
        let _ = self.peers.insert(
            peer_id.0,
            SharedFilePeer {
                state_idx: None,
                local_state_status: SharedFileLocalStateStatus::NotSent,
            },
        );
        assert(self.views() =~= old(self).views());
        Ok(())
    }

    /// How many peers have been added.
    pub fn num_peers(&self) -> (r: usize)
        ensures
            r == self.peers().len(),
    {
        self.peers.len()
    }

    /// There are at least as many peers as bitmaps, and more when some peer
    /// has told none.
    pub proof fn lemma_views_within_peers(peers: Map<u32, SharedFilePeer>, views: Seq<PeerStateView>)
        requires
            peers.dom().finite(),
            views.len() <= usize::MAX,
            Self::peers_match(peers, views),
        ensures
            views.len() <= peers.len(),
            (exists|id: u32| #[trigger] peers.contains_key(id) && peers[id].state_idx is None)
                ==> views.len() < peers.len(),
    {
        let ids = view_ids(views);
        assert forall|a: int, b: int| 0 <= a < ids.len() && 0 <= b < ids.len() && a != b implies ids[a]
            != ids[b] by {
            assert(peers[views[a].peer_id.0].state_idx == Some(a as usize));
            assert(peers[views[b].peer_id.0].state_idx == Some(b as usize));
        }
        ids.unique_seq_to_set();
        assert forall|id: u32| ids.to_set().contains(id) implies peers.dom().contains(id) by {
            let k = choose|k: int| 0 <= k < ids.len() && ids[k] == id;
            assert(peers.contains_key(views[k].peer_id.0));
        }
        lemma_len_subset(ids.to_set(), peers.dom());
        if exists|id: u32| #[trigger] peers.contains_key(id) && peers[id].state_idx is None {
            let id = choose|id: u32| #[trigger] peers.contains_key(id) && peers[id].state_idx is None;
            let rest = peers.dom().remove(id);
            assert forall|other: u32| ids.to_set().contains(other) implies rest.contains(other) by {
                let k = choose|k: int| 0 <= k < ids.len() && ids[k] == other;
                assert(peers.contains_key(views[k].peer_id.0));
                assert(peers[views[k].peer_id.0].state_idx == Some(k as usize));
            }
            lemma_len_subset(ids.to_set(), rest);
        }
    }

    /// Counts the peers that are known to hold a piece.
    fn count_confirmed(&self, piece: usize) -> (r: usize)
        requires
            views_fit(self.views(), self.local()),
            piece < self.local().len(),
        ensures
            r == num_confirmed_owners(self.views(), piece as int),
    {
        let mut count: usize = 0;
        let mut k: usize = 0;
        let ghost column = confirmed_column(self.views(), piece as int);
        while k < self.shared_peers.len()
            invariant
                views_fit(self.views(), self.local()),
                piece < self.local().len(),
                k <= self.shared_peers@.len(),
                column == confirmed_column(self.views(), piece as int),
                count == count_ones(column.take(k as int)),
                count <= k,
            decreases self.shared_peers@.len() - k,
        {
            let has = self.shared_peers[k].confirmed.has(&FilePieceIdx(piece));
            proof {
                assert(self.views()[k as int].confirmed.len() == self.local().len());
                assert(column.take(k + 1).drop_last() =~= column.take(k as int));
            }
            match has {
                Ok(true) => {
                    count += 1;
                },
                _ => {},
            }
            k += 1;
        }
        assert(column.take(k as int) =~= column);
        count
    }

    /// Counts the peers that hold a piece or have been sent it.
    fn count_possible(&self, piece: usize) -> (r: usize)
        requires
            views_fit(self.views(), self.local()),
            piece < self.local().len(),
        ensures
            r == num_possible_owners(self.views(), piece as int),
    {
        let mut count: usize = 0;
        let mut k: usize = 0;
        let ghost column = possible_column(self.views(), piece as int);
        while k < self.shared_peers.len()
            invariant
                views_fit(self.views(), self.local()),
                piece < self.local().len(),
                k <= self.shared_peers@.len(),
                column == possible_column(self.views(), piece as int),
                count == count_ones(column.take(k as int)),
                count <= k,
            decreases self.shared_peers@.len() - k,
        {
            let has = self.shared_peers[k].possible.has(&FilePieceIdx(piece));
            proof {
                assert(self.views()[k as int].possible.len() == self.local().len());
                assert(column.take(k + 1).drop_last() =~= column.take(k as int));
            }
            match has {
                Ok(true) => {
                    count += 1;
                },
                _ => {},
            }
            k += 1;
        }
        assert(column.take(k as int) =~= column);
        count
    }

    /// What storing a piece that was not present does: the piece is present
    /// and waits to be announced; and unless every peer is known to hold
    /// it, it is queued, at the end of the queue of its number of possible
    /// owners.
    pub open spec fn local_piece_added(
        before: Self,
        after: Self,
        piece_idx: FilePieceIdx,
        data: Seq<u8>,
    ) -> bool {
        let piece = piece_idx.0 as int;
        let entry = FilePieceData {
            peer_shift: PiecePeerShift(0),
            num_confirmed_owners: PieceNumConfirmedOwners(
                num_confirmed_owners(before.views(), piece) as usize,
            ),
            num_possible_owners: PieceNumPossibleOwners(
                num_possible_owners(before.views(), piece) as usize,
            ),
        };
        &&& after.local() == before.local().update(piece, true)
        &&& count_ones(after.local()) == count_ones(before.local()) + 1
        &&& after.spec_file().metadata_view() == before.spec_file().metadata_view()
        &&& after.spec_file().piece(piece) == data
        &&& forall|other: int|
            0 <= other < before.spec_num_pieces() && other != piece
                ==> #[trigger] after.spec_file().piece(other) == before.spec_file().piece(other)
        &&& after.recent() == before.recent().push(piece_idx)
        &&& after.remote() == before.remote()
        &&& after.peers() == before.peers()
        &&& after.views() == before.views()
        &&& after.sent() == before.sent()
        &&& if num_confirmed_owners(before.views(), piece) < before.peers().len() {
            &&& after.queues().pieces() == before.queues().pieces().insert(
                piece,
                entry,
            )
            &&& after.queues().contains(piece)
            &&& after.queues().data(piece) == entry
            &&& FilePiecesQueues::inserted(before.queues(), after.queues(), piece_idx, entry)
        } else {
            after.queues() == before.queues()
        }
    }

    /// Whether bytes that arrive for a piece fit a piece of the file.
    pub open spec fn piece_fits(file: Self, piece_idx: FilePieceIdx, bytes: Seq<u8>) -> bool {
        piece_idx.0 < file.spec_num_pieces() && bytes.len() == crate::file::piece_len_of(
            file.spec_file().spec_len(),
            piece_idx.0 as int,
        )
    }

    /// What the arrival of a piece does: bytes that fit a piece that is not
    /// here yet are stored as `local_piece_added` says; anything else
    /// changes nothing.
    pub open spec fn piece_arrived(
        before: Self,
        after: Self,
        piece_idx: FilePieceIdx,
        bytes: Seq<u8>,
    ) -> bool {
        if Self::piece_fits(before, piece_idx, bytes) && !before.local()[piece_idx.0 as int] {
            Self::local_piece_added(before, after, piece_idx, bytes)
        } else {
            after == before
        }
    }

    /// Whether two files hold the same contents and list the same new
    /// pieces.
    pub open spec fn same_contents(before: Self, after: Self) -> bool {
        after.spec_file() == before.spec_file() && after.recent() == before.recent()
    }

    /// What the arrival of a piece does to the contents: bytes that fit a
    /// piece that is not here yet become that piece, which is listed as
    /// new; anything else changes nothing.
    pub open spec fn piece_stored(
        before: Self,
        after: Self,
        piece_idx: FilePieceIdx,
        bytes: Seq<u8>,
    ) -> bool {
        let piece = piece_idx.0 as int;
        if Self::piece_fits(before, piece_idx, bytes) && !before.local()[piece] {
            &&& after.local() == before.local().update(piece, true)
            &&& after.spec_file().metadata_view() == before.spec_file().metadata_view()
            &&& after.spec_file().piece(piece) == bytes
            &&& forall|other: int|
                0 <= other < before.spec_num_pieces() && other != piece
                    ==> #[trigger] after.spec_file().piece(other) == before.spec_file().piece(
                    other,
                )
            &&& after.recent() == before.recent().push(piece_idx)
        } else {
            Self::same_contents(before, after)
        }
    }

    /// What the arrival of a run of pieces does to the contents, one after
    /// the other, whatever else happens to the file between them.
    pub open spec fn pieces_arrived(
        before: Self,
        after: Self,
        arrivals: Seq<(FilePieceIdx, Seq<u8>)>,
    ) -> bool
        decreases arrivals.len(),
    {
        if arrivals.len() == 0 {
            Self::same_contents(before, after)
        } else {
            exists|between: Self|
                {
                    &&& Self::pieces_arrived(before, between, arrivals.drop_last())
                    &&& between.wf()
                    &&& #[trigger] Self::piece_stored(
                        between,
                        after,
                        arrivals.last().0,
                        arrivals.last().1,
                    )
                }
        }
    }

    /// The arrival of a piece stores the piece, also when the sender joins
    /// the file first.
    pub proof fn lemma_arrival_stores(
        before: Self,
        joined: Self,
        after: Self,
        piece_idx: FilePieceIdx,
        bytes: Seq<u8>,
    )
        requires
            Self::same_contents(before, joined),
            Self::piece_arrived(joined, after, piece_idx, bytes),
        ensures
            Self::piece_stored(before, after, piece_idx, bytes),
    {
    }

    /// Whether the arrival at place `at` of a run is the first for its
    /// piece that fits.
    pub open spec fn first_fitting(
        file: Self,
        arrivals: Seq<(FilePieceIdx, Seq<u8>)>,
        at: int,
    ) -> bool {
        &&& 0 <= at < arrivals.len()
        &&& Self::piece_fits(file, arrivals[at].0, arrivals[at].1)
        &&& forall|earlier: int|
            0 <= earlier < at && (#[trigger] arrivals[earlier]).0 == arrivals[at].0
                ==> !Self::piece_fits(file, arrivals[earlier].0, arrivals[earlier].1)
    }

    /// After a run of arrivals, in any order and with repeats, a piece is
    /// here exactly when it was here before or bytes that fit it have
    /// arrived. A piece that was here keeps its bytes, and a piece that is
    /// new holds the bytes of the first arrival that fits it.
    pub proof fn lemma_pieces_arrived(
        before: Self,
        after: Self,
        arrivals: Seq<(FilePieceIdx, Seq<u8>)>,
    )
        requires
            before.wf(),
            after.wf(),
            Self::pieces_arrived(before, after, arrivals),
        ensures
            after.spec_file().metadata_view() == before.spec_file().metadata_view(),
            after.local().len() == before.local().len(),
            forall|piece: int|
                0 <= piece < before.local().len() ==> (#[trigger] after.local()[piece]
                    <==> before.local()[piece] || exists|at: int|
                    0 <= at < arrivals.len() && (#[trigger] arrivals[at]).0.0 == piece
                        && Self::piece_fits(before, arrivals[at].0, arrivals[at].1)),
            forall|piece: int|
                0 <= piece < before.local().len() && before.local()[piece]
                    ==> #[trigger] after.spec_file().piece(piece) == before.spec_file().piece(
                    piece,
                ),
            forall|piece: int|
                0 <= piece < before.local().len() && !before.local()[piece]
                    && #[trigger] after.local()[piece] ==> exists|at: int|
                    #[trigger] Self::first_fitting(before, arrivals, at) && arrivals[at].0.0
                        == piece && after.spec_file().piece(piece) == arrivals[at].1,
        decreases arrivals.len(),
    {
        if arrivals.len() > 0 {
            let init = arrivals.drop_last();
            let last = arrivals.last();
            let between = choose|between: Self|
                {
                    &&& Self::pieces_arrived(before, between, init)
                    &&& between.wf()
                    &&& #[trigger] Self::piece_stored(between, after, last.0, last.1)
                };
            Self::lemma_pieces_arrived(before, between, init);
            let stored = Self::piece_fits(between, last.0, last.1) && !between.local()[last.0.0 as int];
            let new = last.0.0 as int;
            assert(Self::piece_fits(between, last.0, last.1) == Self::piece_fits(
                before,
                last.0,
                last.1,
            ));
            assert forall|piece: int| 0 <= piece < before.local().len() implies (
            #[trigger] after.local()[piece] <==> before.local()[piece] || exists|at: int|
                0 <= at < arrivals.len() && (#[trigger] arrivals[at]).0.0 == piece
                    && Self::piece_fits(before, arrivals[at].0, arrivals[at].1)) by {
                if after.local()[piece] && !before.local()[piece] {
                    if between.local()[piece] {
                        let at = choose|at: int|
                            0 <= at < init.len() && (#[trigger] init[at]).0.0 == piece
                                && Self::piece_fits(before, init[at].0, init[at].1);
                        assert(arrivals[at] == init[at]);
                    } else {
                        assert(stored && piece == new);
                        assert(arrivals[arrivals.len() - 1] == last);
                    }
                }
                if exists|at: int|
                    0 <= at < arrivals.len() && (#[trigger] arrivals[at]).0.0 == piece
                        && Self::piece_fits(before, arrivals[at].0, arrivals[at].1) {
                    let at = choose|at: int|
                        0 <= at < arrivals.len() && (#[trigger] arrivals[at]).0.0 == piece
                            && Self::piece_fits(before, arrivals[at].0, arrivals[at].1);
                    if at < init.len() {
                        assert(init[at] == arrivals[at]);
                        assert(between.local()[piece]);
                    } else {
                        assert(arrivals[at] == last);
                    }
                }
            }
            assert forall|piece: int|
                0 <= piece < before.local().len() && before.local()[piece] implies #[trigger] after.spec_file().piece(
                piece,
            ) == before.spec_file().piece(piece) by {
                assert(between.local()[piece]);
            }
            assert forall|piece: int|
                0 <= piece < before.local().len() && !before.local()[piece]
                    && #[trigger] after.local()[piece] implies exists|at: int|
                #[trigger] Self::first_fitting(before, arrivals, at) && arrivals[at].0.0 == piece
                    && after.spec_file().piece(piece) == arrivals[at].1 by {
                if between.local()[piece] {
                    let at = choose|at: int|
                        #[trigger] Self::first_fitting(before, init, at) && init[at].0.0 == piece
                            && between.spec_file().piece(piece) == init[at].1;
                    assert(arrivals[at] == init[at]);
                    assert forall|earlier: int|
                        0 <= earlier < at && (#[trigger] arrivals[earlier]).0
                            == arrivals[at].0 implies !Self::piece_fits(
                        before,
                        arrivals[earlier].0,
                        arrivals[earlier].1,
                    ) by {
                        assert(arrivals[earlier] == init[earlier]);
                    }
                    assert(Self::first_fitting(before, arrivals, at));
                } else {
                    let at = arrivals.len() - 1;
                    assert(stored && piece == new);
                    assert(arrivals[at] == last);
                    assert forall|earlier: int|
                        0 <= earlier < at && (#[trigger] arrivals[earlier]).0
                            == arrivals[at].0 implies !Self::piece_fits(
                        before,
                        arrivals[earlier].0,
                        arrivals[earlier].1,
                    ) by {
                        assert(arrivals[earlier] == init[earlier]);
                        if Self::piece_fits(before, init[earlier].0, init[earlier].1) {
                            assert(init[earlier].0.0 == piece);
                            assert(between.local()[piece]);
                        }
                    }
                    assert(Self::first_fitting(before, arrivals, at));
                }
            }
        }
    }

    /// After a run of arrivals the list of new pieces holds what it held,
    /// and behind that each piece that the run has brought, once.
    pub proof fn lemma_new_pieces_listed_once(
        before: Self,
        after: Self,
        arrivals: Seq<(FilePieceIdx, Seq<u8>)>,
    )
        requires
            before.wf(),
            after.wf(),
            Self::pieces_arrived(before, after, arrivals),
        ensures
            before.recent().len() <= after.recent().len(),
            after.recent().take(before.recent().len() as int) == before.recent(),
            forall|a: int|
                before.recent().len() <= a < after.recent().len() ==> {
                    let piece = (#[trigger] after.recent()[a]).0 as int;
                    0 <= piece < before.local().len() && !before.local()[piece]
                        && after.local()[piece]
                },
            forall|a: int, b: int|
                before.recent().len() <= a < b < after.recent().len() ==> (
                #[trigger] after.recent()[a]) != (#[trigger] after.recent()[b]),
            forall|piece: int|
                0 <= piece < before.local().len() && !before.local()[piece]
                    && #[trigger] after.local()[piece] ==> exists|a: int|
                    before.recent().len() <= a < after.recent().len() && (
                    #[trigger] after.recent()[a]).0 == piece,
        decreases arrivals.len(),
    {
        if arrivals.len() == 0 {
            assert(after.recent().take(before.recent().len() as int) =~= before.recent());
        } else {
            let init = arrivals.drop_last();
            let last = arrivals.last();
            let between = choose|between: Self|
                {
                    &&& Self::pieces_arrived(before, between, init)
                    &&& between.wf()
                    &&& #[trigger] Self::piece_stored(between, after, last.0, last.1)
                };
            Self::lemma_new_pieces_listed_once(before, between, init);
            Self::lemma_pieces_arrived(before, between, init);
            let start = before.recent().len() as int;
            let new = last.0.0 as int;
            if Self::piece_fits(between, last.0, last.1) && !between.local()[new] {
                assert(after.recent() == between.recent().push(last.0));
                assert(after.recent().take(start) =~= between.recent().take(start));
                assert forall|a: int| start <= a < after.recent().len() implies {
                    let piece = (#[trigger] after.recent()[a]).0 as int;
                    0 <= piece < before.local().len() && !before.local()[piece]
                        && after.local()[piece]
                } by {
                    if a < between.recent().len() {
                        assert(after.recent()[a] == between.recent()[a]);
                    }
                }
                assert forall|a: int, b: int| start <= a < b < after.recent().len() implies (
                #[trigger] after.recent()[a]) != (#[trigger] after.recent()[b]) by {
                    assert(after.recent()[a] == between.recent()[a]);
                    if b < between.recent().len() {
                        assert(after.recent()[b] == between.recent()[b]);
                    } else {
                        assert(between.local()[between.recent()[a].0 as int]);
                    }
                }
                assert forall|piece: int|
                    0 <= piece < before.local().len() && !before.local()[piece]
                        && #[trigger] after.local()[piece] implies exists|a: int|
                    start <= a < after.recent().len() && (#[trigger] after.recent()[a]).0
                        == piece by {
                    if between.local()[piece] {
                        let a = choose|a: int|
                            start <= a < between.recent().len() && (
                            #[trigger] between.recent()[a]).0 == piece;
                        assert(after.recent()[a] == between.recent()[a]);
                    } else {
                        assert(after.recent()[after.recent().len() - 1] == last.0);
                    }
                }
            }
        }
    }

    /// Whether bytes that fit a piece are among the arrivals of a run.
    pub open spec fn has_fitting(
        file: Self,
        arrivals: Seq<(FilePieceIdx, Seq<u8>)>,
        piece: int,
    ) -> bool {
        exists|at: int|
            0 <= at < arrivals.len() && (#[trigger] arrivals[at]).0.0 == piece && Self::piece_fits(
                file,
                arrivals[at].0,
                arrivals[at].1,
            )
    }

    /// Once bytes that fit have arrived for every piece, in any order and
    /// with repeats, the file is complete.
    pub proof fn lemma_all_pieces_arrived(
        before: Self,
        after: Self,
        arrivals: Seq<(FilePieceIdx, Seq<u8>)>,
    )
        requires
            before.wf(),
            after.wf(),
            Self::pieces_arrived(before, after, arrivals),
            forall|piece: int|
                0 <= piece < before.local().len() ==> #[trigger] Self::has_fitting(
                    before,
                    arrivals,
                    piece,
                ),
        ensures
            forall|piece: int| 0 <= piece < after.local().len() ==> after.local()[piece],
            count_ones(after.local()) == after.local().len(),
    {
        Self::lemma_pieces_arrived(before, after, arrivals);
        assert forall|piece: int| 0 <= piece < after.local().len() implies after.local()[piece] by {
            assert(Self::has_fitting(before, arrivals, piece));
        }
        crate::bits::lemma_count_ones_full(after.local());
    }

    /// Stores a piece that arrived and, unless every peer is known to hold
    /// it, queues it for sending.
    pub fn add_local_piece(&mut self, piece_idx: FilePieceIdx, data: &[u8]) -> (r: Result<
        (),
        SharedFileAddLocalPieceError,
    >)
        requires
            old(self).wf(),
        ensures
            final(self).wf(),
            match r {
                Err(err) => {
                    &&& *final(self) == *old(self)
                    &&& err == if piece_idx.0 >= old(self).spec_num_pieces() {
                        SharedFileAddLocalPieceError::SetPiece(
                            FileSetPieceError::AddPieceError(
                                crate::file_state::FileStatePieceError::PieceIndexOutOfRange,
                            ),
                        )
                    } else if data@.len() != crate::file::piece_len_of(
                        old(self).spec_file().spec_len(),
                        piece_idx.0 as int,
                    ) {
                        SharedFileAddLocalPieceError::SetPiece(
                            FileSetPieceError::InvalidPieceLen {
                                expected: crate::file::piece_len_of(
                                    old(self).spec_file().spec_len(),
                                    piece_idx.0 as int,
                                ) as usize,
                            },
                        )
                    } else {
                        SharedFileAddLocalPieceError::PieceIsAlreadySet
                    }
                },
                Ok(()) => Self::local_piece_added(*old(self), *final(self), piece_idx, data@),
            },
            r is Ok <==> piece_idx.0 < old(self).spec_num_pieces() && data@.len()
                == crate::file::piece_len_of(old(self).spec_file().spec_len(), piece_idx.0 as int)
                && !old(self).local()[piece_idx.0 as int],
    {
        match self.file.set_piece(&piece_idx, data) {
            Err(err) => {
                return Err(SharedFileAddLocalPieceError::SetPiece(err));
            },
            Ok(FileStateSetStatus::AlreadySet) => {
                return Err(SharedFileAddLocalPieceError::PieceIsAlreadySet);
            },
            Ok(FileStateSetStatus::JustSet) => {},
        }
        let ghost piece = piece_idx.0 as int;
        self.recently_added_pieces.push(piece_idx);
        let num_views = self.shared_peers.len();
        proof {
            assert(self.views().len() == num_views);
            lemma_count_ones_update(old(self).local(), piece, true);
            Self::lemma_views_within_peers(self.peers(), self.views());
            lemma_all_confirmed(self.views(), piece);
            lemma_confirmed_at_most_possible(self.views(), old(self).local(), piece);
            assert(!old(self).queues().contains(piece));
            assert(views_fit(self.views(), self.local()));
        }
        let confirmed_owners = self.count_confirmed(piece_idx.0);
        if confirmed_owners == self.peers.len() {
            return Ok(());
        }
        let possible_owners = self.count_possible(piece_idx.0);
        let entry = FilePieceData {
            peer_shift: PiecePeerShift(0),
            num_confirmed_owners: PieceNumConfirmedOwners(confirmed_owners),
            num_possible_owners: PieceNumPossibleOwners(possible_owners),
        };
        let ghost before = self.piece_queues;
        let _ = self.piece_queues.insert(piece_idx, entry);
        proof {
            assert forall|other: int| #[trigger]
                self.queues().contains(other) implies {
                &&& 0 <= other < self.local().len()
                &&& self.local()[other]
                &&& self.queues().data(other).num_confirmed_owners.0 == num_confirmed_owners(
                    self.views(),
                    other,
                )
                &&& self.queues().data(other).num_possible_owners.0 == num_possible_owners(
                    self.views(),
                    other,
                )
            } by {
                assert(self.queues().pieces().contains_key(other));
                if other != piece {
                    assert(before.pieces().contains_key(other));
                    assert(before.contains(other));
                    assert(self.queues().pieces()[other] == before.pieces()[other]);
                } else {
                    assert(self.queues().pieces()[other] == entry);
                }
            }
            assert forall|other: int|
                0 <= other < self.local().len() && self.local()[other] && !self.remote()[other] implies #[trigger] self.queues().contains(
                other,
            ) by {
                if other != piece {
                    assert(before.contains(other));
                    assert(before.pieces().contains_key(other));
                }
                assert(self.queues().pieces().contains_key(other));
            }
        }
        Ok(())
    }

    /// The place of a peer among the bitmaps, for marking a piece.
    fn mark_peer_state_with_piece_idx(&self, peer_id: &PeerId, piece_idx: FilePieceIdx) -> (r:
        Result<usize, SharedFileMarkError>)
        requires
            self.wf(),
        ensures
            r == Self::spec_mark_target(self.peers(), self.local().len(), *peer_id, piece_idx),
            r is Ok ==> r->Ok_0 < self.views().len() && self.views()[r->Ok_0 as int].peer_id
                == *peer_id && piece_idx.0 < self.local().len(),
    {
        if piece_idx.0 >= self.file.num_pieces() {
            return Err(SharedFileMarkError::PieceIndexOutOfRange);
        }
        match self.peers.get(&peer_id.0) {
            None => Err(SharedFileMarkError::PeerIsNotAdded),
            Some(peer) => match peer.state_idx {
                None => Err(SharedFileMarkError::PeerStateIsNotAdded),
                Some(k) => Ok(k),
            },
        }
    }

    /// Which bitmap a mark of a piece for a peer touches, or why none.
    pub open spec fn spec_mark_target(
        peers: Map<u32, SharedFilePeer>,
        num_pieces: nat,
        peer_id: PeerId,
        piece_idx: FilePieceIdx,
    ) -> Result<usize, SharedFileMarkError> {
        if piece_idx.0 >= num_pieces {
            Err(SharedFileMarkError::PieceIndexOutOfRange)
        } else if !peers.contains_key(peer_id.0) {
            Err(SharedFileMarkError::PeerIsNotAdded)
        } else {
            match peers[peer_id.0].state_idx {
                None => Err(SharedFileMarkError::PeerStateIsNotAdded),
                Some(k) => Ok(k),
            }
        }
    }

    /// The bitmaps after one peer's bits for one piece have been written.
    pub open spec fn views_with_bits(
        views: Seq<PeerStateView>,
        k: int,
        piece: int,
        confirmed: bool,
        possible: bool,
    ) -> Seq<PeerStateView> {
        views.update(
            k,
            PeerStateView {
                peer_id: views[k].peer_id,
                confirmed: views[k].confirmed.update(piece, confirmed),
                possible: views[k].possible.update(piece, possible),
            },
        )
    }

    /// The queues stay in step with the bitmaps when one peer's bits for one
    /// piece change and the entry of that piece follows.
    proof fn lemma_queues_match_after_bit_change(
        before: FilePiecesQueues,
        after: FilePiecesQueues,
        views: Seq<PeerStateView>,
        local: Seq<bool>,
        remote: Seq<bool>,
        remote_after: Seq<bool>,
        k: int,
        piece: int,
        confirmed: bool,
        possible: bool,
    )
        requires
            queues_match(before, views, local, remote),
            views_fit(views, local),
            remote.len() == local.len(),
            remote_after.len() == local.len(),
            0 <= k < views.len(),
            0 <= piece < local.len(),
            forall|other: int|
                other != piece ==> after.contains(other) == before.contains(other) && (
                before.contains(other) ==> after.data(other) == before.data(other)),
            forall|other: int|
                0 <= other < local.len() && other != piece ==> remote_after[other]
                    == remote[other],
            after.contains(piece) ==> local[piece] && after.data(piece).num_confirmed_owners.0
                == num_confirmed_owners(
                Self::views_with_bits(views, k, piece, confirmed, possible),
                piece,
            ) && after.data(piece).num_possible_owners.0 == num_possible_owners(
                Self::views_with_bits(views, k, piece, confirmed, possible),
                piece,
            ),
            local[piece] && !remote_after[piece] ==> after.contains(piece),
        ensures
            queues_match(
                after,
                Self::views_with_bits(views, k, piece, confirmed, possible),
                local,
                remote_after,
            ),
    {
        let views_after = Self::views_with_bits(views, k, piece, confirmed, possible);
        lemma_counts_after_bit_change(views, views_after, k, piece);
        assert forall|other: int| #[trigger] after.contains(other) implies {
            &&& 0 <= other < local.len()
            &&& local[other]
            &&& after.data(other).num_confirmed_owners.0 == num_confirmed_owners(
                views_after,
                other,
            )
            &&& after.data(other).num_possible_owners.0 == num_possible_owners(views_after, other)
        } by {
            if other != piece {
                assert(before.contains(other));
                assert(confirmed_column(views_after, other) == confirmed_column(views, other));
                assert(possible_column(views_after, other) == possible_column(views, other));
            }
        }
        assert forall|other: int|
            0 <= other < local.len() && local[other] && !remote_after[other] implies #[trigger] after.contains(
            other,
        ) by {
            if other != piece {
                assert(before.contains(other));
            }
        }
    }

    /// The remote bitmap stays the meet of the confirmed bitmaps when one
    /// peer's bits for one piece change and the remote bit of that piece
    /// follows.
    proof fn lemma_remote_after_bit_change(
        views: Seq<PeerStateView>,
        remote: Seq<bool>,
        remote_after: Seq<bool>,
        k: int,
        piece: int,
        confirmed: bool,
        possible: bool,
    )
        requires
            remote_is_meet(remote, views),
            remote_after.len() == remote.len(),
            0 <= k < views.len(),
            0 <= piece < remote.len(),
            views[k].confirmed.len() == remote.len(),
            views[k].possible.len() == remote.len(),
            forall|other: int|
                0 <= other < remote.len() && other != piece ==> remote_after[other]
                    == remote[other],
            remote_after[piece] <==> num_confirmed_owners(
                Self::views_with_bits(views, k, piece, confirmed, possible),
                piece,
            ) == views.len(),
        ensures
            remote_is_meet(
                remote_after,
                Self::views_with_bits(views, k, piece, confirmed, possible),
            ),
    {
        let views_after = Self::views_with_bits(views, k, piece, confirmed, possible);
        lemma_counts_after_bit_change(views, views_after, k, piece);
        assert forall|other: int| 0 <= other < remote_after.len() implies (
        #[trigger] remote_after[other] <==> num_confirmed_owners(views_after, other)
            == views_after.len()) by {
            if other != piece {
                assert(confirmed_column(views_after, other) == confirmed_column(views, other));
                assert(remote[other] <==> num_confirmed_owners(views, other) == views.len());
            }
        }
    }

    /// What a peer's acknowledging a piece does: the peer is known to hold
    /// the piece; a piece that is present here counts one more confirmed
    /// owner, and one more possible owner if the peer was not taken to hold
    /// it, and moves to the end of the queue of its new count. An
    /// acknowledgement of a piece that the peer is known to hold, from a
    /// peer without a bitmap or for a piece out of range changes nothing.
    pub open spec fn piece_acknowledged(
        before: Self,
        after: Self,
        peer_id: PeerId,
        piece_idx: FilePieceIdx,
    ) -> bool {
        match Self::spec_mark_target(before.peers(), before.local().len(), peer_id, piece_idx) {
            Err(_) => after == before,
            Ok(k) => {
                let piece = piece_idx.0 as int;
                let was = before.views()[k as int];
                if was.confirmed[piece] {
                    after == before
                } else {
                    &&& after.views() == Self::views_with_bits(
                        before.views(),
                        k as int,
                        piece,
                        true,
                        true,
                    )
                    &&& after.remote() == before.remote().update(
                        piece,
                        num_confirmed_owners(before.views(), piece) + 1 == before.views().len(),
                    )
                    &&& after.spec_file() == before.spec_file()
                    &&& after.peers() == before.peers()
                    &&& after.sent() == before.sent()
                    &&& after.recent() == before.recent()
                    &&& if before.local()[piece] {
                        &&& before.queues().contains(piece)
                        &&& FilePiecesQueues::requeued(
                            before.queues(),
                            after.queues(),
                            piece_idx,
                            FilePieceData {
                                peer_shift: before.queues().data(piece).peer_shift,
                                num_confirmed_owners: PieceNumConfirmedOwners(
                                    (before.queues().data(piece).num_confirmed_owners.0
                                        + 1) as usize,
                                ),
                                num_possible_owners: PieceNumPossibleOwners(
                                    (before.queues().data(piece).num_possible_owners.0 + bit(
                                        !was.possible[piece],
                                    )) as usize,
                                ),
                            },
                        )
                    } else {
                        after.queues() == before.queues()
                    }
                }
            },
        }
    }

    /// What a peer's acknowledging a run of pieces does, one after the
    /// other.
    pub open spec fn pieces_acknowledged(
        before: Self,
        after: Self,
        peer_id: PeerId,
        pieces: Seq<FilePieceIdx>,
    ) -> bool
        decreases pieces.len(),
    {
        if pieces.len() == 0 {
            after == before
        } else {
            exists|between: Self|
                {
                    &&& Self::pieces_acknowledged(before, between, peer_id, pieces.drop_last())
                    &&& between.wf()
                    &&& #[trigger] Self::piece_acknowledged(
                        between,
                        after,
                        peer_id,
                        pieces.last(),
                    )
                }
        }
    }

    /// Records that a peer has acknowledged a piece.
    pub fn mark_peer_piece_as_received_by_remote(
        &mut self,
        peer_id: &PeerId,
        piece_idx: FilePieceIdx,
    ) -> (r: Result<SharedFileMarkStatus, SharedFileMarkError>)
        requires
            old(self).wf(),
        ensures
            final(self).wf(),
            Self::piece_acknowledged(*old(self), *final(self), *peer_id, piece_idx),
            r == match Self::spec_mark_target(
                old(self).peers(),
                old(self).local().len(),
                *peer_id,
                piece_idx,
            ) {
                Err(err) => Err::<SharedFileMarkStatus, SharedFileMarkError>(err),
                Ok(k) => Ok(
                    if old(self).views()[k as int].confirmed[piece_idx.0 as int] {
                        SharedFileMarkStatus::AlreadyMarked
                    } else {
                        SharedFileMarkStatus::JustMarked
                    },
                ),
            },
    {
        let k = match self.mark_peer_state_with_piece_idx(peer_id, piece_idx) {
            Ok(k) => k,
            Err(err) => {
                return Err(err);
            },
        };
        let ghost piece = piece_idx.0 as int;
        let ghost views = self.views();
        let num_views = self.shared_peers.len();
        proof {
            assert(views[k as int].confirmed.len() == self.local().len());
            assert(views[k as int].possible.len() == self.local().len());
            Self::lemma_views_within_peers(self.peers(), views);
            lemma_all_confirmed(views, piece);
            lemma_confirmed_at_most_possible(views, self.local(), piece);
        }
        match self.shared_peers[k].confirmed.has(&piece_idx) {
            Ok(false) => {},
            _ => {
                return Ok(SharedFileMarkStatus::AlreadyMarked);
            },
        }
        let _ = self.shared_peers[k].confirmed.set(&piece_idx);
        let possible = self.shared_peers[k].possible.set(&piece_idx);
        let ghost views_after = Self::views_with_bits(views, k as int, piece, true, true);
        proof {
            assert(self.views() =~= views_after);
            lemma_counts_after_bit_change(views, views_after, k as int, piece);
            assert(views_fit(views_after, self.local())) by {
                assert forall|j: int| 0 <= j < views_after.len() implies {
                    &&& (#[trigger] views_after[j]).confirmed.len() == self.local().len()
                    &&& views_after[j].possible.len() == self.local().len()
                    &&& forall|other: int|
                        0 <= other < self.local().len() ==> (views_after[j].confirmed[other]
                            ==> #[trigger] views_after[j].possible[other])
                    &&& forall|other: int|
                        0 <= other < self.local().len() ==> (
                        #[trigger] views_after[j].possible[other]
                            && !views_after[j].confirmed[other] ==> self.local()[other])
                } by {
                    assert(views[j].confirmed.len() == self.local().len());
                    if j == k {
                        assert forall|other: int| 0 <= other < self.local().len() implies (
                        views_after[j].confirmed[other]
                            ==> #[trigger] views_after[j].possible[other]) by {
                            if other != piece && views[j].confirmed[other] {
                                assert(views[j].possible[other]);
                            }
                        }
                        assert forall|other: int| 0 <= other < self.local().len() implies (
                        #[trigger] views_after[j].possible[other]
                            && !views_after[j].confirmed[other] ==> self.local()[other]) by {
                            if other != piece && views[j].possible[other]
                                && !views[j].confirmed[other] {
                            }
                        }
                    }
                }
            }
        }
        let confirmed_owners = self.count_confirmed(piece_idx.0);
        if confirmed_owners == num_views {
            let _ = self.confirmed_remote_state.set(&piece_idx);
        }
        proof {
            assert(self.remote() =~= old(self).remote().update(
                piece,
                num_confirmed_owners(views, piece) + 1 == views.len(),
            ));
            Self::lemma_remote_after_bit_change(
                views,
                old(self).remote(),
                self.remote(),
                k as int,
                piece,
                true,
                true,
            );
            assert(forall|at: int|
                0 <= at < self.sent().len() ==> has_view(views, (#[trigger] self.sent()[at]).peer_id));
            assert forall|at: int| 0 <= at < self.sent().len() implies has_view(
                views_after,
                (#[trigger] self.sent()[at]).peer_id,
            ) by {
                let j = choose|j: int|
                    0 <= j < views.len() && (#[trigger] views[j]).peer_id == self.sent()[at].peer_id;
                assert(views_after[j].peer_id == self.sent()[at].peer_id);
            }
            assert(Self::peers_match(self.peers(), views_after)) by {
                assert forall|j: int| 0 <= j < views_after.len() implies self.peers().contains_key(
                    (#[trigger] views_after[j]).peer_id.0,
                ) && self.peers()[views_after[j].peer_id.0].state_idx == Some(j as usize) by {
                    assert(views[j].peer_id == views_after[j].peer_id);
                }
            }
        }
        let has_piece = match self.file.has_piece(&piece_idx) {
            Ok(has) => has,
            Err(_) => false,
        };
        if !has_piece {
            proof {
                Self::lemma_queues_match_after_bit_change(
                    self.queues(),
                    self.queues(),
                    views,
                    self.local(),
                    old(self).remote(),
                    self.remote(),
                    k as int,
                    piece,
                    true,
                    true,
                );
            }
            return Ok(SharedFileMarkStatus::JustMarked);
        }
        let ghost before = self.piece_queues;
        assert(before.contains(piece));
        match self.piece_queues.get(piece_idx) {
            Ok(entry) => {
                let bump: usize = match possible {
                    Ok(FileStateSetStatus::JustSet) => 1,
                    _ => 0,
                };
                let entry = FilePieceData {
                    peer_shift: entry.peer_shift,
                    num_confirmed_owners: PieceNumConfirmedOwners(
                        entry.num_confirmed_owners.0 + 1,
                    ),
                    num_possible_owners: PieceNumPossibleOwners(
                        entry.num_possible_owners.0 + bump,
                    ),
                };
                self.piece_queues.requeue(piece_idx, entry);
            },
            Err(_) => {},
        }
        proof {
            assert forall|other: int| other != piece implies self.queues().contains(other)
                == before.contains(other) && (before.contains(other) ==> self.queues().data(other)
                == before.data(other)) by {
                assert(self.queues().pieces().contains_key(other) == before.pieces().contains_key(
                    other,
                ));
                if before.contains(other) {
                    assert(self.queues().pieces()[other] == before.pieces()[other]);
                }
            }
            assert(self.queues().pieces().contains_key(piece));
            assert(self.queues().pieces()[piece] == self.queues().data(piece));
            Self::lemma_queues_match_after_bit_change(
                before,
                self.queues(),
                views,
                self.local(),
                old(self).remote(),
                self.remote(),
                k as int,
                piece,
                true,
                true,
            );
            assert(self.peers().len() > 0) by {
                assert(self.peers().contains_key(views[k as int].peer_id.0));
                if self.peers().len() == 0 {
                    assert(self.peers().dom() =~= Set::empty());
                }
            }
        }
        Ok(SharedFileMarkStatus::JustMarked)
    }

    /// Writing one peer's bits for one piece leaves the peers' records, the
    /// shape of the bitmaps and the peers of the sent pieces as they were.
    proof fn lemma_frame_after_bit_change(
        peers: Map<u32, SharedFilePeer>,
        views: Seq<PeerStateView>,
        local: Seq<bool>,
        sent: Seq<SentPiece>,
        k: int,
        piece: int,
        confirmed: bool,
        possible: bool,
    )
        requires
            Self::peers_match(peers, views),
            views_fit(views, local),
            0 <= k < views.len(),
            0 <= piece < local.len(),
            confirmed ==> possible,
            possible && !confirmed ==> local[piece],
            forall|at: int| 0 <= at < sent.len() ==> has_view(views, (#[trigger] sent[at]).peer_id),
        ensures
            Self::peers_match(peers, Self::views_with_bits(views, k, piece, confirmed, possible)),
            views_fit(Self::views_with_bits(views, k, piece, confirmed, possible), local),
            forall|at: int|
                0 <= at < sent.len() ==> has_view(
                    Self::views_with_bits(views, k, piece, confirmed, possible),
                    (#[trigger] sent[at]).peer_id,
                ),
    {
        let after = Self::views_with_bits(views, k, piece, confirmed, possible);
        assert forall|j: int| 0 <= j < after.len() implies peers.contains_key(
            (#[trigger] after[j]).peer_id.0,
        ) && peers[after[j].peer_id.0].state_idx == Some(j as usize) by {
            assert(views[j].peer_id == after[j].peer_id);
        }
        assert forall|at: int| 0 <= at < sent.len() implies has_view(
            after,
            (#[trigger] sent[at]).peer_id,
        ) by {
            let j = choose|j: int|
                0 <= j < views.len() && (#[trigger] views[j]).peer_id == sent[at].peer_id;
            assert(after[j].peer_id == sent[at].peer_id);
        }
        assert forall|j: int| 0 <= j < after.len() implies {
            &&& (#[trigger] after[j]).confirmed.len() == local.len()
            &&& after[j].possible.len() == local.len()
            &&& forall|other: int|
                0 <= other < local.len() ==> (after[j].confirmed[other]
                    ==> #[trigger] after[j].possible[other])
            &&& forall|other: int|
                0 <= other < local.len() ==> (#[trigger] after[j].possible[other]
                    && !after[j].confirmed[other] ==> local[other])
        } by {
            assert(views[j].confirmed.len() == local.len());
            if j == k {
                assert forall|other: int| 0 <= other < local.len() implies (
                after[j].confirmed[other] ==> #[trigger] after[j].possible[other]) by {
                    if other != piece && views[j].confirmed[other] {
                        assert(views[j].possible[other]);
                    }
                }
                assert forall|other: int| 0 <= other < local.len() implies (
                #[trigger] after[j].possible[other] && !after[j].confirmed[other]
                    ==> local[other]) by {
                    if other != piece && views[j].possible[other] && !views[j].confirmed[other] {
                    }
                }
            }
        }
    }

    /// Forgets that a piece was sent to a peer, unless the peer has
    /// acknowledged it, so that the piece can go out again.
    pub fn mark_for_resend_if_not_sent(&mut self, peer_id: &PeerId, piece_idx: FilePieceIdx) -> (r:
        Result<SharedFileMarkForResendStatus, SharedFileMarkError>)
        requires
            old(self).wf(),
        ensures
            final(self).wf(),
            match Self::spec_mark_target(
                old(self).peers(),
                old(self).local().len(),
                *peer_id,
                piece_idx,
            ) {
                Err(err) => r == Err::<SharedFileMarkForResendStatus, SharedFileMarkError>(err)
                    && *final(self) == *old(self),
                Ok(k) => {
                    let piece = piece_idx.0 as int;
                    let was = old(self).views()[k as int];
                    if was.confirmed[piece] {
                        &&& r == Ok::<SharedFileMarkForResendStatus, SharedFileMarkError>(
                            SharedFileMarkForResendStatus::Received,
                        )
                        &&& *final(self) == *old(self)
                    } else if !was.possible[piece] {
                        &&& r == Ok::<SharedFileMarkForResendStatus, SharedFileMarkError>(
                            SharedFileMarkForResendStatus::AlreadyMarked,
                        )
                        &&& *final(self) == *old(self)
                    } else {
                        &&& r == Ok::<SharedFileMarkForResendStatus, SharedFileMarkError>(
                            SharedFileMarkForResendStatus::JustMarked,
                        )
                        &&& final(self).views() == Self::views_with_bits(
                            old(self).views(),
                            k as int,
                            piece,
                            false,
                            false,
                        )
                        &&& final(self).remote() == old(self).remote()
                        &&& final(self).spec_file() == old(self).spec_file()
                        &&& final(self).peers() == old(self).peers()
                        &&& final(self).sent() == old(self).sent()
                        &&& final(self).recent() == old(self).recent()
                        &&& old(self).queues().contains(piece)
                        &&& FilePiecesQueues::requeued(
                            old(self).queues(),
                            final(self).queues(),
                            piece_idx,
                            FilePieceData {
                                peer_shift: old(self).queues().data(piece).peer_shift,
                                num_confirmed_owners: old(self).queues().data(
                                    piece,
                                ).num_confirmed_owners,
                                num_possible_owners: PieceNumPossibleOwners(
                                    (old(self).queues().data(piece).num_possible_owners.0
                                        - 1) as usize,
                                ),
                            },
                        )
                    }
                },
            },
    {
        let k = match self.mark_peer_state_with_piece_idx(peer_id, piece_idx) {
            Ok(k) => k,
            Err(err) => {
                return Err(err);
            },
        };
        let ghost piece = piece_idx.0 as int;
        let ghost views = self.views();
        proof {
            assert(views[k as int].confirmed.len() == self.local().len());
            assert(views[k as int].possible.len() == self.local().len());
            lemma_all_confirmed(views, piece);
        }
        match self.shared_peers[k].confirmed.has(&piece_idx) {
            Ok(false) => {},
            _ => {
                return Ok(SharedFileMarkForResendStatus::Received);
            },
        }
        match self.shared_peers[k].possible.has(&piece_idx) {
            Ok(true) => {},
            _ => {
                return Ok(SharedFileMarkForResendStatus::AlreadyMarked);
            },
        }
        assert(views[k as int].possible[piece] && !views[k as int].confirmed[piece]);
        assert(self.local()[piece]);
        assert(self.queues().contains(piece));
        let _ = self.shared_peers[k].possible.unset(&piece_idx);
        let ghost views_after = Self::views_with_bits(views, k as int, piece, false, false);
        let ghost before = self.piece_queues;
        proof {
            assert(views[k as int].confirmed.update(piece, false) =~= views[k as int].confirmed);
            assert(self.views() =~= views_after);
            lemma_counts_after_bit_change(views, views_after, k as int, piece);
            Self::lemma_frame_after_bit_change(
                self.peers(),
                views,
                self.local(),
                self.sent(),
                k as int,
                piece,
                false,
                false,
            );
            Self::lemma_remote_after_bit_change(
                views,
                self.remote(),
                self.remote(),
                k as int,
                piece,
                false,
                false,
            );
        }
        match self.piece_queues.get(piece_idx) {
            Ok(entry) => {
                let entry = FilePieceData {
                    peer_shift: entry.peer_shift,
                    num_confirmed_owners: entry.num_confirmed_owners,
                    num_possible_owners: PieceNumPossibleOwners(entry.num_possible_owners.0 - 1),
                };
                self.piece_queues.requeue(piece_idx, entry);
            },
            Err(_) => {},
        }
        proof {
            assert forall|other: int| other != piece implies self.queues().contains(other)
                == before.contains(other) && (before.contains(other) ==> self.queues().data(other)
                == before.data(other)) by {
                assert(self.queues().pieces().contains_key(other) == before.pieces().contains_key(
                    other,
                ));
                if before.contains(other) {
                    assert(self.queues().pieces()[other] == before.pieces()[other]);
                }
            }
            assert(self.queues().pieces().contains_key(piece));
            assert(self.queues().pieces()[piece] == self.queues().data(piece));
            Self::lemma_queues_match_after_bit_change(
                before,
                self.queues(),
                views,
                self.local(),
                self.remote(),
                self.remote(),
                k as int,
                piece,
                false,
                false,
            );
            assert(self.peers().len() > 0) by {
                assert(self.peers().contains_key(views[k as int].peer_id.0));
                if self.peers().len() == 0 {
                    assert(self.peers().dom() =~= Set::empty());
                }
            }
        }
        Ok(SharedFileMarkForResendStatus::JustMarked)
    }

    /// Puts an entry into the list of sent pieces, behind every entry that
    /// is not younger.
    fn push_sent(&mut self, entry: SentPiece)
        requires
            sent_sorted(old(self).sent()),
        ensures
            final(self).sent() == old(self).sent().insert(
                sent_position(old(self).sent(), entry.time),
                entry,
            ),
            0 <= sent_position(old(self).sent(), entry.time) <= old(self).sent().len(),
            sent_sorted(final(self).sent()),
            final(self).file == old(self).file,
            final(self).confirmed_remote_state == old(self).confirmed_remote_state,
            final(self).peers == old(self).peers,
            final(self).shared_peers == old(self).shared_peers,
            final(self).piece_queues == old(self).piece_queues,
            final(self).recently_added_pieces == old(self).recently_added_pieces,
    {
        let mut at: usize = self.sent_pieces.len();
        let ghost sent = self.sent_pieces@;
        assert(sent.take(at as int) =~= sent);
        while at > 0 && self.sent_pieces[at - 1].time.0 > entry.time.0
            invariant
                at <= sent.len(),
                sent == self.sent_pieces@,
                *self == *old(self),
                sent_position(sent, entry.time) == sent_position(sent.take(at as int), entry.time),
                forall|a: int| at <= a < sent.len() ==> sent[a].time.0 > entry.time.0,
            decreases at,
        {
            assert(sent.take(at as int).drop_last() =~= sent.take(at - 1));
            at -= 1;
        }
        assert(sent.take(sent.len() as int) =~= sent);
        assert(sent_position(sent.take(at as int), entry.time) == at);
        self.sent_pieces.insert(at, entry);
        assert forall|a: int, b: int| 0 <= a <= b < self.sent().len() implies self.sent()[a].time.0
            <= self.sent()[b].time.0 by {
            if a < at && b > at {
                assert(sent[a].time.0 <= sent[b - 1].time.0);
            }
            if a < at && b == at {
                assert(sent[a].time.0 <= sent[at - 1].time.0);
            }
        }
    }

    /// Whether a piece can go out, and at which step of its walk the
    /// receiver is found. A piece that is present here and that every peer
    /// with a bitmap may hold is already owned, whether it waits in a queue
    /// or not; any other piece without an entry has not been added.
    pub open spec fn spec_select(&self, piece_idx: FilePieceIdx) -> Result<
        int,
        SharedFileSelectPiecePeerError,
    > {
        if piece_idx.0 >= self.spec_num_pieces() {
            Err(SharedFileSelectPiecePeerError::PieceIndexOutOfRange)
        } else if !self.queues().contains(piece_idx.0 as int) {
            if self.local()[piece_idx.0 as int] && self.views().len() >= 1 && every_peer_may_hold(
                self.views(),
                piece_idx.0 as int,
            ) {
                Err(SharedFileSelectPiecePeerError::PieceIsAlreadyOwned)
            } else {
                Err(SharedFileSelectPiecePeerError::PieceIsNotAdded)
            }
        } else {
            match first_free_from(
                self.views(),
                piece_idx.0 as int,
                self.queues().data(piece_idx.0 as int).peer_shift.0 as int,
                0,
            ) {
                None => Err(SharedFileSelectPiecePeerError::PieceIsAlreadyOwned),
                Some(step) => Ok(step),
            }
        }
    }

    /// What taking a queued piece for the peer found at `step` of the
    /// piece's walk does: the peer is taken to hold the piece, the piece's
    /// entry counts one more possible owner and starts its next walk behind
    /// the peer, and the piece joins the list of sent pieces.
    pub open spec fn piece_taken(
        before: Self,
        after: Self,
        piece_idx: FilePieceIdx,
        time: Time,
        step: int,
        peer_id: PeerId,
    ) -> bool {
        let piece = piece_idx.0 as int;
        let views = before.views();
        let entry = before.queues().data(piece);
        let k = stride_index(piece, views.len() as int, entry.peer_shift.0 + step);
        &&& peer_id == views[k].peer_id
        &&& after.views() == Self::views_with_bits(views, k, piece, false, true)
        &&& FilePiecesQueues::requeued(
            before.queues(),
            after.queues(),
            piece_idx,
            FilePieceData {
                peer_shift: PiecePeerShift(
                    ((entry.peer_shift.0 + step + 1) % (views.len() as int)) as usize,
                ),
                num_confirmed_owners: entry.num_confirmed_owners,
                num_possible_owners: PieceNumPossibleOwners(
                    (entry.num_possible_owners.0 + 1) as usize,
                ),
            },
        )
        &&& after.sent() == before.sent().insert(
            sent_position(before.sent(), time),
            SentPiece { time, peer_id, piece_idx },
        )
        &&& after.remote() == before.remote()
        &&& after.spec_file() == before.spec_file()
        &&& after.peers() == before.peers()
        &&& after.recent() == before.recent()
    }

    /// Picks the peer that a piece goes to next: the first peer on the
    /// piece's walk that neither holds the piece nor has been sent it.
    pub fn select_piece_peer(&mut self, piece_idx: FilePieceIdx, time: Time) -> (r: Result<
        PeerId,
        SharedFileSelectPiecePeerError,
    >)
        requires
            old(self).wf(),
        ensures
            final(self).wf(),
            r is Err ==> *final(self) == *old(self),
            old(self).views().len() == 0 ==> r is Err,
            old(self).views().len() == 1 && r is Ok ==> r->Ok_0 == old(self).views()[0].peer_id,
            r is Ok ==> num_possible_owners(old(self).views(), piece_idx.0 as int) < old(
                self,
            ).views().len(),
            match old(self).spec_select(piece_idx) {
                Err(err) => r == Err::<PeerId, SharedFileSelectPiecePeerError>(err),
                Ok(step) => r is Ok && Self::piece_taken(
                    *old(self),
                    *final(self),
                    piece_idx,
                    time,
                    step,
                    r->Ok_0,
                ),
            },
    {
        if piece_idx.0 >= self.file.num_pieces() {
            return Err(SharedFileSelectPiecePeerError::PieceIndexOutOfRange);
        }
        let entry = match self.piece_queues.get(piece_idx) {
            Ok(entry) => entry,
            Err(_) => {
                let here = match self.file.has_piece(&piece_idx) {
                    Ok(here) => here,
                    Err(_) => false,
                };
                let num_views = self.shared_peers.len();
                proof {
                    lemma_every_peer_may_hold(self.views(), piece_idx.0 as int);
                }
                if here && num_views >= 1 && self.count_possible(piece_idx.0) == num_views {
                    return Err(SharedFileSelectPiecePeerError::PieceIsAlreadyOwned);
                }
                return Err(SharedFileSelectPiecePeerError::PieceIsNotAdded);
            },
        };
        match self.find_receiver(piece_idx, entry.peer_shift.0) {
            None => Err(SharedFileSelectPiecePeerError::PieceIsAlreadyOwned),
            Some((k, step)) => {
                let peer_id = self.shared_peers[k].peer_id;
                proof {
                    lemma_stride_index_bound(
                        piece_idx.0 as int,
                        self.views().len() as int,
                        entry.peer_shift.0 + step,
                    );
                }
                self.take_piece_for_peer(piece_idx, entry, k, step, time);
                Ok(peer_id)
            },
        }
    }

    /// Walks the peers for a piece from `shift` on and stops at the first
    /// that neither holds the piece nor has been sent it.
    fn find_receiver(&self, piece_idx: FilePieceIdx, shift: usize) -> (r: Option<(usize, usize)>)
        requires
            views_fit(self.views(), self.local()),
            piece_idx.0 < self.local().len(),
        ensures
            match r {
                None => first_free_from(self.views(), piece_idx.0 as int, shift as int, 0) is None,
                Some((k, step)) => {
                    &&& first_free_from(self.views(), piece_idx.0 as int, shift as int, 0) == Some(
                        step as int,
                    )
                    &&& k == stride_index(
                        piece_idx.0 as int,
                        self.views().len() as int,
                        shift + step,
                    )
                    &&& k < self.views().len()
                    &&& !self.views()[k as int].possible[piece_idx.0 as int]
                },
            },
    {
        let num_peers = self.shared_peers.len();
        if num_peers == 0 {
            return None;
        }
        let ghost piece = piece_idx.0 as int;
        let ghost views = self.views();
        let stride = peer_stride(piece_idx, num_peers);
        let mut step: usize = 0;
        while step < num_peers
            invariant
                views_fit(views, self.local()),
                views == self.views(),
                num_peers == views.len(),
                num_peers > 0,
                step <= num_peers,
                piece == piece_idx.0,
                piece < self.local().len(),
                stride.0 == crate::stride::stride_multiplier(piece, num_peers as int),
                stride.1 == crate::stride::stride_offset(piece),
                first_free_from(views, piece, shift as int, 0) == first_free_from(
                    views,
                    piece,
                    shift as int,
                    step as int,
                ),
            decreases num_peers - step,
        {
            let k = stride_probe(piece_idx, stride, num_peers, shift, step);
            assert(views[k as int].possible.len() == self.local().len());
            match self.shared_peers[k].possible.has(&piece_idx) {
                Ok(false) => {
                    return Some((k, step));
                },
                _ => {},
            }
            step += 1;
        }
        None
    }

    /// Records that a queued piece goes to the peer at place `k`, found at
    /// `step` of the piece's walk.
    fn take_piece_for_peer(
        &mut self,
        piece_idx: FilePieceIdx,
        entry: FilePieceData,
        k: usize,
        step: usize,
        time: Time,
    )
        requires
            old(self).wf(),
            old(self).queues().contains(piece_idx.0 as int),
            entry == old(self).queues().data(piece_idx.0 as int),
            k < old(self).views().len(),
            !old(self).views()[k as int].possible[piece_idx.0 as int],
        ensures
            final(self).wf(),
            final(self).views() == Self::views_with_bits(
                old(self).views(),
                k as int,
                piece_idx.0 as int,
                false,
                true,
            ),
            FilePiecesQueues::requeued(
                old(self).queues(),
                final(self).queues(),
                piece_idx,
                FilePieceData {
                    peer_shift: PiecePeerShift(
                        ((entry.peer_shift.0 + step + 1) % (old(self).views().len() as int)) as usize,
                    ),
                    num_confirmed_owners: entry.num_confirmed_owners,
                    num_possible_owners: PieceNumPossibleOwners(
                        (entry.num_possible_owners.0 + 1) as usize,
                    ),
                },
            ),
            final(self).sent() == old(self).sent().insert(
                sent_position(old(self).sent(), time),
                SentPiece { time, peer_id: old(self).views()[k as int].peer_id, piece_idx },
            ),
            final(self).remote() == old(self).remote(),
            final(self).spec_file() == old(self).spec_file(),
            final(self).peers() == old(self).peers(),
            final(self).recent() == old(self).recent(),
            num_possible_owners(old(self).views(), piece_idx.0 as int) < old(self).views().len(),
    {
        let ghost piece = piece_idx.0 as int;
        let ghost views = self.views();
        let num_peers = self.shared_peers.len();
        let peer_id = self.shared_peers[k].peer_id;
        proof {
            assert(views[k as int].confirmed.len() == self.local().len());
            assert(views[k as int].possible.len() == self.local().len());
            assert(!views[k as int].confirmed[piece]) by {
                if views[k as int].confirmed[piece] {
                    assert(views[k as int].possible[piece]);
                }
            }
            Self::lemma_views_within_peers(self.peers(), views);
            lemma_all_confirmed(views, piece);
        }
        let _ = self.shared_peers[k].possible.set(&piece_idx);
        let ghost views_after = Self::views_with_bits(views, k as int, piece, false, true);
        let ghost before = self.piece_queues;
        proof {
            assert(views[k as int].confirmed.update(piece, false) =~= views[k as int].confirmed);
            assert(self.views() =~= views_after);
            lemma_counts_after_bit_change(views, views_after, k as int, piece);
            lemma_all_confirmed(views_after, piece);
            Self::lemma_frame_after_bit_change(
                self.peers(),
                views,
                self.local(),
                self.sent(),
                k as int,
                piece,
                false,
                true,
            );
            Self::lemma_remote_after_bit_change(
                views,
                self.remote(),
                self.remote(),
                k as int,
                piece,
                false,
                true,
            );
        }
        let shifted = FilePieceData {
            peer_shift: PiecePeerShift(next_shift(num_peers, entry.peer_shift.0, step)),
            num_confirmed_owners: entry.num_confirmed_owners,
            num_possible_owners: PieceNumPossibleOwners(entry.num_possible_owners.0 + 1),
        };
        self.piece_queues.requeue(piece_idx, shifted);
        proof {
            assert forall|other: int| other != piece implies self.queues().contains(other)
                == before.contains(other) && (before.contains(other) ==> self.queues().data(other)
                == before.data(other)) by {
                assert(self.queues().pieces().contains_key(other) == before.pieces().contains_key(
                    other,
                ));
                if before.contains(other) {
                    assert(self.queues().pieces()[other] == before.pieces()[other]);
                }
            }
            assert(self.queues().pieces().contains_key(piece));
            assert(self.queues().pieces()[piece] == self.queues().data(piece));
            Self::lemma_queues_match_after_bit_change(
                before,
                self.queues(),
                views,
                self.local(),
                self.remote(),
                self.remote(),
                k as int,
                piece,
                false,
                true,
            );
            assert(self.peers().len() > 0) by {
                assert(self.peers().contains_key(views[k as int].peer_id.0));
                if self.peers().len() == 0 {
                    assert(self.peers().dom() =~= Set::empty());
                }
            }
        }
        let ghost sent = self.sent();
        self.push_sent(SentPiece { time, peer_id, piece_idx });
        proof {
            assert(self.views() == views_after);
            let at = sent_position(sent, time);
            assert forall|a: int| 0 <= a < self.sent().len() implies (
            #[trigger] self.sent()[a]).piece_idx.0 < self.local().len() && has_view(
                views_after,
                self.sent()[a].peer_id,
            ) by {
                if a < at {
                    assert(self.sent()[a] == sent[a]);
                } else if a == at {
                    assert(views_after[k as int].peer_id == peer_id);
                } else {
                    assert(self.sent()[a] == sent[a - 1]);
                }
            }
        }
    }

    /// The entry of a piece after a peer with or without the piece has
    /// joined.
    pub open spec fn entry_joined(entry: FilePieceData, has: bool) -> FilePieceData {
        FilePieceData {
            peer_shift: entry.peer_shift,
            num_confirmed_owners: PieceNumConfirmedOwners(
                (entry.num_confirmed_owners.0 + bit(has)) as usize,
            ),
            num_possible_owners: PieceNumPossibleOwners(
                (entry.num_possible_owners.0 + bit(has)) as usize,
            ),
        }
    }

    /// The entry of a piece that every one of `prior` peers holds.
    pub open spec fn entry_fresh(prior: int) -> FilePieceData {
        FilePieceData {
            peer_shift: PiecePeerShift(0),
            num_confirmed_owners: PieceNumConfirmedOwners(prior as usize),
            num_possible_owners: PieceNumPossibleOwners(prior as usize),
        }
    }

    /// The queues after a peer with the bitmap `joined` has joined `prior`
    /// others: a piece that is present here and that the peer lacks has
    /// an entry, and the entry of a piece that the peer holds counts it.
    pub open spec fn queues_joined(
        before: FilePiecesQueues,
        after: FilePiecesQueues,
        local: Seq<bool>,
        joined: Seq<bool>,
        prior: int,
        upto: int,
    ) -> bool {
        &&& forall|piece: int|
            0 <= piece < upto ==> (#[trigger] after.contains(piece) <==> before.contains(piece) || (
            local[piece] && !joined[piece]))
        &&& forall|piece: int|
            0 <= piece < upto && #[trigger] before.contains(piece) ==> after.data(piece)
                == Self::entry_joined(before.data(piece), joined[piece])
        &&& forall|piece: int|
            0 <= piece < upto && !before.contains(piece) && #[trigger] after.contains(piece)
                ==> after.data(piece) == Self::entry_fresh(prior)
        &&& forall|piece: int|
            piece >= upto ==> (#[trigger] after.contains(piece) <==> before.contains(piece))
        &&& forall|piece: int|
            piece >= upto && #[trigger] before.contains(piece) ==> after.data(piece)
                == before.data(piece)
    }

    /// What a peer that joins does to the queues at one piece: a piece
    /// with an entry that the peer holds moves to the end of the queue of
    /// its new count; a piece that is present here, has no entry and that
    /// the peer lacks enters at the end of the queue of `prior`; for any
    /// other piece nothing changes.
    pub open spec fn joined_piece(
        before: FilePiecesQueues,
        after: FilePiecesQueues,
        here: bool,
        there: bool,
        prior: int,
        piece: int,
    ) -> bool {
        if here && before.contains(piece) && there {
            FilePiecesQueues::requeued(
                before,
                after,
                FilePieceIdx(piece as usize),
                Self::entry_joined(before.data(piece), true),
            )
        } else if here && !before.contains(piece) && !there {
            FilePiecesQueues::inserted(
                before,
                after,
                FilePieceIdx(piece as usize),
                Self::entry_fresh(prior),
            )
        } else {
            after == before
        }
    }

    /// The order of the queues after a peer has joined: the pieces below
    /// `upto` were gone through one by one, from the first, each as
    /// `joined_piece` says.
    pub open spec fn joined_in_turn(
        before: FilePiecesQueues,
        after: FilePiecesQueues,
        local: Seq<bool>,
        joined: Seq<bool>,
        prior: int,
        upto: int,
    ) -> bool
        decreases upto,
    {
        if upto <= 0 {
            after == before
        } else {
            exists|between: FilePiecesQueues|
                {
                    &&& Self::joined_in_turn(before, between, local, joined, prior, upto - 1)
                    &&& #[trigger] Self::joined_piece(
                        between,
                        after,
                        local[upto - 1],
                        joined[upto - 1],
                        prior,
                        upto - 1,
                    )
                }
        }
    }

    /// Brings the queues in step with a peer that joins.
    fn join_queues(
        queues: &mut FilePiecesQueues,
        local: &FileState,
        joined: &FileState,
        prior: usize,
    )
        requires
            old(queues).wf(),
            old(queues).num_pieces() == local@.len(),
            joined@.len() == local@.len(),
            prior + 1 < usize::MAX,
            forall|piece: int| #[trigger]
                old(queues).contains(piece) ==> local@[piece] && old(queues).data(
                    piece,
                ).num_possible_owners.0 <= prior && old(queues).data(
                    piece,
                ).num_confirmed_owners.0 <= prior,
        ensures
            final(queues).wf(),
            final(queues).num_pieces() == old(queues).num_pieces(),
            Self::queues_joined(
                *old(queues),
                *final(queues),
                local@,
                joined@,
                prior as int,
                local@.len() as int,
            ),
            Self::joined_in_turn(
                *old(queues),
                *final(queues),
                local@,
                joined@,
                prior as int,
                local@.len() as int,
            ),
    {
        let num_pieces = local.len();
        let mut idx: usize = 0;
        proof {
            assert forall|piece: int| #[trigger] old(queues).contains(piece) implies 0 <= piece
                < local@.len() by {
                old(queues).lemma_entry_in_queue(piece);
            }
        }
        while idx < num_pieces
            invariant
                idx <= num_pieces,
                num_pieces == local@.len(),
                joined@.len() == local@.len(),
                prior + 1 < usize::MAX,
                queues.wf(),
                queues.num_pieces() == local@.len(),
                old(queues).num_pieces() == local@.len(),
                forall|piece: int| #[trigger]
                    old(queues).contains(piece) ==> local@[piece] && old(queues).data(
                        piece,
                    ).num_possible_owners.0 <= prior && old(queues).data(
                        piece,
                    ).num_confirmed_owners.0 <= prior,
                forall|piece: int| #[trigger]
                    old(queues).contains(piece) ==> 0 <= piece < local@.len(),
                Self::queues_joined(
                    *old(queues),
                    *queues,
                    local@,
                    joined@,
                    prior as int,
                    idx as int,
                ),
                Self::joined_in_turn(
                    *old(queues),
                    *queues,
                    local@,
                    joined@,
                    prior as int,
                    idx as int,
                ),
            decreases num_pieces - idx,
        {
            let piece_idx = FilePieceIdx(idx);
            let ghost piece = idx as int;
            let ghost before = *queues;
            let here = match local.has(&piece_idx) {
                Ok(has) => has,
                Err(_) => false,
            };
            let there = match joined.has(&piece_idx) {
                Ok(has) => has,
                Err(_) => false,
            };
            if here {
                match queues.get(piece_idx) {
                    Ok(entry) => {
                        if there {
                            assert(old(queues).contains(piece));
                            queues.requeue(
                                piece_idx,
                                FilePieceData {
                                    peer_shift: entry.peer_shift,
                                    num_confirmed_owners: PieceNumConfirmedOwners(
                                        entry.num_confirmed_owners.0 + 1,
                                    ),
                                    num_possible_owners: PieceNumPossibleOwners(
                                        entry.num_possible_owners.0 + 1,
                                    ),
                                },
                            );
                        }
                    },
                    Err(_) => {
                        if !there {
                            let _ = queues.insert(
                                piece_idx,
                                FilePieceData {
                                    peer_shift: PiecePeerShift(0),
                                    num_confirmed_owners: PieceNumConfirmedOwners(prior),
                                    num_possible_owners: PieceNumPossibleOwners(prior),
                                },
                            );
                        }
                    },
                }
            }
            proof {
                let next = idx as int + 1;
                assert(here == local@[piece] && there == joined@[piece]);
                assert(Self::joined_piece(
                    before,
                    *queues,
                    local@[next - 1],
                    joined@[next - 1],
                    prior as int,
                    next - 1,
                ));
                assert(Self::joined_in_turn(
                    *old(queues),
                    before,
                    local@,
                    joined@,
                    prior as int,
                    next - 1,
                ));
                assert(Self::joined_in_turn(
                    *old(queues),
                    *queues,
                    local@,
                    joined@,
                    prior as int,
                    next,
                ));
            }
            proof {
                assert forall|other: int| other != piece implies (queues.contains(other)
                    == before.contains(other) && (before.contains(other) ==> queues.data(other)
                    == before.data(other))) by {
                    assert(queues.pieces().contains_key(other) == before.pieces().contains_key(
                        other,
                    ));
                    if before.contains(other) {
                        assert(queues.pieces()[other] == before.pieces()[other]);
                    }
                }
                assert(queues.contains(piece) == queues.pieces().contains_key(piece));
                if queues.contains(piece) {
                    assert(queues.pieces()[piece] == queues.data(piece));
                }
                assert(before.contains(piece) == old(queues).contains(piece));
                if before.contains(piece) {
                    assert(before.data(piece) == old(queues).data(piece));
                }
                let upto = idx + 1;
                assert forall|other: int| 0 <= other < upto implies (#[trigger] queues.contains(
                    other,
                ) <==> old(queues).contains(other) || (local@[other] && !joined@[other])) by {
                    if other != piece {
                        assert(queues.contains(other) == before.contains(other));
                    }
                }
                assert forall|other: int|
                    0 <= other < upto && #[trigger] old(queues).contains(
                        other,
                    ) implies queues.data(other) == Self::entry_joined(
                    old(queues).data(other),
                    joined@[other],
                ) by {
                    if other != piece {
                        assert(before.contains(other));
                        assert(queues.data(other) == before.data(other));
                    }
                }
                assert forall|other: int|
                    0 <= other < upto && !old(queues).contains(other) && #[trigger] queues.contains(
                        other,
                    ) implies queues.data(other) == Self::entry_fresh(prior as int) by {
                    if other != piece {
                        assert(before.contains(other));
                        assert(queues.data(other) == before.data(other));
                    }
                }
                assert forall|other: int| other >= upto implies (#[trigger] queues.contains(other)
                    <==> old(queues).contains(other)) by {
                    assert(queues.contains(other) == before.contains(other));
                }
                assert forall|other: int|
                    other >= upto && #[trigger] old(queues).contains(other) implies queues.data(
                    other,
                ) == old(queues).data(other) by {
                    assert(before.contains(other));
                    assert(queues.data(other) == before.data(other));
                }
            }
            idx += 1;
        }
        proof {
            assert forall|piece: int| piece >= num_pieces implies !queues.contains(piece) by {
                if queues.contains(piece) {
                    queues.lemma_entry_in_queue(piece);
                }
            }
        }
    }

    /// Takes the bitmap that a peer without one has told.
    pub fn add_peer_state(&mut self, peer_id: PeerId, state: FileState) -> (r: Result<
        (),
        SharedFileAddPeerStateError,
    >)
        requires
            old(self).wf(),
            state.wf(),
        ensures
            final(self).wf(),
            match r {
                Err(err) => {
                    &&& *final(self) == *old(self)
                    &&& err == if !old(self).peers().contains_key(peer_id.0) {
                        SharedFileAddPeerStateError::PeerIsNotAdded
                    } else if old(self).peers()[peer_id.0].state_idx is Some {
                        SharedFileAddPeerStateError::PeerIsAlreadyHasState
                    } else {
                        SharedFileAddPeerStateError::PeerInvalidStateLen {
                            peer_len: state@.len() as usize,
                            local_len: old(self).local().len() as usize,
                        }
                    }
                },
                Ok(()) => {
                    &&& final(self).views() == old(self).views().push(
                        PeerStateView { peer_id, confirmed: state@, possible: state@ },
                    )
                    &&& final(self).peers() == old(self).peers().insert(
                        peer_id.0,
                        SharedFilePeer {
                            state_idx: Some(old(self).views().len() as usize),
                            local_state_status: old(self).peers()[peer_id.0].local_state_status,
                        },
                    )
                    &&& final(self).remote() == Seq::new(
                        old(self).local().len(),
                        |piece: int| old(self).remote()[piece] && state@[piece],
                    )
                    &&& Self::queues_joined(
                        old(self).queues(),
                        final(self).queues(),
                        old(self).local(),
                        state@,
                        old(self).views().len() as int,
                        old(self).local().len() as int,
                    )
                    &&& Self::joined_in_turn(
                        old(self).queues(),
                        final(self).queues(),
                        old(self).local(),
                        state@,
                        old(self).views().len() as int,
                        old(self).local().len() as int,
                    )
                    &&& final(self).spec_file() == old(self).spec_file()
                    &&& final(self).sent() == old(self).sent()
                    &&& final(self).recent() == old(self).recent()
                },
            },
            r is Ok <==> old(self).peers().contains_key(peer_id.0) && old(
                self,
            ).peers()[peer_id.0].state_idx is None && state@.len() == old(self).local().len(),
    {
        let peer = match self.peers.get(&peer_id.0) {
            None => {
                return Err(SharedFileAddPeerStateError::PeerIsNotAdded);
            },
            Some(peer) => *peer,
        };
        if peer.state_idx.is_some() {
            return Err(SharedFileAddPeerStateError::PeerIsAlreadyHasState);
        }
        let num_pieces = self.file.num_pieces();
        if state.len() != num_pieces {
            return Err(
                SharedFileAddPeerStateError::PeerInvalidStateLen {
                    peer_len: state.len(),
                    local_len: num_pieces,
                },
            );
        }
        let prior = self.shared_peers.len();
        let ghost views = self.views();
        let ghost joined = PeerStateView { peer_id, confirmed: state@, possible: state@ };
        let ghost views_after = views.push(joined);
        proof {
            Self::lemma_views_within_peers(self.peers(), views);
            assert forall|piece: int| #[trigger]
                self.queues().contains(piece) implies self.local()[piece] && self.queues().data(
                piece,
            ).num_possible_owners.0 <= prior && self.queues().data(piece).num_confirmed_owners.0
                <= prior by {
                lemma_all_confirmed(views, piece);
            }
        }
        Self::join_queues(&mut self.piece_queues, self.file.state(), &state, prior);
        self.confirmed_remote_state.and_assign(&state);
        let possible = state.clone();
        self.shared_peers.push(SharedFilePeerState { peer_id, confirmed: state, possible });
        let _ = self.peers.insert(
            peer_id.0,
            SharedFilePeer {
                state_idx: Some(prior),
                local_state_status: peer.local_state_status,
            },
        );
        proof {
            assert(self.views() =~= views_after);
            assert(self.remote() =~= Seq::new(
                old(self).local().len(),
                |piece: int| old(self).remote()[piece] && joined.confirmed[piece],
            ));
            assert(self.peers().dom() =~= old(self).peers().dom());
            assert(Self::peers_match(self.peers(), views_after)) by {
                assert forall|id: u32| #[trigger] self.peers().contains_key(id) implies match self.peers()[id].state_idx {
                    Some(k) => k < views_after.len() && views_after[k as int].peer_id.0 == id,
                    None => true,
                } by {
                    if id != peer_id.0 {
                        assert(old(self).peers().contains_key(id));
                    }
                }
                assert forall|k: int| 0 <= k < views_after.len() implies self.peers().contains_key(
                    (#[trigger] views_after[k]).peer_id.0,
                ) && self.peers()[views_after[k].peer_id.0].state_idx == Some(k as usize) by {
                    if k < views.len() {
                        assert(views_after[k] == views[k]);
                        assert(old(self).peers().contains_key(views[k].peer_id.0));
                    }
                }
            }
            assert(views_fit(views_after, self.local())) by {
                assert forall|k: int| 0 <= k < views_after.len() implies {
                    &&& (#[trigger] views_after[k]).confirmed.len() == self.local().len()
                    &&& views_after[k].possible.len() == self.local().len()
                    &&& forall|piece: int|
                        0 <= piece < self.local().len() ==> (views_after[k].confirmed[piece]
                            ==> #[trigger] views_after[k].possible[piece])
                    &&& forall|piece: int|
                        0 <= piece < self.local().len() ==> (
                        #[trigger] views_after[k].possible[piece]
                            && !views_after[k].confirmed[piece] ==> self.local()[piece])
                } by {
                    if k < views.len() {
                        assert(views_after[k] == views[k]);
                    }
                }
            }
            assert(remote_is_meet(self.remote(), views_after)) by {
                assert forall|piece: int| 0 <= piece < self.remote().len() implies (
                #[trigger] self.remote()[piece] <==> num_confirmed_owners(views_after, piece)
                    == views_after.len()) by {
                    lemma_counts_after_push(views, joined, piece);
                    lemma_all_confirmed(views, piece);
                    assert(old(self).remote()[piece] <==> num_confirmed_owners(views, piece)
                        == views.len());
                }
            }
            assert(queues_match(self.queues(), views_after, self.local(), self.remote())) by {
                assert forall|piece: int| #[trigger] self.queues().contains(piece) implies {
                    &&& 0 <= piece < self.local().len()
                    &&& self.local()[piece]
                    &&& self.queues().data(piece).num_confirmed_owners.0 == num_confirmed_owners(
                        views_after,
                        piece,
                    )
                    &&& self.queues().data(piece).num_possible_owners.0 == num_possible_owners(
                        views_after,
                        piece,
                    )
                } by {
                    self.queues().lemma_entry_in_queue(piece);
                    lemma_counts_after_push(views, joined, piece);
                    lemma_all_confirmed(views, piece);
                    if old(self).queues().contains(piece) {
                    } else {
                        assert(old(self).remote()[piece]);
                        lemma_confirmed_at_most_possible(views, self.local(), piece);
                    }
                }
                assert forall|piece: int|
                    0 <= piece < self.local().len() && self.local()[piece]
                        && !self.remote()[piece] implies #[trigger] self.queues().contains(
                    piece,
                ) by {
                    if !old(self).remote()[piece] {
                        assert(old(self).queues().contains(piece));
                    }
                }
            }
            assert forall|at: int| 0 <= at < self.sent().len() implies has_view(
                views_after,
                (#[trigger] self.sent()[at]).peer_id,
            ) by {
                let j = choose|j: int|
                    0 <= j < views.len() && (#[trigger] views[j]).peer_id == self.sent()[at].peer_id;
                assert(views_after[j].peer_id == self.sent()[at].peer_id);
            }
            assert(self.peers().len() > 0) by {
                assert(self.peers().contains_key(peer_id.0));
                if self.peers().len() == 0 {
                    assert(self.peers().dom() =~= Set::empty());
                }
            }
        }
        Ok(())
    }

    /// The queues after a peer with the given bitmaps has left: every entry
    /// stays, without the peer in its owner counts.
    pub open spec fn queues_left(
        before: FilePiecesQueues,
        after: FilePiecesQueues,
        confirmed: Seq<bool>,
        possible: Seq<bool>,
        upto: int,
    ) -> bool {
        &&& forall|piece: int| #[trigger] after.contains(piece) <==> before.contains(piece)
        &&& forall|piece: int|
            0 <= piece < upto && #[trigger] before.contains(piece) ==> after.data(piece)
                == (FilePieceData {
                peer_shift: before.data(piece).peer_shift,
                num_confirmed_owners: PieceNumConfirmedOwners(
                    (before.data(piece).num_confirmed_owners.0 - bit(confirmed[piece])) as usize,
                ),
                num_possible_owners: PieceNumPossibleOwners(
                    (before.data(piece).num_possible_owners.0 - bit(possible[piece])) as usize,
                ),
            })
        &&& forall|piece: int|
            piece >= upto && #[trigger] before.contains(piece) ==> after.data(piece)
                == before.data(piece)
    }

    /// The entry of a piece after a peer with the given bits for it has
    /// left.
    pub open spec fn entry_left(entry: FilePieceData, confirmed: bool, possible: bool) -> FilePieceData {
        FilePieceData {
            peer_shift: entry.peer_shift,
            num_confirmed_owners: PieceNumConfirmedOwners(
                (entry.num_confirmed_owners.0 - bit(confirmed)) as usize,
            ),
            num_possible_owners: PieceNumPossibleOwners(
                (entry.num_possible_owners.0 - bit(possible)) as usize,
            ),
        }
    }

    /// What a peer that leaves does to the queues at one piece: a piece
    /// with an entry that the peer held, or may have held, moves to the end
    /// of the queue of its new count; for any other piece nothing changes.
    pub open spec fn left_piece(
        before: FilePiecesQueues,
        after: FilePiecesQueues,
        confirmed: bool,
        possible: bool,
        piece: int,
    ) -> bool {
        if before.contains(piece) && (confirmed || possible) {
            FilePiecesQueues::requeued(
                before,
                after,
                FilePieceIdx(piece as usize),
                Self::entry_left(before.data(piece), confirmed, possible),
            )
        } else {
            after == before
        }
    }

    /// The order of the queues after a peer has left: the pieces below
    /// `upto` were gone through one by one, from the first, each as
    /// `left_piece` says.
    pub open spec fn left_in_turn(
        before: FilePiecesQueues,
        after: FilePiecesQueues,
        confirmed: Seq<bool>,
        possible: Seq<bool>,
        upto: int,
    ) -> bool
        decreases upto,
    {
        if upto <= 0 {
            after == before
        } else {
            exists|between: FilePiecesQueues|
                {
                    &&& Self::left_in_turn(before, between, confirmed, possible, upto - 1)
                    &&& #[trigger] Self::left_piece(
                        between,
                        after,
                        confirmed[upto - 1],
                        possible[upto - 1],
                        upto - 1,
                    )
                }
        }
    }

    /// Brings the queues in step with a peer that leaves.
    fn leave_queues(queues: &mut FilePiecesQueues, confirmed: &FileState, possible: &FileState)
        requires
            old(queues).wf(),
            old(queues).num_pieces() == confirmed@.len(),
            possible@.len() == confirmed@.len(),
            forall|piece: int| #[trigger]
                old(queues).contains(piece) ==> old(queues).data(piece).num_confirmed_owners.0
                    >= bit(confirmed@[piece]) && old(queues).data(piece).num_possible_owners.0
                    >= bit(possible@[piece]) && old(queues).data(piece).num_possible_owners.0
                    < usize::MAX,
        ensures
            final(queues).wf(),
            final(queues).num_pieces() == old(queues).num_pieces(),
            Self::queues_left(
                *old(queues),
                *final(queues),
                confirmed@,
                possible@,
                confirmed@.len() as int,
            ),
            Self::left_in_turn(
                *old(queues),
                *final(queues),
                confirmed@,
                possible@,
                confirmed@.len() as int,
            ),
    {
        let num_pieces = confirmed.len();
        let mut idx: usize = 0;
        proof {
            assert forall|piece: int| #[trigger] old(queues).contains(piece) implies 0 <= piece
                < confirmed@.len() by {
                old(queues).lemma_entry_in_queue(piece);
            }
        }
        while idx < num_pieces
            invariant
                idx <= num_pieces,
                num_pieces == confirmed@.len(),
                possible@.len() == confirmed@.len(),
                queues.wf(),
                queues.num_pieces() == confirmed@.len(),
                forall|piece: int| #[trigger]
                    old(queues).contains(piece) ==> 0 <= piece < confirmed@.len() && old(
                        queues,
                    ).data(piece).num_confirmed_owners.0 >= bit(confirmed@[piece]) && old(
                        queues,
                    ).data(piece).num_possible_owners.0 >= bit(possible@[piece]) && old(
                        queues,
                    ).data(piece).num_possible_owners.0 < usize::MAX,
                Self::queues_left(*old(queues), *queues, confirmed@, possible@, idx as int),
                Self::left_in_turn(*old(queues), *queues, confirmed@, possible@, idx as int),
            decreases num_pieces - idx,
        {
            let piece_idx = FilePieceIdx(idx);
            let ghost piece = idx as int;
            let ghost before = *queues;
            match queues.get(piece_idx) {
                Ok(entry) => {
                    assert(old(queues).contains(piece));
                    assert(entry == old(queues).data(piece));
                    let less_confirmed: usize = match confirmed.has(&piece_idx) {
                        Ok(true) => 1,
                        _ => 0,
                    };
                    let less_possible: usize = match possible.has(&piece_idx) {
                        Ok(true) => 1,
                        _ => 0,
                    };
                    if less_confirmed + less_possible > 0 {
                        queues.requeue(
                            piece_idx,
                            FilePieceData {
                                peer_shift: entry.peer_shift,
                                num_confirmed_owners: PieceNumConfirmedOwners(
                                    entry.num_confirmed_owners.0 - less_confirmed,
                                ),
                                num_possible_owners: PieceNumPossibleOwners(
                                    entry.num_possible_owners.0 - less_possible,
                                ),
                            },
                        );
                    }
                },
                Err(_) => {},
            }
            proof {
                let next = idx as int + 1;
                assert(Self::left_piece(
                    before,
                    *queues,
                    confirmed@[next - 1],
                    possible@[next - 1],
                    next - 1,
                ));
                assert(Self::left_in_turn(
                    *old(queues),
                    before,
                    confirmed@,
                    possible@,
                    next - 1,
                ));
                assert(Self::left_in_turn(*old(queues), *queues, confirmed@, possible@, next));
            }
            proof {
                assert forall|other: int| other != piece implies (queues.contains(other)
                    == before.contains(other) && (before.contains(other) ==> queues.data(other)
                    == before.data(other))) by {
                    assert(queues.pieces().contains_key(other) == before.pieces().contains_key(
                        other,
                    ));
                    if before.contains(other) {
                        assert(queues.pieces()[other] == before.pieces()[other]);
                    }
                }
                assert(queues.contains(piece) == queues.pieces().contains_key(piece));
                if queues.contains(piece) {
                    assert(queues.pieces()[piece] == queues.data(piece));
                }
                assert(before.contains(piece) == old(queues).contains(piece));
                if before.contains(piece) {
                    assert(before.data(piece) == old(queues).data(piece));
                }
                let upto = idx + 1;
                assert forall|other: int| #[trigger] queues.contains(other) <==> old(
                    queues,
                ).contains(other) by {
                    if other != piece {
                        assert(queues.contains(other) == before.contains(other));
                    }
                }
                assert forall|other: int|
                    0 <= other < upto && #[trigger] old(queues).contains(
                        other,
                    ) implies queues.data(other) == (FilePieceData {
                    peer_shift: old(queues).data(other).peer_shift,
                    num_confirmed_owners: PieceNumConfirmedOwners(
                        (old(queues).data(other).num_confirmed_owners.0 - bit(
                            confirmed@[other],
                        )) as usize,
                    ),
                    num_possible_owners: PieceNumPossibleOwners(
                        (old(queues).data(other).num_possible_owners.0 - bit(
                            possible@[other],
                        )) as usize,
                    ),
                }) by {
                    if other != piece {
                        assert(before.contains(other));
                        assert(queues.data(other) == before.data(other));
                    }
                }
                assert forall|other: int|
                    other >= upto && #[trigger] old(queues).contains(other) implies queues.data(
                    other,
                ) == old(queues).data(other) by {
                    assert(before.contains(other));
                    assert(queues.data(other) == before.data(other));
                }
            }
            idx += 1;
        }
    }

    /// The bitmap of the pieces that every one of the peers is known to
    /// hold.
    fn meet_confirmed(shared_peers: &Vec<SharedFilePeerState>, num_pieces: usize) -> (r: FileState)
        requires
            num_pieces <= max_bits(),
            forall|k: int|
                0 <= k < shared_peers@.len() ==> (#[trigger] shared_peers@[k]).confirmed@.len()
                    == num_pieces,
        ensures
            r.wf(),
            r@.len() == num_pieces,
            forall|piece: int|
                0 <= piece < num_pieces ==> (#[trigger] r@[piece] <==> forall|k: int|
                    0 <= k < shared_peers@.len() ==> (
                    #[trigger] shared_peers@[k]).confirmed@[piece]),
    {
        let mut meet = FileState::from_complete(num_pieces);
        let mut at: usize = 0;
        while at < shared_peers.len()
            invariant
                at <= shared_peers@.len(),
                meet.wf(),
                meet@.len() == num_pieces,
                forall|k: int|
                    0 <= k < shared_peers@.len() ==> (#[trigger] shared_peers@[k]).confirmed@.len()
                        == num_pieces,
                forall|piece: int|
                    0 <= piece < num_pieces ==> (#[trigger] meet@[piece] <==> forall|k: int|
                        0 <= k < at ==> (#[trigger] shared_peers@[k]).confirmed@[piece]),
            decreases shared_peers@.len() - at,
        {
            let ghost before = meet@;
            meet.and_assign(&shared_peers[at].confirmed);
            proof {
                assert forall|piece: int| 0 <= piece < num_pieces implies (
                #[trigger] meet@[piece] <==> forall|k: int|
                    0 <= k < at + 1 ==> (#[trigger] shared_peers@[k]).confirmed@[piece]) by {
                    assert(meet@[piece] == (before[piece]
                        && shared_peers@[at as int].confirmed@[piece]));
                    if meet@[piece] {
                        assert forall|k: int| 0 <= k < at + 1 implies (
                        #[trigger] shared_peers@[k]).confirmed@[piece] by {
                            if k < at {
                            }
                        }
                    }
                    if forall|k: int|
                        0 <= k < at + 1 ==> (#[trigger] shared_peers@[k]).confirmed@[piece] {
                        assert(shared_peers@[at as int].confirmed@[piece]);
                        assert(forall|k: int|
                            0 <= k < at ==> (#[trigger] shared_peers@[k]).confirmed@[piece]);
                    }
                }
            }
            at += 1;
        }
        meet
    }

    /// The list of sent pieces without those that went to one peer.
    fn sent_without_peer(sent: &Vec<SentPiece>, peer_id: &PeerId) -> (r: Vec<SentPiece>)
        ensures
            r@ == sent_without(sent@, *peer_id),
    {
        let mut kept: Vec<SentPiece> = Vec::new();
        let mut at: usize = 0;
        assert(sent@.take(0) =~= Seq::<SentPiece>::empty());
        while at < sent.len()
            invariant
                at <= sent@.len(),
                kept@ == sent_without(sent@.take(at as int), *peer_id),
            decreases sent@.len() - at,
        {
            let entry = sent[at];
            assert(sent@.take(at + 1).drop_last() =~= sent@.take(at as int));
            if entry.peer_id.0 != peer_id.0 {
                kept.push(entry);
            }
            at += 1;
        }
        assert(sent@.take(at as int) =~= sent@);
        kept
    }

    /// After a peer has left, every other peer's record names the place of
    /// its bitmap.
    proof fn lemma_peers_match_after_leave(
        peers: Map<u32, SharedFilePeer>,
        after: Map<u32, SharedFilePeer>,
        views: Seq<PeerStateView>,
        k: int,
    )
        requires
            Self::peers_match(peers, views),
            views.len() <= usize::MAX,
            0 <= k < views.len(),
            after.dom() == peers.dom(),
            after[views[k].peer_id.0].state_idx is None,
            k < views.len() - 1 ==> after[views.last().peer_id.0].state_idx == Some(k as usize),
            forall|id: u32|
                peers.contains_key(id) && id != views[k].peer_id.0 && id != views.last().peer_id.0
                    ==> (#[trigger] after[id]).state_idx == peers[id].state_idx,
        ensures
            Self::peers_match(after, views_without(views, k)),
    {
        let left = views_without(views, k);
        let last = views.len() - 1;
        assert forall|id: u32| #[trigger] after.contains_key(id) implies match after[id].state_idx {
            Some(j) => j < left.len() && left[j as int].peer_id.0 == id,
            None => true,
        } by {
            assert(peers.contains_key(id));
            assert(peers[views[k].peer_id.0].state_idx == Some(k as usize));
            assert(peers[views[last].peer_id.0].state_idx == Some(last as usize));
            if id == views[k].peer_id.0 {
            } else if id == views[last].peer_id.0 {
            } else {
                match peers[id].state_idx {
                    Some(j) => {
                        assert(views[j as int].peer_id.0 == id);
                    },
                    None => {},
                }
            }
        }
        assert forall|j: int| 0 <= j < left.len() implies after.contains_key(
            (#[trigger] left[j]).peer_id.0,
        ) && after[left[j].peer_id.0].state_idx == Some(j as usize) by {
            assert(peers[views[k].peer_id.0].state_idx == Some(k as usize));
            assert(peers[views[last].peer_id.0].state_idx == Some(last as usize));
            assert(peers.contains_key(views[j].peer_id.0));
            assert(peers[views[j].peer_id.0].state_idx == Some(j as usize));
            if j == k {
            } else {
                assert(left[j] == views[j]);
            }
        }
    }

    /// Forgets the bitmap of a peer. The peer stays added.
    pub fn remove_peer_state(&mut self, peer_id: &PeerId) -> (r: Result<
        (),
        SharedFileRemovePeerStateError,
    >)
        requires
            old(self).wf(),
        ensures
            final(self).wf(),
            match r {
                Err(err) => {
                    &&& *final(self) == *old(self)
                    &&& err == if !old(self).peers().contains_key(peer_id.0) {
                        SharedFileRemovePeerStateError::PeerIsNotAdded
                    } else {
                        SharedFileRemovePeerStateError::PeerStateIsAlreadyRemoved
                    }
                },
                Ok(()) => {
                    let k = old(self).peers()[peer_id.0].state_idx->0 as int;
                    &&& final(self).views() == views_without(old(self).views(), k)
                    &&& final(self).peers().dom() == old(self).peers().dom()
                    &&& final(self).peers()[peer_id.0].state_idx is None
                    &&& forall|id: u32|
                        old(self).peers().contains_key(id) ==> (
                        #[trigger] final(self).peers()[id]).local_state_status == old(
                            self,
                        ).peers()[id].local_state_status
                    &&& forall|piece: int| #[trigger]
                        final(self).queues().contains(piece) <==> old(self).queues().contains(
                            piece,
                        )
                    &&& forall|piece: int| #[trigger]
                        old(self).queues().contains(piece) ==> final(self).queues().data(
                            piece,
                        ).peer_shift == old(self).queues().data(piece).peer_shift
                    &&& Self::left_in_turn(
                        old(self).queues(),
                        final(self).queues(),
                        old(self).views()[k].confirmed,
                        old(self).views()[k].possible,
                        old(self).local().len() as int,
                    )
                    &&& final(self).sent() == sent_without(old(self).sent(), *peer_id)
                    &&& final(self).spec_file() == old(self).spec_file()
                    &&& final(self).recent() == old(self).recent()
                },
            },
            r is Ok <==> old(self).peers().contains_key(peer_id.0) && old(
                self,
            ).peers()[peer_id.0].state_idx is Some,
    {
        let peer = match self.peers.get(&peer_id.0) {
            None => {
                return Err(SharedFileRemovePeerStateError::PeerIsNotAdded);
            },
            Some(peer) => *peer,
        };
        let k = match peer.state_idx {
            None => {
                return Err(SharedFileRemovePeerStateError::PeerStateIsAlreadyRemoved);
            },
            Some(k) => k,
        };
        let num_pieces = self.file.num_pieces();
        let ghost views = self.views();
        let ghost left = views_without(views, k as int);
        let num_views = self.shared_peers.len();
        proof {
            Self::lemma_views_within_peers(self.peers(), views);
            assert(views[k as int].peer_id.0 == peer_id.0);
        }
        let removed = self.shared_peers.swap_remove(k);
        let _ = self.peers.insert(
            peer_id.0,
            SharedFilePeer { state_idx: None, local_state_status: peer.local_state_status },
        );
        if k < self.shared_peers.len() {
            let moved_id = self.shared_peers[k].peer_id;
            assert(moved_id == views.last().peer_id);
            assert(old(self).peers().contains_key(moved_id.0));
            match self.peers.get(&moved_id.0) {
                Some(moved) => {
                    let moved = *moved;
                    let _ = self.peers.insert(
                        moved_id.0,
                        SharedFilePeer {
                            state_idx: Some(k),
                            local_state_status: moved.local_state_status,
                        },
                    );
                },
                None => {},
            }
        }
        proof {
            assert(self.views() =~= left);
            assert(self.peers().dom() =~= old(self).peers().dom());
            assert(old(self).peers()[views[k as int].peer_id.0].state_idx == Some(k));
            assert(old(self).peers()[views.last().peer_id.0].state_idx == Some(
                (views.len() - 1) as usize,
            ));
            Self::lemma_peers_match_after_leave(
                old(self).peers(),
                self.peers(),
                views,
                k as int,
            );
            assert forall|piece: int| #[trigger]
                self.piece_queues.contains(piece) implies self.piece_queues.data(
                piece,
            ).num_confirmed_owners.0 >= bit(removed.confirmed@[piece]) && self.piece_queues.data(
                piece,
            ).num_possible_owners.0 >= bit(removed.possible@[piece]) && self.piece_queues.data(
                piece,
            ).num_possible_owners.0 < usize::MAX by {
                assert(old(self).queues().contains(piece));
                lemma_counts_after_swap_remove(views, k as int, piece);
                lemma_all_confirmed(views, piece);
            }
            assert(views[k as int].confirmed.len() == self.local().len());
            assert(views[k as int].possible.len() == self.local().len());
        }
        Self::leave_queues(&mut self.piece_queues, &removed.confirmed, &removed.possible);
        proof {
            assert forall|j: int| 0 <= j < self.shared_peers@.len() implies (
            #[trigger] self.shared_peers@[j]).confirmed@.len() == num_pieces by {
                assert(left[j].confirmed.len() == self.local().len()) by {
                    if j == k {
                        assert(views[views.len() - 1].confirmed.len() == self.local().len());
                    } else {
                        assert(views[j].confirmed.len() == self.local().len());
                    }
                }
            }
        }
        self.confirmed_remote_state = Self::meet_confirmed(&self.shared_peers, num_pieces);
        self.sent_pieces = Self::sent_without_peer(&self.sent_pieces, peer_id);
        proof {
            assert(self.views() =~= left);
            lemma_sent_without(old(self).sent(), *peer_id);
            assert(views_fit(left, self.local())) by {
                assert forall|j: int| 0 <= j < left.len() implies {
                    &&& (#[trigger] left[j]).confirmed.len() == self.local().len()
                    &&& left[j].possible.len() == self.local().len()
                    &&& forall|piece: int|
                        0 <= piece < self.local().len() ==> (left[j].confirmed[piece]
                            ==> #[trigger] left[j].possible[piece])
                    &&& forall|piece: int|
                        0 <= piece < self.local().len() ==> (#[trigger] left[j].possible[piece]
                            && !left[j].confirmed[piece] ==> self.local()[piece])
                } by {
                    if j == k {
                        assert(left[j] == views[views.len() - 1]);
                    } else {
                        assert(left[j] == views[j]);
                    }
                }
            }
            assert(remote_is_meet(self.remote(), left)) by {
                assert forall|piece: int| 0 <= piece < self.remote().len() implies (
                #[trigger] self.remote()[piece] <==> num_confirmed_owners(left, piece)
                    == left.len()) by {
                    lemma_all_confirmed(left, piece);
                    if self.remote()[piece] {
                        assert forall|j: int| 0 <= j < left.len() implies (
                        #[trigger] left[j]).confirmed[piece] by {
                            assert(self.shared_peers@[j].confirmed@[piece]);
                        }
                    }
                    if forall|j: int| 0 <= j < left.len() ==> (#[trigger] left[j]).confirmed[piece] {
                        assert forall|j: int| 0 <= j < self.shared_peers@.len() implies (
                        #[trigger] self.shared_peers@[j]).confirmed@[piece] by {
                            assert(left[j].confirmed[piece]);
                        }
                    }
                }
            }
            assert(queues_match(self.queues(), left, self.local(), self.remote())) by {
                assert forall|piece: int| #[trigger] self.queues().contains(piece) implies {
                    &&& 0 <= piece < self.local().len()
                    &&& self.local()[piece]
                    &&& self.queues().data(piece).num_confirmed_owners.0 == num_confirmed_owners(
                        left,
                        piece,
                    )
                    &&& self.queues().data(piece).num_possible_owners.0 == num_possible_owners(
                        left,
                        piece,
                    )
                } by {
                    assert(old(self).queues().contains(piece));
                    lemma_counts_after_swap_remove(views, k as int, piece);
                }
                assert forall|piece: int|
                    0 <= piece < self.local().len() && self.local()[piece]
                        && !self.remote()[piece] implies #[trigger] self.queues().contains(
                    piece,
                ) by {
                    lemma_counts_after_swap_remove(views, k as int, piece);
                    lemma_all_confirmed(views, piece);
                    lemma_all_confirmed(left, piece);
                    assert(!old(self).remote()[piece]);
                    assert(old(self).queues().contains(piece));
                }
            }
            assert forall|at: int| 0 <= at < self.sent().len() implies (
            #[trigger] self.sent()[at]).piece_idx.0 < self.local().len() && has_view(
                left,
                self.sent()[at].peer_id,
            ) by {
                let b = choose|b: int|
                    0 <= b < old(self).sent().len() && #[trigger] old(self).sent()[b]
                        == self.sent()[at];
                let entry = old(self).sent()[b];
                let j = choose|j: int|
                    0 <= j < views.len() && (#[trigger] views[j]).peer_id == entry.peer_id;
                assert(j != k);
                if j == views.len() - 1 {
                    assert(left[k as int].peer_id == entry.peer_id);
                } else {
                    assert(left[j].peer_id == entry.peer_id);
                }
            }
            assert(self.peers().len() == old(self).peers().len());
            assert(self.peers().len() > 0) by {
                assert(self.peers().contains_key(peer_id.0));
                if self.peers().len() == 0 {
                    assert(self.peers().dom() =~= Set::empty());
                }
            }
        }
        Ok(())
    }

    /// The order of the queues after a peer has lost its bitmap, if it had
    /// told one: the pieces were gone through one by one, as `left_piece`
    /// says.
    pub open spec fn queues_after_leave(
        before: Self,
        queues: FilePiecesQueues,
        peer_id: PeerId,
    ) -> bool {
        match before.peers()[peer_id.0].state_idx {
            Some(k) => Self::left_in_turn(
                before.queues(),
                queues,
                before.views()[k as int].confirmed,
                before.views()[k as int].possible,
                before.local().len() as int,
            ),
            None => queues == before.queues(),
        }
    }

    /// What removing a peer does: the peer goes, with its bitmap and the
    /// pieces that were sent to it; the last bitmap takes the place of the
    /// peer's; and when no peer is left, nothing stays queued.
    pub open spec fn peer_removed(before: Self, after: Self, peer_id: PeerId) -> bool {
        &&& after.peers().dom() == before.peers().dom().remove(peer_id.0)
        &&& forall|id: u32|
            after.peers().contains_key(id) ==> (
            #[trigger] after.peers()[id]).local_state_status == before.peers()[id].local_state_status
        &&& after.views() == match before.peers()[peer_id.0].state_idx {
            Some(k) => views_without(before.views(), k as int),
            None => before.views(),
        }
        &&& after.sent() == match before.peers()[peer_id.0].state_idx {
            Some(k) => sent_without(before.sent(), peer_id),
            None => before.sent(),
        }
        &&& forall|piece: int| #[trigger]
            after.queues().contains(piece) <==> before.queues().contains(
                piece,
            ) && after.peers().len() > 0
        &&& forall|piece: int| #[trigger]
            after.queues().contains(piece) ==> after.queues().data(
                piece,
            ).peer_shift == before.queues().data(piece).peer_shift
        &&& after.peers().len() > 0 ==> Self::queues_after_leave(before, after.queues(), peer_id)
        &&& after.spec_file() == before.spec_file()
        &&& after.recent() == before.recent()
    }

    /// Removes a peer, with its bitmap if it has told one. When the last
    /// peer goes, nothing is left to share with, and the queues are
    /// emptied.
    pub fn remove_peer(&mut self, peer_id: &PeerId) -> (r: Result<(), SharedFileRemovePeerError>)
        requires
            old(self).wf(),
        ensures
            final(self).wf(),
            match r {
                Err(err) => {
                    &&& *final(self) == *old(self)
                    &&& err == SharedFileRemovePeerError::PeerIsNotAdded
                },
                Ok(()) => Self::peer_removed(*old(self), *final(self), *peer_id),
            },
            r is Ok <==> old(self).peers().contains_key(peer_id.0),
    {
        match self.remove_peer_state(peer_id) {
            Ok(()) => {},
            Err(SharedFileRemovePeerStateError::PeerStateIsAlreadyRemoved) => {},
            Err(SharedFileRemovePeerStateError::PeerIsNotAdded) => {
                return Err(SharedFileRemovePeerError::PeerIsNotAdded);
            },
        }
        let ghost detached = *self;
        let num_pieces = self.file.num_pieces();
        let num_views = self.shared_peers.len();
        let _ = self.peers.remove(&peer_id.0);
        proof {
            assert(detached.peers()[peer_id.0].state_idx is None);
            assert(self.peers() == detached.peers().remove(peer_id.0));
            assert(self.peers().dom() =~= old(self).peers().dom().remove(peer_id.0));
            assert(self.views() == detached.views());
            assert(Self::peers_match(self.peers(), self.views())) by {
                assert forall|k: int| 0 <= k < self.views().len() implies self.peers().contains_key(
                    (#[trigger] self.views()[k]).peer_id.0,
                ) && self.peers()[self.views()[k].peer_id.0].state_idx == Some(k as usize) by {
                    assert(detached.peers()[self.views()[k].peer_id.0].state_idx == Some(
                        k as usize,
                    ));
                }
                assert forall|id: u32| #[trigger] self.peers().contains_key(id) implies match self.peers()[id].state_idx {
                    Some(k) => k < self.views().len() && self.views()[k as int].peer_id.0 == id,
                    None => true,
                } by {
                    assert(detached.peers().contains_key(id));
                }
            }
            assert(self.peers().len() == detached.peers().len() - 1);
            Self::lemma_views_within_peers(self.peers(), self.views());
        }
        if self.peers.is_empty() {
            self.piece_queues = FilePiecesQueues::new(num_pieces);
            proof {
                assert(self.peers().len() == 0);
                assert(self.views().len() == 0);
                assert forall|piece: int| 0 <= piece < self.local().len() implies self.remote()[piece] by {
                    lemma_all_confirmed(self.views(), piece);
                }
            }
        } else {
            proof {
                assert(self.peers().len() > 0) by {
                    if self.peers().len() == 0 {
                        assert(self.peers().dom() =~= Set::empty());
                        assert(self.peers() =~= Map::empty());
                    }
                }
            }
        }
        Ok(())
    }

    /// What taking a new bitmap for a peer does: the peer's old bitmap, if
    /// it had told one, goes, with the pieces that were sent to it; its new
    /// bitmap comes last among the bitmaps; and every piece that is present
    /// here and that the peer lacks is queued.
    pub open spec fn peer_state_set(before: Self, after: Self, peer_id: PeerId, bits: Seq<bool>) -> bool {
        let joined = PeerStateView { peer_id, confirmed: bits, possible: bits };
        &&& after.views() == match before.peers()[peer_id.0].state_idx {
            Some(k) => views_without(before.views(), k as int).push(joined),
            None => before.views().push(joined),
        }
        &&& after.peers().dom() == before.peers().dom()
        &&& forall|id: u32|
            before.peers().contains_key(id) ==> (
            #[trigger] after.peers()[id]).local_state_status == before.peers()[id].local_state_status
        &&& after.sent() == match before.peers()[peer_id.0].state_idx {
            Some(k) => sent_without(before.sent(), peer_id),
            None => before.sent(),
        }
        &&& forall|piece: int|
            0 <= piece < before.local().len() ==> (
            #[trigger] after.queues().contains(piece) <==> before.queues().contains(piece) || (before.local()[piece]
                && !bits[piece]))
        &&& forall|piece: int| #[trigger]
            after.queues().contains(piece) ==> after.queues().data(
                piece,
            ).peer_shift == if before.queues().contains(piece) {
                before.queues().data(piece).peer_shift
            } else {
                PiecePeerShift(0)
            }
        &&& exists|between: FilePiecesQueues|
            {
                &&& Self::queues_after_leave(before, between, peer_id)
                &&& #[trigger] Self::joined_in_turn(
                    between,
                    after.queues(),
                    before.local(),
                    bits,
                    after.views().len() - 1,
                    before.local().len() as int,
                )
            }
        &&& after.spec_file() == before.spec_file()
        &&& after.recent() == before.recent()
    }

    /// Replaces whatever bitmap a peer has told by a new one.
    pub fn set_peer_state(&mut self, peer_id: PeerId, state: FileState) -> (r: Result<
        (),
        SharedFileSetPeerStateError,
    >)
        requires
            old(self).wf(),
            state.wf(),
        ensures
            final(self).wf(),
            match r {
                Err(err) => {
                    &&& *final(self) == *old(self)
                    &&& err == if !old(self).peers().contains_key(peer_id.0) {
                        SharedFileSetPeerStateError::PeerIsNotAdded
                    } else {
                        SharedFileSetPeerStateError::PeerInvalidStateLen {
                            peer_len: state@.len() as usize,
                            local_len: old(self).local().len() as usize,
                        }
                    }
                },
                Ok(()) => Self::peer_state_set(*old(self), *final(self), peer_id, state@),
            },
            r is Ok <==> old(self).peers().contains_key(peer_id.0) && state@.len() == old(
                self,
            ).local().len(),
    {
        if !self.peers.contains_key(&peer_id.0) {
            return Err(SharedFileSetPeerStateError::PeerIsNotAdded);
        }
        let num_pieces = self.file.num_pieces();
        if state.len() != num_pieces {
            return Err(
                SharedFileSetPeerStateError::PeerInvalidStateLen {
                    peer_len: state.len(),
                    local_len: num_pieces,
                },
            );
        }
        let _ = self.remove_peer_state(&peer_id);
        let ghost detached = *self;
        proof {
            assert(detached.peers().contains_key(peer_id.0));
            assert(detached.peers()[peer_id.0].state_idx is None);
        }
        let _ = self.add_peer_state(peer_id, state);
        proof {
            assert(Self::queues_after_leave(*old(self), detached.queues(), peer_id));
            assert(Self::joined_in_turn(
                detached.queues(),
                self.queues(),
                old(self).local(),
                state@,
                self.views().len() - 1,
                old(self).local().len() as int,
            ));
            assert(self.peers().dom() =~= old(self).peers().dom());
            assert forall|piece: int| #[trigger]
                self.queues().contains(piece) implies self.queues().data(piece).peer_shift
                == if old(self).queues().contains(piece) {
                old(self).queues().data(piece).peer_shift
            } else {
                PiecePeerShift(0)
            } by {
                self.queues().lemma_entry_in_queue(piece);
                if detached.queues().contains(piece) {
                    assert(old(self).queues().contains(piece));
                } else {
                    assert(!old(self).queues().contains(piece));
                }
            }
            assert forall|piece: int| 0 <= piece < old(self).local().len() implies (
            #[trigger] self.queues().contains(piece) <==> old(self).queues().contains(piece) || (
            old(self).local()[piece] && !state@[piece])) by {
                assert(detached.queues().contains(piece) <==> old(self).queues().contains(piece));
            }
        }
        Ok(())
    }

    /// Takes it that a peer holds no piece of the file.
    pub fn set_peer_file_missing(&mut self, peer_id: PeerId) -> (r: Result<
        (),
        SharedFileSetPeerStateError,
    >)
        requires
            old(self).wf(),
        ensures
            final(self).wf(),
            r is Ok <==> old(self).peers().contains_key(peer_id.0),
            r is Err ==> *final(self) == *old(self) && r->Err_0
                == SharedFileSetPeerStateError::PeerIsNotAdded,
            r is Ok ==> Self::peer_state_set(
                *old(self),
                *final(self),
                peer_id,
                Seq::new(old(self).local().len(), |i: int| false),
            ),
    {
        let state = FileState::from_missing(self.file.num_pieces());
        self.set_peer_state(peer_id, state)
    }

    /// Takes it that a peer holds every piece of the file.
    pub fn set_peer_file_complete(&mut self, peer_id: PeerId) -> (r: Result<
        (),
        SharedFileSetPeerStateError,
    >)
        requires
            old(self).wf(),
        ensures
            final(self).wf(),
            r is Ok <==> old(self).peers().contains_key(peer_id.0),
            r is Err ==> *final(self) == *old(self) && r->Err_0
                == SharedFileSetPeerStateError::PeerIsNotAdded,
            r is Ok ==> Self::peer_state_set(
                *old(self),
                *final(self),
                peer_id,
                Seq::new(old(self).local().len(), |i: int| true),
            ),
    {
        let state = FileState::from_complete(self.file.num_pieces());
        self.set_peer_state(peer_id, state)
    }

    /// Hands out the pieces that arrived since the last call, oldest first,
    /// and forgets them.
    pub fn take_recently_added_pieces(&mut self) -> (r: Vec<FilePieceIdx>)
        requires
            old(self).wf(),
        ensures
            final(self).wf(),
            r@ == old(self).recent(),
            final(self).recent() == Seq::<FilePieceIdx>::empty(),
            final(self).spec_file() == old(self).spec_file(),
            final(self).remote() == old(self).remote(),
            final(self).peers() == old(self).peers(),
            final(self).views() == old(self).views(),
            final(self).queues() == old(self).queues(),
            final(self).sent() == old(self).sent(),
    {
        let mut taken: Vec<FilePieceIdx> = Vec::new();
        core::mem::swap(&mut self.recently_added_pieces, &mut taken);
        assert(self.views() =~= old(self).views());
        taken
    }

    /// Whether the peer has been told which pieces are present here.
    pub fn local_state_status(&self, peer_id: &PeerId) -> (r: Result<
        SharedFileLocalStateStatus,
        LocalStateStatusError,
    >)
        ensures
            r == if self.peers().contains_key(peer_id.0) {
                Ok::<SharedFileLocalStateStatus, LocalStateStatusError>(
                    self.peers()[peer_id.0].local_state_status,
                )
            } else {
                Err(LocalStateStatusError::PeerIsNotAdded)
            },
    {
        match self.peers.get(&peer_id.0) {
            Some(peer) => Ok(peer.local_state_status),
            None => Err(LocalStateStatusError::PeerIsNotAdded),
        }
    }

    /// Records whether the peer has been told which pieces are present
    /// here.
    pub fn set_local_state_status(
        &mut self,
        peer_id: &PeerId,
        status: SharedFileLocalStateStatus,
    ) -> (r: Result<(), LocalStateStatusError>)
        requires
            old(self).wf(),
        ensures
            final(self).wf(),
            !old(self).peers().contains_key(peer_id.0) ==> r == Err::<(), LocalStateStatusError>(
                LocalStateStatusError::PeerIsNotAdded,
            ) && *final(self) == *old(self),
            old(self).peers().contains_key(peer_id.0) ==> {
                &&& r is Ok
                &&& final(self).peers() == old(self).peers().insert(
                    peer_id.0,
                    SharedFilePeer {
                        state_idx: old(self).peers()[peer_id.0].state_idx,
                        local_state_status: status,
                    },
                )
                &&& final(self).spec_file() == old(self).spec_file()
                &&& final(self).remote() == old(self).remote()
                &&& final(self).views() == old(self).views()
                &&& final(self).queues() == old(self).queues()
                &&& final(self).sent() == old(self).sent()
                &&& final(self).recent() == old(self).recent()
            },
    {
        let peer = match self.peers.get(&peer_id.0) {
            Some(peer) => *peer,
            None => {
                return Err(LocalStateStatusError::PeerIsNotAdded);
            },
        };
        let _ = self.peers.insert(
            peer_id.0,
            SharedFilePeer { state_idx: peer.state_idx, local_state_status: status },
        );
        proof {
            assert(self.views() =~= old(self).views());
            assert(self.peers().dom() =~= old(self).peers().dom());
            assert(Self::peers_match(self.peers(), self.views())) by {
                assert forall|id: u32| #[trigger] self.peers().contains_key(id) implies match self.peers()[id].state_idx {
                    Some(k) => k < self.views().len() && self.views()[k as int].peer_id.0 == id,
                    None => true,
                } by {
                    assert(old(self).peers().contains_key(id));
                }
                assert forall|k: int| 0 <= k < self.views().len() implies self.peers().contains_key(
                    (#[trigger] self.views()[k]).peer_id.0,
                ) && self.peers()[self.views()[k].peer_id.0].state_idx == Some(k as usize) by {
                    assert(old(self).peers().contains_key(old(self).views()[k].peer_id.0));
                }
            }
        }
        Ok(())
    }

    /// Every peer that has been added, each once, in no particular order.
    pub fn peer_ids(&self) -> (r: Vec<PeerId>)
        ensures
            r@.no_duplicates(),
            r@.len() == self.peers().len(),
            forall|id: u32| self.peers().contains_key(id) <==> r@.contains(PeerId(id)),
    {
        let mut out: Vec<PeerId> = Vec::new();
        let ghost all = spec_keys_iter(&self.peers).remaining();
        for id in it: self.peers.keys()
            invariant
                it.seq() == all,
                out@.len() == it.index(),
                forall|j: int| 0 <= j < out@.len() ==> out@[j] == PeerId(*it.seq()[j]),
        {
            out.push(PeerId(*id));
        }
        proof {
            vstd::std_specs::hash::axiom_spec_keys_iter(&self.peers);
            assert(out@.len() == all.len());
            assert forall|a: int, b: int|
                0 <= a < out@.len() && 0 <= b < out@.len() && a != b implies out@[a]
                != out@[b] by {
                assert(all[a] != all[b]);
            }
            assert forall|id: u32| self.peers().contains_key(id) <==> out@.contains(
                PeerId(id),
            ) by {
                if self.peers().contains_key(id) {
                    assert(all.unref().to_set().contains(id));
                    let j = choose|j: int| 0 <= j < all.unref().len() && all.unref()[j] == id;
                    assert(out@[j] == PeerId(id));
                }
                if out@.contains(PeerId(id)) {
                    let j = choose|j: int| 0 <= j < out@.len() && out@[j] == PeerId(id);
                    assert(all.unref()[j] == id);
                    assert(all.unref().to_set().contains(id));
                }
            }
        }
        out
    }

    /// How many entries at the head of the list of sent pieces are older
    /// than `time`.
    fn count_sent_before(&self, time: Time) -> (r: usize)
        ensures
            r == sent_cutoff(self.sent(), time),
            r <= self.sent().len(),
    {
        let mut at: usize = 0;
        let ghost sent = self.sent_pieces@;
        assert(sent.skip(0) =~= sent);
        while at < self.sent_pieces.len() && self.sent_pieces[at].time.0 < time.0
            invariant
                at <= sent.len(),
                sent == self.sent_pieces@,
                sent_cutoff(sent, time) == at + sent_cutoff(sent.skip(at as int), time),
            decreases sent.len() - at,
        {
            assert(sent.skip(at as int).drop_first() =~= sent.skip(at + 1));
            at += 1;
        }
        at
    }

    /// Once a peer's bit for a piece has been given up, giving it up again
    /// changes nothing; and the other bits are untouched.
    proof fn lemma_resend_step(
        views: Seq<PeerStateView>,
        sent: Seq<SentPiece>,
        at: int,
        k: int,
        changed: bool,
    )
        requires
            0 <= at < sent.len(),
            0 <= k < views.len(),
            views[k].peer_id == sent[at].peer_id,
            forall|a: int, b: int|
                0 <= a < views.len() && 0 <= b < views.len() && views[a].peer_id
                    == views[b].peer_id ==> a == b,
            0 <= sent[at].piece_idx.0 < views[k].possible.len(),
            views[k].confirmed.len() == views[k].possible.len(),
            changed <==> {
                let now = resend_views(views, sent.take(at))[k];
                now.possible[sent[at].piece_idx.0 as int] && !now.confirmed[sent[at].piece_idx.0 as int]
            },
        ensures
            resend_views(views, sent.take(at + 1)) == if changed {
                Self::views_with_bits(
                    resend_views(views, sent.take(at)),
                    k,
                    sent[at].piece_idx.0 as int,
                    false,
                    false,
                )
            } else {
                resend_views(views, sent.take(at))
            },
    {
        let piece = sent[at].piece_idx.0 as int;
        let before = resend_views(views, sent.take(at));
        let after = resend_views(views, sent.take(at + 1));
        let stale = sent.take(at);
        let more = sent.take(at + 1);
        assert(more[at] == sent[at]);
        assert forall|j: int, other: int|
            0 <= j < views.len() && 0 <= other < views[j].possible.len() implies (sent_names(
            more,
            views[j].peer_id,
            other,
        ) <==> sent_names(stale, views[j].peer_id, other) || (j == k && other == piece)) by {
            if sent_names(stale, views[j].peer_id, other) {
                let a = choose|a: int|
                    0 <= a < stale.len() && (#[trigger] stale[a]).peer_id == views[j].peer_id
                        && stale[a].piece_idx.0 == other;
                assert(more[a] == stale[a]);
            }
            if sent_names(more, views[j].peer_id, other) {
                let a = choose|a: int|
                    0 <= a < more.len() && (#[trigger] more[a]).peer_id == views[j].peer_id
                        && more[a].piece_idx.0 == other;
                if a < at {
                    assert(stale[a] == more[a]);
                }
            }
        }
        let target = if changed {
            Self::views_with_bits(before, k, piece, false, false)
        } else {
            before
        };
        assert forall|j: int| 0 <= j < views.len() implies after[j] == target[j] by {
            assert(after[j].possible =~= target[j].possible);
            assert(after[j].confirmed =~= target[j].confirmed);
        }
        assert(after =~= target);
    }

    /// What giving up one sent piece does to the queues: when the peer is
    /// taken to hold the piece and is not known to, the piece counts one
    /// possible owner less and moves to the end of the queue of that
    /// count; else nothing changes.
    pub open spec fn given_up_piece(
        peers: Map<u32, SharedFilePeer>,
        views: Seq<PeerStateView>,
        before: FilePiecesQueues,
        after: FilePiecesQueues,
        entry: SentPiece,
    ) -> bool {
        let piece = entry.piece_idx.0 as int;
        let view = views[peers[entry.peer_id.0].state_idx->0 as int];
        if view.possible[piece] && !view.confirmed[piece] {
            FilePiecesQueues::requeued(
                before,
                after,
                entry.piece_idx,
                FilePieceData {
                    peer_shift: before.data(piece).peer_shift,
                    num_confirmed_owners: before.data(piece).num_confirmed_owners,
                    num_possible_owners: PieceNumPossibleOwners(
                        (before.data(piece).num_possible_owners.0 - 1) as usize,
                    ),
                },
            )
        } else {
            after == before
        }
    }

    /// The order of the queues after the first `upto` sent pieces have
    /// been given up, one by one from the oldest, each as `given_up_piece`
    /// says of the bitmaps as the pieces before it left them.
    pub open spec fn given_up_in_turn(
        peers: Map<u32, SharedFilePeer>,
        views: Seq<PeerStateView>,
        sent: Seq<SentPiece>,
        before: FilePiecesQueues,
        after: FilePiecesQueues,
        upto: int,
    ) -> bool
        decreases upto,
    {
        if upto <= 0 {
            after == before
        } else {
            exists|between: FilePiecesQueues|
                {
                    &&& Self::given_up_in_turn(peers, views, sent, before, between, upto - 1)
                    &&& #[trigger] Self::given_up_piece(
                        peers,
                        resend_views(views, sent.take(upto - 1)),
                        between,
                        after,
                        sent[upto - 1],
                    )
                }
        }
    }

    /// What giving up the pieces that went out before `time` does: they
    /// leave the list of sent pieces; each that was not acknowledged is no
    /// longer taken to be with its peer; and the queues follow, piece by
    /// piece.
    pub open spec fn stale_given_up(before: Self, after: Self, time: Time) -> bool {
        let stale = sent_cutoff(before.sent(), time);
        &&& after.sent() == before.sent().skip(stale)
        &&& after.views() == resend_views(before.views(), before.sent().take(stale))
        &&& forall|piece: int| #[trigger]
            after.queues().contains(piece) <==> before.queues().contains(piece)
        &&& forall|piece: int| #[trigger]
            before.queues().contains(piece) ==> after.queues().data(piece).peer_shift
                == before.queues().data(piece).peer_shift
        &&& Self::given_up_in_turn(
            before.peers(),
            before.views(),
            before.sent(),
            before.queues(),
            after.queues(),
            stale,
        )
        &&& after.remote() == before.remote()
        &&& after.spec_file() == before.spec_file()
        &&& after.peers() == before.peers()
        &&& after.recent() == before.recent()
    }

    /// Gives up as lost the pieces that went out before `time` and have not
    /// been acknowledged, so that they can go out again.
    pub fn mark_pieces_for_resend_before(&mut self, time: Time) -> (r: Result<
        (),
        SharedFileMarkError,
    >)
        requires
            old(self).wf(),
        ensures
            final(self).wf(),
            r is Ok,
            Self::stale_given_up(*old(self), *final(self), time),
    {
        let stale = self.count_sent_before(time);
        let ghost views = self.views();
        let ghost sent = self.sent();
        let num_views = self.shared_peers.len();
        proof {
            assert(resend_views(views, sent.take(0)) =~= views) by {
                assert forall|k: int| 0 <= k < views.len() implies resend_views(
                    views,
                    sent.take(0),
                )[k] == views[k] by {
                    assert(resend_views(views, sent.take(0))[k].possible =~= views[k].possible);
                }
            }
            assert forall|a: int, b: int|
                0 <= a < views.len() && 0 <= b < views.len() && views[a].peer_id
                    == views[b].peer_id implies a == b by {
                assert(self.peers()[views[a].peer_id.0].state_idx == Some(a as usize));
                assert(self.peers()[views[b].peer_id.0].state_idx == Some(b as usize));
            }
        }
        let mut at: usize = 0;
        while at < stale
            invariant
                at <= stale <= sent.len(),
                self.wf(),
                views == old(self).views(),
                sent == old(self).sent(),
                self.sent() == sent,
                views.len() == num_views,
                self.views() == resend_views(views, sent.take(at as int)),
                forall|a: int, b: int|
                    0 <= a < views.len() && 0 <= b < views.len() && views[a].peer_id
                        == views[b].peer_id ==> a == b,
                views_fit(views, self.local()),
                forall|piece: int| #[trigger]
                    self.queues().contains(piece) <==> old(self).queues().contains(piece),
                forall|piece: int| #[trigger]
                    old(self).queues().contains(piece) ==> self.queues().data(piece).peer_shift
                        == old(self).queues().data(piece).peer_shift,
                self.remote() == old(self).remote(),
                self.spec_file() == old(self).spec_file(),
                self.peers() == old(self).peers(),
                self.recent() == old(self).recent(),
                Self::given_up_in_turn(
                    old(self).peers(),
                    views,
                    sent,
                    old(self).queues(),
                    self.queues(),
                    at as int,
                ),
            decreases stale - at,
        {
            let entry = self.sent_pieces[at];
            let ghost before = *self;
            proof {
                assert(sent[at as int] == entry);
                assert(has_view(self.views(), entry.peer_id));
                let k = choose|k: int|
                    0 <= k < self.views().len() && (#[trigger] self.views()[k]).peer_id
                        == entry.peer_id;
                assert(self.peers()[self.views()[k].peer_id.0].state_idx == Some(k as usize));
                assert(views[k].peer_id == entry.peer_id);
                assert(views[k].confirmed.len() == self.local().len());
                assert(views[k].possible.len() == self.local().len());
                let now = self.views()[k];
                Self::lemma_resend_step(
                    views,
                    sent,
                    at as int,
                    k,
                    now.possible[entry.piece_idx.0 as int] && !now.confirmed[entry.piece_idx.0 as int],
                );
            }
            let _ = self.mark_for_resend_if_not_sent(&entry.peer_id, entry.piece_idx);
            proof {
                let next = at as int + 1;
                assert(Self::spec_mark_target(
                    before.peers(),
                    before.local().len(),
                    entry.peer_id,
                    entry.piece_idx,
                ) is Ok);
                assert(Self::given_up_piece(
                    old(self).peers(),
                    resend_views(views, sent.take(next - 1)),
                    before.queues(),
                    self.queues(),
                    sent[next - 1],
                ));
                assert(Self::given_up_in_turn(
                    old(self).peers(),
                    views,
                    sent,
                    old(self).queues(),
                    before.queues(),
                    next - 1,
                ));
                assert(Self::given_up_in_turn(
                    old(self).peers(),
                    views,
                    sent,
                    old(self).queues(),
                    self.queues(),
                    next,
                ));
            }
            proof {
                assert forall|piece: int| #[trigger]
                    self.queues().contains(piece) <==> old(self).queues().contains(piece) by {
                    assert(self.queues().contains(piece) <==> self.queues().pieces().contains_key(
                        piece,
                    ));
                    assert(before.queues().contains(piece)
                        <==> before.queues().pieces().contains_key(piece));
                }
                assert forall|piece: int| #[trigger]
                    old(self).queues().contains(piece) implies self.queues().data(
                    piece,
                ).peer_shift == old(self).queues().data(piece).peer_shift by {
                    assert(before.queues().contains(piece));
                    assert(before.queues().pieces().contains_key(piece));
                    assert(self.queues().pieces().contains_key(piece));
                    assert(self.queues().pieces()[piece] == self.queues().data(piece));
                    assert(before.queues().pieces()[piece] == before.queues().data(piece));
                }
            }
            at += 1;
        }
        let rest = self.sent_pieces.split_off(stale);
        self.sent_pieces = rest;
        proof {
            assert(self.views() == resend_views(views, sent.take(stale as int)));
            assert(self.sent() =~= sent.skip(stale as int));
            assert forall|a: int| 0 <= a < self.sent().len() implies (
            #[trigger] self.sent()[a]).piece_idx.0 < self.local().len() && has_view(
                self.views(),
                self.sent()[a].peer_id,
            ) by {
                let entry = sent[a + stale];
                assert(self.sent()[a] == entry);
                let j = choose|j: int|
                    0 <= j < views.len() && (#[trigger] views[j]).peer_id == entry.peer_id;
                assert(self.views()[j].peer_id == entry.peer_id);
            }
            assert forall|a: int, b: int| 0 <= a <= b < self.sent().len() implies self.sent()[a].time.0
                <= self.sent()[b].time.0 by {
                assert(sent[a + stale].time.0 <= sent[b + stale].time.0);
            }
        }
        Ok(())
    }

    /// Whatever a peer is known to hold, it is also taken to hold.
    pub proof fn lemma_confirmed_within_possible(&self, k: int, piece: int)
        requires
            self.wf(),
            0 <= k < self.views().len(),
            0 <= piece < self.spec_num_pieces(),
        ensures
            self.views()[k].confirmed[piece] ==> self.views()[k].possible[piece],
    {
    }

    /// A piece is confirmed remotely exactly when every peer that has told
    /// its bitmap is known to hold it.
    pub proof fn lemma_remote_is_meet(&self, piece: int)
        requires
            self.wf(),
            0 <= piece < self.spec_num_pieces(),
        ensures
            self.remote()[piece] <==> forall|k: int|
                0 <= k < self.views().len() ==> (#[trigger] self.views()[k]).confirmed[piece],
    {
        lemma_all_confirmed(self.views(), piece);
    }

    /// A queued piece is present here, and its entry holds the true owner
    /// counts, which do not exceed the number of peers with a bitmap.
    pub proof fn lemma_queued_piece(&self, piece: int)
        requires
            self.wf(),
            self.queues().contains(piece),
        ensures
            0 <= piece < self.spec_num_pieces(),
            self.local()[piece],
            self.queues().data(piece).num_confirmed_owners.0 == num_confirmed_owners(
                self.views(),
                piece,
            ),
            self.queues().data(piece).num_possible_owners.0 == num_possible_owners(
                self.views(),
                piece,
            ),
            self.queues().data(piece).num_confirmed_owners.0 <= self.queues().data(
                piece,
            ).num_possible_owners.0 <= self.views().len(),
    {
        lemma_all_confirmed(self.views(), piece);
        lemma_confirmed_at_most_possible(self.views(), self.local(), piece);
    }

    /// A piece that is present here and that fewer peers may hold than have
    /// told their bitmap is queued.
    pub proof fn lemma_sharable_piece_is_queued(&self, piece: int)
        requires
            self.wf(),
            0 <= piece < self.spec_num_pieces(),
            self.local()[piece],
            num_possible_owners(self.views(), piece) < self.views().len(),
        ensures
            self.queues().contains(piece),
    {
        lemma_all_confirmed(self.views(), piece);
        lemma_confirmed_at_most_possible(self.views(), self.local(), piece);
    }

    /// Without peers nothing is queued, and no piece can go out.
    pub proof fn lemma_no_peers_nothing_queued(&self, piece_idx: FilePieceIdx)
        requires
            self.wf(),
            self.peers().len() == 0,
        ensures
            self.views().len() == 0,
            forall|piece: int| !self.queues().contains(piece),
            self.queues().all_queues_empty(),
            self.spec_select(piece_idx) is Err,
    {
        Self::lemma_views_within_peers(self.peers(), self.views());
        self.queues().lemma_empty_iff_no_entries();
    }

    /// With one peer, a piece that can go out goes to that peer.
    pub proof fn lemma_single_peer_is_selected(&self, piece_idx: FilePieceIdx)
        requires
            self.wf(),
            self.views().len() == 1,
            self.spec_select(piece_idx) is Ok,
        ensures
            stride_index(
                piece_idx.0 as int,
                1,
                self.queues().data(piece_idx.0 as int).peer_shift.0 + self.spec_select(
                    piece_idx,
                )->Ok_0,
            ) == 0,
            !self.views()[0].possible[piece_idx.0 as int],
    {
        let piece = piece_idx.0 as int;
        let shift = self.queues().data(piece).peer_shift.0 as int;
        lemma_stride_index_bound(piece, 1, shift);
        lemma_stride_index_bound(piece, 1, shift + self.spec_select(piece_idx)->Ok_0);
        assert(first_free_from(self.views(), piece, shift, 1) is None);
    }

    /// The pieces that are older than a time are some of the sent pieces.
    pub proof fn lemma_cutoff_within(sent: Seq<SentPiece>, time: Time)
        ensures
            0 <= sent_cutoff(sent, time) <= sent.len(),
        decreases sent.len(),
    {
        if !(sent.len() == 0 || sent.first().time.0 >= time.0) {
            Self::lemma_cutoff_within(sent.drop_first(), time);
        }
    }

    /// A piece that went out before `time` to a peer that is not known to
    /// hold it is, once the stale pieces have been given up, no longer taken
    /// to be with that peer. If it was taken to be with the peer, it waits
    /// in the queues again, with the true number of its possible owners,
    /// which is below the number of peers with a bitmap. What a peer is
    /// known to hold stays as it was.
    pub proof fn lemma_given_up_piece_waits_again(before: Self, after: Self, time: Time, at: int)
        requires
            before.wf(),
            after.wf(),
            Self::stale_given_up(before, after, time),
            0 <= at < sent_cutoff(before.sent(), time),
        ensures
            ({
                let entry = before.sent()[at];
                let piece = entry.piece_idx.0 as int;
                let k = before.peers()[entry.peer_id.0].state_idx->0 as int;
                &&& 0 <= k < before.views().len() == after.views().len()
                &&& before.views()[k].peer_id == entry.peer_id
                &&& after.views()[k].peer_id == entry.peer_id
                &&& after.views()[k].confirmed == before.views()[k].confirmed
                &&& after.views()[k].possible[piece] == before.views()[k].confirmed[piece]
                &&& before.views()[k].possible[piece] && !before.views()[k].confirmed[piece] ==> {
                    &&& after.queues().contains(piece)
                    &&& after.queues().data(piece).num_possible_owners.0 == num_possible_owners(
                        after.views(),
                        piece,
                    )
                    &&& num_possible_owners(after.views(), piece) < after.views().len()
                }
            }),
    {
        let sent = before.sent();
        let stale = sent_cutoff(sent, time);
        Self::lemma_cutoff_within(sent, time);
        let entry = sent[at];
        let piece = entry.piece_idx.0 as int;
        let views = before.views();
        assert(has_view(views, entry.peer_id));
        let j = choose|j: int| 0 <= j < views.len() && (#[trigger] views[j]).peer_id == entry.peer_id;
        assert(before.peers()[views[j].peer_id.0].state_idx == Some(j as usize));
        let k = before.peers()[entry.peer_id.0].state_idx->0 as int;
        assert(before.peers().contains_key(entry.peer_id.0));
        assert(0 <= k < views.len() && views[k].peer_id.0 == entry.peer_id.0);
        assert(views[k].peer_id == entry.peer_id);
        assert(sent.take(stale)[at] == entry);
        assert(sent_names(sent.take(stale), views[k].peer_id, piece));
        before.lemma_confirmed_within_possible(k, piece);
        if views[k].possible[piece] && !views[k].confirmed[piece] {
            assert(after.local()[piece]);
            after.lemma_remote_is_meet(piece);
            assert(!after.remote()[piece]);
            after.lemma_queued_piece(piece);
            let column = crate::peer_views::possible_column(after.views(), piece);
            assert(!column[k]);
            crate::bits::lemma_count_ones_full(column);
            crate::bits::lemma_count_ones_bound(column);
        }
    }

    /// With one peer, a piece that was given up as lost can go out again,
    /// to that peer.
    pub proof fn lemma_given_up_piece_goes_again(before: Self, after: Self, time: Time, at: int)
        requires
            before.wf(),
            after.wf(),
            Self::stale_given_up(before, after, time),
            0 <= at < sent_cutoff(before.sent(), time),
            before.views().len() == 1,
            before.views()[0].possible[before.sent()[at].piece_idx.0 as int],
            !before.views()[0].confirmed[before.sent()[at].piece_idx.0 as int],
        ensures
            after.spec_select(before.sent()[at].piece_idx) == Ok::<
                int,
                SharedFileSelectPiecePeerError,
            >(0),
    {
        Self::lemma_given_up_piece_waits_again(before, after, time, at);
        let piece = before.sent()[at].piece_idx.0 as int;
        let shift = after.queues().data(piece).peer_shift.0 as int;
        lemma_stride_index_bound(piece, 1, shift);
        after.lemma_queued_piece(piece);
    }

    /// No two bitmaps are of one peer.
    pub proof fn lemma_one_bitmap_for_each_peer(&self, a: int, b: int)
        requires
            self.wf(),
            0 <= a < self.views().len(),
            0 <= b < self.views().len(),
            self.views()[a].peer_id == self.views()[b].peer_id,
        ensures
            a == b,
    {
        assert(self.views().len() == self.shared_peers.len());
        assert(self.peers()[self.views()[a].peer_id.0].state_idx == Some(a as usize));
        assert(self.peers()[self.views()[b].peer_id.0].state_idx == Some(b as usize));
    }

    /// The step at which the walk for a piece finds a receiver is one at
    /// which the peer is not taken to hold the piece.
    pub proof fn lemma_first_free_is_free(
        views: Seq<PeerStateView>,
        piece: int,
        start: int,
        from: int,
    )
        requires
            first_free_from(views, piece, start, from) is Some,
        ensures
            ({
                let step = first_free_from(views, piece, start, from)->0;
                &&& 0 <= from <= step < views.len()
                &&& !views[stride_index(piece, views.len() as int, start + step)].possible[piece]
            }),
        decreases views.len() - from,
    {
        if 0 <= from < views.len() && views[stride_index(
            piece,
            views.len() as int,
            start + from,
        )].possible[piece] {
            Self::lemma_first_free_is_free(views, piece, start, from + 1);
        }
    }

    /// Whether the bitmaps `now` are the bitmaps `was` but for one bit: the
    /// peer at place `k` was not taken to hold the piece, and now it is.
    pub open spec fn piece_brought(
        was: Seq<PeerStateView>,
        now: Seq<PeerStateView>,
        k: int,
        piece: int,
    ) -> bool {
        &&& 0 <= k < was.len() == now.len()
        &&& 0 <= piece < was[k].possible.len()
        &&& !was[k].possible[piece]
        &&& now[k].possible[piece]
        &&& forall|j: int|
            0 <= j < was.len() ==> (#[trigger] now[j]).peer_id == was[j].peer_id && now[j].confirmed
                == was[j].confirmed && now[j].possible.len() == was[j].possible.len()
        &&& forall|j: int, other: int|
            0 <= j < was.len() && 0 <= other < was[j].possible.len() && (j != k || other != piece)
                ==> #[trigger] now[j].possible[other] == was[j].possible[other]
    }

    /// A piece goes only to a peer that is not taken to hold it. From then
    /// on the peer is taken to hold it, the piece counts one more possible
    /// owner, and no other bit of any bitmap changes.
    pub proof fn lemma_piece_goes_to_a_peer_without_it(
        before: Self,
        after: Self,
        piece_idx: FilePieceIdx,
        time: Time,
        peer_id: PeerId,
    )
        requires
            before.wf(),
            before.spec_select(piece_idx) is Ok,
            Self::piece_taken(
                before,
                after,
                piece_idx,
                time,
                before.spec_select(piece_idx)->Ok_0,
                peer_id,
            ),
        ensures
            ({
                let piece = piece_idx.0 as int;
                let k = stride_index(
                    piece,
                    before.views().len() as int,
                    before.queues().data(piece).peer_shift.0 + before.spec_select(
                        piece_idx,
                    )->Ok_0,
                );
                &&& Self::piece_brought(before.views(), after.views(), k, piece)
                &&& before.views()[k].peer_id == peer_id
                &&& before.local()[piece]
                &&& num_possible_owners(after.views(), piece) == num_possible_owners(
                    before.views(),
                    piece,
                ) + 1
            }),
    {
        let piece = piece_idx.0 as int;
        let views = before.views();
        let shift = before.queues().data(piece).peer_shift.0 as int;
        let step = before.spec_select(piece_idx)->Ok_0;
        Self::lemma_first_free_is_free(views, piece, shift, 0);
        lemma_stride_index_bound(piece, views.len() as int, shift + step);
        let k = stride_index(piece, views.len() as int, shift + step);
        before.lemma_confirmed_within_possible(k, piece);
        before.lemma_queued_piece(piece);
        let now = Self::views_with_bits(views, k, piece, false, true);
        assert(now[k].confirmed =~= views[k].confirmed);
        lemma_counts_after_bit_change(views, now, k, piece);
    }

    /// A walk that finds no receiver has passed only peers that may hold
    /// the piece.
    pub proof fn lemma_no_receiver_on_the_walk(
        views: Seq<PeerStateView>,
        piece: int,
        start: int,
        from: int,
        step: int,
    )
        requires
            0 <= from <= step < views.len(),
            first_free_from(views, piece, start, from) is None,
        ensures
            views[stride_index(piece, views.len() as int, start + step)].possible[piece],
        decreases views.len() - from,
    {
        if from < step {
            Self::lemma_no_receiver_on_the_walk(views, piece, start, from + 1, step);
        }
    }

    /// While the step of a piece's walk comes back to every place, the
    /// piece goes out as long as some peer with a bitmap is not taken to
    /// hold it: so as many calls in a row as there are such peers bring it
    /// to each of them, and it is already owned only then.
    pub proof fn lemma_piece_goes_while_a_peer_lacks_it(&self, piece_idx: FilePieceIdx, k: int)
        requires
            self.wf(),
            piece_idx.0 < self.spec_num_pieces(),
            self.local()[piece_idx.0 as int],
            0 <= k < self.views().len(),
            !self.views()[k].possible[piece_idx.0 as int],
            crate::stride::step_turns_round(
                crate::stride::stride_multiplier(piece_idx.0 as int, self.views().len() as int),
                self.views().len() as int,
            ),
        ensures
            self.spec_select(piece_idx) is Ok,
    {
        let piece = piece_idx.0 as int;
        let views = self.views();
        self.lemma_confirmed_within_possible(k, piece);
        self.lemma_remote_is_meet(piece);
        assert(self.queues().contains(piece));
        let start = self.queues().data(piece).peer_shift.0 as int;
        crate::stride::lemma_walk_reaches(piece, views.len() as int, start, k);
        let step = choose|step: int|
            0 <= step < views.len() && #[trigger] stride_index(
                piece,
                views.len() as int,
                start + step,
            ) == k;
        if first_free_from(views, piece, start, 0) is None {
            Self::lemma_no_receiver_on_the_walk(views, piece, start, 0, step);
        }
    }

    /// For a piece that is present here, while some peer has told its
    /// bitmap: the piece goes out or is already owned, and it is already
    /// owned whenever every peer with a bitmap may hold it, whether it
    /// waits in a queue or not.
    pub proof fn lemma_local_piece_goes_or_is_owned(&self, piece_idx: FilePieceIdx)
        requires
            self.wf(),
            piece_idx.0 < self.spec_num_pieces(),
            self.local()[piece_idx.0 as int],
            self.views().len() >= 1,
        ensures
            self.spec_select(piece_idx) is Ok || self.spec_select(piece_idx) == Err::<
                int,
                SharedFileSelectPiecePeerError,
            >(SharedFileSelectPiecePeerError::PieceIsAlreadyOwned),
            every_peer_may_hold(self.views(), piece_idx.0 as int) ==> self.spec_select(piece_idx)
                == Err::<int, SharedFileSelectPiecePeerError>(
                SharedFileSelectPiecePeerError::PieceIsAlreadyOwned,
            ),
    {
        let piece = piece_idx.0 as int;
        lemma_every_peer_may_hold(self.views(), piece);
        if self.queues().contains(piece) {
            if every_peer_may_hold(self.views(), piece) {
                self.lemma_fully_owned_piece_is_not_selected(piece_idx);
            }
        } else {
            self.lemma_remote_is_meet(piece);
            assert forall|k: int| 0 <= k < self.views().len() implies (
            #[trigger] self.views()[k]).possible[piece] by {
                self.lemma_confirmed_within_possible(k, piece);
            }
        }
    }

    /// A piece that every peer with a bitmap may hold cannot go out.
    pub proof fn lemma_fully_owned_piece_is_not_selected(&self, piece_idx: FilePieceIdx)
        requires
            self.wf(),
            piece_idx.0 < self.spec_num_pieces(),
            num_possible_owners(self.views(), piece_idx.0 as int) == self.views().len(),
        ensures
            self.spec_select(piece_idx) is Err,
    {
        let piece = piece_idx.0 as int;
        lemma_all_confirmed(self.views(), piece);
        if self.queues().contains(piece) {
            let shift = self.queues().data(piece).peer_shift.0 as int;
            Self::lemma_no_free_peer(self.views(), piece, shift, 0);
        }
    }

    /// When every peer may hold a piece, the walk finds no receiver.
    proof fn lemma_no_free_peer(views: Seq<PeerStateView>, piece: int, start: int, step: int)
        requires
            0 <= step,
            forall|k: int| 0 <= k < views.len() ==> (#[trigger] views[k]).possible[piece],
        ensures
            first_free_from(views, piece, start, step) is None,
        decreases views.len() - step,
    {
        if step < views.len() {
            lemma_stride_index_bound(piece, views.len() as int, start + step);
            Self::lemma_no_free_peer(views, piece, start, step + 1);
        }
    }

    /// The bitmaps of a peer that has told them.
    pub fn peer_state(&self, peer_id: &PeerId) -> (r: Option<&SharedFilePeerState>)
        requires
            self.wf(),
        ensures
            match r {
                Some(state) => {
                    &&& state.wf()
                    &&& self.peers().contains_key(peer_id.0)
                    &&& self.peers()[peer_id.0].state_idx is Some
                    &&& state.view_state()
                        == self.views()[self.peers()[peer_id.0].state_idx->0 as int]
                },
                None => !self.peers().contains_key(peer_id.0)
                    || self.peers()[peer_id.0].state_idx is None,
            },
    {
        match self.peers.get(&peer_id.0) {
            None => None,
            Some(peer) => match peer.state_idx {
                None => None,
                Some(k) => {
                    assert(self.views()[k as int].peer_id.0 == peer_id.0);
                    Some(&self.shared_peers[k])
                },
            },
        }
    }

    /// The pieces that went out and may not have arrived, oldest first.
    pub fn sent_pieces(&self) -> (r: &Vec<SentPiece>)
        ensures
            r@ == self.sent(),
    {
        &self.sent_pieces
    }

    /// Telling the same bitmap for a peer a second time changes nothing:
    /// the bitmaps, the list of sent pieces, the remote bitmap and the
    /// entries of the queues stay as the first telling left them.
    pub proof fn lemma_set_peer_state_is_idempotent(
        first: Self,
        second: Self,
        third: Self,
        peer_id: PeerId,
        bits: Seq<bool>,
    )
        requires
            first.wf(),
            second.wf(),
            third.wf(),
            first.peers().contains_key(peer_id.0),
            first.views().len() <= usize::MAX,
            bits.len() == first.local().len(),
            Self::peer_state_set(first, second, peer_id, bits),
            Self::peer_state_set(second, third, peer_id, bits),
        ensures
            third.views() == second.views(),
            third.sent() == second.sent(),
            third.remote() == second.remote(),
            third.spec_file() == second.spec_file(),
            third.recent() == second.recent(),
            forall|piece: int| #[trigger]
                third.queues().contains(piece) <==> second.queues().contains(piece),
            forall|piece: int| #[trigger]
                second.queues().contains(piece) ==> third.queues().data(piece)
                    == second.queues().data(piece),
    {
        let joined = PeerStateView { peer_id, confirmed: bits, possible: bits };
        let views = second.views();
        let last = views.len() - 1;
        assert(views.last() == joined);
        assert(second.peers().contains_key(views[last].peer_id.0));
        assert(second.peers()[views[last].peer_id.0].state_idx == Some(last as usize));
        assert(third.views() =~= views);
        match first.peers()[peer_id.0].state_idx {
            Some(k) => {
                lemma_sent_without(first.sent(), peer_id);
            },
            None => {
                assert forall|at: int| 0 <= at < first.sent().len() implies (
                #[trigger] first.sent()[at]).peer_id != peer_id by {
                    if first.sent()[at].peer_id == peer_id {
                        let j = choose|j: int|
                            0 <= j < first.views().len() && (#[trigger] first.views()[j]).peer_id
                                == first.sent()[at].peer_id;
                        assert(first.peers()[first.views()[j].peer_id.0].state_idx == Some(
                            j as usize,
                        ));
                    }
                }
            },
        }
        lemma_sent_without_absent(second.sent(), peer_id);
        assert(third.remote() =~= second.remote()) by {
            assert forall|piece: int| 0 <= piece < second.remote().len() implies third.remote()[piece]
                == second.remote()[piece] by {
                assert(second.remote()[piece] <==> num_confirmed_owners(views, piece)
                    == views.len());
                assert(third.remote()[piece] <==> num_confirmed_owners(views, piece)
                    == views.len());
            }
        }
        assert forall|piece: int| #[trigger]
            third.queues().contains(piece) <==> second.queues().contains(piece) by {
            if third.queues().contains(piece) {
                third.lemma_queued_piece(piece);
            }
            if second.queues().contains(piece) {
                second.lemma_queued_piece(piece);
            }
            if 0 <= piece < first.local().len() {
                assert(second.queues().contains(piece) <==> first.queues().contains(piece) || (
                first.local()[piece] && !bits[piece]));
                assert(third.queues().contains(piece) <==> second.queues().contains(piece) || (
                second.local()[piece] && !bits[piece]));
            }
        }
        assert forall|piece: int| #[trigger]
            second.queues().contains(piece) implies third.queues().data(piece)
            == second.queues().data(piece) by {
            assert(third.queues().contains(piece));
            third.lemma_queued_piece(piece);
            second.lemma_queued_piece(piece);
            let kept = third.queues().data(piece);
            let was = second.queues().data(piece);
            assert(third.views() == second.views());
            assert(kept.peer_shift == was.peer_shift);
            assert(kept.num_confirmed_owners.0 == was.num_confirmed_owners.0);
            assert(kept.num_possible_owners.0 == was.num_possible_owners.0);
        }
    }
}

} // verus!
