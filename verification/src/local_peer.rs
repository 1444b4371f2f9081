//! The local peer: the files it shares, its links to remote peers, and
//! what it does on a message from the tracker or from a peer.
use vstd::prelude::*;
use crate::bits::count_ones;
use rand_chacha::ChaCha8Rng;
use crate::file::File;
use crate::file_chunk::FileChunk;
use crate::file_piece::FilePieceIdx;
use crate::file_state::FileState;
use crate::message::PeerPeerMessage;
use crate::peer_views::{has_view, PeerStateView};
use crate::protocol::{
    IceCandidate, PeerId, PeerTrackerMessage, SessionDescription, Sha256, TrackerPeerMessage,
};
use crate::remote_peer::{RemotePeer, RemotePeerEvent, RemotePeerKind};
use crate::shared_file::{SharedFile, SharedFileLocalStateStatus};
use crate::time::Time;
use crate::file_sharing_selector::{lowest_key, pool_of, FileSharingSelector, QueueItem};
use crate::params::SenderParams;

verus! {

/// The file is shared already.
#[derive(Clone, Copy, Debug, PartialEq, Eq, Structural)]
pub enum LocalPeerAddFileError {
    AlreadyAdded,
}

/// What the host is to do for the local peer.
#[derive(Clone, Debug, PartialEq, Eq)]
pub enum LocalPeerCommand {
    /// Open a connection to a peer, on the given side of the handshake.
    Connect { peer_id: PeerId, kind: RemotePeerKind },
    /// Set the description that a remote peer has sent.
    SetRemoteDescription { peer_id: PeerId, description: SessionDescription },
    /// Hand a candidate of a remote peer to the connection.
    AddIceCandidate { peer_id: PeerId, candidate: IceCandidate },
    /// Tell the connection that the remote peer has no more candidates.
    EndOfCandidates { peer_id: PeerId },
    /// Note that a message came that has no place: it names a peer without
    /// a link, or it does not fit the side that the link takes.
    Unexpected { peer_id: PeerId },
}

/// The reply that a message from a peer is owed.
pub open spec fn spec_reply(message: PeerPeerMessage) -> Option<PeerPeerMessage> {
    match message {
        PeerPeerMessage::FileMissing { sha256 } => Some(
            PeerPeerMessage::FileStateReceived { sha256 },
        ),
        PeerPeerMessage::FileComplete { sha256 } => Some(
            PeerPeerMessage::FileStateReceived { sha256 },
        ),
        PeerPeerMessage::FileState { sha256, state } => Some(
            PeerPeerMessage::FileStateReceived { sha256 },
        ),
        _ => None,
    }
}

/// Whether a shared file can take the message of a peer: the peer is one
/// of the file's, or there is room for one more.
pub open spec fn can_join<C: FileChunk, const CHUNK_SIZE: usize>(
    file: SharedFile<C, CHUNK_SIZE>,
    peer_id: PeerId,
) -> bool {
    file.peers().contains_key(peer_id.0) || file.peers().len() + 1 < usize::MAX
}

/// Whether a list of pieces names a piece.
pub open spec fn lists_piece(pieces: Seq<FilePieceIdx>, piece: int) -> bool {
    exists|at: int| 0 <= at < pieces.len() && (#[trigger] pieces[at]).0 == piece
}

/// What a peer's acknowledging a list of pieces does: the peer is known
/// to hold each of them, nothing else changes but what follows from that,
/// and the queues follow piece by piece, in the order of the list.
pub open spec fn pieces_marked<C: FileChunk, const CHUNK_SIZE: usize>(
    before: SharedFile<C, CHUNK_SIZE>,
    after: SharedFile<C, CHUNK_SIZE>,
    peer_id: PeerId,
    pieces: Seq<FilePieceIdx>,
) -> bool {
    &&& after.spec_file() == before.spec_file()
    &&& after.peers() == before.peers()
    &&& after.sent() == before.sent()
    &&& after.recent() == before.recent()
    &&& after.views().len() == before.views().len()
    &&& forall|k: int|
        0 <= k < before.views().len() ==> (#[trigger] after.views()[k]).peer_id
            == before.views()[k].peer_id
    &&& forall|k: int, piece: int|
        0 <= k < before.views().len() && 0 <= piece < before.local().len() ==> (
        #[trigger] after.views()[k].confirmed[piece] <==> before.views()[k].confirmed[piece] || (
        before.views()[k].peer_id == peer_id && lists_piece(pieces, piece)))
    &&& forall|k: int, piece: int|
        0 <= k < before.views().len() && 0 <= piece < before.local().len() ==> (
        #[trigger] after.views()[k].possible[piece] <==> before.views()[k].possible[piece] || (
        before.views()[k].peer_id == peer_id && lists_piece(pieces, piece)))
    &&& forall|piece: int| #[trigger]
        after.queues().contains(piece) <==> before.queues().contains(piece)
    &&& forall|piece: int| #[trigger]
        before.queues().contains(piece) ==> after.queues().data(piece).peer_shift
            == before.queues().data(piece).peer_shift
    &&& SharedFile::pieces_acknowledged(before, after, peer_id, pieces)
}

/// What a message from one of a file's peers does to the file.
pub open spec fn message_applied_to_peer<C: FileChunk, const CHUNK_SIZE: usize>(
    before: SharedFile<C, CHUNK_SIZE>,
    after: SharedFile<C, CHUNK_SIZE>,
    peer_id: PeerId,
    message: PeerPeerMessage,
) -> bool {
    let num_pieces = before.local().len();
    match message {
        PeerPeerMessage::FileMissing { sha256 } => SharedFile::peer_state_set(
            before,
            after,
            peer_id,
            Seq::new(num_pieces, |i: int| false),
        ),
        PeerPeerMessage::FileComplete { sha256 } => SharedFile::peer_state_set(
            before,
            after,
            peer_id,
            Seq::new(num_pieces, |i: int| true),
        ),
        PeerPeerMessage::FileState { sha256, state } => if state@.len() == num_pieces {
            SharedFile::peer_state_set(before, after, peer_id, state@)
        } else {
            after == before
        },
        PeerPeerMessage::FileStateReceived { sha256 } => {
            &&& after.peers() == before.peers().insert(
                peer_id.0,
                crate::shared_file::SharedFilePeer {
                    state_idx: before.peers()[peer_id.0].state_idx,
                    local_state_status: SharedFileLocalStateStatus::Received,
                },
            )
            &&& after.spec_file() == before.spec_file()
            &&& after.views() == before.views()
            &&& after.remote() == before.remote()
            &&& after.queues() == before.queues()
            &&& after.sent() == before.sent()
            &&& after.recent() == before.recent()
        },
        PeerPeerMessage::FilePiece { sha256, piece_idx, bytes } => SharedFile::piece_arrived(
            before,
            after,
            piece_idx,
            bytes@,
        ),
        PeerPeerMessage::FilePiecesReceived { sha256, pieces } => pieces_marked(
            before,
            after,
            peer_id,
            pieces@,
        ),
        PeerPeerMessage::FileRemoved { sha256 } => SharedFile::peer_removed(before, after, peer_id),
    }
}

/// What a message from a peer does to the shared file that it is about:
/// the peer joins the file if it is new to it, and then the message takes
/// effect.
pub open spec fn message_applied<C: FileChunk, const CHUNK_SIZE: usize>(
    before: SharedFile<C, CHUNK_SIZE>,
    after: SharedFile<C, CHUNK_SIZE>,
    peer_id: PeerId,
    message: PeerPeerMessage,
) -> bool {
    exists|joined: SharedFile<C, CHUNK_SIZE>|
        {
            &&& joined.wf()
            &&& joined.peers().contains_key(peer_id.0)
            &&& #[trigger] SharedFile::peer_joined(before, joined, peer_id)
            &&& message_applied_to_peer(joined, after, peer_id, message)
        }
}

/// Takes a message from a peer about a shared file. The peer becomes one
/// of the file's if it was not. A message that the file cannot take, for
/// want of room for the peer, is let go.
pub fn apply_peer_message<C: FileChunk, const CHUNK_SIZE: usize>(
    shared_file: &mut SharedFile<C, CHUNK_SIZE>,
    peer_id: PeerId,
    message: PeerPeerMessage,
) -> (r: Option<PeerPeerMessage>)
    requires
        old(shared_file).wf(),
    ensures
        final(shared_file).wf(),
        if can_join(*old(shared_file), peer_id) {
            &&& r == spec_reply(message)
            &&& message_applied(*old(shared_file), *final(shared_file), peer_id, message)
        } else {
            &&& r is None
            &&& *final(shared_file) == *old(shared_file)
        },
{
    if !shared_file.has_peer(peer_id) {
        if shared_file.num_peers() >= usize::MAX - 1 {
            return None;
        }
        let _ = shared_file.add_peer(peer_id);
    }
    let ghost joined = *shared_file;
    assert(SharedFile::peer_joined(*old(shared_file), joined, peer_id));
    let reply = apply_message_of_peer(shared_file, peer_id, message);
    reply
}

/// Takes a message from one of a file's peers.
fn apply_message_of_peer<C: FileChunk, const CHUNK_SIZE: usize>(
    shared_file: &mut SharedFile<C, CHUNK_SIZE>,
    peer_id: PeerId,
    message: PeerPeerMessage,
) -> (r: Option<PeerPeerMessage>)
    requires
        old(shared_file).wf(),
        old(shared_file).peers().contains_key(peer_id.0),
    ensures
        final(shared_file).wf(),
        r == spec_reply(message),
        message_applied_to_peer(*old(shared_file), *final(shared_file), peer_id, message),
{
    match message {
        PeerPeerMessage::FileMissing { sha256 } => {
            let _ = shared_file.set_peer_file_missing(peer_id);
            Some(PeerPeerMessage::FileStateReceived { sha256 })
        },
        PeerPeerMessage::FileComplete { sha256 } => {
            let _ = shared_file.set_peer_file_complete(peer_id);
            Some(PeerPeerMessage::FileStateReceived { sha256 })
        },
        PeerPeerMessage::FileState { sha256, state } => {
            match FileState::from_bits(&state) {
                Some(state) => {
                    let _ = shared_file.set_peer_state(peer_id, state);
                },
                None => {},
            }
            Some(PeerPeerMessage::FileStateReceived { sha256 })
        },
        PeerPeerMessage::FileStateReceived { sha256: _ } => {
            let _ = shared_file.set_local_state_status(
                &peer_id,
                SharedFileLocalStateStatus::Received,
            );
            None
        },
        PeerPeerMessage::FilePiece { sha256: _, piece_idx, bytes } => {
            let has_piece = match shared_file.file().has_piece(&piece_idx) {
                Ok(has_piece) => has_piece,
                Err(_) => false,
            };
            if !has_piece {
                let _ = shared_file.add_local_piece(piece_idx, bytes.as_slice());
            }
            None
        },
        PeerPeerMessage::FilePiecesReceived { sha256: _, pieces } => {
            mark_pieces_received(shared_file, peer_id, &pieces);
            None
        },
        PeerPeerMessage::FileRemoved { sha256: _ } => {
            let _ = shared_file.remove_peer(&peer_id);
            None
        },
    }
}

/// Records that a peer has acknowledged each piece of a list.
fn mark_pieces_received<C: FileChunk, const CHUNK_SIZE: usize>(
    shared_file: &mut SharedFile<C, CHUNK_SIZE>,
    peer_id: PeerId,
    pieces: &Vec<FilePieceIdx>,
)
    requires
        old(shared_file).wf(),
    ensures
        final(shared_file).wf(),
        pieces_marked(*old(shared_file), *final(shared_file), peer_id, pieces@),
{
    let mut at: usize = 0;
    let num_views = shared_file.num_peers_with_state();
    proof {
        assert forall|piece: int| !lists_piece(pieces@.take(0), piece) by {}
    }
    while at < pieces.len()
        invariant
            at <= pieces@.len(),
            old(shared_file).views().len() <= usize::MAX,
            old(shared_file).wf(),
            shared_file.wf(),
            pieces_marked(*old(shared_file), *shared_file, peer_id, pieces@.take(at as int)),
        decreases pieces@.len() - at,
    {
        let ghost before = *shared_file;
        let ghost first = *old(shared_file);
        let ghost done = pieces@.take(at as int);
        let ghost more = pieces@.take(at + 1);
        let ghost piece = pieces@[at as int];
        let _ = shared_file.mark_peer_piece_as_received_by_remote(&peer_id, pieces[at]);
        proof {
            assert(more.drop_last() =~= done);
            assert(more.last() == piece);
            assert(SharedFile::piece_acknowledged(before, *shared_file, peer_id, more.last()));
            assert(SharedFile::pieces_acknowledged(first, before, peer_id, more.drop_last()));
            assert(SharedFile::pieces_acknowledged(first, *shared_file, peer_id, more));
        }
        proof {
            assert(more[at as int] == piece);
            assert forall|i: int| lists_piece(more, i) <==> lists_piece(done, i) || i
                == piece.0 by {
                if lists_piece(done, i) {
                    let b = choose|b: int| 0 <= b < done.len() && (#[trigger] done[b]).0 == i;
                    assert(more[b] == done[b]);
                }
                if lists_piece(more, i) {
                    let b = choose|b: int| 0 <= b < more.len() && (#[trigger] more[b]).0 == i;
                    if b < at {
                        assert(done[b] == more[b]);
                    }
                }
            }
            let target = SharedFile::<C, CHUNK_SIZE>::spec_mark_target(
                before.peers(),
                before.local().len(),
                peer_id,
                piece,
            );
            assert forall|k: int| 0 <= k < first.views().len() implies (
            #[trigger] shared_file.views()[k]).peer_id == first.views()[k].peer_id by {
                assert(before.views()[k].peer_id == first.views()[k].peer_id);
            }
            assert forall|k: int, i: int|
                0 <= k < first.views().len() && 0 <= i < first.local().len() implies (
            #[trigger] shared_file.views()[k].confirmed[i] <==> first.views()[k].confirmed[i] || (
            first.views()[k].peer_id == peer_id && lists_piece(more, i))) && (
            #[trigger] shared_file.views()[k].possible[i] <==> first.views()[k].possible[i] || (
            first.views()[k].peer_id == peer_id && lists_piece(more, i))) by {
                assert(before.views()[k].peer_id == first.views()[k].peer_id);
                assert(before.views()[k].confirmed.len() == before.local().len());
                assert(before.views()[k].possible.len() == before.local().len());
                assert(before.views()[k].confirmed[i] <==> first.views()[k].confirmed[i] || (
                first.views()[k].peer_id == peer_id && lists_piece(done, i)));
                assert(before.views()[k].possible[i] <==> first.views()[k].possible[i] || (
                first.views()[k].peer_id == peer_id && lists_piece(done, i)));
                assert(before.views()[k].confirmed[i] ==> before.views()[k].possible[i]);
                assert(before.peers()[before.views()[k].peer_id.0].state_idx == Some(k as usize));
                match target {
                    Ok(place) => {
                        assert(before.views()[place as int].peer_id.0 == peer_id.0);
                        assert(before.peers()[before.views()[place as int].peer_id.0].state_idx
                            == Some(place));
                        if !before.views()[place as int].confirmed[piece.0 as int] {
                            let marked = SharedFile::<C, CHUNK_SIZE>::views_with_bits(
                                before.views(),
                                place as int,
                                piece.0 as int,
                                true,
                                true,
                            );
                            assert(shared_file.views() == marked);
                        } else {
                            assert(before.views()[place as int].possible[piece.0 as int]);
                        }
                    },
                    Err(_) => {
                        assert(*shared_file == before);
                        if first.views()[k].peer_id == peer_id && i == piece.0 {
                            assert(before.peers().contains_key(peer_id.0));
                            assert(piece.0 < before.local().len());
                        }
                    },
                }
            }
            assert forall|i: int| #[trigger]
                shared_file.queues().contains(i) <==> first.queues().contains(i) by {
                assert(before.queues().contains(i) <==> first.queues().contains(i));
                assert(shared_file.queues().contains(i) <==> shared_file.queues().pieces().contains_key(
                    i,
                ));
                assert(before.queues().contains(i) <==> before.queues().pieces().contains_key(i));
            }
            assert forall|i: int| #[trigger]
                first.queues().contains(i) implies shared_file.queues().data(i).peer_shift
                == first.queues().data(i).peer_shift by {
                assert(before.queues().contains(i));
                assert(before.queues().pieces().contains_key(i));
                assert(shared_file.queues().pieces().contains_key(i));
                assert(shared_file.queues().pieces()[i] == shared_file.queues().data(i));
                assert(before.queues().pieces()[i] == before.queues().data(i));
            }
        }
        at += 1;
    }
    assert(pieces@.take(at as int) =~= pieces@);
}

/// A message on its way to a peer. A bounded message goes out only while
/// the channel holds fewer unsent bytes than it may.
#[derive(Debug)]
pub struct Outgoing {
    pub peer_id: PeerId,
    pub message: PeerPeerMessage,
    pub bounded: bool,
}

/// Whether a message may still go out in a round in which the channels of
/// the peers in `full` have been found full: a bounded message goes to no
/// such peer; any other message goes, whatever the channels hold, and so
/// does a bounded message to another peer.
pub fn may_go(full: &Vec<PeerId>, sent: &Outgoing) -> (r: bool)
    ensures
        r == (!sent.bounded || !full@.contains(sent.peer_id)),
{
    if !sent.bounded {
        return true;
    }
    let mut at: usize = 0;
    while at < full.len()
        invariant
            at <= full@.len(),
            sent.bounded,
            forall|b: int| 0 <= b < at ==> full@[b] != sent.peer_id,
        decreases full@.len() - at,
    {
        if full[at].0 == sent.peer_id.0 {
            assert(full@[at as int] == sent.peer_id);
            assert(full@.contains(sent.peer_id));
            return false;
        }
        at += 1;
    }
    true
}

/// Whether a link is one of the links.
pub open spec fn link_was_there(links: Seq<RemotePeer>, link: RemotePeer) -> bool {
    exists|at: int| 0 <= at < links.len() && #[trigger] links[at] == link
}

/// Whether a peer has a link whose channel is open.
pub open spec fn link_ready(links: Seq<RemotePeer>, peer_id: PeerId) -> bool {
    exists|at: int|
        0 <= at < links.len() && (#[trigger] links[at]).spec_peer_id() == peer_id
            && links[at].spec_state() == crate::remote_peer::RemotePeerState::Open
}

/// Whether a peer is to be told the local bitmap: it has not been told, or
/// it was told no later than `resend_before` and has not said so.
pub open spec fn state_due(status: SharedFileLocalStateStatus, resend_before: Time) -> bool {
    match status {
        SharedFileLocalStateStatus::NotSent => true,
        SharedFileLocalStateStatus::Sent(time) => time.0 <= resend_before.0,
        SharedFileLocalStateStatus::Received => false,
    }
}

/// Whether a message tells the bitmap `local` of the file with the digest:
/// in short when no piece or every piece is present, else bit by bit.
pub open spec fn is_state_message(message: PeerPeerMessage, sha256: Seq<u8>, local: Seq<bool>) -> bool {
    let missing = forall|i: int| 0 <= i < local.len() ==> !local[i];
    let complete = forall|i: int| 0 <= i < local.len() ==> local[i];
    match message {
        PeerPeerMessage::FileMissing { sha256: named } => named.0@ == sha256 && missing,
        PeerPeerMessage::FileComplete { sha256: named } => named.0@ == sha256 && !missing
            && complete,
        PeerPeerMessage::FileState { sha256: named, state } => named.0@ == sha256 && !missing
            && !complete && state@ == local,
        _ => false,
    }
}

/// Whether a message acknowledges the pieces of the file with the digest.
pub open spec fn is_ack_message(
    message: PeerPeerMessage,
    sha256: Seq<u8>,
    recent: Seq<FilePieceIdx>,
) -> bool {
    match message {
        PeerPeerMessage::FilePiecesReceived { sha256: named, pieces } => named.0@ == sha256
            && pieces@ == recent,
        _ => false,
    }
}

/// Whether a message carries a piece that the file holds.
pub open spec fn is_piece_message<C: FileChunk, const CHUNK_SIZE: usize>(
    message: PeerPeerMessage,
    file: SharedFile<C, CHUNK_SIZE>,
) -> bool {
    match message {
        PeerPeerMessage::FilePiece { sha256, piece_idx, bytes } => {
            &&& sha256.0@ == file.spec_file().metadata_view().sha256
            &&& piece_idx.0 < file.local().len()
            &&& file.local()[piece_idx.0 as int]
            &&& bytes@ == file.spec_file().piece(piece_idx.0 as int)
        },
        _ => false,
    }
}

/// Whether no two of the messages go to one peer about one file.
pub open spec fn told_once(sent: Seq<Outgoing>) -> bool {
    forall|a: int, b: int|
        0 <= a < b < sent.len() ==> !((#[trigger] sent[a]).peer_id == (#[trigger] sent[b]).peer_id
            && sent[a].message.spec_sha256().0@ == sent[b].message.spec_sha256().0@)
}

/// Messages about one more file, no two of them to one peer, keep a list
/// free of repeats.
pub proof fn lemma_told_once_grows(earlier: Seq<Outgoing>, all: Seq<Outgoing>, sha256: Seq<u8>)
    requires
        told_once(earlier),
        earlier.len() <= all.len(),
        all.take(earlier.len() as int) == earlier,
        forall|a: int|
            0 <= a < earlier.len() ==> (#[trigger] all[a]).message.spec_sha256().0@ != sha256,
        forall|b: int|
            earlier.len() <= b < all.len() ==> (#[trigger] all[b]).message.spec_sha256().0@
                == sha256,
        forall|a: int, b: int|
            earlier.len() <= a < b < all.len() ==> (#[trigger] all[a]).peer_id != (
            #[trigger] all[b]).peer_id,
    ensures
        told_once(all),
{
    assert forall|a: int, b: int| 0 <= a < b < all.len() implies !((#[trigger] all[a]).peer_id == (
    #[trigger] all[b]).peer_id && all[a].message.spec_sha256().0@
        == all[b].message.spec_sha256().0@) by {
        if b < earlier.len() {
            assert(all[a] == all.take(earlier.len() as int)[a]);
            assert(all[b] == all.take(earlier.len() as int)[b]);
        }
    }
}

/// Whether the channel of the link to a peer is open.
pub fn find_ready(links: &Vec<RemotePeer>, peer_id: PeerId) -> (r: bool)
    ensures
        r == link_ready(links@, peer_id),
{
    let mut at: usize = 0;
    while at < links.len()
        invariant
            at <= links@.len(),
            forall|b: int|
                0 <= b < at ==> !((#[trigger] links@[b]).spec_peer_id() == peer_id
                    && links@[b].spec_state() == crate::remote_peer::RemotePeerState::Open),
        decreases links@.len() - at,
    {
        if links[at].peer_id().0 == peer_id.0 && links[at].is_ready() {
            return true;
        }
        at += 1;
    }
    false
}

/// The message that tells the bitmap of a file.
pub fn state_message<C: FileChunk, const CHUNK_SIZE: usize>(
    file: &SharedFile<C, CHUNK_SIZE>,
) -> (r: PeerPeerMessage)
    requires
        file.wf(),
    ensures
        is_state_message(r, file.spec_file().metadata_view().sha256, file.local()),
{
    let sha256 = file.file().sha256();
    let state = file.file().state();
    if state.is_missing() {
        PeerPeerMessage::FileMissing { sha256 }
    } else if state.is_complete() {
        PeerPeerMessage::FileComplete { sha256 }
    } else {
        PeerPeerMessage::FileState { sha256, state: state.to_vec() }
    }
}

/// A second list with the same pieces.
fn copy_pieces(pieces: &Vec<FilePieceIdx>) -> (r: Vec<FilePieceIdx>)
    ensures
        r@ == pieces@,
{
    let mut out: Vec<FilePieceIdx> = Vec::new();
    let mut at: usize = 0;
    while at < pieces.len()
        invariant
            at <= pieces@.len(),
            out@ == pieces@.take(at as int),
        decreases pieces@.len() - at,
    {
        out.push(pieces[at]);
        assert(pieces@.take(at + 1) =~= pieces@.take(at as int).push(pieces@[at as int]));
        at += 1;
    }
    assert(pieces@.take(at as int) =~= pieces@);
    out
}

/// What telling the bitmap of a file to the peers that are due does: the
/// peers that are due and whose link is open count as told at `now`, and
/// nothing else changes.
pub open spec fn file_state_sent<C: FileChunk, const CHUNK_SIZE: usize>(
    before: SharedFile<C, CHUNK_SIZE>,
    after: SharedFile<C, CHUNK_SIZE>,
    links: Seq<RemotePeer>,
    resend_before: Time,
    now: Time,
) -> bool {
    &&& after.spec_file() == before.spec_file()
    &&& after.views() == before.views()
    &&& after.remote() == before.remote()
    &&& after.queues() == before.queues()
    &&& after.sent() == before.sent()
    &&& after.recent() == before.recent()
    &&& after.peers().dom() == before.peers().dom()
    &&& forall|id: u32| #[trigger]
        before.peers().contains_key(id) ==> after.peers()[id].state_idx
            == before.peers()[id].state_idx && after.peers()[id].local_state_status == if state_due(
            before.peers()[id].local_state_status,
            resend_before,
        ) && link_ready(links, PeerId(id)) {
            SharedFileLocalStateStatus::Sent(now)
        } else {
            before.peers()[id].local_state_status
        }
}

/// Tells the bitmap of a file to every peer of the file that is due and
/// whose link is open.
pub fn send_file_state<C: FileChunk, const CHUNK_SIZE: usize>(
    file: &mut SharedFile<C, CHUNK_SIZE>,
    links: &Vec<RemotePeer>,
    resend_before: Time,
    now: Time,
    out: &mut Vec<Outgoing>,
)
    requires
        old(file).wf(),
    ensures
        final(file).wf(),
        file_state_sent(*old(file), *final(file), links@, resend_before, now),
        final(out)@.len() >= old(out)@.len(),
        final(out)@.take(old(out)@.len() as int) == old(out)@,
        forall|j: int|
            old(out)@.len() <= j < final(out)@.len() ==> {
                let sent = #[trigger] final(out)@[j];
                &&& !sent.bounded
                &&& is_state_message(
                    sent.message,
                    old(file).spec_file().metadata_view().sha256,
                    old(file).local(),
                )
                &&& old(file).peers().contains_key(sent.peer_id.0)
                &&& state_due(old(file).peers()[sent.peer_id.0].local_state_status, resend_before)
                &&& link_ready(links@, sent.peer_id)
            },
        forall|id: u32|
            old(file).peers().contains_key(id) && state_due(
                old(file).peers()[id].local_state_status,
                resend_before,
            ) && link_ready(links@, PeerId(id)) ==> exists|j: int|
                old(out)@.len() <= j < final(out)@.len() && (#[trigger] final(out)@[j]).peer_id
                    == PeerId(id),
        forall|a: int, b: int|
            old(out)@.len() <= a < b < final(out)@.len() ==> (#[trigger] final(out)@[a]).peer_id != (
            #[trigger] final(out)@[b]).peer_id,
{
    let peer_ids = file.peer_ids();
    let ghost start = out@.len() as int;
    let mut at: usize = 0;
    assert(out@.take(start) =~= old(out)@);
    while at < peer_ids.len()
        invariant
            at <= peer_ids@.len(),
            start == old(out)@.len(),
            out@.len() >= start,
            out@.take(start) == old(out)@,
            peer_ids@.no_duplicates(),
            forall|id: u32| old(file).peers().contains_key(id) <==> peer_ids@.contains(PeerId(id)),
            old(file).wf(),
            file.wf(),
            file.spec_file() == old(file).spec_file(),
            file.views() == old(file).views(),
            file.remote() == old(file).remote(),
            file.queues() == old(file).queues(),
            file.sent() == old(file).sent(),
            file.recent() == old(file).recent(),
            file.peers().dom() == old(file).peers().dom(),
            forall|b: int|
                at <= b < peer_ids@.len() ==> file.peers()[(#[trigger] peer_ids@[b]).0] == old(
                    file,
                ).peers()[peer_ids@[b].0],
            forall|b: int|
                0 <= b < at ==> {
                    let id = (#[trigger] peer_ids@[b]).0;
                    &&& file.peers()[id].state_idx == old(file).peers()[id].state_idx
                    &&& file.peers()[id].local_state_status == if state_due(
                        old(file).peers()[id].local_state_status,
                        resend_before,
                    ) && link_ready(links@, PeerId(id)) {
                        SharedFileLocalStateStatus::Sent(now)
                    } else {
                        old(file).peers()[id].local_state_status
                    }
                    &&& (state_due(old(file).peers()[id].local_state_status, resend_before)
                        && link_ready(links@, PeerId(id)) ==> exists|j: int|
                        start <= j < out@.len() && (#[trigger] out@[j]).peer_id == PeerId(id))
                },
            forall|j: int|
                start <= j < out@.len() ==> {
                    let sent = #[trigger] out@[j];
                    &&& !sent.bounded
                    &&& is_state_message(
                        sent.message,
                        old(file).spec_file().metadata_view().sha256,
                        old(file).local(),
                    )
                    &&& old(file).peers().contains_key(sent.peer_id.0)
                    &&& state_due(
                        old(file).peers()[sent.peer_id.0].local_state_status,
                        resend_before,
                    )
                    &&& link_ready(links@, sent.peer_id)
                },
            forall|j: int|
                start <= j < out@.len() ==> exists|b: int|
                    0 <= b < at && #[trigger] peer_ids@[b] == (#[trigger] out@[j]).peer_id,
            forall|a: int, b: int|
                start <= a < b < out@.len() ==> (#[trigger] out@[a]).peer_id != (
                #[trigger] out@[b]).peer_id,
        decreases peer_ids@.len() - at,
    {
        let peer_id = peer_ids[at];
        let ghost before = *file;
        let ghost out_before = out@;
        proof {
            assert(peer_ids@.contains(peer_id));
            assert(old(file).peers().contains_key(peer_id.0));
        }
        let due = match file.local_state_status(&peer_id) {
            Ok(SharedFileLocalStateStatus::NotSent) => true,
            Ok(SharedFileLocalStateStatus::Sent(time)) => time.0 <= resend_before.0,
            _ => false,
        };
        if due && find_ready(links, peer_id) {
            let message = state_message(file);
            let _ = file.set_local_state_status(&peer_id, SharedFileLocalStateStatus::Sent(now));
            out.push(Outgoing { peer_id, message, bounded: false });
            proof {
                assert(out@.take(start) =~= old(out)@);
                assert(out@[out@.len() - 1].peer_id == peer_id);
            }
        }
        proof {
            assert(file.peers().dom() =~= old(file).peers().dom());
            assert forall|b: int| at + 1 <= b < peer_ids@.len() implies file.peers()[(
            #[trigger] peer_ids@[b]).0] == old(file).peers()[peer_ids@[b].0] by {
                assert(peer_ids@[b] != peer_ids@[at as int]);
                assert(before.peers()[peer_ids@[b].0] == old(file).peers()[peer_ids@[b].0]);
            }
            assert forall|b: int| 0 <= b < at + 1 implies {
                let id = (#[trigger] peer_ids@[b]).0;
                &&& file.peers()[id].state_idx == old(file).peers()[id].state_idx
                &&& file.peers()[id].local_state_status == if state_due(
                    old(file).peers()[id].local_state_status,
                    resend_before,
                ) && link_ready(links@, PeerId(id)) {
                    SharedFileLocalStateStatus::Sent(now)
                } else {
                    old(file).peers()[id].local_state_status
                }
                &&& (state_due(old(file).peers()[id].local_state_status, resend_before)
                    && link_ready(links@, PeerId(id)) ==> exists|j: int|
                    start <= j < out@.len() && (#[trigger] out@[j]).peer_id == PeerId(id))
            } by {
                let id = peer_ids@[b].0;
                if b < at {
                    assert(peer_ids@[b] != peer_ids@[at as int]);
                    assert(file.peers()[id] == before.peers()[id]);
                    if state_due(old(file).peers()[id].local_state_status, resend_before)
                        && link_ready(links@, PeerId(id)) {
                        let j = choose|j: int|
                            start <= j < out_before.len() && (#[trigger] out_before[j]).peer_id
                                == PeerId(id);
                        assert(out@[j] == out_before[j]);
                    }
                } else {
                    assert(PeerId(id) == peer_id);
                    if state_due(old(file).peers()[id].local_state_status, resend_before)
                        && link_ready(links@, PeerId(id)) {
                        assert(out@[out@.len() - 1].peer_id == PeerId(id));
                    }
                }
            }
            assert forall|j: int| start <= j < out@.len() implies {
                let sent = #[trigger] out@[j];
                &&& !sent.bounded
                &&& is_state_message(
                    sent.message,
                    old(file).spec_file().metadata_view().sha256,
                    old(file).local(),
                )
                &&& old(file).peers().contains_key(sent.peer_id.0)
                &&& state_due(old(file).peers()[sent.peer_id.0].local_state_status, resend_before)
                &&& link_ready(links@, sent.peer_id)
            } by {
                if j < out_before.len() {
                    assert(out@[j] == out_before[j]);
                }
            }
            assert forall|j: int| start <= j < out@.len() implies exists|b: int|
                0 <= b < at + 1 && #[trigger] peer_ids@[b] == (#[trigger] out@[j]).peer_id by {
                if j < out_before.len() {
                    assert(out@[j] == out_before[j]);
                    let b = choose|b: int|
                        0 <= b < at && #[trigger] peer_ids@[b] == out_before[j].peer_id;
                    assert(0 <= b < at + 1 && peer_ids@[b] == out@[j].peer_id);
                } else {
                    assert(peer_ids@[at as int] == out@[j].peer_id);
                }
            }
            assert forall|a: int, b: int| start <= a < b < out@.len() implies (
            #[trigger] out@[a]).peer_id != (#[trigger] out@[b]).peer_id by {
                assert(out@[a] == out_before[a]);
                if b < out_before.len() {
                    assert(out@[b] == out_before[b]);
                } else {
                    let c = choose|c: int|
                        0 <= c < at && #[trigger] peer_ids@[c] == out_before[a].peer_id;
                    assert(peer_ids@[c] != peer_ids@[at as int]);
                }
            }
        }
        at += 1;
    }
    proof {
        assert forall|id: u32| #[trigger]
            old(file).peers().contains_key(id) implies file.peers()[id].state_idx == old(
            file,
        ).peers()[id].state_idx && file.peers()[id].local_state_status == if state_due(
            old(file).peers()[id].local_state_status,
            resend_before,
        ) && link_ready(links@, PeerId(id)) {
            SharedFileLocalStateStatus::Sent(now)
        } else {
            old(file).peers()[id].local_state_status
        } by {
            assert(peer_ids@.contains(PeerId(id)));
            let b = choose|b: int| 0 <= b < peer_ids@.len() && peer_ids@[b] == PeerId(id);
            assert(peer_ids@[b].0 == id);
        }
        assert forall|id: u32|
            old(file).peers().contains_key(id) && state_due(
                old(file).peers()[id].local_state_status,
                resend_before,
            ) && link_ready(links@, PeerId(id)) implies exists|j: int|
            start <= j < out@.len() && (#[trigger] out@[j]).peer_id == PeerId(id) by {
            assert(peer_ids@.contains(PeerId(id)));
            let b = choose|b: int| 0 <= b < peer_ids@.len() && peer_ids@[b] == PeerId(id);
            assert(peer_ids@[b].0 == id);
        }
    }
}

/// Hands the pieces that arrived at a file since the last round to every
/// peer of the file whose link is open, and forgets them.
#[verifier::rlimit(50)]
pub fn send_file_recently_received<C: FileChunk, const CHUNK_SIZE: usize>(
    file: &mut SharedFile<C, CHUNK_SIZE>,
    links: &Vec<RemotePeer>,
    out: &mut Vec<Outgoing>,
)
    requires
        old(file).wf(),
    ensures
        final(file).wf(),
        final(file).recent() == Seq::<FilePieceIdx>::empty(),
        final(file).spec_file() == old(file).spec_file(),
        final(file).views() == old(file).views(),
        final(file).remote() == old(file).remote(),
        final(file).queues() == old(file).queues(),
        final(file).sent() == old(file).sent(),
        final(file).peers() == old(file).peers(),
        final(out)@.len() >= old(out)@.len(),
        final(out)@.take(old(out)@.len() as int) == old(out)@,
        old(file).recent().len() == 0 ==> final(out)@ == old(out)@,
        forall|j: int|
            old(out)@.len() <= j < final(out)@.len() ==> {
                let sent = #[trigger] final(out)@[j];
                &&& !sent.bounded
                &&& is_ack_message(
                    sent.message,
                    old(file).spec_file().metadata_view().sha256,
                    old(file).recent(),
                )
                &&& old(file).peers().contains_key(sent.peer_id.0)
                &&& link_ready(links@, sent.peer_id)
            },
        forall|id: u32|
            old(file).recent().len() > 0 && old(file).peers().contains_key(id) && link_ready(
                links@,
                PeerId(id),
            ) ==> exists|j: int|
                old(out)@.len() <= j < final(out)@.len() && (#[trigger] final(out)@[j]).peer_id
                    == PeerId(id),
        forall|a: int, b: int|
            old(out)@.len() <= a < b < final(out)@.len() ==> (#[trigger] final(out)@[a]).peer_id != (
            #[trigger] final(out)@[b]).peer_id,
{
    let pieces = file.take_recently_added_pieces();
    let ghost start = out@.len() as int;
    assert(out@.take(start) =~= old(out)@);
    if pieces.len() == 0 {
        return ;
    }
    let sha256 = file.file().sha256();
    let peer_ids = file.peer_ids();
    let mut at: usize = 0;
    while at < peer_ids.len()
        invariant
            at <= peer_ids@.len(),
            start == old(out)@.len(),
            out@.len() >= start,
            out@.take(start) == old(out)@,
            pieces@ == old(file).recent(),
            sha256.0@ == old(file).spec_file().metadata_view().sha256,
            forall|id: u32| old(file).peers().contains_key(id) <==> peer_ids@.contains(PeerId(id)),
            forall|b: int|
                0 <= b < at && link_ready(links@, #[trigger] peer_ids@[b]) ==> exists|j: int|
                    start <= j < out@.len() && (#[trigger] out@[j]).peer_id == peer_ids@[b],
            forall|j: int|
                start <= j < out@.len() ==> {
                    let sent = #[trigger] out@[j];
                    &&& !sent.bounded
                    &&& is_ack_message(
                        sent.message,
                        old(file).spec_file().metadata_view().sha256,
                        old(file).recent(),
                    )
                    &&& old(file).peers().contains_key(sent.peer_id.0)
                    &&& link_ready(links@, sent.peer_id)
                },
            peer_ids@.no_duplicates(),
            forall|j: int|
                start <= j < out@.len() ==> exists|b: int|
                    0 <= b < at && #[trigger] peer_ids@[b] == (#[trigger] out@[j]).peer_id,
            forall|a: int, b: int|
                start <= a < b < out@.len() ==> (#[trigger] out@[a]).peer_id != (
                #[trigger] out@[b]).peer_id,
        decreases peer_ids@.len() - at,
    {
        let peer_id = peer_ids[at];
        let ghost out_before = out@;
        proof {
            assert(peer_ids@.contains(peer_id));
            assert(old(file).peers().contains_key(peer_id.0));
        }
        if find_ready(links, peer_id) {
            out.push(
                Outgoing {
                    peer_id,
                    message: PeerPeerMessage::FilePiecesReceived {
                        sha256,
                        pieces: copy_pieces(&pieces),
                    },
                    bounded: false,
                },
            );
            proof {
                assert(out@.take(start) =~= old(out)@);
                assert(out@[out@.len() - 1].peer_id == peer_id);
            }
        }
        proof {
            assert forall|b: int|
                0 <= b < at + 1 && link_ready(links@, #[trigger] peer_ids@[b]) implies exists|
                j: int,
            | start <= j < out@.len() && (#[trigger] out@[j]).peer_id == peer_ids@[b] by {
                if b < at {
                    let j = choose|j: int|
                        start <= j < out_before.len() && (#[trigger] out_before[j]).peer_id
                            == peer_ids@[b];
                    assert(out@[j] == out_before[j]);
                } else {
                    assert(out@[out@.len() - 1].peer_id == peer_ids@[b]);
                }
            }
            assert forall|j: int| start <= j < out@.len() implies {
                let sent = #[trigger] out@[j];
                &&& !sent.bounded
                &&& is_ack_message(
                    sent.message,
                    old(file).spec_file().metadata_view().sha256,
                    old(file).recent(),
                )
                &&& old(file).peers().contains_key(sent.peer_id.0)
                &&& link_ready(links@, sent.peer_id)
            } by {
                if j < out_before.len() {
                    assert(out@[j] == out_before[j]);
                }
            }
            assert forall|j: int| start <= j < out@.len() implies exists|b: int|
                0 <= b < at + 1 && #[trigger] peer_ids@[b] == (#[trigger] out@[j]).peer_id by {
                if j < out_before.len() {
                    assert(out@[j] == out_before[j]);
                    let b = choose|b: int|
                        0 <= b < at && #[trigger] peer_ids@[b] == out_before[j].peer_id;
                    assert(0 <= b < at + 1 && peer_ids@[b] == out@[j].peer_id);
                } else {
                    assert(peer_ids@[at as int] == out@[j].peer_id);
                }
            }
            assert forall|a: int, b: int| start <= a < b < out@.len() implies (
            #[trigger] out@[a]).peer_id != (#[trigger] out@[b]).peer_id by {
                assert(out@[a] == out_before[a]);
                if b < out_before.len() {
                    assert(out@[b] == out_before[b]);
                } else {
                    let c = choose|c: int|
                        0 <= c < at && #[trigger] peer_ids@[c] == out_before[a].peer_id;
                    assert(peer_ids@[c] != peer_ids@[at as int]);
                }
            }
        }
        at += 1;
    }
    proof {
        assert forall|id: u32|
            old(file).recent().len() > 0 && old(file).peers().contains_key(id) && link_ready(
                links@,
                PeerId(id),
            ) implies exists|j: int|
            start <= j < out@.len() && (#[trigger] out@[j]).peer_id == PeerId(id) by {
            assert(peer_ids@.contains(PeerId(id)));
            let b = choose|b: int| 0 <= b < peer_ids@.len() && peer_ids@[b] == PeerId(id);
            assert(link_ready(links@, peer_ids@[b]));
        }
    }
}

/// The local peer of a swarm.
#[derive(Debug)]
pub struct LocalPeer<C, const CHUNK_SIZE: usize> {
    /// The number that the tracker has given, once it has.
    peer_id: Option<PeerId>,
    /// The links to remote peers, at most one for each peer.
    peers: Vec<RemotePeer>,
    /// The shared files, at most one for each digest.
    files: Vec<SharedFile<C, CHUNK_SIZE>>,
}

/// Whether a peer has a link among the links.
pub open spec fn has_link(links: Seq<RemotePeer>, peer_id: PeerId) -> bool {
    exists|at: int| 0 <= at < links.len() && (#[trigger] links[at]).spec_peer_id() == peer_id
}

/// Whether `now` holds the links of `was` in their order, but for the link
/// to a peer.
pub open spec fn links_without(was: Seq<RemotePeer>, now: Seq<RemotePeer>, peer_id: PeerId) -> bool {
    if has_link(was, peer_id) {
        exists|at: int|
            0 <= at < was.len() && (#[trigger] was[at]).spec_peer_id() == peer_id && now
                == was.remove(at)
    } else {
        now == was
    }
}

/// Whether a file with the digest is among the files.
pub open spec fn has_file<C: FileChunk, const CHUNK_SIZE: usize>(
    files: Seq<SharedFile<C, CHUNK_SIZE>>,
    sha256: Seq<u8>,
) -> bool {
    exists|at: int|
        0 <= at < files.len() && (#[trigger] files[at]).spec_file().metadata_view().sha256
            == sha256
}

impl<C: FileChunk, const CHUNK_SIZE: usize> LocalPeer<C, CHUNK_SIZE> {
    /// The number that the tracker has given, once it has.
    pub closed spec fn spec_peer_id(&self) -> Option<PeerId> {
        self.peer_id
    }

    /// The links to remote peers.
    pub closed spec fn links(&self) -> Seq<RemotePeer> {
        self.peers@
    }

    /// The shared files.
    pub closed spec fn files(&self) -> Seq<SharedFile<C, CHUNK_SIZE>> {
        self.files@
    }

    /// The digest of the file at a place.
    pub open spec fn sha256_at(&self, at: int) -> Seq<u8> {
        self.files()[at].spec_file().metadata_view().sha256
    }

    /// Every shared file is in order, no two files have one digest, and no
    /// two links lead to one peer.
    pub open spec fn wf(&self) -> bool {
        &&& forall|at: int| 0 <= at < self.files().len() ==> (#[trigger] self.files()[at]).wf()
        &&& forall|a: int, b: int|
            0 <= a < self.files().len() && 0 <= b < self.files().len() && self.sha256_at(a)
                == self.sha256_at(b) ==> a == b
        &&& forall|a: int, b: int|
            0 <= a < self.links().len() && 0 <= b < self.links().len() && (
            #[trigger] self.links()[a]).spec_peer_id() == (#[trigger] self.links()[b]).spec_peer_id()
                ==> a == b
    }

    /// A peer without number, links and files.
    pub fn new() -> (r: Self)
        ensures
            r.wf(),
            r.spec_peer_id() is None,
            r.links() == Seq::<RemotePeer>::empty(),
            r.files() == Seq::<SharedFile<C, CHUNK_SIZE>>::empty(),
    {
        Self { peer_id: None, peers: Vec::new(), files: Vec::new() }
    }

    /// The number that the tracker has given, once it has.
    pub fn peer_id(&self) -> (r: Option<PeerId>)
        ensures
            r == self.spec_peer_id(),
    {
        self.peer_id
    }

    /// How many files are shared.
    pub fn num_files(&self) -> (r: usize)
        ensures
            r == self.files().len(),
    {
        self.files.len()
    }

    /// The shared file at a place.
    pub fn file(&self, at: usize) -> (r: &SharedFile<C, CHUNK_SIZE>)
        requires
            at < self.files().len(),
        ensures
            *r == self.files()[at as int],
    {
        &self.files[at]
    }

    /// How many links there are.
    pub fn num_peers(&self) -> (r: usize)
        ensures
            r == self.links().len(),
    {
        self.peers.len()
    }

    /// The link at a place.
    pub fn peer(&self, at: usize) -> (r: &RemotePeer)
        requires
            at < self.links().len(),
        ensures
            *r == self.links()[at as int],
    {
        &self.peers[at]
    }

    /// The place of the file with a digest.
    pub fn get_file(&self, sha256: Sha256) -> (r: Option<usize>)
        requires
            self.wf(),
        ensures
            match r {
                Some(at) => at < self.files().len() && self.sha256_at(at as int) == sha256.0@,
                None => !has_file(self.files(), sha256.0@),
            },
    {
        let mut at: usize = 0;
        while at < self.files.len()
            invariant
                at <= self.files@.len(),
                forall|b: int|
                    0 <= b < at ==> (#[trigger] self.files()[b]).spec_file().metadata_view().sha256
                        != sha256.0@,
            decreases self.files@.len() - at,
        {
            if self.files[at].file().sha256().same(&sha256) {
                return Some(at);
            }
            at += 1;
        }
        None
    }

    /// The place of the link to a peer.
    pub fn get_peer(&self, peer_id: PeerId) -> (r: Option<usize>)
        ensures
            match r {
                Some(at) => at < self.links().len() && self.links()[at as int].spec_peer_id()
                    == peer_id,
                None => !has_link(self.links(), peer_id),
            },
    {
        let mut at: usize = 0;
        while at < self.peers.len()
            invariant
                at <= self.peers@.len(),
                forall|b: int| 0 <= b < at ==> (#[trigger] self.links()[b]).spec_peer_id() != peer_id,
            decreases self.peers@.len() - at,
        {
            if self.peers[at].peer_id().0 == peer_id.0 {
                return Some(at);
            }
            at += 1;
        }
        None
    }

    /// Begins to share a file and hands out its place with the request for
    /// offers that is to go to the tracker.
    pub fn add_file(&mut self, file: File<C, CHUNK_SIZE>) -> (r: Result<
        (usize, PeerTrackerMessage),
        LocalPeerAddFileError,
    >)
        requires
            old(self).wf(),
            file.wf(),
        ensures
            final(self).wf(),
            final(self).spec_peer_id() == old(self).spec_peer_id(),
            final(self).links() == old(self).links(),
            match r {
                Err(err) => {
                    &&& has_file(old(self).files(), file.metadata_view().sha256)
                    &&& err == LocalPeerAddFileError::AlreadyAdded
                    &&& final(self).files() == old(self).files()
                },
                Ok((at, message)) => {
                    &&& !has_file(old(self).files(), file.metadata_view().sha256)
                    &&& at == old(self).files().len()
                    &&& final(self).files().len() == at + 1
                    &&& final(self).files().take(at as int) == old(self).files()
                    &&& final(self).files()[at as int].spec_file() == file
                    &&& final(self).files()[at as int].peers() == Map::<
                        u32,
                        crate::shared_file::SharedFilePeer,
                    >::empty()
                    &&& final(self).files()[at as int].views() == Seq::<PeerStateView>::empty()
                    &&& final(self).files()[at as int].remote() == Seq::new(
                        file.local().len(),
                        |i: int| true,
                    )
                    &&& forall|piece: int| !final(self).files()[at as int].queues().contains(piece)
                    &&& final(self).files()[at as int].sent() == Seq::<
                        crate::shared_file::SentPiece,
                    >::empty()
                    &&& final(self).files()[at as int].recent() == Seq::<FilePieceIdx>::empty()
                    &&& message matches PeerTrackerMessage::RequestOffers { file_sha256 }
                        && file_sha256.0@ == file.metadata_view().sha256
                },
            },
    {
        let sha256 = file.sha256();
        match self.get_file(sha256) {
            Some(_) => {
                return Err(LocalPeerAddFileError::AlreadyAdded);
            },
            None => {},
        }
        let at = self.files.len();
        self.files.push(SharedFile::new(file));
        proof {
            assert(self.files().take(at as int) =~= old(self).files());
            assert forall|a: int, b: int|
                0 <= a < self.files().len() && 0 <= b < self.files().len() && self.sha256_at(a)
                    == self.sha256_at(b) implies a == b by {
                if a < at && b < at {
                    assert(self.files()[a] == old(self).files()[a]);
                    assert(self.files()[b] == old(self).files()[b]);
                    assert(old(self).sha256_at(a) == old(self).sha256_at(b));
                } else if a < at {
                    assert(self.files()[a] == old(self).files()[a]);
                    assert(old(self).files()[a].spec_file().metadata_view().sha256 == sha256.0@);
                } else if b < at {
                    assert(self.files()[b] == old(self).files()[b]);
                    assert(old(self).files()[b].spec_file().metadata_view().sha256 == sha256.0@);
                }
            }
            assert forall|a: int| 0 <= a < self.files().len() implies (
            #[trigger] self.files()[a]).wf() by {
                if a < at {
                    assert(self.files()[a] == old(self).files()[a]);
                    assert(old(self).files()[a].wf());
                }
            }
            assert forall|a: int, b: int|
                0 <= a < self.links().len() && 0 <= b < self.links().len() && (
                #[trigger] self.links()[a]).spec_peer_id() == (
                #[trigger] self.links()[b]).spec_peer_id() implies a == b by {
                assert(old(self).links()[a].spec_peer_id() == old(self).links()[b].spec_peer_id());
            }
        }
        Ok((at, PeerTrackerMessage::RequestOffers { file_sha256: sha256 }))
    }

    /// Stops sharing the file at a place and hands the file out. The last
    /// file takes the place that falls free.
    pub fn remove_file(&mut self, at: usize) -> (r: SharedFile<C, CHUNK_SIZE>)
        requires
            old(self).wf(),
            at < old(self).files().len(),
        ensures
            final(self).wf(),
            final(self).spec_peer_id() == old(self).spec_peer_id(),
            final(self).links() == old(self).links(),
            r == old(self).files()[at as int],
            final(self).files() == old(self).files().update(
                at as int,
                old(self).files().last(),
            ).drop_last(),
    {
        let removed = self.files.swap_remove(at);
        proof {
            let last = old(self).files().len() - 1;
            assert forall|a: int, b: int|
                0 <= a < self.files().len() && 0 <= b < self.files().len() && self.sha256_at(a)
                    == self.sha256_at(b) implies a == b by {
                let x = if a == at {
                    last
                } else {
                    a
                };
                let y = if b == at {
                    last
                } else {
                    b
                };
                assert(self.files()[a] == old(self).files()[x]);
                assert(self.files()[b] == old(self).files()[y]);
                assert(old(self).sha256_at(x) == old(self).sha256_at(y));
            }
            assert forall|a: int| 0 <= a < self.files().len() implies (
            #[trigger] self.files()[a]).wf() by {
                if a == at {
                    assert(old(self).files()[last].wf());
                } else {
                    assert(old(self).files()[a].wf());
                }
            }
            assert forall|a: int, b: int|
                0 <= a < self.links().len() && 0 <= b < self.links().len() && (
                #[trigger] self.links()[a]).spec_peer_id() == (
                #[trigger] self.links()[b]).spec_peer_id() implies a == b by {
                assert(old(self).links()[a].spec_peer_id() == old(self).links()[b].spec_peer_id());
            }
        }
        removed
    }

    /// What a message from a peer does: the file that it is about takes
    /// it, as `message_applied` says, if the peer is one of the file's or
    /// there is room for it; no other file, no link and nothing else
    /// changes.
    pub open spec fn peer_message_handled(
        was: Self,
        now: Self,
        peer_id: PeerId,
        message: PeerPeerMessage,
    ) -> bool {
        &&& now.spec_peer_id() == was.spec_peer_id()
        &&& now.links() == was.links()
        &&& now.files().len() == was.files().len()
        &&& forall|at: int|
            0 <= at < was.files().len() && was.sha256_at(at) != message.spec_sha256().0@
                ==> #[trigger] now.files()[at] == was.files()[at]
        &&& forall|at: int|
            0 <= at < was.files().len() && was.sha256_at(at) == message.spec_sha256().0@ ==> if can_join(
                was.files()[at],
                peer_id,
            ) {
                message_applied(was.files()[at], #[trigger] now.files()[at], peer_id, message)
            } else {
                now.files()[at] == was.files()[at]
            }
    }

    /// The piece and the bytes that a message carries.
    pub open spec fn piece_of(message: PeerPeerMessage) -> (FilePieceIdx, Seq<u8>) {
        match message {
            PeerPeerMessage::FilePiece { sha256, piece_idx, bytes } => (piece_idx, bytes@),
            _ => (FilePieceIdx(0), Seq::empty()),
        }
    }

    /// The pieces and the bytes that a run of messages carries.
    pub open spec fn pieces_of(messages: Seq<(PeerId, PeerPeerMessage)>) -> Seq<
        (FilePieceIdx, Seq<u8>),
    > {
        Seq::new(messages.len(), |j: int| Self::piece_of(messages[j].1))
    }

    /// What a run of messages with pieces of the file at place `at` does,
    /// one after the other, each from a peer that is one of the file's or
    /// for which there is room.
    pub open spec fn piece_messages_handled(
        was: Self,
        now: Self,
        at: int,
        messages: Seq<(PeerId, PeerPeerMessage)>,
    ) -> bool
        decreases messages.len(),
    {
        if messages.len() == 0 {
            now == was
        } else {
            exists|between: Self|
                {
                    &&& Self::piece_messages_handled(was, between, at, messages.drop_last())
                    &&& between.wf()
                    &&& messages.last().1 is FilePiece
                    &&& messages.last().1.spec_sha256().0@ == between.sha256_at(at)
                    &&& can_join(between.files()[at], messages.last().0)
                    &&& #[trigger] Self::peer_message_handled(
                        between,
                        now,
                        messages.last().0,
                        messages.last().1,
                    )
                }
        }
    }

    /// A run of messages with pieces of a file, from whatever peers, some
    /// of which may join the file with their message, is a run of arrivals
    /// at that file.
    pub proof fn lemma_piece_messages_arrive(
        was: Self,
        now: Self,
        at: int,
        messages: Seq<(PeerId, PeerPeerMessage)>,
    )
        requires
            0 <= at < was.files().len(),
            Self::piece_messages_handled(was, now, at, messages),
        ensures
            now.files().len() == was.files().len(),
            now.sha256_at(at) == was.sha256_at(at),
            SharedFile::pieces_arrived(was.files()[at], now.files()[at], Self::pieces_of(messages)),
        decreases messages.len(),
    {
        if messages.len() > 0 {
            let init = messages.drop_last();
            let (sender, message) = messages.last();
            let between = choose|between: Self|
                {
                    &&& Self::piece_messages_handled(was, between, at, init)
                    &&& between.wf()
                    &&& messages.last().1 is FilePiece
                    &&& messages.last().1.spec_sha256().0@ == between.sha256_at(at)
                    &&& can_join(between.files()[at], messages.last().0)
                    &&& #[trigger] Self::peer_message_handled(
                        between,
                        now,
                        messages.last().0,
                        messages.last().1,
                    )
                };
            Self::lemma_piece_messages_arrive(was, between, at, init);
            let file = between.files()[at];
            let stored = now.files()[at];
            assert(file.wf());
            assert(message_applied(file, stored, sender, message));
            let joined = choose|joined: SharedFile<C, CHUNK_SIZE>|
                {
                    &&& joined.wf()
                    &&& joined.peers().contains_key(sender.0)
                    &&& #[trigger] SharedFile::peer_joined(file, joined, sender)
                    &&& message_applied_to_peer(joined, stored, sender, message)
                };
            let (piece_idx, bytes) = Self::piece_of(message);
            assert(SharedFile::piece_arrived(joined, stored, piece_idx, bytes));
            SharedFile::lemma_arrival_stores(file, joined, stored, piece_idx, bytes);
            assert(Self::pieces_of(messages).drop_last() =~= Self::pieces_of(init));
            assert(Self::pieces_of(messages).last() == (piece_idx, bytes));
        }
    }

    /// Once messages with bytes that fit have been taken for every piece of
    /// a file, in any order, with repeats and from whatever peers, the file
    /// is complete.
    pub proof fn lemma_piece_messages_complete_the_file(
        was: Self,
        now: Self,
        at: int,
        messages: Seq<(PeerId, PeerPeerMessage)>,
    )
        requires
            was.wf(),
            now.wf(),
            0 <= at < was.files().len(),
            Self::piece_messages_handled(was, now, at, messages),
            forall|piece: int|
                0 <= piece < was.files()[at].local().len() ==> #[trigger] SharedFile::has_fitting(
                    was.files()[at],
                    Self::pieces_of(messages),
                    piece,
                ),
        ensures
            forall|piece: int|
                0 <= piece < now.files()[at].local().len() ==> now.files()[at].local()[piece],
            count_ones(now.files()[at].local()) == now.files()[at].local().len(),
    {
        Self::lemma_piece_messages_arrive(was, now, at, messages);
        SharedFile::lemma_all_pieces_arrived(
            was.files()[at],
            now.files()[at],
            Self::pieces_of(messages),
        );
    }

    /// Takes a message from a peer. A message about a file that is not
    /// shared here is let go.
    pub fn on_peer_message(&mut self, peer_id: PeerId, message: PeerPeerMessage) -> (r: Option<
        PeerPeerMessage,
    >)
        requires
            old(self).wf(),
        ensures
            final(self).wf(),
            Self::peer_message_handled(*old(self), *final(self), peer_id, message),
            forall|at: int|
                0 <= at < old(self).files().len() && old(self).sha256_at(at)
                    == message.spec_sha256().0@ ==> r == if can_join(
                    old(self).files()[at],
                    peer_id,
                ) {
                    spec_reply(message)
                } else {
                    None
                },
            !has_file(old(self).files(), message.spec_sha256().0@) ==> r is None,
    {
        let at = match self.get_file(message.sha256()) {
            Some(at) => at,
            None => {
                return None;
            },
        };
        let ghost sha256 = message.spec_sha256().0@;
        let reply = apply_peer_message(&mut self.files[at], peer_id, message);
        proof {
            assert(self.files()[at as int].spec_file().metadata_view() == old(
                self,
            ).files()[at as int].spec_file().metadata_view()) by {
                Self::lemma_message_keeps_metadata(
                    old(self).files()[at as int],
                    self.files()[at as int],
                    peer_id,
                    message,
                );
            }
            assert(self.files() =~= old(self).files().update(at as int, self.files()[at as int]));
            assert forall|b: int| 0 <= b < self.files().len() implies self.sha256_at(b) == old(
                self,
            ).sha256_at(b) by {
                if b != at {
                    assert(self.files()[b] == old(self).files()[b]);
                }
            }
            assert forall|a: int, b: int|
                0 <= a < self.files().len() && 0 <= b < self.files().len() && self.sha256_at(a)
                    == self.sha256_at(b) implies a == b by {
                assert(old(self).sha256_at(a) == old(self).sha256_at(b));
            }
            assert forall|a: int| 0 <= a < self.files().len() implies (
            #[trigger] self.files()[a]).wf() by {
                if a != at {
                    assert(self.files()[a] == old(self).files()[a]);
                    assert(old(self).files()[a].wf());
                }
            }
            assert forall|a: int, b: int|
                0 <= a < self.links().len() && 0 <= b < self.links().len() && (
                #[trigger] self.links()[a]).spec_peer_id() == (
                #[trigger] self.links()[b]).spec_peer_id() implies a == b by {
                assert(old(self).links()[a].spec_peer_id() == old(self).links()[b].spec_peer_id());
            }
            assert forall|b: int|
                0 <= b < old(self).files().len() && old(self).sha256_at(b) == sha256 implies b
                == at by {
                assert(old(self).sha256_at(at as int) == sha256);
            }
        }
        reply
    }

    /// A message leaves the metadata of the file that it is about as it is.
    proof fn lemma_message_keeps_metadata(
        before: SharedFile<C, CHUNK_SIZE>,
        after: SharedFile<C, CHUNK_SIZE>,
        peer_id: PeerId,
        message: PeerPeerMessage,
    )
        requires
            before.wf(),
            after.wf(),
            if can_join(before, peer_id) {
                message_applied(before, after, peer_id, message)
            } else {
                after == before
            },
        ensures
            after.spec_file().metadata_view() == before.spec_file().metadata_view(),
    {
        if can_join(before, peer_id) {
            let joined = choose|joined: SharedFile<C, CHUNK_SIZE>|
                {
                    &&& joined.wf()
                    &&& joined.peers().contains_key(peer_id.0)
                    &&& #[trigger] SharedFile::peer_joined(before, joined, peer_id)
                    &&& message_applied_to_peer(joined, after, peer_id, message)
                };
            assert(joined.spec_file() == before.spec_file());
        }
    }

    /// Whether the links are the old ones with one more at the end: a fresh
    /// link to a peer on the given side of the handshake.
    pub open spec fn link_added(
        before: Seq<RemotePeer>,
        after: Seq<RemotePeer>,
        peer_id: PeerId,
        kind: RemotePeerKind,
    ) -> bool {
        &&& after.len() == before.len() + 1
        &&& after.take(before.len() as int) == before
        &&& after.last().spec_peer_id() == peer_id
        &&& after.last().spec_kind() == kind
        &&& after.last().spec_state() == crate::remote_peer::RemotePeerState::New
        &&& !after.last().described()
        &&& after.last().pending() == Seq::<IceCandidate>::empty()
    }

    /// The kind of the link to a peer.
    pub open spec fn link_kind(links: Seq<RemotePeer>, peer_id: PeerId) -> RemotePeerKind {
        links[choose|at: int|
            0 <= at < links.len() && (#[trigger] links[at]).spec_peer_id() == peer_id].spec_kind()
    }

    /// What a message from the tracker asks of the host, and what it does
    /// to the links and files.
    pub open spec fn tracker_message_handled(
        before: Self,
        after: Self,
        message: TrackerPeerMessage,
        commands: Seq<LocalPeerCommand>,
    ) -> bool {
        match message {
            TrackerPeerMessage::PeerIdAssigned { peer_id } => {
                &&& after.spec_peer_id() == Some(peer_id)
                &&& after.links() == before.links()
                &&& after.files() == before.files()
                &&& commands == Seq::<LocalPeerCommand>::empty()
            },
            TrackerPeerMessage::RequestOffer { peer_id, file_sha256 } => {
                &&& after.spec_peer_id() == before.spec_peer_id()
                &&& after.files().len() == before.files().len()
                &&& if !has_file(before.files(), file_sha256.0@) {
                    &&& after.links() == before.links()
                    &&& after.files() == before.files()
                    &&& commands == Seq::<LocalPeerCommand>::empty()
                } else {
                    &&& if has_link(before.links(), peer_id) {
                        &&& after.links() == before.links()
                        &&& commands == Seq::<LocalPeerCommand>::empty()
                    } else {
                        &&& Self::link_added(
                            before.links(),
                            after.links(),
                            peer_id,
                            RemotePeerKind::Offering,
                        )
                        &&& commands == seq![
                            LocalPeerCommand::Connect { peer_id, kind: RemotePeerKind::Offering },
                        ]
                    }
                    &&& forall|at: int|
                        0 <= at < before.files().len() ==> if before.sha256_at(at)
                            == file_sha256.0@ && can_join(before.files()[at], peer_id) {
                            SharedFile::peer_joined(
                                before.files()[at],
                                #[trigger] after.files()[at],
                                peer_id,
                            )
                        } else {
                            after.files()[at] == before.files()[at]
                        }
                }
            },
            TrackerPeerMessage::PeerOffer { peer_id, offer } => {
                &&& after.spec_peer_id() == before.spec_peer_id()
                &&& after.files() == before.files()
                &&& if !has_link(before.links(), peer_id) {
                    &&& Self::link_added(
                        before.links(),
                        after.links(),
                        peer_id,
                        RemotePeerKind::Answering,
                    )
                    &&& commands == seq![
                        LocalPeerCommand::Connect { peer_id, kind: RemotePeerKind::Answering },
                        LocalPeerCommand::SetRemoteDescription { peer_id, description: offer },
                    ]
                } else {
                    &&& after.links() == before.links()
                    &&& commands == if Self::link_kind(before.links(), peer_id)
                        == RemotePeerKind::Answering {
                        seq![
                            LocalPeerCommand::SetRemoteDescription { peer_id, description: offer },
                        ]
                    } else {
                        seq![
                            LocalPeerCommand::Unexpected { peer_id },
                            LocalPeerCommand::SetRemoteDescription { peer_id, description: offer },
                        ]
                    }
                }
            },
            TrackerPeerMessage::PeerAnswer { peer_id, answer } => {
                &&& after.spec_peer_id() == before.spec_peer_id()
                &&& after.files() == before.files()
                &&& after.links() == before.links()
                &&& commands == if has_link(before.links(), peer_id) && Self::link_kind(
                    before.links(),
                    peer_id,
                ) == RemotePeerKind::Offering {
                    seq![LocalPeerCommand::SetRemoteDescription { peer_id, description: answer }]
                } else {
                    seq![LocalPeerCommand::Unexpected { peer_id }]
                }
            },
            TrackerPeerMessage::PeerIceCandidate { peer_id, candidate } => {
                &&& after.spec_peer_id() == before.spec_peer_id()
                &&& after.files() == before.files()
                &&& after.links().len() == before.links().len()
                &&& if !has_link(before.links(), peer_id) {
                    &&& after.links() == before.links()
                    &&& commands == seq![LocalPeerCommand::Unexpected { peer_id }]
                } else {
                    forall|at: int|
                        0 <= at < before.links().len() ==> if (
                        #[trigger] before.links()[at]).spec_peer_id() == peer_id {
                            let link = before.links()[at];
                            let next = after.links()[at];
                            &&& next.spec_peer_id() == peer_id
                            &&& next.spec_kind() == link.spec_kind()
                            &&& next.spec_state() == link.spec_state()
                            &&& next.described() == link.described()
                            &&& if link.spec_state()
                                == crate::remote_peer::RemotePeerState::Closed {
                                &&& next.pending() == link.pending()
                                &&& commands == Seq::<LocalPeerCommand>::empty()
                            } else if link.described() {
                                &&& next.pending() == link.pending()
                                &&& commands == seq![
                                    LocalPeerCommand::AddIceCandidate { peer_id, candidate },
                                ]
                            } else {
                                &&& next.pending() == link.pending().push(candidate)
                                &&& commands == Seq::<LocalPeerCommand>::empty()
                            }
                        } else {
                            after.links()[at] == before.links()[at]
                        }
                }
            },
            TrackerPeerMessage::PeerAllIceCandidatesSent { peer_id } => {
                &&& after.spec_peer_id() == before.spec_peer_id()
                &&& after.files() == before.files()
                &&& after.links() == before.links()
                &&& commands == if has_link(before.links(), peer_id) {
                    seq![LocalPeerCommand::EndOfCandidates { peer_id }]
                } else {
                    seq![LocalPeerCommand::Unexpected { peer_id }]
                }
            },
        }
    }

    /// Adds a fresh link to a peer that has none.
    fn add_link(&mut self, peer_id: PeerId, kind: RemotePeerKind)
        requires
            old(self).wf(),
            !has_link(old(self).links(), peer_id),
        ensures
            final(self).wf(),
            final(self).spec_peer_id() == old(self).spec_peer_id(),
            final(self).files() == old(self).files(),
            Self::link_added(old(self).links(), final(self).links(), peer_id, kind),
    {
        self.peers.push(RemotePeer::new(peer_id, kind));
        proof {
            assert(self.files() == old(self).files());
            assert forall|a: int| 0 <= a < self.files().len() implies (
            #[trigger] self.files()[a]).wf() by {
                assert(old(self).files()[a].wf());
            }
            assert forall|a: int, b: int|
                0 <= a < self.files().len() && 0 <= b < self.files().len() && self.sha256_at(a)
                    == self.sha256_at(b) implies a == b by {
                assert(old(self).sha256_at(a) == old(self).sha256_at(b));
            }
            assert(self.links().take(old(self).links().len() as int) =~= old(self).links());
            assert forall|a: int, b: int|
                0 <= a < self.links().len() && 0 <= b < self.links().len() && (
                #[trigger] self.links()[a]).spec_peer_id() == (
                #[trigger] self.links()[b]).spec_peer_id() implies a == b by {
                let n = old(self).links().len();
                if a < n && b < n {
                    assert(old(self).links()[a].spec_peer_id() == old(
                        self,
                    ).links()[b].spec_peer_id());
                } else if a < n {
                    assert(old(self).links()[a].spec_peer_id() == peer_id);
                } else if b < n {
                    assert(old(self).links()[b].spec_peer_id() == peer_id);
                }
            }
        }
    }

    /// Takes a message from the tracker and says what the host is to do.
    /// The tracker gives a number once: a second number is not taken.
    pub fn on_tracker_message(&mut self, message: TrackerPeerMessage) -> (r: Vec<LocalPeerCommand>)
        requires
            old(self).wf(),
            message is PeerIdAssigned ==> old(self).spec_peer_id() is None,
        ensures
            final(self).wf(),
            Self::tracker_message_handled(*old(self), *final(self), message, r@),
    {
        match message {
            TrackerPeerMessage::PeerIdAssigned { peer_id } => {
                self.peer_id = Some(peer_id);
                proof {
                    Self::lemma_wf_same(*old(self), *self);
                }
                Vec::new()
            },
            TrackerPeerMessage::RequestOffer { peer_id, file_sha256 } => self.on_request_offer(
                peer_id,
                file_sha256,
            ),
            TrackerPeerMessage::PeerOffer { peer_id, offer } => self.on_peer_offer(peer_id, offer),
            TrackerPeerMessage::PeerAnswer { peer_id, answer } => self.on_peer_answer(
                peer_id,
                answer,
            ),
            TrackerPeerMessage::PeerIceCandidate { peer_id, candidate } => self.on_peer_icecandidate(
                peer_id,
                candidate,
            ),
            TrackerPeerMessage::PeerAllIceCandidatesSent {
                peer_id,
            } => self.on_peer_all_icecandidates_sent(peer_id),
        }
    }

    /// A peer asks for an offer for a file: a link to it is made if there is none, and the peer joins the file.
    fn on_request_offer(&mut self, peer_id: PeerId, file_sha256: Sha256) -> (r: Vec<LocalPeerCommand>)
        requires
            old(self).wf(),
        ensures
            final(self).wf(),
            Self::tracker_message_handled(*old(self), *final(self), TrackerPeerMessage::RequestOffer { peer_id, file_sha256 }, r@),
    {
        let mut commands: Vec<LocalPeerCommand> = Vec::new();
        let at = match self.get_file(file_sha256) {
            Some(at) => at,
            None => {
                return commands;
            },
        };
        assert(has_file(self.files(), file_sha256.0@));
        if self.get_peer(peer_id).is_none() {
            self.add_link(peer_id, RemotePeerKind::Offering);
            commands.push(
                LocalPeerCommand::Connect { peer_id, kind: RemotePeerKind::Offering },
            );
        } else {
            assert(has_link(self.links(), peer_id));
        }
        let ghost linked = *self;
        if !self.files[at].has_peer(peer_id) && self.files[at].num_peers() < usize::MAX
            - 1 {
            let _ = self.files[at].add_peer(peer_id);
        }
        proof {
            assert(self.files() =~= linked.files().update(
                at as int,
                self.files()[at as int],
            ));
            if linked.files()[at as int].peers().contains_key(peer_id.0) {
                assert(self.files()[at as int] == linked.files()[at as int]);
                assert(self.files()[at as int].peers().dom() =~= linked.files()[at as int].peers().dom().insert(
                    peer_id.0,
                ));
            }
            assert forall|b: int| 0 <= b < self.files().len() implies self.sha256_at(b)
                == old(self).sha256_at(b) by {
                if b != at {
                    assert(self.files()[b] == old(self).files()[b]);
                }
            }
            assert forall|a: int, b: int|
                0 <= a < self.files().len() && 0 <= b < self.files().len()
                    && self.sha256_at(a) == self.sha256_at(b) implies a == b by {
                assert(old(self).sha256_at(a) == old(self).sha256_at(b));
            }
            assert forall|a: int| 0 <= a < self.files().len() implies (
            #[trigger] self.files()[a]).wf() by {
                if a != at {
                    assert(self.files()[a] == old(self).files()[a]);
                    assert(old(self).files()[a].wf());
                }
            }
            assert forall|a: int, b: int|
                0 <= a < self.links().len() && 0 <= b < self.links().len() && (
                #[trigger] self.links()[a]).spec_peer_id() == (
                #[trigger] self.links()[b]).spec_peer_id() implies a == b by {
                assert(linked.links()[a].spec_peer_id() == linked.links()[b].spec_peer_id());
            }
            assert forall|b: int| 0 <= b < old(self).files().len() implies if old(
                self,
            ).sha256_at(b) == file_sha256.0@ && can_join(old(self).files()[b], peer_id) {
                &&& (#[trigger] self.files()[b]).peers().dom() == old(
                    self,
                ).files()[b].peers().dom().insert(peer_id.0)
                &&& self.files()[b].views() == old(self).files()[b].views()
                &&& self.files()[b].spec_file() == old(self).files()[b].spec_file()
                &&& self.files()[b].queues() == old(self).files()[b].queues()
                &&& self.files()[b].remote() == old(self).files()[b].remote()
                &&& self.files()[b].sent() == old(self).files()[b].sent()
                &&& self.files()[b].recent() == old(self).files()[b].recent()
            } else {
                self.files()[b] == old(self).files()[b]
            } by {
                if old(self).sha256_at(b) == file_sha256.0@ {
                    assert(old(self).sha256_at(at as int) == file_sha256.0@);
                    assert(b == at);
                } else {
                    assert(b != at);
                    assert(self.files()[b] == old(self).files()[b]);
                }
            }
        }
        commands
    }

    /// A peer offers a session: a link that answers is made if there is none, and the offer is to be set.
    fn on_peer_offer(&mut self, peer_id: PeerId, offer: SessionDescription) -> (r: Vec<LocalPeerCommand>)
        requires
            old(self).wf(),
        ensures
            final(self).wf(),
            Self::tracker_message_handled(*old(self), *final(self), TrackerPeerMessage::PeerOffer { peer_id, offer }, r@),
    {
        let mut commands: Vec<LocalPeerCommand> = Vec::new();
        match self.get_peer(peer_id) {
            None => {
                self.add_link(peer_id, RemotePeerKind::Answering);
                commands.push(
                    LocalPeerCommand::Connect { peer_id, kind: RemotePeerKind::Answering },
                );
            },
            Some(at) => {
                proof {
                    self.lemma_link_kind(at as int);
                }
                if !matches!(self.peers[at].kind(), RemotePeerKind::Answering) {
                    commands.push(LocalPeerCommand::Unexpected { peer_id });
                }
            },
        }
        let ghost before = commands@;
        commands.push(
            LocalPeerCommand::SetRemoteDescription { peer_id, description: offer },
        );
        proof {
            let last = LocalPeerCommand::SetRemoteDescription { peer_id, description: offer };
            if !has_link(old(self).links(), peer_id) {
                assert(commands@ =~= seq![
                    LocalPeerCommand::Connect { peer_id, kind: RemotePeerKind::Answering },
                    last,
                ]);
            } else if Self::link_kind(old(self).links(), peer_id) == RemotePeerKind::Answering {
                assert(commands@ =~= seq![last]);
            } else {
                assert(commands@ =~= seq![LocalPeerCommand::Unexpected { peer_id }, last]);
            }
        }
        commands
    }

    /// A peer answers an offer: the answer is to be set on the link that offered.
    fn on_peer_answer(&mut self, peer_id: PeerId, answer: SessionDescription) -> (r: Vec<LocalPeerCommand>)
        requires
            old(self).wf(),
        ensures
            final(self).wf(),
            Self::tracker_message_handled(*old(self), *final(self), TrackerPeerMessage::PeerAnswer { peer_id, answer }, r@),
    {
        let mut commands: Vec<LocalPeerCommand> = Vec::new();
        match self.get_peer(peer_id) {
            Some(at) => {
                proof {
                    self.lemma_link_kind(at as int);
                }
                if matches!(self.peers[at].kind(), RemotePeerKind::Offering) {
                    commands.push(
                        LocalPeerCommand::SetRemoteDescription {
                            peer_id,
                            description: answer,
                        },
                    );
                } else {
                    commands.push(LocalPeerCommand::Unexpected { peer_id });
                }
            },
            None => {
                commands.push(LocalPeerCommand::Unexpected { peer_id });
            },
        }
        commands
    }

    /// A peer sends a candidate: it goes to the link, which hands it on or keeps it.
    fn on_peer_icecandidate(&mut self, peer_id: PeerId, candidate: IceCandidate) -> (r: Vec<LocalPeerCommand>)
        requires
            old(self).wf(),
        ensures
            final(self).wf(),
            Self::tracker_message_handled(*old(self), *final(self), TrackerPeerMessage::PeerIceCandidate { peer_id, candidate }, r@),
    {
        let mut commands: Vec<LocalPeerCommand> = Vec::new();
        match self.get_peer(peer_id) {
            Some(at) => {
                let ghost kept = candidate;
                match self.peers[at].on_peer_icecandidate(candidate) {
                    Some(candidate) => {
                        commands.push(
                            LocalPeerCommand::AddIceCandidate { peer_id, candidate },
                        );
                    },
                    None => {},
                }
                proof {
                    assert(self.files() == old(self).files());
                    assert forall|a: int| 0 <= a < self.files().len() implies (
                    #[trigger] self.files()[a]).wf() by {
                        assert(old(self).files()[a].wf());
                    }
                    assert forall|a: int, b: int|
                        0 <= a < self.files().len() && 0 <= b < self.files().len()
                            && self.sha256_at(a) == self.sha256_at(b) implies a == b by {
                        assert(old(self).sha256_at(a) == old(self).sha256_at(b));
                    }
                    assert(self.links() =~= old(self).links().update(
                        at as int,
                        self.links()[at as int],
                    ));
                    assert forall|a: int, b: int|
                        0 <= a < self.links().len() && 0 <= b < self.links().len() && (
                        #[trigger] self.links()[a]).spec_peer_id() == (
                        #[trigger] self.links()[b]).spec_peer_id() implies a == b by {
                        assert(old(self).links()[a].spec_peer_id() == old(
                            self,
                        ).links()[b].spec_peer_id());
                    }
                    assert(has_link(old(self).links(), peer_id));
                    assert forall|b: int| 0 <= b < old(self).links().len() && (
                    #[trigger] old(self).links()[b]).spec_peer_id()
                        == peer_id implies b == at by {
                        assert(old(self).links()[at as int].spec_peer_id() == peer_id);
                    }
                }
            },
            None => {
                commands.push(LocalPeerCommand::Unexpected { peer_id });
            },
        }
        commands
    }

    /// A peer has no more candidates.
    fn on_peer_all_icecandidates_sent(&mut self, peer_id: PeerId) -> (r: Vec<LocalPeerCommand>)
        requires
            old(self).wf(),
        ensures
            final(self).wf(),
            Self::tracker_message_handled(*old(self), *final(self), TrackerPeerMessage::PeerAllIceCandidatesSent { peer_id }, r@),
    {
        let mut commands: Vec<LocalPeerCommand> = Vec::new();
        match self.get_peer(peer_id) {
            Some(_) => {
                commands.push(LocalPeerCommand::EndOfCandidates { peer_id });
            },
            None => {
                commands.push(LocalPeerCommand::Unexpected { peer_id });
            },
        }
        commands
    }

    /// A peer with the files and links of one that is in order is in order.
    proof fn lemma_wf_same(before: Self, after: Self)
        requires
            before.wf(),
            after.files() == before.files(),
            after.links() == before.links(),
        ensures
            after.wf(),
    {
        assert forall|a: int| 0 <= a < after.files().len() implies (
        #[trigger] after.files()[a]).wf() by {
            assert(before.files()[a].wf());
        }
        assert forall|a: int, b: int|
            0 <= a < after.files().len() && 0 <= b < after.files().len() && after.sha256_at(a)
                == after.sha256_at(b) implies a == b by {
            assert(before.sha256_at(a) == before.sha256_at(b));
        }
        assert forall|a: int, b: int|
            0 <= a < after.links().len() && 0 <= b < after.links().len() && (
            #[trigger] after.links()[a]).spec_peer_id() == (
            #[trigger] after.links()[b]).spec_peer_id() implies a == b by {
            assert(before.links()[a].spec_peer_id() == before.links()[b].spec_peer_id());
        }
    }

    /// The kind of the link to a peer is the kind of the one link that
    /// leads to it.
    proof fn lemma_link_kind(&self, at: int)
        requires
            self.wf(),
            0 <= at < self.links().len(),
        ensures
            has_link(self.links(), self.links()[at].spec_peer_id()),
            Self::link_kind(self.links(), self.links()[at].spec_peer_id())
                == self.links()[at].spec_kind(),
    {
        let peer_id = self.links()[at].spec_peer_id();
        let chosen = choose|b: int|
            0 <= b < self.links().len() && (#[trigger] self.links()[b]).spec_peer_id() == peer_id;
        assert(self.links()[chosen].spec_peer_id() == self.links()[at].spec_peer_id());
    }

    /// Replacing one file by a file in order with the same digest leaves
    /// the peer in order.
    proof fn lemma_wf_one_file(before: Self, after: Self, at: int)
        requires
            before.wf(),
            0 <= at < before.files().len(),
            after.files() == before.files().update(at, after.files()[at]),
            after.files()[at].wf(),
            after.files()[at].spec_file().metadata_view().sha256 == before.sha256_at(at),
            after.links() == before.links(),
        ensures
            after.wf(),
    {
        assert forall|a: int| 0 <= a < after.files().len() implies (
        #[trigger] after.files()[a]).wf() by {
            if a != at {
                assert(after.files()[a] == before.files()[a]);
                assert(before.files()[a].wf());
            }
        }
        assert forall|a: int| 0 <= a < after.files().len() implies after.sha256_at(a)
            == before.sha256_at(a) by {
            if a != at {
                assert(after.files()[a] == before.files()[a]);
            }
        }
        assert forall|a: int, b: int|
            0 <= a < after.files().len() && 0 <= b < after.files().len() && after.sha256_at(a)
                == after.sha256_at(b) implies a == b by {
            assert(before.sha256_at(a) == before.sha256_at(b));
        }
        assert forall|a: int, b: int|
            0 <= a < after.links().len() && 0 <= b < after.links().len() && (
            #[trigger] after.links()[a]).spec_peer_id() == (
            #[trigger] after.links()[b]).spec_peer_id() implies a == b by {
            assert(before.links()[a].spec_peer_id() == before.links()[b].spec_peer_id());
        }
    }

    /// Takes note of what has happened to the link to a peer. The
    /// candidates that the link lets go are to be handed to the connection.
    pub fn on_remote_peer_event(&mut self, peer_id: PeerId, event: RemotePeerEvent) -> (r: Vec<
        LocalPeerCommand,
    >)
        requires
            old(self).wf(),
        ensures
            final(self).wf(),
            final(self).spec_peer_id() == old(self).spec_peer_id(),
            final(self).files() == old(self).files(),
            final(self).links().len() == old(self).links().len(),
            !has_link(old(self).links(), peer_id) ==> final(self).links() == old(self).links()
                && r@ == seq![LocalPeerCommand::Unexpected { peer_id }],
            forall|at: int|
                0 <= at < old(self).links().len() ==> if (
                #[trigger] old(self).links()[at]).spec_peer_id() == peer_id {
                    let link = old(self).links()[at];
                    let next = final(self).links()[at];
                    &&& next.spec_peer_id() == peer_id
                    &&& next.spec_kind() == link.spec_kind()
                    &&& match crate::remote_peer::spec_next_state(
                        link.spec_kind(),
                        link.spec_state(),
                        event,
                    ) {
                        None => next == link && r@ == seq![LocalPeerCommand::Unexpected { peer_id }],
                        Some(state) => {
                            &&& next.spec_state() == state
                            &&& if event == RemotePeerEvent::RemoteDescriptionSet {
                                &&& next.described()
                                &&& next.pending() == Seq::<IceCandidate>::empty()
                                &&& r@.len() == link.pending().len()
                                &&& forall|c: int|
                                    0 <= c < r@.len() ==> #[trigger] r@[c]
                                        == (LocalPeerCommand::AddIceCandidate {
                                        peer_id,
                                        candidate: link.pending()[c],
                                    })
                            } else {
                                &&& next.described() == link.described()
                                &&& next.pending() == link.pending()
                                &&& r@ == Seq::<LocalPeerCommand>::empty()
                            }
                        },
                    }
                } else {
                    final(self).links()[at] == old(self).links()[at]
                },
    {
        let mut commands: Vec<LocalPeerCommand> = Vec::new();
        let at = match self.get_peer(peer_id) {
            Some(at) => at,
            None => {
                commands.push(LocalPeerCommand::Unexpected { peer_id });
                assert(commands@ =~= seq![LocalPeerCommand::Unexpected { peer_id }]);
                return commands;
            },
        };
        let (known, released) = self.peers[at].on_event(event);
        proof {
            assert(has_link(old(self).links(), peer_id));
            assert(self.files() == old(self).files());
            assert forall|a: int| 0 <= a < self.files().len() implies (
            #[trigger] self.files()[a]).wf() by {
                assert(old(self).files()[a].wf());
            }
            assert forall|a: int, b: int|
                0 <= a < self.files().len() && 0 <= b < self.files().len() && self.sha256_at(a)
                    == self.sha256_at(b) implies a == b by {
                assert(old(self).sha256_at(a) == old(self).sha256_at(b));
            }
            assert(self.links() =~= old(self).links().update(at as int, self.links()[at as int]));
            assert forall|a: int, b: int|
                0 <= a < self.links().len() && 0 <= b < self.links().len() && (
                #[trigger] self.links()[a]).spec_peer_id() == (
                #[trigger] self.links()[b]).spec_peer_id() implies a == b by {
                assert(old(self).links()[a].spec_peer_id() == old(self).links()[b].spec_peer_id());
            }
            assert forall|b: int|
                0 <= b < old(self).links().len() && (#[trigger] old(self).links()[b]).spec_peer_id()
                    == peer_id implies b == at by {
                assert(old(self).links()[at as int].spec_peer_id() == peer_id);
            }
        }
        if !known {
            commands.push(LocalPeerCommand::Unexpected { peer_id });
            assert(commands@ =~= seq![LocalPeerCommand::Unexpected { peer_id }]);
            return commands;
        }
        let mut released = released;
        let ghost all = released@;
        let mut c: usize = 0;
        while c < released.len()
            invariant
                c <= released@.len(),
                released@.len() == all.len(),
                forall|d: int| c <= d < all.len() ==> released@[d] == all[d],
                commands@.len() == c,
                forall|d: int|
                    0 <= d < c ==> #[trigger] commands@[d] == (LocalPeerCommand::AddIceCandidate {
                        peer_id,
                        candidate: all[d],
                    }),
            decreases released@.len() - c,
        {
            let mut candidate = IceCandidate {
                candidate: String::new(),
                sdp_mid: None,
                sdp_mline_index: None,
                username_fragment: None,
            };
            core::mem::swap(&mut released[c], &mut candidate);
            commands.push(LocalPeerCommand::AddIceCandidate { peer_id, candidate });
            c += 1;
        }
        proof {
            if event != RemotePeerEvent::RemoteDescriptionSet {
                assert(commands@ =~= Seq::<LocalPeerCommand>::empty());
            }
        }
        commands
    }

    /// Whether a list names the peers whose links have closed, and no
    /// others.
    pub open spec fn closed_listed(links: Seq<RemotePeer>, closed: Seq<PeerId>) -> bool {
        forall|peer_id: PeerId|
            closed.contains(peer_id) <==> exists|at: int|
                0 <= at < links.len() && (#[trigger] links[at]).spec_peer_id() == peer_id
                    && links[at].spec_state() == crate::remote_peer::RemotePeerState::Closed
    }

    /// The peers of the links that have closed, in the order of the links.
    pub open spec fn closed_of(links: Seq<RemotePeer>) -> Seq<PeerId>
        decreases links.len(),
    {
        if links.len() == 0 {
            Seq::empty()
        } else if links.last().spec_state() == crate::remote_peer::RemotePeerState::Closed {
            Self::closed_of(links.drop_last()).push(links.last().spec_peer_id())
        } else {
            Self::closed_of(links.drop_last())
        }
    }

    /// The peers whose links have closed.
    pub fn closed_peers(&self) -> (r: Vec<PeerId>)
        ensures
            r@ == Self::closed_of(self.links()),
            Self::closed_listed(self.links(), r@),
    {
        let mut closed: Vec<PeerId> = Vec::new();
        let mut at: usize = 0;
        assert(self.links().take(0) =~= Seq::empty());
        while at < self.peers.len()
            invariant
                at <= self.peers@.len(),
                closed@ == Self::closed_of(self.links().take(at as int)),
                forall|peer_id: PeerId|
                    closed@.contains(peer_id) <==> exists|b: int|
                        0 <= b < at && (#[trigger] self.links()[b]).spec_peer_id() == peer_id
                            && self.links()[b].spec_state()
                            == crate::remote_peer::RemotePeerState::Closed,
            decreases self.peers@.len() - at,
        {
            let ghost before = closed@;
            proof {
                assert(self.links().take(at + 1).drop_last() =~= self.links().take(at as int));
                assert(self.links().take(at + 1).last() == self.links()[at as int]);
            }
            if matches!(self.peers[at].state(), crate::remote_peer::RemotePeerState::Closed) {
                let peer_id = self.peers[at].peer_id();
                closed.push(peer_id);
                proof {
                    assert(closed@[closed@.len() - 1] == peer_id);
                    assert forall|other: PeerId| closed@.contains(other) <==> exists|b: int|
                        0 <= b < at + 1 && (#[trigger] self.links()[b]).spec_peer_id() == other
                            && self.links()[b].spec_state()
                            == crate::remote_peer::RemotePeerState::Closed by {
                        if closed@.contains(other) {
                            let d = choose|d: int| 0 <= d < closed@.len() && closed@[d] == other;
                            if d < before.len() {
                                assert(before[d] == other);
                                assert(before.contains(other));
                            } else {
                                assert(self.links()[at as int].spec_peer_id() == other);
                            }
                        }
                        if exists|b: int|
                            0 <= b < at + 1 && (#[trigger] self.links()[b]).spec_peer_id() == other
                                && self.links()[b].spec_state()
                                == crate::remote_peer::RemotePeerState::Closed {
                            let b = choose|b: int|
                                0 <= b < at + 1 && (#[trigger] self.links()[b]).spec_peer_id()
                                    == other && self.links()[b].spec_state()
                                    == crate::remote_peer::RemotePeerState::Closed;
                            if b < at {
                                assert(before.contains(other));
                                let d = choose|d: int| 0 <= d < before.len() && before[d] == other;
                                assert(closed@[d] == other);
                            } else {
                                assert(closed@[closed@.len() - 1] == other);
                            }
                        }
                    }
                }
            } else {
                proof {
                    assert forall|other: PeerId| closed@.contains(other) <==> exists|b: int|
                        0 <= b < at + 1 && (#[trigger] self.links()[b]).spec_peer_id() == other
                            && self.links()[b].spec_state()
                            == crate::remote_peer::RemotePeerState::Closed by {
                        if exists|b: int|
                            0 <= b < at + 1 && (#[trigger] self.links()[b]).spec_peer_id() == other
                                && self.links()[b].spec_state()
                                == crate::remote_peer::RemotePeerState::Closed {
                            let b = choose|b: int|
                                0 <= b < at + 1 && (#[trigger] self.links()[b]).spec_peer_id()
                                    == other && self.links()[b].spec_state()
                                    == crate::remote_peer::RemotePeerState::Closed;
                            assert(b < at);
                        }
                    }
                }
            }
            at += 1;
        }
        assert(self.links().take(at as int) =~= self.links());
        closed
    }

    /// What forgetting a peer does: its link goes and no other, and it
    /// leaves every file that it was a peer of.
    pub open spec fn peer_forgotten(was: Self, now: Self, peer_id: PeerId) -> bool {
        &&& (now.spec_peer_id() == was.spec_peer_id())
        &&& (!has_link(now.links(), peer_id))
        &&& links_without(was.links(), now.links(), peer_id)
        &&& (forall|other: PeerId|
                other != peer_id ==> (has_link(now.links(), other) <==> has_link(
                    was.links(),
                    other,
                )))
        &&& (forall|b: int|
                0 <= b < now.links().len() ==> link_was_there(
                    was.links(),
                    #[trigger] now.links()[b],
                ))
        &&& (now.files().len() == was.files().len())
        &&& (forall|at: int|
                0 <= at < was.files().len() ==> if was.files()[at].peers().contains_key(peer_id.0) {
                    SharedFile::peer_removed(
                        was.files()[at],
                        #[trigger] now.files()[at],
                        peer_id,
                    )
                } else {
                    now.files()[at] == was.files()[at]
                })
    }

    /// Forgets a peer: its link goes, and it leaves every file.
    pub fn remove_peer(&mut self, peer_id: PeerId)
        requires
            old(self).wf(),
        ensures
            final(self).wf(),
            Self::peer_forgotten(*old(self), *final(self), peer_id),
    {
        match self.get_peer(peer_id) {
            Some(at) => {
                let _ = self.peers.remove(at);
                proof {
                    let before = old(self).links();
                    assert(before[at as int].spec_peer_id() == peer_id);
                    assert(self.links() == before.remove(at as int));
                    assert(links_without(before, self.links(), peer_id));
                    assert forall|a: int, b: int|
                        0 <= a < self.links().len() && 0 <= b < self.links().len() && (
                        #[trigger] self.links()[a]).spec_peer_id() == (
                        #[trigger] self.links()[b]).spec_peer_id() implies a == b by {
                        let x = if a < at {
                            a
                        } else {
                            a + 1
                        };
                        let y = if b < at {
                            b
                        } else {
                            b + 1
                        };
                        assert(before[x].spec_peer_id() == before[y].spec_peer_id());
                    }
                    if has_link(self.links(), peer_id) {
                        let b = choose|b: int|
                            0 <= b < self.links().len() && (
                            #[trigger] self.links()[b]).spec_peer_id() == peer_id;
                        let y = if b < at {
                            b
                        } else {
                            b + 1
                        };
                        assert(before[y].spec_peer_id() == before[at as int].spec_peer_id());
                    }
                    assert forall|other: PeerId| other != peer_id implies (has_link(
                        self.links(),
                        other,
                    ) <==> has_link(before, other)) by {
                        if has_link(self.links(), other) {
                            let b = choose|b: int|
                                0 <= b < self.links().len() && (
                                #[trigger] self.links()[b]).spec_peer_id() == other;
                            let y = if b < at {
                                b
                            } else {
                                b + 1
                            };
                            assert(before[y].spec_peer_id() == other);
                        }
                        if has_link(before, other) {
                            let y = choose|y: int|
                                0 <= y < before.len() && (#[trigger] before[y]).spec_peer_id()
                                    == other;
                            let b = if y < at {
                                y
                            } else {
                                y - 1
                            };
                            assert(self.links()[b].spec_peer_id() == other);
                        }
                    }
                    assert(self.files() == old(self).files());
                    assert forall|a: int| 0 <= a < self.files().len() implies (
                    #[trigger] self.files()[a]).wf() by {
                        assert(old(self).files()[a].wf());
                    }
                    assert forall|a: int, b: int|
                        0 <= a < self.files().len() && 0 <= b < self.files().len()
                            && self.sha256_at(a) == self.sha256_at(b) implies a == b by {
                        assert(old(self).sha256_at(a) == old(self).sha256_at(b));
                    }
                    assert forall|b: int| 0 <= b < self.links().len() implies link_was_there(
                        before,
                        #[trigger] self.links()[b],
                    ) by {
                        let y = if b < at {
                            b
                        } else {
                            b + 1
                        };
                        assert(before[y] == self.links()[b]);
                    }
                }
            },
            None => {
                proof {
                    assert(links_without(old(self).links(), self.links(), peer_id));
                    assert forall|b: int| 0 <= b < self.links().len() implies link_was_there(
                        old(self).links(),
                        #[trigger] self.links()[b],
                    ) by {
                        assert(old(self).links()[b] == self.links()[b]);
                    }
                }
            },
        }
        let ghost unlinked = *self;
        let mut at: usize = 0;
        while at < self.files.len()
            invariant
                at <= self.files@.len(),
                self.wf(),
                unlinked.wf(),
                self.spec_peer_id() == unlinked.spec_peer_id(),
                self.links() == unlinked.links(),
                self.files().len() == unlinked.files().len(),
                forall|b: int| at <= b < self.files().len() ==> self.files()[b] == unlinked.files()[b],
                forall|b: int|
                    0 <= b < at ==> if unlinked.files()[b].peers().contains_key(peer_id.0) {
                        SharedFile::peer_removed(
                            unlinked.files()[b],
                            #[trigger] self.files()[b],
                            peer_id,
                        )
                    } else {
                        self.files()[b] == unlinked.files()[b]
                    },
            decreases self.files@.len() - at,
        {
            let ghost before = *self;
            let _ = self.files[at].remove_peer(&peer_id);
            proof {
                let file = self.files()[at as int];
                assert(self.files() =~= before.files().update(at as int, file));
                Self::lemma_wf_one_file(before, *self, at as int);
                assert forall|b: int| 0 <= b < at + 1 implies if unlinked.files()[b].peers().contains_key(
                    peer_id.0,
                ) {
                    SharedFile::peer_removed(
                        unlinked.files()[b],
                        #[trigger] self.files()[b],
                        peer_id,
                    )
                } else {
                    self.files()[b] == unlinked.files()[b]
                } by {
                    if b < at {
                        assert(self.files()[b] == before.files()[b]);
                    } else {
                        assert(before.files()[b] == unlinked.files()[b]);
                    }
                }
            }
            at += 1;
        }
    }

    /// What giving up the pieces that went out before `time` does, file by
    /// file.
    pub open spec fn pieces_given_up(was: Self, now: Self, time: Time) -> bool {
        &&& (now.spec_peer_id() == was.spec_peer_id())
        &&& (now.links() == was.links())
        &&& (now.files().len() == was.files().len())
        &&& (forall|at: int|
                0 <= at < was.files().len() ==> SharedFile::stale_given_up(
                    was.files()[at],
                    #[trigger] now.files()[at],
                    time,
                ))
    }

    /// Gives up as lost, in every file, the pieces that went out before
    /// `time` and have not been acknowledged.
    pub fn resend_pieces_before(&mut self, time: Time)
        requires
            old(self).wf(),
        ensures
            final(self).wf(),
            Self::pieces_given_up(*old(self), *final(self), time),
    {
        let mut at: usize = 0;
        while at < self.files.len()
            invariant
                at <= self.files@.len(),
                self.wf(),
                old(self).wf(),
                self.spec_peer_id() == old(self).spec_peer_id(),
                self.links() == old(self).links(),
                self.files().len() == old(self).files().len(),
                forall|b: int| at <= b < self.files().len() ==> self.files()[b] == old(
                    self,
                ).files()[b],
                forall|b: int|
                    0 <= b < at ==> SharedFile::stale_given_up(
                        old(self).files()[b],
                        #[trigger] self.files()[b],
                        time,
                    ),
            decreases self.files@.len() - at,
        {
            let ghost before = *self;
            let _ = self.files[at].mark_pieces_for_resend_before(time);
            proof {
                assert(self.files() =~= before.files().update(at as int, self.files()[at as int]));
                Self::lemma_wf_one_file(before, *self, at as int);
                assert forall|b: int| 0 <= b < at + 1 implies SharedFile::stale_given_up(
                    old(self).files()[b],
                    #[trigger] self.files()[b],
                    time,
                ) by {
                    if b < at {
                        assert(self.files()[b] == before.files()[b]);
                    }
                }
            }
            at += 1;
        }
    }

    /// Whether a message tells the bitmap of one of the files to a peer of
    /// that file that was due.
    pub open spec fn tells_state(
        files: Seq<SharedFile<C, CHUNK_SIZE>>,
        links: Seq<RemotePeer>,
        resend_before: Time,
        sent: Outgoing,
        upto: int,
    ) -> bool {
        exists|f: int|
            0 <= f < upto && {
                let file = #[trigger] files[f];
                &&& !sent.bounded
                &&& is_state_message(
                    sent.message,
                    file.spec_file().metadata_view().sha256,
                    file.local(),
                )
                &&& file.peers().contains_key(sent.peer_id.0)
                &&& state_due(file.peers()[sent.peer_id.0].local_state_status, resend_before)
                &&& link_ready(links, sent.peer_id)
            }
    }

    /// What telling the bitmaps does: every peer of a file that is due and
    /// whose link is open gets the state message of that file, once, and
    /// counts as told at `current_time`; no other message goes out.
    pub open spec fn state_told(
        was: Self,
        now: Self,
        resend_before: Time,
        current_time: Time,
        r: Seq<Outgoing>,
    ) -> bool {
        &&& (now.spec_peer_id() == was.spec_peer_id())
        &&& (now.links() == was.links())
        &&& (now.files().len() == was.files().len())
        &&& (forall|f: int|
                0 <= f < was.files().len() ==> file_state_sent(
                    was.files()[f],
                    #[trigger] now.files()[f],
                    was.links(),
                    resend_before,
                    current_time,
                ))
        &&& (forall|j: int|
                0 <= j < r.len() ==> Self::tells_state(
                    was.files(),
                    was.links(),
                    resend_before,
                    #[trigger] r[j],
                    was.files().len() as int,
                ))
        &&& (forall|f: int, id: u32|
                0 <= f < was.files().len() && (#[trigger] was.files()[f].peers().contains_key(id)) && state_due(
                    was.files()[f].peers()[id].local_state_status,
                    resend_before,
                ) && link_ready(was.links(), PeerId(id)) ==> exists|j: int|
                    0 <= j < r.len() && (#[trigger] r[j]).peer_id == PeerId(id)
                        && is_state_message(
                        r[j].message,
                        was.sha256_at(f),
                        was.files()[f].local(),
                    ))
        &&& (told_once(r))
    }

    /// Tells the bitmap of every file to every peer of the file that has
    /// not been told, or was told no later than `resend_before` and has not
    /// said so, if the link to the peer is open. Those peers count as told
    /// at `current_time`.
    #[verifier::rlimit(50)]
    pub fn send_state_to_remote_peers(&mut self, resend_before: Time, current_time: Time) -> (r:
        Vec<Outgoing>)
        requires
            old(self).wf(),
        ensures
            final(self).wf(),
            Self::state_told(*old(self), *final(self), resend_before, current_time, r@),
    {
        let mut out: Vec<Outgoing> = Vec::new();
        let mut at: usize = 0;
        while at < self.files.len()
            invariant
                at <= self.files@.len(),
                self.wf(),
                old(self).wf(),
                self.spec_peer_id() == old(self).spec_peer_id(),
                self.links() == old(self).links(),
                self.files().len() == old(self).files().len(),
                forall|b: int| at <= b < self.files().len() ==> self.files()[b] == old(
                    self,
                ).files()[b],
                forall|f: int|
                    0 <= f < at ==> file_state_sent(
                        old(self).files()[f],
                        #[trigger] self.files()[f],
                        old(self).links(),
                        resend_before,
                        current_time,
                    ),
                forall|j: int|
                    0 <= j < out@.len() ==> Self::tells_state(
                        old(self).files(),
                        old(self).links(),
                        resend_before,
                        #[trigger] out@[j],
                        at as int,
                    ),
                forall|f: int, id: u32|
                    0 <= f < at && (#[trigger] old(self).files()[f].peers().contains_key(id))
                        && state_due(
                        old(self).files()[f].peers()[id].local_state_status,
                        resend_before,
                    ) && link_ready(old(self).links(), PeerId(id)) ==> exists|j: int|
                        0 <= j < out@.len() && (#[trigger] out@[j]).peer_id == PeerId(id)
                            && is_state_message(
                            out@[j].message,
                            old(self).sha256_at(f),
                            old(self).files()[f].local(),
                        ),
                told_once(out@),
            decreases self.files@.len() - at,
        {
            let ghost before = *self;
            let ghost out_before = out@;
            send_file_state(&mut self.files[at], &self.peers, resend_before, current_time, &mut out);
            proof {
                assert(self.files() =~= before.files().update(at as int, self.files()[at as int]));
                Self::lemma_wf_one_file(before, *self, at as int);
                let file = old(self).files()[at as int];
                assert(before.files()[at as int] == file);
                assert forall|f: int| 0 <= f < at + 1 implies file_state_sent(
                    old(self).files()[f],
                    #[trigger] self.files()[f],
                    old(self).links(),
                    resend_before,
                    current_time,
                ) by {
                    if f < at {
                        assert(self.files()[f] == before.files()[f]);
                    }
                }
                assert forall|j: int| 0 <= j < out@.len() implies Self::tells_state(
                    old(self).files(),
                    old(self).links(),
                    resend_before,
                    #[trigger] out@[j],
                    at + 1,
                ) by {
                    if j < out_before.len() {
                        assert(out@[j] == out@.take(out_before.len() as int)[j]);
                        assert(Self::tells_state(
                            old(self).files(),
                            old(self).links(),
                            resend_before,
                            out_before[j],
                            at as int,
                        ));
                        let f = choose|f: int|
                            0 <= f < at && {
                                let file = #[trigger] old(self).files()[f];
                                &&& !out_before[j].bounded
                                &&& is_state_message(
                                    out_before[j].message,
                                    file.spec_file().metadata_view().sha256,
                                    file.local(),
                                )
                                &&& file.peers().contains_key(out_before[j].peer_id.0)
                                &&& state_due(
                                    file.peers()[out_before[j].peer_id.0].local_state_status,
                                    resend_before,
                                )
                                &&& link_ready(old(self).links(), out_before[j].peer_id)
                            };
                        assert(0 <= f < at + 1);
                    } else {
                        assert(old(self).files()[at as int] == file);
                    }
                }
                assert forall|f: int, id: u32|
                    0 <= f < at + 1 && (#[trigger] old(self).files()[f].peers().contains_key(id))
                        && state_due(
                        old(self).files()[f].peers()[id].local_state_status,
                        resend_before,
                    ) && link_ready(old(self).links(), PeerId(id)) implies exists|j: int|
                    0 <= j < out@.len() && (#[trigger] out@[j]).peer_id == PeerId(id)
                        && is_state_message(
                        out@[j].message,
                        old(self).sha256_at(f),
                        old(self).files()[f].local(),
                    ) by {
                    if f < at {
                        let j = choose|j: int|
                            0 <= j < out_before.len() && (#[trigger] out_before[j]).peer_id
                                == PeerId(id) && is_state_message(
                                out_before[j].message,
                                old(self).sha256_at(f),
                                old(self).files()[f].local(),
                            );
                        assert(out@[j] == out@.take(out_before.len() as int)[j]);
                    } else {
                        let j = choose|j: int|
                            out_before.len() <= j < out@.len() && (#[trigger] out@[j]).peer_id
                                == PeerId(id);
                        assert(is_state_message(
                            out@[j].message,
                            file.spec_file().metadata_view().sha256,
                            file.local(),
                        ));
                    }
                }
                assert forall|a: int| 0 <= a < out_before.len() implies (
                #[trigger] out@[a]).message.spec_sha256().0@ != old(self).sha256_at(at as int) by {
                    assert(out@[a] == out@.take(out_before.len() as int)[a]);
                    assert(Self::tells_state(
                        old(self).files(),
                        old(self).links(),
                        resend_before,
                        out_before[a],
                        at as int,
                    ));
                }
                lemma_told_once_grows(out_before, out@, old(self).sha256_at(at as int));
            }
            at += 1;
        }
        out
    }

    /// Whether a message hands the newly arrived pieces of one of the files
    /// to a peer of that file.
    pub open spec fn tells_received(
        files: Seq<SharedFile<C, CHUNK_SIZE>>,
        links: Seq<RemotePeer>,
        sent: Outgoing,
        upto: int,
    ) -> bool {
        exists|f: int|
            0 <= f < upto && {
                let file = #[trigger] files[f];
                &&& !sent.bounded
                &&& file.recent().len() > 0
                &&& is_ack_message(
                    sent.message,
                    file.spec_file().metadata_view().sha256,
                    file.recent(),
                )
                &&& file.peers().contains_key(sent.peer_id.0)
                &&& link_ready(links, sent.peer_id)
            }
    }

    /// What acknowledging the newly arrived pieces does: every peer of a
    /// file with such pieces whose link is open gets them, once, and the
    /// files forget them; no other message goes out.
    pub open spec fn received_told(was: Self, now: Self, r: Seq<Outgoing>) -> bool {
        &&& (now.spec_peer_id() == was.spec_peer_id())
        &&& (now.links() == was.links())
        &&& (now.files().len() == was.files().len())
        &&& (forall|f: int|
                0 <= f < was.files().len() ==> {
                    let before = was.files()[f];
                    let after = #[trigger] now.files()[f];
                    &&& after.recent() == Seq::<FilePieceIdx>::empty()
                    &&& after.spec_file() == before.spec_file()
                    &&& after.views() == before.views()
                    &&& after.remote() == before.remote()
                    &&& after.queues() == before.queues()
                    &&& after.sent() == before.sent()
                    &&& after.peers() == before.peers()
                })
        &&& (forall|j: int|
                0 <= j < r.len() ==> Self::tells_received(
                    was.files(),
                    was.links(),
                    #[trigger] r[j],
                    was.files().len() as int,
                ))
        &&& (forall|f: int, id: u32|
                0 <= f < was.files().len() && was.files()[f].recent().len() > 0 && (
                #[trigger] was.files()[f].peers().contains_key(id)) && link_ready(
                    was.links(),
                    PeerId(id),
                ) ==> exists|j: int|
                    0 <= j < r.len() && (#[trigger] r[j]).peer_id == PeerId(id)
                        && is_ack_message(
                        r[j].message,
                        was.sha256_at(f),
                        was.files()[f].recent(),
                    ))
        &&& (told_once(r))
    }

    /// Hands the pieces that arrived at each file since the last round to
    /// every peer of the file whose link is open, and forgets them.
    pub fn send_recently_received_to_remote_peers(&mut self) -> (r: Vec<Outgoing>)
        requires
            old(self).wf(),
        ensures
            final(self).wf(),
            Self::received_told(*old(self), *final(self), r@),
    {
        let mut out: Vec<Outgoing> = Vec::new();
        let mut at: usize = 0;
        while at < self.files.len()
            invariant
                at <= self.files@.len(),
                self.wf(),
                old(self).wf(),
                self.spec_peer_id() == old(self).spec_peer_id(),
                self.links() == old(self).links(),
                self.files().len() == old(self).files().len(),
                forall|b: int| at <= b < self.files().len() ==> self.files()[b] == old(
                    self,
                ).files()[b],
                forall|f: int|
                    0 <= f < at ==> {
                        let before = old(self).files()[f];
                        let after = #[trigger] self.files()[f];
                        &&& after.recent() == Seq::<FilePieceIdx>::empty()
                        &&& after.spec_file() == before.spec_file()
                        &&& after.views() == before.views()
                        &&& after.remote() == before.remote()
                        &&& after.queues() == before.queues()
                        &&& after.sent() == before.sent()
                        &&& after.peers() == before.peers()
                    },
                forall|j: int|
                    0 <= j < out@.len() ==> Self::tells_received(
                        old(self).files(),
                        old(self).links(),
                        #[trigger] out@[j],
                        at as int,
                    ),
                forall|f: int, id: u32|
                    0 <= f < at && old(self).files()[f].recent().len() > 0 && (#[trigger] old(
                        self,
                    ).files()[f].peers().contains_key(id)) && link_ready(
                        old(self).links(),
                        PeerId(id),
                    ) ==> exists|j: int|
                        0 <= j < out@.len() && (#[trigger] out@[j]).peer_id == PeerId(id)
                            && is_ack_message(
                            out@[j].message,
                            old(self).sha256_at(f),
                            old(self).files()[f].recent(),
                        ),
                told_once(out@),
            decreases self.files@.len() - at,
        {
            let ghost before = *self;
            let ghost out_before = out@;
            send_file_recently_received(&mut self.files[at], &self.peers, &mut out);
            proof {
                assert(self.files() =~= before.files().update(at as int, self.files()[at as int]));
                Self::lemma_wf_one_file(before, *self, at as int);
                let file = old(self).files()[at as int];
                assert(before.files()[at as int] == file);
                assert forall|f: int| 0 <= f < at + 1 implies {
                    let was = old(self).files()[f];
                    let after = #[trigger] self.files()[f];
                    &&& after.recent() == Seq::<FilePieceIdx>::empty()
                    &&& after.spec_file() == was.spec_file()
                    &&& after.views() == was.views()
                    &&& after.remote() == was.remote()
                    &&& after.queues() == was.queues()
                    &&& after.sent() == was.sent()
                    &&& after.peers() == was.peers()
                } by {
                    if f < at {
                        assert(self.files()[f] == before.files()[f]);
                    }
                }
                assert forall|j: int| 0 <= j < out@.len() implies Self::tells_received(
                    old(self).files(),
                    old(self).links(),
                    #[trigger] out@[j],
                    at + 1,
                ) by {
                    if j < out_before.len() {
                        assert(out@[j] == out@.take(out_before.len() as int)[j]);
                        assert(Self::tells_received(
                            old(self).files(),
                            old(self).links(),
                            out_before[j],
                            at as int,
                        ));
                        let f = choose|f: int|
                            0 <= f < at && {
                                let file = #[trigger] old(self).files()[f];
                                &&& !out_before[j].bounded
                                &&& file.recent().len() > 0
                                &&& is_ack_message(
                                    out_before[j].message,
                                    file.spec_file().metadata_view().sha256,
                                    file.recent(),
                                )
                                &&& file.peers().contains_key(out_before[j].peer_id.0)
                                &&& link_ready(old(self).links(), out_before[j].peer_id)
                            };
                        assert(0 <= f < at + 1);
                    } else {
                        assert(old(self).files()[at as int] == file);
                        assert(file.recent().len() > 0);
                    }
                }
                assert forall|f: int, id: u32|
                    0 <= f < at + 1 && old(self).files()[f].recent().len() > 0 && (#[trigger] old(
                        self,
                    ).files()[f].peers().contains_key(id)) && link_ready(
                        old(self).links(),
                        PeerId(id),
                    ) implies exists|j: int|
                    0 <= j < out@.len() && (#[trigger] out@[j]).peer_id == PeerId(id)
                        && is_ack_message(
                        out@[j].message,
                        old(self).sha256_at(f),
                        old(self).files()[f].recent(),
                    ) by {
                    if f < at {
                        let j = choose|j: int|
                            0 <= j < out_before.len() && (#[trigger] out_before[j]).peer_id
                                == PeerId(id) && is_ack_message(
                                out_before[j].message,
                                old(self).sha256_at(f),
                                old(self).files()[f].recent(),
                            );
                        assert(out@[j] == out@.take(out_before.len() as int)[j]);
                    } else {
                        let j = choose|j: int|
                            out_before.len() <= j < out@.len() && (#[trigger] out@[j]).peer_id
                                == PeerId(id);
                        assert(is_ack_message(
                            out@[j].message,
                            file.spec_file().metadata_view().sha256,
                            file.recent(),
                        ));
                    }
                }
                assert forall|a: int| 0 <= a < out_before.len() implies (
                #[trigger] out@[a]).message.spec_sha256().0@ != old(self).sha256_at(at as int) by {
                    assert(out@[a] == out@.take(out_before.len() as int)[a]);
                    assert(Self::tells_received(
                        old(self).files(),
                        old(self).links(),
                        out_before[a],
                        at as int,
                    ));
                }
                lemma_told_once_grows(out_before, out@, old(self).sha256_at(at as int));
            }
            at += 1;
        }
        out
    }

    /// Whether a message carries a piece that one of the files holds, to a
    /// peer that has told its bitmap for that file.
    pub open spec fn carries_piece(files: Seq<SharedFile<C, CHUNK_SIZE>>, sent: Outgoing) -> bool {
        exists|f: int|
            0 <= f < files.len() && {
                let file = #[trigger] files[f];
                &&& sent.bounded
                &&& is_piece_message(sent.message, file)
                &&& has_view(file.views(), sent.peer_id)
            }
    }

    /// Whether a message carries the piece that a candidate names.
    pub open spec fn carries_candidate(
        files: Seq<SharedFile<C, CHUNK_SIZE>>,
        candidate: QueueItem,
        sent: Outgoing,
    ) -> bool {
        &&& candidate.file_idx < files.len()
        &&& sent.message matches PeerPeerMessage::FilePiece { sha256, piece_idx, bytes }
            && sha256.0@ == files[candidate.file_idx as int].spec_file().metadata_view().sha256
            && piece_idx == candidate.piece_idx
    }

    /// Whether a message carries one of the rarest pieces of the files: a
    /// piece with the fewest possible owners among all pieces that some
    /// peer may lack.
    pub open spec fn carries_rarest(files: Seq<SharedFile<C, CHUNK_SIZE>>, sent: Outgoing) -> bool {
        match lowest_key(files) {
            Some(lowest) => exists|candidate: QueueItem| #[trigger]
                pool_of(files, lowest).contains(candidate) && Self::carries_candidate(
                    files,
                    candidate,
                    sent,
                ),
            None => false,
        }
    }

    /// What picking pieces does: the messages, how many there are, and how
    /// the files change with each.
    pub open spec fn pieces_picked(
        was: Self,
        now: Self,
        num_pieces_to_be_sent: usize,
        current_time: Time,
        r: Seq<Outgoing>,
    ) -> bool {
        &&& (now.spec_peer_id() == was.spec_peer_id())
        &&& (now.links() == was.links())
        &&& (now.files().len() == was.files().len())
        &&& (r.len() <= num_pieces_to_be_sent)
        &&& (forall|f: int|
                0 <= f < was.files().len() ==> {
                    let before = was.files()[f];
                    let after = #[trigger] now.files()[f];
                    &&& after.spec_file() == before.spec_file()
                    &&& after.peers() == before.peers()
                    &&& after.remote() == before.remote()
                    &&& after.recent() == before.recent()
                })
        &&& (forall|j: int|
                0 <= j < r.len() ==> Self::carries_piece(now.files(), #[trigger] r[j]))
        &&& (r.len() > 0 ==> Self::carries_rarest(was.files(), r[0]))
        &&& (Self::pieces_sent(was.files(), now.files(), current_time, r))
        &&& (r.len() > 0 <==> num_pieces_to_be_sent > 0 && FileSharingSelector::some_can_be_taken(
                Seq::<QueueItem>::empty(),
                was.files(),
            ))
        &&& (r.len() < num_pieces_to_be_sent ==> !FileSharingSelector::some_can_be_taken(
                Seq::<QueueItem>::empty(),
                now.files(),
            ))
    }

    /// Picks pieces, the rarest first and at random among equally rare
    /// ones, and for each the peer that it goes to, until it has
    /// `num_pieces_to_be_sent` of them or no piece finds a receiver.
    pub fn send_pieces_to_remote_peers(
        &mut self,
        num_pieces_to_be_sent: usize,
        current_time: Time,
        rng: &mut ChaCha8Rng,
    ) -> (r: Vec<Outgoing>)
        requires
            old(self).wf(),
        ensures
            final(self).wf(),
            Self::pieces_picked(*old(self), *final(self), num_pieces_to_be_sent, current_time, r@),
    {
        let mut out: Vec<Outgoing> = Vec::new();
        let mut selector = FileSharingSelector::new(&self.files);
        let ghost mut pool = selector.pending();
        while out.len() < num_pieces_to_be_sent
            invariant_except_break
                pool == selector.pending(),
                out@.len() == 0 ==> self.files() == old(self).files() && forall|
                    candidate: QueueItem,
                |
                    selector.pending().contains(candidate) ==> #[trigger] FileSharingSelector::offered(
                        Seq::<QueueItem>::empty(),
                        old(self).files(),
                        candidate,
                    ),
            invariant
                self.wf(),
                self.spec_peer_id() == old(self).spec_peer_id(),
                self.links() == old(self).links(),
                self.files().len() == old(self).files().len(),
                out@.len() <= num_pieces_to_be_sent,
                out@.len() > 0 ==> Self::carries_rarest(old(self).files(), out@[0]),
                forall|f: int|
                    0 <= f < old(self).files().len() ==> {
                        let before = old(self).files()[f];
                        let after = #[trigger] self.files()[f];
                        &&& after.spec_file() == before.spec_file()
                        &&& after.peers() == before.peers()
                        &&& after.remote() == before.remote()
                        &&& after.recent() == before.recent()
                    },
                forall|j: int|
                    0 <= j < out@.len() ==> Self::carries_piece(self.files(), #[trigger] out@[j]),
                Self::pieces_drawn(
                    old(self).files(),
                    FileSharingSelector::rarest(old(self).files()),
                    self.files(),
                    pool,
                    current_time,
                    out@,
                ),
                out@.len() > 0 ==> FileSharingSelector::some_can_be_taken(
                    Seq::<QueueItem>::empty(),
                    old(self).files(),
                ),
            ensures
                out@.len() < num_pieces_to_be_sent ==> !FileSharingSelector::some_can_be_taken(
                    Seq::<QueueItem>::empty(),
                    self.files(),
                ),
            decreases num_pieces_to_be_sent - out@.len(),
        {
            let ghost before = *self;
            let ghost out_before = out@;
            let ghost waiting = selector.pending();
            let next = self.next_piece(&mut selector, current_time, rng);
            proof {
                assert forall|j: int| 0 <= j < out@.len() implies Self::carries_piece(
                    self.files(),
                    #[trigger] out@[j],
                ) by {
                    if j < out_before.len() {
                        assert(out@[j] == out_before[j]);
                        let g = choose|g: int|
                            0 <= g < before.files().len() && {
                                let file = #[trigger] before.files()[g];
                                &&& out_before[j].bounded
                                &&& is_piece_message(out_before[j].message, file)
                                &&& has_view(file.views(), out_before[j].peer_id)
                            };
                        assert(self.files()[g].spec_file() == before.files()[g].spec_file());
                        assert(has_view(self.files()[g].views(), out_before[j].peer_id));
                    }
                }
                assert forall|f: int| 0 <= f < old(self).files().len() implies {
                    let first = old(self).files()[f];
                    let after = #[trigger] self.files()[f];
                    &&& after.spec_file() == first.spec_file()
                    &&& after.peers() == first.peers()
                    &&& after.remote() == first.remote()
                    &&& after.recent() == first.recent()
                } by {
                    assert(before.files()[f].spec_file() == old(self).files()[f].spec_file());
                }
            }
            match next {
                Some(sent) => {
                    proof {
                        if out_before.len() == 0 {
                            let candidate = choose|candidate: QueueItem|
                                {
                                    &&& #[trigger] FileSharingSelector::offered(
                                        waiting,
                                        before.files(),
                                        candidate,
                                    )
                                    &&& Self::carries_candidate(before.files(), candidate, sent)
                                };
                            if waiting.contains(candidate) {
                                assert(FileSharingSelector::offered(
                                    Seq::<QueueItem>::empty(),
                                    old(self).files(),
                                    candidate,
                                ));
                            }
                            assert(!Seq::<QueueItem>::empty().contains(candidate));
                            assert(Self::carries_rarest(old(self).files(), sent));
                            let able = choose|able: QueueItem|
                                FileSharingSelector::offered(waiting, before.files(), able)
                                    && #[trigger] FileSharingSelector::can_be_taken(
                                    before.files(),
                                    able,
                                );
                            if waiting.contains(able) {
                                assert(FileSharingSelector::offered(
                                    Seq::<QueueItem>::empty(),
                                    old(self).files(),
                                    able,
                                ));
                            }
                            assert(FileSharingSelector::offered(
                                Seq::<QueueItem>::empty(),
                                old(self).files(),
                                able,
                            ));
                        }
                        let taken = choose|taken: QueueItem|
                            {
                                &&& FileSharingSelector::drawn_from(waiting, before.files(), taken)
                                &&& #[trigger] Self::piece_sent(
                                    before.files(),
                                    self.files(),
                                    taken,
                                    current_time,
                                    sent,
                                )
                            };
                        assert(Self::piece_drawn(
                            before.files(),
                            waiting,
                            self.files(),
                            selector.pending(),
                            taken,
                            current_time,
                            sent,
                        ));
                        pool = selector.pending();
                    }
                    out.push(sent);
                    proof {
                        assert forall|j: int| 0 <= j < out@.len() implies Self::carries_piece(
                            self.files(),
                            #[trigger] out@[j],
                        ) by {
                            if j < out_before.len() {
                                assert(out@[j] == out_before[j]);
                            }
                        }
                        assert(out@.drop_last() =~= out_before);
                        assert(out@.last() == sent);
                    }
                },
                None => {
                    proof {
                        if FileSharingSelector::some_can_be_taken(
                            Seq::<QueueItem>::empty(),
                            self.files(),
                        ) {
                            let able = choose|able: QueueItem|
                                FileSharingSelector::offered(
                                    Seq::<QueueItem>::empty(),
                                    self.files(),
                                    able,
                                ) && #[trigger] FileSharingSelector::can_be_taken(
                                    self.files(),
                                    able,
                                );
                            assert(!Seq::<QueueItem>::empty().contains(able));
                            assert(FileSharingSelector::offered(waiting, before.files(), able));
                        }
                    }
                    break ;
                },
            }
        }
        out
    }

    /// Picks one more piece and the peer that it goes to; `None` only when
    /// none of the pieces that the selector may pick finds a receiver.
    fn next_piece(
        &mut self,
        selector: &mut FileSharingSelector,
        current_time: Time,
        rng: &mut ChaCha8Rng,
    ) -> (r: Option<Outgoing>)
        requires
            old(self).wf(),
        ensures
            final(self).wf(),
            final(self).spec_peer_id() == old(self).spec_peer_id(),
            final(self).links() == old(self).links(),
            final(self).files().len() == old(self).files().len(),
            forall|f: int|
                0 <= f < old(self).files().len() ==> {
                    let before = old(self).files()[f];
                    let after = #[trigger] final(self).files()[f];
                    &&& after.spec_file() == before.spec_file()
                    &&& after.peers() == before.peers()
                    &&& after.remote() == before.remote()
                    &&& after.recent() == before.recent()
                    &&& forall|peer_id: PeerId|
                        has_view(before.views(), peer_id) ==> has_view(after.views(), peer_id)
                },
            r is Some <==> FileSharingSelector::some_can_be_taken(
                old(selector).pending(),
                old(self).files(),
            ),
            match r {
                Some(sent) => {
                    &&& Self::carries_piece(final(self).files(), sent)
                    &&& exists|candidate: QueueItem|
                        {
                            &&& #[trigger] FileSharingSelector::offered(
                                old(selector).pending(),
                                old(self).files(),
                                candidate,
                            )
                            &&& Self::carries_candidate(old(self).files(), candidate, sent)
                        }
                    &&& exists|candidate: QueueItem|
                        {
                            &&& FileSharingSelector::drawn_from(
                                old(selector).pending(),
                                old(self).files(),
                                candidate,
                            )
                            &&& #[trigger] Self::piece_sent(
                                old(self).files(),
                                final(self).files(),
                                candidate,
                                current_time,
                                sent,
                            )
                        }
                },
                None => {
                    &&& final(self).files() == old(self).files()
                    &&& final(selector).pending().len() == 0
                },
            },
            forall|candidate: QueueItem|
                final(selector).pending().contains(candidate)
                    ==> #[trigger] FileSharingSelector::drawn_from(
                    old(selector).pending(),
                    old(self).files(),
                    candidate,
                ),
    {
        let selected = match selector.next(&mut self.files, rng, current_time) {
            Some(selected) => selected,
            None => {
                proof {
                    Self::lemma_wf_same(*old(self), *self);
                }
                return None;
            },
        };
        let ghost candidate = choose|candidate: crate::file_sharing_selector::QueueItem|
            {
                &&& #[trigger] FileSharingSelector::drawn_from(
                    old(selector).pending(),
                    old(self).files(),
                    candidate,
                )
                &&& FileSharingSelector::candidate_taken(
                    old(self).files(),
                    self.files(),
                    candidate,
                    current_time,
                    Some(selected),
                )
            };
        let ghost f = selected.file_idx as int;
        proof {
            assert(candidate.file_idx < old(self).files().len());
            assert(candidate.file_idx == selected.file_idx);
            let was = old(self).files()[f];
            let now = self.files()[f];
            assert(was.spec_select(selected.piece_idx) is Ok);
            let step = was.spec_select(selected.piece_idx)->Ok_0;
            assert(SharedFile::piece_taken(
                was,
                now,
                selected.piece_idx,
                current_time,
                step,
                selected.peer_id,
            ));
            assert(was.queues().contains(selected.piece_idx.0 as int));
            assert(was.local()[selected.piece_idx.0 as int]);
            assert(now.spec_file() == was.spec_file());
            Self::lemma_wf_one_file(*old(self), *self, f);
            assert forall|g: int| 0 <= g < old(self).files().len() implies {
                let first = old(self).files()[g];
                let after = #[trigger] self.files()[g];
                &&& after.spec_file() == first.spec_file()
                &&& after.peers() == first.peers()
                &&& after.remote() == first.remote()
                &&& after.recent() == first.recent()
                &&& forall|peer_id: PeerId|
                    has_view(first.views(), peer_id) ==> has_view(after.views(), peer_id)
            } by {
                if g != f {
                    assert(self.files()[g] == old(self).files()[g]);
                } else {
                    assert forall|peer_id: PeerId| has_view(was.views(), peer_id) implies has_view(
                        now.views(),
                        peer_id,
                    ) by {
                        let k = choose|k: int|
                            0 <= k < was.views().len() && (#[trigger] was.views()[k]).peer_id
                                == peer_id;
                        assert(now.views()[k].peer_id == peer_id);
                    }
                }
            }
            let k = crate::stride::stride_index(
                selected.piece_idx.0 as int,
                was.views().len() as int,
                was.queues().data(selected.piece_idx.0 as int).peer_shift.0 + step,
            );
            Self::lemma_select_in_range(was, selected.piece_idx);
            assert(now.views()[k].peer_id == selected.peer_id);
            assert(has_view(now.views(), selected.peer_id));
        }
        let file = &self.files[selected.file_idx];
        let bytes = match file.file().get_piece(&selected.piece_idx) {
            Ok(Some(bytes)) => bytes,
            _ => {
                // A piece that was queued is here, so its bytes are.
                assert(false);
                return None;
            },
        };
        let sha256 = file.file().sha256();
        let sent = Outgoing {
            peer_id: selected.peer_id,
            message: PeerPeerMessage::FilePiece { sha256, piece_idx: selected.piece_idx, bytes },
            bounded: true,
        };
        proof {
            assert(is_piece_message(sent.message, self.files()[f]));
            assert(FileSharingSelector::offered(
                old(selector).pending(),
                old(self).files(),
                candidate,
            ));
            assert(Self::carries_candidate(old(self).files(), candidate, sent));
            assert(is_piece_message(sent.message, old(self).files()[f]));
            assert(Some(selected) == Some(
                crate::file_sharing_selector::SelectedPiece {
                    peer_id: sent.peer_id,
                    file_idx: candidate.file_idx,
                    piece_idx: candidate.piece_idx,
                },
            ));
            assert(Self::piece_sent(
                old(self).files(),
                self.files(),
                candidate,
                current_time,
                sent,
            ));
        }
        Some(sent)
    }

    /// What sending one piece does: the message is bounded and carries the
    /// piece that the candidate names, with the bytes that its file holds;
    /// the file has found the message's receiver for the piece and changed
    /// as `select_piece_peer` says; no other file has changed.
    pub open spec fn piece_sent(
        before: Seq<SharedFile<C, CHUNK_SIZE>>,
        after: Seq<SharedFile<C, CHUNK_SIZE>>,
        candidate: QueueItem,
        time: Time,
        sent: Outgoing,
    ) -> bool {
        &&& forall|f: int| 0 <= f < before.len() ==> (#[trigger] before[f]).wf()
        &&& sent.bounded
        &&& Self::carries_candidate(before, candidate, sent)
        &&& is_piece_message(sent.message, before[candidate.file_idx as int])
        &&& FileSharingSelector::candidate_taken(
            before,
            after,
            candidate,
            time,
            Some(
                crate::file_sharing_selector::SelectedPiece {
                    peer_id: sent.peer_id,
                    file_idx: candidate.file_idx,
                    piece_idx: candidate.piece_idx,
                },
            ),
        )
    }

    /// What drawing one piece does: the piece waited in the pool, or the
    /// pool was spent and the piece was among the rarest of the files; it
    /// is sent as `piece_sent` says; and what is left in the pool are
    /// pieces that could have been drawn.
    pub open spec fn piece_drawn(
        before: Seq<SharedFile<C, CHUNK_SIZE>>,
        pool: Seq<QueueItem>,
        after: Seq<SharedFile<C, CHUNK_SIZE>>,
        left: Seq<QueueItem>,
        candidate: QueueItem,
        time: Time,
        sent: Outgoing,
    ) -> bool {
        &&& FileSharingSelector::drawn_from(pool, before, candidate)
        &&& Self::piece_sent(before, after, candidate, time, sent)
        &&& forall|other: QueueItem|
            left.contains(other) ==> #[trigger] FileSharingSelector::drawn_from(pool, before, other)
    }

    /// What drawing a run of pieces from a pool does, one after the other:
    /// each message is a piece drawn from the files and the pool as the
    /// one before left them.
    pub open spec fn pieces_drawn(
        before: Seq<SharedFile<C, CHUNK_SIZE>>,
        pool: Seq<QueueItem>,
        after: Seq<SharedFile<C, CHUNK_SIZE>>,
        left: Seq<QueueItem>,
        time: Time,
        sent: Seq<Outgoing>,
    ) -> bool
        decreases sent.len(),
    {
        if sent.len() == 0 {
            after == before && left == pool
        } else {
            exists|
                between: Seq<SharedFile<C, CHUNK_SIZE>>,
                waiting: Seq<QueueItem>,
                candidate: QueueItem,
            |
                {
                    &&& Self::pieces_drawn(before, pool, between, waiting, time, sent.drop_last())
                    &&& #[trigger] Self::piece_drawn(
                        between,
                        waiting,
                        after,
                        left,
                        candidate,
                        time,
                        sent.last(),
                    )
                }
        }
    }

    /// What sending a run of pieces does: they are drawn, one after the
    /// other, from a pool that starts as the rarest pieces of the files.
    pub open spec fn pieces_sent(
        before: Seq<SharedFile<C, CHUNK_SIZE>>,
        after: Seq<SharedFile<C, CHUNK_SIZE>>,
        time: Time,
        sent: Seq<Outgoing>,
    ) -> bool {
        exists|left: Seq<QueueItem>| #[trigger]
            Self::pieces_drawn(before, FileSharingSelector::rarest(before), after, left, time, sent)
    }

    /// A piece that can go out finds its receiver among the peers.
    proof fn lemma_select_in_range(file: SharedFile<C, CHUNK_SIZE>, piece_idx: FilePieceIdx)
        requires
            file.spec_select(piece_idx) is Ok,
        ensures
            file.views().len() > 0,
            0 <= crate::stride::stride_index(
                piece_idx.0 as int,
                file.views().len() as int,
                file.queues().data(piece_idx.0 as int).peer_shift.0 + file.spec_select(
                    piece_idx,
                )->Ok_0,
            ) < file.views().len(),
    {
        let shift = file.queues().data(piece_idx.0 as int).peer_shift.0 as int;
        let found = crate::shared_file::first_free_from(
            file.views(),
            piece_idx.0 as int,
            shift,
            0,
        );
        assert(found is Some);
        if file.views().len() > 0 {
            crate::stride::lemma_stride_index_bound(
                piece_idx.0 as int,
                file.views().len() as int,
                shift + found->0,
            );
        }
    }

    /// What forgetting a list of peers does, one after the other.
    pub open spec fn peers_forgotten(was: Self, now: Self, closed: Seq<PeerId>) -> bool
        decreases closed.len(),
    {
        if closed.len() == 0 {
            now == was
        } else {
            exists|between: Self|
                {
                    &&& Self::peers_forgotten(was, between, closed.drop_last())
                    &&& between.wf()
                    &&& #[trigger] Self::peer_forgotten(between, now, closed.last())
                }
        }
    }

    /// The steps of one round, with the peer as each step leaves it and
    /// the messages that each step hands out: the peers whose links have
    /// closed are forgotten, in the order of the links; the bitmaps are
    /// told where due; the newly arrived pieces are acknowledged; the
    /// pieces that went out too long ago are given up; and new pieces are
    /// picked.
    pub open spec fn round_steps(
        was: Self,
        closed: Seq<PeerId>,
        purged: Self,
        told_at: Self,
        acked_at: Self,
        given_up: Self,
        now: Self,
        params: SenderParams,
        time: Time,
        told: Seq<Outgoing>,
        acked: Seq<Outgoing>,
        picked: Seq<Outgoing>,
    ) -> bool {
        &&& closed == Self::closed_of(was.links())
        &&& Self::peers_forgotten(was, purged, closed)
        &&& purged.wf()
        &&& Self::state_told(
            purged,
            told_at,
            time.spec_saturating_sub(params.state_resend_interval),
            time,
            told,
        )
        &&& told_at.wf()
        &&& Self::received_told(told_at, acked_at, acked)
        &&& acked_at.wf()
        &&& Self::pieces_given_up(
            acked_at,
            given_up,
            time.spec_saturating_sub(params.piece_resend_interval),
        )
        &&& given_up.wf()
        &&& Self::pieces_picked(given_up, now, params.num_pieces_to_be_sent, time, picked)
    }

    /// What one round does: its five steps, one after the other, and the
    /// messages of the three steps that send, in the order of the steps.
    pub open spec fn round_done(
        was: Self,
        now: Self,
        params: SenderParams,
        time: Time,
        r: Seq<Outgoing>,
    ) -> bool {
        exists|
            closed: Seq<PeerId>,
            purged: Self,
            told_at: Self,
            acked_at: Self,
            given_up: Self,
            told: Seq<Outgoing>,
            acked: Seq<Outgoing>,
            picked: Seq<Outgoing>,
        |
            {
                &&& #[trigger] Self::round_steps(
                    was,
                    closed,
                    purged,
                    told_at,
                    acked_at,
                    given_up,
                    now,
                    params,
                    time,
                    told,
                    acked,
                    picked,
                )
                &&& r == told + acked + picked
            }
    }

    /// Forgets the peers whose links have closed, and names them.
    fn forget_closed(&mut self) -> (closed: Vec<PeerId>)
        requires
            old(self).wf(),
        ensures
            final(self).wf(),
            closed@ == Self::closed_of(old(self).links()),
            Self::closed_listed(old(self).links(), closed@),
            Self::peers_forgotten(*old(self), *final(self), closed@),
            final(self).spec_peer_id() == old(self).spec_peer_id(),
            final(self).files().len() == old(self).files().len(),
            forall|peer_id: PeerId|
                has_link(final(self).links(), peer_id) ==> has_link(old(self).links(), peer_id),
            forall|at: int|
                0 <= at < final(self).links().len() ==> (
                #[trigger] final(self).links()[at]).spec_state()
                    != crate::remote_peer::RemotePeerState::Closed,
            forall|f: int|
                0 <= f < final(self).files().len() ==> (
                #[trigger] final(self).files()[f]).spec_file() == old(self).files()[f].spec_file()
                    && final(self).files()[f].recent() == old(self).files()[f].recent(),
    {
        let closed = self.closed_peers();
        let mut at: usize = 0;
        proof {
            assert forall|b: int|
                0 <= b < self.links().len() && (#[trigger] self.links()[b]).spec_state()
                    == crate::remote_peer::RemotePeerState::Closed implies exists|c: int|
                0 <= c < closed@.len() && closed@[c] == self.links()[b].spec_peer_id() by {
                assert(closed@.contains(self.links()[b].spec_peer_id()));
            }
        }
        while at < closed.len()
            invariant
                at <= closed@.len(),
                self.wf(),
                self.spec_peer_id() == old(self).spec_peer_id(),
                self.files().len() == old(self).files().len(),
                forall|peer_id: PeerId|
                    has_link(self.links(), peer_id) ==> has_link(old(self).links(), peer_id),
                forall|b: int|
                    0 <= b < self.links().len() && (#[trigger] self.links()[b]).spec_state()
                        == crate::remote_peer::RemotePeerState::Closed ==> exists|c: int|
                        at <= c < closed@.len() && closed@[c] == self.links()[b].spec_peer_id(),
                forall|f: int|
                    0 <= f < self.files().len() ==> (#[trigger] self.files()[f]).spec_file() == old(
                        self,
                    ).files()[f].spec_file() && self.files()[f].recent() == old(
                        self,
                    ).files()[f].recent(),
                Self::peers_forgotten(*old(self), *self, closed@.take(at as int)),
            decreases closed@.len() - at,
        {
            let ghost before = *self;
            self.remove_peer(closed[at]);
            proof {
                assert(closed@.take(at + 1).drop_last() =~= closed@.take(at as int));
                assert(closed@.take(at + 1).last() == closed@[at as int]);
                assert(Self::peer_forgotten(before, *self, closed@[at as int]));
                assert forall|b: int|
                    0 <= b < self.links().len() && (#[trigger] self.links()[b]).spec_state()
                        == crate::remote_peer::RemotePeerState::Closed implies exists|c: int|
                    at + 1 <= c < closed@.len() && closed@[c] == self.links()[b].spec_peer_id() by {
                    let peer_id = self.links()[b].spec_peer_id();
                    assert(has_link(self.links(), peer_id));
                    assert(peer_id != closed@[at as int]);
                    assert(link_was_there(before.links(), self.links()[b]));
                    let d = choose|d: int|
                        0 <= d < before.links().len() && #[trigger] before.links()[d]
                            == self.links()[b];
                    assert(before.links()[d].spec_state()
                        == crate::remote_peer::RemotePeerState::Closed);
                    let c = choose|c: int|
                        at <= c < closed@.len() && closed@[c] == before.links()[d].spec_peer_id();
                    assert(c != at);
                    assert(at + 1 <= c < closed@.len() && closed@[c] == peer_id);
                }
                assert forall|f: int| 0 <= f < self.files().len() implies (
                #[trigger] self.files()[f]).spec_file() == old(self).files()[f].spec_file()
                    && self.files()[f].recent() == old(self).files()[f].recent() by {
                    assert(before.files()[f].spec_file() == old(self).files()[f].spec_file());
                    if before.files()[f].peers().contains_key(closed@[at as int].0) {
                        assert(SharedFile::peer_removed(
                            before.files()[f],
                            self.files()[f],
                            closed@[at as int],
                        ));
                    }
                }
                assert forall|peer_id: PeerId| has_link(self.links(), peer_id) implies has_link(
                    old(self).links(),
                    peer_id,
                ) by {
                    assert(peer_id != closed@[at as int]);
                    assert(has_link(before.links(), peer_id));
                }
            }
            at += 1;
        }
        assert(closed@.take(at as int) =~= closed@);
        closed
    }

    /// Whether a file is as it was but for peers that are now taken to
    /// hold pieces that they were not taken to hold.
    pub open spec fn only_grown(was: SharedFile<C, CHUNK_SIZE>, now: SharedFile<C, CHUNK_SIZE>) -> bool {
        &&& now.spec_file() == was.spec_file()
        &&& now.views().len() == was.views().len()
        &&& forall|k: int|
            0 <= k < was.views().len() ==> (#[trigger] now.views()[k]).peer_id
                == was.views()[k].peer_id && now.views()[k].possible.len()
                == was.views()[k].possible.len()
        &&& forall|k: int, piece: int|
            0 <= k < was.views().len() && 0 <= piece < was.views()[k].possible.len()
                && was.views()[k].possible[piece] ==> #[trigger] now.views()[k].possible[piece]
    }

    /// Whether a message carries a piece of the file at place `f` to the
    /// peer at place `k` of that file, which was not taken to hold the
    /// piece and now is.
    pub open spec fn brought_at(
        was: Seq<SharedFile<C, CHUNK_SIZE>>,
        now: Seq<SharedFile<C, CHUNK_SIZE>>,
        sent: Outgoing,
        f: int,
        k: int,
    ) -> bool {
        &&& 0 <= f < was.len()
        &&& 0 <= k < was[f].views().len()
        &&& was[f].views()[k].peer_id == sent.peer_id
        &&& sent.message matches PeerPeerMessage::FilePiece { sha256, piece_idx, bytes }
            && sha256.0@ == was[f].spec_file().metadata_view().sha256 && piece_idx.0
            < was[f].views()[k].possible.len() && !was[f].views()[k].possible[piece_idx.0 as int]
            && now[f].views()[k].possible[piece_idx.0 as int]
    }

    /// Whether a message carries a piece to a peer that was not taken to
    /// hold it and now is.
    pub open spec fn brings_new(
        was: Seq<SharedFile<C, CHUNK_SIZE>>,
        now: Seq<SharedFile<C, CHUNK_SIZE>>,
        sent: Outgoing,
    ) -> bool {
        exists|f: int, k: int| #[trigger] Self::brought_at(was, now, sent, f, k)
    }

    /// Whether two messages carry one piece of one file to one peer.
    pub open spec fn same_piece_for_same_peer(first: Outgoing, second: Outgoing) -> bool {
        &&& first.peer_id == second.peer_id
        &&& first.message matches PeerPeerMessage::FilePiece { sha256, piece_idx, bytes }
            && second.message matches PeerPeerMessage::FilePiece {
            sha256: other_sha256,
            piece_idx: other_idx,
            bytes: other_bytes,
        } && sha256.0@ == other_sha256.0@ && piece_idx == other_idx
    }

    /// What sending a run of pieces does, whenever each of them goes out:
    /// each message is a piece sent from the files as the one before left
    /// them.
    pub open spec fn pieces_gone(
        before: Seq<SharedFile<C, CHUNK_SIZE>>,
        after: Seq<SharedFile<C, CHUNK_SIZE>>,
        sent: Seq<Outgoing>,
    ) -> bool
        decreases sent.len(),
    {
        if sent.len() == 0 {
            after == before
        } else {
            exists|between: Seq<SharedFile<C, CHUNK_SIZE>>, candidate: QueueItem, time: Time|
                {
                    &&& Self::pieces_gone(before, between, sent.drop_last())
                    &&& #[trigger] Self::piece_sent(between, after, candidate, time, sent.last())
                }
        }
    }

    /// Pieces that are drawn from a pool are a run of pieces that go out.
    pub proof fn lemma_drawn_pieces_are_gone(
        before: Seq<SharedFile<C, CHUNK_SIZE>>,
        pool: Seq<QueueItem>,
        after: Seq<SharedFile<C, CHUNK_SIZE>>,
        left: Seq<QueueItem>,
        time: Time,
        sent: Seq<Outgoing>,
    )
        requires
            Self::pieces_drawn(before, pool, after, left, time, sent),
        ensures
            Self::pieces_gone(before, after, sent),
        decreases sent.len(),
    {
        if sent.len() > 0 {
            let (between, waiting, candidate) = choose|
                between: Seq<SharedFile<C, CHUNK_SIZE>>,
                waiting: Seq<QueueItem>,
                candidate: QueueItem,
            |
                {
                    &&& Self::pieces_drawn(before, pool, between, waiting, time, sent.drop_last())
                    &&& #[trigger] Self::piece_drawn(
                        between,
                        waiting,
                        after,
                        left,
                        candidate,
                        time,
                        sent.last(),
                    )
                };
            Self::lemma_drawn_pieces_are_gone(
                before,
                pool,
                between,
                waiting,
                time,
                sent.drop_last(),
            );
            assert(Self::piece_sent(between, after, candidate, time, sent.last()));
        }
    }

    /// The pieces that one round picks are a run of pieces that go out.
    pub proof fn lemma_picked_pieces_are_gone(
        before: Seq<SharedFile<C, CHUNK_SIZE>>,
        after: Seq<SharedFile<C, CHUNK_SIZE>>,
        time: Time,
        sent: Seq<Outgoing>,
    )
        requires
            Self::pieces_sent(before, after, time, sent),
        ensures
            Self::pieces_gone(before, after, sent),
    {
        let left = choose|left: Seq<QueueItem>| #[trigger]
            Self::pieces_drawn(before, FileSharingSelector::rarest(before), after, left, time, sent);
        Self::lemma_drawn_pieces_are_gone(
            before,
            FileSharingSelector::rarest(before),
            after,
            left,
            time,
            sent,
        );
    }

    /// One run of pieces that go out after another is a run of pieces that
    /// go out.
    pub proof fn lemma_pieces_gone_in_a_row(
        first: Seq<SharedFile<C, CHUNK_SIZE>>,
        middle: Seq<SharedFile<C, CHUNK_SIZE>>,
        last: Seq<SharedFile<C, CHUNK_SIZE>>,
        earlier: Seq<Outgoing>,
        later: Seq<Outgoing>,
    )
        requires
            Self::pieces_gone(first, middle, earlier),
            Self::pieces_gone(middle, last, later),
        ensures
            Self::pieces_gone(first, last, earlier + later),
        decreases later.len(),
    {
        if later.len() == 0 {
            assert(earlier + later =~= earlier);
        } else {
            let (between, candidate, time) = choose|
                between: Seq<SharedFile<C, CHUNK_SIZE>>,
                candidate: QueueItem,
                time: Time,
            |
                {
                    &&& Self::pieces_gone(middle, between, later.drop_last())
                    &&& #[trigger] Self::piece_sent(between, last, candidate, time, later.last())
                };
            Self::lemma_pieces_gone_in_a_row(first, middle, between, earlier, later.drop_last());
            assert((earlier + later).drop_last() =~= earlier + later.drop_last());
            assert((earlier + later).last() == later.last());
            assert(Self::piece_sent(between, last, candidate, time, (earlier + later).last()));
        }
    }

    /// Whether a message carries a given piece of the file at place `f`,
    /// with the bytes that the file holds for it, to the peer at place `k`
    /// of that file.
    pub open spec fn carries_to(
        files: Seq<SharedFile<C, CHUNK_SIZE>>,
        sent: Outgoing,
        f: int,
        k: int,
        piece: int,
    ) -> bool {
        &&& sent.bounded
        &&& sent.peer_id == files[f].views()[k].peer_id
        &&& sent.message matches PeerPeerMessage::FilePiece { sha256, piece_idx, bytes }
            && sha256.0@ == files[f].spec_file().metadata_view().sha256 && piece_idx.0 == piece
            && bytes@ == files[f].spec_file().piece(piece)
    }

    /// Over a run of pieces that go out, a peer comes to be taken to hold
    /// a piece only by a message that carries that piece to it.
    pub proof fn lemma_new_piece_was_brought(
        before: Seq<SharedFile<C, CHUNK_SIZE>>,
        after: Seq<SharedFile<C, CHUNK_SIZE>>,
        sent: Seq<Outgoing>,
        f: int,
        k: int,
        piece: int,
    )
        requires
            Self::pieces_gone(before, after, sent),
            forall|a: int, b: int|
                0 <= a < before.len() && 0 <= b < before.len() && (
                #[trigger] before[a]).spec_file().metadata_view().sha256 == (
                #[trigger] before[b]).spec_file().metadata_view().sha256 ==> a == b,
            0 <= f < before.len(),
            0 <= k < before[f].views().len(),
            0 <= piece < before[f].views()[k].possible.len(),
            !before[f].views()[k].possible[piece],
            after[f].views()[k].possible[piece],
        ensures
            exists|j: int| 0 <= j < sent.len() && Self::carries_to(before, #[trigger] sent[j], f, k, piece),
        decreases sent.len(),
    {
        if sent.len() > 0 {
            let init = sent.drop_last();
            let last = sent.last();
            let (between, candidate, time) = choose|
                between: Seq<SharedFile<C, CHUNK_SIZE>>,
                candidate: QueueItem,
                time: Time,
            |
                {
                    &&& Self::pieces_gone(before, between, init)
                    &&& #[trigger] Self::piece_sent(between, after, candidate, time, last)
                };
            Self::lemma_pieces_go_out_once(before, between, init);
            assert(Self::only_grown(before[f], between[f]));
            if between[f].views()[k].possible[piece] {
                Self::lemma_new_piece_was_brought(before, between, init, f, k, piece);
                let j = choose|j: int|
                    0 <= j < init.len() && Self::carries_to(before, #[trigger] init[j], f, k, piece);
                assert(sent[j] == init[j]);
            } else {
                let f0 = candidate.file_idx as int;
                let was = between[f0];
                let now = after[f0];
                assert(was.wf());
                assert(was.spec_select(candidate.piece_idx) is Ok);
                SharedFile::lemma_piece_goes_to_a_peer_without_it(
                    was,
                    now,
                    candidate.piece_idx,
                    time,
                    last.peer_id,
                );
                if f != f0 {
                    assert(after[f] == between[f]);
                }
                assert(Self::only_grown(before[f0], between[f0]));
                assert(sent[sent.len() - 1] == last);
                assert(Self::carries_to(before, last, f, k, piece));
            }
        }
    }

    /// Whether the walk of every piece of every file comes back to every
    /// peer of the file.
    pub open spec fn walks_turn_round(files: Seq<SharedFile<C, CHUNK_SIZE>>) -> bool {
        forall|f: int, piece: int|
            0 <= f < files.len() && 0 <= piece < files[f].spec_num_pieces()
                ==> crate::stride::step_turns_round(
                #[trigger] crate::stride::stride_multiplier(piece, files[f].views().len() as int),
                files[f].views().len() as int,
            )
    }

    /// While every walk comes back to every peer, pieces can be taken
    /// until every peer with a bitmap is taken to hold every piece that is
    /// present here.
    pub proof fn lemma_every_peer_is_served(
        files: Seq<SharedFile<C, CHUNK_SIZE>>,
        f: int,
        k: int,
        piece: int,
    )
        requires
            files.len() <= usize::MAX,
            forall|g: int| 0 <= g < files.len() ==> (#[trigger] files[g]).wf(),
            Self::walks_turn_round(files),
            !FileSharingSelector::some_can_be_taken(Seq::<QueueItem>::empty(), files),
            0 <= f < files.len(),
            0 <= k < files[f].views().len(),
            0 <= piece < files[f].local().len(),
            files[f].local()[piece],
        ensures
            files[f].views()[k].possible[piece],
    {
        if !files[f].views()[k].possible[piece] {
            let file = files[f];
            file.lemma_confirmed_within_possible(k, piece);
            file.lemma_remote_is_meet(piece);
            assert(file.queues().contains(piece));
            file.lemma_queued_piece(piece);
            crate::shared_file::lemma_every_peer_may_hold(file.views(), piece);
            file.queues().lemma_entry_in_queue(piece);
            let count = file.queues().data(piece).num_possible_owners.0 as int;
            file.queues().lemma_min_key_is_least(count);
            assert(crate::file_sharing_selector::file_key(file) is Some);
            crate::file_sharing_selector::lemma_lowest_key(files);
            assert(lowest_key(files) is Some);
            let lowest = lowest_key(files)->0;
            let g = choose|g: int|
                0 <= g < files.len() && crate::file_sharing_selector::file_key(
                    #[trigger] files[g],
                ) == Some(lowest);
            let rare = files[g];
            rare.queues().lemma_min_key();
            let piece_idx = rare.queues().queue(lowest)[0];
            crate::file_sharing_selector::lemma_pool_holds(files, lowest, g, 0);
            let candidate = QueueItem { file_idx: g as usize, piece_idx };
            assert(FileSharingSelector::among_rarest(files, candidate));
            rare.queues().lemma_queue_holds_entries(lowest, 0);
            rare.lemma_queued_piece(piece_idx.0 as int);
            crate::shared_file::lemma_every_peer_may_hold(rare.views(), piece_idx.0 as int);
            let lacking = choose|lacking: int|
                0 <= lacking < rare.views().len() && !(#[trigger] rare.views()[lacking]).possible[piece_idx.0 as int];
            assert(crate::stride::step_turns_round(
                crate::stride::stride_multiplier(piece_idx.0 as int, rare.views().len() as int),
                rare.views().len() as int,
            ));
            rare.lemma_piece_goes_while_a_peer_lacks_it(piece_idx, lacking);
            assert(FileSharingSelector::can_be_taken(files, candidate));
            assert(FileSharingSelector::offered(Seq::<QueueItem>::empty(), files, candidate));
            assert(false);
        }
    }

    /// While every walk comes back to every peer, a round that could have
    /// picked more pieces than it did has sent each piece that is present
    /// here to each peer that was not taken to hold it: so a piece that
    /// was given up as lost goes to its peer again.
    pub proof fn lemma_round_with_room_delivers(
        was: Self,
        now: Self,
        num_pieces_to_be_sent: usize,
        time: Time,
        r: Seq<Outgoing>,
        f: int,
        k: int,
        piece: int,
    )
        requires
            was.wf(),
            now.wf(),
            Self::pieces_picked(was, now, num_pieces_to_be_sent, time, r),
            r.len() < num_pieces_to_be_sent,
            Self::walks_turn_round(now.files()),
            was.files().len() <= usize::MAX,
            0 <= f < was.files().len(),
            0 <= k < was.files()[f].views().len(),
            0 <= piece < was.files()[f].local().len(),
            was.files()[f].local()[piece],
            !was.files()[f].views()[k].possible[piece],
        ensures
            exists|j: int| 0 <= j < r.len() && Self::carries_to(was.files(), #[trigger] r[j], f, k, piece),
    {
        let before = was.files();
        let after = now.files();
        Self::lemma_picked_pieces_are_gone(before, after, time, r);
        assert forall|a: int, b: int|
            0 <= a < before.len() && 0 <= b < before.len() && (
            #[trigger] before[a]).spec_file().metadata_view().sha256 == (
            #[trigger] before[b]).spec_file().metadata_view().sha256 implies a == b by {
            assert(was.sha256_at(a) == was.sha256_at(b));
        }
        Self::lemma_pieces_go_out_once(before, after, r);
        assert(Self::only_grown(before[f], after[f]));
        assert(before[f].wf());
        assert(after[f].wf());
        Self::lemma_every_peer_is_served(after, f, k, piece);
        Self::lemma_new_piece_was_brought(before, after, r, f, k, piece);
    }

    /// With one file and one peer that has told its bitmap, a round that
    /// may pick as many pieces as the peer is not taken to hold sends each
    /// piece that is present here and that the peer is not taken to hold:
    /// so a piece that was given up as lost goes to the peer again.
    pub proof fn lemma_single_peer_round_delivers(
        was: Self,
        now: Self,
        num_pieces_to_be_sent: usize,
        time: Time,
        r: Seq<Outgoing>,
        piece: int,
    )
        requires
            was.wf(),
            now.wf(),
            Self::pieces_picked(was, now, num_pieces_to_be_sent, time, r),
            was.files().len() == 1,
            was.files()[0].views().len() == 1,
            num_pieces_to_be_sent >= was.files()[0].local().len() - count_ones(
                was.files()[0].views()[0].possible,
            ),
            0 <= piece < was.files()[0].local().len(),
            was.files()[0].local()[piece],
            !was.files()[0].views()[0].possible[piece],
        ensures
            exists|j: int| 0 <= j < r.len() && Self::carries_to(was.files(), #[trigger] r[j], 0, 0, piece),
    {
        let before = was.files();
        let after = now.files();
        Self::lemma_picked_pieces_are_gone(before, after, time, r);
        Self::lemma_single_peer_counts_up(before, after, r);
        let bits = after[0].views()[0].possible;
        assert(after[0].wf());
        assert(before[0].wf());
        assert(bits.len() == after[0].local().len());
        if r.len() < num_pieces_to_be_sent {
            Self::lemma_single_peer_is_served(after);
        } else {
            crate::bits::lemma_count_ones_bound(bits);
            crate::bits::lemma_count_ones_full(bits);
        }
        assert(bits[piece]);
        Self::lemma_new_piece_was_brought(before, after, r, 0, 0, piece);
    }

    /// With one file and one peer that has told its bitmap, each piece
    /// that goes out is one more piece that the peer is taken to hold: so
    /// no more pieces go out, in however many rounds, than the peer was not
    /// taken to hold.
    pub proof fn lemma_single_peer_counts_up(
        before: Seq<SharedFile<C, CHUNK_SIZE>>,
        after: Seq<SharedFile<C, CHUNK_SIZE>>,
        sent: Seq<Outgoing>,
    )
        requires
            Self::pieces_gone(before, after, sent),
            before.len() == 1,
            before[0].views().len() == 1,
        ensures
            after.len() == 1,
            after[0].views().len() == 1,
            after[0].views()[0].possible.len() == before[0].views()[0].possible.len(),
            count_ones(after[0].views()[0].possible) == count_ones(before[0].views()[0].possible)
                + sent.len(),
            sent.len() <= before[0].views()[0].possible.len() - count_ones(
                before[0].views()[0].possible,
            ),
        decreases sent.len(),
    {
        crate::bits::lemma_count_ones_bound(after[0].views()[0].possible);
        if sent.len() > 0 {
            let init = sent.drop_last();
            let last = sent.last();
            let (between, candidate, time) = choose|
                between: Seq<SharedFile<C, CHUNK_SIZE>>,
                candidate: QueueItem,
                time: Time,
            |
                {
                    &&& Self::pieces_gone(before, between, init)
                    &&& #[trigger] Self::piece_sent(between, after, candidate, time, last)
                };
            Self::lemma_single_peer_counts_up(before, between, init);
            let was = between[0];
            let now = after[0];
            assert(candidate.file_idx == 0);
            assert(was.wf());
            assert(was.spec_select(candidate.piece_idx) is Ok);
            let piece = candidate.piece_idx.0 as int;
            let shift = was.queues().data(piece).peer_shift.0 + was.spec_select(
                candidate.piece_idx,
            )->Ok_0;
            crate::stride::lemma_stride_index_bound(piece, 1, shift);
            SharedFile::lemma_piece_goes_to_a_peer_without_it(
                was,
                now,
                candidate.piece_idx,
                time,
                last.peer_id,
            );
            assert(now.views()[0].possible =~= was.views()[0].possible.update(piece, true));
            crate::bits::lemma_count_ones_update(was.views()[0].possible, piece, true);
            crate::bits::lemma_count_ones_bound(now.views()[0].possible);
        }
    }

    /// With one file and one peer that has told its bitmap, pieces can be
    /// taken until the peer is taken to hold every piece that is present
    /// here.
    pub proof fn lemma_single_peer_is_served(files: Seq<SharedFile<C, CHUNK_SIZE>>)
        requires
            files.len() == 1,
            files[0].wf(),
            files[0].views().len() == 1,
            !FileSharingSelector::some_can_be_taken(Seq::<QueueItem>::empty(), files),
        ensures
            forall|piece: int|
                0 <= piece < files[0].local().len() && files[0].local()[piece]
                    ==> #[trigger] files[0].views()[0].possible[piece],
    {
        let file = files[0];
        assert forall|piece: int|
            0 <= piece < file.local().len() && file.local()[piece] implies #[trigger] file.views()[0].possible[piece] by {
            if !file.views()[0].possible[piece] {
                let piece_idx = FilePieceIdx(piece as usize);
                file.lemma_confirmed_within_possible(0, piece);
                file.lemma_remote_is_meet(piece);
                assert(file.queues().contains(piece));
                file.lemma_queued_piece(piece);
                let column = crate::peer_views::possible_column(file.views(), piece);
                assert(!column[0]);
                crate::bits::lemma_count_ones_none(column);
                file.queues().lemma_entry_in_queue(piece);
                file.queues().lemma_min_key_is_least(0);
                file.queues().lemma_min_key();
                assert(crate::file_sharing_selector::file_key(file) == Some(0int));
                reveal_with_fuel(lowest_key, 2);
                reveal_with_fuel(pool_of, 2);
                assert(files.last() == file);
                assert(lowest_key(files) == Some(0int));
                let pool = pool_of(files, 0);
                let own = crate::file_sharing_selector::file_candidates(0, file, 0);
                assert(pool =~= own);
                let at = file.queues().offset(piece);
                let candidate = QueueItem { file_idx: 0, piece_idx };
                assert(own[at] == candidate);
                assert(pool.contains(candidate));
                assert(FileSharingSelector::among_rarest(files, candidate));
                let shift = file.queues().data(piece).peer_shift.0 as int;
                crate::stride::lemma_stride_index_bound(piece, 1, shift + 0);
                assert(file.spec_select(piece_idx) is Ok);
                assert(FileSharingSelector::can_be_taken(files, candidate));
                assert(FileSharingSelector::offered(
                    Seq::<QueueItem>::empty(),
                    files,
                    candidate,
                ));
                assert(false);
            }
        }
    }

    /// While every peer with a bitmap may hold every piece, no piece can
    /// be taken, whatever waits in the pool.
    pub proof fn lemma_nothing_goes_when_all_is_out(
        pending: Seq<QueueItem>,
        files: Seq<SharedFile<C, CHUNK_SIZE>>,
    )
        requires
            forall|f: int| 0 <= f < files.len() ==> (#[trigger] files[f]).wf(),
            forall|f: int, piece: int|
                0 <= f < files.len() && 0 <= piece < files[f].spec_num_pieces()
                    ==> #[trigger] crate::peer_views::num_possible_owners(files[f].views(), piece)
                    == files[f].views().len(),
        ensures
            !FileSharingSelector::some_can_be_taken(pending, files),
    {
        assert forall|candidate: QueueItem|
            !#[trigger] FileSharingSelector::can_be_taken(files, candidate) by {
            if candidate.file_idx < files.len() && candidate.piece_idx.0
                < files[candidate.file_idx as int].spec_num_pieces() {
                let file = files[candidate.file_idx as int];
                assert(crate::peer_views::num_possible_owners(
                    file.views(),
                    candidate.piece_idx.0 as int,
                ) == file.views().len());
                file.lemma_fully_owned_piece_is_not_selected(candidate.piece_idx);
            }
        }
    }

    /// Over a run of pieces that go out, in one round or in several, each
    /// piece goes to a peer that was not taken to hold it and is taken to
    /// hold it afterwards; no piece goes to one peer twice; and what a peer
    /// is taken to hold only grows.
    pub proof fn lemma_pieces_go_out_once(
        before: Seq<SharedFile<C, CHUNK_SIZE>>,
        after: Seq<SharedFile<C, CHUNK_SIZE>>,
        sent: Seq<Outgoing>,
    )
        requires
            Self::pieces_gone(before, after, sent),
            forall|a: int, b: int|
                0 <= a < before.len() && 0 <= b < before.len() && (
                #[trigger] before[a]).spec_file().metadata_view().sha256 == (
                #[trigger] before[b]).spec_file().metadata_view().sha256 ==> a == b,
        ensures
            after.len() == before.len(),
            forall|f: int|
                0 <= f < before.len() ==> Self::only_grown(before[f], #[trigger] after[f]),
            forall|j: int|
                0 <= j < sent.len() ==> Self::brings_new(before, after, #[trigger] sent[j]),
            forall|a: int, b: int|
                0 <= a < b < sent.len() ==> !Self::same_piece_for_same_peer(
                    #[trigger] sent[a],
                    #[trigger] sent[b],
                ),
        decreases sent.len(),
    {
        if sent.len() > 0 {
            let init = sent.drop_last();
            let last = sent.last();
            let (between, candidate, time) = choose|
                between: Seq<SharedFile<C, CHUNK_SIZE>>,
                candidate: QueueItem,
                time: Time,
            |
                {
                    &&& Self::pieces_gone(before, between, init)
                    &&& #[trigger] Self::piece_sent(between, after, candidate, time, last)
                };
            Self::lemma_pieces_go_out_once(before, between, init);
            let f0 = candidate.file_idx as int;
            let was = between[f0];
            let now = after[f0];
            assert(was.wf());
            assert(was.spec_select(candidate.piece_idx) is Ok);
            let piece = candidate.piece_idx.0 as int;
            let k0 = crate::stride::stride_index(
                piece,
                was.views().len() as int,
                was.queues().data(piece).peer_shift.0 + was.spec_select(candidate.piece_idx)->Ok_0,
            );
            SharedFile::lemma_piece_goes_to_a_peer_without_it(
                was,
                now,
                candidate.piece_idx,
                time,
                last.peer_id,
            );
            assert(Self::only_grown(before[f0], between[f0]));
            assert forall|f: int| 0 <= f < before.len() implies Self::only_grown(
                before[f],
                #[trigger] after[f],
            ) by {
                assert(Self::only_grown(before[f], between[f]));
                if f != f0 {
                    assert(after[f] == between[f]);
                }
            }
            assert(Self::brought_at(before, after, last, f0, k0));
            assert forall|j: int| 0 <= j < sent.len() implies Self::brings_new(
                before,
                after,
                #[trigger] sent[j],
            ) by {
                if j < init.len() {
                    assert(sent[j] == init[j]);
                    let (f, k) = choose|f: int, k: int| #[trigger]
                        Self::brought_at(before, between, init[j], f, k);
                    assert(Self::only_grown(before[f], between[f]));
                    if f != f0 {
                        assert(after[f] == between[f]);
                    }
                    assert(Self::brought_at(before, after, sent[j], f, k));
                } else {
                    assert(sent[j] == last);
                }
            }
            assert forall|a: int, b: int| 0 <= a < b < sent.len() implies !Self::same_piece_for_same_peer(
                #[trigger] sent[a],
                #[trigger] sent[b],
            ) by {
                assert(sent[a] == init[a]);
                if b < init.len() {
                    assert(sent[b] == init[b]);
                } else {
                    assert(sent[b] == last);
                    if Self::same_piece_for_same_peer(sent[a], last) {
                        let (f, k) = choose|f: int, k: int| #[trigger]
                            Self::brought_at(before, between, init[a], f, k);
                        assert(Self::only_grown(before[f], between[f]));
                        assert(f == f0);
                        was.lemma_one_bitmap_for_each_peer(k, k0);
                        assert(false);
                    }
                }
            }
        }
    }

    /// The messages of a round: those that tell bitmaps and acknowledge
    /// pieces come first, are not bounded and go to peers whose links are
    /// open; those with pieces come last and are bounded.
    proof fn lemma_round_messages(
        purged: Self,
        told_at: Self,
        acked_at: Self,
        given_up: Self,
        now: Self,
        params: SenderParams,
        time: Time,
        told: Seq<Outgoing>,
        acked: Seq<Outgoing>,
        picked: Seq<Outgoing>,
    )
        requires
            Self::state_told(
                purged,
                told_at,
                time.spec_saturating_sub(params.state_resend_interval),
                time,
                told,
            ),
            Self::received_told(told_at, acked_at, acked),
            Self::pieces_given_up(
                acked_at,
                given_up,
                time.spec_saturating_sub(params.piece_resend_interval),
            ),
            Self::pieces_picked(given_up, now, params.num_pieces_to_be_sent, time, picked),
        ensures
            now.links() == purged.links(),
            now.spec_peer_id() == purged.spec_peer_id(),
            now.files().len() == purged.files().len(),
            forall|f: int|
                0 <= f < now.files().len() ==> (#[trigger] now.files()[f]).recent() == Seq::<
                    FilePieceIdx,
                >::empty() && now.files()[f].spec_file() == purged.files()[f].spec_file(),
            forall|a: int, b: int|
                0 <= a <= b < (told + acked + picked).len() && (told + acked + picked)[a].bounded ==> (
                told + acked + picked)[b].bounded,
            forall|j: int|
                0 <= j < (told + acked + picked).len() && (#[trigger] (told + acked
                    + picked)[j]).bounded ==> Self::carries_piece(
                    now.files(),
                    (told + acked + picked)[j],
                ),
            forall|j: int|
                0 <= j < (told + acked + picked).len() && !(#[trigger] (told + acked
                    + picked)[j]).bounded ==> link_ready(
                    now.links(),
                    (told + acked + picked)[j].peer_id,
                ) && ((told + acked + picked)[j].message is FileMissing || (told + acked
                    + picked)[j].message is FileComplete || (told + acked
                    + picked)[j].message is FileState || (told + acked
                    + picked)[j].message is FilePiecesReceived),
    {
        let out = told + acked + picked;
        assert forall|f: int| 0 <= f < now.files().len() implies (
        #[trigger] now.files()[f]).recent() == Seq::<FilePieceIdx>::empty()
            && now.files()[f].spec_file() == purged.files()[f].spec_file() by {
            assert(told_at.files()[f].spec_file() == purged.files()[f].spec_file());
            assert(acked_at.files()[f].recent() == Seq::<FilePieceIdx>::empty());
            assert(SharedFile::stale_given_up(
                acked_at.files()[f],
                given_up.files()[f],
                time.spec_saturating_sub(params.piece_resend_interval),
            ));
        }
        assert(now.links() == purged.links());
        assert forall|j: int| 0 <= j < told.len() implies !(#[trigger] told[j]).bounded
            && link_ready(purged.links(), told[j].peer_id) && (told[j].message is FileMissing
            || told[j].message is FileComplete || told[j].message is FileState) by {
            assert(Self::tells_state(
                purged.files(),
                purged.links(),
                time.spec_saturating_sub(params.state_resend_interval),
                told[j],
                purged.files().len() as int,
            ));
        }
        assert forall|j: int| 0 <= j < acked.len() implies !(#[trigger] acked[j]).bounded
            && link_ready(purged.links(), acked[j].peer_id)
            && acked[j].message is FilePiecesReceived by {
            assert(Self::tells_received(
                told_at.files(),
                told_at.links(),
                acked[j],
                told_at.files().len() as int,
            ));
        }
        assert forall|j: int| 0 <= j < picked.len() implies (#[trigger] picked[j]).bounded by {
            assert(Self::carries_piece(now.files(), picked[j]));
        }
        assert forall|j: int| 0 <= j < out.len() && (#[trigger] out[j]).bounded implies Self::carries_piece(
            now.files(),
            out[j],
        ) by {
            if j < told.len() {
                assert(out[j] == told[j]);
            } else if j < told.len() + acked.len() {
                assert(out[j] == acked[j - told.len()]);
            } else {
                assert(out[j] == picked[j - told.len() - acked.len()]);
            }
        }
        assert forall|j: int| 0 <= j < out.len() && !(#[trigger] out[j]).bounded implies link_ready(
            now.links(),
            out[j].peer_id,
        ) && (out[j].message is FileMissing || out[j].message is FileComplete
            || out[j].message is FileState || out[j].message is FilePiecesReceived) by {
            if j < told.len() {
                assert(out[j] == told[j]);
            } else if j < told.len() + acked.len() {
                assert(out[j] == acked[j - told.len()]);
            } else {
                assert(out[j] == picked[j - told.len() - acked.len()]);
            }
        }
        assert forall|a: int, b: int| 0 <= a <= b < out.len() && out[a].bounded implies out[b].bounded by {
            if a < told.len() {
                assert(out[a] == told[a]);
            } else if a < told.len() + acked.len() {
                assert(out[a] == acked[a - told.len()]);
            } else {
                assert(out[b] == picked[b - told.len() - acked.len()]);
            }
        }
    }

    /// One round of the sender: the links that have closed go, with their
    /// peers; the bitmaps are told where due; the newly arrived pieces are
    /// acknowledged; the pieces that went out too long ago are given up;
    /// and new pieces are picked. The messages come in that order, and
    /// only those with pieces are bounded.
    pub fn tick(&mut self, params: &SenderParams, now: Time, rng: &mut ChaCha8Rng) -> (r: Vec<
        Outgoing,
    >)
        requires
            old(self).wf(),
        ensures
            final(self).wf(),
            final(self).spec_peer_id() == old(self).spec_peer_id(),
            final(self).files().len() == old(self).files().len(),
            forall|peer_id: PeerId|
                has_link(final(self).links(), peer_id) ==> has_link(old(self).links(), peer_id),
            forall|at: int|
                0 <= at < final(self).links().len() ==> (
                #[trigger] final(self).links()[at]).spec_state()
                    != crate::remote_peer::RemotePeerState::Closed,
            forall|f: int|
                0 <= f < final(self).files().len() ==> (
                #[trigger] final(self).files()[f]).recent() == Seq::<FilePieceIdx>::empty()
                    && final(self).files()[f].spec_file() == old(self).files()[f].spec_file(),
            forall|a: int, b: int| 0 <= a <= b < r@.len() && r@[a].bounded ==> r@[b].bounded,
            forall|j: int|
                0 <= j < r@.len() && (#[trigger] r@[j]).bounded ==> Self::carries_piece(
                    final(self).files(),
                    r@[j],
                ),
            forall|j: int|
                0 <= j < r@.len() && !(#[trigger] r@[j]).bounded ==> link_ready(
                    final(self).links(),
                    r@[j].peer_id,
                ) && (r@[j].message is FileMissing || r@[j].message is FileComplete
                    || r@[j].message is FileState || r@[j].message is FilePiecesReceived),
            Self::round_done(*old(self), *final(self), *params, now, r@),
    {
        let closed = self.forget_closed();
        let ghost purged = *self;
        let resend_before = now.saturating_sub(params.state_resend_interval);
        let mut out = self.send_state_to_remote_peers(resend_before, now);
        let ghost told = out@;
        let ghost purged_told = *self;
        let mut acks = self.send_recently_received_to_remote_peers();
        let ghost acked = acks@;
        let ghost acked_at = *self;
        out.append(&mut acks);
        self.resend_pieces_before(now.saturating_sub(params.piece_resend_interval));
        let ghost given_up = *self;
        let mut pieces = self.send_pieces_to_remote_peers(params.num_pieces_to_be_sent, now, rng);
        let ghost picked = pieces@;
        out.append(&mut pieces);
        proof {
            assert(out@ =~= told + acked + picked);
            assert(Self::round_steps(
                *old(self),
                closed@,
                purged,
                purged_told,
                acked_at,
                given_up,
                *self,
                *params,
                now,
                told,
                acked,
                picked,
            ));
            Self::lemma_round_messages(
                purged,
                purged_told,
                acked_at,
                given_up,
                *self,
                *params,
                now,
                told,
                acked,
                picked,
            );
        }
        out
    }
}

} // verus!
