//! What peers send each other about a file.
use vstd::prelude::*;
use crate::file_piece::FilePieceIdx;
use crate::protocol::Sha256;

verus! {

/// A message from one peer to another. Every message names its file by the
/// file's digest.
#[derive(Clone, Debug, PartialEq, Eq, Hash)]
pub enum PeerPeerMessage {
    /// The sender holds no piece of the file.
    FileMissing { sha256: Sha256 },
    /// The sender holds every piece of the file.
    FileComplete { sha256: Sha256 },
    /// The pieces that the sender holds, one bit for each piece.
    FileState { sha256: Sha256, state: Vec<bool> },
    /// The sender has taken note of the receiver's pieces.
    FileStateReceived { sha256: Sha256 },
    /// The bytes of one piece.
    FilePiece { sha256: Sha256, piece_idx: FilePieceIdx, bytes: Vec<u8> },
    /// The pieces that have arrived at the sender.
    FilePiecesReceived { sha256: Sha256, pieces: Vec<FilePieceIdx> },
    /// The sender no longer shares the file.
    FileRemoved { sha256: Sha256 },
}

impl PeerPeerMessage {
    /// The digest of the file that the message is about.
    pub open spec fn spec_sha256(&self) -> Sha256 {
        match *self {
            PeerPeerMessage::FileMissing { sha256 } => sha256,
            PeerPeerMessage::FileComplete { sha256 } => sha256,
            PeerPeerMessage::FileState { sha256, state } => sha256,
            PeerPeerMessage::FileStateReceived { sha256 } => sha256,
            PeerPeerMessage::FilePiece { sha256, piece_idx, bytes } => sha256,
            PeerPeerMessage::FilePiecesReceived { sha256, pieces } => sha256,
            PeerPeerMessage::FileRemoved { sha256 } => sha256,
        }
    }

    /// The digest of the file that the message is about.
    pub fn sha256(&self) -> (r: Sha256)
        ensures
            r == self.spec_sha256(),
    {
        match self {
            PeerPeerMessage::FileMissing { sha256 } => *sha256,
            PeerPeerMessage::FileComplete { sha256 } => *sha256,
            PeerPeerMessage::FileState { sha256, state: _ } => *sha256,
            PeerPeerMessage::FileStateReceived { sha256 } => *sha256,
            PeerPeerMessage::FilePiece { sha256, piece_idx: _, bytes: _ } => *sha256,
            PeerPeerMessage::FilePiecesReceived { sha256, pieces: _ } => *sha256,
            PeerPeerMessage::FileRemoved { sha256 } => *sha256,
        }
    }
}

} // verus!
