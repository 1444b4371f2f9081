//! The replication engine of a peer-to-peer file sharing swarm: per-file
//! piece bookkeeping, the rarest-first scheduler, and the messages that
//! drive them.
pub mod bitmap_words;
pub mod bits;
pub mod codec;
pub mod digest;
pub mod file;
pub mod file_chunk;
pub mod file_metadata;
pub mod file_piece;
pub mod file_sharing_selector;
pub mod file_pieces_queues;
pub mod file_state;
pub mod local_peer;
pub mod message;
pub mod params;
pub mod peer_views;
pub mod protocol;
pub mod random;
pub mod remote_peer;
pub mod shared_file;
pub mod stride;
pub mod time;
pub mod tracker;
pub mod vec_ext;

pub use bits::PieceBits;
pub use file::{
    File, FileFromError, FileGetPieceError, FileHasPieceError, FileSetPieceError, FileToBlobError,
    NewFileError, FILE_CHUNK_SIZE,
};
pub use file_chunk::FileChunk;
pub use file_metadata::{
    FileLen, FileMetaDataDecodeBase64Error, FileMetaDataEncodeBase64Error, FileMetadata,
};
pub use file_piece::{
    FilePieceData, FilePieceIdx, PieceNumConfirmedOwners, PieceNumPossibleOwners, PiecePeerShift,
    FILE_PIECE_SIZE,
};
pub use file_pieces_queues::{
    FilePiecesQueueGetError, FilePiecesQueueInsertError, FilePiecesQueuePiece,
    FilePiecesQueueRemoveError, FilePiecesQueues,
};
pub use file_sharing_selector::{FileSharingSelector, FileSharingSelectorData, QueueItem, SelectedPiece};
pub use file_state::{FileState, FileStatePieceError, FileStateSetStatus, FileStateUnsetStatus};
pub use protocol::{
    IceCandidate, PeerId, PeerTrackerMessage, SdpType, SessionDescription, Sha256,
    TrackerPeerMessage,
};
pub use local_peer::{LocalPeer, LocalPeerAddFileError, LocalPeerCommand, Outgoing};
pub use message::PeerPeerMessage;
pub use params::{
    default_tracker_address, pieces_per_tick, PeerParams, SenderParams,
    DEFAULT_MAX_DATACHANNEL_BUFFER_BYTES, DEFAULT_PEER_DATA_SEND_INTERVAL,
    DEFAULT_PIECE_RESEND_INTERVAL, DEFAULT_STATE_RESEND_INTERVAL,
    DEFAULT_UPLOAD_SPEED_BYTES_PER_SECOND,
};
pub use random::JsRandom;
pub use remote_peer::{
    PeerConnectionSendError, RemotePeer, RemotePeerEvent, RemotePeerKind, RemotePeerState,
};
pub use shared_file::{
    LocalStateStatusError, SentPiece, SharedFile, SharedFileAddLocalPieceError,
    SharedFileAddPeerError, SharedFileAddPeerStateError, SharedFileLocalStateStatus,
    SharedFileMarkError, SharedFileMarkForResendStatus, SharedFileMarkStatus, SharedFilePeer,
    SharedFilePeerState, SharedFileRemovePeerError, SharedFileRemovePeerStateError,
    SharedFileSelectPiecePeerError, SharedFileSetPeerStateError,
};
pub use time::Time;
pub use vec_ext::{PushAndReturnOffset, SetWithResizeDefault};
pub use tracker::{FilePeers, Relayed, State, StateAddFilePeerError};
