//! What can be set about a peer and its sender, with the values that hold
//! when nothing is set.
use vstd::prelude::*;

verus! {

/// The number of nanoseconds in a second.
pub const NANOS_PER_SECOND: u64 = 1_000_000_000;

/// The upload limit when none is set, in bytes per second.
pub const DEFAULT_UPLOAD_SPEED_BYTES_PER_SECOND: u64 = 1_048_576;

/// The most unsent bytes that a channel may hold when no limit is set.
pub const DEFAULT_MAX_DATACHANNEL_BUFFER_BYTES: u64 = 2_097_152;

/// The time between two rounds of the sender when none is set: a tenth of
/// a second.
pub const DEFAULT_PEER_DATA_SEND_INTERVAL: u64 = 100_000_000;

/// The time after which the local bitmap is told again when none is set:
/// ten seconds.
pub const DEFAULT_STATE_RESEND_INTERVAL: u64 = 10_000_000_000;

/// The time after which an unacknowledged piece goes out again when none
/// is set: half a second.
pub const DEFAULT_PIECE_RESEND_INTERVAL: u64 = 500_000_000;

/// What can be set about a peer. The times are in nanoseconds.
#[derive(Clone, Debug, PartialEq, Eq, Hash)]
pub struct PeerParams {
    pub tracker_addr: String,
    pub upload_bytes_per_second: u64,
    pub max_datachannel_buffer_bytes: u64,
    pub tick_interval: u64,
    pub state_resend_interval: u64,
    pub piece_resend_interval: u64,
}

/// What the sender goes by. The times are in nanoseconds.
#[derive(Clone, Copy, Debug, PartialEq, Eq, Structural)]
pub struct SenderParams {
    pub data_send_interval: u64,
    pub state_resend_interval: u64,
    pub piece_resend_interval: u64,
    pub num_pieces_to_be_sent: usize,
    pub max_buffer_bytes: Option<u64>,
}

/// How many pieces one round may send: the bytes that the upload limit
/// allows in the time of a round, in whole pieces.
pub open spec fn spec_pieces_per_tick(upload_bytes_per_second: u64, tick_interval: u64) -> int {
    upload_bytes_per_second * tick_interval / 1_000_000_000 / 1024
}

/// How many pieces one round may send, or as many as a count can hold if
/// that is fewer.
pub fn pieces_per_tick(upload_bytes_per_second: u64, tick_interval: u64) -> (r: usize)
    ensures
        r == if spec_pieces_per_tick(upload_bytes_per_second, tick_interval) <= usize::MAX {
            spec_pieces_per_tick(upload_bytes_per_second, tick_interval)
        } else {
            usize::MAX as int
        },
{
    assert(upload_bytes_per_second * tick_interval <= 0xffff_ffff_ffff_ffff
        * 0xffff_ffff_ffff_ffff) by (nonlinear_arith)
        requires
            0 <= upload_bytes_per_second <= 0xffff_ffff_ffff_ffff,
            0 <= tick_interval <= 0xffff_ffff_ffff_ffff,
    ;
    let bytes: u128 = (upload_bytes_per_second as u128) * (tick_interval as u128)
        / 1_000_000_000u128;
    let pieces: u128 = bytes / 1024u128;
    if pieces > usize::MAX as u128 {
        usize::MAX
    } else {
        pieces as usize
    }
}

impl PeerParams {
    /// The values that hold when nothing is set, for the given tracker.
    pub fn with_tracker(tracker_addr: String) -> (r: Self)
        ensures
            r.tracker_addr@ == tracker_addr@,
            r.upload_bytes_per_second == 1_048_576,
            r.max_datachannel_buffer_bytes == 2_097_152,
            r.tick_interval == 100_000_000,
            r.state_resend_interval == 10_000_000_000,
            r.piece_resend_interval == 500_000_000,
    {
        Self {
            tracker_addr,
            upload_bytes_per_second: DEFAULT_UPLOAD_SPEED_BYTES_PER_SECOND,
            max_datachannel_buffer_bytes: DEFAULT_MAX_DATACHANNEL_BUFFER_BYTES,
            tick_interval: DEFAULT_PEER_DATA_SEND_INTERVAL,
            state_resend_interval: DEFAULT_STATE_RESEND_INTERVAL,
            piece_resend_interval: DEFAULT_PIECE_RESEND_INTERVAL,
        }
    }

    /// What the sender goes by under these settings.
    pub fn sender_params(&self) -> (r: SenderParams)
        ensures
            r.data_send_interval == self.tick_interval,
            r.state_resend_interval == self.state_resend_interval,
            r.piece_resend_interval == self.piece_resend_interval,
            r.max_buffer_bytes == Some(self.max_datachannel_buffer_bytes),
            r.num_pieces_to_be_sent == if spec_pieces_per_tick(
                self.upload_bytes_per_second,
                self.tick_interval,
            ) <= usize::MAX {
                spec_pieces_per_tick(self.upload_bytes_per_second, self.tick_interval)
            } else {
                usize::MAX as int
            },
    {
        SenderParams {
            data_send_interval: self.tick_interval,
            state_resend_interval: self.state_resend_interval,
            piece_resend_interval: self.piece_resend_interval,
            num_pieces_to_be_sent: pieces_per_tick(
                self.upload_bytes_per_second,
                self.tick_interval,
            ),
            max_buffer_bytes: Some(self.max_datachannel_buffer_bytes),
        }
    }
}

/// The address of the tracker when none is set.
pub fn default_tracker_address() -> (r: String)
    ensures
        r@ == "ws://localhost:9010"@,
{
    "ws://localhost:9010".to_owned()
}

} // verus!
