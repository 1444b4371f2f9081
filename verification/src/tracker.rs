//! The tracker's side of the rendezvous: which peers are connected, which
//! peers have asked for which file, and to whom a message is passed on.
use vstd::prelude::*;
use crate::protocol::{PeerId, PeerTrackerMessage, Sha256, TrackerPeerMessage};

verus! {

/// A peer asked for the offers of a file that it has asked for before.
#[derive(Clone, Copy, Debug, PartialEq, Eq)]
pub enum StateAddFilePeerError {
    FileIsAlreadyAdded(Sha256),
}

/// The peers that have asked for the offers of one file, in the order in
/// which they asked.
#[derive(Debug)]
pub struct FilePeers {
    pub sha256: Sha256,
    pub peers: Vec<PeerId>,
}

/// What the tracker knows.
#[derive(Debug)]
pub struct State {
    next_peer_id: u32,
    peers: Vec<PeerId>,
    files: Vec<FilePeers>,
}

/// One message on its way to one peer.
#[derive(Debug)]
pub struct Relayed {
    pub peer_id: PeerId,
    pub message: TrackerPeerMessage,
}

/// The others among the peers of a file that are connected, each with the
/// request for an offer to the asking peer.
pub open spec fn spec_requests(
    interested: Seq<PeerId>,
    connected: Seq<PeerId>,
    asking: PeerId,
    sha256: Sha256,
) -> Seq<(PeerId, PeerId, Sha256)>
    decreases interested.len(),
{
    if interested.len() == 0 {
        Seq::empty()
    } else {
        let rest = spec_requests(interested.drop_last(), connected, asking, sha256);
        if interested.last() != asking && connected.contains(interested.last()) {
            rest.push((interested.last(), asking, sha256))
        } else {
            rest
        }
    }
}

impl State {
    /// The number that the next peer gets.
    pub closed spec fn next(&self) -> u32 {
        self.next_peer_id
    }

    /// The peers that are connected, in the order in which they came.
    pub closed spec fn connected(&self) -> Seq<PeerId> {
        self.peers@
    }

    /// How many files have been asked for.
    pub closed spec fn num_files(&self) -> nat {
        self.files@.len()
    }

    /// The digest of the file at a place.
    pub closed spec fn file_sha256(&self, at: int) -> Seq<u8> {
        self.files@[at].sha256.0@
    }

    /// The peers that have asked for the file at a place.
    pub closed spec fn file_peers(&self, at: int) -> Seq<PeerId> {
        self.files@[at].peers@
    }

    /// The place of a file, or the number of files when nobody has asked
    /// for it.
    pub open spec fn file_place(&self, sha256: Seq<u8>) -> int {
        if exists|at: int| 0 <= at < self.num_files() && self.file_sha256(at) == sha256 {
            choose|at: int| 0 <= at < self.num_files() && self.file_sha256(at) == sha256
        } else {
            self.num_files() as int
        }
    }

    /// The peers that have asked for a file.
    pub open spec fn interested(&self, sha256: Seq<u8>) -> Seq<PeerId> {
        if self.file_place(sha256) < self.num_files() {
            self.file_peers(self.file_place(sha256))
        } else {
            Seq::empty()
        }
    }

    /// Every connected peer has a number below the next, no peer is
    /// connected twice, and no file is listed twice.
    pub open spec fn wf(&self) -> bool {
        &&& forall|at: int|
            0 <= at < self.connected().len() ==> (#[trigger] self.connected()[at]).0 < self.next()
        &&& self.connected().no_duplicates()
        &&& forall|a: int, b: int|
            0 <= a < self.num_files() && 0 <= b < self.num_files() && self.file_sha256(a)
                == self.file_sha256(b) ==> a == b
    }

    /// A tracker without peers and files.
    pub fn new() -> (r: Self)
        ensures
            r.wf(),
            r.next() == 0,
            r.connected() == Seq::<PeerId>::empty(),
            r.num_files() == 0,
    {
        Self { next_peer_id: 0, peers: Vec::new(), files: Vec::new() }
    }

    /// Takes in a peer and gives it a number that no peer had before, or
    /// `None` when the numbers have run out.
    pub fn new_peer(&mut self) -> (r: Option<PeerId>)
        requires
            old(self).wf(),
        ensures
            final(self).wf(),
            final(self).num_files() == old(self).num_files(),
            forall|at: int|
                0 <= at < old(self).num_files() ==> final(self).file_sha256(at) == old(
                    self,
                ).file_sha256(at) && final(self).file_peers(at) == old(self).file_peers(at),
            match r {
                Some(peer_id) => {
                    &&& old(self).next() < u32::MAX
                    &&& peer_id.0 == old(self).next()
                    &&& final(self).next() == old(self).next() + 1
                    &&& final(self).connected() == old(self).connected().push(peer_id)
                    &&& !old(self).connected().contains(peer_id)
                },
                None => {
                    &&& old(self).next() == u32::MAX
                    &&& final(self).next() == old(self).next()
                    &&& final(self).connected() == old(self).connected()
                },
            },
    {
        if self.next_peer_id == u32::MAX {
            return None;
        }
        let peer_id = PeerId(self.next_peer_id);
        self.next_peer_id = self.next_peer_id + 1;
        self.peers.push(peer_id);
        proof {
            assert(!old(self).connected().contains(peer_id)) by {
                if old(self).connected().contains(peer_id) {
                    let at = choose|at: int|
                        0 <= at < old(self).connected().len() && old(self).connected()[at]
                            == peer_id;
                    assert(old(self).connected()[at].0 < old(self).next());
                }
            }
            assert forall|a: int, b: int|
                0 <= a < self.peers@.len() && 0 <= b < self.peers@.len() && a
                    != b implies self.peers@[a] != self.peers@[b] by {
                if a < old(self).peers@.len() && b < old(self).peers@.len() {
                    assert(old(self).peers@[a] != old(self).peers@[b]);
                } else if a < old(self).peers@.len() {
                    assert(old(self).connected()[a].0 < old(self).next());
                } else {
                    assert(old(self).connected()[b].0 < old(self).next());
                }
            }
            assert forall|at: int| 0 <= at < self.connected().len() implies (
            #[trigger] self.connected()[at]).0 < self.next() by {
                if at < old(self).connected().len() {
                    assert(old(self).connected()[at].0 < old(self).next());
                }
            }
            assert forall|a: int, b: int|
                0 <= a < self.num_files() && 0 <= b < self.num_files() && self.file_sha256(a)
                    == self.file_sha256(b) implies a == b by {
                assert(old(self).file_sha256(a) == old(self).file_sha256(b));
            }
        }
        Some(peer_id)
    }

    /// Whether a peer is connected.
    pub fn get_peer_sender(&self, peer_id: PeerId) -> (r: bool)
        ensures
            r == self.connected().contains(peer_id),
    {
        let mut at: usize = 0;
        while at < self.peers.len()
            invariant
                at <= self.peers@.len(),
                forall|b: int| 0 <= b < at ==> self.peers@[b] != peer_id,
            decreases self.peers@.len() - at,
        {
            if self.peers[at].0 == peer_id.0 {
                assert(self.peers@[at as int] == peer_id);
                return true;
            }
            at += 1;
        }
        false
    }

    /// Forgets a peer whose connection has ended. What it asked for stays
    /// on record.
    pub fn remove_peer(&mut self, peer_id: PeerId)
        requires
            old(self).wf(),
        ensures
            final(self).wf(),
            final(self).next() == old(self).next(),
            !final(self).connected().contains(peer_id),
            forall|other: PeerId|
                other != peer_id ==> (final(self).connected().contains(other) <==> old(
                    self,
                ).connected().contains(other)),
            final(self).num_files() == old(self).num_files(),
            forall|at: int|
                0 <= at < old(self).num_files() ==> final(self).file_sha256(at) == old(
                    self,
                ).file_sha256(at) && final(self).file_peers(at) == old(self).file_peers(at),
    {
        let mut at: usize = 0;
        while at < self.peers.len()
            invariant
                *self == *old(self),
                old(self).wf(),
                at <= self.peers@.len(),
                forall|b: int| 0 <= b < at ==> self.peers@[b] != peer_id,
            decreases self.peers@.len() - at,
        {
            if self.peers[at].0 == peer_id.0 {
                let ghost before = self.peers@;
                assert(before.no_duplicates());
                assert(forall|b: int| 0 <= b < before.len() ==> (#[trigger] before[b]).0 < self.next_peer_id);
                let _ = self.peers.remove(at);
                proof {
                    assert(before[at as int] == peer_id);
                    assert forall|b: int| 0 <= b < self.peers@.len() implies self.peers@[b]
                        != peer_id by {
                        if b < at {
                            assert(self.peers@[b] == before[b]);
                        } else {
                            assert(self.peers@[b] == before[b + 1]);
                            assert(before[b + 1] != before[at as int]);
                        }
                    }
                    assert forall|other: PeerId| other != peer_id implies (self.peers@.contains(
                        other,
                    ) <==> before.contains(other)) by {
                        if before.contains(other) {
                            let b = choose|b: int| 0 <= b < before.len() && before[b] == other;
                            if b < at {
                                assert(self.peers@[b] == other);
                            } else {
                                assert(self.peers@[b - 1] == other);
                            }
                        }
                        if self.peers@.contains(other) {
                            let b = choose|b: int|
                                0 <= b < self.peers@.len() && self.peers@[b] == other;
                            if b < at {
                                assert(before[b] == other);
                            } else {
                                assert(before[b + 1] == other);
                            }
                        }
                    }
                    assert forall|a: int, b: int|
                        0 <= a < self.peers@.len() && 0 <= b < self.peers@.len() && a
                            != b implies self.peers@[a] != self.peers@[b] by {
                        let x = if a < at {
                            a
                        } else {
                            a + 1
                        };
                        let y = if b < at {
                            b
                        } else {
                            b + 1
                        };
                        assert(before[x] != before[y]);
                    }
                    assert forall|b: int| 0 <= b < self.peers@.len() implies (
                    #[trigger] self.peers@[b]).0 < self.next_peer_id by {
                        if b < at {
                            assert(self.peers@[b] == before[b]);
                            assert(before[b].0 < self.next_peer_id);
                        } else {
                            assert(self.peers@[b] == before[b + 1]);
                            assert(before[b + 1].0 < self.next_peer_id);
                        }
                    }
                    assert forall|a: int, b: int|
                        0 <= a < self.num_files() && 0 <= b < self.num_files()
                            && self.file_sha256(a) == self.file_sha256(b) implies a == b by {
                        assert(old(self).file_sha256(a) == old(self).file_sha256(b));
                    }
                    assert(!self.connected().contains(peer_id));
                }
                return ;
            }
            at += 1;
        }
        assert(!self.connected().contains(peer_id));
    }

    /// The place of a file, or `None` when nobody has asked for it.
    fn find_file(&self, sha256: &Sha256) -> (r: Option<usize>)
        requires
            self.wf(),
        ensures
            match r {
                Some(at) => at < self.num_files() && self.file_sha256(at as int) == sha256.0@
                    && self.file_place(sha256.0@) == at,
                None => self.file_place(sha256.0@) == self.num_files(),
            },
    {
        let mut at: usize = 0;
        while at < self.files.len()
            invariant
                self.wf(),
                at <= self.files@.len(),
                forall|b: int| 0 <= b < at ==> self.file_sha256(b) != sha256.0@,
            decreases self.files@.len() - at,
        {
            if self.files[at].sha256.same(sha256) {
                assert(self.file_sha256(at as int) == sha256.0@);
                return Some(at);
            }
            at += 1;
        }
        None
    }

    /// Records that a peer asks for the offers of a file and hands out
    /// every peer that has asked for them, the asking peer last.
    pub fn add_file_peer_and_get_file_peer_list(&mut self, file_sha256: Sha256, peer_id: PeerId) -> (r:
        Result<Vec<PeerId>, StateAddFilePeerError>)
        requires
            old(self).wf(),
        ensures
            final(self).wf(),
            final(self).next() == old(self).next(),
            final(self).connected() == old(self).connected(),
            match r {
                Err(err) => {
                    &&& old(self).interested(file_sha256.0@).contains(peer_id)
                    &&& *final(self) == *old(self)
                    &&& err matches StateAddFilePeerError::FileIsAlreadyAdded(sha256)
                        && sha256 == file_sha256
                },
                Ok(peers) => {
                    &&& !old(self).interested(file_sha256.0@).contains(peer_id)
                    &&& peers@ == old(self).interested(file_sha256.0@).push(peer_id)
                    &&& final(self).interested(file_sha256.0@) == peers@
                    &&& forall|other: Seq<u8>|
                        other != file_sha256.0@ ==> final(self).interested(other) == old(
                            self,
                        ).interested(other)
                },
            },
    {
        let place = match self.find_file(&file_sha256) {
            Some(place) => place,
            None => {
                let place = self.files.len();
                self.files.push(FilePeers { sha256: file_sha256, peers: Vec::new() });
                proof {
                    assert forall|at: int| 0 <= at < old(self).num_files() implies self.file_sha256(
                        at,
                    ) == old(self).file_sha256(at) && self.file_peers(at) == old(self).file_peers(
                        at,
                    ) by {}
                    assert forall|a: int, b: int|
                        0 <= a < self.num_files() && 0 <= b < self.num_files()
                            && self.file_sha256(a) == self.file_sha256(b) implies a == b by {
                        if a < old(self).num_files() && b < old(self).num_files() {
                            assert(old(self).file_sha256(a) == old(self).file_sha256(b));
                        } else if a < old(self).num_files() {
                            assert(old(self).file_sha256(a) == file_sha256.0@);
                        } else if b < old(self).num_files() {
                            assert(old(self).file_sha256(b) == file_sha256.0@);
                        }
                    }
                }
                place
            },
        };
        let ghost before = *self;
        assert(before.wf());
        proof {
            assert(before.file_sha256(place as int) == file_sha256.0@);
            assert(before.file_place(file_sha256.0@) == place);
            assert(before.file_peers(place as int) =~= old(self).interested(file_sha256.0@));
            assert forall|other: Seq<u8>| other != file_sha256.0@ implies before.interested(other)
                == old(self).interested(other) by {
                if exists|at: int| 0 <= at < old(self).num_files() && old(self).file_sha256(at)
                    == other {
                    let at = old(self).file_place(other);
                    assert(before.file_sha256(at) == other);
                    assert(before.file_place(other) == at);
                } else {
                    if exists|at: int| 0 <= at < before.num_files() && before.file_sha256(at)
                        == other {
                        let at = before.file_place(other);
                        assert(at < old(self).num_files());
                        assert(old(self).file_sha256(at) == other);
                    }
                }
            }
        }
        let mut at: usize = 0;
        while at < self.files[place].peers.len()
            invariant
                *self == before,
                before.wf(),
                old(self).wf(),
                place < self.files@.len(),
                before.file_peers(place as int) == old(self).interested(file_sha256.0@),
                place >= old(self).files@.len() ==> before.file_peers(place as int).len() == 0,
                place < old(self).files@.len() ==> before == *old(self),
                at <= self.files@[place as int].peers@.len(),
                forall|b: int| 0 <= b < at ==> self.files@[place as int].peers@[b] != peer_id,
            decreases self.files@[place as int].peers@.len() - at,
        {
            if self.files[place].peers[at].0 == peer_id.0 {
                assert(self.files@[place as int].peers@[at as int] == peer_id);
                proof {
                    assert(before.file_peers(place as int).len() > 0);
                    assert(place < old(self).num_files());
                    assert(*self == *old(self));
                    assert(before.file_peers(place as int)[at as int] == peer_id);
                    assert(old(self).interested(file_sha256.0@).contains(peer_id));
                }
                return Err(StateAddFilePeerError::FileIsAlreadyAdded(file_sha256));
            }
            at += 1;
        }
        assert(!old(self).interested(file_sha256.0@).contains(peer_id));
        self.files[place].peers.push(peer_id);
        proof {
            assert forall|b: int| 0 <= b < self.num_files() implies self.file_sha256(b)
                == before.file_sha256(b) by {}
            assert forall|a: int, b: int|
                0 <= a < self.num_files() && 0 <= b < self.num_files() && self.file_sha256(a)
                    == self.file_sha256(b) implies a == b by {
                assert(before.file_sha256(a) == before.file_sha256(b));
            }
            assert(self.wf());
            assert(self.file_sha256(place as int) == file_sha256.0@);
            assert(self.file_place(file_sha256.0@) == place);
        }
        let ghost pushed = *self;
        let mut list: Vec<PeerId> = Vec::new();
        let mut at: usize = 0;
        while at < self.files[place].peers.len()
            invariant
                *self == pushed,
                place < self.files@.len(),
                at <= self.files@[place as int].peers@.len(),
                list@ == self.files@[place as int].peers@.take(at as int),
            decreases self.files@[place as int].peers@.len() - at,
        {
            list.push(self.files[place].peers[at]);
            assert(self.files@[place as int].peers@.take(at + 1)
                =~= self.files@[place as int].peers@.take(at as int).push(
                self.files@[place as int].peers@[at as int],
            ));
            at += 1;
        }
        proof {
            assert(list@ =~= self.file_peers(place as int));
            assert(self.file_peers(place as int) =~= before.file_peers(place as int).push(peer_id));
            assert forall|other: Seq<u8>| other != file_sha256.0@ implies self.interested(other)
                == old(self).interested(other) by {
                assert(before.interested(other) == old(self).interested(other));
                if exists|b: int| 0 <= b < before.num_files() && before.file_sha256(b) == other {
                    let b = before.file_place(other);
                    assert(self.file_sha256(b) == other);
                    assert(self.file_place(other) == b);
                    assert(self.file_peers(b) == before.file_peers(b));
                } else {
                    if exists|b: int| 0 <= b < self.num_files() && self.file_sha256(b) == other {
                        let b = self.file_place(other);
                        assert(before.file_sha256(b) == other);
                    }
                }
            }
        }
        Ok(list)
    }

    /// The messages that a message from a peer gives rise to, each with the
    /// peer that it goes to. A request for offers goes on to every other
    /// connected peer that has asked for the file, in the order in which
    /// they asked; every other message goes on to the peer that it names,
    /// if that peer is connected, with the sender's number in place of the
    /// receiver's.
    pub fn relay(&mut self, peer_id: PeerId, message: PeerTrackerMessage) -> (r: Result<
        Vec<Relayed>,
        StateAddFilePeerError,
    >)
        requires
            old(self).wf(),
        ensures
            final(self).wf(),
            final(self).next() == old(self).next(),
            final(self).connected() == old(self).connected(),
            match message {
                PeerTrackerMessage::RequestOffers { file_sha256 } => match r {
                    Err(err) => {
                        &&& old(self).interested(file_sha256.0@).contains(peer_id)
                        &&& *final(self) == *old(self)
                    },
                    Ok(list) => {
                        &&& !old(self).interested(file_sha256.0@).contains(peer_id)
                        &&& final(self).interested(file_sha256.0@) == old(self).interested(
                            file_sha256.0@,
                        ).push(peer_id)
                        &&& forall|other: Seq<u8>|
                            other != file_sha256.0@ ==> final(self).interested(other) == old(
                                self,
                            ).interested(other)
                        &&& list@.len() == spec_requests(
                            final(self).interested(file_sha256.0@),
                            old(self).connected(),
                            peer_id,
                            file_sha256,
                        ).len()
                        &&& forall|at: int|
                            0 <= at < list@.len() ==> {
                                let request = spec_requests(
                                    final(self).interested(file_sha256.0@),
                                    old(self).connected(),
                                    peer_id,
                                    file_sha256,
                                )[at];
                                &&& (#[trigger] list@[at]).peer_id == request.0
                                &&& list@[at].message == (TrackerPeerMessage::RequestOffer {
                                    peer_id: request.1,
                                    file_sha256: request.2,
                                })
                            }
                    },
                },
                PeerTrackerMessage::SendOffer { peer_id: other_peer_id, offer } => {
                    &&& *final(self) == *old(self)
                    &&& r is Ok
                    &&& Self::passed_on(
                        old(self).connected(),
                        other_peer_id,
                        TrackerPeerMessage::PeerOffer { peer_id, offer },
                        r->Ok_0@,
                    )
                },
                PeerTrackerMessage::SendAnswer { peer_id: other_peer_id, answer } => {
                    &&& *final(self) == *old(self)
                    &&& r is Ok
                    &&& Self::passed_on(
                        old(self).connected(),
                        other_peer_id,
                        TrackerPeerMessage::PeerAnswer { peer_id, answer },
                        r->Ok_0@,
                    )
                },
                PeerTrackerMessage::SendIceCandidate { peer_id: other_peer_id, candidate } => {
                    &&& *final(self) == *old(self)
                    &&& r is Ok
                    &&& Self::passed_on(
                        old(self).connected(),
                        other_peer_id,
                        TrackerPeerMessage::PeerIceCandidate { peer_id, candidate },
                        r->Ok_0@,
                    )
                },
                PeerTrackerMessage::AllIceCandidatesSent { peer_id: other_peer_id } => {
                    &&& *final(self) == *old(self)
                    &&& r is Ok
                    &&& Self::passed_on(
                        old(self).connected(),
                        other_peer_id,
                        TrackerPeerMessage::PeerAllIceCandidatesSent { peer_id },
                        r->Ok_0@,
                    )
                },
            },
    {
        match message {
            PeerTrackerMessage::RequestOffers { file_sha256 } => {
                let peers = match self.add_file_peer_and_get_file_peer_list(file_sha256, peer_id) {
                    Ok(peers) => peers,
                    Err(err) => {
                        return Err(err);
                    },
                };
                let mut list: Vec<Relayed> = Vec::new();
                let mut at: usize = 0;
                let ghost connected = self.connected();
                assert(peers@.take(0) =~= Seq::<PeerId>::empty());
                while at < peers.len()
                    invariant
                        at <= peers@.len(),
                        connected == self.connected(),
                        list@.len() == spec_requests(
                            peers@.take(at as int),
                            connected,
                            peer_id,
                            file_sha256,
                        ).len(),
                        forall|b: int|
                            0 <= b < list@.len() ==> {
                                let request = spec_requests(
                                    peers@.take(at as int),
                                    connected,
                                    peer_id,
                                    file_sha256,
                                )[b];
                                &&& (#[trigger] list@[b]).peer_id == request.0
                                &&& list@[b].message == (TrackerPeerMessage::RequestOffer {
                                    peer_id: request.1,
                                    file_sha256: request.2,
                                })
                            },
                    decreases peers@.len() - at,
                {
                    let other_peer_id = peers[at];
                    assert(peers@.take(at + 1).drop_last() =~= peers@.take(at as int));
                    assert(peers@.take(at + 1).last() == other_peer_id);
                    if other_peer_id.0 != peer_id.0 && self.get_peer_sender(other_peer_id) {
                        list.push(
                            Relayed {
                                peer_id: other_peer_id,
                                message: TrackerPeerMessage::RequestOffer { peer_id, file_sha256 },
                            },
                        );
                    }
                    at += 1;
                }
                assert(peers@.take(at as int) =~= peers@);
                Ok(list)
            },
            PeerTrackerMessage::SendOffer { peer_id: other_peer_id, offer } => Ok(
                self.send_to_peer(other_peer_id, TrackerPeerMessage::PeerOffer { peer_id, offer }),
            ),
            PeerTrackerMessage::SendAnswer { peer_id: other_peer_id, answer } => Ok(
                self.send_to_peer(
                    other_peer_id,
                    TrackerPeerMessage::PeerAnswer { peer_id, answer },
                ),
            ),
            PeerTrackerMessage::SendIceCandidate { peer_id: other_peer_id, candidate } => Ok(
                self.send_to_peer(
                    other_peer_id,
                    TrackerPeerMessage::PeerIceCandidate { peer_id, candidate },
                ),
            ),
            PeerTrackerMessage::AllIceCandidatesSent { peer_id: other_peer_id } => Ok(
                self.send_to_peer(
                    other_peer_id,
                    TrackerPeerMessage::PeerAllIceCandidatesSent { peer_id },
                ),
            ),
        }
    }

    /// Whether a list is what passing one message on to one peer gives: the
    /// message for that peer when the peer is connected, and nothing when
    /// it is not.
    pub open spec fn passed_on(
        connected: Seq<PeerId>,
        peer_id: PeerId,
        message: TrackerPeerMessage,
        list: Seq<Relayed>,
    ) -> bool {
        if connected.contains(peer_id) {
            list.len() == 1 && list[0].peer_id == peer_id && list[0].message == message
        } else {
            list.len() == 0
        }
    }

    /// One message for one peer, if the peer is connected.
    fn send_to_peer(&self, peer_id: PeerId, message: TrackerPeerMessage) -> (r: Vec<Relayed>)
        ensures
            Self::passed_on(self.connected(), peer_id, message, r@),
    {
        let mut list: Vec<Relayed> = Vec::new();
        if self.get_peer_sender(peer_id) {
            list.push(Relayed { peer_id, message });
        }
        list
    }
}

} // verus!
