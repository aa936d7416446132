//! One peer connection: the piece-exchange protocol state machine
//! over any transport. The connection validates protocol semantics
//! (handshake identity, bitfield width, solicited blocks) and tracks
//! the remote bitfield, the bounded request pipeline, and health
//! counters. Malformed traffic closes the connection with
//! `PeerProtocolError`, unresponsiveness with `PeerTimeout`; neither
//! is ever fatal past the swarm.

use vstd::prelude::*;

use crate::errors::EngineError;

verus! {

/// Connection lifecycle. `Closed` is terminal and reachable from every
/// state.
#[derive(Clone, Copy, Debug, PartialEq, Eq, Structural)]
pub enum ConnState {
    Connecting,
    Handshaking,
    Established,
    Closed,
}

/// One outstanding block request: a sub-range of a piece.
#[derive(Clone, Copy, Debug, PartialEq, Eq, Structural)]
pub struct BlockRequest {
    pub piece: usize,
    pub offset: usize,
    pub length: usize,
}

/// One bidirectional exchange channel to a remote endpoint.
#[derive(Debug)]
pub struct PeerConnection {
    pub peer_id: u64,
    pub state: ConnState,
    pub n_pieces: usize,
    pub remote_bitfield: Vec<bool>,
    pub outstanding: Vec<BlockRequest>,
    pub pipeline_limit: usize,
    pub missed_deadlines: u64,
    pub timeout_limit: u64,
    pub am_choking: bool,
    pub peer_choking: bool,
    pub bytes_up: u64,
    pub bytes_down: u64,
}

/// `min(a + b, u64::MAX)`.
pub open spec fn sat_add_spec(a: u64, b: u64) -> u64 {
    if a + b <= u64::MAX {
        (a + b) as u64
    } else {
        u64::MAX
    }
}

/// Saturating addition on byte counters.
pub fn sat_add(a: u64, b: u64) -> (r: u64)
    ensures
        r == sat_add_spec(a, b),
{
    if b <= u64::MAX - a {
        a + b
    } else {
        u64::MAX
    }
}

/// The requests of `s` in order, without those addressing `piece`.
pub open spec fn without_piece(s: Seq<BlockRequest>, piece: usize) -> Seq<BlockRequest>
    decreases s.len(),
{
    if s.len() == 0 {
        s
    } else if s.last().piece != piece {
        without_piece(s.drop_last(), piece).push(s.last())
    } else {
        without_piece(s.drop_last(), piece)
    }
}

/// Equality of everything but the state, the bitfield and the
/// pipeline: identity, configuration and counters.
pub open spec fn same_rest(a: PeerConnection, b: PeerConnection) -> bool {
    &&& a.peer_id == b.peer_id
    &&& a.n_pieces == b.n_pieces
    &&& a.pipeline_limit == b.pipeline_limit
    &&& a.timeout_limit == b.timeout_limit
    &&& a.missed_deadlines == b.missed_deadlines
    &&& a.am_choking == b.am_choking
    &&& a.peer_choking == b.peer_choking
    &&& a.bytes_up == b.bytes_up
    &&& a.bytes_down == b.bytes_down
}

impl PeerConnection {
    /// The bitfield matches the torrent's piece count, the pipeline is
    /// bounded, and every outstanding request addresses a real piece
    /// that the remote advertises.
    pub open spec fn wf(self) -> bool {
        &&& self.remote_bitfield@.len() == self.n_pieces
        &&& self.outstanding@.len() <= self.pipeline_limit
        &&& self.timeout_limit > 0
        &&& forall|i: int|
            0 <= i < self.outstanding@.len() ==> #[trigger] self.outstanding@[i].piece
                < self.n_pieces
    }

    /// The number of advertised pieces the remote claims to hold.
    pub open spec fn claims_piece(self, p: int) -> bool {
        0 <= p < self.remote_bitfield@.len() && self.remote_bitfield@[p]
    }

    /// Some outstanding request addresses piece `p`.
    pub open spec fn requests_piece(self, p: int) -> bool {
        exists|i: int|
            0 <= i < self.outstanding@.len() && #[trigger] self.outstanding@[i].piece == p
    }

    /// A new connection in `Connecting`, with an empty bitfield and an
    /// empty pipeline.
    pub fn new(peer_id: u64, n_pieces: usize, pipeline_limit: usize, timeout_limit: u64) -> (r:
        PeerConnection)
        requires
            timeout_limit > 0,
        ensures
            r.wf(),
            r.peer_id == peer_id,
            r.state == ConnState::Connecting,
            r.n_pieces == n_pieces,
            r.outstanding@.len() == 0,
            r.pipeline_limit == pipeline_limit,
            r.timeout_limit == timeout_limit,
            r.missed_deadlines == 0,
            r.am_choking,
            r.peer_choking,
            r.bytes_up == 0,
            r.bytes_down == 0,
            forall|p: int| 0 <= p < n_pieces ==> !#[trigger] r.remote_bitfield@[p],
    {
        PeerConnection {
            peer_id,
            state: ConnState::Connecting,
            n_pieces,
            remote_bitfield: crate::piece_store::repeat_value(false, n_pieces),
            outstanding: Vec::new(),
            pipeline_limit,
            missed_deadlines: 0,
            timeout_limit,
            am_choking: true,
            peer_choking: true,
            bytes_up: 0,
            bytes_down: 0,
        }
    }

    /// The transport came up: `Connecting` moves to `Handshaking`.
    pub fn on_connected(&mut self)
        requires
            old(self).state == ConnState::Connecting,
        ensures
            *final(self) == (PeerConnection { state: ConnState::Handshaking, ..*old(self) }),
    {
        self.state = ConnState::Handshaking;
    }

    /// Remote handshake: the connection is established exactly when
    /// the announced identity matches ours; otherwise it closes with a
    /// protocol error.
    pub fn on_handshake(&mut self, announced: &Vec<u8>, expected: &Vec<u8>) -> (r: Result<
        (),
        EngineError,
    >)
        requires
            old(self).state == ConnState::Handshaking,
        ensures
            announced@ == expected@ ==> r is Ok && *final(self) == (PeerConnection {
                state: ConnState::Established,
                ..*old(self)
            }),
            announced@ != expected@ ==> r == Result::<(), EngineError>::Err(
                EngineError::PeerProtocolError,
            ) && *final(self) == (PeerConnection { state: ConnState::Closed, ..*old(self) }),
    {
        if crate::hashing::digests_equal(announced, expected) {
            self.state = ConnState::Established;
            Ok(())
        } else {
            self.state = ConnState::Closed;
            Err(EngineError::PeerProtocolError)
        }
    }

    /// Initial bitfield: accepted exactly when its width matches the
    /// torrent's piece count; a wrong width is a protocol error and
    /// closes the connection.
    pub fn on_bitfield(&mut self, bits: Vec<bool>) -> (r: Result<(), EngineError>)
        requires
            old(self).wf(),
            old(self).state == ConnState::Established,
        ensures
            final(self).wf(),
            bits@.len() == old(self).n_pieces ==> r is Ok && *final(self) == (PeerConnection {
                remote_bitfield: bits,
                ..*old(self)
            }),
            bits@.len() != old(self).n_pieces ==> r == Result::<(), EngineError>::Err(
                EngineError::PeerProtocolError,
            ) && *final(self) == (PeerConnection { state: ConnState::Closed, ..*old(self) }),
    {
        if bits.len() == self.n_pieces {
            self.remote_bitfield = bits;
            Ok(())
        } else {
            self.state = ConnState::Closed;
            Err(EngineError::PeerProtocolError)
        }
    }

    /// Incremental "have" notice: accepted exactly when the index is a
    /// real piece; out-of-range indices are a protocol error and close
    /// the connection.
    pub fn on_have(&mut self, piece: usize) -> (r: Result<(), EngineError>)
        requires
            old(self).wf(),
            old(self).state == ConnState::Established,
        ensures
            final(self).wf(),
            piece < old(self).n_pieces ==> r is Ok && final(self).remote_bitfield@ == old(
                self,
            ).remote_bitfield@.update(piece as int, true) && final(self).state == old(self).state
                && final(self).outstanding@ == old(self).outstanding@ && same_rest(
                *final(self),
                *old(self),
            ),
            piece >= old(self).n_pieces ==> r == Result::<(), EngineError>::Err(
                EngineError::PeerProtocolError,
            ) && *final(self) == (PeerConnection { state: ConnState::Closed, ..*old(self) }),
    {
        if piece < self.n_pieces {
            self.remote_bitfield[piece] = true;
            Ok(())
        } else {
            self.state = ConnState::Closed;
            Err(EngineError::PeerProtocolError)
        }
    }

    /// Queues a block request up to the pipeline depth. The swarm only
    /// requests real pieces that the remote advertises.
    pub fn issue_request(&mut self, req: BlockRequest)
        requires
            old(self).wf(),
            old(self).state == ConnState::Established,
            old(self).outstanding@.len() < old(self).pipeline_limit,
            req.piece < old(self).n_pieces,
        ensures
            final(self).wf(),
            final(self).outstanding@ == old(self).outstanding@.push(req),
            final(self).state == old(self).state,
            final(self).remote_bitfield@ == old(self).remote_bitfield@,
            same_rest(*final(self), *old(self)),
    {
        self.outstanding.push(req);
    }

    /// Incoming block data: accepted exactly when it answers an
    /// outstanding request, which is then retired and the health
    /// counters refreshed; unsolicited data is a protocol error and
    /// closes the connection.
    pub fn on_block(&mut self, piece: usize, offset: usize, length: usize) -> (r: Result<
        (),
        EngineError,
    >)
        requires
            old(self).wf(),
            old(self).state == ConnState::Established,
        ensures
            final(self).wf(),
            r is Ok <==> old(self).outstanding@.contains(
                BlockRequest { piece, offset, length },
            ),
            r is Ok ==> exists|i: int|
                {
                    &&& 0 <= i < old(self).outstanding@.len()
                    &&& old(self).outstanding@[i] == (BlockRequest { piece, offset, length })
                    &&& final(self).outstanding@ == old(self).outstanding@.remove(i)
                },
            r is Ok ==> {
                &&& final(self).state == old(self).state
                &&& final(self).remote_bitfield@ == old(self).remote_bitfield@
                &&& final(self).missed_deadlines == 0
                &&& final(self).bytes_down == sat_add_spec(old(self).bytes_down, length as u64)
                &&& final(self).bytes_up == old(self).bytes_up
                &&& final(self).am_choking == old(self).am_choking
                &&& final(self).peer_choking == old(self).peer_choking
                &&& final(self).peer_id == old(self).peer_id
                &&& final(self).n_pieces == old(self).n_pieces
                &&& final(self).pipeline_limit == old(self).pipeline_limit
                &&& final(self).timeout_limit == old(self).timeout_limit
            },
            r is Err ==> r == Result::<(), EngineError>::Err(EngineError::PeerProtocolError)
                && *final(self) == (PeerConnection { state: ConnState::Closed, ..*old(self) }),
    {
        let req = BlockRequest { piece, offset, length };
        let mut i: usize = 0;
        while i < self.outstanding.len()
            invariant
                *self == *old(self),
                old(self).wf(),
                old(self).state == ConnState::Established,
                req == (BlockRequest { piece, offset, length }),
                i <= self.outstanding@.len(),
                forall|j: int| 0 <= j < i ==> #[trigger] self.outstanding@[j] != req,
            decreases self.outstanding@.len() - i,
        {
            if self.outstanding[i].piece == piece && self.outstanding[i].offset == offset
                && self.outstanding[i].length == length {
                self.outstanding.remove(i);
                self.missed_deadlines = 0;
                self.bytes_down = sat_add(self.bytes_down, length as u64);
                proof {
                    assert(old(self).outstanding@[i as int] == req);
                    assert(self.outstanding@ == old(self).outstanding@.remove(i as int));
                    old(self).outstanding@.remove_ensures(i as int);
                    assert forall|j: int| 0 <= j < self.outstanding@.len() implies #[trigger] self
                        .outstanding@[j].piece < self.n_pieces by {
                        if j < i {
                            assert(self.outstanding@[j] == old(self).outstanding@[j]);
                        } else {
                            assert(self.outstanding@[j] == old(self).outstanding@[j + 1]);
                        }
                    }
                }
                return Ok(());
            }
            i = i + 1;
        }
        proof {
            assert(forall|j: int|
                0 <= j < old(self).outstanding@.len() ==> #[trigger] old(
                    self,
                ).outstanding@[j] != req);
            assert(!old(self).outstanding@.contains(req));
        }
        self.state = ConnState::Closed;
        Err(EngineError::PeerProtocolError)
    }

    /// Withdraws every outstanding request for `piece` (endgame: once
    /// one source delivers a verified copy, the duplicate requests to
    /// other peers are cancelled).
    pub fn cancel_piece(&mut self, piece: usize)
        requires
            old(self).wf(),
        ensures
            final(self).wf(),
            final(self).outstanding@ == without_piece(old(self).outstanding@, piece),
            !final(self).requests_piece(piece as int),
            final(self).state == old(self).state,
            final(self).remote_bitfield@ == old(self).remote_bitfield@,
            same_rest(*final(self), *old(self)),
    {
        let mut kept: Vec<BlockRequest> = Vec::new();
        let mut i: usize = 0;
        while i < self.outstanding.len()
            invariant
                *self == *old(self),
                old(self).wf(),
                i <= self.outstanding@.len(),
                kept@ == without_piece(self.outstanding@.take(i as int), piece),
                kept@.len() <= i,
                forall|k: int|
                    0 <= k < kept@.len() ==> (#[trigger] kept@[k]).piece != piece
                        && kept@[k].piece < self.n_pieces,
            decreases self.outstanding@.len() - i,
        {
            proof {
                assert(self.outstanding@.take(i + 1 as int).drop_last() =~= self.outstanding@.take(
                    i as int,
                ));
                assert(self.outstanding@.take(i + 1 as int).last() == self.outstanding@[i as int]);
            }
            let r = self.outstanding[i];
            if r.piece != piece {
                kept.push(r);
            }
            i = i + 1;
        }
        proof {
            assert(self.outstanding@.take(self.outstanding@.len() as int) =~= self.outstanding@);
        }
        self.outstanding = kept;
    }

    /// A request deadline passed. After `timeout_limit` misses the
    /// connection closes with `PeerTimeout`; until then it stays up.
    pub fn on_deadline_missed(&mut self) -> (r: Result<(), EngineError>)
        requires
            old(self).wf(),
            old(self).state == ConnState::Established,
        ensures
            final(self).wf(),
            old(self).missed_deadlines + 1 < old(self).timeout_limit ==> r is Ok && *final(self)
                == (PeerConnection {
                missed_deadlines: (old(self).missed_deadlines + 1) as u64,
                ..*old(self)
            }),
            old(self).missed_deadlines + 1 >= old(self).timeout_limit ==> r == Result::<
                (),
                EngineError,
            >::Err(EngineError::PeerTimeout) && *final(self) == (PeerConnection {
                state: ConnState::Closed,
                missed_deadlines: old(self).timeout_limit,
                ..*old(self)
            }),
    {
        if self.missed_deadlines < self.timeout_limit - 1 {
            self.missed_deadlines = self.missed_deadlines + 1;
            Ok(())
        } else {
            self.missed_deadlines = self.timeout_limit;
            self.state = ConnState::Closed;
            Err(EngineError::PeerTimeout)
        }
    }

    /// Records bytes served to the remote (reciprocation input for the
    /// choke algorithm).
    pub fn record_upload(&mut self, n: u64)
        ensures
            *final(self) == (PeerConnection {
                bytes_up: sat_add_spec(old(self).bytes_up, n),
                ..*old(self)
            }),
    {
        self.bytes_up = sat_add(self.bytes_up, n);
    }

    /// Local choke decision made by the swarm's fairness policy.
    pub fn set_choking(&mut self, choking: bool)
        ensures
            *final(self) == (PeerConnection { am_choking: choking, ..*old(self) }),
    {
        self.am_choking = choking;
    }

    /// Remote choke notice.
    pub fn on_choke(&mut self, choked: bool)
        ensures
            *final(self) == (PeerConnection { peer_choking: choked, ..*old(self) }),
    {
        self.peer_choking = choked;
    }

    /// Closes the connection; terminal, reachable from every state.
    pub fn close(&mut self)
        ensures
            *final(self) == (PeerConnection { state: ConnState::Closed, ..*old(self) }),
    {
        self.state = ConnState::Closed;
    }
}

} // verus!
