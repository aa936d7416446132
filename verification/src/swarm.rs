//! The swarm manager: owns one torrent's peer connections and piece
//! progress. Piece selection is rarest-first among missing pieces with
//! a caller-supplied tie-break; near completion an endgame mode
//! requests the last missing pieces from every peer that has them. The
//! choke policy unchokes a bounded number of peers, preferring those
//! reciprocating the most bytes, plus one optimistic slot.

use vstd::prelude::*;

use crate::errors::EngineError;
use crate::hashing::DIGEST_LEN;
use crate::peer::ConnState;
use crate::peer::PeerConnection;
use crate::piece_store::PieceState;
use crate::piece_store::PieceStore;

verus! {

/// One active torrent: its identity, its piece store, and its peer
/// connections (one per remote identity).
#[derive(Debug)]
pub struct Swarm {
    pub info_hash: Vec<u8>,
    pub store: PieceStore,
    pub peers: Vec<PeerConnection>,
    pub max_unchoked: usize,
    pub endgame_threshold: usize,
}

/// How many of these peers are established and advertise piece `p`.
pub open spec fn avail_seq(peers: Seq<PeerConnection>, p: int) -> int
    decreases peers.len(),
{
    if peers.len() == 0 {
        0
    } else {
        (if peers[0].state == ConnState::Established && peers[0].claims_piece(p) {
            1int
        } else {
            0int
        }) + avail_seq(peers.drop_first(), p)
    }
}

/// Appending a peer adds its own contribution to the availability.
pub proof fn lemma_avail_push(peers: Seq<PeerConnection>, x: PeerConnection, p: int)
    ensures
        avail_seq(peers.push(x), p) == avail_seq(peers, p) + (
        if x.state == ConnState::Established && x.claims_piece(p) {
            1int
        } else {
            0int
        }),
    decreases peers.len(),
{
    if peers.len() == 0 {
        assert(peers.push(x).drop_first() =~= Seq::<PeerConnection>::empty());
        assert(peers =~= Seq::<PeerConnection>::empty());
    } else {
        assert(peers.push(x).drop_first() =~= peers.drop_first().push(x));
        lemma_avail_push(peers.drop_first(), x, p);
        assert(peers.push(x)[0] == peers[0]);
    }
}

impl Swarm {
    /// The store is well-formed, the identity is full-size, every
    /// connection matches the torrent's geometry, and peer identities
    /// are unique.
    pub open spec fn wf(self) -> bool {
        &&& self.store.wf()
        &&& self.info_hash@.len() == DIGEST_LEN
        &&& forall|i: int| 0 <= i < self.peers@.len() ==> #[trigger] self.peers@[i].wf()
        &&& forall|i: int|
            0 <= i < self.peers@.len() ==> #[trigger] self.peers@[i].n_pieces
                == self.store.n_pieces()
        &&& forall|i: int, j: int|
            0 <= i < j < self.peers@.len() ==> #[trigger] self.peers@[i].peer_id
                != #[trigger] self.peers@[j].peer_id
    }

    /// Availability of piece `p` across the current peer set.
    pub open spec fn availability_of(self, p: int) -> int {
        avail_seq(self.peers@, p)
    }

    /// A piece worth requesting: missing here, advertised by at least
    /// one established peer.
    pub open spec fn candidate(self, p: int) -> bool {
        &&& 0 <= p < self.store.n_pieces()
        &&& self.store.states@[p] == PieceState::Missing
        &&& self.availability_of(p) >= 1
    }

    /// A new swarm around an existing store, with no peers yet.
    pub fn new(info_hash: Vec<u8>, store: PieceStore, max_unchoked: usize, endgame_threshold: usize) -> (r: Swarm)
        requires
            store.wf(),
            info_hash@.len() == DIGEST_LEN,
        ensures
            r.wf(),
            r.info_hash@ == info_hash@,
            r.store == store,
            r.peers@.len() == 0,
            r.max_unchoked == max_unchoked,
            r.endgame_threshold == endgame_threshold,
    {
        Swarm { info_hash, store, peers: Vec::new(), max_unchoked, endgame_threshold }
    }

    /// Counts established peers advertising piece `p`.
    pub fn availability(&self, p: usize) -> (r: usize)
        requires
            self.wf(),
            p < self.store.n_pieces(),
        ensures
            r == self.availability_of(p as int),
    {
        let mut count: usize = 0;
        let mut i: usize = 0;
        while i < self.peers.len()
            invariant
                self.wf(),
                p < self.store.n_pieces(),
                i <= self.peers@.len(),
                count == avail_seq(self.peers@.take(i as int), p as int),
                count <= i,
            decreases self.peers@.len() - i,
        {
            let established = matches!(self.peers[i].state, ConnState::Established);
            let claims = p < self.peers[i].remote_bitfield.len() && self.peers[i].remote_bitfield[p];
            proof {
                assert(self.peers@.take(i + 1 as int) =~= self.peers@.take(i as int).push(
                    self.peers@[i as int],
                ));
                lemma_avail_push(self.peers@.take(i as int), self.peers@[i as int], p as int);
            }
            if established && claims {
                count = count + 1;
            }
            i = i + 1;
        }
        proof {
            assert(self.peers@.take(self.peers@.len() as int) =~= self.peers@);
        }
        count
    }

    /// Rarest-first selection: among missing pieces that at least one
    /// established peer advertises, returns one with minimal
    /// availability; `tie` picks among equally rare pieces. Returns
    /// `None` exactly when no such piece exists.
    pub fn select_piece(&self, tie: u64) -> (r: Option<usize>)
        requires
            self.wf(),
        ensures
            r is Some <==> exists|q: int| self.candidate(q),
            match r {
                Some(p) => self.candidate(p as int) && forall|q: int|
                    self.candidate(q) ==> self.availability_of(p as int)
                        <= self.availability_of(q),
                None => true,
            },
    {
        let n: usize = self.store.states.len();
        let mut best: usize = 0;
        let mut best_avail: usize = 0;
        let mut ties: usize = 0;
        let mut found: bool = false;
        let mut p: usize = 0;
        while p < n
            invariant
                self.wf(),
                n == self.store.n_pieces(),
                p <= n,
                !found ==> forall|q: int| 0 <= q < p ==> !self.candidate(q),
                found ==> {
                    &&& self.candidate(best as int)
                    &&& best < p
                    &&& best_avail == self.availability_of(best as int)
                    &&& ties >= 1
                    &&& ties <= p
                    &&& forall|q: int|
                        0 <= q < p && self.candidate(q) ==> best_avail
                            <= self.availability_of(q)
                },
            decreases n - p,
        {
            let st = self.store.states[p];
            if matches!(st, PieceState::Missing) {
                let a = self.availability(p);
                if a >= 1 {
                    if !found || a < best_avail {
                        best = p;
                        best_avail = a;
                        ties = 1;
                        found = true;
                    } else if a == best_avail {
                        ties = ties + 1;
                    }
                }
            }
            p = p + 1;
        }
        if !found {
            return None;
        }
        let pick: usize = (tie % (ties as u64)) as usize;
        let mut seen: usize = 0;
        let mut p: usize = 0;
        while p < n
            invariant
                self.wf(),
                n == self.store.n_pieces(),
                p <= n,
                seen <= pick,
                self.candidate(best as int),
                best_avail == self.availability_of(best as int),
                forall|q: int| self.candidate(q) ==> best_avail <= self.availability_of(q),
            decreases n - p,
        {
            let st = self.store.states[p];
            if matches!(st, PieceState::Missing) {
                let a = self.availability(p);
                if a == best_avail {
                    if seen == pick {
                        return Some(p);
                    }
                    seen = seen + 1;
                }
            }
            p = p + 1;
        }
        Some(best)
    }

    /// Count of missing pieces.
    pub fn missing_count(&self) -> (r: usize)
        requires
            self.wf(),
        ensures
            r == PieceStore::count_state_seq(self.store.states@, PieceState::Missing),
    {
        count_states(&self.store.states, PieceState::Missing)
    }

    /// Endgame: few enough pieces are missing that duplicate requests
    /// to several peers are worth it.
    pub open spec fn in_endgame(self) -> bool {
        PieceStore::count_state_seq(self.store.states@, PieceState::Missing)
            <= self.endgame_threshold
    }

    /// Whether the swarm is in endgame mode.
    pub fn endgame(&self) -> (r: bool)
        requires
            self.wf(),
        ensures
            r == self.in_endgame(),
    {
        self.missing_count() <= self.endgame_threshold
    }

    /// The peers to ask for piece `p` in endgame: every established
    /// peer that advertises it.
    pub fn endgame_targets(&self, p: usize) -> (r: Vec<usize>)
        requires
            self.wf(),
            p < self.store.n_pieces(),
        ensures
            forall|k: int|
                0 <= k < r@.len() ==> {
                    &&& #[trigger] r@[k] < self.peers@.len()
                    &&& self.peers@[r@[k] as int].state == ConnState::Established
                    &&& self.peers@[r@[k] as int].claims_piece(p as int)
                },
            forall|i: int|
                0 <= i < self.peers@.len() && #[trigger] self.peers@[i].state
                    == ConnState::Established && self.peers@[i].claims_piece(p as int)
                    ==> r@.contains(i as usize),
    {
        let mut out: Vec<usize> = Vec::new();
        let mut i: usize = 0;
        while i < self.peers.len()
            invariant
                self.wf(),
                p < self.store.n_pieces(),
                i <= self.peers@.len(),
                forall|k: int|
                    0 <= k < out@.len() ==> {
                        &&& #[trigger] out@[k] < self.peers@.len()
                        &&& self.peers@[out@[k] as int].state == ConnState::Established
                        &&& self.peers@[out@[k] as int].claims_piece(p as int)
                    },
                forall|j: int|
                    0 <= j < i && #[trigger] self.peers@[j].state == ConnState::Established
                        && self.peers@[j].claims_piece(p as int) ==> out@.contains(j as usize),
            decreases self.peers@.len() - i,
        {
            let established = matches!(self.peers[i].state, ConnState::Established);
            let claims = p < self.peers[i].remote_bitfield.len() && self.peers[i].remote_bitfield[p];
            let ghost prev = out@;
            if established && claims {
                out.push(i);
            }
            proof {
                assert forall|j: int|
                    0 <= j < i + 1 && #[trigger] self.peers@[j].state == ConnState::Established
                        && self.peers@[j].claims_piece(p as int) implies out@.contains(
                    j as usize,
                ) by {
                    if j == i {
                        assert(out@[out@.len() - 1] == i as usize);
                    } else {
                        assert(prev.contains(j as usize));
                        let k = choose|k: int| 0 <= k < prev.len() && prev[k] == j as usize;
                        assert(out@[k] == j as usize);
                    }
                }
            }
            i = i + 1;
        }
        out
    }
    /// Swarm-level verification of a requested piece: delegates to the
    /// store and reports a digest mismatch as `VerificationFailure`
    /// (recovered by the caller re-requesting the piece, never fatal).
    /// Returns `Ok(true)` exactly when the fully assembled bytes match
    /// the expected digest, `Ok(false)` when the assembly area still
    /// has gaps.
    pub fn verify_piece(&mut self, p: usize) -> (r: Result<bool, EngineError>)
        requires
            old(self).wf(),
            p < old(self).store.n_pieces(),
            old(self).store.states@[p as int] == PieceState::Requested,
        ensures
            final(self).wf(),
            final(self).peers@ == old(self).peers@,
            final(self).info_hash@ == old(self).info_hash@,
            final(self).max_unchoked == old(self).max_unchoked,
            final(self).endgame_threshold == old(self).endgame_threshold,
            final(self).store.piece_length == old(self).store.piece_length,
            final(self).store.total_length == old(self).store.total_length,
            final(self).store.expected@ == old(self).store.expected@,
            final(self).store.data@ == old(self).store.data@,
            r == Result::<bool, EngineError>::Ok(true) <==> (old(self).store.piece_full(p as int)
                && crate::hashing::digest_of(old(self).store.piece_bytes(p as int)) == old(self).store.expected@[p as int]@),
            r == Result::<bool, EngineError>::Ok(false) <==> !old(self).store.piece_full(
                p as int,
            ),
            r == Result::<bool, EngineError>::Ok(true) ==> final(self).store.states@ == old(self).store.states@.update(p as int, PieceState::Verified),
            r == Result::<bool, EngineError>::Ok(false) ==> final(self).store.states@ == old(self).store.states@ && final(self).store.filled@ == old(self).store.filled@,
            r is Err ==> r == Result::<bool, EngineError>::Err(EngineError::VerificationFailure)
                && final(self).store.states@ == old(self).store.states@.update(
                p as int,
                PieceState::Missing,
            ) && !final(self).store.piece_full(p as int),
            final(self).store.states@[p as int] == PieceState::Verified <==> (old(self).store.piece_full(p as int) && crate::hashing::digest_of(
                old(self).store.piece_bytes(p as int),
            ) == old(self).store.expected@[p as int]@),
            old(self).store.hashes_ok() ==> final(self).store.hashes_ok(),
    {
        let outcome = self.store.try_verify(p);
        match outcome {
            crate::piece_store::VerifyOutcome::Accepted => Ok(true),
            crate::piece_store::VerifyOutcome::Incomplete => Ok(false),
            crate::piece_store::VerifyOutcome::Rejected => Err(
                EngineError::VerificationFailure,
            ),
        }
    }

    /// Endgame cancel: once a piece has been verified from one source,
    /// withdraws every remaining outstanding request for it from every
    /// connection, so no peer keeps serving a redundant block.
    pub fn cancel_redundant(&mut self, piece: usize)
        requires
            old(self).wf(),
        ensures
            final(self).wf(),
            final(self).store == old(self).store,
            final(self).info_hash@ == old(self).info_hash@,
            final(self).max_unchoked == old(self).max_unchoked,
            final(self).endgame_threshold == old(self).endgame_threshold,
            final(self).peers@.len() == old(self).peers@.len(),
            forall|i: int|
                0 <= i < old(self).peers@.len() ==> {
                    &&& (#[trigger] final(self).peers@[i]).outstanding@
                        == crate::peer::without_piece(old(self).peers@[i].outstanding@, piece)
                    &&& final(self).peers@[i].state == old(self).peers@[i].state
                    &&& final(self).peers@[i].remote_bitfield@ == old(self).peers@[i].remote_bitfield@
                    &&& crate::peer::same_rest(final(self).peers@[i], old(self).peers@[i])
                },
            forall|i: int|
                0 <= i < final(self).peers@.len() ==> !#[trigger] final(self).peers@[i].requests_piece(piece as int),
    {
        let n: usize = self.peers.len();
        let mut i: usize = 0;
        while i < n
            invariant
                old(self).wf(),
                n == old(self).peers@.len(),
                self.peers@.len() == n,
                i <= n,
                self.store == old(self).store,
                self.info_hash@ == old(self).info_hash@,
                self.max_unchoked == old(self).max_unchoked,
                self.endgame_threshold == old(self).endgame_threshold,
                forall|j: int| i <= j < n ==> #[trigger] self.peers@[j] == old(self).peers@[j],
                forall|j: int|
                    0 <= j < i ==> {
                        &&& (#[trigger] self.peers@[j]).outstanding@
                            == crate::peer::without_piece(old(self).peers@[j].outstanding@, piece)
                        &&& self.peers@[j].wf()
                        &&& !self.peers@[j].requests_piece(piece as int)
                        &&& self.peers@[j].state == old(self).peers@[j].state
                        &&& self.peers@[j].remote_bitfield@ == old(self).peers@[j].remote_bitfield@
                        &&& crate::peer::same_rest(self.peers@[j], old(self).peers@[j])
                    },
            decreases n - i,
        {
            let ghost prev = self.peers@;
            let mut pc = self.peers.remove(i);
            pc.cancel_piece(piece);
            self.peers.insert(i, pc);
            proof {
                prev.remove_ensures(i as int);
                assert forall|j: int| 0 <= j < n && j != i implies #[trigger] self.peers@[j]
                    == prev[j] by {
                    if j < i {
                        assert(self.peers@[j] == prev.remove(i as int)[j]);
                    } else {
                        assert(self.peers@[j] == prev.remove(i as int)[j - 1]);
                    }
                }
                assert(self.peers@[i as int] == pc);
            }
            i = i + 1;
        }
        proof {
            assert forall|i2: int, j2: int|
                0 <= i2 < j2 < self.peers@.len() implies #[trigger] self.peers@[i2].peer_id
                != #[trigger] self.peers@[j2].peer_id by {
                assert(crate::peer::same_rest(self.peers@[i2], old(self).peers@[i2]));
                assert(crate::peer::same_rest(self.peers@[j2], old(self).peers@[j2]));
            }
            assert forall|k: int| 0 <= k < self.peers@.len() implies (#[trigger] self.peers@[
            k]).wf() && self.peers@[k].n_pieces == self.store.n_pieces() by {
                assert(crate::peer::same_rest(self.peers@[k], old(self).peers@[k]));
            }
        }
    }

    /// Some peer other than `idx` has an outstanding request for `p`.
    pub open spec fn requested_elsewhere(peers: Seq<PeerConnection>, idx: int, p: int) -> bool {
        exists|j: int| 0 <= j < peers.len() && j != idx && #[trigger] peers[j].requests_piece(p)
    }

    /// Registers a connection for a remote identity. An existing
    /// connection for the same identity is replaced (the replacing
    /// role is irrelevant); otherwise the peer set grows by one. The
    /// new connection starts in `Connecting`.
    pub fn add_peer(&mut self, peer_id: u64, pipeline_limit: usize, timeout_limit: u64) -> (idx:
        usize)
        requires
            old(self).wf(),
            timeout_limit > 0,
        ensures
            final(self).wf(),
            final(self).store == old(self).store,
            final(self).info_hash@ == old(self).info_hash@,
            final(self).max_unchoked == old(self).max_unchoked,
            final(self).endgame_threshold == old(self).endgame_threshold,
            idx < final(self).peers@.len(),
            final(self).peers@[idx as int].peer_id == peer_id,
            final(self).peers@[idx as int].state == ConnState::Connecting,
            final(self).peers@[idx as int].outstanding@.len() == 0,
            forall|k: int|
                0 <= k < final(self).peers@.len() && k != idx ==> #[trigger] final(self).peers@[k] == old(self).peers@[k],
            (exists|j: int|
                0 <= j < old(self).peers@.len() && #[trigger] old(self).peers@[j].peer_id
                    == peer_id) ==> final(self).peers@.len() == old(self).peers@.len() && old(self).peers@[idx as int].peer_id == peer_id,
            !(exists|j: int|
                0 <= j < old(self).peers@.len() && #[trigger] old(self).peers@[j].peer_id
                    == peer_id) ==> final(self).peers@.len() == old(self).peers@.len() + 1 && idx
                == old(self).peers@.len(),
    {
        let n_pieces: usize = self.store.states.len();
        let fresh = PeerConnection::new(peer_id, n_pieces, pipeline_limit, timeout_limit);
        let mut i: usize = 0;
        while i < self.peers.len()
            invariant
                *self == *old(self),
                old(self).wf(),
                n_pieces == self.store.n_pieces(),
                fresh.wf(),
                fresh.peer_id == peer_id,
                fresh.state == ConnState::Connecting,
                fresh.outstanding@.len() == 0,
                fresh.n_pieces == n_pieces,
                i <= self.peers@.len(),
                forall|j: int| 0 <= j < i ==> #[trigger] self.peers@[j].peer_id != peer_id,
            decreases self.peers@.len() - i,
        {
            if self.peers[i].peer_id == peer_id {
                self.peers[i] = fresh;
                return i;
            }
            i = i + 1;
        }
        self.peers.push(fresh);
        proof {
            assert(self.peers@[self.peers@.len() - 1] == fresh);
        }
        self.peers.len() - 1
    }

    /// A peer disconnected (or was removed): its connection closes and
    /// every piece whose outstanding requests lived only on that
    /// connection returns to `Missing`, so it can be requested
    /// elsewhere. Verified pieces and assembled data are untouched.
    pub fn on_peer_disconnected(&mut self, idx: usize)
        requires
            old(self).wf(),
            idx < old(self).peers@.len(),
        ensures
            final(self).wf(),
            final(self).info_hash@ == old(self).info_hash@,
            final(self).max_unchoked == old(self).max_unchoked,
            final(self).endgame_threshold == old(self).endgame_threshold,
            final(self).peers@.len() == old(self).peers@.len(),
            final(self).peers@[idx as int].state == ConnState::Closed,
            final(self).peers@[idx as int].peer_id == old(self).peers@[idx as int].peer_id,
            forall|k: int|
                0 <= k < old(self).peers@.len() && k != idx ==> #[trigger] final(self).peers@[k] == old(self).peers@[k],
            final(self).store.piece_length == old(self).store.piece_length,
            final(self).store.total_length == old(self).store.total_length,
            final(self).store.expected@ == old(self).store.expected@,
            final(self).store.data@ == old(self).store.data@,
            forall|p: int|
                0 <= p < old(self).store.n_pieces() ==> #[trigger] final(self).store.states@[p]
                    == (if old(self).store.states@[p] == PieceState::Requested && old(self).peers@[idx as int].requests_piece(p) && !Self::requested_elsewhere(
                    old(self).peers@,
                    idx as int,
                    p,
                ) {
                    PieceState::Missing
                } else {
                    old(self).store.states@[p]
                }),
            forall|k: int|
                0 <= k < old(self).store.total_length && #[trigger] final(self).store.filled@[k]
                    ==> old(self).store.filled@[k],
            old(self).store.hashes_ok() ==> final(self).store.hashes_ok(),
    {
        let mut pc = self.peers.remove(idx);
        let ghost opeers = old(self).peers@;
        let mut t: usize = 0;
        while t < pc.outstanding.len()
            invariant
                old(self).wf(),
                idx < opeers.len(),
                pc.outstanding@ == opeers[idx as int].outstanding@,
                pc.wf(),
                pc.n_pieces == old(self).store.n_pieces(),
                t <= pc.outstanding@.len(),
                self.peers@ == opeers.remove(idx as int),
                self.info_hash@ == old(self).info_hash@,
                self.max_unchoked == old(self).max_unchoked,
                self.endgame_threshold == old(self).endgame_threshold,
                self.store.wf(),
                self.store.piece_length == old(self).store.piece_length,
                self.store.total_length == old(self).store.total_length,
                self.store.expected@ == old(self).store.expected@,
                self.store.data@ == old(self).store.data@,
                forall|p: int|
                    0 <= p < old(self).store.n_pieces() ==> #[trigger] self.store.states@[p] == (
                    if old(self).store.states@[p] == PieceState::Requested && (exists|k: int|
                        0 <= k < t && #[trigger] pc.outstanding@[k].piece == p)
                        && !Self::requested_elsewhere(opeers, idx as int, p) {
                        PieceState::Missing
                    } else {
                        old(self).store.states@[p]
                    }),
                forall|k: int|
                    0 <= k < old(self).store.total_length && #[trigger] self.store.filled@[k]
                        ==> old(self).store.filled@[k],
                old(self).store.hashes_ok() ==> self.store.hashes_ok(),
            decreases pc.outstanding@.len() - t,
        {
            let p: usize = pc.outstanding[t].piece;
            let st = self.store.states[p];
            if matches!(st, PieceState::Requested) && !any_peer_requests(&self.peers, p) {
                proof {
                    assert forall|j: int|
                        0 <= j < opeers.len() && j != idx implies !#[trigger] opeers[
                        j].requests_piece(p as int) by {
                        opeers.remove_ensures(idx as int);
                        if j < idx {
                            assert(self.peers@[j] == opeers[j]);
                        } else {
                            assert(self.peers@[j - 1] == opeers[j]);
                        }
                    }
                    assert(!Self::requested_elsewhere(opeers, idx as int, p as int));
                }
                self.store.release_piece(p);
            } else {
                proof {
                    if matches!(st, PieceState::Requested) {
                        let j = choose|j: int|
                            0 <= j < self.peers@.len() && #[trigger] self.peers@[
                            j].requests_piece(p as int);
                        opeers.remove_ensures(idx as int);
                        if j < idx {
                            assert(opeers[j].requests_piece(p as int));
                        } else {
                            assert(opeers[j + 1].requests_piece(p as int));
                        }
                        assert(Self::requested_elsewhere(opeers, idx as int, p as int));
                    }
                }
            }
            proof {
                assert(opeers[idx as int].outstanding@[t as int].piece == p);
            }
            t = t + 1;
        }
        pc.close();
        self.peers.insert(idx, pc);
        proof {
            opeers.remove_ensures(idx as int);
            assert forall|k: int|
                0 <= k < opeers.len() && k != idx implies #[trigger] self.peers@[k] == opeers[
            k] by {}
            assert forall|p: int| 0 <= p < old(self).store.n_pieces() implies #[trigger] self
                .store.states@[p] == (if old(self).store.states@[p] == PieceState::Requested
                && old(self).peers@[idx as int].requests_piece(p) && !Self::requested_elsewhere(
                old(self).peers@,
                idx as int,
                p,
            ) {
                PieceState::Missing
            } else {
                old(self).store.states@[p]
            }) by {}
        }
    }
}

/// Strict priority between peers for the choke algorithm: more bytes
/// reciprocated wins, with the identity as an arbitrary fixed
/// tie-break.
pub open spec fn outranks(a: PeerConnection, b: PeerConnection) -> bool {
    a.bytes_down > b.bytes_down || (a.bytes_down == b.bytes_down && a.peer_id < b.peer_id)
}

/// How many established peers in the set strictly outrank `me`.
pub open spec fn count_outranking(peers: Seq<PeerConnection>, me: PeerConnection) -> int
    decreases peers.len(),
{
    if peers.len() == 0 {
        0
    } else {
        (if peers[0].state == ConnState::Established && outranks(peers[0], me) {
            1int
        } else {
            0int
        }) + count_outranking(peers.drop_first(), me)
    }
}

/// Appending a peer adds its own contribution to the outranking count.
pub proof fn lemma_count_outranking_push(
    peers: Seq<PeerConnection>,
    x: PeerConnection,
    me: PeerConnection,
)
    ensures
        count_outranking(peers.push(x), me) == count_outranking(peers, me) + (
        if x.state == ConnState::Established && outranks(x, me) {
            1int
        } else {
            0int
        }),
    decreases peers.len(),
{
    if peers.len() == 0 {
        assert(peers.push(x).drop_first() =~= Seq::<PeerConnection>::empty());
        assert(peers =~= Seq::<PeerConnection>::empty());
    } else {
        assert(peers.push(x).drop_first() =~= peers.drop_first().push(x));
        lemma_count_outranking_push(peers.drop_first(), x, me);
        assert(peers.push(x)[0] == peers[0]);
    }
}

/// A peer earns an unchoked slot when it is established and fewer than
/// `max` established peers outrank it.
pub open spec fn earns_slot(peers: Seq<PeerConnection>, i: int, max: int) -> bool {
    &&& 0 <= i < peers.len()
    &&& peers[i].state == ConnState::Established
    &&& count_outranking(peers, peers[i]) < max
}

/// Two connections that differ at most in the local choke flag.
pub open spec fn choking_only_diff(a: PeerConnection, b: PeerConnection) -> bool {
    &&& a.peer_id == b.peer_id
    &&& a.state == b.state
    &&& a.n_pieces == b.n_pieces
    &&& a.remote_bitfield@ == b.remote_bitfield@
    &&& a.outstanding@ == b.outstanding@
    &&& a.pipeline_limit == b.pipeline_limit
    &&& a.missed_deadlines == b.missed_deadlines
    &&& a.timeout_limit == b.timeout_limit
    &&& a.peer_choking == b.peer_choking
    &&& a.bytes_up == b.bytes_up
    &&& a.bytes_down == b.bytes_down
}

/// Counts established peers that strictly outrank the one with the
/// given reciprocation key.
fn count_outranking_exec(peers: &Vec<PeerConnection>, me_bd: u64, me_id: u64, me: Ghost<PeerConnection>) -> (r: usize)
    requires
        me@.bytes_down == me_bd,
        me@.peer_id == me_id,
    ensures
        r == count_outranking(peers@, me@),
{
    let mut count: usize = 0;
    let mut i: usize = 0;
    while i < peers.len()
        invariant
            i <= peers@.len(),
            me@.bytes_down == me_bd,
            me@.peer_id == me_id,
            count == count_outranking(peers@.take(i as int), me@),
            count <= i,
        decreases peers@.len() - i,
    {
        proof {
            assert(peers@.take(i + 1 as int) =~= peers@.take(i as int).push(peers@[i as int]));
            lemma_count_outranking_push(peers@.take(i as int), peers@[i as int], me@);
        }
        let established = matches!(peers[i].state, ConnState::Established);
        let wins = peers[i].bytes_down > me_bd || (peers[i].bytes_down == me_bd
            && peers[i].peer_id < me_id);
        if established && wins {
            count = count + 1;
        }
        i = i + 1;
    }
    proof {
        assert(peers@.take(peers@.len() as int) =~= peers@);
    }
    count
}

impl Swarm {
    /// Re-evaluates the choke set (run on a fixed interval): an
    /// established peer is unchoked exactly when fewer than
    /// `max_unchoked` established peers reciprocate strictly more, or
    /// when it holds the one optimistic slot, which `optimistic` picks
    /// among the peers that earned none. Other connections are
    /// untouched apart from the flag.
    pub fn recompute_unchoked(&mut self, optimistic: u64) -> (opt: Option<usize>)
        requires
            old(self).wf(),
        ensures
            final(self).wf(),
            final(self).store == old(self).store,
            final(self).info_hash@ == old(self).info_hash@,
            final(self).max_unchoked == old(self).max_unchoked,
            final(self).endgame_threshold == old(self).endgame_threshold,
            final(self).peers@.len() == old(self).peers@.len(),
            forall|i: int|
                0 <= i < old(self).peers@.len() ==> choking_only_diff(
                    #[trigger] final(self).peers@[i],
                    old(self).peers@[i],
                ),
            forall|i: int|
                0 <= i < old(self).peers@.len() && old(self).peers@[i].state
                    == ConnState::Established ==> #[trigger] final(self).peers@[i].am_choking
                    == !(earns_slot(old(self).peers@, i, old(self).max_unchoked as int) || opt
                    == Some(i as usize)),
            forall|i: int|
                0 <= i < old(self).peers@.len() && old(self).peers@[i].state
                    != ConnState::Established ==> #[trigger] final(self).peers@[i].am_choking
                    == old(self).peers@[i].am_choking,
            match opt {
                Some(o) => o < old(self).peers@.len() && old(self).peers@[o as int].state
                    == ConnState::Established && !earns_slot(
                    old(self).peers@,
                    o as int,
                    old(self).max_unchoked as int,
                ),
                None => forall|i: int|
                    0 <= i < old(self).peers@.len() && #[trigger] old(self).peers@[i].state
                        == ConnState::Established ==> earns_slot(
                        old(self).peers@,
                        i,
                        old(self).max_unchoked as int,
                    ),
            },
    {
        let n: usize = self.peers.len();
        let max: usize = self.max_unchoked;
        let mut decisions: Vec<bool> = Vec::new();
        let mut i: usize = 0;
        while i < n
            invariant
                *self == *old(self),
                old(self).wf(),
                n == self.peers@.len(),
                max == self.max_unchoked,
                i <= n,
                decisions@.len() == i,
                forall|j: int|
                    0 <= j < i ==> #[trigger] decisions@[j] == earns_slot(
                        self.peers@,
                        j,
                        max as int,
                    ),
            decreases n - i,
        {
            let established = matches!(self.peers[i].state, ConnState::Established);
            if established {
                let cnt = count_outranking_exec(
                    &self.peers,
                    self.peers[i].bytes_down,
                    self.peers[i].peer_id,
                    Ghost(self.peers@[i as int]),
                );
                decisions.push(cnt < max);
            } else {
                decisions.push(false);
            }
            i = i + 1;
        }
        let mut others: usize = 0;
        let mut i: usize = 0;
        while i < n
            invariant
                *self == *old(self),
                old(self).wf(),
                n == self.peers@.len(),
                max == self.max_unchoked,
                decisions@.len() == n,
                i <= n,
                others <= i,
                forall|j: int|
                    0 <= j < n ==> #[trigger] decisions@[j] == earns_slot(
                        self.peers@,
                        j,
                        max as int,
                    ),
                others == 0 ==> forall|j: int|
                    0 <= j < i && #[trigger] self.peers@[j].state == ConnState::Established
                        ==> earns_slot(self.peers@, j, max as int),
            decreases n - i,
        {
            let established = matches!(self.peers[i].state, ConnState::Established);
            if established && !decisions[i] {
                others = others + 1;
            }
            i = i + 1;
        }
        let mut opt: Option<usize> = None;
        if others > 0 {
            let pick: usize = (optimistic % (others as u64)) as usize;
            let mut seen: usize = 0;
            let mut fallback: Option<usize> = None;
            let mut i: usize = 0;
            while i < n
                invariant
                    *self == *old(self),
                    old(self).wf(),
                    n == self.peers@.len(),
                    max == self.max_unchoked,
                    decisions@.len() == n,
                    i <= n,
                    seen <= pick,
                    forall|j: int|
                        0 <= j < n ==> #[trigger] decisions@[j] == earns_slot(
                            self.peers@,
                            j,
                            max as int,
                        ),
                    match opt {
                        Some(o) => o < n && self.peers@[o as int].state
                            == ConnState::Established && !earns_slot(
                            self.peers@,
                            o as int,
                            max as int,
                        ),
                        None => true,
                    },
                    match fallback {
                        Some(o) => o < n && self.peers@[o as int].state
                            == ConnState::Established && !earns_slot(
                            self.peers@,
                            o as int,
                            max as int,
                        ),
                        None => forall|j: int|
                            0 <= j < i && #[trigger] self.peers@[j].state
                                == ConnState::Established ==> earns_slot(
                                self.peers@,
                                j,
                                max as int,
                            ),
                    },
                decreases n - i,
            {
                let established = matches!(self.peers[i].state, ConnState::Established);
                if established && !decisions[i] {
                    if matches!(fallback, None) {
                        fallback = Some(i);
                    }
                    if matches!(opt, None) {
                        if seen == pick {
                            opt = Some(i);
                        } else {
                            seen = seen + 1;
                        }
                    }
                }
                i = i + 1;
            }
            if matches!(opt, None) {
                opt = fallback;
            }
        }
        let ghost opeers = old(self).peers@;
        let mut i: usize = 0;
        while i < n
            invariant
                old(self).wf(),
                n == opeers.len(),
                max == self.max_unchoked,
                self.max_unchoked == old(self).max_unchoked,
                self.endgame_threshold == old(self).endgame_threshold,
                self.store == old(self).store,
                self.info_hash@ == old(self).info_hash@,
                decisions@.len() == n,
                i <= n,
                self.peers@.len() == n,
                forall|j: int|
                    0 <= j < n ==> #[trigger] decisions@[j] == earns_slot(opeers, j, max as int),
                match opt {
                    Some(o) => o < n && opeers[o as int].state == ConnState::Established
                        && !earns_slot(opeers, o as int, max as int),
                    None => true,
                },
                forall|j: int| i <= j < n ==> #[trigger] self.peers@[j] == opeers[j],
                forall|j: int|
                    0 <= j < i ==> choking_only_diff(#[trigger] self.peers@[j], opeers[j]),
                forall|j: int|
                    0 <= j < i && opeers[j].state == ConnState::Established
                        ==> #[trigger] self.peers@[j].am_choking == !(earns_slot(
                        opeers,
                        j,
                        max as int,
                    ) || opt == Some(j as usize)),
                forall|j: int|
                    0 <= j < i && opeers[j].state != ConnState::Established
                        ==> #[trigger] self.peers@[j].am_choking == opeers[j].am_choking,
            decreases n - i,
        {
            let established = matches!(self.peers[i].state, ConnState::Established);
            if established {
                let slot = decisions[i];
                let is_opt = match opt {
                    Some(o) => o == i,
                    None => false,
                };
                let ghost prev = self.peers@;
                let mut pc = self.peers.remove(i);
                pc.set_choking(!(slot || is_opt));
                self.peers.insert(i, pc);
                proof {
                    prev.remove_ensures(i as int);
                    assert forall|j: int| 0 <= j < n && j != i implies #[trigger] self.peers@[j]
                        == prev[j] by {
                        if j < i {
                            assert(self.peers@[j] == prev.remove(i as int)[j]);
                        } else {
                            assert(self.peers@[j] == prev.remove(i as int)[j - 1]);
                        }
                    }
                    assert(self.peers@[i as int] == pc);
                }
            }
            i = i + 1;
        }
        proof {
            assert forall|k: int| 0 <= k < self.peers@.len() implies (#[trigger] self.peers@[
            k]).wf() && self.peers@[k].n_pieces == self.store.n_pieces() by {
                assert(choking_only_diff(self.peers@[k], opeers[k]));
                assert(opeers[k].wf());
            }
            assert forall|i2: int, j2: int|
                0 <= i2 < j2 < self.peers@.len() implies #[trigger] self.peers@[i2].peer_id
                != #[trigger] self.peers@[j2].peer_id by {
                assert(choking_only_diff(self.peers@[i2], opeers[i2]));
                assert(choking_only_diff(self.peers@[j2], opeers[j2]));
            }
        }
        opt
    }
}

/// Some peer in the set has an outstanding request for piece `p`.
pub fn any_peer_requests(peers: &Vec<PeerConnection>, p: usize) -> (r: bool)
    ensures
        r == exists|j: int|
            0 <= j < peers@.len() && #[trigger] peers@[j].requests_piece(p as int),
{
    let mut i: usize = 0;
    while i < peers.len()
        invariant
            i <= peers@.len(),
            forall|j: int| 0 <= j < i ==> !#[trigger] peers@[j].requests_piece(p as int),
        decreases peers@.len() - i,
    {
        let mut k: usize = 0;
        while k < peers[i].outstanding.len()
            invariant
                i < peers@.len(),
                k <= peers@[i as int].outstanding@.len(),
                forall|m: int|
                    0 <= m < k ==> #[trigger] peers@[i as int].outstanding@[m].piece != p,
            decreases peers@[i as int].outstanding@.len() - k,
        {
            if peers[i].outstanding[k].piece == p {
                proof {
                    assert(peers@[i as int].outstanding@[k as int].piece == p);
                    assert(peers@[i as int].requests_piece(p as int));
                }
                return true;
            }
            k = k + 1;
        }
        proof {
            assert(!peers@[i as int].requests_piece(p as int));
        }
        i = i + 1;
    }
    false
}

/// Counts entries of `states` equal to `s`.
pub fn count_states(states: &Vec<PieceState>, s: PieceState) -> (r: usize)
    ensures
        r == PieceStore::count_state_seq(states@, s),
{
    let mut count: usize = 0;
    let mut i: usize = 0;
    while i < states.len()
        invariant
            i <= states@.len(),
            count == PieceStore::count_state_seq(states@.take(i as int), s),
            count <= i,
        decreases states@.len() - i,
    {
        proof {
            assert(states@.take(i + 1 as int) =~= states@.take(i as int).push(states@[i as int]));
            lemma_count_state_push(states@.take(i as int), states@[i as int], s);
        }
        if matches!(states[i], PieceState::Missing) == matches!(s, PieceState::Missing)
            && matches!(states[i], PieceState::Requested) == matches!(s, PieceState::Requested)
            && matches!(states[i], PieceState::Verified) == matches!(s, PieceState::Verified) {
            count = count + 1;
        }
        i = i + 1;
    }
    proof {
        assert(states@.take(states@.len() as int) =~= states@);
    }
    count
}

/// Appending a state adds its own contribution to the count.
pub proof fn lemma_count_state_push(sts: Seq<PieceState>, x: PieceState, s: PieceState)
    ensures
        PieceStore::count_state_seq(sts.push(x), s) == PieceStore::count_state_seq(sts, s) + (
        if x == s {
            1int
        } else {
            0int
        }),
    decreases sts.len(),
{
    if sts.len() == 0 {
        assert(sts.push(x).drop_first() =~= Seq::<PieceState>::empty());
        assert(sts =~= Seq::<PieceState>::empty());
    } else {
        assert(sts.push(x).drop_first() =~= sts.drop_first().push(x));
        lemma_count_state_push(sts.drop_first(), x, s);
        assert(sts.push(x)[0] == sts[0]);
    }
}

} // verus!
