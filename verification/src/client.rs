//! The client: a process-wide registry of active torrents keyed by
//! info hash (keys unique), wired to the shared rate limiter. Seeding
//! registers a fully verified swarm; adding registers an empty one
//! that downloads; removing drops a swarm with every connection it
//! owns, so nothing dangles and no further progress can be reported
//! for that identity.

use vstd::prelude::*;

use crate::descriptor::COUNT_LIMIT;
use crate::descriptor::FileEntry;
use crate::descriptor::TorrentDescriptor;
use crate::descriptor::piece_count;
use crate::errors::EngineError;
use crate::hashing::DIGEST_LEN;
use crate::piece_store::PieceStore;
use crate::rate_limiter::TokenBucket;
use crate::swarm::Swarm;

verus! {

/// Default bound on concurrently unchoked peers per swarm.
pub const DEFAULT_MAX_UNCHOKED: usize = 4;

/// Default number of missing pieces at which endgame mode starts.
pub const DEFAULT_ENDGAME_THRESHOLD: usize = 2;

/// Burst capacity of the shared token buckets: one block's worth of
/// bytes, so a throttled direction can overshoot a window by at most
/// one block.
pub const BURST_BYTES: u64 = 16384;

/// The registry of active swarms plus the two shared token buckets.
pub struct Client {
    pub swarms: Vec<Swarm>,
    pub download_bucket: TokenBucket,
    pub upload_bucket: TokenBucket,
    pub destroyed: bool,
}

/// There are at most as many pieces as bytes.
pub proof fn lemma_piece_count_le_total(total: u64, pl: u64)
    requires
        pl >= 1,
    ensures
        piece_count(total, pl) <= total,
        piece_count(total, pl) >= 0,
{
    if total > 0 {
        let t = total as int;
        let d = pl as int;
        vstd::arithmetic::div_mod::lemma_fundamental_div_mod(t - 1, d);
        vstd::arithmetic::div_mod::lemma_mod_bound(t - 1, d);
        let q = (t - 1) / d;
        let r = (t - 1) % d;
        assert(q >= 0 && q + 1 <= t) by (nonlinear_arith)
            requires
                t - 1 == d * q + r,
                0 <= r < d,
                d >= 1,
                t >= 1,
        ;
    }
}

/// With a positive download rate, the bytes the download bucket
/// grants over any history never exceed the rate times the number of
/// refill ticks in it, plus at most one block's worth of overshoot.
pub proof fn lemma_download_window_bound(c: Client, evs: Seq<crate::rate_limiter::LimiterEvent>)
    requires
        c.wf(),
        c.download_bucket.rate > 0,
    ensures
        c.download_bucket.granted_spec(evs) <= c.download_bucket.rate
            * TokenBucket::tick_count(evs) + BURST_BYTES,
{
    crate::rate_limiter::lemma_window_bound(c.download_bucket, evs);
    vstd::arithmetic::mul::lemma_mul_is_commutative(
        c.download_bucket.rate as int,
        TokenBucket::tick_count(evs),
    );
}

/// The same window bound for the upload direction.
pub proof fn lemma_upload_window_bound(c: Client, evs: Seq<crate::rate_limiter::LimiterEvent>)
    requires
        c.wf(),
        c.upload_bucket.rate > 0,
    ensures
        c.upload_bucket.granted_spec(evs) <= c.upload_bucket.rate * TokenBucket::tick_count(evs)
            + BURST_BYTES,
{
    crate::rate_limiter::lemma_window_bound(c.upload_bucket, evs);
    vstd::arithmetic::mul::lemma_mul_is_commutative(
        c.upload_bucket.rate as int,
        TokenBucket::tick_count(evs),
    );
}

impl Client {
    /// Every registered swarm is well-formed and identities are
    /// unique.
    pub open spec fn wf(self) -> bool {
        &&& forall|i: int| 0 <= i < self.swarms@.len() ==> #[trigger] self.swarms@[i].wf()
        &&& forall|i: int, j: int|
            0 <= i < j < self.swarms@.len() ==> #[trigger] self.swarms@[i].info_hash@
                != #[trigger] self.swarms@[j].info_hash@
        &&& self.download_bucket.wf()
        &&& self.upload_bucket.wf()
        &&& self.download_bucket.burst == BURST_BYTES
        &&& self.upload_bucket.burst == BURST_BYTES
    }

    /// Some registered swarm has this identity.
    pub open spec fn has_torrent(self, id: Seq<u8>) -> bool {
        exists|i: int| 0 <= i < self.swarms@.len() && #[trigger] self.swarms@[i].info_hash@ == id
    }

    /// A fresh client: empty registry, both directions unlimited
    /// (rate zero), each bucket holding one block's worth of burst.
    pub fn new() -> (r: Client)
        ensures
            r.wf(),
            r.swarms@.len() == 0,
            r.download_bucket.rate == 0,
            r.upload_bucket.rate == 0,
            r.download_bucket.burst == BURST_BYTES,
            r.upload_bucket.burst == BURST_BYTES,
            r.download_bucket.tokens == BURST_BYTES,
            r.upload_bucket.tokens == BURST_BYTES,
            !r.destroyed,
    {
        Client {
            swarms: Vec::new(),
            download_bucket: TokenBucket::new(0, BURST_BYTES),
            upload_bucket: TokenBucket::new(0, BURST_BYTES),
            destroyed: false,
        }
    }

    /// Index of the swarm with this identity.
    fn find(&self, id: &Vec<u8>) -> (r: Option<usize>)
        requires
            self.wf(),
        ensures
            match r {
                Some(i) => i < self.swarms@.len() && self.swarms@[i as int].info_hash@ == id@,
                None => !self.has_torrent(id@),
            },
    {
        let mut i: usize = 0;
        while i < self.swarms.len()
            invariant
                self.wf(),
                i <= self.swarms@.len(),
                forall|j: int| 0 <= j < i ==> #[trigger] self.swarms@[j].info_hash@ != id@,
            decreases self.swarms@.len() - i,
        {
            if crate::hashing::digests_equal(&self.swarms[i].info_hash, id) {
                return Some(i);
            }
            i = i + 1;
        }
        None
    }

    /// Seeds local content: derives the descriptor (single file of the
    /// given name), hashes every piece, and registers a swarm whose
    /// pieces are all `Verified` immediately — seed-only mode, ready
    /// to serve. The returned descriptor's identity is the digest of
    /// its canonical encoding, the same one `add` derives from the
    /// encoded bytes. If the identity is already registered — also
    /// when it is mid-download from an earlier `add` — the call
    /// returns the descriptor and deliberately leaves the existing
    /// swarm untouched; the all-verified guarantee is for a fresh
    /// identity.
    pub fn seed(&mut self, piece_length: u64, name: Vec<u8>, content: Vec<u8>) -> (r: Result<
        TorrentDescriptor,
        EngineError,
    >)
        requires
            old(self).wf(),
        ensures
            final(self).wf(),
            final(self).download_bucket == old(self).download_bucket,
            final(self).upload_bucket == old(self).upload_bucket,
            match r {
                Ok(d) => {
                    &&& d.wf()
                    &&& d.identity_ok()
                    &&& d.piece_length == piece_length
                    &&& d.total_length == content@.len()
                    &&& d.files@.len() == 1
                    &&& d.files@[0].name@ == name@
                    &&& d.files@[0].length == content@.len()
                    &&& d.files@[0].offset == 0
                    &&& forall|p: int|
                        0 <= p < d.piece_hashes@.len() ==> #[trigger] d.piece_hashes@[p]@
                            == crate::hashing::digest_of(
                            crate::piece_store::piece_slice(content@, piece_length, p),
                        )
                    &&& final(self).has_torrent(d.info_hash@)
                    &&& (!old(self).has_torrent(d.info_hash@) ==> {
                        &&& final(self).swarms@.len() == old(self).swarms@.len() + 1
                        &&& final(self).swarms@.last().info_hash@ == d.info_hash@
                        &&& final(self).swarms@.last().store.all_verified()
                        &&& final(self).swarms@.last().store.hashes_ok()
                        &&& final(self).swarms@.last().store.data@ == content@
                        &&& final(self).swarms@.last().store.piece_length == piece_length
                        &&& final(self).swarms@.last().store.total_length == content@.len()
                        &&& final(self).swarms@.last().peers@.len() == 0
                    })
                    &&& (old(self).has_torrent(d.info_hash@) ==> final(self).swarms@ == old(self).swarms@)
                },
                Err(e) => {
                    &&& e == EngineError::MalformedDescriptor
                    &&& (piece_length == 0 || piece_length > COUNT_LIMIT || content@.len()
                        > COUNT_LIMIT || name@.len() > COUNT_LIMIT)
                    &&& final(self).swarms@ == old(self).swarms@
                },
            },
            (0 < piece_length <= COUNT_LIMIT && content@.len() <= COUNT_LIMIT && name@.len()
                <= COUNT_LIMIT) ==> r is Ok,
    {
        if piece_length == 0 || piece_length > COUNT_LIMIT || name.len() > COUNT_LIMIT as usize {
            return Err(EngineError::MalformedDescriptor);
        }
        if content.len() > COUNT_LIMIT as usize {
            return Err(EngineError::MalformedDescriptor);
        }
        let total: u64 = content.len() as u64;
        proof {
            lemma_piece_count_le_total(total, piece_length);
        }
        let (store, hashes) = PieceStore::from_content(piece_length, content);
        proof {
            assert forall|p: int| 0 <= p < hashes@.len() implies #[trigger] hashes@[p]@
                == crate::hashing::digest_of(
                crate::piece_store::piece_slice(content@, piece_length, p),
            ) by {
                assert(store.piece_bytes(p) =~= crate::piece_store::piece_slice(
                    content@,
                    piece_length,
                    p,
                ));
            }
        }
        let files: Vec<FileEntry> = vec![FileEntry { name, length: total, offset: 0 }];
        let mut d = TorrentDescriptor {
            info_hash: Vec::new(),
            piece_length,
            total_length: total,
            piece_hashes: hashes,
            files,
        };
        proof {
            assert(d@.files =~= seq![
                crate::descriptor::FileView {
                    name: d.files@[0].name@,
                    length: total,
                    offset: 0,
                },
            ]);
            assert(d@.files.drop_first() =~= Seq::<crate::descriptor::FileView>::empty());
            assert(crate::descriptor::sum_lengths(Seq::<crate::descriptor::FileView>::empty())
                == 0);
            assert(crate::descriptor::offsets_ok(
                Seq::<crate::descriptor::FileView>::empty(),
                total as int,
            ));
            assert(crate::descriptor::sum_lengths(d@.files) == total as int);
            assert(crate::descriptor::offsets_ok(d@.files, 0));
            assert(crate::descriptor::wf_view(d@));
        }
        let encoded = crate::descriptor::encode(&d);
        d.info_hash = crate::hashing::compute_digest(encoded.as_slice());
        let id_copy = crate::hashing::compute_digest(encoded.as_slice());
        proof {
            assert(d.identity_ok());
        }
        match self.find(&d.info_hash) {
            Some(_) => Ok(d),
            None => {
                let sw = Swarm::new(id_copy, store, DEFAULT_MAX_UNCHOKED, DEFAULT_ENDGAME_THRESHOLD);
                self.swarms.push(sw);
                proof {
                    assert(final(self).swarms@.last() == sw);
                    assert(final(self).swarms@.last().info_hash@ == d.info_hash@);
                    assert forall|i: int, j: int|
                        0 <= i < j < self.swarms@.len() implies #[trigger] self.swarms@[
                    i].info_hash@ != #[trigger] self.swarms@[j].info_hash@ by {
                        if j == self.swarms@.len() - 1 {
                            assert(old(self).swarms@[i].info_hash@ != d.info_hash@);
                        }
                    }
                }
                Ok(d)
            },
        }
    }

    /// Adds a torrent from descriptor bytes: parses them, registers an
    /// empty swarm for the identity (all pieces `Missing`, no peers —
    /// it idles until discovery supplies peers), and returns the
    /// descriptor. Adding a registered identity again is idempotent.
    /// Fails exactly on bytes that are not a canonical descriptor
    /// encoding, or on sizes this store cannot address.
    pub fn add(&mut self, descriptor_bytes: &[u8]) -> (r: Result<TorrentDescriptor, EngineError>)
        requires
            old(self).wf(),
        ensures
            final(self).wf(),
            final(self).download_bucket == old(self).download_bucket,
            final(self).upload_bucket == old(self).upload_bucket,
            match r {
                Ok(d) => {
                    &&& crate::descriptor::parse_spec(descriptor_bytes@) == Some(d@)
                    &&& d.wf()
                    &&& d.identity_ok()
                    &&& d.info_hash@ == crate::hashing::digest_of(descriptor_bytes@)
                    &&& final(self).has_torrent(d.info_hash@)
                    &&& (!old(self).has_torrent(d.info_hash@) ==> {
                        &&& final(self).swarms@.len() == old(self).swarms@.len() + 1
                        &&& final(self).swarms@.last().info_hash@ == d.info_hash@
                        &&& final(self).swarms@.last().peers@.len() == 0
                        &&& final(self).swarms@.last().store.piece_length == d.piece_length
                        &&& final(self).swarms@.last().store.total_length == d.total_length
                        &&& final(self).swarms@.last().store.expected@.len()
                            == d.piece_hashes@.len()
                        &&& forall|p: int|
                            0 <= p < d.piece_hashes@.len() ==> #[trigger] final(self).swarms@.last().store.expected@[p]@ == d.piece_hashes@[p]@
                        &&& forall|p: int|
                            0 <= p < final(self).swarms@.last().store.n_pieces()
                                ==> #[trigger] final(self).swarms@.last().store.states@[p]
                                == crate::piece_store::PieceState::Missing
                        &&& forall|k: int|
                            0 <= k < final(self).swarms@.last().store.total_length
                                ==> !#[trigger] final(self).swarms@.last().store.filled@[k]
                    })
                    &&& (old(self).has_torrent(d.info_hash@) ==> final(self).swarms@ == old(self).swarms@)
                },
                Err(e) => {
                    &&& e == EngineError::MalformedDescriptor
                    &&& final(self).swarms@ == old(self).swarms@
                },
            },
            (match crate::descriptor::parse_spec(descriptor_bytes@) {
                Some(v) => v.piece_length <= COUNT_LIMIT && v.total_length <= COUNT_LIMIT,
                None => false,
            }) ==> r is Ok,
    {
        let d = match crate::descriptor::parse(descriptor_bytes) {
            Ok(d) => d,
            Err(e) => {
                return Err(e);
            },
        };
        let expected = copy_digests(&d.piece_hashes);
        proof {
            assert forall|i: int| 0 <= i < expected@.len() implies #[trigger] expected@[i]@.len()
                == DIGEST_LEN by {
                assert(expected@[i]@ == d.piece_hashes@[i]@);
                assert(d@.hashes[i] == d.piece_hashes@[i]@);
            }
            assert(expected@.len() == crate::descriptor::piece_count(
                d.total_length,
                d.piece_length,
            ));
        }
        let store = match PieceStore::new_empty(d.piece_length, d.total_length, expected) {
            Ok(s) => s,
            Err(e) => {
                return Err(e);
            },
        };
        let id_copy = crate::descriptor::copy_range(d.info_hash.as_slice(), 0, DIGEST_LEN);
        proof {
            assert(id_copy@ =~= d.info_hash@);
        }
        match self.find(&d.info_hash) {
            Some(_) => Ok(d),
            None => {
                let sw = Swarm::new(id_copy, store, DEFAULT_MAX_UNCHOKED, DEFAULT_ENDGAME_THRESHOLD);
                self.swarms.push(sw);
                proof {
                    assert(final(self).swarms@.last() == sw);
                    assert forall|i: int, j: int|
                        0 <= i < j < self.swarms@.len() implies #[trigger] self.swarms@[
                    i].info_hash@ != #[trigger] self.swarms@[j].info_hash@ by {
                        if j == self.swarms@.len() - 1 {
                            assert(old(self).swarms@[i].info_hash@ != d.info_hash@);
                        }
                    }
                }
                Ok(d)
            },
        }
    }

    /// Looks up the swarm registered for an identity. Fails with
    /// `NotFound` exactly when no swarm has it.
    pub fn get_torrent(&self, id: &Vec<u8>) -> (r: Result<&Swarm, EngineError>)
        requires
            self.wf(),
        ensures
            match r {
                Ok(s) => {
                    &&& self.has_torrent(id@)
                    &&& s.info_hash@ == id@
                    &&& s.wf()
                    &&& exists|i: int|
                        0 <= i < self.swarms@.len() && #[trigger] self.swarms@[i] == *s
                },
                Err(e) => e == EngineError::NotFound && !self.has_torrent(id@),
            },
    {
        match self.find(id) {
            Some(i) => {
                proof {
                    assert(self.swarms@[i as int] == self.swarms@[i as int]);
                }
                Ok(&self.swarms[i])
            },
            None => Err(EngineError::NotFound),
        }
    }

    /// Removes a torrent: the swarm leaves the registry together with
    /// every peer connection it owns, so none dangles and no further
    /// progress can be attributed to the identity; already-downloaded
    /// data goes with the swarm (this engine does not persist it).
    /// Fails with `NotFound` exactly when the identity is unknown.
    pub fn remove(&mut self, id: &Vec<u8>) -> (r: Result<(), EngineError>)
        requires
            old(self).wf(),
        ensures
            final(self).wf(),
            final(self).download_bucket == old(self).download_bucket,
            final(self).upload_bucket == old(self).upload_bucket,
            r is Ok <==> old(self).has_torrent(id@),
            r is Err ==> r == Result::<(), EngineError>::Err(EngineError::NotFound) && final(self).swarms@ == old(self).swarms@,
            !final(self).has_torrent(id@),
            forall|k: int|
                0 <= k < final(self).swarms@.len() ==> #[trigger] final(self).swarms@[
                k].info_hash@ != id@,
            r is Ok ==> exists|i: int|
                0 <= i < old(self).swarms@.len() && old(self).swarms@[i].info_hash@ == id@
                    && final(self).swarms@ == #[trigger] old(self).swarms@.remove(i),
    {
        match self.find(id) {
            Some(i) => {
                self.swarms.remove(i);
                proof {
                    old(self).swarms@.remove_ensures(i as int);
                    assert forall|k: int|
                        0 <= k < self.swarms@.len() implies #[trigger] self.swarms@[
                    k].info_hash@ != id@ by {
                        if k < i {
                            assert(self.swarms@[k] == old(self).swarms@[k]);
                        } else {
                            assert(self.swarms@[k] == old(self).swarms@[k + 1]);
                        }
                    }
                    assert forall|a: int, b: int|
                        0 <= a < b < self.swarms@.len() implies #[trigger] self.swarms@[
                    a].info_hash@ != #[trigger] self.swarms@[b].info_hash@ by {
                        let oa: int = if a < i {
                            a
                        } else {
                            a + 1
                        };
                        let ob: int = if b < i {
                            b
                        } else {
                            b + 1
                        };
                        assert(self.swarms@[a] == old(self).swarms@[oa]);
                        assert(self.swarms@[b] == old(self).swarms@[ob]);
                    }
                }
                Ok(())
            },
            None => Err(EngineError::NotFound),
        }
    }

    /// Sets the download rate, process-wide and effective immediately;
    /// zero means unlimited. The burst capacity and level are
    /// untouched, so with a positive rate the window bound of
    /// `lemma_download_window_bound` applies from this call on.
    pub fn throttle_download(&mut self, rate: u64)
        ensures
            old(self).wf() ==> final(self).wf(),
            final(self).download_bucket.rate == rate,
            final(self).download_bucket.burst == old(self).download_bucket.burst,
            final(self).download_bucket.tokens == old(self).download_bucket.tokens,
            final(self).upload_bucket == old(self).upload_bucket,
            final(self).swarms@ == old(self).swarms@,
            final(self).destroyed == old(self).destroyed,
    {
        self.download_bucket.set_rate(rate);
    }

    /// Sets the upload rate, process-wide and effective immediately;
    /// zero means unlimited. The burst capacity and level are
    /// untouched, so with a positive rate the window bound of
    /// `lemma_upload_window_bound` applies from this call on.
    pub fn throttle_upload(&mut self, rate: u64)
        ensures
            old(self).wf() ==> final(self).wf(),
            final(self).upload_bucket.rate == rate,
            final(self).upload_bucket.burst == old(self).upload_bucket.burst,
            final(self).upload_bucket.tokens == old(self).upload_bucket.tokens,
            final(self).download_bucket == old(self).download_bucket,
            final(self).swarms@ == old(self).swarms@,
            final(self).destroyed == old(self).destroyed,
    {
        self.upload_bucket.set_rate(rate);
    }

    /// Tears the client down: every registered swarm is removed (with
    /// all its connections) before the call returns.
    pub fn destroy(&mut self)
        ensures
            old(self).wf() ==> final(self).wf(),
            final(self).swarms@.len() == 0,
            final(self).download_bucket == old(self).download_bucket,
            final(self).upload_bucket == old(self).upload_bucket,
            final(self).destroyed,
    {
        self.swarms.clear();
        self.destroyed = true;
    }
}

/// Total bytes across a list of buffers.
pub open spec fn contents_len(cs: Seq<Vec<u8>>) -> int
    decreases cs.len(),
{
    if cs.len() == 0 {
        0
    } else {
        cs[0]@.len() + contents_len(cs.drop_first())
    }
}

/// The total is non-negative and at least any prefix's total.
pub proof fn lemma_contents_len_prefix(cs: Seq<Vec<u8>>, i: int)
    requires
        0 <= i <= cs.len(),
    ensures
        contents_len(cs.take(i)) <= contents_len(cs),
        0 <= contents_len(cs.take(i)),
    decreases cs.len() - i,
{
    lemma_contents_len_nonneg(cs.take(i));
    if i == cs.len() {
        assert(cs.take(i) =~= cs);
    } else {
        lemma_contents_len_prefix(cs, i + 1);
        assert(cs.take(i + 1) =~= cs.take(i).push(cs[i]));
        lemma_contents_len_push(cs.take(i), cs[i]);
    }
}

/// Buffer lengths are non-negative, so the total is too.
pub proof fn lemma_contents_len_nonneg(cs: Seq<Vec<u8>>)
    ensures
        0 <= contents_len(cs),
    decreases cs.len(),
{
    if cs.len() > 0 {
        lemma_contents_len_nonneg(cs.drop_first());
    }
}

/// The buffers of a list laid end to end.
pub open spec fn concat_contents(cs: Seq<Vec<u8>>) -> Seq<u8>
    decreases cs.len(),
{
    if cs.len() == 0 {
        Seq::empty()
    } else {
        cs[0]@ + concat_contents(cs.drop_first())
    }
}

/// Appending a buffer appends its bytes to the concatenation.
pub proof fn lemma_concat_contents_push(cs: Seq<Vec<u8>>, c: Vec<u8>)
    ensures
        concat_contents(cs.push(c)) == concat_contents(cs) + c@,
    decreases cs.len(),
{
    if cs.len() == 0 {
        assert(cs.push(c).drop_first() =~= Seq::<Vec<u8>>::empty());
        assert(cs =~= Seq::<Vec<u8>>::empty());
        assert(concat_contents(cs.push(c)) =~= concat_contents(cs) + c@);
    } else {
        assert(cs.push(c).drop_first() =~= cs.drop_first().push(c));
        lemma_concat_contents_push(cs.drop_first(), c);
        assert(cs.push(c)[0] == cs[0]);
        assert(cs[0]@ + (concat_contents(cs.drop_first()) + c@) =~= (cs[0]@ + concat_contents(
            cs.drop_first(),
        )) + c@);
    }
}

/// Appending a buffer adds its length to the total.
pub proof fn lemma_contents_len_push(cs: Seq<Vec<u8>>, c: Vec<u8>)
    ensures
        contents_len(cs.push(c)) == contents_len(cs) + c@.len(),
    decreases cs.len(),
{
    if cs.len() == 0 {
        assert(cs.push(c).drop_first() =~= Seq::<Vec<u8>>::empty());
        assert(cs =~= Seq::<Vec<u8>>::empty());
    } else {
        assert(cs.push(c).drop_first() =~= cs.drop_first().push(c));
        lemma_contents_len_push(cs.drop_first(), c);
        assert(cs.push(c)[0] == cs[0]);
    }
}

impl Client {
    /// Seeds a set of local files: lays them out in order over the
    /// concatenated piece space, hashes every piece, and registers a
    /// swarm with every piece `Verified` immediately. For a fresh
    /// identity, each file's range of the piece space holds exactly
    /// that file's bytes; an already-registered identity is returned
    /// with the existing swarm deliberately untouched. Succeeds
    /// whenever every size is within what the store can address.
    #[verifier::rlimit(50)]
    pub fn seed_files(&mut self, piece_length: u64, names: Vec<Vec<u8>>, contents: Vec<Vec<u8>>)
        -> (r: Result<TorrentDescriptor, EngineError>)
        requires
            old(self).wf(),
            names@.len() == contents@.len(),
        ensures
            final(self).wf(),
            final(self).download_bucket == old(self).download_bucket,
            final(self).upload_bucket == old(self).upload_bucket,
            match r {
                Ok(d) => {
                    &&& d.wf()
                    &&& d.identity_ok()
                    &&& d.piece_length == piece_length
                    &&& d.total_length == contents_len(contents@)
                    &&& d.files@.len() == names@.len()
                    &&& forall|i: int|
                        0 <= i < names@.len() ==> #[trigger] d.files@[i].name@ == names@[i]@
                            && d.files@[i].length == contents@[i]@.len()
                    &&& forall|p: int|
                        0 <= p < d.piece_hashes@.len() ==> #[trigger] d.piece_hashes@[p]@
                            == crate::hashing::digest_of(
                            crate::piece_store::piece_slice(
                                concat_contents(contents@),
                                piece_length,
                                p,
                            ),
                        )
                    &&& final(self).has_torrent(d.info_hash@)
                    &&& (!old(self).has_torrent(d.info_hash@) ==> {
                        &&& final(self).swarms@.len() == old(self).swarms@.len() + 1
                        &&& final(self).swarms@.last().info_hash@ == d.info_hash@
                        &&& final(self).swarms@.last().store.all_verified()
                        &&& final(self).swarms@.last().store.hashes_ok()
                        &&& final(self).swarms@.last().store.piece_length == piece_length
                        &&& final(self).swarms@.last().store.total_length == contents_len(
                            contents@,
                        )
                        &&& final(self).swarms@.last().store.data@ == concat_contents(contents@)
                        &&& final(self).swarms@.last().peers@.len() == 0
                        &&& forall|i: int|
                            0 <= i < names@.len() ==> #[trigger] final(self).swarms@.last().store.range_bytes(
                                d.files@[i].offset as int,
                                d.files@[i].length as int,
                            ) == contents@[i]@
                    })
                    &&& (old(self).has_torrent(d.info_hash@) ==> final(self).swarms@ == old(
                        self,
                    ).swarms@)
                },
                Err(e) => {
                    &&& e == EngineError::MalformedDescriptor
                    &&& final(self).swarms@ == old(self).swarms@
                },
            },
            (0 < piece_length <= COUNT_LIMIT && names@.len() <= COUNT_LIMIT && (forall|i: int|
                0 <= i < names@.len() ==> #[trigger] names@[i]@.len() <= COUNT_LIMIT)
                && contents_len(contents@) <= COUNT_LIMIT) ==> r is Ok,
    {
        if piece_length == 0 || piece_length > COUNT_LIMIT
            || names.len() > COUNT_LIMIT as usize {
            return Err(EngineError::MalformedDescriptor);
        }
        let n_files: usize = names.len();
        let mut i: usize = 0;
        while i < n_files
            invariant
                *self == *old(self),
                old(self).wf(),
                i <= n_files,
                n_files == names@.len(),
                forall|j: int| 0 <= j < i ==> #[trigger] names@[j]@.len() <= COUNT_LIMIT,
            decreases n_files - i,
        {
            if names[i].len() > COUNT_LIMIT as usize {
                return Err(EngineError::MalformedDescriptor);
            }
            i = i + 1;
        }
        let mut total: u64 = 0;
        let mut i: usize = 0;
        while i < n_files
            invariant
                *self == *old(self),
                old(self).wf(),
                i <= n_files,
                n_files == contents@.len(),
                total == contents_len(contents@.take(i as int)),
                total <= COUNT_LIMIT,
            decreases n_files - i,
        {
            proof {
                assert(contents@.take(i + 1 as int) =~= contents@.take(i as int).push(
                    contents@[i as int],
                ));
                lemma_contents_len_push(contents@.take(i as int), contents@[i as int]);
            }
            if contents[i].len() as u64 > COUNT_LIMIT - total {
                proof {
                    lemma_contents_len_prefix(contents@, i + 1 as int);
                }
                return Err(EngineError::MalformedDescriptor);
            }
            total = total + contents[i].len() as u64;
            i = i + 1;
        }
        proof {
            assert(contents@.take(contents@.len() as int) =~= contents@);
        }
        let mut flat: Vec<u8> = Vec::new();
        let mut files: Vec<FileEntry> = Vec::new();
        let mut i: usize = 0;
        while i < n_files
            invariant
                *self == *old(self),
                old(self).wf(),
                i <= n_files,
                n_files == names@.len(),
                n_files == contents@.len(),
                forall|j: int| 0 <= j < n_files ==> #[trigger] names@[j]@.len() <= COUNT_LIMIT,
                total == contents_len(contents@),
                total <= COUNT_LIMIT,
                files@.len() == i,
                flat@.len() == contents_len(contents@.take(i as int)),
                flat@ == concat_contents(contents@.take(i as int)),
                flat@.len() <= total,
                crate::descriptor::offsets_ok(
                    files@.map_values(|f: FileEntry| f@),
                    0,
                ),
                crate::descriptor::sum_lengths(files@.map_values(|f: FileEntry| f@))
                    == flat@.len(),
                forall|j: int| 0 <= j < i ==> (#[trigger] files@[j]).name@ == names@[j]@,
                forall|j: int|
                    0 <= j < i ==> (#[trigger] files@[j]).length == contents@[j]@.len(),
                forall|j: int|
                    0 <= j < i ==> #[trigger] flat@.subrange(
                        files@[j].offset as int,
                        files@[j].offset + files@[j].length,
                    ) == contents@[j]@,
                forall|j: int|
                    0 <= j < i ==> #[trigger] files@[j].offset + files@[j].length
                        <= flat@.len(),
            decreases n_files - i,
        {
            proof {
                assert(contents@.take(i + 1 as int) =~= contents@.take(i as int).push(
                    contents@[i as int],
                ));
                lemma_contents_len_push(contents@.take(i as int), contents@[i as int]);
                lemma_concat_contents_push(contents@.take(i as int), contents@[i as int]);
                lemma_contents_len_prefix(contents@, i + 1 as int);
            }
            let name = crate::descriptor::copy_range(names[i].as_slice(), 0, names[i].len());
            proof {
                assert(name@ =~= names@[i as int]@);
            }
            let offset: u64 = flat.len() as u64;
            let length: u64 = contents[i].len() as u64;
            let fe = FileEntry { name, length, offset };
            let ghost old_flat = flat@;
            let ghost old_files = files@;
            let ghost old_fview = files@.map_values(|f: FileEntry| f@);
            crate::descriptor::append_bytes(&mut flat, &contents[i]);
            files.push(fe);
            proof {
                assert(files@[i as int] == fe);
                assert(fe.name@ == names@[i as int]@);
                assert(forall|j: int| 0 <= j < i ==> #[trigger] files@[j] == old_files[j]);
                assert(files@.map_values(|f: FileEntry| f@) =~= old_fview.push(fe@));
                crate::descriptor::lemma_offsets_ok_push(old_fview, fe@, 0);
                crate::descriptor::lemma_sum_lengths_push(old_fview, fe@);
                assert(flat@.subrange(offset as int, offset + length) =~= contents@[i as int]@);
                assert forall|j: int|
                    0 <= j < i implies #[trigger] flat@.subrange(
                    files@[j].offset as int,
                    files@[j].offset + files@[j].length,
                ) == contents@[j]@ by {
                    assert(flat@.subrange(
                        files@[j].offset as int,
                        files@[j].offset + files@[j].length,
                    ) =~= old_flat.subrange(
                        files@[j].offset as int,
                        files@[j].offset + files@[j].length,
                    ));
                }
            }
            i = i + 1;
        }
        proof {
            assert(contents@.take(contents@.len() as int) =~= contents@);
            lemma_piece_count_le_total(total, piece_length);
        }
        let (store, hashes) = PieceStore::from_content(piece_length, flat);
        proof {
            assert forall|p: int| 0 <= p < hashes@.len() implies #[trigger] hashes@[p]@
                == crate::hashing::digest_of(
                crate::piece_store::piece_slice(concat_contents(contents@), piece_length, p),
            ) by {
                assert(store.piece_bytes(p) =~= crate::piece_store::piece_slice(
                    concat_contents(contents@),
                    piece_length,
                    p,
                ));
            }
        }
        let mut d = TorrentDescriptor {
            info_hash: Vec::new(),
            piece_length,
            total_length: total,
            piece_hashes: hashes,
            files,
        };
        proof {
            assert(d@.files =~= d.files@.map_values(|f: FileEntry| f@));
            assert(crate::descriptor::wf_view(d@));
        }
        let encoded = crate::descriptor::encode(&d);
        d.info_hash = crate::hashing::compute_digest(encoded.as_slice());
        let id_copy = crate::hashing::compute_digest(encoded.as_slice());
        proof {
            assert(d.identity_ok());
        }
        match self.find(&d.info_hash) {
            Some(_) => Ok(d),
            None => {
                let sw = Swarm::new(id_copy, store, DEFAULT_MAX_UNCHOKED, DEFAULT_ENDGAME_THRESHOLD);
                self.swarms.push(sw);
                proof {
                    assert(final(self).swarms@.last() == sw);
                    assert forall|i2: int, j2: int|
                        0 <= i2 < j2 < self.swarms@.len() implies #[trigger] self.swarms@[
                    i2].info_hash@ != #[trigger] self.swarms@[j2].info_hash@ by {
                        if j2 == self.swarms@.len() - 1 {
                            assert(old(self).swarms@[i2].info_hash@ != d.info_hash@);
                        }
                    }
                    assert forall|i2: int| 0 <= i2 < names@.len() implies #[trigger] final(self).swarms@.last().store.range_bytes(
                        d.files@[i2].offset as int,
                        d.files@[i2].length as int,
                    ) == contents@[i2]@ by {}
                }
                Ok(d)
            },
        }
    }
}

/// Reads a byte range of one file for serving: `fileIndex`-relative
/// offsets are translated onto the concatenated piece space and served
/// from the store. Succeeds exactly when the file exists, the range
/// lies inside it, and every piece the range touches is verified; then
/// the returned bytes are exactly that slice of the piece space.
pub fn read_file_range(
    store: &PieceStore,
    d: &TorrentDescriptor,
    file_index: usize,
    offset: u64,
    length: u64,
) -> (r: Result<Vec<u8>, EngineError>)
    requires
        store.wf(),
        d.wf(),
        d.total_length == store.total_length,
    ensures
        match r {
            Ok(v) => {
                &&& file_index < d.files@.len()
                &&& offset + length <= d.files@[file_index as int].length
                &&& store.range_covered(
                    d.files@[file_index as int].offset + offset,
                    length as int,
                )
                &&& v@ == store.range_bytes(
                    d.files@[file_index as int].offset + offset,
                    length as int,
                )
            },
            Err(e) => {
                &&& e == EngineError::NotYetAvailable
                &&& !(file_index < d.files@.len() && offset + length
                    <= d.files@[file_index as int].length && store.range_covered(
                    d.files@[file_index as int].offset + offset,
                    length as int,
                ))
            },
        },
{
    if file_index >= d.files.len() {
        return Err(EngineError::NotYetAvailable);
    }
    let fe = &d.files[file_index];
    if length > fe.length || offset > fe.length - length {
        return Err(EngineError::NotYetAvailable);
    }
    proof {
        crate::descriptor::lemma_file_extents(d@.files, 0);
        assert(d@.files == d.files@.map_values(|f: crate::descriptor::FileEntry| f@));
        assert(d@.files[file_index as int] == d.files@.map_values(
            |f: crate::descriptor::FileEntry| f@,
        )[file_index as int]);
        assert(d@.files[file_index as int] == d.files@[file_index as int]@);
        let fv = d@.files[file_index as int];
        assert(fv.offset + fv.length <= crate::descriptor::sum_lengths(d@.files));
        assert(d.files@[file_index as int].offset + d.files@[file_index as int].length
            <= d.total_length);
    }
    let abs: u64 = fe.offset + offset;
    store.read_range(abs, length)
}

/// A deep copy of a digest list.
pub fn copy_digests(hs: &Vec<Vec<u8>>) -> (r: Vec<Vec<u8>>)
    ensures
        r@.len() == hs@.len(),
        forall|i: int| 0 <= i < hs@.len() ==> #[trigger] r@[i]@ == hs@[i]@,
{
    let mut out: Vec<Vec<u8>> = Vec::new();
    let mut i: usize = 0;
    while i < hs.len()
        invariant
            i <= hs@.len(),
            out@.len() == i,
            forall|j: int| 0 <= j < i ==> #[trigger] out@[j]@ == hs@[j]@,
        decreases hs@.len() - i,
    {
        let h = crate::descriptor::copy_range(hs[i].as_slice(), 0, hs[i].len());
        proof {
            assert(h@ =~= hs@[i as int]@);
        }
        out.push(h);
        i = i + 1;
    }
    out
}

} // verus!
