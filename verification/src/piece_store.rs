//! The piece store: an addressable, verifiable buffer of fixed-size
//! pieces backing the concatenated file space. Verification is the
//! sole authority for "this data is correct": a piece becomes
//! `Verified` exactly when the digest of its fully assembled bytes
//! matches the descriptor's entry, and `Verified` is terminal.

use vstd::arithmetic::div_mod::lemma_fundamental_div_mod;
use vstd::arithmetic::mul::lemma_mul_inequality;
use vstd::prelude::*;

use crate::descriptor::COUNT_LIMIT;
use crate::descriptor::piece_count;
use crate::errors::EngineError;
use crate::hashing::DIGEST_LEN;
use crate::hashing::compute_digest;
use crate::hashing::digest_of;
use crate::hashing::digests_equal;

verus! {

/// Download state of one piece. `Verified` is terminal.
#[derive(Clone, Copy, Debug, PartialEq, Eq, Structural)]
pub enum PieceState {
    Missing,
    Requested,
    Verified,
}

/// Result of a verification attempt.
#[derive(Clone, Copy, Debug, PartialEq, Eq, Structural)]
pub enum VerifyOutcome {
    /// The assembly area has gaps; nothing changed.
    Incomplete,
    /// The digest matched; the piece is now `Verified`.
    Accepted,
    /// The digest did not match; the assembly area was discarded.
    Rejected,
}

/// Piece storage over a flat byte area of `total_length` bytes,
/// divided into pieces of `piece_length` bytes (the last piece may be
/// shorter).
#[derive(Debug)]
pub struct PieceStore {
    pub piece_length: u64,
    pub total_length: u64,
    pub expected: Vec<Vec<u8>>,
    pub states: Vec<PieceState>,
    pub data: Vec<u8>,
    pub filled: Vec<bool>,
}

impl PieceStore {
    /// Number of pieces.
    pub open spec fn n_pieces(self) -> int {
        piece_count(self.total_length, self.piece_length)
    }

    /// First byte of piece `p` in the flat area.
    pub open spec fn piece_start(self, p: int) -> int {
        p * (self.piece_length as int)
    }

    /// One past the last byte of piece `p`.
    pub open spec fn piece_end(self, p: int) -> int {
        if (p + 1) * (self.piece_length as int) <= self.total_length as int {
            (p + 1) * (self.piece_length as int)
        } else {
            self.total_length as int
        }
    }

    /// The bytes currently assembled for piece `p`.
    pub open spec fn piece_bytes(self, p: int) -> Seq<u8> {
        self.data@.subrange(self.piece_start(p), self.piece_end(p))
    }

    /// Every byte of piece `p` has been written.
    pub open spec fn piece_full(self, p: int) -> bool {
        forall|k: int| self.piece_start(p) <= k < self.piece_end(p) ==> #[trigger] self.filled@[k]
    }

    /// Structural well-formedness: sizes agree and verified pieces are
    /// fully assembled.
    pub open spec fn wf(self) -> bool {
        &&& 0 < self.piece_length <= COUNT_LIMIT
        &&& self.total_length <= COUNT_LIMIT
        &&& self.states@.len() == self.n_pieces()
        &&& self.expected@.len() == self.n_pieces()
        &&& self.data@.len() == self.total_length
        &&& self.filled@.len() == self.total_length
        &&& forall|p: int|
            0 <= p < self.n_pieces() ==> #[trigger] self.expected@[p]@.len() == DIGEST_LEN
        &&& forall|p: int|
            0 <= p < self.n_pieces() && #[trigger] self.states@[p] == PieceState::Verified
                ==> self.piece_full(p)
    }

    /// A verified piece's bytes always match the expected digest.
    /// Stated over the named digest function, so it appears only in
    /// `ensures` clauses.
    pub open spec fn hashes_ok(self) -> bool {
        forall|p: int|
            0 <= p < self.n_pieces() && #[trigger] self.states@[p] == PieceState::Verified
                ==> digest_of(self.piece_bytes(p)) == self.expected@[p]@
    }

    /// The bytes of the range `[start, start + len)` of the flat area.
    pub open spec fn range_bytes(self, start: int, len: int) -> Seq<u8> {
        self.data@.subrange(start, start + len)
    }

    /// Count of pieces in a given state.
    pub open spec fn count_state(self, s: PieceState) -> int {
        Self::count_state_seq(self.states@, s)
    }

    /// Count of entries of `sts` equal to `s`.
    pub open spec fn count_state_seq(sts: Seq<PieceState>, s: PieceState) -> int
        decreases sts.len(),
    {
        if sts.len() == 0 {
            0
        } else {
            (if sts[0] == s {
                1int
            } else {
                0int
            }) + Self::count_state_seq(sts.drop_first(), s)
        }
    }

    /// All pieces are verified.
    pub open spec fn all_verified(self) -> bool {
        forall|p: int|
            0 <= p < self.n_pieces() ==> #[trigger] self.states@[p] == PieceState::Verified
    }
}

/// Piece `p` of a byte sequence laid out in pieces of `pl` bytes (the
/// last piece may be shorter).
pub open spec fn piece_slice(content: Seq<u8>, pl: u64, p: int) -> Seq<u8> {
    content.subrange(
        p * (pl as int),
        if (p + 1) * (pl as int) <= content.len() {
            (p + 1) * (pl as int)
        } else {
            content.len() as int
        },
    )
}

/// Piece starts stay strictly inside the area: for `p` below the piece
/// count, `p * piece_length < total_length`.
pub proof fn lemma_piece_start_in_bounds(total: u64, pl: u64, p: int)
    requires
        0 < pl,
        0 <= p < piece_count(total, pl),
    ensures
        p * (pl as int) < total as int,
        p * (pl as int) >= 0,
{
    let t = total as int;
    let d = pl as int;
    lemma_fundamental_div_mod(t - 1, d);
    lemma_mul_inequality(p, (t - 1) / d, d);
    assert(p * d >= 0) by (nonlinear_arith)
        requires
            p >= 0,
            d > 0,
    ;
    assert(((t - 1) / d) * d <= t - 1);
}

/// Pieces occupy disjoint ranges: an earlier piece ends before a later
/// one starts.
pub proof fn lemma_piece_ranges_disjoint(s: PieceStore, q: int, p: int)
    requires
        0 < s.piece_length,
        0 <= q < p,
    ensures
        s.piece_end(q) <= s.piece_start(p),
{
    let d = s.piece_length as int;
    lemma_mul_inequality(q + 1, p, d);
}

/// The end of a piece lies at or after its start, and within the area.
pub proof fn lemma_piece_end_bounds(s: PieceStore, p: int)
    requires
        0 < s.piece_length,
        0 <= p < s.n_pieces(),
    ensures
        s.piece_start(p) < s.piece_end(p) <= s.total_length as int,
        s.piece_end(p) - s.piece_start(p) <= s.piece_length as int,
{
    let d = s.piece_length as int;
    lemma_piece_start_in_bounds(s.total_length, s.piece_length, p);
    assert((p + 1) * d == p * d + d) by (nonlinear_arith);
}

/// A vector of `n` copies of `v`.
pub fn repeat_value<T: Copy>(v: T, n: usize) -> (r: Vec<T>)
    ensures
        r@.len() == n,
        forall|i: int| 0 <= i < n ==> r@[i] == v,
{
    let mut out: Vec<T> = Vec::new();
    let mut i: usize = 0;
    while i < n
        invariant
            i <= n,
            out@.len() == i,
            forall|j: int| 0 <= j < i ==> out@[j] == v,
        decreases n - i,
    {
        out.push(v);
        i = i + 1;
    }
    out
}

/// Bytes and flags outside a modified window leave every piece that
/// does not meet the window with its assembled bytes and fill state
/// unchanged.
proof fn lemma_untouched_pieces(s1: PieceStore, s2: PieceStore, lo: int, hi: int)
    requires
        0 < s1.piece_length,
        s2.piece_length == s1.piece_length,
        s2.total_length == s1.total_length,
        s1.data@.len() == s1.total_length,
        s2.data@.len() == s1.total_length,
        s1.filled@.len() == s1.total_length,
        s2.filled@.len() == s1.total_length,
        forall|k: int|
            0 <= k < s1.total_length && !(lo <= k < hi) ==> #[trigger] s2.data@[k]
                == s1.data@[k],
        forall|k: int|
            0 <= k < s1.total_length && !(lo <= k < hi) ==> #[trigger] s2.filled@[k]
                == s1.filled@[k],
    ensures
        forall|q: int|
            0 <= q < s1.n_pieces() && (s1.piece_end(q) <= lo || hi <= s1.piece_start(q)) ==> (
            #[trigger] s2.piece_bytes(q) == s1.piece_bytes(q) && (s1.piece_full(q)
                <==> s2.piece_full(q))),
{
    assert forall|q: int|
        0 <= q < s1.n_pieces() && (s1.piece_end(q) <= lo || hi <= s1.piece_start(q)) implies (
    #[trigger] s2.piece_bytes(q) == s1.piece_bytes(q) && (s1.piece_full(q)
        <==> s2.piece_full(q))) by {
        lemma_piece_end_bounds(s1, q);
        assert(s2.piece_start(q) == s1.piece_start(q) && s2.piece_end(q) == s1.piece_end(q));
        assert(s2.piece_bytes(q) =~= s1.piece_bytes(q));
        if s1.piece_full(q) {
            assert forall|k: int| s2.piece_start(q) <= k < s2.piece_end(q) implies #[trigger] s2
                .filled@[k] by {
                assert(s1.filled@[k]);
            }
        }
        if s2.piece_full(q) {
            assert forall|k: int| s1.piece_start(q) <= k < s1.piece_end(q) implies #[trigger] s1
                .filled@[k] by {
                assert(s2.filled@[k]);
            }
        }
    }
}

impl PieceStore {
    /// Builds an empty store for a descriptor's geometry: every piece
    /// `Missing`, nothing assembled. Fails only where a size exceeds
    /// what this store can address.
    pub fn new_empty(piece_length: u64, total_length: u64, expected: Vec<Vec<u8>>) -> (r: Result<
        PieceStore,
        EngineError,
    >)
        requires
            piece_length > 0,
            expected@.len() == piece_count(total_length, piece_length),
            forall|i: int| 0 <= i < expected@.len() ==> #[trigger] expected@[i]@.len()
                == DIGEST_LEN,
        ensures
            match r {
                Ok(s) => {
                    &&& s.wf()
                    &&& s.hashes_ok()
                    &&& s.piece_length == piece_length
                    &&& s.total_length == total_length
                    &&& s.expected@ == expected@
                    &&& forall|p: int|
                        0 <= p < s.n_pieces() ==> #[trigger] s.states@[p] == PieceState::Missing
                    &&& forall|k: int| 0 <= k < s.total_length ==> !#[trigger] s.filled@[k]
                },
                Err(e) => {
                    &&& e == EngineError::MalformedDescriptor
                    &&& (piece_length > COUNT_LIMIT || total_length > COUNT_LIMIT)
                },
            },
    {
        if piece_length > COUNT_LIMIT || total_length > COUNT_LIMIT {
            return Err(EngineError::MalformedDescriptor);
        }
        let n: usize = expected.len();
        let total: usize = total_length as usize;
        let s = PieceStore {
            piece_length,
            total_length,
            expected,
            states: repeat_value(PieceState::Missing, n),
            data: repeat_value(0u8, total),
            filled: repeat_value(false, total),
        };
        Ok(s)
    }

    /// Marks a missing piece as requested.
    pub fn mark_requested(&mut self, p: usize)
        requires
            old(self).wf(),
            0 <= p < old(self).n_pieces(),
            old(self).states@[p as int] == PieceState::Missing,
        ensures
            final(self).wf(),
            final(self).states@ == old(self).states@.update(p as int, PieceState::Requested),
            final(self).piece_length == old(self).piece_length,
            final(self).total_length == old(self).total_length,
            final(self).expected@ == old(self).expected@,
            final(self).data@ == old(self).data@,
            final(self).filled@ == old(self).filled@,
            old(self).hashes_ok() ==> final(self).hashes_ok(),
    {
        self.states[p] = PieceState::Requested;
    }

    /// Returns a requested piece to missing and discards its assembly
    /// area (used on request failure, timeout, or peer disconnect).
    pub fn release_piece(&mut self, p: usize)
        requires
            old(self).wf(),
            0 <= p < old(self).n_pieces(),
            old(self).states@[p as int] == PieceState::Requested,
        ensures
            final(self).wf(),
            final(self).states@ == old(self).states@.update(p as int, PieceState::Missing),
            final(self).piece_length == old(self).piece_length,
            final(self).total_length == old(self).total_length,
            final(self).expected@ == old(self).expected@,
            final(self).data@ == old(self).data@,
            forall|k: int|
                0 <= k < old(self).total_length && !(old(self).piece_start(p as int) <= k < old(
                    self,
                ).piece_end(p as int)) ==> #[trigger] final(self).filled@[k] == old(
                    self,
                ).filled@[k],
            forall|k: int|
                old(self).piece_start(p as int) <= k < old(self).piece_end(p as int)
                    ==> !#[trigger] final(self).filled@[k],
            old(self).hashes_ok() ==> final(self).hashes_ok(),
    {
        proof {
            lemma_piece_start_in_bounds(self.total_length, self.piece_length, p as int);
            lemma_piece_end_bounds(*self, p as int);
            assert((p as int + 1) * (self.piece_length as int) == p as int * (self.piece_length
                as int) + self.piece_length) by (nonlinear_arith);
        }
        let start: usize = p * (self.piece_length as usize);
        let end: usize = if self.total_length as usize - start >= self.piece_length as usize {
            start + self.piece_length as usize
        } else {
            self.total_length as usize
        };
        self.states[p] = PieceState::Missing;
        let mut k: usize = start;
        while k < end
            invariant
                start <= k <= end,
                end <= self.filled@.len(),
                self.filled@.len() == old(self).filled@.len(),
                forall|j: int|
                    0 <= j < self.filled@.len() && !(start <= j < k) ==> #[trigger] self.filled@[j]
                        == old(self).filled@[j],
                forall|j: int| start <= j < k ==> !#[trigger] self.filled@[j],
                self.states@ == old(self).states@.update(p as int, PieceState::Missing),
                self.piece_length == old(self).piece_length,
                self.total_length == old(self).total_length,
                self.expected@ == old(self).expected@,
                self.data@ == old(self).data@,
            decreases end - k,
        {
            self.filled[k] = false;
            k = k + 1;
        }
        proof {
            let ps = old(self).piece_start(p as int);
            let pe = old(self).piece_end(p as int);
            assert(start == ps && end == pe);
            lemma_untouched_pieces(*old(self), *self, ps, pe);
            assert forall|q: int|
                0 <= q < self.n_pieces() && #[trigger] self.states@[q] == PieceState::Verified
                    implies self.piece_full(q) by {
                if q != p as int {
                    if q < p as int {
                        lemma_piece_ranges_disjoint(*old(self), q, p as int);
                    } else {
                        lemma_piece_ranges_disjoint(*old(self), p as int, q);
                    }
                }
            }
            if old(self).hashes_ok() {
                assert forall|q: int|
                    0 <= q < self.n_pieces() && #[trigger] self.states@[q] == PieceState::Verified
                        implies digest_of(self.piece_bytes(q)) == self.expected@[q]@ by {
                    if q < p as int {
                        lemma_piece_ranges_disjoint(*old(self), q, p as int);
                    } else {
                        lemma_piece_ranges_disjoint(*old(self), p as int, q);
                    }
                    assert(self.piece_bytes(q) =~= old(self).piece_bytes(q));
                }
            }
        }
    }

    /// Buffers a block into the piece's assembly area. The piece must
    /// not be verified; verified bytes are never overwritten.
    pub fn write_block(&mut self, p: usize, offset: usize, block: &Vec<u8>)
        requires
            old(self).wf(),
            0 <= p < old(self).n_pieces(),
            old(self).states@[p as int] != PieceState::Verified,
            offset + block@.len() <= old(self).piece_end(p as int) - old(self).piece_start(
                p as int,
            ),
        ensures
            final(self).wf(),
            final(self).states@ == old(self).states@,
            final(self).piece_length == old(self).piece_length,
            final(self).total_length == old(self).total_length,
            final(self).expected@ == old(self).expected@,
            forall|j: int|
                0 <= j < block@.len() ==> #[trigger] final(self).data@[old(self).piece_start(
                    p as int,
                ) + offset + j] == block@[j],
            forall|j: int|
                0 <= j < block@.len() ==> #[trigger] final(self).filled@[old(self).piece_start(
                    p as int,
                ) + offset + j],
            forall|k: int|
                0 <= k < old(self).total_length && !(old(self).piece_start(p as int) + offset <= k
                    < old(self).piece_start(p as int) + offset + block@.len())
                    ==> #[trigger] final(self).data@[k] == old(self).data@[k],
            forall|k: int|
                0 <= k < old(self).total_length && !(old(self).piece_start(p as int) + offset <= k
                    < old(self).piece_start(p as int) + offset + block@.len())
                    ==> #[trigger] final(self).filled@[k] == old(self).filled@[k],
            old(self).hashes_ok() ==> final(self).hashes_ok(),
    {
        proof {
            lemma_piece_start_in_bounds(self.total_length, self.piece_length, p as int);
            lemma_piece_end_bounds(*self, p as int);
            assert((p as int + 1) * (self.piece_length as int) == p as int * (self.piece_length
                as int) + self.piece_length) by (nonlinear_arith);
        }
        let start: usize = p * (self.piece_length as usize) + offset;
        let mut j: usize = 0;
        while j < block.len()
            invariant
                j <= block@.len(),
                start == old(self).piece_start(p as int) + offset,
                start + block@.len() <= self.data@.len(),
                0 < self.piece_length <= COUNT_LIMIT,
                self.total_length <= COUNT_LIMIT,
                self.filled@.len() == self.total_length,
                self.data@.len() == old(self).data@.len(),
                self.filled@.len() == old(self).filled@.len(),
                self.data@.len() == self.total_length,
                forall|i: int| 0 <= i < j ==> #[trigger] self.data@[start + i] == block@[i],
                forall|i: int| 0 <= i < j ==> #[trigger] self.filled@[start + i],
                forall|k: int|
                    0 <= k < self.data@.len() && !(start <= k < start + j) ==> #[trigger] self
                        .data@[k] == old(self).data@[k],
                forall|k: int|
                    0 <= k < self.filled@.len() && !(start <= k < start + j)
                        ==> #[trigger] self.filled@[k] == old(self).filled@[k],
                self.states@ == old(self).states@,
                self.piece_length == old(self).piece_length,
                self.total_length == old(self).total_length,
                self.expected@ == old(self).expected@,
            decreases block@.len() - j,
        {
            self.data[start + j] = block[j];
            self.filled[start + j] = true;
            j = j + 1;
        }
        proof {
            let ps = old(self).piece_start(p as int);
            let pe = old(self).piece_end(p as int);
            let lo = ps + offset;
            let hi = ps + offset + block@.len();
            lemma_untouched_pieces(*old(self), *self, lo, hi);
            assert forall|q: int|
                0 <= q < self.n_pieces() && #[trigger] self.states@[q] == PieceState::Verified
                    implies self.piece_full(q) by {
                if q < p as int {
                    lemma_piece_ranges_disjoint(*old(self), q, p as int);
                } else {
                    assert(q != p as int);
                    lemma_piece_ranges_disjoint(*old(self), p as int, q);
                }
            }
            if old(self).hashes_ok() {
                assert forall|q: int|
                    0 <= q < self.n_pieces() && #[trigger] self.states@[q] == PieceState::Verified
                        implies digest_of(self.piece_bytes(q)) == self.expected@[q]@ by {
                    if q < p as int {
                        lemma_piece_ranges_disjoint(*old(self), q, p as int);
                    } else {
                        lemma_piece_ranges_disjoint(*old(self), p as int, q);
                    }
                    assert(self.piece_bytes(q) =~= old(self).piece_bytes(q));
                }
            }
        }
    }
}

/// For positive `d` and non-negative `p`, `x`: `p <= x / d` exactly
/// when `p * d <= x`.
pub proof fn lemma_le_div(x: int, d: int, p: int)
    requires
        d > 0,
        0 <= x,
        0 <= p,
    ensures
        (p <= x / d) <==> (p * d <= x),
{
    lemma_fundamental_div_mod(x, d);
    vstd::arithmetic::div_mod::lemma_mod_bound(x, d);
    if p <= x / d {
        lemma_mul_inequality(p, x / d, d);
        assert(d * (x / d) == (x / d) * d) by (nonlinear_arith);
        assert((x / d) * d <= x);
    }
    if p * d <= x && p > x / d {
        lemma_mul_inequality(x / d + 1, p, d);
        assert((x / d + 1) * d == (x / d) * d + d) by (nonlinear_arith);
        assert(d * (x / d) == (x / d) * d) by (nonlinear_arith);
        assert((x / d) * d + d > x);
        assert(false);
    }
}

impl PieceStore {
    /// Whether every byte of piece `p` has been written.
    pub fn piece_is_full(&self, p: usize) -> (r: bool)
        requires
            self.wf(),
            0 <= p < self.n_pieces(),
        ensures
            r == self.piece_full(p as int),
    {
        proof {
            lemma_piece_start_in_bounds(self.total_length, self.piece_length, p as int);
            lemma_piece_end_bounds(*self, p as int);
            assert((p as int + 1) * (self.piece_length as int) == p as int * (self.piece_length
                as int) + self.piece_length) by (nonlinear_arith);
        }
        let start: usize = p * (self.piece_length as usize);
        let end: usize = if self.total_length as usize - start >= self.piece_length as usize {
            start + self.piece_length as usize
        } else {
            self.total_length as usize
        };
        let mut k: usize = start;
        while k < end
            invariant
                start <= k <= end,
                end <= self.filled@.len(),
                start == self.piece_start(p as int),
                end == self.piece_end(p as int),
                forall|j: int| start <= j < k ==> #[trigger] self.filled@[j],
            decreases end - k,
        {
            if !self.filled[k] {
                return false;
            }
            k = k + 1;
        }
        true
    }

    /// Attempts to verify piece `p`: if its assembly area is fully
    /// populated, hashes it and compares against the expected digest.
    /// The piece becomes `Verified` exactly when the digest of its
    /// assembled bytes equals the descriptor's entry; on mismatch the
    /// assembly area is discarded and the piece returns to `Missing`.
    pub fn try_verify(&mut self, p: usize) -> (r: VerifyOutcome)
        requires
            old(self).wf(),
            0 <= p < old(self).n_pieces(),
            old(self).states@[p as int] == PieceState::Requested,
        ensures
            final(self).wf(),
            final(self).piece_length == old(self).piece_length,
            final(self).total_length == old(self).total_length,
            final(self).expected@ == old(self).expected@,
            final(self).data@ == old(self).data@,
            r == VerifyOutcome::Incomplete <==> !old(self).piece_full(p as int),
            r == VerifyOutcome::Incomplete ==> final(self).states@ == old(self).states@
                && final(self).filled@ == old(self).filled@,
            old(self).piece_full(p as int) ==> (r == VerifyOutcome::Accepted <==> digest_of(
                old(self).piece_bytes(p as int),
            ) == old(self).expected@[p as int]@),
            r == VerifyOutcome::Accepted ==> final(self).states@ == old(self).states@.update(
                p as int,
                PieceState::Verified,
            ) && final(self).filled@ == old(self).filled@,
            r == VerifyOutcome::Rejected ==> {
                &&& final(self).states@ == old(self).states@.update(p as int, PieceState::Missing)
                &&& forall|k: int|
                    0 <= k < old(self).total_length && !(old(self).piece_start(p as int) <= k
                        < old(self).piece_end(p as int)) ==> #[trigger] final(self).filled@[k]
                        == old(self).filled@[k]
                &&& !final(self).piece_full(p as int)
            },
            final(self).states@[p as int] == PieceState::Verified <==> (old(self).piece_full(
                p as int,
            ) && digest_of(old(self).piece_bytes(p as int)) == old(self).expected@[p as int]@),
            old(self).hashes_ok() ==> final(self).hashes_ok(),
    {
        proof {
            lemma_piece_start_in_bounds(self.total_length, self.piece_length, p as int);
            lemma_piece_end_bounds(*self, p as int);
            assert((p as int + 1) * (self.piece_length as int) == p as int * (self.piece_length
                as int) + self.piece_length) by (nonlinear_arith);
        }
        if !self.piece_is_full(p) {
            return VerifyOutcome::Incomplete;
        }
        let start: usize = p * (self.piece_length as usize);
        let end: usize = if self.total_length as usize - start >= self.piece_length as usize {
            start + self.piece_length as usize
        } else {
            self.total_length as usize
        };
        let piece = crate::descriptor::copy_range(self.data.as_slice(), start, end - start);
        let dig = compute_digest(piece.as_slice());
        proof {
            assert(piece@ =~= old(self).piece_bytes(p as int));
        }
        if digests_equal(&dig, &self.expected[p]) {
            self.states[p] = PieceState::Verified;
            proof {
                assert forall|q: int|
                    0 <= q < self.n_pieces() && #[trigger] self.states@[q]
                        == PieceState::Verified implies self.piece_full(q) by {}
                if old(self).hashes_ok() {
                    assert forall|q: int|
                        0 <= q < self.n_pieces() && #[trigger] self.states@[q]
                            == PieceState::Verified implies digest_of(self.piece_bytes(q))
                        == self.expected@[q]@ by {
                        assert(self.piece_bytes(q) == old(self).piece_bytes(q));
                    }
                }
            }
            VerifyOutcome::Accepted
        } else {
            self.states[p] = PieceState::Missing;
            let mut k: usize = start;
            while k < end
                invariant
                    start <= k <= end,
                    end <= self.filled@.len(),
                    self.filled@.len() == old(self).filled@.len(),
                    forall|j: int|
                        0 <= j < self.filled@.len() && !(start <= j < k)
                            ==> #[trigger] self.filled@[j] == old(self).filled@[j],
                    forall|j: int| start <= j < k ==> !#[trigger] self.filled@[j],
                    self.states@ == old(self).states@.update(p as int, PieceState::Missing),
                    self.piece_length == old(self).piece_length,
                    self.total_length == old(self).total_length,
                    self.expected@ == old(self).expected@,
                    self.data@ == old(self).data@,
                decreases end - k,
            {
                self.filled[k] = false;
                k = k + 1;
            }
            proof {
                let ps = old(self).piece_start(p as int);
                let pe = old(self).piece_end(p as int);
                assert(start == ps && end == pe);
                lemma_untouched_pieces(*old(self), *self, ps, pe);
                assert forall|q: int|
                    0 <= q < self.n_pieces() && #[trigger] self.states@[q]
                        == PieceState::Verified implies self.piece_full(q) by {
                    if q < p as int {
                        lemma_piece_ranges_disjoint(*old(self), q, p as int);
                    } else {
                        lemma_piece_ranges_disjoint(*old(self), p as int, q);
                    }
                }
                if old(self).hashes_ok() {
                    assert forall|q: int|
                        0 <= q < self.n_pieces() && #[trigger] self.states@[q]
                            == PieceState::Verified implies digest_of(self.piece_bytes(q))
                        == self.expected@[q]@ by {
                        if q < p as int {
                            lemma_piece_ranges_disjoint(*old(self), q, p as int);
                        } else {
                            lemma_piece_ranges_disjoint(*old(self), p as int, q);
                        }
                        assert(self.piece_bytes(q) =~= old(self).piece_bytes(q));
                    }
                }
                assert(!self.filled@[ps]);
            }
            VerifyOutcome::Rejected
        }
    }

    /// Every piece that overlaps `[start, start + len)` is verified.
    pub open spec fn range_covered(self, start: int, len: int) -> bool {
        forall|p: int|
            0 <= p < self.n_pieces() && 0 < len && self.piece_start(p) < start + len && start
                < self.piece_end(p) ==> #[trigger] self.states@[p] == PieceState::Verified
    }

    /// Reads a verified byte range for serving. Succeeds exactly when
    /// the range lies inside the area and every piece it touches is
    /// verified, and then returns exactly those bytes.
    pub fn read_range(&self, start: u64, len: u64) -> (r: Result<Vec<u8>, EngineError>)
        requires
            self.wf(),
        ensures
            match r {
                Ok(v) => {
                    &&& start + len <= self.total_length
                    &&& self.range_covered(start as int, len as int)
                    &&& v@ == self.range_bytes(start as int, len as int)
                },
                Err(e) => {
                    &&& e == EngineError::NotYetAvailable
                    &&& !(start + len <= self.total_length && self.range_covered(
                        start as int,
                        len as int,
                    ))
                },
            },
    {
        if len > self.total_length || start > self.total_length - len {
            return Err(EngineError::NotYetAvailable);
        }
        if len == 0 {
            let v: Vec<u8> = Vec::new();
            proof {
                assert(v@ =~= self.range_bytes(start as int, 0));
            }
            return Ok(v);
        }
        let pl = self.piece_length;
        let first: u64 = start / pl;
        let last: u64 = (start + len - 1) / pl;
        proof {
            let d = pl as int;
            let t = self.total_length as int;
            vstd::arithmetic::div_mod::lemma_div_is_ordered(
                start as int + len - 1,
                t - 1,
                d,
            );
            vstd::arithmetic::div_mod::lemma_div_is_ordered(
                start as int,
                start as int + len - 1,
                d,
            );
            assert(last < self.n_pieces());
            lemma_fundamental_div_mod(start as int, d);
            lemma_fundamental_div_mod(start as int + len - 1, d);
        }
        let mut p: u64 = first;
        while p <= last
            invariant
                self.wf(),
                first <= p <= last + 1,
                last < self.n_pieces(),
                0 < pl == self.piece_length,
                start + len <= self.total_length,
                len > 0,
                first == start as int / pl as int,
                last == (start as int + len - 1) / pl as int,
                forall|q: int| first <= q < p ==> #[trigger] self.states@[q]
                    == PieceState::Verified,
            decreases last + 1 - p,
        {
            let st = self.states[p as usize];
            if !matches!(st, PieceState::Verified) {
                proof {
                    let d = pl as int;
                    let q = p as int;
                    lemma_le_div(start as int + len - 1, d, q);
                    lemma_le_div(start as int, d, q + 1);
                    lemma_fundamental_div_mod(start as int, d);
                    assert((q + 1) * d == q * d + d) by (nonlinear_arith);
                    assert(self.piece_start(q) < start + len);
                    assert(start < self.piece_end(q));
                    assert(!(self.states@[q] == PieceState::Verified));
                }
                return Err(EngineError::NotYetAvailable);
            }
            p = p + 1;
        }
        proof {
            assert forall|q: int|
                0 <= q < self.n_pieces() && self.piece_start(q) < start + len && start
                    < self.piece_end(q) implies #[trigger] self.states@[q]
                == PieceState::Verified by {
                let d = pl as int;
                lemma_le_div(start as int + len - 1, d, q);
                lemma_le_div(start as int, d, q + 1);
                lemma_fundamental_div_mod(start as int, d);
                assert((q + 1) * d == q * d + d) by (nonlinear_arith);
            }
        }
        let v = crate::descriptor::copy_range(self.data.as_slice(), start as usize, len as usize);
        Ok(v)
    }
}

impl PieceStore {
    /// Builds a fully verified store from local content: splits the
    /// bytes into pieces, hashes each, and marks every piece
    /// `Verified` immediately. Also returns a copy of the piece digest
    /// list for building the descriptor, so seeding and adding derive
    /// the same identity.
    pub fn from_content(piece_length: u64, content: Vec<u8>) -> (r: (PieceStore, Vec<Vec<u8>>))
        requires
            0 < piece_length <= COUNT_LIMIT,
            content@.len() <= COUNT_LIMIT,
        ensures
            r.0.wf(),
            r.0.hashes_ok(),
            r.0.all_verified(),
            r.0.piece_length == piece_length,
            r.0.total_length == content@.len(),
            r.0.data@ == content@,
            r.1@.len() == r.0.n_pieces(),
            forall|q: int|
                0 <= q < r.1@.len() ==> #[trigger] r.1@[q]@ == digest_of(r.0.piece_bytes(q))
                    && r.1@[q]@.len() == DIGEST_LEN,
            forall|q: int| 0 <= q < r.1@.len() ==> #[trigger] r.0.expected@[q]@ == r.1@[q]@,
    {
        let total_u: usize = content.len();
        let total: u64 = total_u as u64;
        let n: usize = if total == 0 {
            0
        } else {
            (((total - 1) / piece_length) + 1) as usize
        };
        let mut expected: Vec<Vec<u8>> = Vec::new();
        let mut hashes: Vec<Vec<u8>> = Vec::new();
        let mut cur: usize = 0;
        let mut p: usize = 0;
        while p < n
            invariant
                p <= n,
                n == piece_count(total, piece_length),
                total == content@.len(),
                total == total_u,
                0 < piece_length <= COUNT_LIMIT,
                total <= COUNT_LIMIT,
                cur as int == (if p * (piece_length as int) <= total as int {
                    p * (piece_length as int)
                } else {
                    total as int
                }),
                cur <= total_u,
                expected@.len() == p,
                hashes@.len() == p,
                forall|q: int|
                    0 <= q < p ==> #[trigger] expected@[q]@ == digest_of(
                        content@.subrange(
                            q * (piece_length as int),
                            if (q + 1) * (piece_length as int) <= total as int {
                                (q + 1) * (piece_length as int)
                            } else {
                                total as int
                            },
                        ),
                    ),
                forall|q: int| 0 <= q < p ==> #[trigger] expected@[q]@.len() == DIGEST_LEN,
                forall|q: int| 0 <= q < p ==> #[trigger] hashes@[q]@ == expected@[q]@,
            decreases n - p,
        {
            proof {
                lemma_piece_start_in_bounds(total, piece_length, p as int);
                assert((p as int + 1) * (piece_length as int) == p as int * (piece_length
                    as int) + piece_length) by (nonlinear_arith);
            }
            let size: usize = if total_u - cur >= piece_length as usize {
                piece_length as usize
            } else {
                total_u - cur
            };
            let piece = crate::descriptor::copy_range(content.as_slice(), cur, size);
            let dig = compute_digest(piece.as_slice());
            let dig2 = compute_digest(piece.as_slice());
            expected.push(dig);
            hashes.push(dig2);
            cur = cur + size;
            p = p + 1;
        }
        let store = PieceStore {
            piece_length,
            total_length: total,
            expected,
            states: repeat_value(PieceState::Verified, n),
            data: content,
            filled: repeat_value(true, total_u),
        };
        proof {
            assert forall|q: int|
                0 <= q < store.n_pieces() && #[trigger] store.states@[q]
                    == PieceState::Verified implies store.piece_full(q) by {
                lemma_piece_end_bounds(store, q);
            }
            assert(store.wf());
            assert forall|q: int|
                0 <= q < store.n_pieces() && #[trigger] store.states@[q]
                    == PieceState::Verified implies digest_of(store.piece_bytes(q))
                == store.expected@[q]@ by {}
        }
        (store, hashes)
    }
}

/// Round trip: a store seeded from local content serves back exactly
/// those bytes — any in-bounds range read equals the same range of the
/// original content.
pub proof fn lemma_seeded_content_roundtrip(s: PieceStore, content: Seq<u8>, start: int, len: int)
    requires
        s.data@ == content,
        0 <= start,
        0 <= len,
        start + len <= content.len(),
    ensures
        s.range_bytes(start, len) == content.subrange(start, start + len),
{
    assert(s.range_bytes(start, len) =~= content.subrange(start, start + len));
}

} // verus!
