//! The metadata model: a torrent descriptor holds the piece geometry,
//! one digest per piece, and the file layout. A descriptor has one
//! canonical byte encoding; the info hash is the digest of that
//! encoding, so every entry path (local data, raw bytes, identifier)
//! converges to the same identity.

use vstd::prelude::*;

use crate::errors::EngineError;
use crate::hashing::DIGEST_LEN;
use crate::hashing::digest_of;

verus! {

/// One file of the content: a name, its length in bytes, and its
/// offset into the concatenated piece space.
#[derive(Debug)]
pub struct FileEntry {
    pub name: Vec<u8>,
    pub length: u64,
    pub offset: u64,
}

/// Spec-level image of a `FileEntry`.
pub ghost struct FileView {
    pub name: Seq<u8>,
    pub length: u64,
    pub offset: u64,
}

impl View for FileEntry {
    type V = FileView;

    open spec fn view(&self) -> FileView {
        FileView { name: self.name@, length: self.length, offset: self.offset }
    }
}

/// An immutable torrent descriptor: identity, piece geometry, one
/// digest per piece, and the file layout over the concatenated piece
/// space.
#[derive(Debug)]
pub struct TorrentDescriptor {
    pub info_hash: Vec<u8>,
    pub piece_length: u64,
    pub total_length: u64,
    pub piece_hashes: Vec<Vec<u8>>,
    pub files: Vec<FileEntry>,
}

/// Spec-level image of a descriptor's canonical content (the info hash
/// is derived from this content, so it is not part of it).
pub ghost struct DescView {
    pub piece_length: u64,
    pub total_length: u64,
    pub hashes: Seq<Seq<u8>>,
    pub files: Seq<FileView>,
}

impl View for TorrentDescriptor {
    type V = DescView;

    open spec fn view(&self) -> DescView {
        DescView {
            piece_length: self.piece_length,
            total_length: self.total_length,
            hashes: self.piece_hashes@.map_values(|h: Vec<u8>| h@),
            files: self.files@.map_values(|f: FileEntry| f@),
        }
    }
}

/// Sum of the file lengths.
pub open spec fn sum_lengths(files: Seq<FileView>) -> int
    decreases files.len(),
{
    if files.len() == 0 {
        0
    } else {
        files[0].length + sum_lengths(files.drop_first())
    }
}

/// Each file's offset is the sum of the lengths before it, starting
/// from `base`.
pub open spec fn offsets_ok(files: Seq<FileView>, base: int) -> bool
    decreases files.len(),
{
    if files.len() == 0 {
        true
    } else {
        files[0].offset == base && offsets_ok(files.drop_first(), base + files[0].length)
    }
}

/// Number of pieces covering `total` bytes in pieces of `pl` bytes;
/// the last piece may be shorter.
pub open spec fn piece_count(total: u64, pl: u64) -> int
    recommends
        pl > 0,
{
    if total == 0 {
        0
    } else {
        (total - 1) / (pl as int) + 1
    }
}

/// Upper bound accepted for file-name lengths and element counts, so
/// that every parsed size fits in `usize`.
pub const COUNT_LIMIT: u64 = 0xffff_ffff;

/// Well-formedness of a descriptor's content: positive piece length,
/// digests of the right size, file lengths that add up to the total,
/// offsets that are prefix sums, and exactly one digest per piece.
pub open spec fn wf_view(d: DescView) -> bool {
    &&& d.piece_length > 0
    &&& forall|i: int| 0 <= i < d.hashes.len() ==> #[trigger] d.hashes[i].len() == DIGEST_LEN
    &&& sum_lengths(d.files) == d.total_length as int
    &&& offsets_ok(d.files, 0)
    &&& d.hashes.len() == piece_count(d.total_length, d.piece_length)
    &&& forall|i: int|
        0 <= i < d.files.len() ==> #[trigger] d.files[i].name.len() <= COUNT_LIMIT
    &&& d.hashes.len() <= COUNT_LIMIT
    &&& d.files.len() <= COUNT_LIMIT
}

impl TorrentDescriptor {
    /// A well-formed descriptor: well-formed content and a full-size
    /// info hash.
    pub open spec fn wf(&self) -> bool {
        &&& wf_view(self@)
        &&& self.info_hash@.len() == DIGEST_LEN
    }

    /// The descriptor's identity is the digest of its canonical
    /// encoding.
    pub open spec fn identity_ok(&self) -> bool {
        self.info_hash@ == crate::hashing::digest_of(encode_spec(self@))
    }
}

/// Canonical encoding of the digest list: the digests in order.
pub open spec fn encode_hashes_spec(hs: Seq<Seq<u8>>) -> Seq<u8>
    decreases hs.len(),
{
    if hs.len() == 0 {
        Seq::empty()
    } else {
        hs[0] + encode_hashes_spec(hs.drop_first())
    }
}

/// Canonical encoding of one file entry: name length, name bytes,
/// file length. The offset is derived, not encoded.
pub open spec fn encode_file_spec(f: FileView) -> Seq<u8> {
    be64_bytes(f.name.len() as u64) + f.name + be64_bytes(f.length)
}

/// Canonical encoding of the file list.
pub open spec fn encode_files_spec(fs: Seq<FileView>) -> Seq<u8>
    decreases fs.len(),
{
    if fs.len() == 0 {
        Seq::empty()
    } else {
        encode_file_spec(fs[0]) + encode_files_spec(fs.drop_first())
    }
}

/// The canonical encoding of a descriptor's content.
pub open spec fn encode_spec(d: DescView) -> Seq<u8> {
    be64_bytes(d.piece_length) + be64_bytes(d.total_length) + be64_bytes(d.hashes.len() as u64)
        + encode_hashes_spec(d.hashes) + be64_bytes(d.files.len() as u64)
        + encode_files_spec(d.files)
}

/// The 8-byte big-endian encoding of a 64-bit integer.
pub open spec fn be64_bytes(x: u64) -> Seq<u8> {
    seq![
        (x >> 56) as u8,
        (x >> 48) as u8,
        (x >> 40) as u8,
        (x >> 32) as u8,
        (x >> 24) as u8,
        (x >> 16) as u8,
        (x >> 8) as u8,
        x as u8,
    ]
}

/// The integer read back from 8 big-endian bytes.
pub open spec fn be64_val(s: Seq<u8>) -> u64 {
    (((s[0] as u64) << 56) | ((s[1] as u64) << 48) | ((s[2] as u64) << 40)
        | ((s[3] as u64) << 32) | ((s[4] as u64) << 24) | ((s[5] as u64) << 16)
        | ((s[6] as u64) << 8) | (s[7] as u64)) as u64
}

/// Reading back the big-endian encoding of `x` yields `x`.
pub proof fn lemma_be64_roundtrip(x: u64)
    ensures
        be64_val(be64_bytes(x)) == x,
{
    let s = be64_bytes(x);
    assert(s[0] == (x >> 56) as u8 && s[1] == (x >> 48) as u8 && s[2] == (x >> 40) as u8
        && s[3] == (x >> 32) as u8 && s[4] == (x >> 24) as u8 && s[5] == (x >> 16) as u8
        && s[6] == (x >> 8) as u8 && s[7] == x as u8);
    assert(((((x >> 56) as u8 as u64) << 56) | (((x >> 48) as u8 as u64) << 48)
        | (((x >> 40) as u8 as u64) << 40) | (((x >> 32) as u8 as u64) << 32)
        | (((x >> 24) as u8 as u64) << 24) | (((x >> 16) as u8 as u64) << 16)
        | (((x >> 8) as u8 as u64) << 8) | (x as u8 as u64)) == x) by (bit_vector);
}

/// Appends the big-endian encoding of `x`.
pub fn push_be64(out: &mut Vec<u8>, x: u64)
    ensures
        final(out)@ == old(out)@ + be64_bytes(x),
{
    out.push((x >> 56) as u8);
    out.push((x >> 48) as u8);
    out.push((x >> 40) as u8);
    out.push((x >> 32) as u8);
    out.push((x >> 24) as u8);
    out.push((x >> 16) as u8);
    out.push((x >> 8) as u8);
    out.push(x as u8);
    proof {
        assert(out@ =~= old(out)@ + be64_bytes(x));
    }
}

/// Reads the big-endian integer at `off`.
pub fn read_be64(bytes: &[u8], off: usize) -> (r: u64)
    requires
        off + 8 <= bytes@.len(),
    ensures
        r == be64_val(bytes@.subrange(off as int, off as int + 8)),
{
    let r: u64 = ((bytes[off] as u64) << 56) | ((bytes[off + 1] as u64) << 48)
        | ((bytes[off + 2] as u64) << 40) | ((bytes[off + 3] as u64) << 32)
        | ((bytes[off + 4] as u64) << 24) | ((bytes[off + 5] as u64) << 16)
        | ((bytes[off + 6] as u64) << 8) | (bytes[off + 7] as u64);
    proof {
        let s = bytes@.subrange(off as int, off as int + 8);
        assert(s[0] == bytes@[off as int] && s[1] == bytes@[off as int + 1]
            && s[2] == bytes@[off as int + 2] && s[3] == bytes@[off as int + 3]
            && s[4] == bytes@[off as int + 4] && s[5] == bytes@[off as int + 5]
            && s[6] == bytes@[off as int + 6] && s[7] == bytes@[off as int + 7]);
    }
    r
}

/// Appends all of `b`.
pub fn append_bytes(out: &mut Vec<u8>, b: &Vec<u8>)
    ensures
        final(out)@ == old(out)@ + b@,
{
    let mut j: usize = 0;
    while j < b.len()
        invariant
            j <= b.len(),
            out@ == old(out)@ + b@.take(j as int),
        decreases b.len() - j,
    {
        out.push(b[j]);
        proof {
            assert(b@.take(j + 1 as int) =~= b@.take(j as int).push(b@[j as int]));
            assert(out@ =~= old(out)@ + b@.take(j + 1 as int));
        }
        j = j + 1;
    }
    proof {
        assert(b@.take(b@.len() as int) =~= b@);
    }
}

proof fn lemma_encode_hashes_push(s: Seq<Seq<u8>>, x: Seq<u8>)
    ensures
        encode_hashes_spec(s.push(x)) == encode_hashes_spec(s) + x,
    decreases s.len(),
{
    if s.len() == 0 {
        assert(s.push(x)[0] == x);
        assert(s.push(x).drop_first() =~= Seq::<Seq<u8>>::empty());
        assert(encode_hashes_spec(Seq::<Seq<u8>>::empty()) == Seq::<u8>::empty());
        assert(encode_hashes_spec(s.push(x)) == x + Seq::<u8>::empty());
        assert(x + Seq::<u8>::empty() =~= Seq::<u8>::empty() + x);
        assert(s =~= Seq::<Seq<u8>>::empty());
    } else {
        assert(s.push(x).drop_first() =~= s.drop_first().push(x));
        lemma_encode_hashes_push(s.drop_first(), x);
        assert(s.push(x)[0] == s[0]);
        assert(encode_hashes_spec(s.push(x)) == s[0] + (encode_hashes_spec(s.drop_first()) + x));
        assert(s[0] + (encode_hashes_spec(s.drop_first()) + x) =~= (s[0] + encode_hashes_spec(
            s.drop_first(),
        )) + x);
    }
}

proof fn lemma_encode_files_push(s: Seq<FileView>, f: FileView)
    ensures
        encode_files_spec(s.push(f)) == encode_files_spec(s) + encode_file_spec(f),
    decreases s.len(),
{
    if s.len() == 0 {
        assert(s.push(f)[0] == f);
        assert(s.push(f).drop_first() =~= Seq::<FileView>::empty());
        assert(encode_files_spec(Seq::<FileView>::empty()) == Seq::<u8>::empty());
        assert(encode_files_spec(s.push(f)) == encode_file_spec(f) + Seq::<u8>::empty());
        assert(encode_file_spec(f) + Seq::<u8>::empty() =~= Seq::<u8>::empty() + encode_file_spec(
            f,
        ));
        assert(s =~= Seq::<FileView>::empty());
    } else {
        assert(s.push(f).drop_first() =~= s.drop_first().push(f));
        lemma_encode_files_push(s.drop_first(), f);
        assert(s.push(f)[0] == s[0]);
        assert(encode_files_spec(s.push(f)) == encode_file_spec(s[0]) + (encode_files_spec(
            s.drop_first(),
        ) + encode_file_spec(f)));
        assert(encode_file_spec(s[0]) + (encode_files_spec(s.drop_first()) + encode_file_spec(f))
            =~= (encode_file_spec(s[0]) + encode_files_spec(s.drop_first())) + encode_file_spec(
            f,
        ));
    }
}

/// Produces the canonical encoding of the descriptor's content.
pub fn encode(d: &TorrentDescriptor) -> (r: Vec<u8>)
    requires
        wf_view(d@),
    ensures
        r@ == encode_spec(d@),
{
    let mut out: Vec<u8> = Vec::new();
    push_be64(&mut out, d.piece_length);
    push_be64(&mut out, d.total_length);
    push_be64(&mut out, d.piece_hashes.len() as u64);
    let ghost head: Seq<u8> = be64_bytes(d.piece_length) + be64_bytes(d.total_length)
        + be64_bytes(d@.hashes.len() as u64);
    proof {
        assert(out@ =~= head + encode_hashes_spec(d@.hashes.take(0)));
    }
    let mut i: usize = 0;
    while i < d.piece_hashes.len()
        invariant
            i <= d.piece_hashes.len(),
            d.piece_hashes@.len() == d@.hashes.len(),
            forall|k: int|
                0 <= k < d@.hashes.len() ==> #[trigger] d@.hashes[k] == d.piece_hashes@[k]@,
            out@ == head + encode_hashes_spec(d@.hashes.take(i as int)),
        decreases d.piece_hashes.len() - i,
    {
        append_bytes(&mut out, &d.piece_hashes[i]);
        proof {
            assert(d@.hashes.take(i + 1 as int) =~= d@.hashes.take(i as int).push(
                d@.hashes[i as int],
            ));
            lemma_encode_hashes_push(d@.hashes.take(i as int), d@.hashes[i as int]);
        }
        i = i + 1;
    }
    proof {
        assert(d@.hashes.take(d@.hashes.len() as int) =~= d@.hashes);
    }
    push_be64(&mut out, d.files.len() as u64);
    let ghost mid: Seq<u8> = head + encode_hashes_spec(d@.hashes) + be64_bytes(
        d@.files.len() as u64,
    );
    proof {
        assert(out@ =~= mid + encode_files_spec(d@.files.take(0)));
    }
    let mut i: usize = 0;
    while i < d.files.len()
        invariant
            i <= d.files.len(),
            d.files@.len() == d@.files.len(),
            forall|k: int| 0 <= k < d@.files.len() ==> #[trigger] d@.files[k] == d.files@[k]@,
            forall|k: int|
                0 <= k < d@.files.len() ==> #[trigger] d@.files[k].name.len() <= COUNT_LIMIT,
            out@ == mid + encode_files_spec(d@.files.take(i as int)),
        decreases d.files.len() - i,
    {
        let fe = &d.files[i];
        push_be64(&mut out, fe.name.len() as u64);
        append_bytes(&mut out, &fe.name);
        push_be64(&mut out, fe.length);
        proof {
            assert(d@.files.take(i + 1 as int) =~= d@.files.take(i as int).push(
                d@.files[i as int],
            ));
            lemma_encode_files_push(d@.files.take(i as int), d@.files[i as int]);
            assert(out@ =~= mid + encode_files_spec(d@.files.take(i as int)) + encode_file_spec(
                d@.files[i as int],
            ));
        }
        i = i + 1;
    }
    proof {
        assert(d@.files.take(d@.files.len() as int) =~= d@.files);
        assert(out@ =~= encode_spec(d@));
    }
    out
}

/// Parses `n` piece digests at `off`: `None` on truncation, else the
/// digests and the offset just past them.
pub open spec fn parse_hashes_spec(bytes: Seq<u8>, off: int, n: nat) -> Option<
    (Seq<Seq<u8>>, int),
>
    decreases n,
{
    if n == 0 {
        Some((Seq::empty(), off))
    } else if off + DIGEST_LEN <= bytes.len() {
        match parse_hashes_spec(bytes, off + DIGEST_LEN, (n - 1) as nat) {
            Some(p) => Some(
                (seq![bytes.subrange(off, off + DIGEST_LEN)] + p.0, p.1),
            ),
            None => None,
        }
    } else {
        None
    }
}

/// Parses `n` file entries at `off`, assigning offsets starting from
/// `base`: `None` on truncation, an oversized name, or a length sum
/// that leaves `u64`; else the entries, the offset just past them, and
/// `base` plus the sum of the parsed lengths.
pub open spec fn parse_files_spec(bytes: Seq<u8>, off: int, n: nat, base: u64) -> Option<
    (Seq<FileView>, int, u64),
>
    decreases n,
{
    if n == 0 {
        Some((Seq::empty(), off, base))
    } else if off + 8 <= bytes.len() {
        let name_len = be64_val(bytes.subrange(off, off + 8));
        if name_len <= COUNT_LIMIT && off + 16 + name_len <= bytes.len() {
            let name = bytes.subrange(off + 8, off + 8 + name_len);
            let length = be64_val(bytes.subrange(off + 8 + name_len, off + 16 + name_len));
            if base + length <= u64::MAX {
                match parse_files_spec(
                    bytes,
                    off + 16 + name_len,
                    (n - 1) as nat,
                    (base + length) as u64,
                ) {
                    Some(p) => Some(
                        (seq![FileView { name, length, offset: base }] + p.0, p.1, p.2),
                    ),
                    None => None,
                }
            } else {
                None
            }
        } else {
            None
        }
    } else {
        None
    }
}

/// Parses a whole descriptor: `Some` exactly when the bytes are the
/// canonical encoding of a well-formed descriptor content.
pub open spec fn parse_spec(bytes: Seq<u8>) -> Option<DescView> {
    if bytes.len() < 24 {
        None
    } else {
        let pl = be64_val(bytes.subrange(0, 8));
        let total = be64_val(bytes.subrange(8, 16));
        let nh = be64_val(bytes.subrange(16, 24));
        if pl > 0 && nh <= COUNT_LIMIT {
            match parse_hashes_spec(bytes, 24, nh as nat) {
                Some(hp) => {
                    if hp.1 + 8 <= bytes.len() {
                        let nf = be64_val(bytes.subrange(hp.1, hp.1 + 8));
                        if nf <= COUNT_LIMIT {
                            match parse_files_spec(bytes, hp.1 + 8, nf as nat, 0u64) {
                                Some(fp) => {
                                    if fp.1 == bytes.len() && fp.2 == total && nh as int
                                        == piece_count(total, pl) {
                                        Some(
                                            DescView {
                                                piece_length: pl,
                                                total_length: total,
                                                hashes: hp.0,
                                                files: fp.0,
                                            },
                                        )
                                    } else {
                                        None
                                    }
                                },
                                None => None,
                            }
                        } else {
                            None
                        }
                    } else {
                        None
                    }
                },
                None => None,
            }
        } else {
            None
        }
    }
}

/// Re-encoding the integer read from 8 bytes yields those bytes.
pub proof fn lemma_be64_reencode(s: Seq<u8>)
    requires
        s.len() == 8,
    ensures
        be64_bytes(be64_val(s)) == s,
{
    let b0 = s[0];
    let b1 = s[1];
    let b2 = s[2];
    let b3 = s[3];
    let b4 = s[4];
    let b5 = s[5];
    let b6 = s[6];
    let b7 = s[7];
    let x = be64_val(s);
    assert(x == (((b0 as u64) << 56) | ((b1 as u64) << 48) | ((b2 as u64) << 40) | ((b3
        as u64) << 32) | ((b4 as u64) << 24) | ((b5 as u64) << 16) | ((b6 as u64) << 8) | (b7
        as u64)) as u64);
    let y = (((b0 as u64) << 56) | ((b1 as u64) << 48) | ((b2 as u64) << 40) | ((b3 as u64)
        << 32) | ((b4 as u64) << 24) | ((b5 as u64) << 16) | ((b6 as u64) << 8) | (b7
        as u64)) as u64;
    assert((y >> 56) as u8 == b0 && (y >> 48) as u8 == b1 && (y >> 40) as u8 == b2 && (y >> 32)
        as u8 == b3 && (y >> 24) as u8 == b4 && (y >> 16) as u8 == b5 && (y >> 8) as u8 == b6
        && y as u8 == b7) by (bit_vector)
        requires
            y == (((b0 as u64) << 56) | ((b1 as u64) << 48) | ((b2 as u64) << 40) | ((b3
                as u64) << 32) | ((b4 as u64) << 24) | ((b5 as u64) << 16) | ((b6 as u64) << 8)
                | (b7 as u64)) as u64,
    ;
    assert(be64_bytes(x) =~= s);
}

/// A parsed digest list is the one whose encoding is exactly the bytes
/// it was read from.
pub proof fn lemma_parse_hashes_canonical(bytes: Seq<u8>, off: int, n: nat)
    requires
        0 <= off <= bytes.len(),
    ensures
        parse_hashes_spec(bytes, off, n) matches Some(p) ==> {
            &&& p.0.len() == n
            &&& p.1 == off + DIGEST_LEN * n
            &&& p.1 <= bytes.len()
            &&& forall|i: int| 0 <= i < n ==> #[trigger] p.0[i].len() == DIGEST_LEN
            &&& encode_hashes_spec(p.0) == bytes.subrange(off, p.1)
        },
    decreases n,
{
    if n == 0 {
        if parse_hashes_spec(bytes, off, n) is Some {
            let p = parse_hashes_spec(bytes, off, n).unwrap();
            assert(p.0 =~= Seq::<Seq<u8>>::empty());
            assert(encode_hashes_spec(p.0) =~= bytes.subrange(off, off));
        }
    } else if off + DIGEST_LEN <= bytes.len() {
        lemma_parse_hashes_canonical(bytes, off + DIGEST_LEN, (n - 1) as nat);
        if parse_hashes_spec(bytes, off, n) is Some {
            let p = parse_hashes_spec(bytes, off, n).unwrap();
            let h0 = bytes.subrange(off, off + DIGEST_LEN);
            let rec = parse_hashes_spec(bytes, off + DIGEST_LEN, (n - 1) as nat);
            let q = rec.unwrap();
            assert(p.0 == seq![h0] + q.0);
            assert(p.0[0] == h0);
            assert(p.0.drop_first() =~= q.0);
            assert(encode_hashes_spec(p.0) == h0 + encode_hashes_spec(q.0));
            assert(h0 + bytes.subrange(off + DIGEST_LEN, q.1) =~= bytes.subrange(off, q.1));
        }
    }
}

/// A parsed file list is the one whose encoding is exactly the bytes
/// it was read from; its offsets are prefix sums from `base`, and the
/// returned accumulator is `base` plus the sum of its lengths.
pub proof fn lemma_parse_files_canonical(bytes: Seq<u8>, off: int, n: nat, base: u64)
    requires
        0 <= off <= bytes.len(),
    ensures
        parse_files_spec(bytes, off, n, base) matches Some(p) ==> {
            &&& p.0.len() == n
            &&& off <= p.1 <= bytes.len()
            &&& offsets_ok(p.0, base as int)
            &&& p.2 == base + sum_lengths(p.0)
            &&& forall|i: int| 0 <= i < n ==> #[trigger] p.0[i].name.len() <= COUNT_LIMIT
            &&& encode_files_spec(p.0) == bytes.subrange(off, p.1)
        },
    decreases n,
{
    if n == 0 {
        if parse_files_spec(bytes, off, n, base) is Some {
            let p = parse_files_spec(bytes, off, n, base).unwrap();
            assert(p.0 =~= Seq::<FileView>::empty());
            assert(encode_files_spec(p.0) =~= bytes.subrange(off, off));
        }
    } else if off + 8 <= bytes.len() {
        let name_len = be64_val(bytes.subrange(off, off + 8));
        if name_len <= COUNT_LIMIT && off + 16 + name_len <= bytes.len() {
            let name = bytes.subrange(off + 8, off + 8 + name_len);
            let length = be64_val(bytes.subrange(off + 8 + name_len, off + 16 + name_len));
            if base + length <= u64::MAX {
                let base2 = (base + length) as u64;
                lemma_parse_files_canonical(bytes, off + 16 + name_len, (n - 1) as nat, base2);
                if parse_files_spec(bytes, off, n, base) is Some {
                    let p = parse_files_spec(bytes, off, n, base).unwrap();
                    let f0 = FileView { name, length, offset: base };
                    let rec = parse_files_spec(bytes, off + 16 + name_len, (n - 1) as nat, base2);
                    let q = rec.unwrap();
                    assert(p.0 == seq![f0] + q.0);
                    assert(p.0[0] == f0);
                    assert(p.0.drop_first() =~= q.0);
                    assert(encode_files_spec(p.0) == encode_file_spec(f0) + encode_files_spec(
                        q.0,
                    ));
                    lemma_be64_reencode(bytes.subrange(off, off + 8));
                    lemma_be64_reencode(bytes.subrange(off + 8 + name_len, off + 16 + name_len));
                    assert(f0.name.len() as u64 == name_len);
                    assert(be64_bytes(name_len) == bytes.subrange(off, off + 8));
                    assert(be64_bytes(length) == bytes.subrange(
                        off + 8 + name_len,
                        off + 16 + name_len,
                    ));
                    assert(encode_file_spec(f0) =~= bytes.subrange(off, off + 16 + name_len));
                    assert(bytes.subrange(off, off + 16 + name_len) + bytes.subrange(
                        off + 16 + name_len,
                        q.1,
                    ) =~= bytes.subrange(off, q.1));
                    assert(sum_lengths(p.0) == length + sum_lengths(q.0));
                }
            }
        }
    }
}

/// A successful parse yields well-formed content whose canonical
/// encoding is exactly the input: two byte strings that parse to the
/// same content are equal, and the info hash any entry path computes
/// from them is the same.
pub proof fn lemma_parse_canonical(bytes: Seq<u8>)
    ensures
        parse_spec(bytes) matches Some(v) ==> {
            &&& wf_view(v)
            &&& encode_spec(v) == bytes
        },
{
    if parse_spec(bytes) is Some {
        let v = parse_spec(bytes).unwrap();
        let pl = be64_val(bytes.subrange(0, 8));
        let total = be64_val(bytes.subrange(8, 16));
        let nh = be64_val(bytes.subrange(16, 24));
        lemma_parse_hashes_canonical(bytes, 24, nh as nat);
        let hp = parse_hashes_spec(bytes, 24, nh as nat).unwrap();
        let nf = be64_val(bytes.subrange(hp.1, hp.1 + 8));
        lemma_parse_files_canonical(bytes, hp.1 + 8, nf as nat, 0u64);
        let fp = parse_files_spec(bytes, hp.1 + 8, nf as nat, 0u64).unwrap();
        assert(v.hashes == hp.0 && v.files == fp.0);
        lemma_be64_reencode(bytes.subrange(0, 8));
        lemma_be64_reencode(bytes.subrange(8, 16));
        lemma_be64_reencode(bytes.subrange(16, 24));
        lemma_be64_reencode(bytes.subrange(hp.1, hp.1 + 8));
        assert(v.hashes.len() as u64 == nh);
        assert(v.files.len() as u64 == nf);
        assert(encode_spec(v) == be64_bytes(pl) + be64_bytes(total) + be64_bytes(nh)
            + encode_hashes_spec(hp.0) + be64_bytes(nf) + encode_files_spec(fp.0));
        assert(be64_bytes(pl) + be64_bytes(total) + be64_bytes(nh) + bytes.subrange(24, hp.1)
            + be64_bytes(nf) + bytes.subrange(hp.1 + 8, fp.1) =~= bytes.subrange(0, fp.1));
        assert(bytes.subrange(0, fp.1) =~= bytes);
    }
}

/// File lengths are non-negative, so the sum is too.
pub proof fn lemma_sum_lengths_nonneg(fs: Seq<FileView>)
    ensures
        0 <= sum_lengths(fs),
    decreases fs.len(),
{
    if fs.len() > 0 {
        lemma_sum_lengths_nonneg(fs.drop_first());
    }
}

/// The digest list encodes to one digest-width per entry.
pub proof fn lemma_encode_hashes_len(hs: Seq<Seq<u8>>)
    requires
        forall|i: int| 0 <= i < hs.len() ==> #[trigger] hs[i].len() == DIGEST_LEN,
    ensures
        encode_hashes_spec(hs).len() == DIGEST_LEN * hs.len(),
    decreases hs.len(),
{
    if hs.len() > 0 {
        lemma_encode_hashes_len(hs.drop_first());
    }
}

/// Parsing the encoding of a digest list yields that list.
pub proof fn lemma_parse_hashes_of_encode(bytes: Seq<u8>, off: int, hs: Seq<Seq<u8>>)
    requires
        0 <= off,
        forall|i: int| 0 <= i < hs.len() ==> #[trigger] hs[i].len() == DIGEST_LEN,
        off + encode_hashes_spec(hs).len() <= bytes.len(),
        bytes.subrange(off, off + encode_hashes_spec(hs).len()) == encode_hashes_spec(hs),
    ensures
        parse_hashes_spec(bytes, off, hs.len()) == Some(
            (hs, off + encode_hashes_spec(hs).len()),
        ),
    decreases hs.len(),
{
    let e = encode_hashes_spec(hs);
    lemma_encode_hashes_len(hs);
    if hs.len() == 0 {
        assert(hs =~= Seq::<Seq<u8>>::empty());
    } else {
        let erest = encode_hashes_spec(hs.drop_first());
        lemma_encode_hashes_len(hs.drop_first());
        assert(e == hs[0] + erest);
        assert forall|j: int| 0 <= j < DIGEST_LEN implies #[trigger] bytes.subrange(
            off,
            off + DIGEST_LEN,
        )[j] == hs[0][j] by {
            assert(e[j] == hs[0][j]);
            assert(bytes.subrange(off, off + e.len() as int)[j] == e[j]);
            assert(bytes[off + j] == bytes.subrange(off, off + e.len() as int)[j]);
        }
        assert(bytes.subrange(off, off + DIGEST_LEN) =~= hs[0]);
        assert forall|j: int| 0 <= j < erest.len() implies #[trigger] bytes.subrange(
            off + DIGEST_LEN,
            off + e.len() as int,
        )[j] == erest[j] by {
            assert(e[DIGEST_LEN + j] == erest[j]);
            assert(bytes.subrange(off, off + e.len() as int)[DIGEST_LEN + j] == e[DIGEST_LEN
                + j]);
            assert(bytes[off + DIGEST_LEN + j] == bytes.subrange(off, off + e.len() as int)[
                DIGEST_LEN + j]);
        }
        assert(bytes.subrange(off + DIGEST_LEN, off + e.len() as int) =~= erest);
        lemma_parse_hashes_of_encode(bytes, off + DIGEST_LEN, hs.drop_first());
        assert(seq![bytes.subrange(off, off + DIGEST_LEN)] + hs.drop_first() =~= hs);
    }
}

/// Parsing the encoding of a file list yields that list, with the
/// offsets it was encoded from.
pub proof fn lemma_parse_files_of_encode(bytes: Seq<u8>, off: int, fs: Seq<FileView>, base: u64)
    requires
        0 <= off,
        forall|i: int| 0 <= i < fs.len() ==> #[trigger] fs[i].name.len() <= COUNT_LIMIT,
        offsets_ok(fs, base as int),
        base + sum_lengths(fs) <= u64::MAX,
        off + encode_files_spec(fs).len() <= bytes.len(),
        bytes.subrange(off, off + encode_files_spec(fs).len()) == encode_files_spec(fs),
    ensures
        parse_files_spec(bytes, off, fs.len(), base) == Some(
            (fs, off + encode_files_spec(fs).len(), (base + sum_lengths(fs)) as u64),
        ),
    decreases fs.len(),
{
    let e = encode_files_spec(fs);
    if fs.len() == 0 {
        assert(fs =~= Seq::<FileView>::empty());
    } else {
        let f0 = fs[0];
        let nl = f0.name.len() as int;
        let e0 = encode_file_spec(f0);
        let erest = encode_files_spec(fs.drop_first());
        assert(e == e0 + erest);
        assert(e0.len() == 16 + nl);
        lemma_sum_lengths_nonneg(fs.drop_first());
        assert(sum_lengths(fs) == f0.length + sum_lengths(fs.drop_first()));
        assert forall|j: int| 0 <= j < 8 implies #[trigger] bytes.subrange(off, off + 8)[j] == be64_bytes(
            f0.name.len() as u64,
        )[j] by {
            assert(e[j] == (e0 + erest)[j] && (e0 + erest)[j] == e0[j]);
            assert(e0[j] == be64_bytes(f0.name.len() as u64)[j]);
            assert(bytes.subrange(off, off + e.len() as int)[j] == e[j]);
            assert(bytes[off + j] == bytes.subrange(off, off + e.len() as int)[j]);
        }
        assert(bytes.subrange(off, off + 8) =~= be64_bytes(f0.name.len() as u64));
        lemma_be64_roundtrip(f0.name.len() as u64);
        let name_len = be64_val(bytes.subrange(off, off + 8));
        assert(name_len == f0.name.len() as u64);
        assert forall|j: int| 0 <= j < nl implies #[trigger] bytes.subrange(off + 8, off + 8 + nl)[j]
            == f0.name[j] by {
            assert(e[8 + j] == (e0 + erest)[8 + j] && (e0 + erest)[8 + j] == e0[8 + j]);
            assert(e0[8 + j] == f0.name[j]);
            assert(bytes.subrange(off, off + e.len() as int)[8 + j] == e[8 + j]);
            assert(bytes[off + 8 + j] == bytes.subrange(off, off + e.len() as int)[8 + j]);
        }
        assert(bytes.subrange(off + 8, off + 8 + nl) =~= f0.name);
        assert forall|j: int| 0 <= j < 8 implies #[trigger] bytes.subrange(
            off + 8 + nl,
            off + 16 + nl,
        )[j] == be64_bytes(f0.length)[j] by {
            assert(e[8 + nl + j] == (e0 + erest)[8 + nl + j] && (e0 + erest)[8 + nl + j] == e0[8
                + nl + j]);
            assert(e0[8 + nl + j] == be64_bytes(f0.length)[j]);
            assert(bytes.subrange(off, off + e.len() as int)[8 + nl + j] == e[8 + nl + j]);
            assert(bytes[off + 8 + nl + j] == bytes.subrange(off, off + e.len() as int)[8 + nl
                + j]);
        }
        assert(bytes.subrange(off + 8 + nl, off + 16 + nl) =~= be64_bytes(f0.length));
        lemma_be64_roundtrip(f0.length);
        let base2 = (base + f0.length) as u64;
        assert(offsets_ok(fs.drop_first(), base2 as int));
        assert forall|j: int| 0 <= j < erest.len() implies #[trigger] bytes.subrange(
            off + 16 + nl,
            off + e.len() as int,
        )[j] == erest[j] by {
            assert(e[e0.len() as int + j] == erest[j]);
            assert(bytes.subrange(off, off + e.len() as int)[e0.len() as int + j] == e[e0.len()
                as int + j]);
            assert(bytes[off + e0.len() as int + j] == bytes.subrange(off, off + e.len() as int)[
                e0.len() as int + j]);
        }
        assert(bytes.subrange(off + 16 + nl, off + e.len() as int) =~= erest);
        lemma_parse_files_of_encode(bytes, off + 16 + nl, fs.drop_first(), base2);
        let parsed0 = FileView {
            name: bytes.subrange(off + 8, off + 8 + nl),
            length: f0.length,
            offset: base,
        };
        assert(parsed0 == f0);
        assert(seq![parsed0] + fs.drop_first() =~= fs);
    }
}

/// Round trip: the canonical encoding of well-formed content parses
/// back to exactly that content.
pub proof fn lemma_parse_roundtrip(d: DescView)
    requires
        wf_view(d),
    ensures
        parse_spec(encode_spec(d)) == Some(d),
{
    let e = encode_spec(d);
    let nh64 = d.hashes.len() as u64;
    let nf64 = d.files.len() as u64;
    let eh = encode_hashes_spec(d.hashes);
    let ef = encode_files_spec(d.files);
    lemma_encode_hashes_len(d.hashes);
    assert(e == be64_bytes(d.piece_length) + be64_bytes(d.total_length) + be64_bytes(nh64) + eh
        + be64_bytes(nf64) + ef);
    assert(e.len() == 32 + eh.len() + ef.len());
    assert(e.subrange(0, 8) =~= be64_bytes(d.piece_length));
    assert(e.subrange(8, 16) =~= be64_bytes(d.total_length));
    assert(e.subrange(16, 24) =~= be64_bytes(nh64));
    lemma_be64_roundtrip(d.piece_length);
    lemma_be64_roundtrip(d.total_length);
    lemma_be64_roundtrip(nh64);
    lemma_be64_roundtrip(nf64);
    assert(e.subrange(24, 24 + eh.len() as int) =~= eh);
    lemma_parse_hashes_of_encode(e, 24, d.hashes);
    let off1 = 24 + eh.len() as int;
    assert(e.subrange(off1, off1 + 8) =~= be64_bytes(nf64));
    lemma_sum_lengths_nonneg(d.files);
    assert(e.subrange(off1 + 8, off1 + 8 + ef.len() as int) =~= ef);
    lemma_parse_files_of_encode(e, off1 + 8, d.files, 0u64);
    let v = parse_spec(e).unwrap();
    assert(v == d);
}

/// With offsets that are prefix sums from `base`, every file lies
/// within `base .. base + sum of lengths`.
pub proof fn lemma_file_extents(files: Seq<FileView>, base: int)
    requires
        offsets_ok(files, base),
    ensures
        forall|i: int|
            0 <= i < files.len() ==> base <= #[trigger] files[i].offset && files[i].offset
                + files[i].length <= base + sum_lengths(files),
    decreases files.len(),
{
    if files.len() > 0 {
        lemma_file_extents(files.drop_first(), base + files[0].length);
        lemma_sum_lengths_nonneg(files.drop_first());
        assert forall|i: int|
            0 <= i < files.len() implies base <= #[trigger] files[i].offset && files[i].offset
            + files[i].length <= base + sum_lengths(files) by {
            if i > 0 {
                assert(files.drop_first()[i - 1] == files[i]);
            }
        }
    }
}

/// Appending a file adds its length to the sum.
pub proof fn lemma_sum_lengths_push(s: Seq<FileView>, f: FileView)
    ensures
        sum_lengths(s.push(f)) == sum_lengths(s) + f.length,
    decreases s.len(),
{
    if s.len() == 0 {
        assert(s.push(f).drop_first() =~= Seq::<FileView>::empty());
        assert(s =~= Seq::<FileView>::empty());
    } else {
        assert(s.push(f).drop_first() =~= s.drop_first().push(f));
        lemma_sum_lengths_push(s.drop_first(), f);
        assert(s.push(f)[0] == s[0]);
    }
}

/// Appending a file whose offset continues the prefix sums keeps the
/// offsets well-formed.
pub proof fn lemma_offsets_ok_push(s: Seq<FileView>, f: FileView, base: int)
    requires
        offsets_ok(s, base),
        f.offset == base + sum_lengths(s),
    ensures
        offsets_ok(s.push(f), base),
    decreases s.len(),
{
    if s.len() == 0 {
        assert(s.push(f).drop_first() =~= Seq::<FileView>::empty());
        assert(s =~= Seq::<FileView>::empty());
        assert(s.push(f)[0] == f);
        assert(sum_lengths(Seq::<FileView>::empty()) == 0);
        assert(offsets_ok(Seq::<FileView>::empty(), base + f.length));
    } else {
        assert(s.push(f).drop_first() =~= s.drop_first().push(f));
        assert(sum_lengths(s) == s[0].length + sum_lengths(s.drop_first()));
        lemma_offsets_ok_push(s.drop_first(), f, base + s[0].length);
        assert(s.push(f)[0] == s[0]);
    }
}

/// Copies `len` bytes starting at `off`.
pub fn copy_range(bytes: &[u8], off: usize, len: usize) -> (r: Vec<u8>)
    requires
        off + len <= bytes@.len(),
    ensures
        r@ == bytes@.subrange(off as int, off as int + len as int),
{
    let blen: usize = bytes.len();
    let mut out: Vec<u8> = Vec::new();
    let mut j: usize = 0;
    while j < len
        invariant
            j <= len,
            off + len <= blen,
            blen == bytes@.len(),
            out@ == bytes@.subrange(off as int, off as int + j as int),
        decreases len - j,
    {
        out.push(bytes[off + j]);
        proof {
            assert(out@ =~= bytes@.subrange(off as int, off as int + j as int + 1));
        }
        j = j + 1;
    }
    out
}

/// Parses descriptor bytes: succeeds exactly when they are the
/// canonical encoding of well-formed content, and then returns that
/// content with its identity, the digest of the bytes.
pub fn parse(bytes: &[u8]) -> (r: Result<TorrentDescriptor, EngineError>)
    ensures
        match r {
            Ok(d) => {
                &&& parse_spec(bytes@) == Some(d@)
                &&& d.wf()
                &&& d.identity_ok()
                &&& d.info_hash@ == digest_of(bytes@)
            },
            Err(e) => parse_spec(bytes@) is None && e == EngineError::MalformedDescriptor,
        },
{
    let blen: usize = bytes.len();
    if blen < 24 {
        return Err(EngineError::MalformedDescriptor);
    }
    let pl = read_be64(bytes, 0);
    let total = read_be64(bytes, 8);
    let nh = read_be64(bytes, 16);
    if pl == 0 || nh > COUNT_LIMIT {
        return Err(EngineError::MalformedDescriptor);
    }
    let n_hashes: usize = nh as usize;
    let mut hashes: Vec<Vec<u8>> = Vec::new();
    let mut cur: usize = 24;
    let mut i: usize = 0;
    proof {
        if parse_hashes_spec(bytes@, 24, nh as nat) is Some {
            let p0 = parse_hashes_spec(bytes@, 24, nh as nat).unwrap();
            assert(hashes@.map_values(|h: Vec<u8>| h@) + p0.0 =~= p0.0);
        }
    }
    while i < n_hashes
        invariant
            blen == bytes@.len(),
            24 <= cur <= blen,
            i <= n_hashes,
            n_hashes == nh,
            hashes@.len() == i,
            pl == be64_val(bytes@.subrange(0, 8)),
            total == be64_val(bytes@.subrange(8, 16)),
            nh == be64_val(bytes@.subrange(16, 24)),
            pl > 0,
            nh <= COUNT_LIMIT,
            parse_hashes_spec(bytes@, 24, nh as nat) == (match parse_hashes_spec(
                bytes@,
                cur as int,
                (n_hashes - i) as nat,
            ) {
                Some(p) => Some(
                    (hashes@.map_values(|h: Vec<u8>| h@) + p.0, p.1),
                ),
                None => None::<(Seq<Seq<u8>>, int)>,
            }),
        decreases n_hashes - i,
    {
        if blen - cur < DIGEST_LEN {
            proof {
                assert(parse_hashes_spec(bytes@, cur as int, (n_hashes - i) as nat) is None);
                assert(parse_spec(bytes@) is None);
            }
            return Err(EngineError::MalformedDescriptor);
        }
        let h = copy_range(bytes, cur, DIGEST_LEN);
        proof {
            let accv = hashes@.map_values(|x: Vec<u8>| x@);
            let rem = (n_hashes - i) as nat;
            assert(parse_hashes_spec(bytes@, cur as int, rem) == (match parse_hashes_spec(
                bytes@,
                cur as int + DIGEST_LEN,
                (rem - 1) as nat,
            ) {
                Some(p) => Some(
                    (seq![bytes@.subrange(cur as int, cur as int + DIGEST_LEN)] + p.0, p.1),
                ),
                None => None::<(Seq<Seq<u8>>, int)>,
            }));
            assert(hashes@.push(h).map_values(|x: Vec<u8>| x@) =~= accv.push(h@));
            if parse_hashes_spec(bytes@, cur as int + DIGEST_LEN, (rem - 1) as nat) is Some {
                let p = parse_hashes_spec(
                    bytes@,
                    cur as int + DIGEST_LEN,
                    (rem - 1) as nat,
                ).unwrap();
                assert(accv + (seq![h@] + p.0) =~= accv.push(h@) + p.0);
            }
        }
        hashes.push(h);
        cur = cur + DIGEST_LEN;
        i = i + 1;
    }
    proof {
        let accv = hashes@.map_values(|x: Vec<u8>| x@);
        assert(parse_hashes_spec(bytes@, cur as int, 0) == Some(
            (Seq::<Seq<u8>>::empty(), cur as int),
        ));
        assert(accv + Seq::<Seq<u8>>::empty() =~= accv);
        assert(parse_hashes_spec(bytes@, 24, nh as nat) == Some((accv, cur as int)));
    }
    if blen - cur < 8 {
        proof {
            assert(parse_spec(bytes@) is None);
        }
        return Err(EngineError::MalformedDescriptor);
    }
    let ghost off1: int = cur as int;
    let nf = read_be64(bytes, cur);
    if nf > COUNT_LIMIT {
        proof {
            assert(parse_spec(bytes@) is None);
        }
        return Err(EngineError::MalformedDescriptor);
    }
    let n_files: usize = nf as usize;
    let files_start: usize = cur + 8;
    let mut files: Vec<FileEntry> = Vec::new();
    let mut base: u64 = 0;
    cur = files_start;
    i = 0;
    proof {
        if parse_files_spec(bytes@, files_start as int, nf as nat, 0u64) is Some {
            let p = parse_files_spec(bytes@, files_start as int, nf as nat, 0u64).unwrap();
            assert(files@.map_values(|f: FileEntry| f@) + p.0 =~= p.0);
        }
    }
    while i < n_files
        invariant
            blen == bytes@.len(),
            files_start <= cur <= blen,
            i <= n_files,
            n_files == nf,
            nf <= COUNT_LIMIT,
            pl > 0,
            nh <= COUNT_LIMIT,
            pl == be64_val(bytes@.subrange(0, 8)),
            total == be64_val(bytes@.subrange(8, 16)),
            nh == be64_val(bytes@.subrange(16, 24)),
            files@.len() == i,
            parse_hashes_spec(bytes@, 24, nh as nat) == Some(
                (hashes@.map_values(|x: Vec<u8>| x@), off1),
            ),
            off1 + 8 == files_start,
            24 <= off1 <= blen - 8,
            nf == be64_val(bytes@.subrange(off1, off1 + 8)),
            parse_files_spec(bytes@, files_start as int, nf as nat, 0u64) == (match
                parse_files_spec(bytes@, cur as int, (n_files - i) as nat, base) {
                Some(p) => Some(
                    (files@.map_values(|f: FileEntry| f@) + p.0, p.1, p.2),
                ),
                None => None::<(Seq<FileView>, int, u64)>,
            }),
        decreases n_files - i,
    {
        let ghost rem = (n_files - i) as nat;
        let ghost accv = files@.map_values(|f: FileEntry| f@);
        if blen - cur < 8 {
            proof {
                assert(parse_files_spec(bytes@, cur as int, rem, base) is None);
                assert(parse_spec(bytes@) is None);
            }
            return Err(EngineError::MalformedDescriptor);
        }
        let name_len = read_be64(bytes, cur);
        if name_len > COUNT_LIMIT || ((blen - cur) as u64) < 16 + name_len {
            proof {
                assert(parse_files_spec(bytes@, cur as int, rem, base) is None);
                assert(parse_spec(bytes@) is None);
            }
            return Err(EngineError::MalformedDescriptor);
        }
        let nl: usize = name_len as usize;
        let name = copy_range(bytes, cur + 8, nl);
        let length = read_be64(bytes, cur + 8 + nl);
        if length > u64::MAX - base {
            proof {
                assert(parse_files_spec(bytes@, cur as int, rem, base) is None);
                assert(parse_spec(bytes@) is None);
            }
            return Err(EngineError::MalformedDescriptor);
        }
        let fe = FileEntry { name, length, offset: base };
        proof {
            assert(bytes@.subrange(cur as int + 8, cur as int + 8 + name_len) == name@);
            assert(bytes@.subrange(
                cur as int + 8 + name_len,
                cur as int + 16 + name_len,
            ) =~= bytes@.subrange(cur as int + 8 + nl as int, cur as int + 8 + nl as int + 8));
            assert(parse_files_spec(bytes@, cur as int, rem, base) == (match parse_files_spec(
                bytes@,
                cur as int + 16 + name_len,
                (rem - 1) as nat,
                (base + length) as u64,
            ) {
                Some(p) => Some(
                    (
                        seq![FileView { name: name@, length, offset: base }] + p.0,
                        p.1,
                        p.2,
                    ),
                ),
                None => None::<(Seq<FileView>, int, u64)>,
            }));
            assert(files@.push(fe).map_values(|f: FileEntry| f@) =~= accv.push(fe@));
            if parse_files_spec(
                bytes@,
                cur as int + 16 + name_len,
                (rem - 1) as nat,
                (base + length) as u64,
            ) is Some {
                let p = parse_files_spec(
                    bytes@,
                    cur as int + 16 + name_len,
                    (rem - 1) as nat,
                    (base + length) as u64,
                ).unwrap();
                assert(accv + (seq![fe@] + p.0) =~= accv.push(fe@) + p.0);
            }
        }
        files.push(fe);
        base = base + length;
        cur = cur + 16 + nl;
        i = i + 1;
    }
    proof {
        let accv = files@.map_values(|f: FileEntry| f@);
        assert(parse_files_spec(bytes@, cur as int, 0, base) == Some(
            (Seq::<FileView>::empty(), cur as int, base),
        ));
        assert(accv + Seq::<FileView>::empty() =~= accv);
        assert(parse_files_spec(bytes@, files_start as int, nf as nat, 0u64) == Some(
            (accv, cur as int, base),
        ));
    }
    let pieces: u64 = if total == 0 {
        0
    } else {
        (total - 1) / pl + 1
    };
    if cur != blen || base != total || nh != pieces {
        proof {
            assert(parse_spec(bytes@) is None);
        }
        return Err(EngineError::MalformedDescriptor);
    }
    let info_hash = crate::hashing::compute_digest(bytes);
    let d = TorrentDescriptor { info_hash, piece_length: pl, total_length: total, piece_hashes: hashes, files };
    proof {
        assert(parse_spec(bytes@) == Some(d@));
        lemma_parse_canonical(bytes@);
    }
    Ok(d)
}

/// The identity is a function of the descriptor's content alone: two
/// descriptors with the same piece geometry, digest list and file
/// layout carry the same info hash. In particular, re-seeding the
/// same content re-derives the same identity.
pub proof fn lemma_identity_determined(d1: TorrentDescriptor, d2: TorrentDescriptor)
    requires
        d1.identity_ok(),
        d2.identity_ok(),
        d1@.piece_length == d2@.piece_length,
        d1@.total_length == d2@.total_length,
        d1@.hashes.len() == d2@.hashes.len(),
        forall|p: int| 0 <= p < d1@.hashes.len() ==> #[trigger] d1@.hashes[p] == d2@.hashes[p],
        d1@.files.len() == d2@.files.len(),
        forall|i: int| 0 <= i < d1@.files.len() ==> #[trigger] d1@.files[i] == d2@.files[i],
    ensures
        d1.info_hash@ == d2.info_hash@,
{
    assert(d1@.hashes =~= d2@.hashes);
    assert(d1@.files =~= d2@.files);
    assert(d1@ == d2@);
}

/// Completes a bare identifier from metadata bytes fetched over the
/// peer metadata exchange: accepts them exactly when their digest is
/// the identifier itself and they are a canonical descriptor
/// encoding, so a forged or damaged exchange cannot impersonate the
/// identity.
pub fn from_identifier(id: &Vec<u8>, metadata: &[u8]) -> (r: Result<
    TorrentDescriptor,
    EngineError,
>)
    ensures
        match r {
            Ok(d) => {
                &&& parse_spec(metadata@) == Some(d@)
                &&& d.wf()
                &&& d.identity_ok()
                &&& d.info_hash@ == id@
                &&& crate::hashing::digest_of(metadata@) == id@
            },
            Err(e) => {
                &&& e == EngineError::MalformedDescriptor
                &&& (parse_spec(metadata@) is None || crate::hashing::digest_of(metadata@)
                    != id@)
            },
        },
{
    let d = match parse(metadata) {
        Ok(d) => d,
        Err(e) => {
            return Err(e);
        },
    };
    if crate::hashing::digests_equal(&d.info_hash, id) {
        Ok(d)
    } else {
        Err(EngineError::MalformedDescriptor)
    }
}

} // verus!
