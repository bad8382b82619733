use vstd::prelude::*;

use crate::bencode::bytes_equal;
use crate::digest::{sha1_digest, sha1_of};
use crate::peer::{bit_set, pieces_from_bitfield};
use crate::random::random_below;
use crate::torrent::{ceil_div, lemma_piece_start_in_file, Info};

verus! {

/// The size of the blocks a piece is requested in: 16 KiB.
pub const BLOCK_SIZE: u32 = 16384;

/// The length of part `i` when `total` bytes are cut into parts of `part`
/// bytes: `part`, or what is left for the last one.
pub open spec fn part_len(total: nat, part: nat, i: nat) -> nat {
    let rest = total - i * part;
    if rest < part {
        rest as nat
    } else {
        part
    }
}

/// Parts `i` and `j` of a cut of `total` bytes into parts of `part` bytes do
/// not overlap, and each lies inside the whole.
pub proof fn lemma_parts_disjoint(total: nat, part: nat, i: nat, j: nat)
    requires
        part > 0,
        i < ceil_div(total, part),
        j < ceil_div(total, part),
        i != j,
    ensures
        i * part + part_len(total, part, i) <= total,
        j < i ==> j * part + part_len(total, part, j) <= i * part,
        i < j ==> i * part + part_len(total, part, i) <= j * part,
{
    lemma_piece_start_in_file(i, total, part);
    lemma_piece_start_in_file(j, total, part);
    if j < i {
        assert((j + 1) * part <= i * part) by (nonlinear_arith)
            requires
                j + 1 <= i,
                part > 0,
        ;
        assert((j + 1) * part == j * part + part) by (nonlinear_arith);
    }
    if i < j {
        assert((i + 1) * part <= j * part) by (nonlinear_arith)
            requires
                i + 1 <= j,
                part > 0,
        ;
        assert((i + 1) * part == i * part + part) by (nonlinear_arith);
    }
}

/// Writes `src` into `out` at `at`, leaving every other byte as it was.
fn copy_into(out: &mut Vec<u8>, at: usize, src: &[u8])
    requires
        at + src@.len() <= old(out)@.len(),
    ensures
        final(out)@.len() == old(out)@.len(),
        final(out)@.subrange(at as int, at + src@.len()) == src@,
        forall|j: int|
            0 <= j < old(out)@.len() && !(at <= j < at + src@.len()) ==> #[trigger] final(out)@[j]
                == old(out)@[j],
{
    let n = out.len();
    let mut k: usize = 0;
    while k < src.len()
        invariant
            k <= src@.len(),
            n == out@.len(),
            at + src@.len() <= out@.len(),
            out@.len() == old(out)@.len(),
            forall|j: int| 0 <= j < k ==> #[trigger] out@[at + j] == src@[j],
            forall|j: int|
                0 <= j < old(out)@.len() && !(at <= j < at + k) ==> #[trigger] out@[j]
                    == old(out)@[j],
        decreases src@.len() - k,
    {
        out.set(at + k, src[k]);
        k = k + 1;
    }
    assert forall|j: int| 0 <= j < src@.len() implies out@.subrange(at as int, at + src@.len())[j]
        == src@[j] by {
        assert(out@[at + j] == src@[j]);
    }
    assert(out@.subrange(at as int, at + src@.len()) =~= src@);
}

/// The blocks of a piece of `piece_len` bytes, in order: each block's
/// offset and length.
pub fn block_plan(piece_len: u32) -> (r: Vec<(u32, u32)>)
    ensures
        r@.len() == ceil_div(piece_len as nat, BLOCK_SIZE as nat),
        forall|k: int|
            0 <= k < r@.len() ==> (#[trigger] r@[k]).0 == k * BLOCK_SIZE && r@[k].1 == part_len(
                piece_len as nat,
                BLOCK_SIZE as nat,
                k as nat,
            ),
{
    let mut out: Vec<(u32, u32)> = Vec::new();
    let mut offset: u32 = 0;
    let ghost mut k: nat = 0;
    while offset < piece_len
        invariant
            offset == k * BLOCK_SIZE,
            offset <= piece_len || k == ceil_div(piece_len as nat, BLOCK_SIZE as nat),
            k <= ceil_div(piece_len as nat, BLOCK_SIZE as nat),
            offset < piece_len ==> k < ceil_div(piece_len as nat, BLOCK_SIZE as nat),
            offset >= piece_len ==> k == ceil_div(piece_len as nat, BLOCK_SIZE as nat),
            out@.len() == k,
            forall|j: int|
                0 <= j < k ==> (#[trigger] out@[j]).0 == j * BLOCK_SIZE && out@[j].1 == part_len(
                    piece_len as nat,
                    BLOCK_SIZE as nat,
                    j as nat,
                ),
        decreases piece_len - offset,
    {
        let rest = piece_len - offset;
        let len = if rest < BLOCK_SIZE {
            rest
        } else {
            BLOCK_SIZE
        };
        out.push((offset, len));
        proof {
            lemma_block_step(piece_len as nat, k);
        }
        if rest <= BLOCK_SIZE {
            proof {
                k = k + 1;
            }
            return out;
        }
        offset = offset + BLOCK_SIZE;
        proof {
            k = k + 1;
        }
    }
    out
}


/// What became of a block handed to a piece under assembly.
#[derive(Debug, Clone, Copy, PartialEq, Eq, Structural)]
pub enum BlockOutcome {
    /// The block was written at its offset.
    Stored,
    /// The block was empty or did not fit a block of the piece: ask again.
    Retry,
}

/// A piece being put together from its blocks.
pub struct PieceAssembly {
    pub index: u32,
    pub piece_len: u32,
    pub data: Vec<u8>,
    pub received: Vec<bool>,
}

impl PieceAssembly {
    /// The number of blocks of the piece.
    pub open spec fn block_count(&self) -> nat {
        ceil_div(self.piece_len as nat, BLOCK_SIZE as nat)
    }

    /// The bytes gathered so far.
    pub open spec fn spec_data(&self) -> Seq<u8> {
        self.data@
    }

    /// Which blocks have been stored.
    pub open spec fn spec_received(&self) -> Seq<bool> {
        self.received@
    }

    /// One byte per byte of the piece, one flag per block.
    pub open spec fn wf(&self) -> bool {
        &&& self.data@.len() == self.piece_len
        &&& self.received@.len() == self.block_count()
    }

    /// An empty assembly for piece `index` of `piece_len` bytes.
    pub fn new(index: u32, piece_len: u32) -> (r: PieceAssembly)
        ensures
            r.wf(),
            r.index == index,
            r.piece_len == piece_len,
            forall|k: int| 0 <= k < r.block_count() ==> !#[trigger] r.spec_received()[k],
    {
        let plan = block_plan(piece_len);
        let data = vec![0u8; piece_len as usize];
        let received = vec![false; plan.len()];
        PieceAssembly { index, piece_len, data, received }
    }

    /// Stores a block received at `offset`: an empty block, or one that is
    /// not a block of the piece at that offset, asks for a retry.
    pub fn on_block(&mut self, offset: u32, block: &[u8]) -> (r: BlockOutcome)
        requires
            old(self).wf(),
        ensures
            final(self).wf(),
            final(self).index == old(self).index,
            final(self).piece_len == old(self).piece_len,
            r == BlockOutcome::Stored <==> (block@.len() > 0 && offset % BLOCK_SIZE == 0 && offset
                / BLOCK_SIZE < old(self).block_count() && block@.len() == part_len(
                old(self).piece_len as nat,
                BLOCK_SIZE as nat,
                (offset / BLOCK_SIZE) as nat,
            )),
            r == BlockOutcome::Stored ==> {
                &&& final(self).spec_data().subrange(offset as int, offset + block@.len())
                    == block@
                &&& forall|j: int|
                    0 <= j < old(self).piece_len && !(offset <= j < offset + block@.len())
                        ==> #[trigger] final(self).spec_data()[j] == old(self).spec_data()[j]
                &&& final(self).spec_received() == old(self).spec_received().update(
                    (offset / BLOCK_SIZE) as int,
                    true,
                )
            },
            r == BlockOutcome::Retry ==> final(self).spec_data() == old(self).spec_data()
                && final(self).spec_received() == old(self).spec_received(),
    {
        let k = (offset / BLOCK_SIZE) as usize;
        if block.len() == 0 || offset % BLOCK_SIZE != 0 || k >= self.received.len() {
            return BlockOutcome::Retry;
        }
        let rest = self.piece_len - offset;
        proof {
            lemma_piece_start_in_file(k as nat, self.piece_len as nat, BLOCK_SIZE as nat);
            assert(offset == k * BLOCK_SIZE);
        }
        let expected = if rest < BLOCK_SIZE {
            rest
        } else {
            BLOCK_SIZE
        };
        if block.len() != expected as usize {
            return BlockOutcome::Retry;
        }
        copy_into(&mut self.data, offset as usize, block);
        self.received.set(k, true);
        BlockOutcome::Stored
    }

    /// Whether every block has been stored.
    pub fn is_complete(&self) -> (r: bool)
        ensures
            r == forall|k: int| 0 <= k < self.spec_received().len() ==> #[trigger] self.spec_received()[k],
    {
        let mut k: usize = 0;
        while k < self.received.len()
            invariant
                k <= self.received@.len(),
                forall|j: int| 0 <= j < k ==> #[trigger] self.received@[j],
            decreases self.received@.len() - k,
        {
            if !self.received[k] {
                assert(!self.spec_received()[k as int]);
                return false;
            }
            k = k + 1;
        }
        true
    }

    /// The bytes of the piece, once every block has been stored.
    pub fn finish(self) -> (r: Option<Vec<u8>>)
        requires
            self.wf(),
        ensures
            r is Some <==> forall|k: int|
                0 <= k < self.spec_received().len() ==> #[trigger] self.spec_received()[k],
            r matches Some(bytes) ==> bytes@ == self.spec_data() && bytes@.len() == self.piece_len,
    {
        if self.is_complete() {
            Some(self.data)
        } else {
            None
        }
    }
}

/// What became of a downloaded piece.
#[derive(Debug, Clone, Copy, PartialEq, Eq, Structural)]
pub enum PieceOutcome {
    /// The piece matched its digest and was written to the output.
    Accepted,
    /// The piece was empty, had the wrong length, or failed its digest: fetch it again.
    Retry,
}

/// The state of a whole download: which peers hold which piece, which
/// pieces are verified, and the output buffer.
pub struct Scheduler {
    pub piece_length: u32,
    pub file_len: u64,
    pub hashes: Vec<Vec<u8>>,
    pub peers_by_piece: Vec<Vec<usize>>,
    pub done: Vec<bool>,
    pub output: Vec<u8>,
}

impl Scheduler {
    pub open spec fn spec_piece_length(&self) -> nat {
        self.piece_length as nat
    }

    pub open spec fn spec_file_len(&self) -> nat {
        self.file_len as nat
    }

    /// The number of pieces.
    pub open spec fn piece_count(&self) -> nat {
        self.hashes@.len()
    }

    /// The published digest of piece `i`.
    pub open spec fn spec_hash(&self, i: int) -> Seq<u8> {
        self.hashes@[i]@
    }

    /// The peers known to hold piece `i`.
    pub open spec fn spec_peers(&self, i: int) -> Seq<usize> {
        self.peers_by_piece@[i]@
    }

    /// Which pieces are verified and written.
    pub open spec fn spec_done(&self) -> Seq<bool> {
        self.done@
    }

    /// The output buffer.
    pub open spec fn spec_output(&self) -> Seq<u8> {
        self.output@
    }

    /// Where piece `i` starts in the output.
    pub open spec fn start(&self, i: int) -> int {
        i * self.piece_length
    }

    /// The length of piece `i`.
    pub open spec fn size(&self, i: int) -> nat {
        part_len(self.file_len as nat, self.piece_length as nat, i as nat)
    }

    /// The bytes of piece `i` in the output.
    pub open spec fn piece_bytes(&self, i: int) -> Seq<u8> {
        self.output@.subrange(self.start(i), self.start(i) + self.size(i))
    }

    /// One digest, one peer list and one flag per piece; every verified
    /// piece's bytes in the output hash to its digest.
    pub open spec fn wf(&self) -> bool {
        &&& self.piece_length > 0
        &&& self.output@.len() == self.file_len
        &&& self.hashes@.len() == ceil_div(self.file_len as nat, self.piece_length as nat)
        &&& self.done@.len() == self.hashes@.len()
        &&& self.peers_by_piece@.len() == self.hashes@.len()
        &&& forall|i: int|
            0 <= i < self.done@.len() && #[trigger] self.done@[i] ==> sha1_of(self.piece_bytes(i))
                == self.spec_hash(i)
    }

    /// Every piece is verified.
    pub open spec fn spec_complete(&self) -> bool {
        forall|i: int| 0 <= i < self.done@.len() ==> #[trigger] self.done@[i]
    }

    /// A download of `info`'s content with no peer known and no piece verified.
    pub fn new(info: &Info) -> (r: Scheduler)
        requires
            info.wf(),
            info.spec_file_len() <= usize::MAX,
        ensures
            r.wf(),
            r.spec_piece_length() == info.piece_length,
            r.spec_file_len() == info.spec_file_len(),
            r.piece_count() == info.piece_count(),
            forall|i: int| 0 <= i < r.piece_count() ==> #[trigger] r.spec_hash(i) == info.piece_hash(i),
            forall|i: int| 0 <= i < r.piece_count() ==> !#[trigger] r.spec_done()[i],
            forall|i: int| 0 <= i < r.piece_count() ==> #[trigger] r.spec_peers(i).len() == 0,
    {
        let file_len = info.file_len();
        let hashes = info.pieces();
        let n = hashes.len();
        let mut peers_by_piece: Vec<Vec<usize>> = Vec::new();
        let mut k: usize = 0;
        while k < n
            invariant
                k <= n,
                peers_by_piece@.len() == k,
                forall|j: int| 0 <= j < k ==> (#[trigger] peers_by_piece@[j])@.len() == 0,
            decreases n - k,
        {
            peers_by_piece.push(Vec::new());
            k = k + 1;
        }
        let done = vec![false; n];
        let output = vec![0u8; file_len as usize];
        Scheduler { piece_length: info.piece_length, file_len, hashes, peers_by_piece, done, output }
    }

    /// Records that peer `peer` holds the pieces listed; indices past the
    /// last piece are ignored.
    pub fn add_peer(&mut self, peer: usize, pieces: &Vec<usize>)
        requires
            old(self).wf(),
        ensures
            final(self).wf(),
            final(self).spec_piece_length() == old(self).spec_piece_length(),
            final(self).spec_file_len() == old(self).spec_file_len(),
            final(self).piece_count() == old(self).piece_count(),
            final(self).spec_done() == old(self).spec_done(),
            final(self).spec_output() == old(self).spec_output(),
            forall|i: int| 0 <= i < old(self).piece_count() ==> #[trigger] final(self).spec_hash(i) == old(self).spec_hash(i),
            forall|i: int, q: usize|
                0 <= i < old(self).piece_count() ==> (#[trigger] final(self).spec_peers(i).contains(q)
                    <==> (old(self).spec_peers(i).contains(q) || (q == peer && pieces@.contains(
                    i as usize,
                )))),
    {
        let ghost start = self.peers_by_piece@;
        let mut k: usize = 0;
        while k < pieces.len()
            invariant
                k <= pieces@.len(),
                self.wf(),
                self.piece_length == old(self).piece_length,
                self.file_len == old(self).file_len,
                self.hashes == old(self).hashes,
                self.done == old(self).done,
                self.output == old(self).output,
                start == old(self).peers_by_piece@,
                self.peers_by_piece@.len() == start.len(),
                forall|i: int, q: usize|
                    0 <= i < start.len() ==> (#[trigger] self.peers_by_piece@[i]@.contains(q) <==> (
                    start[i]@.contains(q) || (q == peer && pieces@.subrange(0, k as int).contains(
                        i as usize,
                    )))),
            decreases pieces@.len() - k,
        {
            let p = pieces[k];
            let ghost before = self.peers_by_piece@;
            if p < self.peers_by_piece.len() {
                let mut list = self.peers_by_piece[p].clone();
                assert(list@ =~= before[p as int]@);
                list.push(peer);
                self.peers_by_piece.set(p, list);
            }
            proof {
                let prefix = pieces@.subrange(0, k as int);
                assert(pieces@.subrange(0, k + 1) == prefix.push(p));
                assert forall|i: int, q: usize|
                    0 <= i < start.len() implies (#[trigger] self.peers_by_piece@[i]@.contains(q)
                    <==> (start[i]@.contains(q) || (q == peer && pieces@.subrange(0, k + 1).contains(
                    i as usize,
                )))) by {
                    lemma_push_contains(prefix, p, i as usize);
                    if i == p as int {
                        assert(self.peers_by_piece@[i]@ == before[i]@.push(peer));
                        lemma_push_contains(before[i]@, peer, q);
                    } else {
                        assert(self.peers_by_piece@[i] == before[i]);
                    }
                }
            }
            k = k + 1;
        }
        assert(pieces@.subrange(0, pieces@.len() as int) == pieces@);
    }

    /// Records that peer `peer` sent the BITFIELD payload `bits`: the peer
    /// becomes a candidate for exactly the pieces whose bit is set, bit `k`
    /// of byte `b` (from the most significant) standing for piece `8b + k`;
    /// bits past the last piece are ignored.
    pub fn add_peer_bitfield(&mut self, peer: usize, bits: &[u8])
        requires
            old(self).wf(),
        ensures
            final(self).wf(),
            final(self).spec_piece_length() == old(self).spec_piece_length(),
            final(self).spec_file_len() == old(self).spec_file_len(),
            final(self).piece_count() == old(self).piece_count(),
            final(self).spec_done() == old(self).spec_done(),
            final(self).spec_output() == old(self).spec_output(),
            forall|i: int| 0 <= i < old(self).piece_count() ==> #[trigger] final(self).spec_hash(i) == old(self).spec_hash(i),
            forall|i: int, q: usize|
                0 <= i < old(self).piece_count() ==> (#[trigger] final(self).spec_peers(i).contains(q)
                    <==> (old(self).spec_peers(i).contains(q) || (q == peer && i / 8 < bits@.len()
                    && bit_set(bits@, i)))),
    {
        let pieces = pieces_from_bitfield(bits, self.hashes.len());
        self.add_peer(peer, &pieces);
        proof {
            assert forall|i: int| 0 <= i < old(self).piece_count() implies (pieces@.contains(i as usize)
                <==> (i / 8 < bits@.len() && bit_set(bits@, i))) by {
                if pieces@.contains(i as usize) {
                    let k = choose|k: int| 0 <= k < pieces@.len() && pieces@[k] == i as usize;
                    assert(pieces@[k] < old(self).piece_count());
                }
            }
        }
    }

    /// Whether some piece has a peer that holds it.
    pub fn has_peers(&self) -> (r: bool)
        ensures
            r == exists|i: int| 0 <= i < self.peers_by_piece@.len() && #[trigger] self.spec_peers(i).len() > 0,
    {
        let mut k: usize = 0;
        while k < self.peers_by_piece.len()
            invariant
                k <= self.peers_by_piece@.len(),
                forall|j: int| 0 <= j < k ==> #[trigger] self.spec_peers(j).len() == 0,
            decreases self.peers_by_piece@.len() - k,
        {
            if self.peers_by_piece[k].len() > 0 {
                assert(self.spec_peers(k as int).len() > 0);
                return true;
            }
            k = k + 1;
        }
        false
    }

    /// A peer drawn at random among those that hold `piece`, if any.
    pub fn choose_peer(&self, piece: usize) -> (r: Option<usize>)
        requires
            self.wf(),
            piece < self.piece_count(),
        ensures
            r is None <==> self.spec_peers(piece as int).len() == 0,
            r matches Some(q) ==> self.spec_peers(piece as int).contains(q),
    {
        let peers = &self.peers_by_piece[piece];
        if peers.len() == 0 {
            return None;
        }
        let i = random_below(peers.len());
        assert(self.spec_peers(piece as int)[i as int] == peers@[i as int]);
        Some(peers[i])
    }

    /// The length of piece `piece`.
    pub fn piece_size(&self, piece: usize) -> (r: u32)
        requires
            self.wf(),
            piece < self.piece_count(),
        ensures
            r == self.size(piece as int),
            r > 0,
    {
        proof {
            lemma_piece_start_in_file(piece as nat, self.file_len as nat, self.piece_length as nat);
        }
        let start = (piece as u64) * (self.piece_length as u64);
        let rest = self.file_len - start;
        if rest < self.piece_length as u64 {
            rest as u32
        } else {
            self.piece_length
        }
    }

    /// Takes a downloaded piece whose SHA-1 digest is `digest`: it is kept
    /// when its length is the piece's and the digest is the published one.
    pub fn accept_piece(&mut self, piece: usize, data: &[u8], digest: &[u8; 20]) -> (r: PieceOutcome)
        requires
            old(self).wf(),
            piece < old(self).piece_count(),
            digest@ == sha1_of(data@),
        ensures
            final(self).wf(),
            final(self).spec_piece_length() == old(self).spec_piece_length(),
            final(self).spec_file_len() == old(self).spec_file_len(),
            final(self).piece_count() == old(self).piece_count(),
            forall|i: int| 0 <= i < old(self).piece_count() ==> #[trigger] final(self).spec_hash(i) == old(self).spec_hash(i),
            forall|i: int| 0 <= i < old(self).piece_count() ==> #[trigger] final(self).spec_peers(i) == old(self).spec_peers(i),
            r == PieceOutcome::Accepted <==> (data@.len() == old(self).size(piece as int)
                && digest@ == old(self).spec_hash(piece as int)),
            r == PieceOutcome::Accepted ==> {
                &&& final(self).spec_done() == old(self).spec_done().update(piece as int, true)
                &&& final(self).piece_bytes(piece as int) == data@
            },
            r == PieceOutcome::Retry ==> final(self).spec_done() == old(self).spec_done()
                && final(self).spec_output() == old(self).spec_output(),
    {
        let size = self.piece_size(piece);
        if data.len() != size as usize || !bytes_equal(digest, self.hashes[piece].as_slice()) {
            return PieceOutcome::Retry;
        }
        proof {
            lemma_piece_start_in_file(piece as nat, self.file_len as nat, self.piece_length as nat);
        }
        let out_len = self.output.len();
        assert(piece * self.piece_length < out_len);
        let start = piece * (self.piece_length as usize);
        let ghost before = self.output@;
        copy_into(&mut self.output, start, data);
        self.done.set(piece, true);
        proof {
            assert forall|i: int|
                0 <= i < self.done@.len() && #[trigger] self.done@[i] implies sha1_of(self.piece_bytes(i))
                == self.spec_hash(i) by {
                if i != piece as int {
                    lemma_parts_disjoint(self.file_len as nat, self.piece_length as nat, piece as nat, i as nat);
                    lemma_parts_disjoint(self.file_len as nat, self.piece_length as nat, i as nat, piece as nat);
                    assert(self.piece_bytes(i) =~= before.subrange(self.start(i), self.start(i) + self.size(i)));
                    assert(old(self).done@[i]);
                    assert(old(self).piece_bytes(i) == before.subrange(self.start(i), self.start(i) + self.size(i)));
                } else {
                    assert(self.piece_bytes(i) == data@);
                }
            }
        }
        PieceOutcome::Accepted
    }

    /// Takes a downloaded piece: it is kept when its length is the piece's
    /// and its SHA-1 digest is the published one; otherwise it must be
    /// fetched again.
    pub fn on_piece(&mut self, piece: usize, data: &[u8]) -> (r: PieceOutcome)
        requires
            old(self).wf(),
            piece < old(self).piece_count(),
        ensures
            final(self).wf(),
            final(self).spec_piece_length() == old(self).spec_piece_length(),
            final(self).spec_file_len() == old(self).spec_file_len(),
            final(self).piece_count() == old(self).piece_count(),
            forall|i: int| 0 <= i < old(self).piece_count() ==> #[trigger] final(self).spec_hash(i) == old(self).spec_hash(i),
            forall|i: int| 0 <= i < old(self).piece_count() ==> #[trigger] final(self).spec_peers(i) == old(self).spec_peers(i),
            r == PieceOutcome::Accepted <==> (data@.len() == old(self).size(piece as int)
                && sha1_of(data@) == old(self).spec_hash(piece as int)),
            r == PieceOutcome::Accepted ==> {
                &&& final(self).spec_done() == old(self).spec_done().update(piece as int, true)
                &&& final(self).piece_bytes(piece as int) == data@
            },
            r == PieceOutcome::Retry ==> final(self).spec_done() == old(self).spec_done()
                && final(self).spec_output() == old(self).spec_output(),
    {
        let digest = sha1_digest(data);
        self.accept_piece(piece, data, &digest)
    }

    /// The pieces not yet verified, in increasing order.
    pub fn pending(&self) -> (r: Vec<usize>)
        ensures
            forall|k: int| 0 <= k < r@.len() ==> #[trigger] r@[k] < self.spec_done().len() && !self.spec_done()[r@[k] as int],
            forall|i: int| 0 <= i < self.spec_done().len() && !#[trigger] self.spec_done()[i] ==> r@.contains(i as usize),
            forall|a: int, b: int| 0 <= a < b < r@.len() ==> r@[a] < r@[b],
    {
        let mut out: Vec<usize> = Vec::new();
        let mut i: usize = 0;
        while i < self.done.len()
            invariant
                i <= self.done@.len(),
                forall|k: int| 0 <= k < out@.len() ==> #[trigger] out@[k] < i && !self.done@[out@[k] as int],
                forall|j: int| 0 <= j < i && !#[trigger] self.done@[j] ==> out@.contains(j as usize),
                forall|a: int, b: int| 0 <= a < b < out@.len() ==> out@[a] < out@[b],
            decreases self.done@.len() - i,
        {
            if !self.done[i] {
                let ghost before = out@;
                out.push(i);
                proof {
                    assert forall|j: int| 0 <= j < i + 1 && !#[trigger] self.done@[j] implies out@.contains(j as usize) by {
                        if j < i {
                            let w = choose|w: int| 0 <= w < before.len() && before[w] == j as usize;
                            assert(out@[w] == j as usize);
                        } else {
                            assert(out@[before.len() as int] == i);
                        }
                    }
                }
            }
            i = i + 1;
        }
        out
    }

    /// Whether every piece is verified.
    pub fn is_complete(&self) -> (r: bool)
        ensures
            r == self.spec_complete(),
    {
        let mut k: usize = 0;
        while k < self.done.len()
            invariant
                k <= self.done@.len(),
                forall|j: int| 0 <= j < k ==> #[trigger] self.done@[j],
            decreases self.done@.len() - k,
        {
            if !self.done[k] {
                assert(!self.done@[k as int]);
                return false;
            }
            k = k + 1;
        }
        true
    }

    /// The bytes of piece `piece` in the output, once it is verified.
    pub fn piece_output(&self, piece: usize) -> (r: Option<Vec<u8>>)
        requires
            self.wf(),
            piece < self.piece_count(),
        ensures
            r is Some <==> self.spec_done()[piece as int],
            r matches Some(bytes) ==> bytes@ == self.piece_bytes(piece as int) && sha1_of(bytes@)
                == self.spec_hash(piece as int),
    {
        if !self.done[piece] {
            return None;
        }
        let size = self.piece_size(piece);
        proof {
            lemma_piece_start_in_file(piece as nat, self.file_len as nat, self.piece_length as nat);
        }
        let out_len = self.output.len();
        assert(piece * self.piece_length < out_len);
        let start = piece * (self.piece_length as usize);
        assert(start + size <= out_len);
        let mut r: Vec<u8> = Vec::new();
        crate::bencode::extend_bytes(&mut r, &self.output.as_slice()[start..start + size as usize]);
        Some(r)
    }

    /// The output buffer, once every piece is verified: each piece's range
    /// then hashes to that piece's published digest.
    pub fn finish(self) -> (r: Option<Vec<u8>>)
        requires
            self.wf(),
        ensures
            r is Some <==> self.spec_complete(),
            r matches Some(out) ==> {
                &&& out@ == self.spec_output()
                &&& out@.len() == self.spec_file_len()
                &&& forall|i: int|
                    0 <= i < self.piece_count() ==> sha1_of(
                        out@.subrange(self.start(i), self.start(i) + self.size(i)),
                    ) == #[trigger] self.spec_hash(i)
            },
    {
        if self.is_complete() {
            proof {
                lemma_download_verified(self);
            }
            Some(self.output)
        } else {
            None
        }
    }
}

/// When a download is complete, every piece's range of the output hashes to
/// that piece's published digest.
pub proof fn lemma_download_verified(s: Scheduler)
    requires
        s.wf(),
        s.spec_complete(),
    ensures
        forall|i: int|
            0 <= i < s.piece_count() ==> sha1_of(
                s.spec_output().subrange(s.start(i), s.start(i) + s.size(i)),
            ) == #[trigger] s.spec_hash(i),
{
    assert forall|i: int| 0 <= i < s.piece_count() implies sha1_of(
        s.spec_output().subrange(s.start(i), s.start(i) + s.size(i)),
    ) == #[trigger] s.spec_hash(i) by {
        assert(s.spec_done()[i]);
    }
}

proof fn lemma_push_contains<T>(s: Seq<T>, x: T, y: T)
    ensures
        s.push(x).contains(y) <==> (s.contains(y) || x == y),
{
    if x == y {
        assert(s.push(x)[s.len() as int] == y);
    }
    if s.contains(y) {
        let w = choose|w: int| 0 <= w < s.len() && s[w] == y;
        assert(s.push(x)[w] == y);
    }
    if s.push(x).contains(y) && x != y {
        let w = choose|w: int| 0 <= w < s.push(x).len() && s.push(x)[w] == y;
        assert(w < s.len());
        assert(s[w] == y);
    }
}

proof fn lemma_block_step(total: nat, k: nat)
    requires
        k * BLOCK_SIZE < total,
    ensures
        k < ceil_div(total, BLOCK_SIZE as nat),
        total - k * BLOCK_SIZE <= BLOCK_SIZE ==> k + 1 == ceil_div(total, BLOCK_SIZE as nat),
        total - k * BLOCK_SIZE > BLOCK_SIZE ==> k + 1 < ceil_div(total, BLOCK_SIZE as nat),
        (k + 1) * BLOCK_SIZE == k * BLOCK_SIZE + BLOCK_SIZE,
{
    let b = BLOCK_SIZE as nat;
    assert((k + 1) * b == k * b + b) by (nonlinear_arith);
    let q = ((total + b - 1) as nat) / b;
    assert(k < q) by (nonlinear_arith)
        requires
            k * b < total,
            b > 0,
            q == ((total + b - 1) as nat) / b,
    {
        assert((k + 1) * b <= total + b - 1);
        vstd::arithmetic::div_mod::lemma_div_is_ordered(((k + 1) * b) as int, (total + b - 1) as int, b as int);
        vstd::arithmetic::div_mod::lemma_div_multiples_vanish((k + 1) as int, b as int);
    }
    if total - k * b <= b {
        assert(k + 1 == q) by (nonlinear_arith)
            requires
                k * b < total,
                total <= k * b + b,
                b > 0,
                q == ((total + b - 1) as nat) / b,
        {
            vstd::arithmetic::div_mod::lemma_fundamental_div_mod_converse(
                (total + b - 1) as int,
                b as int,
                (k + 1) as int,
                (total - 1 - k * b) as int,
            );
        }
    } else {
        assert(k + 1 < q) by (nonlinear_arith)
            requires
                k * b + b < total,
                b > 0,
                q == ((total + b - 1) as nat) / b,
        {
            assert((k + 2) * b <= total + b - 1);
            vstd::arithmetic::div_mod::lemma_div_is_ordered(((k + 2) * b) as int, (total + b - 1) as int, b as int);
            vstd::arithmetic::div_mod::lemma_div_multiples_vanish((k + 2) as int, b as int);
        }
    }
}

} // verus!
