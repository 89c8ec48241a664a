//! The typed view over a torrent's info dictionary.

use vstd::prelude::*;

use vstd::slice::slice_subrange;

verus! {

/// Core metadata of a single-file torrent: the suggested file name, the
/// total length in bytes, the piece size, and the concatenated 20-byte
/// SHA-1 hashes of all pieces.
#[derive(Debug, PartialEq, Eq, Clone)]
pub struct TorrentInfo {
    pub name: String,
    pub length: u64,
    pub piece_length: u32,
    pub pieces: Vec<u8>,
}

/// Size of piece `i`: the piece length for every piece but the last, and
/// for the last the remainder of the file, a full piece when the length
/// divides evenly.
pub open spec fn piece_size_spec(info: TorrentInfo, i: int) -> int {
    if i == info.pieces@.len() as int / 20 - 1 {
        if info.length as int % (info.piece_length as int) == 0 {
            info.piece_length as int
        } else {
            info.length as int % (info.piece_length as int)
        }
    } else {
        info.piece_length as int
    }
}

/// Sum of the sizes of the first `n` pieces.
pub open spec fn sum_piece_sizes(info: TorrentInfo, n: int) -> int
    decreases n,
{
    if n <= 0 {
        0
    } else {
        sum_piece_sizes(info, n - 1) + piece_size_spec(info, n - 1)
    }
}

/// The piece table is consistent with the file length: there are exactly
/// as many pieces as the length requires.
pub open spec fn piece_table_consistent(info: TorrentInfo) -> bool {
    let pc = info.pieces@.len() as int / 20;
    &&& info.piece_length > 0
    &&& info.length > 0
    &&& info.pieces@.len() % 20 == 0
    &&& (pc - 1) * (info.piece_length as int) < info.length as int
    &&& info.length as int <= pc * (info.piece_length as int)
}

impl TorrentInfo {
    /// The 20-byte hash of each piece, in index order.
    pub fn piece_hashes(&self) -> (r: Vec<[u8; 20]>)
        ensures
            r@.len() == self.pieces@.len() / 20,
            forall|i: int|
                0 <= i < r@.len() ==> (#[trigger] r@[i])@ == self.pieces@.subrange(
                    20 * i,
                    20 * i + 20,
                ),
    {
        let mut out: Vec<[u8; 20]> = Vec::new();
        let plen = self.pieces.len();
        let total = plen / 20;
        let mut i: usize = 0;
        while i < total
            invariant
                i <= total,
                plen == self.pieces@.len(),
                total == self.pieces@.len() / 20,
                out@.len() == i,
                forall|k: int|
                    0 <= k < i ==> (#[trigger] out@[k])@ == self.pieces@.subrange(
                        20 * k,
                        20 * k + 20,
                    ),
            decreases total - i,
        {
            proof {
                assert(20 * (i + 1) <= 20 * total <= plen) by (nonlinear_arith)
                    requires
                        i + 1 <= total,
                        total == plen / 20,
                ;
            }
            let chunk = slice_subrange(self.pieces.as_slice(), 20 * i, 20 * i + 20);
            let mut arr: [u8; 20] = [0; 20];
            let mut k: usize = 0;
            while k < 20
                invariant
                    k <= 20,
                    chunk@.len() == 20,
                    arr@.len() == 20,
                    forall|m: int| 0 <= m < k ==> arr@[m] == chunk@[m],
                decreases 20 - k,
            {
                arr[k] = *vstd::slice::slice_index_get(chunk, k);
                k = k + 1;
            }
            proof {
                assert(arr@ =~= chunk@);
            }
            out.push(arr);
            i = i + 1;
        }
        out
    }

    /// How many pieces the torrent has.
    pub fn total_pieces(&self) -> (r: usize)
        ensures
            r == self.pieces@.len() / 20,
    {
        self.pieces.len() / 20
    }

    /// Size in bytes of piece `piece_index`.
    pub fn piece_size(&self, piece_index: usize) -> (r: u64)
        requires
            self.piece_length > 0,
            piece_index < self.pieces@.len() / 20,
        ensures
            r == piece_size_spec(*self, piece_index as int),
            r > 0,
            r <= self.piece_length,
    {
        if piece_index == self.total_pieces() - 1 {
            let remainder = self.length % (self.piece_length as u64);
            if remainder == 0 {
                self.piece_length as u64
            } else {
                remainder
            }
        } else {
            self.piece_length as u64
        }
    }
}

/// The piece-size law: every piece but the last is a full piece, and the
/// piece sizes together add up to exactly the file length.
pub proof fn lemma_piece_sizes_sum(info: TorrentInfo)
    requires
        piece_table_consistent(info),
    ensures
        forall|i: int|
            0 <= i < info.pieces@.len() as int / 20 - 1 ==> #[trigger] piece_size_spec(info, i)
                == info.piece_length as int,
        sum_piece_sizes(info, info.pieces@.len() as int / 20) == info.length,
{
    let pc = info.pieces@.len() as int / 20;
    let pl = info.piece_length as int;
    let len = info.length as int;
    lemma_sum_full_pieces(info, pc - 1);
    assert(sum_piece_sizes(info, pc) == (pc - 1) * pl + piece_size_spec(info, pc - 1));
    if len % pl == 0 {
        assert(piece_size_spec(info, pc - 1) == pl);
        assert((pc - 1) * pl + pl == pc * pl) by (nonlinear_arith);
        assert(len == pc * pl) by (nonlinear_arith)
            requires
                len % pl == 0,
                pl > 0,
                (pc - 1) * pl < len <= pc * pl,
        ;
    } else {
        assert(piece_size_spec(info, pc - 1) == len % pl);
        assert((pc - 1) * pl + len % pl == len) by (nonlinear_arith)
            requires
                len % pl != 0,
                pl > 0,
                (pc - 1) * pl < len <= pc * pl,
        ;
    }
}

/// The first `n` pieces, all full, add up to `n` piece lengths.
proof fn lemma_sum_full_pieces(info: TorrentInfo, n: int)
    requires
        0 <= n <= info.pieces@.len() as int / 20 - 1,
    ensures
        sum_piece_sizes(info, n) == n * (info.piece_length as int),
    decreases n,
{
    if n > 0 {
        lemma_sum_full_pieces(info, n - 1);
        assert(piece_size_spec(info, n - 1) == info.piece_length as int);
        assert((n - 1) * (info.piece_length as int) + info.piece_length as int == n * (
        info.piece_length as int)) by (nonlinear_arith);
    } else {
        assert(n * (info.piece_length as int) == 0) by (nonlinear_arith)
            requires n == 0;
    }
}

} // verus!
