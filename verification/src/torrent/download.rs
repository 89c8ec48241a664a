//! The piece download coordinator.
//!
//! The coordinator owns the piece-work queue and the completed-piece
//! buffer. Work is handed out preferring pieces with the fewest failed
//! attempts; a returned piece is accepted only when its SHA-1 matches the
//! hash the metainfo names for it, else it is requeued until its retries
//! are spent; and the finished file is the verified pieces concatenated in
//! index order. The workers that move bytes over sockets live outside this
//! library and drive these functions.

use vstd::prelude::*;

use crate::bencode::bvalue::enc;
use crate::torrent::info::TorrentInfo;
use crate::torrent::info::lemma_piece_sizes_sum;
use crate::torrent::info::piece_size_spec;
use crate::torrent::info::piece_table_consistent;
use crate::torrent::info::sum_piece_sizes;
use crate::torrent::metainfo::TorrentMetainfo;
use crate::torrent::metainfo::encode_info;
use crate::torrent::metainfo::info_node;
use crate::utils::sha1_digest;
use crate::utils::sha1_of;

verus! {

broadcast use vstd::seq_lib::group_seq_properties, vstd::seq_lib::group_to_multiset_ensures;

/// A download failure: a piece ran out of retries before any peer
/// delivered a copy whose hash matched.
#[derive(Debug, PartialEq, Eq, Structural, Clone, Copy)]
pub enum DownloadError {
    DownloadExhausted(usize),
}

/// Retry and batching policy of a download.
#[derive(Debug, PartialEq, Eq, Structural, Clone, Copy)]
pub struct DownloadConfig {
    /// Connection attempts per peer before the worker retires.
    pub peer_retries: usize,
    /// Seconds allowed to each connect and each piece transfer.
    pub peer_timeout_secs: u64,
    /// Most pieces handed to one worker at a time.
    pub max_pending: usize,
    /// Attempts per piece before the download is given up.
    pub piece_retries: usize,
}

impl Default for DownloadConfig {
    /// Three tries per peer and per piece, ten-second timeouts, five
    /// pieces in flight.
    fn default() -> (r: Self)
        ensures
            r.peer_retries == 3,
            r.peer_timeout_secs == 10,
            r.max_pending == 5,
            r.piece_retries == 3,
    {
        DownloadConfig { peer_retries: 3, peer_timeout_secs: 10, max_pending: 5, piece_retries: 3 }
    }
}

/// One piece waiting to be fetched: its index, its size, and how many
/// attempts have failed.
#[derive(Debug, PartialEq, Eq, Structural, Clone, Copy)]
pub struct PieceWork {
    pub index: usize,
    pub length: u64,
    pub retries: usize,
}

/// The 20-byte hash the metainfo names for piece `i`.
pub open spec fn piece_hash(info: TorrentInfo, i: int) -> Seq<u8> {
    info.pieces@.subrange(20 * i, 20 * i + 20)
}

/// The completed slots concatenated in index order, empty slots adding
/// nothing.
pub open spec fn slots_bytes(s: Seq<Option<Vec<u8>>>, n: int) -> Seq<u8>
    decreases n,
{
    if n <= 0 {
        Seq::empty()
    } else {
        slots_bytes(s, n - 1) + (match s[n - 1] {
            Some(d) => d@,
            None => Seq::empty(),
        })
    }
}

/// The piece download coordinator: the work queue, the completed buffer,
/// and the identity of what is being fetched.
pub struct DownloadManager {
    pub torrent: TorrentMetainfo,
    pub peers: Vec<String>,
    pub info_hash: [u8; 20],
    pub pieces_queue: Vec<PieceWork>,
    pub completed_pieces: Vec<Option<Vec<u8>>>,
    pub config: DownloadConfig,
}

impl DownloadManager {
    pub open spec fn piece_count(&self) -> int {
        self.torrent.info.pieces@.len() as int / 20
    }

    /// The coordinator's invariant: the buffer has one slot per piece,
    /// every queued work names a real piece with its true size, and every
    /// filled slot holds bytes of the right size whose SHA-1 is the hash
    /// the metainfo names for that piece.
    pub open spec fn wf(&self) -> bool {
        &&& piece_table_consistent(self.torrent.info)
        &&& self.torrent.info.length <= i64::MAX as u64
        &&& self.completed_pieces@.len() == self.piece_count()
        &&& self.info_hash@ == sha1_of(enc(info_node(self.torrent.info)))
        &&& forall|i: int|
            0 <= i < self.pieces_queue@.len() ==> (#[trigger] self.pieces_queue@[i]).index
                < self.piece_count() && self.pieces_queue@[i].length as int == piece_size_spec(
                self.torrent.info,
                self.pieces_queue@[i].index as int,
            )
        &&& forall|i: int|
            0 <= i < self.completed_pieces@.len() ==> match #[trigger] self.completed_pieces@[i] {
                Some(d) => sha1_of(d@) == piece_hash(self.torrent.info, i) && d@.len() as int
                    == piece_size_spec(self.torrent.info, i),
                None => true,
            }
    }

    /// Builds the coordinator: one work entry per piece, no attempts
    /// spent, an empty buffer, and the torrent's info-hash.
    pub fn new(torrent: TorrentMetainfo, peers: Vec<String>, config: Option<DownloadConfig>) -> (r:
        Result<Self, DownloadError>)
        requires
            piece_table_consistent(torrent.info),
            torrent.info.length <= i64::MAX as u64,
        ensures
            r matches Ok(dm) && dm.wf() && dm.torrent == torrent && dm.peers == peers && dm.config
                == (match config {
                Some(c) => c,
                None => DownloadConfig {
                    peer_retries: 3,
                    peer_timeout_secs: 10,
                    max_pending: 5,
                    piece_retries: 3,
                },
            }) && dm.pieces_queue@.len() == dm.piece_count() && (forall|i: int|
                0 <= i < dm.pieces_queue@.len() ==> (#[trigger] dm.pieces_queue@[i]).index == i
                    && dm.pieces_queue@[i].retries == 0) && dm.completed_pieces@.len()
                == dm.piece_count() && (forall|i: int|
                0 <= i < dm.completed_pieces@.len() ==> #[trigger] dm.completed_pieces@[i]
                    is None),
    {
        let encoded = encode_info(&torrent.info);
        let info_hash = sha1_digest(encoded.as_slice());
        let total = torrent.info.total_pieces();
        let mut pieces_queue: Vec<PieceWork> = Vec::new();
        let mut i: usize = 0;
        while i < total
            invariant
                i <= total,
                total == torrent.info.pieces@.len() / 20,
                piece_table_consistent(torrent.info),
                pieces_queue@.len() == i,
                forall|k: int|
                    0 <= k < i ==> (#[trigger] pieces_queue@[k]).index == k && pieces_queue@[k].retries
                        == 0 && pieces_queue@[k].length as int == piece_size_spec(
                        torrent.info,
                        k,
                    ),
            decreases total - i,
        {
            let length = torrent.info.piece_size(i);
            pieces_queue.push(PieceWork { index: i, length, retries: 0 });
            i = i + 1;
        }
        let mut completed_pieces: Vec<Option<Vec<u8>>> = Vec::new();
        let mut k: usize = 0;
        while k < total
            invariant
                k <= total,
                completed_pieces@.len() == k,
                forall|m: int| 0 <= m < k ==> #[trigger] completed_pieces@[m] is None,
            decreases total - k,
        {
            completed_pieces.push(None);
            k = k + 1;
        }
        let config = match config {
            Some(c) => c,
            None => DownloadConfig {
                peer_retries: 3,
                peer_timeout_secs: 10,
                max_pending: 5,
                piece_retries: 3,
            },
        };
        Ok(DownloadManager { torrent, peers, info_hash, pieces_queue, completed_pieces, config })
    }

    /// Takes up to `max_pending` work items off the queue, preferring the
    /// fewest attempts: nothing is lost or invented, every taken item has
    /// at most as many attempts as anything left behind, and the batch
    /// comes out in ascending attempt order.
    pub fn take_work_batch(&mut self) -> (batch: Vec<PieceWork>)
        requires
            old(self).wf(),
        ensures
            final(self).wf(),
            final(self).torrent == old(self).torrent,
            final(self).peers == old(self).peers,
            final(self).info_hash == old(self).info_hash,
            final(self).completed_pieces == old(self).completed_pieces,
            final(self).config == old(self).config,
            old(self).pieces_queue@.to_multiset()
                == final(self).pieces_queue@.to_multiset().add(batch@.to_multiset()),
            batch@.len() == (if old(self).config.max_pending <= old(self).pieces_queue@.len() {
                old(self).config.max_pending as int
            } else {
                old(self).pieces_queue@.len() as int
            }),
            forall|a: int, b: int|
                #![trigger batch@[a], final(self).pieces_queue@[b]]
                0 <= a < batch@.len() && 0 <= b < final(self).pieces_queue@.len()
                    ==> batch@[a].retries <= final(self).pieces_queue@[b].retries,
            forall|a: int, b: int|
                #![trigger batch@[a], batch@[b]]
                0 <= a < b < batch@.len() ==> batch@[a].retries <= batch@[b].retries,
    {
        let mut batch: Vec<PieceWork> = Vec::new();
        let ghost q0 = self.pieces_queue@;
        loop
            invariant
                self.wf(),
                self.torrent == old(self).torrent,
                self.peers == old(self).peers,
                self.info_hash == old(self).info_hash,
                self.completed_pieces == old(self).completed_pieces,
                self.config == old(self).config,
                q0 == old(self).pieces_queue@,
                q0.to_multiset() == self.pieces_queue@.to_multiset().add(batch@.to_multiset()),
                batch@.len() + self.pieces_queue@.len() == q0.len(),
                batch@.len() <= self.config.max_pending,
                batch@.len() < self.config.max_pending || self.pieces_queue@.len() == 0 || (
                batch@.len() == self.config.max_pending),
                forall|a: int, b: int|
                    #![trigger batch@[a], self.pieces_queue@[b]]
                    0 <= a < batch@.len() && 0 <= b < self.pieces_queue@.len() ==> batch@[a].retries
                        <= self.pieces_queue@[b].retries,
                forall|a: int, b: int|
                    #![trigger batch@[a], batch@[b]]
                    0 <= a < b < batch@.len() ==> batch@[a].retries <= batch@[b].retries,
            ensures
                self.wf(),
                self.torrent == old(self).torrent,
                self.peers == old(self).peers,
                self.info_hash == old(self).info_hash,
                self.completed_pieces == old(self).completed_pieces,
                self.config == old(self).config,
                q0.to_multiset() == self.pieces_queue@.to_multiset().add(batch@.to_multiset()),
                batch@.len() == (if self.config.max_pending <= q0.len() {
                    self.config.max_pending as int
                } else {
                    q0.len() as int
                }),
                forall|a: int, b: int|
                    #![trigger batch@[a], self.pieces_queue@[b]]
                    0 <= a < batch@.len() && 0 <= b < self.pieces_queue@.len() ==> batch@[a].retries
                        <= self.pieces_queue@[b].retries,
                forall|a: int, b: int|
                    #![trigger batch@[a], batch@[b]]
                    0 <= a < b < batch@.len() ==> batch@[a].retries <= batch@[b].retries,
            decreases self.config.max_pending - batch.len(),
        {
            if batch.len() >= self.config.max_pending {
                break;
            }
            if self.pieces_queue.len() == 0 {
                break;
            }
            // position of a least-retried item
            let mut pos: usize = 0;
            let mut j: usize = 1;
            while j < self.pieces_queue.len()
                invariant
                    pos < j <= self.pieces_queue@.len() || (j <= self.pieces_queue@.len() && pos
                        == 0),
                    pos < self.pieces_queue@.len(),
                    self.pieces_queue@.len() > 0,
                    forall|m: int|
                        0 <= m < j ==> self.pieces_queue@[pos as int].retries <= (
                        #[trigger] self.pieces_queue@[m]).retries,
                decreases self.pieces_queue@.len() - j,
            {
                if self.pieces_queue[j].retries < self.pieces_queue[pos].retries {
                    pos = j;
                }
                j = j + 1;
            }
            let ghost qbefore = self.pieces_queue@;
            let ghost bbefore = batch@;
            let work = self.pieces_queue.remove(pos);
            batch.push(work);
            proof {
                assert(qbefore.remove(pos as int).to_multiset() =~= qbefore.to_multiset().remove(
                    qbefore[pos as int],
                ));
                assert(bbefore.push(work).to_multiset() =~= bbefore.to_multiset().insert(work));
                assert(q0.to_multiset() =~= self.pieces_queue@.to_multiset().add(
                    batch@.to_multiset(),
                ));
                assert forall|b: int| 0 <= b < self.pieces_queue@.len() implies work.retries <= (
                #[trigger] self.pieces_queue@[b]).retries by {
                    if b < pos {
                        assert(self.pieces_queue@[b] == qbefore[b]);
                    } else {
                        assert(self.pieces_queue@[b] == qbefore[b + 1]);
                    }
                }
                assert forall|a: int, b: int|
                    #![trigger batch@[a], self.pieces_queue@[b]]
                    0 <= a < batch@.len() && 0 <= b < self.pieces_queue@.len() implies batch@[a].retries
                    <= self.pieces_queue@[b].retries by {
                    if a < bbefore.len() {
                        if b < pos {
                            assert(self.pieces_queue@[b] == qbefore[b]);
                        } else {
                            assert(self.pieces_queue@[b] == qbefore[b + 1]);
                        }
                    }
                }
                assert forall|a: int, b: int|
                    #![trigger batch@[a], batch@[b]]
                    0 <= a < b < batch@.len() implies batch@[a].retries <= batch@[b].retries by {
                    if b == batch@.len() - 1 {
                        assert(batch@[a] == bbefore[a]);
                        assert(bbefore[a].retries <= qbefore[pos as int].retries);
                    }
                }
            }
        }
        batch
    }

    /// Puts a work item back on the queue untouched: the path for a piece
    /// a peer turned out not to advertise, which costs the piece no
    /// attempt.
    pub fn requeue_work(&mut self, work: PieceWork)
        requires
            old(self).wf(),
            work.index < old(self).piece_count(),
            work.length as int == piece_size_spec(old(self).torrent.info, work.index as int),
        ensures
            final(self).wf(),
            final(self).torrent == old(self).torrent,
            final(self).peers == old(self).peers,
            final(self).info_hash == old(self).info_hash,
            final(self).completed_pieces == old(self).completed_pieces,
            final(self).config == old(self).config,
            final(self).pieces_queue@ == old(self).pieces_queue@.push(work),
    {
        self.pieces_queue.push(work);
    }

    /// Accepts or rejects one fetched piece. It is accepted exactly when
    /// it has the piece's true size and its SHA-1 is the hash the
    /// metainfo names; then its slot — write-once: an already filled slot
    /// is never touched — is filled and the queue is left alone. Anything
    /// else is a failed attempt: the slot stays empty, and the work goes
    /// back on the queue only while attempts remain.
    pub fn complete_piece(&mut self, work: PieceWork, data: Vec<u8>) -> (ok: bool)
        requires
            old(self).wf(),
            work.index < old(self).piece_count(),
            work.length as int == piece_size_spec(old(self).torrent.info, work.index as int),
        ensures
            final(self).wf(),
            final(self).torrent == old(self).torrent,
            final(self).peers == old(self).peers,
            final(self).info_hash == old(self).info_hash,
            final(self).config == old(self).config,
            forall|j: int|
                0 <= j < old(self).completed_pieces@.len() && old(self).completed_pieces@[j]
                    is Some ==> final(self).completed_pieces@[j] == #[trigger] old(
                    self,
                ).completed_pieces@[j],
            ok <==> (data@.len() == work.length && sha1_of(data@) == piece_hash(
                old(self).torrent.info,
                work.index as int,
            )),
            ok ==> final(self).completed_pieces@ == (if old(self).completed_pieces@[work.index as int]
                is None {
                old(self).completed_pieces@.update(work.index as int, Some(data))
            } else {
                old(self).completed_pieces@
            }) && final(self).pieces_queue == old(self).pieces_queue,
            !ok ==> final(self).completed_pieces == old(self).completed_pieces && (
            if work.retries + 1 < old(self).config.piece_retries {
                final(self).pieces_queue@ == old(self).pieces_queue@.push(
                    PieceWork { retries: (work.retries + 1) as usize, ..work },
                )
            } else {
                final(self).pieces_queue == old(self).pieces_queue
            }),
    {
        let digest = sha1_digest(data.as_slice());
        let mut hash_ok = data.len() as u64 == work.length;
        let plen = self.torrent.info.pieces.len();
        proof {
            assert(20 * (work.index + 1) <= 20 * self.piece_count() <= plen) by (nonlinear_arith)
                requires
                    work.index < self.piece_count(),
                    self.piece_count() == plen as int / 20,
                    plen % 20 == 0,
            ;
        }
        let base = 20 * work.index;
        let mut k: usize = 0;
        while k < 20
            invariant
                k <= 20,
                base == 20 * work.index,
                base + 20 <= plen,
                plen == self.torrent.info.pieces@.len(),
                digest@ == sha1_of(data@),
                digest@.len() == 20,
                self == old(self),
                hash_ok == (data@.len() == work.length && forall|m: int|
                    0 <= m < k ==> digest@[m] == self.torrent.info.pieces@[base + m]),
            decreases 20 - k,
        {
            if digest[k] != self.torrent.info.pieces[base + k] {
                proof {
                    assert(digest@[k as int] != self.torrent.info.pieces@[base + k]);
                }
                hash_ok = false;
            }
            k = k + 1;
        }
        proof {
            let expected = piece_hash(self.torrent.info, work.index as int);
            if hash_ok {
                assert(digest@ =~= expected);
            } else {
                if data@.len() == work.length && sha1_of(data@) == expected {
                    assert(forall|m: int| 0 <= m < 20 ==> digest@[m] == expected[m]);
                    assert(false);
                }
            }
        }
        if hash_ok {
            match &self.completed_pieces[work.index] {
                None => {
                    vec_set_option(&mut self.completed_pieces, work.index, Some(data));
                },
                Some(_) => {},
            }
            true
        } else {
            let requeue = self.config.piece_retries > 0 && work.retries < self.config.piece_retries
                - 1;
            if requeue {
                self.pieces_queue.push(
                    PieceWork { index: work.index, length: work.length, retries: work.retries + 1 },
                );
            }
            false
        }
    }

    /// Whether every slot of the buffer is filled.
    pub fn is_complete(&self) -> (r: bool)
        ensures
            r <==> (forall|i: int|
                0 <= i < self.completed_pieces@.len() ==> #[trigger] self.completed_pieces@[i]
                    is Some),
    {
        let mut i: usize = 0;
        while i < self.completed_pieces.len()
            invariant
                i <= self.completed_pieces@.len(),
                forall|m: int| 0 <= m < i ==> #[trigger] self.completed_pieces@[m] is Some,
            decreases self.completed_pieces@.len() - i,
        {
            match &self.completed_pieces[i] {
                Some(_) => {},
                None => {
                    return false;
                },
            }
            i = i + 1;
        }
        true
    }

    /// Concatenates the verified pieces in index order into the finished
    /// file, whose length is exactly the torrent's. A still-empty slot is
    /// the download given up on that piece.
    pub fn assemble(&self) -> (r: Result<Vec<u8>, DownloadError>)
        requires
            self.wf(),
        ensures
            match r {
                Ok(d) => (forall|i: int|
                    0 <= i < self.completed_pieces@.len() ==> #[trigger] self.completed_pieces@[i]
                        is Some) && d@ == slots_bytes(self.completed_pieces@, self.piece_count())
                    && d@.len() == self.torrent.info.length,
                Err(e) => e matches DownloadError::DownloadExhausted(i) && 0 <= i
                    < self.completed_pieces@.len() && self.completed_pieces@[i as int] is None && (
                forall|j: int| 0 <= j < i ==> #[trigger] self.completed_pieces@[j] is Some),
            },
    {
        let mut out: Vec<u8> = Vec::new();
        let total = self.completed_pieces.len();
        let mut i: usize = 0;
        while i < total
            invariant
                i <= total,
                total == self.completed_pieces@.len(),
                self.wf(),
                forall|m: int| 0 <= m < i ==> #[trigger] self.completed_pieces@[m] is Some,
                out@ == slots_bytes(self.completed_pieces@, i as int),
                out@.len() == sum_piece_sizes(self.torrent.info, i as int),
            decreases total - i,
        {
            match &self.completed_pieces[i] {
                Some(d) => {
                    push_bytes(&mut out, d);
                },
                None => {
                    return Err(DownloadError::DownloadExhausted(i));
                },
            }
            i = i + 1;
        }
        proof {
            lemma_piece_sizes_sum(self.torrent.info);
        }
        Ok(out)
    }
}

/// Replaces one slot of the buffer.
fn vec_set_option(v: &mut Vec<Option<Vec<u8>>>, i: usize, value: Option<Vec<u8>>)
    requires
        i < old(v)@.len(),
    ensures
        final(v)@ == old(v)@.update(i as int, value),
{
    let ghost before = v@;
    let _ = v.remove(i);
    v.insert(i, value);
    proof {
        assert(final(v)@ =~= before.update(i as int, value));
    }
}

/// Appends a copy of `data`.
fn push_bytes(out: &mut Vec<u8>, data: &Vec<u8>)
    ensures
        final(out)@ == old(out)@ + data@,
{
    let mut i: usize = 0;
    while i < data.len()
        invariant
            i <= data@.len(),
            out@ =~= old(out)@ + data@.take(i as int),
        decreases data@.len() - i,
    {
        out.push(data[i]);
        proof {
            assert(data@.take(i + 1) =~= data@.take(i as int).push(data@[i as int]));
        }
        i = i + 1;
    }
    proof {
        assert(data@.take(data@.len() as int) =~= data@);
    }
}

} // verus!
