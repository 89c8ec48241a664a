//! The peer session's pure core: the handshake wire image and its check,
//! the choke/interest state machine, the bitfield layout, and the
//! block-level transfer of one piece.
//!
//! The TCP connection itself lives outside this library; every decision a
//! session takes — what to write, how to read a reply, when a transfer is
//! done or broken — is a function here, with its contract.

use vstd::prelude::*;

use crate::torrent::message::Message;
use crate::torrent::message::MessageError;
use vstd::slice::slice_to_vec;

verus! {

broadcast use vstd::seq_lib::group_seq_properties;

/// The 20-byte id a peer announces itself under.
pub type PeerId = [u8; 20];

/// The 20-byte SHA-1 identity of a torrent.
pub type InfoHash = [u8; 20];

/// A session failure. Transport failures stay outside the library; these
/// are the protocol ones.
#[derive(Debug, PartialEq, Eq, Structural, Clone, Copy)]
pub enum PeerError {
    /// An operation was asked of a session that holds no connection.
    NotConnected,
    /// The remote's handshake names another protocol or torrent.
    HandshakeMismatch,
    /// A frame could not be read as a message.
    BadMessage(MessageError),
    /// A message of another kind arrived where one kind was awaited.
    UnexpectedMessage,
    /// A block arrived for another piece or offset than the one requested.
    UnexpectedPiece,
}

/// What a session needs to know to introduce itself.
#[derive(Debug, PartialEq, Eq, Clone, Copy)]
pub struct PeerConfig {
    pub peer_id: PeerId,
    pub info_hash: InfoHash,
    pub port: u16,
}

impl PeerConfig {
    /// A configuration for one torrent under the given identity, on the
    /// default BitTorrent port.
    pub fn new(peer_id: PeerId, info_hash: InfoHash) -> (r: Self)
        ensures
            r.peer_id == peer_id,
            r.info_hash == info_hash,
            r.port == 6881,
    {
        PeerConfig { peer_id, info_hash, port: 6881 }
    }
}

/// The 19 bytes of `BitTorrent protocol`.
pub open spec fn protocol_bytes() -> Seq<u8> {
    seq![
        66u8,
        105,
        116,
        84,
        111,
        114,
        114,
        101,
        110,
        116,
        32,
        112,
        114,
        111,
        116,
        111,
        99,
        111,
        108,
    ]
}

/// The reserved bytes: all clear but the extension-protocol bit.
pub open spec fn reserved_bytes() -> Seq<u8> {
    seq![0u8, 0, 0, 0, 0, 16, 0, 0]
}

/// The 68 bytes each side writes first: length-prefixed protocol name,
/// reserved bits, info-hash, peer id.
pub open spec fn handshake_bytes(info_hash: Seq<u8>, peer_id: Seq<u8>) -> Seq<u8> {
    seq![19u8] + protocol_bytes() + reserved_bytes() + info_hash + peer_id
}

/// Appends a copy of a byte slice.
fn push_slice(out: &mut Vec<u8>, s: &[u8])
    ensures
        final(out)@ == old(out)@ + s@,
{
    let mut i: usize = 0;
    while i < s.len()
        invariant
            i <= s@.len(),
            out@ =~= old(out)@ + s@.take(i as int),
        decreases s@.len() - i,
    {
        out.push(*vstd::slice::slice_index_get(s, i));
        proof {
            assert(s@.take(i + 1) =~= s@.take(i as int).push(s@[i as int]));
        }
        i = i + 1;
    }
    proof {
        assert(s@.take(s@.len() as int) =~= s@);
    }
}

/// The exact handshake this client writes for the given torrent and id.
pub fn build_handshake(info_hash: &InfoHash, peer_id: &PeerId) -> (r: Vec<u8>)
    ensures
        r@ == handshake_bytes(info_hash@, peer_id@),
        r@.len() == 68,
{
    let mut out: Vec<u8> = Vec::new();
    out.push(19);
    let proto: [u8; 19] = [
        66, 105, 116, 84, 111, 114, 114, 101, 110, 116, 32, 112, 114, 111, 116, 111, 99, 111, 108,
    ];
    push_slice(&mut out, proto.as_slice());
    let reserved: [u8; 8] = [0, 0, 0, 0, 0, 16, 0, 0];
    push_slice(&mut out, reserved.as_slice());
    push_slice(&mut out, info_hash.as_slice());
    push_slice(&mut out, peer_id.as_slice());
    proof {
        assert(proto@ =~= protocol_bytes());
        assert(reserved@ =~= reserved_bytes());
        assert(out@ =~= handshake_bytes(info_hash@, peer_id@));
    }
    out
}

/// Checks a remote's 68-byte handshake: the protocol name must match and
/// the info-hash must be ours; the remote's peer id is returned. A reply
/// naming another protocol or torrent is a [`PeerError::HandshakeMismatch`]
/// and yields no peer id.
pub fn verify_handshake(response: &[u8], our_info_hash: &InfoHash) -> (r: Result<PeerId, PeerError>)
    requires
        response@.len() == 68,
    ensures
        r is Ok <==> (response@.subrange(1, 20) == protocol_bytes() && response@.subrange(28, 48)
            == our_info_hash@),
        r matches Ok(pid) ==> pid@ == response@.subrange(48, 68),
        r matches Err(e) ==> e == PeerError::HandshakeMismatch,
{
    let proto: [u8; 19] = [
        66, 105, 116, 84, 111, 114, 114, 101, 110, 116, 32, 112, 114, 111, 116, 111, 99, 111, 108,
    ];
    proof {
        assert(proto@ =~= protocol_bytes());
    }
    let mut i: usize = 0;
    while i < 19
        invariant
            i <= 19,
            response@.len() == 68,
            proto@ == protocol_bytes(),
            forall|j: int| 0 <= j < i ==> response@[1 + j] == protocol_bytes()[j],
        decreases 19 - i,
    {
        if *vstd::slice::slice_index_get(response, 1 + i) != proto[i] {
            proof {
                assert(response@.subrange(1, 20)[i as int] != protocol_bytes()[i as int]);
            }
            return Err(PeerError::HandshakeMismatch);
        }
        i = i + 1;
    }
    proof {
        assert(response@.subrange(1, 20) =~= protocol_bytes());
    }
    let mut k: usize = 0;
    while k < 20
        invariant
            k <= 20,
            response@.len() == 68,
            forall|j: int| 0 <= j < k ==> response@[28 + j] == our_info_hash@[j],
        decreases 20 - k,
    {
        if *vstd::slice::slice_index_get(response, 28 + k) != our_info_hash[k] {
            proof {
                assert(response@.subrange(28, 48)[k as int] != our_info_hash@[k as int]);
            }
            return Err(PeerError::HandshakeMismatch);
        }
        k = k + 1;
    }
    proof {
        assert(response@.subrange(28, 48) =~= our_info_hash@);
    }
    let mut pid: [u8; 20] = [0; 20];
    let mut m: usize = 0;
    while m < 20
        invariant
            m <= 20,
            response@.len() == 68,
            pid@.len() == 20,
            forall|j: int| 0 <= j < m ==> pid@[j] == response@[48 + j],
        decreases 20 - m,
    {
        pid[m] = *vstd::slice::slice_index_get(response, 48 + m);
        m = m + 1;
    }
    proof {
        assert(pid@ =~= response@.subrange(48, 68));
    }
    Ok(pid)
}

/// Whether a bitfield advertises piece `i`: bit `7 - i % 8` of byte
/// `i / 8`, most significant bit first. Bits past the end advertise
/// nothing.
pub open spec fn spec_has_piece(bits: Seq<u8>, i: int) -> bool {
    &&& 0 <= i
    &&& i / 8 < bits.len()
    &&& ((bits[i / 8] >> ((7 - (i % 8)) as u8)) & 1) == 1
}

/// Setting one bit raises exactly that bit of the byte.
proof fn lemma_set_bit(b: u8, sh: u8, sh2: u8)
    requires
        sh < 8,
        sh2 < 8,
    ensures
        ((b | (1u8 << sh)) >> sh2) & 1 == (if sh2 == sh {
            1u8
        } else {
            (b >> sh2) & 1
        }),
{
    assert(((b | (1u8 << sh)) >> sh2) & 1 == (if sh2 == sh {
        1u8
    } else {
        (b >> sh2) & 1
    })) by (bit_vector)
        requires
            sh < 8,
            sh2 < 8,
    ;
}

/// Marks piece `piece` as advertised, growing the bitfield as needed:
/// afterwards it shows exactly the pieces it showed before, plus this one.
pub fn bitfield_set_piece(bits: &mut Vec<u8>, piece: u32)
    ensures
        forall|j: int|
            #[trigger] spec_has_piece(final(bits)@, j) <==> (spec_has_piece(old(bits)@, j) || j
                == piece as int),
{
    let idx = (piece / 8) as usize;
    let sh: u8 = (7 - (piece % 8)) as u8;
    while bits.len() <= idx
        invariant
            bits@.len() >= old(bits)@.len(),
            forall|k: int| 0 <= k < old(bits)@.len() ==> bits@[k] == old(bits)@[k],
            forall|k: int| old(bits)@.len() <= k < bits@.len() ==> bits@[k] == 0,
        decreases idx + 1 - bits@.len(),
    {
        bits.push(0);
    }
    let b = bits[idx];
    vec_set_u8(bits, idx, b | (1u8 << sh));
    proof {
        let pi = piece as int;
        assert(pi / 8 == idx && pi % 8 == 7 - sh);
        assert forall|j: int| #[trigger] spec_has_piece(final(bits)@, j) <==> (spec_has_piece(
            old(bits)@,
            j,
        ) || j == pi) by {
            if 0 <= j {
                let jb = j / 8;
                let js: u8 = (7 - (j % 8)) as u8;
                assert(j == 8 * (j / 8) + j % 8) by (nonlinear_arith)
                    requires j >= 0;
                assert(pi == 8 * (pi / 8) + pi % 8) by (nonlinear_arith)
                    requires pi >= 0;
                if jb < final(bits)@.len() {
                    if jb == idx {
                        lemma_set_bit(b, sh, js);
                        if jb < old(bits)@.len() {
                            assert(old(bits)@[jb] == b);
                        } else {
                            assert(b == 0);
                            assert((0u8 >> js) & 1 == 0) by (bit_vector);
                        }
                    } else {
                        assert(final(bits)@[jb] == (if jb < old(bits)@.len() {
                            old(bits)@[jb]
                        } else {
                            0u8
                        }));
                        if jb >= old(bits)@.len() {
                            assert((0u8 >> js) & 1 == 0) by (bit_vector);
                        }
                    }
                }
            }
        }
    }
}

/// Replaces one byte of the bitfield.
fn vec_set_u8(v: &mut Vec<u8>, i: usize, value: u8)
    requires
        i < old(v)@.len(),
    ensures
        final(v)@ == old(v)@.update(i as int, value),
{
    let ghost before = v@;
    let _ = v.remove(i);
    v.insert(i, value);
    proof {
        assert(final(v)@ =~= before.update(i as int, value));
    }
}

/// Reads one presence bit of a bitfield.
pub fn bitfield_has_piece(bits: &Vec<u8>, piece: usize) -> (r: bool)
    ensures
        r == spec_has_piece(bits@, piece as int),
{
    if piece / 8 >= bits.len() {
        return false;
    }
    let sh: u8 = (7 - (piece % 8)) as u8;
    ((bits[piece / 8] >> sh) & 1) == 1
}

/// The four choke/interest booleans of a live session, with what the
/// remote has advertised. Both sides start choked and uninterested.
#[derive(Debug, PartialEq, Eq)]
pub struct SessionState {
    pub am_choking: bool,
    pub am_interested: bool,
    pub peer_choking: bool,
    pub peer_interested: bool,
    pub remote_bitfield: Vec<u8>,
}

impl SessionState {
    /// The initial state: both sides choking, neither interested, no
    /// pieces advertised.
    pub fn new() -> (r: Self)
        ensures
            r.am_choking,
            !r.am_interested,
            r.peer_choking,
            !r.peer_interested,
            r.remote_bitfield@ == Seq::<u8>::empty(),
    {
        SessionState {
            am_choking: true,
            am_interested: false,
            peer_choking: true,
            peer_interested: false,
            remote_bitfield: Vec::new(),
        }
    }

    /// A session may request blocks exactly when it has shown interest
    /// and the remote has unchoked it.
    pub fn can_request(&self) -> (r: bool)
        ensures
            r == (self.am_interested && !self.peer_choking),
    {
        self.am_interested && !self.peer_choking
    }

    /// Records that this side has sent `Interested`.
    pub fn sent_interested(&mut self)
        ensures
            *final(self) == (SessionState { am_interested: true, ..*old(self) }),
    {
        self.am_interested = true;
    }

    /// Applies one received message: choke and interest flags move as the
    /// message says, a bitfield replaces the advertisement, a have marks
    /// one more piece available, and all else — keep-alives included —
    /// changes nothing.
    pub fn on_message(&mut self, m: &Message)
        ensures
            match m {
                Message::Have(i) => ({
                    &&& forall|j: int|
                        #[trigger] spec_has_piece(final(self).remote_bitfield@, j) <==> (
                        spec_has_piece(old(self).remote_bitfield@, j) || j == *i as int)
                    &&& final(self).am_choking == old(self).am_choking
                    &&& final(self).am_interested == old(self).am_interested
                    &&& final(self).peer_choking == old(self).peer_choking
                    &&& final(self).peer_interested == old(self).peer_interested
                }),
                Message::Choke => *final(self) == (SessionState {
                    peer_choking: true,
                    ..*old(self)
                }),
                Message::Unchoke => *final(self) == (SessionState {
                    peer_choking: false,
                    ..*old(self)
                }),
                Message::Interested => *final(self) == (SessionState {
                    peer_interested: true,
                    ..*old(self)
                }),
                Message::NotInterested => *final(self) == (SessionState {
                    peer_interested: false,
                    ..*old(self)
                }),
                Message::Bitfield(d) => ({
                    &&& final(self).remote_bitfield@ == d@
                    &&& final(self).am_choking == old(self).am_choking
                    &&& final(self).am_interested == old(self).am_interested
                    &&& final(self).peer_choking == old(self).peer_choking
                    &&& final(self).peer_interested == old(self).peer_interested
                }),
                _ => *final(self) == *old(self),
            },
    {
        match m {
            Message::Choke => {
                self.peer_choking = true;
            },
            Message::Unchoke => {
                self.peer_choking = false;
            },
            Message::Interested => {
                self.peer_interested = true;
            },
            Message::NotInterested => {
                self.peer_interested = false;
            },
            Message::Bitfield(d) => {
                self.remote_bitfield = slice_to_vec(d.as_slice());
            },
            Message::Have(i) => {
                bitfield_set_piece(&mut self.remote_bitfield, *i);
            },
            _ => {},
        }
    }
}

/// A block is at most 16 KiB.
pub const BLOCK_SIZE: u32 = 16384;

/// The transfer of one piece, block by block: what to request next, and
/// what each reply must look like.
#[derive(Debug, PartialEq, Eq)]
pub struct PieceDownload {
    /// Which piece is being fetched.
    pub index: u32,
    /// Its full size in bytes.
    pub length: u32,
    /// The bytes received so far; the next block begins where they end.
    pub data: Vec<u8>,
}

impl PieceDownload {
    pub open spec fn wf(&self) -> bool {
        self.data@.len() <= self.length
    }

    /// Begins the transfer of piece `index` of `length` bytes.
    pub fn new(index: u32, length: u32) -> (r: Self)
        ensures
            r.index == index,
            r.length == length,
            r.data@ == Seq::<u8>::empty(),
            r.wf(),
    {
        PieceDownload { index, length, data: Vec::new() }
    }

    /// The next block request, or nothing when the piece is complete:
    /// always the piece's own index, beginning where the received bytes
    /// end, of a full block or whatever remains.
    pub fn next_request(&self) -> (r: Option<Message>)
        requires
            self.wf(),
        ensures
            match r {
                Some(m) => ({
                    &&& self.data@.len() < self.length
                    &&& m matches Message::Request { index, begin, length } && index == self.index
                        && begin == self.data@.len() && length as int == (if self.length
                        - self.data@.len() < 16384 {
                        self.length - self.data@.len()
                    } else {
                        16384int
                    })
                }),
                None => self.data@.len() == self.length,
            },
    {
        let got = self.data.len() as u32;
        if got >= self.length {
            return None;
        }
        let remaining = self.length - got;
        let block = if remaining < BLOCK_SIZE {
            remaining
        } else {
            BLOCK_SIZE
        };
        Some(Message::Request { index: self.index, begin: got, length: block })
    }

    /// Accepts one block: it must answer the outstanding request — same
    /// piece, the current offset, the requested size — and is appended;
    /// anything else is an [`PeerError::UnexpectedPiece`] and changes
    /// nothing.
    pub fn on_piece(&mut self, index: u32, begin: u32, block: &Vec<u8>) -> (r: Result<
        (),
        PeerError,
    >)
        requires
            old(self).wf(),
        ensures
            final(self).wf(),
            final(self).index == old(self).index,
            final(self).length == old(self).length,
            r is Ok <==> ({
                &&& index == old(self).index
                &&& begin == old(self).data@.len()
                &&& old(self).data@.len() < old(self).length
                &&& block@.len() as int == (if old(self).length - old(self).data@.len() < 16384 {
                    old(self).length - old(self).data@.len()
                } else {
                    16384int
                })
            }),
            r is Ok ==> final(self).data@ == old(self).data@ + block@,
            r is Err ==> final(self).data@ == old(self).data@ && r == Err::<(), PeerError>(
                PeerError::UnexpectedPiece,
            ),
    {
        let got = self.data.len() as u32;
        if got >= self.length {
            return Err(PeerError::UnexpectedPiece);
        }
        let remaining = self.length - got;
        let expected = if remaining < BLOCK_SIZE {
            remaining
        } else {
            BLOCK_SIZE
        };
        if index != self.index || begin != got || block.len() as u32 != expected
            || block.len() > 16384 {
            return Err(PeerError::UnexpectedPiece);
        }
        push_slice(&mut self.data, block.as_slice());
        Ok(())
    }

    /// Whether all bytes of the piece have arrived.
    pub fn is_complete(&self) -> (r: bool)
        requires
            self.wf(),
        ensures
            r == (self.data@.len() == self.length),
    {
        self.data.len() == self.length as usize
    }

    /// Yields the assembled piece.
    pub fn take_data(self) -> (r: Vec<u8>)
        ensures
            r@ == self.data@,
    {
        self.data
    }
}

} // verus!
