//! Peer-wire message framing.
//!
//! A frame on the wire is a big-endian `u32` length followed by that many
//! payload bytes. A zero-length frame is a keep-alive; otherwise the first
//! payload byte is the message id and the rest is kind-dependent. The exact
//! wire form of every message is [`msg_bytes`]; what a payload decodes to is
//! the relation [`msg_of`], and which payloads are rejected is [`msg_err`].

use vstd::prelude::*;

use vstd::slice::slice_subrange;
use vstd::slice::slice_to_vec;

verus! {

/// A framing failure.
#[derive(Debug, PartialEq, Eq, Structural, Clone, Copy)]
pub enum MessageError {
    /// A fixed-length message whose payload length disagrees with its kind.
    BadMessageLength,
    /// A message id that opens no known message kind.
    UnknownMessageId(u8),
}

/// A peer-wire message.
#[derive(Debug, PartialEq, Eq)]
pub enum Message {
    KeepAlive,
    Choke,
    Unchoke,
    Interested,
    NotInterested,
    Have(u32),
    Bitfield(Vec<u8>),
    Request { index: u32, begin: u32, length: u32 },
    Piece { index: u32, begin: u32, block: Vec<u8> },
    Cancel { index: u32, begin: u32, length: u32 },
}

/// Big-endian bytes of a 32-bit value.
pub open spec fn be32(n: u32) -> Seq<u8> {
    seq![
        ((n >> 24) & 0xff) as u8,
        ((n >> 16) & 0xff) as u8,
        ((n >> 8) & 0xff) as u8,
        (n & 0xff) as u8,
    ]
}

/// The 32-bit value read from four big-endian bytes.
pub open spec fn be32_val(b0: u8, b1: u8, b2: u8, b3: u8) -> u32 {
    ((b0 as u32) << 24) | ((b1 as u32) << 16) | ((b2 as u32) << 8) | (b3 as u32)
}

pub proof fn lemma_be32_of_val(b0: u8, b1: u8, b2: u8, b3: u8)
    ensures
        be32(be32_val(b0, b1, b2, b3)) == seq![b0, b1, b2, b3],
{
    let n = be32_val(b0, b1, b2, b3);
    assert(((((b0 as u32) << 24) | ((b1 as u32) << 16) | ((b2 as u32) << 8) | (b3 as u32)) >> 24)
        & 0xff == b0 as u32) by (bit_vector);
    assert(((((b0 as u32) << 24) | ((b1 as u32) << 16) | ((b2 as u32) << 8) | (b3 as u32)) >> 16)
        & 0xff == b1 as u32) by (bit_vector);
    assert(((((b0 as u32) << 24) | ((b1 as u32) << 16) | ((b2 as u32) << 8) | (b3 as u32)) >> 8)
        & 0xff == b2 as u32) by (bit_vector);
    assert((((b0 as u32) << 24) | ((b1 as u32) << 16) | ((b2 as u32) << 8) | (b3 as u32)) & 0xff
        == b3 as u32) by (bit_vector);
    assert(be32(n) =~= seq![b0, b1, b2, b3]);
}

/// Whether a message's variable part fits in a frame length.
pub open spec fn msg_valid(m: Message) -> bool {
    match m {
        Message::Bitfield(d) => d@.len() + 1 <= u32::MAX,
        Message::Piece { index, begin, block } => block@.len() + 9 <= u32::MAX,
        _ => true,
    }
}

/// The full wire form of a message, length prefix included.
pub open spec fn msg_bytes(m: Message) -> Seq<u8> {
    match m {
        Message::KeepAlive => be32(0),
        Message::Choke => be32(1) + seq![0u8],
        Message::Unchoke => be32(1) + seq![1u8],
        Message::Interested => be32(1) + seq![2u8],
        Message::NotInterested => be32(1) + seq![3u8],
        Message::Have(i) => be32(5) + seq![4u8] + be32(i),
        Message::Bitfield(d) => be32((d@.len() + 1) as u32) + seq![5u8] + d@,
        Message::Request { index, begin, length } => be32(13) + seq![6u8] + be32(index) + be32(
            begin,
        ) + be32(length),
        Message::Piece { index, begin, block } => be32((block@.len() + 9) as u32) + seq![7u8]
            + be32(index) + be32(begin) + block@,
        Message::Cancel { index, begin, length } => be32(13) + seq![8u8] + be32(index) + be32(
            begin,
        ) + be32(length),
    }
}

/// The decode relation: frame payload `b` — everything after the length
/// prefix — reads as message `m`.
pub open spec fn msg_of(b: Seq<u8>, m: Message) -> bool {
    if b.len() == 0 {
        m == Message::KeepAlive
    } else {
        let id = b[0];
        let p = b.drop_first();
        match m {
            Message::KeepAlive => false,
            Message::Choke => id == 0 && p.len() == 0,
            Message::Unchoke => id == 1 && p.len() == 0,
            Message::Interested => id == 2 && p.len() == 0,
            Message::NotInterested => id == 3 && p.len() == 0,
            Message::Have(i) => id == 4 && p.len() == 4 && be32(i) == p,
            Message::Bitfield(d) => id == 5 && d@ == p,
            Message::Request { index, begin, length } => id == 6 && p.len() == 12 && be32(index)
                == p.subrange(0, 4) && be32(begin) == p.subrange(4, 8) && be32(length)
                == p.subrange(8, 12),
            Message::Piece { index, begin, block } => id == 7 && p.len() >= 8 && be32(index)
                == p.subrange(0, 4) && be32(begin) == p.subrange(4, 8) && block@ == p.skip(8),
            Message::Cancel { index, begin, length } => id == 8 && p.len() == 12 && be32(index)
                == p.subrange(0, 4) && be32(begin) == p.subrange(4, 8) && be32(length)
                == p.subrange(8, 12),
        }
    }
}

/// Which frame payloads are rejected, and with which error.
pub open spec fn msg_err(b: Seq<u8>) -> Option<MessageError> {
    if b.len() == 0 {
        None
    } else {
        let id = b[0];
        let n = b.len() - 1;
        if id <= 3 {
            if n == 0 {
                None
            } else {
                Some(MessageError::BadMessageLength)
            }
        } else if id == 4 {
            if n == 4 {
                None
            } else {
                Some(MessageError::BadMessageLength)
            }
        } else if id == 5 {
            None
        } else if id == 6 || id == 8 {
            if n == 12 {
                None
            } else {
                Some(MessageError::BadMessageLength)
            }
        } else if id == 7 {
            if n >= 8 {
                None
            } else {
                Some(MessageError::BadMessageLength)
            }
        } else {
            Some(MessageError::UnknownMessageId(id))
        }
    }
}

/// Appends the big-endian bytes of `n`.
fn push_be32(out: &mut Vec<u8>, n: u32)
    ensures
        final(out)@ == old(out)@ + be32(n),
{
    out.push(((n >> 24) & 0xff) as u8);
    out.push(((n >> 16) & 0xff) as u8);
    out.push(((n >> 8) & 0xff) as u8);
    out.push((n & 0xff) as u8);
    proof {
        assert(final(out)@ =~= old(out)@ + be32(n));
    }
}

/// Reads a big-endian 32-bit value at `off`.
fn read_be32(s: &[u8], off: usize) -> (n: u32)
    requires
        off + 4 <= s@.len(),
    ensures
        be32(n) == s@.subrange(off as int, off + 4),
{
    let slen = s.len();
    proof {
        assert(off + 4 <= slen);
    }
    let b0 = *vstd::slice::slice_index_get(s, off);
    let b1 = *vstd::slice::slice_index_get(s, off + 1);
    let b2 = *vstd::slice::slice_index_get(s, off + 2);
    let b3 = *vstd::slice::slice_index_get(s, off + 3);
    let n = ((b0 as u32) << 24) | ((b1 as u32) << 16) | ((b2 as u32) << 8) | (b3 as u32);
    proof {
        lemma_be32_of_val(b0, b1, b2, b3);
        assert(s@.subrange(off as int, off + 4) =~= seq![b0, b1, b2, b3]);
    }
    n
}

impl Default for Message {
    /// The message that carries nothing: a keep-alive.
    fn default() -> (r: Self)
        ensures
            r == Message::KeepAlive,
    {
        Message::KeepAlive
    }
}

impl Message {
    /// The full wire form of this message, length prefix included.
    pub fn to_bytes(&self) -> (r: Vec<u8>)
        requires
            msg_valid(*self),
        ensures
            r@ == msg_bytes(*self),
    {
        let mut bytes: Vec<u8> = Vec::new();
        match self {
            Message::KeepAlive => {
                push_be32(&mut bytes, 0);
            },
            Message::Choke => {
                push_be32(&mut bytes, 1);
                bytes.push(0);
            },
            Message::Unchoke => {
                push_be32(&mut bytes, 1);
                bytes.push(1);
            },
            Message::Interested => {
                push_be32(&mut bytes, 1);
                bytes.push(2);
            },
            Message::NotInterested => {
                push_be32(&mut bytes, 1);
                bytes.push(3);
            },
            Message::Have(index) => {
                push_be32(&mut bytes, 5);
                bytes.push(4);
                push_be32(&mut bytes, *index);
            },
            Message::Bitfield(data) => {
                push_be32(&mut bytes, 1 + data.len() as u32);
                bytes.push(5);
                append_bytes(&mut bytes, data);
            },
            Message::Request { index, begin, length } => {
                push_be32(&mut bytes, 13);
                bytes.push(6);
                push_be32(&mut bytes, *index);
                push_be32(&mut bytes, *begin);
                push_be32(&mut bytes, *length);
            },
            Message::Piece { index, begin, block } => {
                push_be32(&mut bytes, 9 + block.len() as u32);
                bytes.push(7);
                push_be32(&mut bytes, *index);
                push_be32(&mut bytes, *begin);
                append_bytes(&mut bytes, block);
            },
            Message::Cancel { index, begin, length } => {
                push_be32(&mut bytes, 13);
                bytes.push(8);
                push_be32(&mut bytes, *index);
                push_be32(&mut bytes, *begin);
                push_be32(&mut bytes, *length);
            },
        }
        proof {
            assert(bytes@ =~= msg_bytes(*self));
        }
        bytes
    }

    /// Decodes a frame payload — the bytes after the length prefix. An
    /// empty payload is a keep-alive.
    pub fn from_bytes(bytes: &[u8]) -> (r: Result<Self, MessageError>)
        ensures
            match r {
                Ok(m) => msg_of(bytes@, m) && msg_err(bytes@) is None,
                Err(e) => msg_err(bytes@) == Some(e),
            },
    {
        if bytes.len() == 0 {
            return Ok(Message::KeepAlive);
        }
        let id = *vstd::slice::slice_index_get(bytes, 0);
        let payload = slice_subrange(bytes, 1, bytes.len());
        proof {
            assert(payload@ =~= bytes@.drop_first());
        }
        let n = payload.len();
        if id == 0 {
            if n == 0 {
                Ok(Message::Choke)
            } else {
                Err(MessageError::BadMessageLength)
            }
        } else if id == 1 {
            if n == 0 {
                Ok(Message::Unchoke)
            } else {
                Err(MessageError::BadMessageLength)
            }
        } else if id == 2 {
            if n == 0 {
                Ok(Message::Interested)
            } else {
                Err(MessageError::BadMessageLength)
            }
        } else if id == 3 {
            if n == 0 {
                Ok(Message::NotInterested)
            } else {
                Err(MessageError::BadMessageLength)
            }
        } else if id == 4 {
            if n == 4 {
                let index = read_be32(payload, 0);
                proof {
                    assert(payload@.subrange(0, 4) =~= payload@);
                }
                Ok(Message::Have(index))
            } else {
                Err(MessageError::BadMessageLength)
            }
        } else if id == 5 {
            Ok(Message::Bitfield(slice_to_vec(payload)))
        } else if id == 6 {
            if n == 12 {
                let index = read_be32(payload, 0);
                let begin = read_be32(payload, 4);
                let length = read_be32(payload, 8);
                Ok(Message::Request { index, begin, length })
            } else {
                Err(MessageError::BadMessageLength)
            }
        } else if id == 7 {
            if n >= 8 {
                let index = read_be32(payload, 0);
                let begin = read_be32(payload, 4);
                let block = slice_to_vec(slice_subrange(payload, 8, n));
                proof {
                    assert(payload@.subrange(8, n as int) =~= payload@.skip(8));
                }
                Ok(Message::Piece { index, begin, block })
            } else {
                Err(MessageError::BadMessageLength)
            }
        } else if id == 8 {
            if n == 12 {
                let index = read_be32(payload, 0);
                let begin = read_be32(payload, 4);
                let length = read_be32(payload, 8);
                Ok(Message::Cancel { index, begin, length })
            } else {
                Err(MessageError::BadMessageLength)
            }
        } else {
            Err(MessageError::UnknownMessageId(id))
        }
    }
}

/// Appends a copy of `data`.
fn append_bytes(out: &mut Vec<u8>, data: &Vec<u8>)
    ensures
        final(out)@ == old(out)@ + data@,
{
    let mut i: usize = 0;
    while i < data.len()
        invariant
            i <= data@.len(),
            out@ =~= old(out)@ + data@.take(i as int),
        decreases data@.len() - i,
    {
        out.push(data[i]);
        proof {
            assert(data@.take(i + 1) =~= data@.take(i as int).push(data@[i as int]));
        }
        i = i + 1;
    }
    proof {
        assert(data@.take(data@.len() as int) =~= data@);
    }
}

/// Framing round trip, decode side: the wire form of any message, stripped
/// of its length prefix, reads back as that same message and is rejected by
/// nothing.
pub proof fn lemma_frame_round_trip(m: Message)
    requires
        msg_valid(m),
    ensures
        msg_bytes(m).len() >= 4,
        msg_of(msg_bytes(m).skip(4), m),
        msg_err(msg_bytes(m).skip(4)) is None,
{
    let w = msg_bytes(m);
    let b = w.skip(4);
    match m {
        Message::KeepAlive => {
            assert(b =~= Seq::<u8>::empty());
        },
        Message::Choke => {
            assert(b =~= seq![0u8]);
            assert(b.drop_first() =~= Seq::<u8>::empty());
        },
        Message::Unchoke => {
            assert(b =~= seq![1u8]);
            assert(b.drop_first() =~= Seq::<u8>::empty());
        },
        Message::Interested => {
            assert(b =~= seq![2u8]);
            assert(b.drop_first() =~= Seq::<u8>::empty());
        },
        Message::NotInterested => {
            assert(b =~= seq![3u8]);
            assert(b.drop_first() =~= Seq::<u8>::empty());
        },
        Message::Have(i) => {
            assert(b =~= seq![4u8] + be32(i));
            assert(b.drop_first() =~= be32(i));
        },
        Message::Bitfield(d) => {
            assert(b =~= seq![5u8] + d@);
            assert(b.drop_first() =~= d@);
        },
        Message::Request { index, begin, length } => {
            assert(b =~= seq![6u8] + be32(index) + be32(begin) + be32(length));
            let p = b.drop_first();
            assert(p =~= be32(index) + be32(begin) + be32(length));
            assert(p.subrange(0, 4) =~= be32(index));
            assert(p.subrange(4, 8) =~= be32(begin));
            assert(p.subrange(8, 12) =~= be32(length));
        },
        Message::Piece { index, begin, block } => {
            assert(b =~= seq![7u8] + be32(index) + be32(begin) + block@);
            let p = b.drop_first();
            assert(p =~= be32(index) + be32(begin) + block@);
            assert(p.subrange(0, 4) =~= be32(index));
            assert(p.subrange(4, 8) =~= be32(begin));
            assert(p.skip(8) =~= block@);
        },
        Message::Cancel { index, begin, length } => {
            assert(b =~= seq![8u8] + be32(index) + be32(begin) + be32(length));
            let p = b.drop_first();
            assert(p =~= be32(index) + be32(begin) + be32(length));
            assert(p.subrange(0, 4) =~= be32(index));
            assert(p.subrange(4, 8) =~= be32(begin));
            assert(p.subrange(8, 12) =~= be32(length));
        },
    }
}

/// Framing round trip, encode side: any message a payload reads as has that
/// payload, length prefix restored, as its exact wire form. Together with
/// [`lemma_frame_round_trip`] this makes the payload decode relation
/// one-to-one between accepted payloads and messages.
pub proof fn lemma_msg_of_encode(b: Seq<u8>, m: Message)
    requires
        msg_of(b, m),
        b.len() + 4 <= u32::MAX,
    ensures
        msg_bytes(m) == be32(b.len() as u32) + b,
{
    if b.len() == 0 {
        assert(msg_bytes(m) =~= be32(0) + b);
    } else {
        let id = b[0];
        let p = b.drop_first();
        match m {
            Message::KeepAlive => {},
            Message::Choke => {
                assert(b =~= seq![0u8]);
                assert(msg_bytes(m) =~= be32(1) + b);
            },
            Message::Unchoke => {
                assert(b =~= seq![1u8]);
                assert(msg_bytes(m) =~= be32(1) + b);
            },
            Message::Interested => {
                assert(b =~= seq![2u8]);
                assert(msg_bytes(m) =~= be32(1) + b);
            },
            Message::NotInterested => {
                assert(b =~= seq![3u8]);
                assert(msg_bytes(m) =~= be32(1) + b);
            },
            Message::Have(i) => {
                assert(b =~= seq![4u8] + be32(i));
                assert(msg_bytes(m) =~= be32(5) + b);
            },
            Message::Bitfield(d) => {
                assert(b =~= seq![5u8] + d@);
                assert(msg_bytes(m) =~= be32((d@.len() + 1) as u32) + b);
            },
            Message::Request { index, begin, length } => {
                assert(b =~= seq![6u8] + be32(index) + be32(begin) + be32(length));
                assert(msg_bytes(m) =~= be32(13) + b);
            },
            Message::Piece { index, begin, block } => {
                assert(b =~= seq![7u8] + be32(index) + be32(begin) + block@);
                assert(msg_bytes(m) =~= be32((block@.len() + 9) as u32) + b);
            },
            Message::Cancel { index, begin, length } => {
                assert(b =~= seq![8u8] + be32(index) + be32(begin) + be32(length));
                assert(msg_bytes(m) =~= be32(13) + b);
            },
        }
    }
}

/// A frame payload reads as at most one message: two messages a payload
/// reads as have the same wire form, so decoding after encoding gives back
/// the message that was encoded.
pub proof fn lemma_msg_of_functional(b: Seq<u8>, m1: Message, m2: Message)
    requires
        msg_of(b, m1),
        msg_of(b, m2),
        b.len() + 4 <= u32::MAX,
    ensures
        msg_bytes(m1) == msg_bytes(m2),
{
    lemma_msg_of_encode(b, m1);
    lemma_msg_of_encode(b, m2);
}

} // verus!
