//! Tracker exchanges: the announce query string and the compact peer list.
//!
//! The announce request is an HTTP GET whose query carries the info-hash
//! and peer id percent-encoded as raw bytes, the listening port, progress
//! counters, and the compact flag. The response is a bencoded dictionary
//! holding either a `failure reason` or a `peers` byte string of 6-byte
//! records `ip(4) ++ port(2, big-endian)`. The HTTP transfer itself lives
//! outside this library; what is sent and how the reply is read are
//! specified here.

use vstd::prelude::*;

use crate::bencode::Bencode;
use crate::bencode::bvalue::BNode;
use crate::bencode::bvalue::BValue;
use crate::bencode::bvalue::dec_u;
use crate::bencode::bvalue::entries_get;
use crate::bencode::bvalue::entries_lookup;
use crate::bencode::decoder::BencodeError;
use crate::bencode::decoder::spec_decode;
use crate::bencode::encoder::push_decimal;
use crate::utils::hex_char;
use crate::utils::push_char;
use crate::utils::push_hex_byte;
use vstd::slice::slice_to_vec;
use vstd::string::StringExecFns;

verus! {

broadcast use vstd::seq_lib::group_seq_properties;

/// A tracker exchange failure.
#[derive(Debug, PartialEq, Eq)]
pub enum TrackerError {
    /// The response body is not well-formed bencode.
    Bencode(BencodeError),
    /// The tracker refused the announce, with its reason.
    TrackerFailure(Vec<u8>),
    /// The response is no dictionary, lacks `peers`, or its peer list is
    /// not whole 6-byte records.
    BadTrackerResponse,
}

/// Options of an announce request.
#[derive(Debug, PartialEq, Eq, Clone, Copy)]
pub struct TrackerConfig {
    /// The 20-byte id this client announces itself under.
    pub peer_id: [u8; 20],
    /// The port advertised for incoming connections.
    pub port: u16,
    /// Whether the compact 6-byte peer list is requested.
    pub compact: bool,
}

impl TrackerConfig {
    /// The standard options: the given id, the default BitTorrent port,
    /// compact replies.
    pub fn new(peer_id: [u8; 20]) -> (r: Self)
        ensures
            r.peer_id == peer_id,
            r.port == 6881,
            r.compact,
    {
        TrackerConfig { peer_id, port: 6881, compact: true }
    }
}

/// A peer endpoint from a compact tracker reply.
#[derive(Debug, PartialEq, Eq, Clone, Copy)]
pub struct Peer {
    /// IPv4 address, four bytes.
    pub ip: [u8; 4],
    /// Listening port.
    pub port: u16,
}

/// Every byte percent-encoded, lower-case hex.
pub open spec fn urlenc(b: Seq<u8>) -> Seq<char>
    decreases b,
{
    if b.len() == 0 {
        Seq::empty()
    } else {
        seq!['%', hex_char(b[0] / 16), hex_char(b[0] % 16)] + urlenc(b.drop_first())
    }
}

/// Decimal digits of `n` as characters.
pub open spec fn dec_chars(n: nat) -> Seq<char> {
    dec_u(n).map_values(|b: u8| b as char)
}

/// The announce query string: the 20 raw peer-id bytes percent-encoded,
/// the port, the progress counters, the compact flag, and the info-hash
/// percent-encoded as raw bytes.
pub open spec fn tracker_query(
    peer_id: Seq<u8>,
    port: u16,
    left: u64,
    compact: bool,
    info_hash: Seq<u8>,
) -> Seq<char> {
    "peer_id="@ + urlenc(peer_id) + "&port="@ + dec_chars(port as nat)
        + "&uploaded=0&downloaded=0&left="@ + dec_chars(left as nat) + "&compact="@ + (
    if compact {
        "1"@
    } else {
        "0"@
    }) + "&info_hash="@ + urlenc(info_hash)
}

/// Percent-encodes every byte for use in an announce query.
pub fn urlencode(bytes: &[u8]) -> (r: String)
    ensures
        r@ == urlenc(bytes@),
{
    let mut out = String::new();
    let mut i: usize = 0;
    while i < bytes.len()
        invariant
            i <= bytes@.len(),
            out@ == urlenc(bytes@.take(i as int)),
        decreases bytes@.len() - i,
    {
        let b = *vstd::slice::slice_index_get(bytes, i);
        push_char(&mut out, '%');
        push_hex_byte(&mut out, b);
        proof {
            assert(bytes@.take(i + 1) =~= bytes@.take(i as int) + seq![bytes@[i as int]]);
            lemma_urlenc_concat(bytes@.take(i as int), seq![bytes@[i as int]]);
            let one = seq![bytes@[i as int]];
            assert(one.drop_first() =~= Seq::<u8>::empty());
            assert(urlenc(one.drop_first()) == Seq::<char>::empty());
            assert(urlenc(one) =~= seq![
                '%',
                hex_char(bytes@[i as int] / 16),
                hex_char(bytes@[i as int] % 16),
            ]);
            assert(out@ =~= urlenc(bytes@.take(i + 1)));
        }
        i = i + 1;
    }
    proof {
        assert(bytes@.take(bytes@.len() as int) =~= bytes@);
    }
    out
}

/// Splitting the bytes splits the encoding.
pub proof fn lemma_urlenc_concat(a: Seq<u8>, b: Seq<u8>)
    ensures
        urlenc(a + b) == urlenc(a) + urlenc(b),
    decreases a,
{
    if a.len() == 0 {
        assert(a + b =~= b);
        assert(urlenc(a) + urlenc(b) =~= urlenc(b));
    } else {
        lemma_urlenc_concat(a.drop_first(), b);
        assert((a + b).drop_first() =~= a.drop_first() + b);
        assert((a + b)[0] == a[0]);
        assert(seq!['%', hex_char(a[0] / 16), hex_char(a[0] % 16)] + (urlenc(a.drop_first())
            + urlenc(b)) =~= (seq!['%', hex_char(a[0] / 16), hex_char(a[0] % 16)] + urlenc(
            a.drop_first(),
        )) + urlenc(b));
    }
}

/// Appends the decimal digits of `n` as characters.
fn push_decimal_chars(s: &mut String, n: u64)
    ensures
        final(s)@ == old(s)@ + dec_chars(n as nat),
{
    let mut tmp: Vec<u8> = Vec::new();
    push_decimal(&mut tmp, n);
    let mut i: usize = 0;
    while i < tmp.len()
        invariant
            i <= tmp@.len(),
            tmp@ == dec_u(n as nat),
            s@ == old(s)@ + tmp@.map_values(|b: u8| b as char).take(i as int),
        decreases tmp@.len() - i,
    {
        let b = tmp[i];
        push_char(s, b as char);
        proof {
            let m = tmp@.map_values(|b2: u8| b2 as char);
            assert(m.take(i + 1) =~= m.take(i as int).push(m[i as int]));
            assert(s@ =~= old(s)@ + m.take(i + 1));
        }
        i = i + 1;
    }
    proof {
        let m = tmp@.map_values(|b2: u8| b2 as char);
        assert(m.take(m.len() as int) =~= m);
    }
}

/// The full announce URL: the announce endpoint, a question mark, and the
/// query of [`tracker_query`].
pub fn tracker_url(
    announce_url: &str,
    info_hash: &[u8; 20],
    left: u64,
    config: &TrackerConfig,
) -> (r: String)
    ensures
        r@ == announce_url@ + seq!['?'] + tracker_query(
            config.peer_id@,
            config.port,
            left,
            config.compact,
            info_hash@,
        ),
{
    let mut url = String::new();
    url.append(announce_url);
    push_char(&mut url, '?');
    url.append("peer_id=");
    let pid = urlencode(config.peer_id.as_slice());
    url.append(pid.as_str());
    url.append("&port=");
    push_decimal_chars(&mut url, config.port as u64);
    url.append("&uploaded=0&downloaded=0&left=");
    push_decimal_chars(&mut url, left);
    url.append("&compact=");
    if config.compact {
        url.append("1");
    } else {
        url.append("0");
    }
    url.append("&info_hash=");
    let enc = urlencode(info_hash.as_slice());
    url.append(enc.as_str());
    proof {
        assert(url@ =~= announce_url@ + seq!['?'] + tracker_query(
            config.peer_id@,
            config.port,
            left,
            config.compact,
            info_hash@,
        ));
    }
    url
}

pub open spec fn key_failure_reason() -> Seq<u8> {
    seq![102u8, 97, 105, 108, 117, 114, 101, 32, 114, 101, 97, 115, 111, 110]
}

pub open spec fn key_peers() -> Seq<u8> {
    seq![112u8, 101, 101, 114, 115]
}

/// The compact peer list of a tracker response body, when the body is a
/// dictionary with a byte-string `peers` entry.
pub open spec fn spec_tracker_peers(b: Seq<u8>) -> Option<Seq<u8>> {
    match spec_decode(b) {
        Ok(BNode::Dict(es)) => match entries_lookup(es, key_peers()) {
            Some(BNode::Bytes(pb)) => Some(pb),
            _ => None,
        },
        _ => None,
    }
}

/// Whether the response is a dictionary with a byte-string failure reason.
pub open spec fn spec_tracker_failure(b: Seq<u8>) -> Option<Seq<u8>> {
    match spec_decode(b) {
        Ok(BNode::Dict(es)) => match entries_lookup(es, key_failure_reason()) {
            Some(BNode::Bytes(r)) => Some(r),
            _ => None,
        },
        _ => None,
    }
}

/// Reads a tracker response body: surfaces the tracker's failure reason if
/// one is given, else the compact peer list, split into endpoints.
pub fn parse_tracker_response(bytes: &[u8]) -> (r: Result<Vec<Peer>, TrackerError>)
    ensures
        match r {
            Ok(ps) => ({
                &&& spec_tracker_failure(bytes@) is None
                &&& spec_tracker_peers(bytes@) matches Some(pb) && pb.len() % 6 == 0 && ps@.len()
                    == pb.len() / 6 && (forall|k: int|
                    0 <= k < ps@.len() ==> (#[trigger] ps@[k]).ip@ == pb.subrange(
                        6 * k,
                        6 * k + 4,
                    ) && ps@[k].port == (pb[6 * k + 4] as int) * 256 + pb[6 * k + 5])
            }),
            Err(e) => match e {
                TrackerError::Bencode(be) => spec_decode(bytes@) == Err::<BNode, BencodeError>(
                    be,
                ),
                TrackerError::TrackerFailure(reason) => spec_tracker_failure(bytes@) == Some(
                    reason@,
                ),
                TrackerError::BadTrackerResponse => spec_tracker_failure(bytes@) is None
                    && spec_decode(bytes@) is Ok && !(spec_tracker_peers(bytes@) matches Some(pb)
                    && pb.len() % 6 == 0),
            },
        },
{
    let v = match Bencode::decode_bytes(bytes) {
        Ok(v) => v,
        Err(e) => {
            return Err(TrackerError::Bencode(e));
        },
    };
    let es = match v {
        BValue::Dict(es) => es,
        _ => {
            return Err(TrackerError::BadTrackerResponse);
        },
    };
    let kf = vec![102u8, 97, 105, 108, 117, 114, 101, 32, 114, 101, 97, 115, 111, 110];
    proof {
        assert(kf@ =~= key_failure_reason());
    }
    match entries_get(&es, kf.as_slice()) {
        Some(fv) => match fv {
            BValue::Bytes(reason) => {
                return Err(TrackerError::TrackerFailure(slice_to_vec(reason.as_slice())));
            },
            _ => {},
        },
        None => {},
    }
    let kp = vec![112u8, 101, 101, 114, 115];
    proof {
        assert(kp@ =~= key_peers());
    }
    let pb = match entries_get(&es, kp.as_slice()) {
        Some(pv) => match pv {
            BValue::Bytes(pb) => pb,
            _ => {
                return Err(TrackerError::BadTrackerResponse);
            },
        },
        None => {
            return Err(TrackerError::BadTrackerResponse);
        },
    };
    if pb.len() % 6 != 0 {
        return Err(TrackerError::BadTrackerResponse);
    }
    let plen = pb.len();
    let total = plen / 6;
    let mut peers: Vec<Peer> = Vec::new();
    let mut k: usize = 0;
    while k < total
        invariant
            k <= total,
            plen == pb@.len(),
            total == pb@.len() / 6,
            pb@.len() % 6 == 0,
            peers@.len() == k,
            forall|m: int|
                0 <= m < k ==> (#[trigger] peers@[m]).ip@ == pb@.subrange(6 * m, 6 * m + 4)
                    && peers@[m].port == (pb@[6 * m + 4] as int) * 256 + pb@[6 * m + 5],
        decreases total - k,
    {
        proof {
            assert(6 * (k + 1) <= 6 * total == plen) by (nonlinear_arith)
                requires
                    k + 1 <= total,
                    total == plen / 6,
                    plen % 6 == 0,
            ;
        }
        let base = 6 * k;
        let ip: [u8; 4] = [pb[base], pb[base + 1], pb[base + 2], pb[base + 3]];
        let port: u16 = (pb[base + 4] as u16) * 256 + (pb[base + 5] as u16);
        proof {
            assert(ip@ =~= pb@.subrange(6 * k, 6 * k + 4));
        }
        peers.push(Peer { ip, port });
        k = k + 1;
    }
    Ok(peers)
}

impl Peer {
    /// Renders the endpoint as `a.b.c.d:p`.
    pub fn to_display_string(&self) -> (r: String)
        ensures
            r@ == dec_chars(self.ip@[0] as nat) + seq!['.'] + dec_chars(self.ip@[1] as nat)
                + seq!['.'] + dec_chars(self.ip@[2] as nat) + seq!['.'] + dec_chars(
                self.ip@[3] as nat,
            ) + seq![':'] + dec_chars(self.port as nat),
    {
        let mut out = String::new();
        push_decimal_chars(&mut out, self.ip[0] as u64);
        push_char(&mut out, '.');
        push_decimal_chars(&mut out, self.ip[1] as u64);
        push_char(&mut out, '.');
        push_decimal_chars(&mut out, self.ip[2] as u64);
        push_char(&mut out, '.');
        push_decimal_chars(&mut out, self.ip[3] as u64);
        push_char(&mut out, ':');
        push_decimal_chars(&mut out, self.port as u64);
        proof {
            assert(out@ =~= dec_chars(self.ip@[0] as nat) + seq!['.'] + dec_chars(
                self.ip@[1] as nat,
            ) + seq!['.'] + dec_chars(self.ip@[2] as nat) + seq!['.'] + dec_chars(
                self.ip@[3] as nat,
            ) + seq![':'] + dec_chars(self.port as nat));
        }
        out
    }
}

} // verus!
