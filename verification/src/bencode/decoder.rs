//! Bencode decoder.
//!
//! Parses the four bencode value kinds from raw bytes. The decoder's exact
//! behaviour — which inputs it accepts, which value each accepted input
//! yields, and which error each rejected input yields — is given by the
//! specification functions [`sd_value`] and [`spec_decode`].
//!
//! Integer and length numerals must be canonical (no leading zeros, no `-0`).
//! Dictionary entries may arrive in any key order; they are folded into
//! strictly ascending key order as they are read, the later binding of a
//! repeated key winning, which is the [`norm`] of the raw parse tree.

use vstd::prelude::*;

use crate::bencode::bvalue::BNode;
use crate::bencode::bvalue::BValue;
use crate::bencode::bvalue::all_digits;
use crate::bencode::bvalue::bentries_of;
use crate::bencode::bvalue::bnode_of;
use crate::bencode::bvalue::bnodes_of;
use crate::bencode::bvalue::digits_val;
use crate::bencode::bvalue::entries_put_first;
use crate::bencode::bvalue::int_lit_val;
use crate::bencode::bvalue::is_canon_digits;
use crate::bencode::bvalue::is_canon_int_lit;
use crate::bencode::bvalue::is_digit;
use crate::bencode::bvalue::sorted_put;
use crate::bencode::bvalue::node_wf;
use crate::bencode::bvalue::nodes_wf;
use crate::bencode::bvalue::entry_vals_wf;
use crate::bencode::bvalue::entries_sorted;
use crate::bencode::bvalue::lex_lt;
use crate::bencode::bvalue::enc;
use crate::bencode::bvalue::enc_seq;
use crate::bencode::bvalue::enc_entries;
use crate::bencode::bvalue::dec_u;
use crate::bencode::bvalue::int_lit;
use crate::bencode::bvalue::lemma_canon_digits_round_trip;
use crate::bencode::bvalue::lemma_dec_u_digits;
use crate::bencode::bvalue::lemma_canon_int_lit_round_trip;
use crate::bencode::bvalue::lemma_sorted_put_sorted;
use vstd::slice::slice_subrange;
use vstd::slice::slice_to_vec;
use vstd::string::StringSliceAdditionalSpecFns;

verus! {

broadcast use vstd::seq_lib::group_seq_properties;

/// A bencode decoding failure. Each rejected input is mapped to exactly one
/// of these by the [`sd_value`] specification.
#[derive(Debug, PartialEq, Eq, Structural, Clone, Copy)]
pub enum BencodeError {
    /// The input ended where more bytes were required.
    UnexpectedEof,
    /// An integer literal is empty, has a stray character, a leading zero,
    /// or is `-0`.
    BadDigit,
    /// An integer literal does not fit in a 64-bit signed integer.
    IntOverflow,
    /// A string length prefix is empty, has a stray character, or has a
    /// leading zero.
    BadLengthPrefix,
    /// A list was opened and never closed.
    UnterminatedList,
    /// A dictionary was opened and never closed.
    UnterminatedDict,
    /// A dictionary key is not a byte string.
    NonStringDictKey,
    /// A value began with a byte that opens no value kind.
    UnhandledPrefix(u8),
    /// Bytes remain after the top-level value.
    TrailingData,
}

impl BencodeError {
    /// A human-readable description of the failure.
    pub fn message(&self) -> &'static str {
        match self {
            BencodeError::UnexpectedEof => "Unexpected end of input",
            BencodeError::BadDigit => "Invalid integer literal",
            BencodeError::IntOverflow => "Integer out of range",
            BencodeError::BadLengthPrefix => "Invalid string length prefix",
            BencodeError::UnterminatedList => "Unterminated list",
            BencodeError::UnterminatedDict => "Unterminated dictionary",
            BencodeError::NonStringDictKey => "Dictionary key must be a string",
            BencodeError::UnhandledPrefix(_) => "Unhandled encoded value",
            BencodeError::TrailingData => "Trailing bytes after value",
        }
    }
}

// ---------------------------------------------------------------------------
// The specification decoder
// ---------------------------------------------------------------------------

/// Position of the first occurrence of `d` at or after `i`.
pub open spec fn sfind(b: Seq<u8>, i: int, d: u8) -> Option<int>
    decreases b.len() - i,
{
    if i < 0 || i >= b.len() {
        None
    } else if b[i] == d {
        Some(i)
    } else {
        sfind(b, i + 1, d)
    }
}

pub proof fn lemma_sfind_bounds(b: Seq<u8>, i: int, d: u8)
    requires
        0 <= i,
    ensures
        match sfind(b, i, d) {
            Some(e) => i <= e < b.len() && b[e] == d && forall|j: int| i <= j < e ==> b[j] != d,
            None => forall|j: int| i <= j < b.len() ==> b[j] != d,
        },
    decreases b.len() - i,
{
    if i < b.len() && b[i] != d {
        lemma_sfind_bounds(b, i + 1, d);
    }
}

/// Parse `i<decimal>e` whose opening byte stands at `i`.
pub open spec fn sd_int(b: Seq<u8>, i: int) -> Result<(BNode, int), BencodeError> {
    match sfind(b, i + 1, 101) {
        None => Err(BencodeError::UnexpectedEof),
        Some(e) => {
            let lit = b.subrange(i + 1, e);
            if !is_canon_int_lit(lit) {
                Err(BencodeError::BadDigit)
            } else if int_lit_val(lit) < i64::MIN as int || int_lit_val(lit) > i64::MAX as int {
                Err(BencodeError::IntOverflow)
            } else {
                Ok((BNode::Int(int_lit_val(lit) as i64), e + 1))
            }
        },
    }
}

/// Parse `<len>:<bytes>` whose first length digit stands at `i`.
pub open spec fn sd_str(b: Seq<u8>, i: int) -> Result<(BNode, int), BencodeError> {
    match sfind(b, i, 58) {
        None => Err(BencodeError::UnexpectedEof),
        Some(c) => {
            let lenlit = b.subrange(i, c);
            if !is_canon_digits(lenlit) {
                Err(BencodeError::BadLengthPrefix)
            } else if c + 1 + digits_val(lenlit) > b.len() {
                Err(BencodeError::UnexpectedEof)
            } else {
                Ok((BNode::Bytes(b.subrange(c + 1, c + 1 + digits_val(lenlit))), c + 1
                    + digits_val(lenlit) as int))
            }
        },
    }
}

/// An end-of-input failure inside a dictionary reads as the dictionary left
/// unterminated.
pub open spec fn dict_err(e: BencodeError) -> BencodeError {
    if e == BencodeError::UnexpectedEof {
        BencodeError::UnterminatedDict
    } else {
        e
    }
}

/// Parse one value whose first byte stands at `i`. Yields the raw parse
/// tree — dictionary entries in wire order — and the position one past it.
pub open spec fn sd_value(b: Seq<u8>, i: int) -> Result<(BNode, int), BencodeError>
    decreases b.len() - i, 0int,
{
    if i < 0 || i >= b.len() {
        Err(BencodeError::UnexpectedEof)
    } else if b[i] == 105 {
        sd_int(b, i)
    } else if b[i] == 108 {
        match sd_items(b, i + 1) {
            Ok((items, j)) => Ok((BNode::List(items), j)),
            Err(e) => Err(e),
        }
    } else if b[i] == 100 {
        match sd_entries(b, i + 1) {
            Ok((es, j)) => Ok((BNode::Dict(es), j)),
            Err(e) => Err(e),
        }
    } else if is_digit(b[i]) {
        sd_str(b, i)
    } else {
        Err(BencodeError::UnhandledPrefix(b[i]))
    }
}

/// Parse list items up to and past the closing `e`.
pub open spec fn sd_items(b: Seq<u8>, i: int) -> Result<(Seq<BNode>, int), BencodeError>
    decreases b.len() - i, 1int,
{
    if i < 0 || i >= b.len() {
        Err(BencodeError::UnterminatedList)
    } else if b[i] == 101 {
        Ok((Seq::empty(), i + 1))
    } else {
        match sd_value(b, i) {
            Err(e) => Err(e),
            Ok((v, j)) => if j <= i || j > b.len() {
                // a parse step always advances; this arm only keeps the
                // recursion well founded
                Err(BencodeError::UnterminatedList)
            } else {
                match sd_items(b, j) {
                    Err(e) => Err(e),
                    Ok((rest, j2)) => Ok((seq![v] + rest, j2)),
                }
            },
        }
    }
}

/// Parse dictionary entries, in wire order, up to and past the closing `e`.
pub open spec fn sd_entries(b: Seq<u8>, i: int) -> Result<
    (Seq<(Seq<u8>, BNode)>, int),
    BencodeError,
>
    decreases b.len() - i, 1int,
{
    if i < 0 || i >= b.len() {
        Err(BencodeError::UnterminatedDict)
    } else if b[i] == 101 {
        Ok((Seq::empty(), i + 1))
    } else {
        match sd_value(b, i) {
            Err(e) => Err(dict_err(e)),
            Ok((kv, j)) => match kv {
                BNode::Bytes(k) => if j <= i || j > b.len() {
                    Err(BencodeError::UnterminatedDict)
                } else {
                    match sd_value(b, j) {
                        Err(e) => Err(dict_err(e)),
                        Ok((v, j2)) => if j2 <= j || j2 > b.len() {
                            Err(BencodeError::UnterminatedDict)
                        } else {
                            match sd_entries(b, j2) {
                                Err(e) => Err(e),
                                Ok((rest, j3)) => Ok((seq![(k, v)] + rest, j3)),
                            }
                        },
                    }
                },
                _ => Err(BencodeError::NonStringDictKey),
            },
        }
    }
}

// ---------------------------------------------------------------------------
// Normalisation of the raw parse tree
// ---------------------------------------------------------------------------

/// Fold every dictionary of a raw parse tree into strictly ascending key
/// order, the later binding of a repeated key winning.
pub open spec fn norm(v: BNode) -> BNode
    decreases v,
{
    match v {
        BNode::Int(n) => BNode::Int(n),
        BNode::Bytes(s) => BNode::Bytes(s),
        BNode::List(items) => BNode::List(norm_seq(items)),
        BNode::Dict(es) => BNode::Dict(norm_entries(es)),
    }
}

pub open spec fn norm_seq(items: Seq<BNode>) -> Seq<BNode>
    decreases items,
{
    if items.len() == 0 {
        Seq::empty()
    } else {
        seq![norm(items[0])] + norm_seq(items.drop_first())
    }
}

pub open spec fn norm_entries(es: Seq<(Seq<u8>, BNode)>) -> Seq<(Seq<u8>, BNode)>
    decreases es,
{
    if es.len() == 0 {
        Seq::empty()
    } else {
        sorted_put(norm_entries(es.drop_first()), es[0].0, norm(es[0].1))
    }
}

/// What decoding a whole input yields: the normalised value when the input
/// parses and is consumed entirely, the error otherwise.
pub open spec fn spec_decode(b: Seq<u8>) -> Result<BNode, BencodeError> {
    match sd_value(b, 0) {
        Err(e) => Err(e),
        Ok((v, j)) => if j == b.len() {
            Ok(norm(v))
        } else {
            Err(BencodeError::TrailingData)
        },
    }
}

/// Contract of one parsing step starting at `i`: the result and the final
/// position agree with [`sd_value`], normalised.
pub open spec fn value_post(
    b: Seq<u8>,
    i: int,
    r: Result<BValue, BencodeError>,
    pos: int,
) -> bool {
    match sd_value(b, i) {
        Ok((v, j)) => r matches Ok(bv) && bnode_of(bv) == norm(v) && pos == j,
        Err(e) => r matches Err(e2) && e2 == e,
    }
}

// ---------------------------------------------------------------------------
// The round-trip law
// ---------------------------------------------------------------------------

/// A parsed value spans `[i, j)` and, when well formed, re-encodes to
/// exactly the bytes it was parsed from.
pub proof fn lemma_rt_value(b: Seq<u8>, i: int)
    requires
        sd_value(b, i) is Ok,
    ensures
        ({
            let (v, j) = sd_value(b, i)->Ok_0;
            &&& i < j <= b.len()
            &&& (node_wf(v) ==> enc(v) == b.subrange(i, j))
        }),
    decreases b.len() - i, 0int,
{
    let (v, j) = sd_value(b, i)->Ok_0;
    if b[i] == 105 {
        lemma_sfind_bounds(b, i + 1, 101);
        let e = sfind(b, i + 1, 101)->0;
        let lit = b.subrange(i + 1, e);
        lemma_canon_int_lit_round_trip(lit);
        let n = int_lit_val(lit);
        assert(v == BNode::Int(n as i64) && j == e + 1);
        assert((n as i64) as int == n);
        assert(enc(v) == seq![105u8] + int_lit(n) + seq![101u8]);
        assert(b.subrange(i, j) =~= seq![b[i]] + lit + seq![b[e]]);
    } else if b[i] == 108 {
        lemma_rt_items(b, i + 1);
        let (items, j2) = sd_items(b, i + 1)->Ok_0;
        assert(v == BNode::List(items) && j == j2);
        if node_wf(v) {
            assert(node_wf(BNode::List(items)));
            assert(nodes_wf(items));
            assert(enc_seq(items) == b.subrange(i + 1, j - 1));
            assert(enc(v) == seq![108u8] + enc_seq(items) + seq![101u8]);
            assert(b.subrange(i, j) =~= seq![b[i]] + b.subrange(i + 1, j - 1) + seq![b[j - 1]]);
        }
    } else if b[i] == 100 {
        lemma_rt_entries(b, i + 1);
        let (es, j2) = sd_entries(b, i + 1)->Ok_0;
        assert(v == BNode::Dict(es) && j == j2);
        if node_wf(v) {
            assert(node_wf(BNode::Dict(es)));
            assert(entry_vals_wf(es));
            assert(enc_entries(es) == b.subrange(i + 1, j - 1));
            assert(enc(v) == seq![100u8] + enc_entries(es) + seq![101u8]);
            assert(b.subrange(i, j) =~= seq![b[i]] + b.subrange(i + 1, j - 1) + seq![b[j - 1]]);
        }
    } else {
        lemma_sfind_bounds(b, i, 58);
        let c = sfind(b, i, 58)->0;
        let lenlit = b.subrange(i, c);
        lemma_canon_digits_round_trip(lenlit);
        let n = digits_val(lenlit);
        let s = b.subrange(c + 1, c + 1 + n);
        assert(v == BNode::Bytes(s) && j == c + 1 + n);
        assert(s.len() == n);
        assert(enc(v) == dec_u(s.len()) + seq![58u8] + s);
        assert(b.subrange(i, j) =~= lenlit + seq![b[c]] + s);
    }
}

/// Parsed list items span `[i, j - 1)` before their closing `e` and, when
/// well formed, re-encode to exactly those bytes.
pub proof fn lemma_rt_items(b: Seq<u8>, i: int)
    requires
        sd_items(b, i) is Ok,
    ensures
        ({
            let (items, j) = sd_items(b, i)->Ok_0;
            &&& i < j <= b.len()
            &&& b[j - 1] == 101
            &&& (nodes_wf(items) ==> enc_seq(items) == b.subrange(i, j - 1))
        }),
    decreases b.len() - i, 1int,
{
    let (items, j) = sd_items(b, i)->Ok_0;
    if b[i] == 101 {
        assert(b.subrange(i, i) =~= Seq::<u8>::empty());
    } else {
        lemma_rt_value(b, i);
        let (v0, j1) = sd_value(b, i)->Ok_0;
        lemma_rt_items(b, j1);
        let (rest, j2) = sd_items(b, j1)->Ok_0;
        assert(items == seq![v0] + rest && j == j2);
        assert(items[0] == v0);
        assert(items.drop_first() =~= rest);
        if nodes_wf(items) {
            assert(node_wf(v0) && nodes_wf(rest));
            assert(enc_seq(items) == enc(v0) + enc_seq(rest));
            assert(b.subrange(i, j2 - 1) =~= b.subrange(i, j1) + b.subrange(j1, j2 - 1));
        }
    }
}

/// Parsed dictionary entries span `[i, j - 1)` before their closing `e`
/// and, when their values are well formed, re-encode to exactly those bytes.
pub proof fn lemma_rt_entries(b: Seq<u8>, i: int)
    requires
        sd_entries(b, i) is Ok,
    ensures
        ({
            let (es, j) = sd_entries(b, i)->Ok_0;
            &&& i < j <= b.len()
            &&& b[j - 1] == 101
            &&& (entry_vals_wf(es) ==> enc_entries(es) == b.subrange(i, j - 1))
        }),
    decreases b.len() - i, 1int,
{
    let (es, j) = sd_entries(b, i)->Ok_0;
    if b[i] == 101 {
        assert(b.subrange(i, i) =~= Seq::<u8>::empty());
    } else {
        lemma_rt_value(b, i);
        let (kv, j1) = sd_value(b, i)->Ok_0;
        let k = kv->Bytes_0;
        lemma_rt_value(b, j1);
        let (v, j2) = sd_value(b, j1)->Ok_0;
        lemma_rt_entries(b, j2);
        let (rest, j3) = sd_entries(b, j2)->Ok_0;
        assert(es == seq![(k, v)] + rest && j == j3);
        assert(es[0] == (k, v));
        assert(es.drop_first() =~= rest);
        if entry_vals_wf(es) {
            assert(node_wf(v) && entry_vals_wf(rest));
            assert(node_wf(kv));
            assert(enc(kv) == b.subrange(i, j1));
            assert(enc(kv) == dec_u(k.len()) + seq![58u8] + k);
            assert(enc(v) == b.subrange(j1, j2));
            assert(enc_entries(rest) == b.subrange(j2, j3 - 1));
            assert(enc_entries(es) == dec_u(k.len()) + seq![58u8] + k + enc(v) + enc_entries(
                rest,
            ));
            assert(b.subrange(i, j3 - 1) =~= b.subrange(i, j1) + b.subrange(j1, j2) + b.subrange(
                j2,
                j3 - 1,
            ));
            assert(enc_entries(es) =~= b.subrange(i, j1) + b.subrange(j1, j2) + b.subrange(
                j2,
                j3 - 1,
            ));
        }
    }
}

/// The delimiter search lands on a known first occurrence.
proof fn lemma_sfind_at(b: Seq<u8>, i: int, k: int, d: u8)
    requires
        0 <= i <= k < b.len(),
        b[k] == d,
        forall|j: int| i <= j < k ==> b[j] != d,
    ensures
        sfind(b, i, d) == Some(k),
    decreases k - i,
{
    if i < k {
        lemma_sfind_at(b, i + 1, k, d);
    }
}

/// A window of a buffer known byte for byte.
proof fn lemma_window_pointwise(b: Seq<u8>, i: int, w: Seq<u8>)
    requires
        0 <= i,
        i + w.len() <= b.len(),
        b.subrange(i, i + w.len()) == w,
    ensures
        forall|j: int| 0 <= j < w.len() ==> b[i + j] == #[trigger] w[j],
{
    assert forall|j: int| 0 <= j < w.len() implies b[i + j] == #[trigger] w[j] by {
        assert(w[j] == b.subrange(i, i + w.len() as int)[j]);
    }
}

/// A sub-window of a known window is the matching part of it.
proof fn lemma_window_within(b: Seq<u8>, i: int, w: Seq<u8>, lo: int, hi: int)
    requires
        0 <= i,
        i + w.len() <= b.len(),
        b.subrange(i, i + w.len()) == w,
        0 <= lo <= hi <= w.len(),
    ensures
        b.subrange(i + lo, i + hi) == w.subrange(lo, hi),
{
    lemma_window_pointwise(b, i, w);
    assert forall|j: int| 0 <= j < hi - lo implies b.subrange(i + lo, i + hi)[j]
        == w.subrange(lo, hi)[j] by {
        assert(b[i + (lo + j)] == w[lo + j]);
    }
    assert(b.subrange(i + lo, i + hi) =~= w.subrange(lo, hi));
}

/// A wire form is nonempty and never begins with a terminator byte.
proof fn lemma_enc_first_byte(v: BNode)
    ensures
        enc(v).len() >= 1,
        enc(v)[0] != 101,
        enc(v)[0] != 58,
{
    match v {
        BNode::Int(_) => {},
        BNode::Bytes(s) => {
            lemma_dec_u_digits(s.len());
            assert(is_digit(dec_u(s.len())[0]));
            assert(enc(v)[0] == dec_u(s.len())[0]);
        },
        BNode::List(_) => {},
        BNode::Dict(_) => {},
    }
}

/// The wire form of a byte string, standing at `i` in a larger buffer,
/// parses back to exactly that byte string.
proof fn lemma_enc_parses_bytes(b: Seq<u8>, i: int, sdata: Seq<u8>)
    requires
        0 <= i,
        i + enc(BNode::Bytes(sdata)).len() <= b.len(),
        b.subrange(i, i + enc(BNode::Bytes(sdata)).len()) == enc(BNode::Bytes(sdata)),
    ensures
        sd_value(b, i) == Ok::<(BNode, int), BencodeError>(
            (BNode::Bytes(sdata), i + enc(BNode::Bytes(sdata)).len()),
        ),
{
    let w = enc(BNode::Bytes(sdata));
    let dl = dec_u(sdata.len());
    lemma_dec_u_digits(sdata.len());
    assert(w =~= dl + seq![58u8] + sdata);
    lemma_window_pointwise(b, i, w);
    assert forall|j: int| i <= j < i + dl.len() implies b[j] != 58 && is_digit(
        #[trigger] b[j],
    ) by {
        assert(b[j] == w[j - i]);
        assert(w[j - i] == dl[j - i]);
        assert(is_digit(dl[j - i]));
    }
    assert(b[i + dl.len()] == w[dl.len() as int] == 58);
    lemma_sfind_at(b, i, i + dl.len(), 58);
    let c = i + dl.len() as int;
    lemma_window_within(b, i, w, 0, dl.len() as int);
    assert(b.subrange(i, c) =~= dl) by {
        assert(w.subrange(0, dl.len() as int) =~= dl);
    }
    assert(digits_val(dl) == sdata.len());
    lemma_window_within(b, i, w, dl.len() as int + 1, w.len() as int);
    assert(b.subrange(c + 1, c + 1 + sdata.len()) =~= sdata) by {
        assert(w.subrange(dl.len() as int + 1, w.len() as int) =~= sdata);
    }
    assert(is_digit(b[i]));
}

/// The wire form of a well-formed value, standing at `i` in a larger
/// buffer, parses back to exactly that value.
proof fn lemma_enc_parses_value(b: Seq<u8>, i: int, v: BNode)
    requires
        node_wf(v),
        0 <= i,
        i + enc(v).len() <= b.len(),
        b.subrange(i, i + enc(v).len()) == enc(v),
    ensures
        sd_value(b, i) == Ok::<(BNode, int), BencodeError>((v, i + enc(v).len())),
    decreases v, 0int,
{
    let w = enc(v);
    lemma_window_pointwise(b, i, w);
    match v {
        BNode::Int(m) => {
            let lit = int_lit(m as int);
            assert(w =~= seq![105u8] + lit + seq![101u8]);
            assert(b[i] == w[0] == 105);
            if m < 0 {
                lemma_dec_u_digits((-(m as int)) as nat);
                assert(lit =~= seq![45u8] + dec_u((-(m as int)) as nat));
                assert(lit.drop_first() =~= dec_u((-(m as int)) as nat));
                assert(is_canon_int_lit(lit));
                assert(int_lit_val(lit) == m as int);
            } else {
                lemma_dec_u_digits(m as nat);
                assert(lit =~= dec_u(m as nat));
                assert(is_canon_int_lit(lit));
                assert(int_lit_val(lit) == m as int);
            }
            assert forall|j: int| i + 1 <= j < i + 1 + lit.len() implies #[trigger] b[j]
                != 101 by {
                let off = j - (i + 1);
                assert(b[j] == w[1 + off]);
                assert(w[1 + off] == lit[off]);
                if m < 0 {
                    if off > 0 {
                        assert(lit[off] == dec_u((-(m as int)) as nat)[off - 1]);
                        assert(is_digit(lit[off]));
                    }
                } else {
                    assert(is_digit(lit[off]));
                }
            }
            assert(b[i + 1 + lit.len()] == w[1 + lit.len() as int] == 101);
            lemma_sfind_at(b, i + 1, i + 1 + lit.len(), 101);
            let e = i + 1 + lit.len() as int;
            lemma_window_within(b, i, w, 1, 1 + lit.len() as int);
            assert(b.subrange(i + 1, e) =~= lit) by {
                assert(w.subrange(1, 1 + lit.len() as int) =~= lit);
            }
            assert((int_lit_val(lit) as i64) == m);
        },
        BNode::Bytes(sdata) => {
            lemma_enc_parses_bytes(b, i, sdata);
        },
        BNode::List(items) => {
            assert(w =~= seq![108u8] + enc_seq(items) + seq![101u8]);
            assert(b[i] == w[0] == 108);
            lemma_window_within(b, i, w, 1, 1 + enc_seq(items).len() as int);
            assert(b.subrange(i + 1, i + 1 + enc_seq(items).len()) =~= enc_seq(items)) by {
                assert(w.subrange(1, 1 + enc_seq(items).len() as int) =~= enc_seq(items));
            }
            assert(b[i + 1 + enc_seq(items).len()] == w[1 + enc_seq(items).len() as int] == 101);
            assert(node_wf(BNode::List(items)));
            lemma_enc_parses_items(b, i + 1, items);
        },
        BNode::Dict(es) => {
            assert(w =~= seq![100u8] + enc_entries(es) + seq![101u8]);
            assert(b[i] == w[0] == 100);
            lemma_window_within(b, i, w, 1, 1 + enc_entries(es).len() as int);
            assert(b.subrange(i + 1, i + 1 + enc_entries(es).len()) =~= enc_entries(es)) by {
                assert(w.subrange(1, 1 + enc_entries(es).len() as int) =~= enc_entries(es));
            }
            assert(b[i + 1 + enc_entries(es).len()] == w[1 + enc_entries(es).len() as int]
                == 101);
            assert(node_wf(BNode::Dict(es)));
            lemma_enc_parses_entries(b, i + 1, es);
        },
    }
}

/// The wire form of well-formed list items followed by a closing `e`
/// parses back to exactly those items.
proof fn lemma_enc_parses_items(b: Seq<u8>, i: int, items: Seq<BNode>)
    requires
        nodes_wf(items),
        0 <= i,
        i + enc_seq(items).len() < b.len(),
        b.subrange(i, i + enc_seq(items).len()) == enc_seq(items),
        b[i + enc_seq(items).len()] == 101,
    ensures
        sd_items(b, i) == Ok::<(Seq<BNode>, int), BencodeError>(
            (items, i + enc_seq(items).len() + 1),
        ),
    decreases items, 1int,
{
    if items.len() == 0 {
        assert(enc_seq(items).len() == 0);
        assert(b[i] == 101);
        assert(items =~= Seq::<BNode>::empty());
    } else {
        let v0 = items[0];
        let rest = items.drop_first();
        let w0 = enc(v0);
        let ws = enc_seq(items);
        assert(ws == w0 + enc_seq(rest));
        lemma_enc_first_byte(v0);
        lemma_window_pointwise(b, i, ws);
        assert(b[i] == ws[0] && ws[0] == w0[0]);
        assert(b[i] != 101);
        lemma_window_within(b, i, ws, 0, w0.len() as int);
        assert(b.subrange(i, i + w0.len()) =~= w0) by {
            assert(ws.subrange(0, w0.len() as int) =~= w0);
        }
        assert(node_wf(v0) && nodes_wf(rest));
        lemma_enc_parses_value(b, i, v0);
        let j = i + w0.len() as int;
        lemma_window_within(b, i, ws, w0.len() as int, ws.len() as int);
        assert(b.subrange(j, j + enc_seq(rest).len()) =~= enc_seq(rest)) by {
            assert(ws.subrange(w0.len() as int, ws.len() as int) =~= enc_seq(rest));
        }
        assert(b[j + enc_seq(rest).len()] == 101);
        lemma_enc_parses_items(b, j, rest);
        assert(seq![v0] + rest =~= items);
    }
}

/// The wire form of well-formed dictionary entries followed by a closing
/// `e` parses back to exactly those entries.
proof fn lemma_enc_parses_entries(b: Seq<u8>, i: int, es: Seq<(Seq<u8>, BNode)>)
    requires
        entry_vals_wf(es),
        0 <= i,
        i + enc_entries(es).len() < b.len(),
        b.subrange(i, i + enc_entries(es).len()) == enc_entries(es),
        b[i + enc_entries(es).len()] == 101,
    ensures
        sd_entries(b, i) == Ok::<(Seq<(Seq<u8>, BNode)>, int), BencodeError>(
            (es, i + enc_entries(es).len() + 1),
        ),
    decreases es, 1int,
{
    if es.len() == 0 {
        assert(enc_entries(es).len() == 0);
        assert(b[i] == 101);
        assert(es =~= Seq::<(Seq<u8>, BNode)>::empty());
    } else {
        let k0 = es[0].0;
        let v0 = es[0].1;
        let rest = es.drop_first();
        let wk = enc(BNode::Bytes(k0));
        let wv = enc(v0);
        let ws = enc_entries(es);
        assert(wk =~= dec_u(k0.len()) + seq![58u8] + k0);
        assert(ws =~= wk + wv + enc_entries(rest));
        lemma_enc_first_byte(BNode::Bytes(k0));
        lemma_window_pointwise(b, i, ws);
        assert(b[i] == ws[0] && ws[0] == wk[0]);
        assert(b[i] != 101);
        lemma_window_within(b, i, ws, 0, wk.len() as int);
        assert(b.subrange(i, i + wk.len()) =~= wk) by {
            assert(ws.subrange(0, wk.len() as int) =~= wk);
        }
        lemma_enc_parses_bytes(b, i, k0);
        let j = i + wk.len() as int;
        assert(node_wf(v0) && entry_vals_wf(rest));
        lemma_window_within(b, i, ws, wk.len() as int, wk.len() as int + wv.len() as int);
        assert(b.subrange(j, j + wv.len()) =~= wv) by {
            assert(ws.subrange(wk.len() as int, wk.len() as int + wv.len() as int) =~= wv);
        }
        lemma_enc_parses_value(b, j, v0);
        let j2 = j + wv.len() as int;
        lemma_window_within(b, i, ws, wk.len() as int + wv.len() as int, ws.len() as int);
        assert(b.subrange(j2, j2 + enc_entries(rest).len()) =~= enc_entries(rest)) by {
            assert(ws.subrange(wk.len() as int + wv.len() as int, ws.len() as int)
                =~= enc_entries(rest));
        }
        assert(b[j2 + enc_entries(rest).len()] == 101);
        lemma_enc_parses_entries(b, j2, rest);
        assert(seq![(k0, v0)] + rest =~= es);
    }
}

/// Normalisation always yields a well-formed value: every dictionary of
/// the result stands in strictly ascending key order.
pub proof fn lemma_norm_wf(v: BNode)
    ensures
        node_wf(norm(v)),
    decreases v,
{
    match v {
        BNode::Int(_) => {},
        BNode::Bytes(_) => {},
        BNode::List(items) => {
            lemma_norm_seq_wf(items);
        },
        BNode::Dict(es) => {
            lemma_norm_entries_wf(es);
        },
    }
}

proof fn lemma_norm_seq_wf(items: Seq<BNode>)
    ensures
        nodes_wf(norm_seq(items)),
    decreases items,
{
    if items.len() > 0 {
        lemma_norm_wf(items[0]);
        lemma_norm_seq_wf(items.drop_first());
        assert((seq![norm(items[0])] + norm_seq(items.drop_first())).drop_first() =~= norm_seq(
            items.drop_first(),
        ));
    }
}

proof fn lemma_norm_entries_wf(es: Seq<(Seq<u8>, BNode)>)
    ensures
        entries_sorted(norm_entries(es)),
        entry_vals_wf(norm_entries(es)),
    decreases es,
{
    if es.len() > 0 {
        lemma_norm_entries_wf(es.drop_first());
        lemma_norm_wf(es[0].1);
        lemma_sorted_put_sorted(norm_entries(es.drop_first()), es[0].0, norm(es[0].1));
        lemma_sorted_put_vals_wf(norm_entries(es.drop_first()), es[0].0, norm(es[0].1));
    }
}

/// Inserting a well-formed value keeps every entry value well formed.
proof fn lemma_sorted_put_vals_wf(es: Seq<(Seq<u8>, BNode)>, k: Seq<u8>, v: BNode)
    requires
        entry_vals_wf(es),
        node_wf(v),
    ensures
        entry_vals_wf(sorted_put(es, k, v)),
    decreases es.len(),
{
    if es.len() == 0 {
        assert(seq![(k, v)].drop_first() =~= Seq::<(Seq<u8>, BNode)>::empty());
    } else if lex_lt(k, es[0].0) {
        assert((seq![(k, v)] + es).drop_first() =~= es);
    } else if k == es[0].0 {
    } else {
        lemma_sorted_put_vals_wf(es.drop_first(), k, v);
        let r = seq![es[0]] + sorted_put(es.drop_first(), k, v);
        assert(r.drop_first() =~= sorted_put(es.drop_first(), k, v));
        assert(r[0] == es[0]);
    }
}

/// Bencode round trip, decode side: the wire form of any well-formed value
/// decodes back to exactly that value, every byte consumed.
pub proof fn lemma_encode_decode_round_trip(v: BNode)
    requires
        node_wf(v),
    ensures
        spec_decode(enc(v)) == Ok::<BNode, BencodeError>(v),
{
    let b = enc(v);
    assert(b.subrange(0, b.len() as int) =~= b);
    lemma_enc_first_byte(v);
    lemma_enc_parses_value(b, 0, v);
    lemma_norm_id(v);
}

/// Normalisation leaves a well-formed value unchanged.
pub proof fn lemma_norm_id(v: BNode)
    requires
        node_wf(v),
    ensures
        norm(v) == v,
    decreases v,
{
    match v {
        BNode::Int(_) => {},
        BNode::Bytes(_) => {},
        BNode::List(items) => {
            lemma_norm_seq_id(items);
        },
        BNode::Dict(es) => {
            lemma_norm_entries_id(es);
        },
    }
}

proof fn lemma_norm_seq_id(items: Seq<BNode>)
    requires
        nodes_wf(items),
    ensures
        norm_seq(items) == items,
    decreases items,
{
    if items.len() > 0 {
        lemma_norm_id(items[0]);
        lemma_norm_seq_id(items.drop_first());
        assert(seq![items[0]] + items.drop_first() =~= items);
    } else {
        assert(norm_seq(items) =~= items);
    }
}

proof fn lemma_norm_entries_id(es: Seq<(Seq<u8>, BNode)>)
    requires
        entries_sorted(es),
        entry_vals_wf(es),
    ensures
        norm_entries(es) == es,
    decreases es,
{
    if es.len() > 0 {
        let tail = es.drop_first();
        assert forall|m: int, n: int|
            #![trigger tail[m], tail[n]]
            0 <= m < n < tail.len() implies lex_lt(tail[m].0, tail[n].0) by {
            assert(tail[m] == es[m + 1] && tail[n] == es[n + 1]);
        }
        lemma_norm_entries_id(tail);
        lemma_norm_id(es[0].1);
        if tail.len() == 0 {
            assert(norm_entries(es) == seq![(es[0].0, es[0].1)]);
            assert(seq![(es[0].0, es[0].1)] =~= es);
        } else {
            assert(tail[0] == es[1]);
            assert(lex_lt(es[0].0, tail[0].0));
            assert(norm_entries(es) == seq![(es[0].0, es[0].1)] + tail);
            assert(seq![(es[0].0, es[0].1)] + tail =~= es);
        }
    } else {
        assert(norm_entries(es) =~= es);
    }
}

/// Bencode round trip: every accepted byte sequence whose dictionaries
/// already stand in strictly ascending key order on the wire re-encodes,
/// from its decoded value, to exactly itself.
pub proof fn lemma_decode_encode_round_trip(b: Seq<u8>)
    requires
        spec_decode(b) is Ok,
        node_wf(sd_value(b, 0)->Ok_0.0),
    ensures
        enc(spec_decode(b)->Ok_0) == b,
{
    lemma_rt_value(b, 0);
    lemma_norm_id(sd_value(b, 0)->Ok_0.0);
    assert(b.subrange(0, b.len() as int) =~= b);
}

// ---------------------------------------------------------------------------
// Digit helpers
// ---------------------------------------------------------------------------

/// The value of a digit string never shrinks as digits are appended.
proof fn lemma_digits_val_mono(s: Seq<u8>, j: int)
    requires
        0 <= j <= s.len(),
    ensures
        digits_val(s.take(j)) <= digits_val(s),
    decreases s.len() - j,
{
    if j < s.len() {
        assert(s.take(j + 1).drop_last() =~= s.take(j));
        assert(s.take(j + 1).last() == s[j]);
        assert(digits_val(s.take(j + 1)) == digits_val(s.take(j)) * 10 + (s[j] - 48) as nat);
        assert(digits_val(s.take(j)) * 10 >= digits_val(s.take(j))) by (nonlinear_arith);
        lemma_digits_val_mono(s, j + 1);
    } else {
        assert(s.take(j) =~= s);
    }
}

/// Whether `s` is a canonical decimal numeral.
fn check_canon_digits(s: &[u8]) -> (r: bool)
    ensures
        r == is_canon_digits(s@),
{
    if s.len() == 0 {
        return false;
    }
    if s.len() > 1 && s[0] == 48 {
        return false;
    }
    let mut i: usize = 0;
    while i < s.len()
        invariant
            i <= s@.len(),
            forall|j: int| 0 <= j < i ==> is_digit(#[trigger] s@[j]),
        decreases s@.len() - i,
    {
        let c = s[i];
        if c < 48 || c > 57 {
            return false;
        }
        i = i + 1;
    }
    true
}

/// The numeric value of a canonical numeral, or `None` when it exceeds the
/// 64-bit unsigned range.
fn digits_value_u64(s: &[u8]) -> (r: Option<u64>)
    requires
        all_digits(s@),
    ensures
        match r {
            Some(v) => v as nat == digits_val(s@),
            None => digits_val(s@) > u64::MAX as nat,
        },
{
    let mut acc: u64 = 0;
    let mut i: usize = 0;
    while i < s.len()
        invariant
            i <= s@.len(),
            all_digits(s@),
            acc as nat == digits_val(s@.take(i as int)),
        decreases s@.len() - i,
    {
        let d: u8 = s[i] - 48;
        proof {
            assert(s@.take(i + 1).drop_last() =~= s@.take(i as int));
            assert(s@.take(i + 1).last() == s@[i as int]);
        }
        if acc > (u64::MAX - d as u64) / 10 {
            proof {
                assert(acc * 10 + d > u64::MAX) by (nonlinear_arith)
                    requires
                        acc > (u64::MAX - d as u64) / 10,
                        d < 10,
                ;
                assert(digits_val(s@.take(i + 1)) > u64::MAX as nat);
                lemma_digits_val_mono(s@, i + 1);
            }
            return None;
        }
        acc = acc * 10 + d as u64;
        i = i + 1;
    }
    proof {
        assert(s@.take(s@.len() as int) =~= s@);
    }
    Some(acc)
}

// ---------------------------------------------------------------------------
// The decoder
// ---------------------------------------------------------------------------

/// A streaming bencode decoder: holds the input bytes and the position of
/// the next byte to read.
#[derive(Debug)]
pub struct Decoder<'a> {
    pub input: &'a [u8],
    pub position: usize,
}

impl<'a> Decoder<'a> {
    pub open spec fn wf(&self) -> bool {
        self.position <= self.input@.len()
    }

    /// Creates a decoder over the UTF-8 bytes of a string.
    pub fn new(input: &'a str) -> (r: Self)
        ensures
            r.input@ == input.spec_bytes(),
            r.position == 0,
            r.wf(),
    {
        Decoder { input: input.as_bytes(), position: 0 }
    }

    /// Creates a decoder over raw bytes.
    pub fn new_from_bytes(input: &'a [u8]) -> (r: Self)
        ensures
            r.input@ == input@,
            r.position == 0,
            r.wf(),
    {
        Decoder { input, position: 0 }
    }

    /// Parses one complete value; all input bytes must be consumed.
    pub fn parse(&mut self) -> (r: Result<BValue, BencodeError>)
        requires
            old(self).wf(),
        ensures
            final(self).wf(),
            final(self).input == old(self).input,
            match sd_value(old(self).input@, old(self).position as int) {
                Ok((v, j)) => if j == old(self).input@.len() {
                    r matches Ok(bv) && bnode_of(bv) == norm(v)
                } else {
                    r matches Err(e2) && e2 == BencodeError::TrailingData
                },
                Err(e) => r matches Err(e2) && e2 == e,
            },
            r matches Ok(bv) ==> node_wf(bv@),
    {
        let v = self.parse_value();
        match v {
            Ok(bv) => {
                if self.position == self.input.len() {
                    proof {
                        let raw = sd_value(old(self).input@, old(self).position as int)->Ok_0.0;
                        lemma_norm_wf(raw);
                    }
                    Ok(bv)
                } else {
                    Err(BencodeError::TrailingData)
                }
            },
            Err(e) => Err(e),
        }
    }

    /// The next byte, if any, without consuming it.
    fn peek(&self) -> (r: Option<u8>)
        requires
            self.wf(),
        ensures
            r == (if self.position < self.input@.len() {
                Some(self.input@[self.position as int])
            } else {
                None::<u8>
            }),
    {
        if self.position < self.input.len() {
            Some(*slice_index_get_u8(self.input, self.position))
        } else {
            None
        }
    }

    /// Consumes and returns the next byte.
    fn consume(&mut self) -> (r: Option<u8>)
        requires
            old(self).wf(),
        ensures
            final(self).wf(),
            final(self).input == old(self).input,
            r == (if old(self).position < old(self).input@.len() {
                Some(old(self).input@[old(self).position as int])
            } else {
                None::<u8>
            }),
            final(self).position == (if old(self).position < old(self).input@.len() {
                old(self).position + 1
            } else {
                old(self).position as int
            }),
    {
        if self.position < self.input.len() {
            let b = *slice_index_get_u8(self.input, self.position);
            self.position = self.position + 1;
            Some(b)
        } else {
            None
        }
    }

    /// Consumes bytes up to and past the first `delimiter`, returning what
    /// stood before it.
    fn consume_until(&mut self, delimiter: u8) -> (r: Result<&'a [u8], BencodeError>)
        requires
            old(self).wf(),
        ensures
            final(self).wf(),
            final(self).input == old(self).input,
            match sfind(old(self).input@, old(self).position as int, delimiter) {
                Some(e) => r matches Ok(s) && s@ == old(self).input@.subrange(
                    old(self).position as int,
                    e,
                ) && final(self).position == e + 1,
                None => r matches Err(err) && err == BencodeError::UnexpectedEof,
            },
    {
        let start = self.position;
        loop
            invariant
                self.wf(),
                self.input == old(self).input,
                start == old(self).position,
                start <= self.position,
                sfind(self.input@, start as int, delimiter) == sfind(
                    self.input@,
                    self.position as int,
                    delimiter,
                ),
            decreases self.input@.len() - self.position,
        {
            if self.position >= self.input.len() {
                return Err(BencodeError::UnexpectedEof);
            }
            let b = *slice_index_get_u8(self.input, self.position);
            if b == delimiter {
                let s = slice_subrange(self.input, start, self.position);
                self.position = self.position + 1;
                return Ok(s);
            }
            self.position = self.position + 1;
        }
    }

    /// Parses one value at the current position.
    pub fn parse_value(&mut self) -> (r: Result<BValue, BencodeError>)
        requires
            old(self).wf(),
        ensures
            final(self).wf(),
            final(self).input == old(self).input,
            value_post(old(self).input@, old(self).position as int, r, final(self).position as int),
            r is Ok ==> old(self).position < final(self).position,
        decreases self.input@.len() - self.position, 0int,
    {
        match self.peek() {
            None => Err(BencodeError::UnexpectedEof),
            Some(c) => {
                if c == 105 {
                    match self.parse_integer() {
                        Ok(n) => Ok(BValue::Int(n)),
                        Err(e) => Err(e),
                    }
                } else if c == 108 {
                    let _ = self.consume();
                    match self.parse_items() {
                        Ok(items) => Ok(BValue::List(items)),
                        Err(e) => Err(e),
                    }
                } else if c == 100 {
                    let _ = self.consume();
                    match self.parse_entries() {
                        Ok(es) => Ok(BValue::Dict(es)),
                        Err(e) => Err(e),
                    }
                } else if 48 <= c && c <= 57 {
                    match self.parse_string() {
                        Ok(s) => Ok(BValue::Bytes(s)),
                        Err(e) => Err(e),
                    }
                } else {
                    Err(BencodeError::UnhandledPrefix(c))
                }
            },
        }
    }

    /// Parses `i<decimal>e` at the current position.
    fn parse_integer(&mut self) -> (r: Result<i64, BencodeError>)
        requires
            old(self).wf(),
            old(self).position < old(self).input@.len(),
            old(self).input@[old(self).position as int] == 105,
        ensures
            final(self).wf(),
            final(self).input == old(self).input,
            match sd_int(old(self).input@, old(self).position as int) {
                Ok((v, j)) => r matches Ok(n) && BNode::Int(n) == v && final(self).position == j,
                Err(e) => r matches Err(e2) && e2 == e,
            },
            r is Ok ==> old(self).position < final(self).position,
    {
        let ghost b = old(self).input@;
        let ghost i = old(self).position as int;
        let _ = self.consume();
        let lit = match self.consume_until(101) {
            Ok(s) => s,
            Err(e) => {
                return Err(e);
            },
        };
        proof {
            lemma_sfind_bounds(b, i + 1, 101);
        }
        let (neg, digits) = if lit.len() > 0 && *slice_index_get_u8(lit, 0) == 45 {
            (true, slice_subrange(lit, 1, lit.len()))
        } else {
            (false, slice_subrange(lit, 0, lit.len()))
        };
        proof {
            if !neg {
                assert(digits@ =~= lit@);
            } else {
                assert(digits@ =~= lit@.drop_first());
            }
            assert(is_canon_int_lit(lit@) == (is_canon_digits(digits@) && !(neg && digits_val(
                digits@,
            ) == 0)));
            if is_canon_int_lit(lit@) {
                if neg {
                    assert(int_lit_val(lit@) == -(digits_val(digits@) as int));
                } else {
                    assert(int_lit_val(lit@) == digits_val(digits@) as int);
                }
            }
        }
        if !check_canon_digits(digits) {
            return Err(BencodeError::BadDigit);
        }
        let mag = match digits_value_u64(digits) {
            Some(v) => v,
            None => {
                return Err(BencodeError::IntOverflow);
            },
        };
        if neg {
            if mag == 0 {
                return Err(BencodeError::BadDigit);
            }
            if mag > 9223372036854775808u64 {
                return Err(BencodeError::IntOverflow);
            }
            if mag == 9223372036854775808u64 {
                Ok(i64::MIN)
            } else {
                Ok(-(mag as i64))
            }
        } else {
            if mag > i64::MAX as u64 {
                return Err(BencodeError::IntOverflow);
            }
            Ok(mag as i64)
        }
    }

    /// Parses `<len>:<bytes>` at the current position.
    fn parse_string(&mut self) -> (r: Result<Vec<u8>, BencodeError>)
        requires
            old(self).wf(),
        ensures
            final(self).wf(),
            final(self).input == old(self).input,
            match sd_str(old(self).input@, old(self).position as int) {
                Ok((v, j)) => r matches Ok(s) && BNode::Bytes(s@) == v && final(self).position == j,
                Err(e) => r matches Err(e2) && e2 == e,
            },
            r is Ok ==> old(self).position < final(self).position,
    {
        let ghost b = old(self).input@;
        let ghost i = old(self).position as int;
        let lenlit = match self.consume_until(58) {
            Ok(s) => s,
            Err(e) => {
                return Err(e);
            },
        };
        proof {
            lemma_sfind_bounds(b, i, 58);
        }
        let ghost c = sfind(b, i, 58)->0;
        if !check_canon_digits(lenlit) {
            return Err(BencodeError::BadLengthPrefix);
        }
        let remaining: u64 = (self.input.len() - self.position) as u64;
        proof {
            assert(remaining == b.len() - (c + 1));
        }
        let n = match digits_value_u64(lenlit) {
            Some(v) => v,
            None => {
                proof {
                    assert(c + 1 + digits_val(lenlit@) > b.len());
                }
                return Err(BencodeError::UnexpectedEof);
            },
        };
        if n > remaining {
            return Err(BencodeError::UnexpectedEof);
        }
        let nn = n as usize;
        let s = slice_subrange(self.input, self.position, self.position + nn);
        self.position = self.position + nn;
        Ok(slice_to_vec(s))
    }

    /// Parses list items up to and past the closing `e`.
    fn parse_items(&mut self) -> (r: Result<Vec<BValue>, BencodeError>)
        requires
            old(self).wf(),
        ensures
            final(self).wf(),
            final(self).input == old(self).input,
            match sd_items(old(self).input@, old(self).position as int) {
                Ok((items, j)) => r matches Ok(vs) && bnodes_of(vs@) == norm_seq(items)
                    && final(self).position == j,
                Err(e) => r matches Err(e2) && e2 == e,
            },
            r is Ok ==> old(self).position < final(self).position,
        decreases self.input@.len() - self.position, 1int,
    {
        match self.peek() {
            None => Err(BencodeError::UnterminatedList),
            Some(c) => {
                if c == 101 {
                    let _ = self.consume();
                    proof {
                        assert(norm_seq(Seq::<BNode>::empty()) == Seq::<BNode>::empty());
                        assert(bnodes_of(Seq::<BValue>::empty()) == Seq::<BNode>::empty());
                    }
                    Ok(Vec::new())
                } else {
                    let v = match self.parse_value() {
                        Ok(v) => v,
                        Err(e) => {
                            return Err(e);
                        },
                    };
                    let mut rest = match self.parse_items() {
                        Ok(r2) => r2,
                        Err(e) => {
                            return Err(e);
                        },
                    };
                    rest.insert(0, v);
                    proof {
                        let b = old(self).input@;
                        let i = old(self).position as int;
                        let raw = sd_value(b, i)->Ok_0;
                        let rawrest = sd_items(b, raw.1)->Ok_0;
                        let whole = seq![raw.0] + rawrest.0;
                        assert(whole.drop_first() =~= rawrest.0);
                        assert(norm_seq(whole) == seq![norm(raw.0)] + norm_seq(rawrest.0));
                        lemma_bnodes_cons(v, rest@.drop_first());
                        assert(rest@.drop_first().insert(0, v) =~= rest@);
                    }
                    Ok(rest)
                }
            },
        }
    }

    /// Parses dictionary entries up to and past the closing `e`, folding
    /// them into ascending key order as they are read.
    fn parse_entries(&mut self) -> (r: Result<Vec<(Vec<u8>, BValue)>, BencodeError>)
        requires
            old(self).wf(),
        ensures
            final(self).wf(),
            final(self).input == old(self).input,
            match sd_entries(old(self).input@, old(self).position as int) {
                Ok((es, j)) => r matches Ok(vs) && bentries_of(vs@) == norm_entries(es)
                    && final(self).position == j,
                Err(e) => r matches Err(e2) && e2 == e,
            },
            r is Ok ==> old(self).position < final(self).position,
        decreases self.input@.len() - self.position, 1int,
    {
        match self.peek() {
            None => Err(BencodeError::UnterminatedDict),
            Some(c) => {
                if c == 101 {
                    let _ = self.consume();
                    proof {
                        assert(norm_entries(Seq::<(Seq<u8>, BNode)>::empty()) == Seq::<
                            (Seq<u8>, BNode),
                        >::empty());
                        assert(bentries_of(Seq::<(Vec<u8>, BValue)>::empty()) == Seq::<
                            (Seq<u8>, BNode),
                        >::empty());
                    }
                    Ok(Vec::new())
                } else {
                    let kv = match self.parse_value() {
                        Ok(v) => v,
                        Err(e) => {
                            return Err(
                                if matches!(e, BencodeError::UnexpectedEof) {
                                    BencodeError::UnterminatedDict
                                } else {
                                    e
                                },
                            );
                        },
                    };
                    let k = match kv {
                        BValue::Bytes(k) => k,
                        _ => {
                            proof {
                                let b = old(self).input@;
                                let i = old(self).position as int;
                                let raw = sd_value(b, i)->Ok_0.0;
                                lemma_norm_kind(raw);
                            }
                            return Err(BencodeError::NonStringDictKey);
                        },
                    };
                    proof {
                        let b = old(self).input@;
                        let i = old(self).position as int;
                        let raw = sd_value(b, i)->Ok_0.0;
                        lemma_norm_kind(raw);
                    }
                    let v = match self.parse_value() {
                        Ok(v) => v,
                        Err(e) => {
                            return Err(
                                if matches!(e, BencodeError::UnexpectedEof) {
                                    BencodeError::UnterminatedDict
                                } else {
                                    e
                                },
                            );
                        },
                    };
                    let mut rest = match self.parse_entries() {
                        Ok(r2) => r2,
                        Err(e) => {
                            return Err(e);
                        },
                    };
                    entries_put_first(&mut rest, k, v);
                    proof {
                        let b = old(self).input@;
                        let i = old(self).position as int;
                        let rawk = sd_value(b, i)->Ok_0;
                        let rawv = sd_value(b, rawk.1)->Ok_0;
                        let rawrest = sd_entries(b, rawv.1)->Ok_0;
                        let ks = rawk.0->Bytes_0;
                        let whole = seq![(ks, rawv.0)] + rawrest.0;
                        assert(whole.drop_first() =~= rawrest.0);
                        assert(whole[0] == (ks, rawv.0));
                        assert(norm_entries(whole) == sorted_put(
                            norm_entries(rawrest.0),
                            ks,
                            norm(rawv.0),
                        ));
                    }
                    Ok(rest)
                }
            },
        }
    }
}

/// Prepending a value prepends its abstraction.
proof fn lemma_bnodes_cons(v: BValue, s: Seq<BValue>)
    ensures
        bnodes_of(seq![v] + s) == seq![bnode_of(v)] + bnodes_of(s),
{
    assert((seq![v] + s).drop_first() =~= s);
    assert((seq![v] + s)[0] == v);
}

/// Normalisation keeps the kind of a value.
proof fn lemma_norm_kind(v: BNode)
    ensures
        (norm(v) is Bytes <==> v is Bytes),
        norm(v) is Bytes ==> norm(v)->Bytes_0 == v->Bytes_0,
{
}

/// The value of a canonical signed literal, split by sign.
proof fn lemma_canon_val_cases(lit: Seq<u8>, neg: bool)
    requires
        is_canon_int_lit(lit),
        neg <==> (lit.len() > 0 && lit[0] == 45),
    ensures
        neg ==> int_lit_val(lit) == -(digits_val(lit.drop_first()) as int),
        !neg ==> int_lit_val(lit) == digits_val(lit) as int,
{
}

/// Returns a reference to the byte at `i`.
fn slice_index_get_u8(s: &[u8], i: usize) -> (out: &u8)
    requires
        i < s@.len(),
    ensures
        *out == s@[i as int],
{
    vstd::slice::slice_index_get(s, i)
}

} // verus!
