//! Bencode encoder.
//!
//! Emits the wire form of a value: integers as `i<decimal>e`, byte strings as
//! `<len>:<bytes>`, lists as `l<values>e`, dictionaries as `d<pairs>e` with
//! the entries in the order stored, which for well-formed values is strictly
//! ascending lexicographic key order. The output is pinned byte for byte by
//! the [`enc`] specification.

use vstd::prelude::*;

use crate::bencode::bvalue::BNode;
use crate::bencode::bvalue::BValue;
use crate::bencode::bvalue::bentries_of;
use crate::bencode::bvalue::bnodes_of;
use crate::bencode::bvalue::dec_u;
use crate::bencode::bvalue::digit_of;
use crate::bencode::bvalue::enc;
use crate::bencode::bvalue::enc_entries;
use crate::bencode::bvalue::enc_seq;
use crate::bencode::bvalue::int_lit;
use crate::bencode::bvalue::lemma_bentries_of_index;
use crate::bencode::bvalue::lemma_bentries_of_len;
use crate::bencode::bvalue::lemma_bnodes_of_index;
use crate::bencode::bvalue::lemma_bnodes_of_len;

verus! {

broadcast use vstd::seq_lib::group_seq_properties;

/// Splitting a sequence of values splits its wire form.
pub proof fn lemma_enc_seq_concat(a: Seq<BNode>, b: Seq<BNode>)
    ensures
        enc_seq(a + b) == enc_seq(a) + enc_seq(b),
    decreases a,
{
    if a.len() == 0 {
        assert(a + b =~= b);
        assert(enc_seq(a) + enc_seq(b) =~= enc_seq(b));
    } else {
        lemma_enc_seq_concat(a.drop_first(), b);
        assert((a + b).drop_first() =~= a.drop_first() + b);
        assert((a + b)[0] == a[0]);
        assert(enc(a[0]) + (enc_seq(a.drop_first()) + enc_seq(b)) =~= (enc(a[0]) + enc_seq(
            a.drop_first(),
        )) + enc_seq(b));
    }
}

/// Splitting a sequence of entries splits its wire form.
pub proof fn lemma_enc_entries_concat(a: Seq<(Seq<u8>, BNode)>, b: Seq<(Seq<u8>, BNode)>)
    ensures
        enc_entries(a + b) == enc_entries(a) + enc_entries(b),
    decreases a,
{
    if a.len() == 0 {
        assert(a + b =~= b);
        assert(enc_entries(a) + enc_entries(b) =~= enc_entries(b));
    } else {
        lemma_enc_entries_concat(a.drop_first(), b);
        assert((a + b).drop_first() =~= a.drop_first() + b);
        assert((a + b)[0] == a[0]);
        let e = dec_u(a[0].0.len()) + seq![58u8] + a[0].0 + enc(a[0].1);
        assert(e + (enc_entries(a.drop_first()) + enc_entries(b)) =~= (e + enc_entries(
            a.drop_first(),
        )) + enc_entries(b));
    }
}

pub proof fn lemma_enc_seq_one(x: BNode)
    ensures
        enc_seq(seq![x]) == enc(x),
{
    assert(seq![x].drop_first() =~= Seq::<BNode>::empty());
    assert(enc_seq(Seq::<BNode>::empty()) == Seq::<u8>::empty());
    assert(enc(x) + Seq::<u8>::empty() =~= enc(x));
}

pub proof fn lemma_enc_entries_one(e: (Seq<u8>, BNode))
    ensures
        enc_entries(seq![e]) == dec_u(e.0.len()) + seq![58u8] + e.0 + enc(e.1),
{
    assert(seq![e].drop_first() =~= Seq::<(Seq<u8>, BNode)>::empty());
    assert(enc_entries(Seq::<(Seq<u8>, BNode)>::empty()) == Seq::<u8>::empty());
    let w = dec_u(e.0.len()) + seq![58u8] + e.0 + enc(e.1);
    assert(w + Seq::<u8>::empty() =~= w);
}

/// Append the decimal digits of `n` to `out`, most significant first.
pub fn push_decimal(out: &mut Vec<u8>, n: u64)
    ensures
        final(out)@ == old(out)@ + dec_u(n as nat),
{
    let mut tmp: Vec<u8> = Vec::new();
    let mut m: u64 = n;
    loop
        invariant_except_break
            dec_u(n as nat) =~= dec_u(m as nat) + tmp@.reverse(),
        ensures
            tmp@.reverse() == dec_u(n as nat),
        decreases m,
    {
        let d: u8 = (m % 10) as u8;
        let ghost old_tmp = tmp@;
        tmp.push(d + 48);
        proof {
            assert(tmp@.reverse() =~= seq![digit_of((m % 10) as nat)] + old_tmp.reverse());
            if m >= 10 {
                assert(dec_u(m as nat) == dec_u((m as nat) / 10) + seq![
                    digit_of((m as nat) % 10),
                ]);
                assert((m as nat) / 10 == (m / 10) as nat);
                assert(dec_u(n as nat) =~= dec_u((m / 10) as nat) + tmp@.reverse());
            } else {
                assert(dec_u(m as nat) == seq![digit_of(m as nat)]);
                assert(dec_u(n as nat) =~= dec_u(m as nat) + old_tmp.reverse());
                assert(dec_u(n as nat) =~= tmp@.reverse());
            }
        }
        m = m / 10;
        if m == 0 {
            break;
        }
    }
    let ghost base = out@;
    let ghost len = tmp@.len() as int;
    let mut i: usize = tmp.len();
    while i > 0
        invariant
            i <= tmp.len(),
            len == tmp@.len(),
            tmp@.reverse() == dec_u(n as nat),
            out@ =~= base + tmp@.subrange(i as int, len).reverse(),
        decreases i,
    {
        i = i - 1;
        out.push(tmp[i]);
        proof {
            assert(tmp@.subrange(i as int, len).reverse() =~= tmp@.subrange(i + 1, len).reverse()
                + seq![tmp@[i as int]]);
            assert(out@ =~= base + tmp@.subrange(i as int, len).reverse());
        }
    }
    proof {
        assert(tmp@.subrange(0, len) =~= tmp@);
    }
}

/// Bencode encoder: accumulates the wire form of values in a buffer.
pub struct Encoder {
    pub output: Vec<u8>,
}

impl Encoder {
    /// Creates a new encoder with an empty output buffer.
    pub fn new() -> (r: Self)
        ensures
            r.output@ == Seq::<u8>::empty(),
    {
        Encoder { output: Vec::new() }
    }

    /// Appends the wire form of `value` to the output buffer.
    pub fn encode_value(&mut self, value: &BValue)
        ensures
            final(self).output@ == old(self).output@ + enc(value@),
        decreases value,
    {
        match value {
            BValue::Int(n) => self.encode_integer(*n),
            BValue::Bytes(s) => self.encode_string(s),
            BValue::List(items) => self.encode_list(items),
            BValue::Dict(es) => self.encode_dict(es),
        }
    }

    /// Appends `i<decimal>e`.
    fn encode_integer(&mut self, n: i64)
        ensures
            final(self).output@ == old(self).output@ + seq![105u8] + int_lit(n as int) + seq![
                101u8,
            ],
    {
        self.output.push(105);
        if n < 0 {
            self.output.push(45);
            let mag: u64 = if n == i64::MIN {
                9223372036854775808u64
            } else {
                (-n) as u64
            };
            proof {
                assert(mag as nat == (-(n as int)) as nat);
            }
            push_decimal(&mut self.output, mag);
        } else {
            push_decimal(&mut self.output, n as u64);
        }
        self.output.push(101);
        proof {
            if n < 0 {
                assert(final(self).output@ =~= old(self).output@ + seq![105u8] + (seq![45u8]
                    + dec_u((-(n as int)) as nat)) + seq![101u8]);
            } else {
                assert(final(self).output@ =~= old(self).output@ + seq![105u8] + dec_u(
                    n as nat,
                ) + seq![101u8]);
            }
        }
    }

    /// Appends `<len>:<bytes>`.
    fn encode_string(&mut self, s: &Vec<u8>)
        ensures
            final(self).output@ == old(self).output@ + dec_u(s@.len()) + seq![58u8] + s@,
    {
        push_decimal(&mut self.output, s.len() as u64);
        self.output.push(58);
        let mut i: usize = 0;
        while i < s.len()
            invariant
                i <= s@.len(),
                self.output@ =~= old(self).output@ + dec_u(s@.len()) + seq![58u8] + s@.take(
                    i as int,
                ),
            decreases s@.len() - i,
        {
            self.output.push(s[i]);
            proof {
                assert(s@.take(i + 1) =~= s@.take(i as int).push(s@[i as int]));
            }
            i = i + 1;
        }
        proof {
            assert(s@.take(s@.len() as int) =~= s@);
        }
    }

    /// Appends `l<values>e`.
    fn encode_list(&mut self, items: &Vec<BValue>)
        ensures
            final(self).output@ == old(self).output@ + seq![108u8] + enc_seq(bnodes_of(items@))
                + seq![101u8],
        decreases items,
    {
        self.output.push(108);
        let ghost nodes = bnodes_of(items@);
        proof {
            lemma_bnodes_of_len(items@);
        }
        let mut i: usize = 0;
        while i < items.len()
            invariant
                i <= items@.len(),
                nodes == bnodes_of(items@),
                nodes.len() == items@.len(),
                self.output@ =~= old(self).output@ + seq![108u8] + enc_seq(nodes.take(i as int)),
            decreases items@.len() - i,
        {
            self.encode_value(&items[i]);
            proof {
                lemma_bnodes_of_index(items@, i as int);
                assert(nodes.take(i + 1) =~= nodes.take(i as int) + seq![nodes[i as int]]);
                lemma_enc_seq_concat(nodes.take(i as int), seq![nodes[i as int]]);
                lemma_enc_seq_one(nodes[i as int]);
            }
            i = i + 1;
        }
        self.output.push(101);
        proof {
            assert(nodes.take(nodes.len() as int) =~= nodes);
        }
    }

    /// Appends `d<key value pairs>e`, entries in stored order.
    fn encode_dict(&mut self, es: &Vec<(Vec<u8>, BValue)>)
        ensures
            final(self).output@ == old(self).output@ + seq![100u8] + enc_entries(bentries_of(es@))
                + seq![101u8],
        decreases es,
    {
        self.output.push(100);
        let ghost entries = bentries_of(es@);
        proof {
            lemma_bentries_of_len(es@);
        }
        let mut i: usize = 0;
        while i < es.len()
            invariant
                i <= es@.len(),
                entries == bentries_of(es@),
                entries.len() == es@.len(),
                self.output@ =~= old(self).output@ + seq![100u8] + enc_entries(
                    entries.take(i as int),
                ),
            decreases es@.len() - i,
        {
            self.encode_string(&es[i].0);
            self.encode_value(&es[i].1);
            proof {
                lemma_bentries_of_index(es@, i as int);
                assert(entries.take(i + 1) =~= entries.take(i as int) + seq![entries[i as int]]);
                lemma_enc_entries_concat(entries.take(i as int), seq![entries[i as int]]);
                lemma_enc_entries_one(entries[i as int]);
            }
            i = i + 1;
        }
        self.output.push(101);
        proof {
            assert(entries.take(entries.len() as int) =~= entries);
        }
    }
}

} // verus!
