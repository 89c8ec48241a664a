//! The bencode value type and its mathematical model.
//!
//! A bencode value is one of four kinds: an integer, a byte string, a list,
//! or a dictionary keyed by byte strings. Dictionaries are stored with their
//! entries in strictly ascending lexicographic key order, so that re-encoding
//! a value is canonical: this is what makes the info-hash of a torrent stable.

use vstd::prelude::*;
use vstd::slice::slice_to_vec;
use vstd::string::StringSliceAdditionalSpecFns;

verus! {

broadcast use vstd::seq_lib::group_seq_properties;

/// A bencode value. Dictionaries hold their entries sorted by key in
/// strictly ascending lexicographic byte order (see [`node_wf`]).
#[derive(Debug, PartialEq, Eq)]
pub enum BValue {
    /// An integer, written `i<decimal>e` on the wire.
    Int(i64),
    /// A raw byte string, written `<len>:<bytes>` on the wire.
    Bytes(Vec<u8>),
    /// A list of values, written `l<values>e` on the wire.
    List(Vec<BValue>),
    /// A dictionary, written `d<key value pairs>e` on the wire.
    Dict(Vec<(Vec<u8>, BValue)>),
}

/// The mathematical shape of a bencode value, used in specifications.
pub enum BNode {
    Int(i64),
    Bytes(Seq<u8>),
    List(Seq<BNode>),
    Dict(Seq<(Seq<u8>, BNode)>),
}

/// Abstraction of an executable value to its mathematical shape.
pub open spec fn bnode_of(v: BValue) -> BNode
    decreases v,
{
    match v {
        BValue::Int(n) => BNode::Int(n),
        BValue::Bytes(s) => BNode::Bytes(s@),
        BValue::List(items) => BNode::List(bnodes_of(items@)),
        BValue::Dict(es) => BNode::Dict(bentries_of(es@)),
    }
}

pub open spec fn bnodes_of(s: Seq<BValue>) -> Seq<BNode>
    decreases s,
{
    if s.len() == 0 {
        Seq::empty()
    } else {
        seq![bnode_of(s[0])] + bnodes_of(s.drop_first())
    }
}

pub open spec fn bentries_of(s: Seq<(Vec<u8>, BValue)>) -> Seq<(Seq<u8>, BNode)>
    decreases s,
{
    if s.len() == 0 {
        Seq::empty()
    } else {
        seq![(s[0].0@, bnode_of(s[0].1))] + bentries_of(s.drop_first())
    }
}

impl View for BValue {
    type V = BNode;

    open spec fn view(&self) -> BNode {
        bnode_of(*self)
    }
}

pub broadcast proof fn lemma_bnodes_of_len(s: Seq<BValue>)
    ensures
        (#[trigger] bnodes_of(s)).len() == s.len(),
    decreases s,
{
    if s.len() > 0 {
        lemma_bnodes_of_len(s.drop_first());
    }
}

pub broadcast proof fn lemma_bnodes_of_index(s: Seq<BValue>, i: int)
    requires
        0 <= i < s.len(),
    ensures
        #[trigger] bnodes_of(s)[i] == bnode_of(s[i]),
    decreases s,
{
    lemma_bnodes_of_len(s);
    if i > 0 {
        lemma_bnodes_of_index(s.drop_first(), i - 1);
    }
}

pub broadcast proof fn lemma_bentries_of_len(s: Seq<(Vec<u8>, BValue)>)
    ensures
        (#[trigger] bentries_of(s)).len() == s.len(),
    decreases s,
{
    if s.len() > 0 {
        lemma_bentries_of_len(s.drop_first());
    }
}

pub broadcast proof fn lemma_bentries_of_index(s: Seq<(Vec<u8>, BValue)>, i: int)
    requires
        0 <= i < s.len(),
    ensures
        #[trigger] bentries_of(s)[i] == (s[i].0@, bnode_of(s[i].1)),
    decreases s,
{
    lemma_bentries_of_len(s);
    if i > 0 {
        lemma_bentries_of_index(s.drop_first(), i - 1);
    }
}

// ---------------------------------------------------------------------------
// Decimal digits
// ---------------------------------------------------------------------------

pub open spec fn is_digit(b: u8) -> bool {
    48 <= b <= 57
}

pub open spec fn digit_val(b: u8) -> nat {
    (b - 48) as nat
}

pub open spec fn digit_of(n: nat) -> u8 {
    (n + 48) as u8
}

/// Decimal digits of `n`, most significant first, with no leading zero.
pub open spec fn dec_u(n: nat) -> Seq<u8>
    decreases n,
{
    if n < 10 {
        seq![digit_of(n)]
    } else {
        dec_u(n / 10) + seq![digit_of(n % 10)]
    }
}

/// Value of a digit string, most significant first.
pub open spec fn digits_val(s: Seq<u8>) -> nat
    decreases s.len(),
{
    if s.len() == 0 {
        0
    } else {
        digits_val(s.drop_last()) * 10 + digit_val(s.last())
    }
}

pub open spec fn all_digits(s: Seq<u8>) -> bool {
    forall|i: int| 0 <= i < s.len() ==> is_digit(#[trigger] s[i])
}

/// A canonical decimal numeral: nonempty, digits only, and no leading zero
/// except for the single digit `0` itself.
pub open spec fn is_canon_digits(s: Seq<u8>) -> bool {
    s.len() > 0 && all_digits(s) && (s.len() > 1 ==> s[0] != 48)
}

/// A canonical bencode integer literal: an optional minus sign followed by a
/// canonical numeral, where `-0` is excluded.
pub open spec fn is_canon_int_lit(s: Seq<u8>) -> bool {
    if s.len() > 0 && s[0] == 45 {
        is_canon_digits(s.drop_first()) && digits_val(s.drop_first()) != 0
    } else {
        is_canon_digits(s)
    }
}

pub open spec fn int_lit_val(s: Seq<u8>) -> int {
    if s.len() > 0 && s[0] == 45 {
        -(digits_val(s.drop_first()) as int)
    } else {
        digits_val(s) as int
    }
}

/// Wire form of an integer: decimal digits with a leading minus if negative.
pub open spec fn int_lit(n: int) -> Seq<u8> {
    if n < 0 {
        seq![45u8] + dec_u((-n) as nat)
    } else {
        dec_u(n as nat)
    }
}

/// The decimal form of a value is a canonical numeral of that value.
pub proof fn lemma_dec_u_digits(n: nat)
    ensures
        is_canon_digits(dec_u(n)),
        digits_val(dec_u(n)) == n,
    decreases n,
{
    if n < 10 {
        assert(dec_u(n) =~= seq![digit_of(n)]);
        assert(digits_val(dec_u(n)) == digits_val(Seq::<u8>::empty()) * 10 + digit_val(
            digit_of(n),
        ));
    } else {
        lemma_dec_u_digits(n / 10);
        let s = dec_u(n / 10) + seq![digit_of(n % 10)];
        assert(s.drop_last() =~= dec_u(n / 10));
        assert(s.last() == digit_of(n % 10));
        assert(digits_val(s) == (n / 10) * 10 + n % 10);
        assert((n / 10) * 10 + n % 10 == n) by (nonlinear_arith);
        assert(dec_u(n / 10)[0] != 48) by {
            if dec_u(n / 10).len() > 1 {
            } else {
                assert(digits_val(dec_u(n / 10)) == n / 10);
                assert(n / 10 >= 1);
                let t = dec_u(n / 10);
                assert(digits_val(t) == digits_val(t.drop_last()) * 10 + digit_val(t.last()));
                assert(t.drop_last().len() == 0);
                assert(digit_val(t.last()) >= 1);
            }
        }
    }
}

pub proof fn lemma_digits_val_bound(s: Seq<u8>)
    requires
        is_canon_digits(s),
        s.len() > 1,
    ensures
        digits_val(s) >= 10,
    decreases s.len(),
{
    let p = s.drop_last();
    assert(p[0] == s[0]);
    assert(all_digits(p));
    if p.len() > 1 {
        lemma_digits_val_bound(p);
        assert(digits_val(s) == digits_val(p) * 10 + digit_val(s.last()));
        assert(digits_val(p) * 10 >= 10) by (nonlinear_arith)
            requires digits_val(p) >= 1;
    } else {
        assert(digits_val(p) == digits_val(p.drop_last()) * 10 + digit_val(p.last()));
        assert(digit_val(p.last()) >= 1);
        assert(digits_val(s) == digits_val(p) * 10 + digit_val(s.last()));
        assert(digits_val(p) * 10 >= 10) by (nonlinear_arith)
            requires digits_val(p) >= 1;
    }
}

/// A canonical numeral is the decimal form of its own value: decoding and
/// re-encoding a numeral is the identity.
pub proof fn lemma_canon_digits_round_trip(s: Seq<u8>)
    requires
        is_canon_digits(s),
    ensures
        dec_u(digits_val(s)) == s,
    decreases s.len(),
{
    let n = digits_val(s);
    if s.len() == 1 {
        assert(n == digits_val(s.drop_last()) * 10 + digit_val(s.last()));
        assert(n < 10);
        assert(dec_u(n) =~= seq![digit_of(n)]);
        assert(dec_u(n) =~= s);
    } else {
        let p = s.drop_last();
        assert(p[0] == s[0]);
        assert(all_digits(p));
        assert(is_canon_digits(p));
        lemma_canon_digits_round_trip(p);
        lemma_digits_val_bound(s);
        assert(n == digits_val(p) * 10 + digit_val(s.last()));
        assert(n / 10 == digits_val(p) && n % 10 == digit_val(s.last())) by (nonlinear_arith)
            requires
                n == digits_val(p) * 10 + digit_val(s.last()),
                digit_val(s.last()) < 10,
        ;
        assert(dec_u(n) == dec_u(n / 10) + seq![digit_of(n % 10)]);
        assert(digit_of(digit_val(s.last())) == s.last());
        assert(dec_u(n) =~= s);
    }
}

/// A canonical signed literal is the decimal form of its own value.
pub proof fn lemma_canon_int_lit_round_trip(s: Seq<u8>)
    requires
        is_canon_int_lit(s),
    ensures
        int_lit(int_lit_val(s)) == s,
{
    if s.len() > 0 && s[0] == 45 {
        let d = s.drop_first();
        lemma_canon_digits_round_trip(d);
        assert(int_lit(int_lit_val(s)) == seq![45u8] + dec_u(digits_val(d)));
        assert(seq![45u8] + d =~= s);
    } else {
        lemma_canon_digits_round_trip(s);
    }
}

// ---------------------------------------------------------------------------
// Lexicographic order on byte strings
// ---------------------------------------------------------------------------

/// Strict lexicographic order on raw byte strings.
pub open spec fn lex_lt(a: Seq<u8>, b: Seq<u8>) -> bool
    decreases a.len(),
{
    if b.len() == 0 {
        false
    } else if a.len() == 0 {
        true
    } else if a[0] < b[0] {
        true
    } else if a[0] > b[0] {
        false
    } else {
        lex_lt(a.drop_first(), b.drop_first())
    }
}

pub proof fn lemma_lex_lt_total(a: Seq<u8>, b: Seq<u8>)
    ensures
        lex_lt(a, b) || lex_lt(b, a) || a == b,
    decreases a.len(),
{
    if a.len() > 0 && b.len() > 0 && a[0] == b[0] {
        lemma_lex_lt_total(a.drop_first(), b.drop_first());
        if !lex_lt(a, b) && !lex_lt(b, a) {
            assert(a.drop_first() == b.drop_first());
            assert(a =~= b);
        }
    } else if a.len() == 0 && b.len() == 0 {
        assert(a =~= b);
    }
}

pub proof fn lemma_lex_lt_irrefl(a: Seq<u8>)
    ensures
        !lex_lt(a, a),
    decreases a.len(),
{
    if a.len() > 0 {
        lemma_lex_lt_irrefl(a.drop_first());
    }
}

pub proof fn lemma_lex_lt_trans(a: Seq<u8>, b: Seq<u8>, c: Seq<u8>)
    requires
        lex_lt(a, b),
        lex_lt(b, c),
    ensures
        lex_lt(a, c),
    decreases a.len() + b.len() + c.len(),
{
    if b.len() == 0 {
        // lex_lt(a, b) is false: contradiction, nothing to do
    } else if a.len() == 0 {
        // c.len() > 0 since lex_lt(b, c) and b nonempty
    } else if a[0] == b[0] && b[0] == c[0] {
        lemma_lex_lt_trans(a.drop_first(), b.drop_first(), c.drop_first());
    }
}

// ---------------------------------------------------------------------------
// Sorted dictionary entries
// ---------------------------------------------------------------------------

pub open spec fn entries_sorted(es: Seq<(Seq<u8>, BNode)>) -> bool {
    forall|i: int, j: int|
        #![trigger es[i], es[j]]
        0 <= i < j < es.len() ==> lex_lt(es[i].0, es[j].0)
}

pub open spec fn key_in(es: Seq<(Seq<u8>, BNode)>, k: Seq<u8>) -> bool {
    exists|i: int| 0 <= i < es.len() && (#[trigger] es[i]).0 == k
}

/// Insert a key into sorted entries, keeping the entry already present when
/// the key is taken: in a bencode dictionary read off the wire the later
/// binding of a repeated key wins, and entries are folded in from the right.
pub open spec fn sorted_put(es: Seq<(Seq<u8>, BNode)>, k: Seq<u8>, v: BNode) -> Seq<
    (Seq<u8>, BNode),
>
    decreases es.len(),
{
    if es.len() == 0 {
        seq![(k, v)]
    } else if lex_lt(k, es[0].0) {
        seq![(k, v)] + es
    } else if k == es[0].0 {
        es
    } else {
        seq![es[0]] + sorted_put(es.drop_first(), k, v)
    }
}

pub proof fn lemma_sorted_put_sorted(es: Seq<(Seq<u8>, BNode)>, k: Seq<u8>, v: BNode)
    requires
        entries_sorted(es),
    ensures
        entries_sorted(sorted_put(es, k, v)),
        forall|k2: Seq<u8>|
            #[trigger] key_in(sorted_put(es, k, v), k2) <==> key_in(es, k2) || k2 == k,
    decreases es.len(),
{
    let r = sorted_put(es, k, v);
    if es.len() == 0 {
        assert forall|k2: Seq<u8>| #[trigger] key_in(r, k2) implies key_in(es, k2) || k2 == k by {
            let i = choose|i: int| 0 <= i < r.len() && (#[trigger] r[i]).0 == k2;
            assert(r[0].0 == k);
        }
        assert(r[0].0 == k);
    } else if lex_lt(k, es[0].0) {
        assert forall|i: int, j: int| #![trigger r[i], r[j]] 0 <= i < j < r.len() implies lex_lt(
            r[i].0,
            r[j].0,
        ) by {
            if i == 0 {
                if j > 1 {
                    assert(r[j] == es[j - 1]);
                    assert(lex_lt(es[0].0, es[j - 1].0));
                    lemma_lex_lt_trans(k, es[0].0, es[j - 1].0);
                }
            } else {
                assert(r[i] == es[i - 1] && r[j] == es[j - 1]);
            }
        }
        assert forall|k2: Seq<u8>| #[trigger] key_in(r, k2) implies key_in(es, k2) || k2 == k by {
            let i = choose|i: int| 0 <= i < r.len() && (#[trigger] r[i]).0 == k2;
            if i > 0 {
                assert(es[i - 1].0 == k2);
            }
        }
        assert forall|k2: Seq<u8>| key_in(es, k2) || k2 == k implies #[trigger] key_in(r, k2) by {
            if key_in(es, k2) {
                let i = choose|i: int| 0 <= i < es.len() && (#[trigger] es[i]).0 == k2;
                assert(r[i + 1].0 == k2);
            } else {
                assert(r[0].0 == k);
            }
        }
    } else if k == es[0].0 {
        assert forall|k2: Seq<u8>| key_in(es, k2) || k2 == k implies #[trigger] key_in(r, k2) by {
            if k2 == k {
                assert(r[0].0 == k);
            }
        }
    } else {
        let tail = es.drop_first();
        assert(entries_sorted(tail)) by {
            assert forall|i: int, j: int|
                #![trigger tail[i], tail[j]]
                0 <= i < j < tail.len() implies lex_lt(tail[i].0, tail[j].0) by {
                assert(tail[i] == es[i + 1] && tail[j] == es[j + 1]);
            }
        }
        lemma_sorted_put_sorted(tail, k, v);
        let rt = sorted_put(tail, k, v);
        lemma_lex_lt_total(k, es[0].0);
        assert(lex_lt(es[0].0, k));
        assert forall|i: int, j: int| #![trigger r[i], r[j]] 0 <= i < j < r.len() implies lex_lt(
            r[i].0,
            r[j].0,
        ) by {
            if i == 0 {
                assert(r[j] == rt[j - 1]);
                assert(key_in(rt, rt[j - 1].0));
                if rt[j - 1].0 == k {
                    assert(lex_lt(es[0].0, k));
                } else {
                    assert(key_in(tail, rt[j - 1].0));
                    let m = choose|m: int|
                        0 <= m < tail.len() && (#[trigger] tail[m]).0 == rt[j - 1].0;
                    assert(tail[m] == es[m + 1]);
                    assert(lex_lt(es[0].0, es[m + 1].0));
                }
            } else {
                assert(r[i] == rt[i - 1] && r[j] == rt[j - 1]);
            }
        }
        assert forall|k2: Seq<u8>| #[trigger] key_in(r, k2) implies key_in(es, k2) || k2 == k by {
            let i = choose|i: int| 0 <= i < r.len() && (#[trigger] r[i]).0 == k2;
            if i == 0 {
                assert(es[0].0 == k2);
            } else {
                assert(rt[i - 1].0 == k2);
                assert(key_in(rt, k2));
                if key_in(tail, k2) {
                    let m = choose|m: int| 0 <= m < tail.len() && (#[trigger] tail[m]).0 == k2;
                    assert(es[m + 1].0 == k2);
                }
            }
        }
        assert forall|k2: Seq<u8>| key_in(es, k2) || k2 == k implies #[trigger] key_in(r, k2) by {
            if key_in(es, k2) {
                let i = choose|i: int| 0 <= i < es.len() && (#[trigger] es[i]).0 == k2;
                if i == 0 {
                    assert(r[0].0 == k2);
                } else {
                    assert(tail[i - 1].0 == k2);
                    assert(key_in(tail, k2));
                    assert(key_in(rt, k2));
                    let m = choose|m: int| 0 <= m < rt.len() && (#[trigger] rt[m]).0 == k2;
                    assert(r[m + 1].0 == k2);
                }
            } else {
                assert(key_in(rt, k2));
                let m = choose|m: int| 0 <= m < rt.len() && (#[trigger] rt[m]).0 == k2;
                assert(r[m + 1].0 == k2);
            }
        }
    }
}

// ---------------------------------------------------------------------------
// Well-formedness: every dictionary sorted, recursively
// ---------------------------------------------------------------------------

/// A value is well formed when every dictionary in it holds its entries in
/// strictly ascending lexicographic key order. Well-formed values re-encode
/// canonically.
pub open spec fn node_wf(v: BNode) -> bool
    decreases v,
{
    match v {
        BNode::Int(_) => true,
        BNode::Bytes(_) => true,
        BNode::List(items) => nodes_wf(items),
        BNode::Dict(es) => entries_sorted(es) && entry_vals_wf(es),
    }
}

pub open spec fn nodes_wf(items: Seq<BNode>) -> bool
    decreases items,
{
    if items.len() == 0 {
        true
    } else {
        node_wf(items[0]) && nodes_wf(items.drop_first())
    }
}

pub open spec fn entry_vals_wf(es: Seq<(Seq<u8>, BNode)>) -> bool
    decreases es,
{
    if es.len() == 0 {
        true
    } else {
        node_wf(es[0].1) && entry_vals_wf(es.drop_first())
    }
}

// ---------------------------------------------------------------------------
// The wire form of a value
// ---------------------------------------------------------------------------

/// Wire bytes of a value: the encoder's output, entry for entry.
pub open spec fn enc(v: BNode) -> Seq<u8>
    decreases v,
{
    match v {
        BNode::Int(n) => seq![105u8] + int_lit(n as int) + seq![101u8],
        BNode::Bytes(s) => dec_u(s.len()) + seq![58u8] + s,
        BNode::List(items) => seq![108u8] + enc_seq(items) + seq![101u8],
        BNode::Dict(es) => seq![100u8] + enc_entries(es) + seq![101u8],
    }
}

pub open spec fn enc_seq(items: Seq<BNode>) -> Seq<u8>
    decreases items,
{
    if items.len() == 0 {
        Seq::empty()
    } else {
        enc(items[0]) + enc_seq(items.drop_first())
    }
}

pub open spec fn enc_entries(es: Seq<(Seq<u8>, BNode)>) -> Seq<u8>
    decreases es,
{
    if es.len() == 0 {
        Seq::empty()
    } else {
        dec_u(es[0].0.len()) + seq![58u8] + es[0].0 + enc(es[0].1) + enc_entries(es.drop_first())
    }
}

// ---------------------------------------------------------------------------
// Executable byte-string comparison and sorted insertion
// ---------------------------------------------------------------------------

/// Strict lexicographic comparison of two byte strings.
pub fn bytes_lt(a: &Vec<u8>, b: &Vec<u8>) -> (r: bool)
    ensures
        r == lex_lt(a@, b@),
{
    let mut i: usize = 0;
    loop
        invariant
            i <= a.len(),
            i <= b.len(),
            forall|j: int| 0 <= j < i ==> a@[j] == b@[j],
            lex_lt(a@, b@) == lex_lt(a@.skip(i as int), b@.skip(i as int)),
        decreases a.len() - i,
    {
        proof {
            let sa = a@.skip(i as int);
            let sb = b@.skip(i as int);
            if i < a.len() && i < b.len() {
                assert(sa[0] == a@[i as int] && sb[0] == b@[i as int]);
                assert(sa.drop_first() =~= a@.skip(i + 1));
                assert(sb.drop_first() =~= b@.skip(i + 1));
            }
        }
        if i >= b.len() {
            return false;
        }
        if i >= a.len() {
            return true;
        }
        if a[i] < b[i] {
            return true;
        }
        if a[i] > b[i] {
            return false;
        }
        i = i + 1;
    }
}

/// Byte-for-byte equality of two byte strings.
pub fn bytes_eq(a: &Vec<u8>, b: &Vec<u8>) -> (r: bool)
    ensures
        r == (a@ == b@),
{
    if a.len() != b.len() {
        proof {
            assert(a@.len() != b@.len());
        }
        return false;
    }
    let mut i: usize = 0;
    while i < a.len()
        invariant
            i <= a.len(),
            a.len() == b.len(),
            forall|j: int| 0 <= j < i ==> a@[j] == b@[j],
        decreases a.len() - i,
    {
        if a[i] != b[i] {
            return false;
        }
        i = i + 1;
    }
    proof {
        assert(a@ =~= b@);
    }
    true
}

/// Insert a key into sorted dictionary entries, keeping the present entry
/// when the key is already taken. Inserting keys in any order builds a
/// dictionary whose keys stand in strictly ascending lexicographic order.
pub fn entries_put_first(es: &mut Vec<(Vec<u8>, BValue)>, k: Vec<u8>, v: BValue)
    ensures
        bentries_of(final(es)@) == sorted_put(bentries_of(old(es)@), k@, bnode_of(v)),
{
    let ghost ges = bentries_of(es@);
    proof {
        lemma_bentries_of_len(es@);
    }
    let n = es.len();
    let mut i: usize = 0;
    loop
        invariant
            i <= n,
            n == es.len(),
            es@ == old(es)@,
            ges == bentries_of(es@),
            ges.len() == n,
            forall|j: int| 0 <= j < i ==> lex_lt((#[trigger] ges[j]).0, k@),
        ensures
            i <= n,
            n == es.len(),
            es@ == old(es)@,
            ges == bentries_of(es@),
            ges.len() == n,
            forall|j: int| 0 <= j < i ==> lex_lt((#[trigger] ges[j]).0, k@),
            i < n ==> !lex_lt(ges[i as int].0, k@),
        decreases n - i,
    {
        if i == n {
            break;
        }
        proof {
            lemma_bentries_of_index(es@, i as int);
        }
        if bytes_lt(&es[i].0, &k) {
            i = i + 1;
        } else {
            break;
        }
    }
    if i < n {
        proof {
            lemma_bentries_of_index(es@, i as int);
            assert(ges.skip(i as int)[0] == ges[i as int]);
        }
        if bytes_eq(&es[i].0, &k) {
            proof {
                lemma_lex_lt_irrefl(k@);
                assert(sorted_put(ges.skip(i as int), k@, bnode_of(v)) == ges.skip(i as int));
                lemma_put_prefix(ges, k@, bnode_of(v), i as int);
                assert(ges.take(i as int) + ges.skip(i as int) =~= ges);
                assert(bentries_of(es@) =~= ges);
            }
            return;
        }
        proof {
            lemma_lex_lt_total(k@, ges[i as int].0);
            assert(lex_lt(k@, ges[i as int].0));
            assert(sorted_put(ges.skip(i as int), k@, bnode_of(v)) == seq![(k@, bnode_of(v))]
                + ges.skip(i as int));
        }
        es.insert(i, (k, v));
        proof {
            lemma_put_prefix(ges, k@, bnode_of(v), i as int);
            lemma_bentries_insert(old(es)@, i as int, (k, v));
            assert(ges.insert(i as int, (k@, bnode_of(v))) =~= ges.take(i as int) + (seq![
                (k@, bnode_of(v)),
            ] + ges.skip(i as int)));
        }
    } else {
        proof {
            assert(ges.skip(n as int) =~= Seq::empty());
        }
        es.push((k, v));
        proof {
            lemma_put_prefix(ges, k@, bnode_of(v), n as int);
            lemma_bentries_push(old(es)@, (k, v));
            assert(sorted_put(ges.skip(n as int), k@, bnode_of(v)) =~= seq![(k@, bnode_of(v))]);
            assert(ges.push((k@, bnode_of(v))) =~= ges.take(n as int) + seq![(k@, bnode_of(v))]);
        }
    }
}

proof fn lemma_put_prefix(ges: Seq<(Seq<u8>, BNode)>, k: Seq<u8>, v: BNode, i: int)
    requires
        0 <= i <= ges.len(),
        forall|j: int| 0 <= j < i ==> lex_lt((#[trigger] ges[j]).0, k),
    ensures
        sorted_put(ges, k, v) == ges.take(i) + sorted_put(ges.skip(i), k, v),
    decreases i,
{
    if i == 0 {
        assert(ges.skip(0) =~= ges);
        assert(ges.take(0) + sorted_put(ges, k, v) =~= sorted_put(ges, k, v));
    } else {
        lemma_put_prefix(ges, k, v, i - 1);
        let e0 = ges[i - 1];
        assert(ges.skip(i - 1)[0] == e0);
        assert(lex_lt(e0.0, k));
        proof_lex_lt_asym(e0.0, k);
        assert(ges.skip(i - 1).drop_first() =~= ges.skip(i));
        assert(sorted_put(ges.skip(i - 1), k, v) == seq![e0] + sorted_put(ges.skip(i), k, v));
        assert(ges.take(i - 1) + (seq![e0] + sorted_put(ges.skip(i), k, v)) =~= ges.take(i)
            + sorted_put(ges.skip(i), k, v));
    }
}

/// First binding of `k` among entries, scanning left to right.
pub open spec fn entries_lookup(es: Seq<(Seq<u8>, BNode)>, k: Seq<u8>) -> Option<BNode>
    decreases es,
{
    if es.len() == 0 {
        None
    } else if es[0].0 == k {
        Some(es[0].1)
    } else {
        entries_lookup(es.drop_first(), k)
    }
}

/// Looks a key up among dictionary entries.
pub fn entries_get<'a>(es: &'a Vec<(Vec<u8>, BValue)>, key: &[u8]) -> (r: Option<&'a BValue>)
    ensures
        match r {
            Some(v) => entries_lookup(bentries_of(es@), key@) == Some(bnode_of(*v)),
            None => entries_lookup(bentries_of(es@), key@) is None,
        },
{
    let ghost ges = bentries_of(es@);
    proof {
        lemma_bentries_of_len(es@);
    }
    let kb: Vec<u8> = slice_to_vec(key);
    let mut i: usize = 0;
    loop
        invariant
            i <= es.len(),
            ges == bentries_of(es@),
            ges.len() == es@.len(),
            kb@ == key@,
            entries_lookup(ges, key@) == entries_lookup(ges.skip(i as int), key@),
        ensures
            i <= es.len(),
            ges == bentries_of(es@),
            i < es.len() ==> entries_lookup(ges, key@) == Some(bnode_of(es@[i as int].1)),
            i == es.len() ==> entries_lookup(ges, key@) is None,
        decreases es.len() - i,
    {
        if i == es.len() {
            proof {
                assert(ges.skip(i as int) =~= Seq::empty());
            }
            break;
        }
        proof {
            lemma_bentries_of_index(es@, i as int);
            assert(ges.skip(i as int)[0] == ges[i as int]);
            assert(ges.skip(i as int).drop_first() =~= ges.skip(i + 1));
        }
        if bytes_eq(&es[i].0, &kb) {
            break;
        }
        i = i + 1;
    }
    if i < es.len() {
        Some(&es[i].1)
    } else {
        None
    }
}

proof fn proof_lex_lt_asym(a: Seq<u8>, b: Seq<u8>)
    requires
        lex_lt(a, b),
    ensures
        !lex_lt(b, a),
        a != b,
{
    lemma_lex_lt_irrefl(a);
    if lex_lt(b, a) {
        lemma_lex_lt_trans(a, b, a);
    }
}

proof fn lemma_bentries_insert(es: Seq<(Vec<u8>, BValue)>, i: int, e: (Vec<u8>, BValue))
    requires
        0 <= i <= es.len(),
    ensures
        bentries_of(es.insert(i, e)) =~= bentries_of(es).insert(i, (e.0@, bnode_of(e.1))),
{
    let left = es.insert(i, e);
    lemma_bentries_of_len(es);
    lemma_bentries_of_len(left);
    assert forall|j: int| 0 <= j < left.len() implies #[trigger] bentries_of(left)[j]
        == bentries_of(es).insert(i, (e.0@, bnode_of(e.1)))[j] by {
        lemma_bentries_of_index(left, j);
        if j < i {
            lemma_bentries_of_index(es, j);
        } else if j > i {
            lemma_bentries_of_index(es, j - 1);
        }
    }
}

proof fn lemma_bentries_push(es: Seq<(Vec<u8>, BValue)>, e: (Vec<u8>, BValue))
    ensures
        bentries_of(es.push(e)) =~= bentries_of(es).push((e.0@, bnode_of(e.1))),
{
    let left = es.push(e);
    let right = bentries_of(es).push((e.0@, bnode_of(e.1)));
    lemma_bentries_of_len(es);
    lemma_bentries_of_len(left);
    assert forall|j: int| 0 <= j < left.len() implies #[trigger] bentries_of(left)[j]
        == right[j] by {
        lemma_bentries_of_index(left, j);
        if j < es.len() {
            lemma_bentries_of_index(es, j);
        }
    }
}

impl BValue {
    /// The canonical wire form of this value. Well-formedness — every
    /// dictionary sorted — is what makes the output canonical; values the
    /// decoder yields and dictionaries built by [`entries_put_first`] have
    /// it by construction.
    pub fn to_bytes(&self) -> (r: Result<Vec<u8>, crate::bencode::decoder::BencodeError>)
        requires
            node_wf((*self)@),
        ensures
            r matches Ok(b) && b@ == enc((*self)@),
    {
        let mut encoder = crate::bencode::encoder::Encoder::new();
        encoder.encode_value(self);
        Ok(encoder.output)
    }

    /// Decodes one complete value from raw bytes. The result is well
    /// formed: every dictionary in it stands in ascending key order.
    pub fn from_bytes(bytes: &[u8]) -> (r: Result<Self, crate::bencode::decoder::BencodeError>)
        ensures
            match crate::bencode::decoder::spec_decode(bytes@) {
                Ok(n) => r matches Ok(v) && v@ == n,
                Err(e) => r matches Err(e2) && e2 == e,
            },
            r matches Ok(v) ==> node_wf(v@),
    {
        let mut decoder = crate::bencode::decoder::Decoder::new_from_bytes(bytes);
        decoder.parse()
    }

    /// Decodes one complete value from the UTF-8 bytes of a string. The
    /// result is well formed: every dictionary in it stands in ascending
    /// key order.
    pub fn from_str(s: &str) -> (r: Result<Self, crate::bencode::decoder::BencodeError>)
        ensures
            match crate::bencode::decoder::spec_decode(s.spec_bytes()) {
                Ok(n) => r matches Ok(v) && v@ == n,
                Err(e) => r matches Err(e2) && e2 == e,
            },
            r matches Ok(v) ==> node_wf(v@),
    {
        let mut decoder = crate::bencode::decoder::Decoder::new(s);
        decoder.parse()
    }
}

} // verus!
