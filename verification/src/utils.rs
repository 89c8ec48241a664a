//! Shared identity and byte-formatting helpers: the SHA-1 digest, the local
//! peer id, and lower-case hexadecimal rendering.

use vstd::prelude::*;

verus! {

/// The 20-byte SHA-1 digest of a byte sequence. SHA-1 is a function of its
/// input alone; its value is not axiomatised here, only named.
pub uninterp spec fn sha1_of(b: Seq<u8>) -> Seq<u8>;

/// Relies on `sha1::Sha1` through the `Digest` trait: the one-shot digest of
/// the input bytes, 20 bytes long, a function of the input alone.
#[verifier::external_body]
pub fn sha1_digest(data: &[u8]) -> (r: [u8; 20])
    ensures
        r@ == sha1_of(data@),
        r@.len() == 20,
{
    let digest = <sha1::Sha1 as sha1::Digest>::digest(data);
    digest.into()
}

/// Relies on `rand::random`: 20 bytes drawn from the thread-local generator.
/// Nothing is promised of their values.
#[verifier::external_body]
pub fn generate_peer_id() -> (r: [u8; 20]) {
    rand::random::<[u8; 20]>()
}

/// Relies on `String::push`: appends exactly the given character.
#[verifier::external_body]
pub fn push_char(s: &mut String, c: char)
    ensures
        final(s)@ == old(s)@ + seq![c],
{
    s.push(c);
}

/// The lower-case hexadecimal digit for a value below sixteen.
pub open spec fn hex_char(n: u8) -> char {
    if n < 10 {
        ((48 + n) as char)
    } else {
        ((87 + n) as char)
    }
}

/// Lower-case hexadecimal rendering, two digits for each byte.
pub open spec fn hex_of(b: Seq<u8>) -> Seq<char>
    decreases b,
{
    if b.len() == 0 {
        Seq::empty()
    } else {
        seq![hex_char(b[0] / 16), hex_char(b[0] % 16)] + hex_of(b.drop_first())
    }
}

/// Splitting the bytes splits the hexadecimal rendering.
pub proof fn lemma_hex_of_concat(a: Seq<u8>, b: Seq<u8>)
    ensures
        hex_of(a + b) == hex_of(a) + hex_of(b),
    decreases a,
{
    if a.len() == 0 {
        assert(a + b =~= b);
        assert(hex_of(a) + hex_of(b) =~= hex_of(b));
    } else {
        lemma_hex_of_concat(a.drop_first(), b);
        assert((a + b).drop_first() =~= a.drop_first() + b);
        assert((a + b)[0] == a[0]);
        assert(seq![hex_char(a[0] / 16), hex_char(a[0] % 16)] + (hex_of(a.drop_first()) + hex_of(
            b,
        )) =~= (seq![hex_char(a[0] / 16), hex_char(a[0] % 16)] + hex_of(a.drop_first())) + hex_of(
            b,
        ));
    }
}

/// Appends the two hexadecimal digits of one byte.
pub fn push_hex_byte(s: &mut String, b: u8)
    ensures
        final(s)@ == old(s)@ + seq![hex_char(b / 16), hex_char(b % 16)],
{
    let hi = b / 16;
    let lo = b % 16;
    let hc: char = if hi < 10 {
        (48 + hi) as char
    } else {
        (87 + hi) as char
    };
    let lc: char = if lo < 10 {
        (48 + lo) as char
    } else {
        (87 + lo) as char
    };
    push_char(s, hc);
    push_char(s, lc);
    proof {
        assert(final(s)@ =~= old(s)@ + seq![hex_char(b / 16), hex_char(b % 16)]);
    }
}

/// Renders bytes as lower-case hexadecimal, two digits each.
pub fn peer_id_to_string(peer_id: &[u8]) -> (r: String)
    ensures
        r@ == hex_of(peer_id@),
{
    let mut out = String::new();
    let mut i: usize = 0;
    while i < peer_id.len()
        invariant
            i <= peer_id@.len(),
            out@ == hex_of(peer_id@.take(i as int)),
        decreases peer_id@.len() - i,
    {
        let b = *vstd::slice::slice_index_get(peer_id, i);
        push_hex_byte(&mut out, b);
        proof {
            assert(peer_id@.take(i + 1) =~= peer_id@.take(i as int) + seq![peer_id@[i as int]]);
            lemma_hex_of_concat(peer_id@.take(i as int), seq![peer_id@[i as int]]);
            let one = seq![peer_id@[i as int]];
            assert(one.drop_first() =~= Seq::<u8>::empty());
            assert(hex_of(one.drop_first()) == Seq::<char>::empty());
            assert(hex_of(one) =~= seq![
                hex_char(peer_id@[i as int] / 16),
                hex_char(peer_id@[i as int] % 16),
            ]);
        }
        i = i + 1;
    }
    proof {
        assert(peer_id@.take(peer_id@.len() as int) =~= peer_id@);
    }
    out
}

/// Renders at most the first twenty hexadecimal digits of the bytes: the
/// short display form of a peer id.
pub fn serialize_peer_id(peer_id: &[u8]) -> (r: String)
    ensures
        r@ == (if hex_of(peer_id@).len() <= 20 {
            hex_of(peer_id@)
        } else {
            hex_of(peer_id@).take(20)
        }),
{
    if peer_id.len() <= 10 {
        proof {
            lemma_hex_of_len(peer_id@);
        }
        peer_id_to_string(peer_id)
    } else {
        let head = vstd::slice::slice_subrange(peer_id, 0, 10);
        let r = peer_id_to_string(head);
        proof {
            let whole = peer_id@;
            assert(whole.take(10) =~= head@);
            assert(whole =~= whole.take(10) + whole.skip(10));
            lemma_hex_of_concat(whole.take(10), whole.skip(10));
            lemma_hex_of_len(whole.take(10));
            lemma_hex_of_len(whole.skip(10));
            assert(hex_of(whole).take(20) =~= hex_of(whole.take(10)));
        }
        r
    }
}

/// Two hexadecimal digits for each byte.
pub proof fn lemma_hex_of_len(b: Seq<u8>)
    ensures
        hex_of(b).len() == 2 * b.len(),
    decreases b,
{
    if b.len() > 0 {
        lemma_hex_of_len(b.drop_first());
    }
}

} // verus!
