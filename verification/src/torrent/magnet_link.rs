//! Magnet URI parsing.
//!
//! A magnet link names a torrent without a metainfo file:
//! `magnet:?xt=urn:btih:<40 hex digits>&dn=<name>&tr=<tracker>`. The parser
//! accepts exactly the links [`spec_magnet_parse`] accepts, and yields the
//! 20-byte info-hash, the percent-decoded display name and tracker URL.

use vstd::prelude::*;

use crate::utils::push_char;
use vstd::string::StrSliceExecFns;

verus! {

broadcast use vstd::seq_lib::group_seq_properties;

/// A magnet parsing failure.
#[derive(Debug, PartialEq, Eq, Structural, Clone, Copy)]
pub enum MagnetError {
    /// The link does not begin with `magnet:?`.
    NotMagnet,
    /// No `xt` parameter carried an info-hash.
    MissingInfoHash,
    /// An `xt` parameter is not `urn:btih:` followed by 40 hex digits.
    BadInfoHash,
    /// A percent sign is not followed by two hex digits.
    BadPercentEncoding,
}

/// A parsed magnet link.
#[derive(Debug, PartialEq, Eq)]
pub struct MagnetLink {
    /// 20-byte SHA-1 info-hash of the torrent.
    pub info_hash: [u8; 20],
    /// Display name, when a `dn` parameter was given.
    pub name: Option<String>,
    /// Tracker URL, when a `tr` parameter was given.
    pub tracker: Option<String>,
}

/// The mathematical shape of a parsed magnet link.
pub struct MagnetView {
    pub info_hash: Seq<u8>,
    pub name: Option<Seq<char>>,
    pub tracker: Option<Seq<char>>,
}

/// Parsing state: what the parameters seen so far have bound.
pub struct MagnetAcc {
    pub info_hash: Option<Seq<u8>>,
    pub name: Option<Seq<char>>,
    pub tracker: Option<Seq<char>>,
}

/// Position of the first occurrence of `c` at or after `i`.
pub open spec fn cfind(s: Seq<char>, i: int, c: char) -> Option<int>
    decreases s.len() - i,
{
    if i < 0 || i >= s.len() {
        None
    } else if s[i] == c {
        Some(i)
    } else {
        cfind(s, i + 1, c)
    }
}

pub proof fn lemma_cfind_bounds(s: Seq<char>, i: int, c: char)
    requires
        0 <= i,
    ensures
        match cfind(s, i, c) {
            Some(e) => i <= e < s.len() && s[e] == c && forall|j: int| i <= j < e ==> s[j] != c,
            None => forall|j: int| i <= j < s.len() ==> s[j] != c,
        },
    decreases s.len() - i,
{
    if i < s.len() && s[i] != c {
        lemma_cfind_bounds(s, i + 1, c);
    }
}

/// The value of one hex digit, upper or lower case.
pub open spec fn hex_char_val(c: char) -> Option<u32> {
    if '0' <= c && c <= '9' {
        Some(((c as u32) - 48) as u32)
    } else if 'a' <= c && c <= 'f' {
        Some(((c as u32) - 87) as u32)
    } else if 'A' <= c && c <= 'F' {
        Some(((c as u32) - 55) as u32)
    } else {
        None
    }
}

/// Bytes read from pairs of hex digits, or nothing when a character is no
/// hex digit or the count is odd.
pub open spec fn hex_bytes(v: Seq<char>) -> Option<Seq<u8>>
    decreases v.len(),
{
    if v.len() == 0 {
        Some(Seq::empty())
    } else if v.len() == 1 {
        None
    } else {
        match (hex_char_val(v[0]), hex_char_val(v[1])) {
            (Some(h), Some(l)) => match hex_bytes(v.skip(2)) {
                Some(rest) => Some(seq![((h * 16 + l) as u8)] + rest),
                None => None,
            },
            _ => None,
        }
    }
}

/// What percent-decoding a string yields: each `%` must be followed by two
/// hex digits, whose byte is taken as one character; all else is kept.
pub open spec fn url_decode_spec(s: Seq<char>) -> Result<Seq<char>, MagnetError>
    decreases s.len(),
{
    if s.len() == 0 {
        Ok(Seq::empty())
    } else if s[0] == '%' {
        if s.len() < 3 {
            Err(MagnetError::BadPercentEncoding)
        } else {
            match (hex_char_val(s[1]), hex_char_val(s[2])) {
                (Some(h), Some(l)) => match url_decode_spec(s.skip(3)) {
                    Ok(rest) => Ok(seq![(((h * 16 + l) as u8) as char)] + rest),
                    Err(e) => Err(e),
                },
                _ => Err(MagnetError::BadPercentEncoding),
            }
        }
    } else {
        match url_decode_spec(s.drop_first()) {
            Ok(rest) => Ok(seq![s[0]] + rest),
            Err(e) => Err(e),
        }
    }
}

pub open spec fn magnet_prefix() -> Seq<char> {
    seq!['m', 'a', 'g', 'n', 'e', 't', ':', '?']
}

pub open spec fn urn_btih_prefix() -> Seq<char> {
    seq!['u', 'r', 'n', ':', 'b', 't', 'i', 'h', ':']
}

/// What one `key=value` parameter binds. The value reaches to the second
/// `=` when one occurs. Unknown keys bind nothing; a repeated key rebinds.
pub open spec fn apply_param(p: Seq<char>, st: MagnetAcc) -> Result<MagnetAcc, MagnetError> {
    let key_end = match cfind(p, 0, '=') {
        Some(e) => e,
        None => p.len() as int,
    };
    let key = p.take(key_end);
    let value = if key_end >= p.len() {
        Seq::<char>::empty()
    } else {
        match cfind(p, key_end + 1, '=') {
            Some(e2) => p.subrange(key_end + 1, e2),
            None => p.subrange(key_end + 1, p.len() as int),
        }
    };
    if key == seq!['x', 't'] {
        if value.len() != 49 || value.take(9) != urn_btih_prefix() {
            Err(MagnetError::BadInfoHash)
        } else {
            match hex_bytes(value.skip(9)) {
                Some(b) => Ok(MagnetAcc { info_hash: Some(b), ..st }),
                None => Err(MagnetError::BadInfoHash),
            }
        }
    } else if key == seq!['t', 'r'] {
        match url_decode_spec(value) {
            Ok(t) => Ok(MagnetAcc { tracker: Some(t), ..st }),
            Err(e) => Err(e),
        }
    } else if key == seq!['d', 'n'] {
        match url_decode_spec(value) {
            Ok(nm) => Ok(MagnetAcc { name: Some(nm), ..st }),
            Err(e) => Err(e),
        }
    } else {
        Ok(st)
    }
}

/// Folds the `&`-separated parameters from position `i` on into the state.
pub open spec fn fold_params(s: Seq<char>, i: int, st: MagnetAcc) -> Result<
    MagnetAcc,
    MagnetError,
>
    decreases s.len() - i,
{
    match cfind(s, i, '&') {
        None => apply_param(s.subrange(if i <= s.len() {
            i
        } else {
            s.len() as int
        }, s.len() as int), st),
        Some(a) => if a < i || a >= s.len() {
            // a found separator always lies in the string; this arm only
            // keeps the recursion well founded
            Err(MagnetError::NotMagnet)
        } else {
            match apply_param(s.subrange(i, a), st) {
                Ok(st2) => fold_params(s, a + 1, st2),
                Err(e) => Err(e),
            }
        },
    }
}

/// What parsing a whole magnet link yields.
pub open spec fn spec_magnet_parse(s: Seq<char>) -> Result<MagnetView, MagnetError> {
    if s.len() < 8 || s.take(8) != magnet_prefix() {
        Err(MagnetError::NotMagnet)
    } else {
        match fold_params(s, 8, MagnetAcc { info_hash: None, name: None, tracker: None }) {
            Err(e) => Err(e),
            Ok(st) => match st.info_hash {
                Some(h) => Ok(MagnetView { info_hash: h, name: st.name, tracker: st.tracker }),
                None => Err(MagnetError::MissingInfoHash),
            },
        }
    }
}

pub open spec fn opt_str_view(o: Option<String>) -> Option<Seq<char>> {
    match o {
        Some(s) => Some(s@),
        None => None,
    }
}

/// Percent-decodes a string.
pub fn url_decode(input: &str) -> (r: Result<String, MagnetError>)
    ensures
        match url_decode_spec(input@) {
            Ok(cs) => r matches Ok(s) && s@ == cs,
            Err(e) => r matches Err(e2) && e2 == e,
        },
{
    let n = input.unicode_len();
    let mut out = String::new();
    let mut i: usize = 0;
    proof {
        assert(input@.skip(0) =~= input@);
        assert forall|rest: Seq<char>| out@ + rest == rest by {
            assert(out@ + rest =~= rest);
        }
    }
    loop
        invariant
            i <= n,
            n == input@.len(),
            url_decode_spec(input@) == (match url_decode_spec(input@.skip(i as int)) {
                Ok(rest) => Ok::<Seq<char>, MagnetError>(out@ + rest),
                Err(e) => Err(e),
            }),
        ensures
            i == n,
            url_decode_spec(input@) == Ok::<Seq<char>, MagnetError>(out@),
        decreases n - i,
    {
        if i >= n {
            proof {
                assert(input@.skip(i as int) =~= Seq::<char>::empty());
                assert(out@ + Seq::<char>::empty() =~= out@);
            }
            break;
        }
        let ghost sk = input@.skip(i as int);
        proof {
            assert(sk[0] == input@[i as int]);
            assert(sk.drop_first() =~= input@.skip(i + 1));
        }
        let c = input.get_char(i);
        if c == '%' {
            if n - i < 3 {
                proof {
                    assert(sk.len() < 3);
                }
                return Err(MagnetError::BadPercentEncoding);
            }
            proof {
                assert(sk[1] == input@[i + 1]);
                assert(sk[2] == input@[i + 2]);
                assert(sk.skip(3) =~= input@.skip(i + 3));
            }
            let c1 = input.get_char(i + 1);
            let c2 = input.get_char(i + 2);
            let h = match hex_val(c1) {
                Some(v) => v,
                None => {
                    return Err(MagnetError::BadPercentEncoding);
                },
            };
            let l = match hex_val(c2) {
                Some(v) => v,
                None => {
                    return Err(MagnetError::BadPercentEncoding);
                },
            };
            let b: u8 = (h * 16 + l) as u8;
            let ghost prev = out@;
            push_char(&mut out, b as char);
            proof {
                assert forall|rest: Seq<char>| prev + (seq![(b as char)] + rest) == out@
                    + rest by {
                    assert(prev + (seq![(b as char)] + rest) =~= (prev + seq![(b as char)])
                        + rest);
                }
            }
            i = i + 3;
        } else {
            let ghost prev = out@;
            push_char(&mut out, c);
            proof {
                assert forall|rest: Seq<char>| prev + (seq![c] + rest) == out@ + rest by {
                    assert(prev + (seq![c] + rest) =~= (prev + seq![c]) + rest);
                }
            }
            i = i + 1;
        }
    }
    Ok(out)
}

/// The value of one hex digit, upper or lower case.
fn hex_val(c: char) -> (r: Option<u32>)
    ensures
        r == hex_char_val(c),
        r matches Some(v) ==> v < 16,
{
    if '0' <= c && c <= '9' {
        Some((c as u32) - 48)
    } else if 'a' <= c && c <= 'f' {
        Some((c as u32) - 87)
    } else if 'A' <= c && c <= 'F' {
        Some((c as u32) - 55)
    } else {
        None
    }
}

/// How the three mutable bindings read as a parsing state.
pub open spec fn acc_of(
    ih: Option<[u8; 20]>,
    name: Option<String>,
    tracker: Option<String>,
) -> MagnetAcc {
    MagnetAcc {
        info_hash: match ih {
            Some(h) => Some(h@),
            None => None,
        },
        name: opt_str_view(name),
        tracker: opt_str_view(tracker),
    }
}

/// Reads `urn:btih:` plus 40 hex digits out of the 49 characters of `p`
/// that start at `vs`.
fn parse_btih(p: &str, vs: usize) -> (r: Result<[u8; 20], MagnetError>)
    requires
        vs + 49 <= p@.len(),
    ensures
        ({
            let v = p@.subrange(vs as int, vs + 49);
            match r {
                Ok(arr) => v.take(9) == urn_btih_prefix() && hex_bytes(v.skip(9)) == Some(arr@),
                Err(e) => e == MagnetError::BadInfoHash && (v.take(9) != urn_btih_prefix()
                    || hex_bytes(v.skip(9)) is None),
            }
        }),
{
    let pn = p.unicode_len();
    let ghost v = p@.subrange(vs as int, vs + 49);
    let pref: [char; 9] = ['u', 'r', 'n', ':', 'b', 't', 'i', 'h', ':'];
    proof {
        assert(pref@ =~= urn_btih_prefix());
    }
    let mut k: usize = 0;
    while k < 9
        invariant
            k <= 9,
            pn == p@.len(),
            vs + 49 <= pn,
            v == p@.subrange(vs as int, vs + 49),
            pref@ == urn_btih_prefix(),
            forall|j: int| 0 <= j < k ==> v[j] == urn_btih_prefix()[j],
        decreases 9 - k,
    {
        let c = p.get_char(vs + k);
        proof {
            assert(v[k as int] == p@[vs + k]);
        }
        if c != pref[k] {
            proof {
                assert(v.take(9)[k as int] != urn_btih_prefix()[k as int]);
            }
            return Err(MagnetError::BadInfoHash);
        }
        k = k + 1;
    }
    proof {
        assert(v.take(9) =~= urn_btih_prefix());
    }
    let ghost h = v.skip(9);
    let mut arr: [u8; 20] = [0; 20];
    let mut k2: usize = 0;
    loop
        invariant
            k2 <= 20,
            pn == p@.len(),
            vs + 49 <= pn,
            v == p@.subrange(vs as int, vs + 49),
            h == v.skip(9),
            h.len() == 40,
            arr@.len() == 20,
            hex_bytes(h) == (match hex_bytes(h.skip(2 * k2)) {
                Some(rest) => Some(arr@.take(k2 as int) + rest),
                None => None::<Seq<u8>>,
            }),
        ensures
            k2 == 20,
            hex_bytes(h) == Some(arr@),
        decreases 20 - k2,
    {
        proof {
            if k2 < 20 {
                let sk = h.skip(2 * k2 as int);
                assert(sk.len() == 40 - 2 * k2);
                assert(sk[0] == h[2 * k2 as int]);
                assert(sk[1] == h[2 * k2 + 1]);
                assert(sk.skip(2) =~= h.skip(2 * k2 + 2));
                assert(h[2 * k2 as int] == p@[vs + 9 + 2 * k2]);
                assert(h[2 * k2 + 1] == p@[vs + 9 + 2 * k2 + 1]);
            } else {
                assert(h.skip(2 * k2 as int) =~= Seq::<char>::empty());
                assert(arr@.take(20) =~= arr@);
                assert(arr@ + Seq::<u8>::empty() =~= arr@);
            }
        }
        if k2 >= 20 {
            break;
        }
        let c1 = p.get_char(vs + 9 + 2 * k2);
        let c2 = p.get_char(vs + 9 + 2 * k2 + 1);
        let hv = match hex_val(c1) {
            Some(x) => x,
            None => {
                return Err(MagnetError::BadInfoHash);
            },
        };
        let lv = match hex_val(c2) {
            Some(x) => x,
            None => {
                return Err(MagnetError::BadInfoHash);
            },
        };
        let ghost prev = arr@;
        arr[k2] = (hv * 16 + lv) as u8;
        proof {
            let nxt = hex_bytes(h.skip(2 * k2 + 2));
            assert(arr@.take(k2 + 1) =~= prev.take(k2 as int) + seq![((hv * 16 + lv) as u8)]);
            if nxt is Some {
                let rest = nxt->0;
                assert(prev.take(k2 as int) + (seq![((hv * 16 + lv) as u8)] + rest) =~= arr@.take(
                    k2 + 1,
                ) + rest);
            }
        }
        k2 = k2 + 1;
    }
    Ok(arr)
}

/// Applies one `key=value` parameter to the bindings.
fn apply_one(
    p: &str,
    ih: &mut Option<[u8; 20]>,
    name: &mut Option<String>,
    tracker: &mut Option<String>,
) -> (r: Result<(), MagnetError>)
    ensures
        match apply_param(p@, acc_of(*old(ih), *old(name), *old(tracker))) {
            Ok(st2) => r is Ok && acc_of(*final(ih), *final(name), *final(tracker)) == st2,
            Err(e) => r matches Err(e2) && e2 == e && *final(ih) == *old(ih) && *final(name)
                == *old(name) && *final(tracker) == *old(tracker),
        },
{
    let pn = p.unicode_len();
    // find the first '='
    let mut e1: usize = 0;
    loop
        invariant
            e1 <= pn,
            pn == p@.len(),
            cfind(p@, 0, '=') == cfind(p@, e1 as int, '='),
        ensures
            e1 <= pn,
            e1 < pn ==> cfind(p@, 0, '=') == Some(e1 as int),
            e1 == pn ==> cfind(p@, 0, '=') is None,
        decreases pn - e1,
    {
        if e1 >= pn {
            break;
        }
        if p.get_char(e1) == '=' {
            break;
        }
        e1 = e1 + 1;
    }
    let ghost key = p@.take(e1 as int);
    let is_xt = e1 == 2 && p.get_char(0) == 'x' && p.get_char(1) == 't';
    let is_tr = e1 == 2 && p.get_char(0) == 't' && p.get_char(1) == 'r';
    let is_dn = e1 == 2 && p.get_char(0) == 'd' && p.get_char(1) == 'n';
    proof {
        if e1 == 2 {
            assert(key.len() == 2 && key[0] == p@[0] && key[1] == p@[1]);
            if is_xt {
                assert(key =~= seq!['x', 't']);
            }
            if is_tr {
                assert(key =~= seq!['t', 'r']);
            }
            if is_dn {
                assert(key =~= seq!['d', 'n']);
            }
        }
    }
    if !is_xt && !is_tr && !is_dn {
        proof {
            assert(key != seq!['x', 't'] && key != seq!['t', 'r'] && key != seq!['d', 'n']) by {
                if key.len() == 2 {
                    assert(key[0] == p@[0] && key[1] == p@[1]);
                }
            }
        }
        return Ok(());
    }
    // the value runs from past the first '=' to the second '=' or the end
    let vs = e1 + 1;
    let mut e2: usize = vs;
    if e1 < pn {
        loop
            invariant
                vs <= e2 <= pn,
                vs == e1 + 1,
                e1 < pn,
                pn == p@.len(),
                cfind(p@, vs as int, '=') == cfind(p@, e2 as int, '='),
            ensures
                vs <= e2 <= pn,
                e2 < pn ==> cfind(p@, vs as int, '=') == Some(e2 as int),
                e2 == pn ==> cfind(p@, vs as int, '=') is None,
            decreases pn - e2,
        {
            if e2 >= pn {
                break;
            }
            if p.get_char(e2) == '=' {
                break;
            }
            e2 = e2 + 1;
        }
    }
    let ghost value = (if e1 >= pn {
        Seq::<char>::empty()
    } else {
        p@.subrange(vs as int, e2 as int)
    });
    proof {
        if e1 >= pn {
            assert(p@.take(e1 as int) =~= p@.take(p@.len() as int));
        }
    }
    if is_xt {
        if e1 >= pn || e2 - vs != 49 {
            proof {
                assert(value.len() != 49);
            }
            return Err(MagnetError::BadInfoHash);
        }
        match parse_btih(p, vs) {
            Ok(arr) => {
                proof {
                    let v49 = p@.subrange(vs as int, vs + 49);
                    assert(v49 =~= value);
                }
                *ih = Some(arr);
                Ok(())
            },
            Err(e) => {
                proof {
                    let v49 = p@.subrange(vs as int, vs + 49);
                    assert(v49 =~= value);
                }
                Err(e)
            },
        }
    } else {
        let vstr = if e1 >= pn {
            p.substring_char(pn, pn)
        } else {
            p.substring_char(vs, e2)
        };
        proof {
            assert(vstr@ =~= value);
        }
        match url_decode(vstr) {
            Ok(decoded) => {
                if is_tr {
                    *tracker = Some(decoded);
                } else {
                    *name = Some(decoded);
                }
                Ok(())
            },
            Err(e) => Err(e),
        }
    }
}

impl MagnetLink {
    /// Parses a magnet URI.
    #[verifier::rlimit(50)]
    pub fn parse(magnet_link: &str) -> (r: Result<Self, MagnetError>)
        ensures
            match spec_magnet_parse(magnet_link@) {
                Ok(v) => r matches Ok(m) && m.info_hash@ == v.info_hash && opt_str_view(m.name)
                    == v.name && opt_str_view(m.tracker) == v.tracker,
                Err(e) => r matches Err(e2) && e2 == e,
            },
    {
        let n = magnet_link.unicode_len();
        if n < 8 {
            return Err(MagnetError::NotMagnet);
        }
        let pref: [char; 8] = ['m', 'a', 'g', 'n', 'e', 't', ':', '?'];
        proof {
            assert(pref@ =~= magnet_prefix());
        }
        let mut k: usize = 0;
        while k < 8
            invariant
                k <= 8,
                n == magnet_link@.len(),
                n >= 8,
                pref@ == magnet_prefix(),
                forall|j: int| 0 <= j < k ==> magnet_link@[j] == magnet_prefix()[j],
            decreases 8 - k,
        {
            if magnet_link.get_char(k) != pref[k] {
                proof {
                    assert(magnet_link@.take(8)[k as int] != magnet_prefix()[k as int]);
                }
                return Err(MagnetError::NotMagnet);
            }
            k = k + 1;
        }
        proof {
            assert(magnet_link@.take(8) =~= magnet_prefix());
        }
        let ghost init = MagnetAcc { info_hash: None, name: None, tracker: None };
        let mut ih: Option<[u8; 20]> = None;
        let mut name: Option<String> = None;
        let mut tracker: Option<String> = None;
        let mut i: usize = 8;
        loop
            invariant
                8 <= i <= n,
                n == magnet_link@.len(),
                magnet_link@.take(8) == magnet_prefix(),
                init == (MagnetAcc { info_hash: None, name: None, tracker: None }),
                fold_params(magnet_link@, 8, init) == fold_params(
                    magnet_link@,
                    i as int,
                    acc_of(ih, name, tracker),
                ),
            ensures
                n == magnet_link@.len(),
                n >= 8,
                magnet_link@.take(8) == magnet_prefix(),
                init == (MagnetAcc { info_hash: None, name: None, tracker: None }),
                fold_params(magnet_link@, 8, init) == Ok::<MagnetAcc, MagnetError>(
                    acc_of(ih, name, tracker),
                ),
            decreases n - i,
        {
            let s = magnet_link;
            // find the next '&'
            let mut j: usize = i;
            loop
                invariant
                    i <= j <= n,
                    n == s@.len(),
                    cfind(s@, i as int, '&') == cfind(s@, j as int, '&'),
                ensures
                    i <= j <= n,
                    j < n ==> cfind(s@, i as int, '&') == Some(j as int),
                    j == n ==> cfind(s@, i as int, '&') is None,
                decreases n - j,
            {
                if j >= n {
                    break;
                }
                if s.get_char(j) == '&' {
                    break;
                }
                j = j + 1;
            }
            let param = s.substring_char(i, j);
            let ghost acc_before = acc_of(ih, name, tracker);
            proof {
                assert(param@ =~= s@.subrange(i as int, j as int));
                if j < n {
                    assert(fold_params(s@, i as int, acc_before) == (match apply_param(
                        s@.subrange(i as int, j as int),
                        acc_before,
                    ) {
                        Ok(st2) => fold_params(s@, j + 1, st2),
                        Err(e) => Err(e),
                    }));
                } else {
                    assert(fold_params(s@, i as int, acc_before) == apply_param(
                        s@.subrange(i as int, n as int),
                        acc_before,
                    ));
                }
            }
            let res = apply_one(param, &mut ih, &mut name, &mut tracker);
            match res {
                Err(e) => {
                    return Err(e);
                },
                Ok(()) => {},
            }
            if j == n {
                break;
            }
            i = j + 1;
        }
        match ih {
            Some(h) => Ok(MagnetLink { info_hash: h, name, tracker }),
            None => Err(MagnetError::MissingInfoHash),
        }
    }
}

} // verus!
