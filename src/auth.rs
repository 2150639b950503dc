//! HTTP Basic authentication: the `Basic <base64>` credentials of an
//! `Authorization` header, decoded into a user name and a password.
use vstd::prelude::*;
use vstd::string::StringSliceAdditionalSpecFns;
use vstd::utf8::{valid_utf8, decode_utf8};
use crate::text::{ascii, trim, first_index, lemma_first_index_bounds, find_byte, copy_range, trim_bounds, has_prefix, ascii_bytes};

verus! {

broadcast use vstd::string::group_string_axioms;

pub const PAD: u8 = 61;

pub const COLON: u8 = 58;

/// Whether `b` is a letter of the standard base64 alphabet.
pub open spec fn is_b64(b: u8) -> bool {
    (65 <= b && b <= 90) || (97 <= b && b <= 122) || (48 <= b && b <= 57) || b == 43 || b == 47
}

/// The six bits that a base64 letter stands for.
pub open spec fn sextet(b: u8) -> u8 {
    if 65 <= b && b <= 90 {
        (b - 65) as u8
    } else if 97 <= b && b <= 122 {
        (b - 71) as u8
    } else if 48 <= b && b <= 57 {
        (b + 4) as u8
    } else if b == 43 {
        62
    } else {
        63
    }
}

/// The text up to the first `=`, which ends the data.
pub open spec fn before_pad(s: Seq<u8>) -> Seq<u8> {
    match first_index(s, PAD) {
        Some(i) => s.subrange(0, i as int),
        None => s,
    }
}

pub open spec fn all_b64(s: Seq<u8>) -> bool {
    forall|i: int| 0 <= i < s.len() ==> is_b64(#[trigger] s[i])
}

pub open spec fn first_byte(a: u8, b: u8) -> u8 {
    ((a % 64) * 4 + b / 16) as u8
}

pub open spec fn second_byte(b: u8, c: u8) -> u8 {
    ((b % 16) * 16 + c / 4) as u8
}

pub open spec fn third_byte(c: u8, d: u8) -> u8 {
    ((c % 4) * 64 + d) as u8
}

/// The bytes that a sequence of sextets writes: three for each four, and
/// for a shorter tail as many whole bytes as its bits make.
pub open spec fn decode_sextets(v: Seq<u8>) -> Seq<u8>
    decreases v.len(),
{
    if v.len() >= 4 {
        seq![first_byte(v[0], v[1]), second_byte(v[1], v[2]), third_byte(v[2], v[3])]
            + decode_sextets(v.subrange(4, v.len() as int))
    } else if v.len() == 3 {
        seq![first_byte(v[0], v[1]), second_byte(v[1], v[2])]
    } else if v.len() == 2 {
        seq![first_byte(v[0], v[1])]
    } else {
        seq![]
    }
}

pub open spec fn sextets(t: Seq<u8>) -> Seq<u8> {
    t.map_values(|b: u8| sextet(b))
}

/// What `base64_decode` gives for the text `s`: `None` where a letter
/// before the first `=` is outside the alphabet.
pub open spec fn base64_of(s: Seq<u8>) -> Option<Seq<u8>> {
    let t = before_pad(s);
    if all_b64(t) {
        Some(decode_sextets(sextets(t)))
    } else {
        None
    }
}

/// Decodes standard base64 (`A-Z a-z 0-9 + /`), reading up to the first
/// `=` and checking no padding. Any other character before it, non-ASCII
/// ones included, makes it fail.
pub fn base64_decode(input: &str) -> (r: Option<Vec<u8>>)
    ensures
        match base64_of(input.spec_bytes()) {
            Some(d) => r is Some && r->0@ == d,
            None => r is None,
        },
{
    base64_bytes(input.as_bytes())
}

/// `base64_decode` on bytes.
pub fn base64_bytes(s: &[u8]) -> (r: Option<Vec<u8>>)
    ensures
        match base64_of(s@) {
            Some(d) => r is Some && r->0@ == d,
            None => r is None,
        },
{
    let n = s.len();
    proof {
        lemma_first_index_bounds(s@, PAD);
    }
    assert(s@.subrange(0, n as int) =~= s@);
    let end = match find_byte(s, 0, PAD) {
        Some(i) => i,
        None => n,
    };
    let ghost t = before_pad(s@);
    assert(t =~= s@.subrange(0, end as int));
    let mut v: Vec<u8> = Vec::new();
    let mut i: usize = 0;
    while i < end
        invariant
            i <= end <= n == s@.len(),
            t == s@.subrange(0, end as int),
            t == before_pad(s@),
            v@.len() == i,
            forall|j: int| 0 <= j < i ==> is_b64(#[trigger] t[j]) && v@[j] == sextet(t[j]),
        decreases end - i,
    {
        let b = s[i];
        assert(t[i as int] == b);
        let x: u8 = if 65 <= b && b <= 90 {
            b - 65
        } else if 97 <= b && b <= 122 {
            b - 71
        } else if 48 <= b && b <= 57 {
            b + 4
        } else if b == 43 {
            62
        } else if b == 47 {
            63
        } else {
            assert(!is_b64(t[i as int]));
            return None;
        };
        v.push(x);
        i = i + 1;
    }
    assert(v@ =~= sextets(t));
    assert(all_b64(t));
    Some(decode_all(&v))
}

/// `decode_sextets(v@)`.
fn decode_all(v: &Vec<u8>) -> (r: Vec<u8>)
    requires
        forall|j: int| 0 <= j < v@.len() ==> v@[j] < 64,
    ensures
        r@ == decode_sextets(v@),
{
    let n = v.len();
    let mut out: Vec<u8> = Vec::new();
    let mut i: usize = 0;
    assert(v@.subrange(0, n as int) =~= v@);
    while n - i >= 4
        invariant
            i <= n == v@.len(),
            forall|j: int| 0 <= j < v@.len() ==> v@[j] < 64,
            decode_sextets(v@) == out@ + decode_sextets(v@.subrange(i as int, n as int)),
        decreases n - i,
    {
        let a = v[i];
        let b = v[i + 1];
        let c = v[i + 2];
        let d = v[i + 3];
        let ghost w = v@.subrange(i as int, n as int);
        assert(w.subrange(4, w.len() as int) =~= v@.subrange(i + 4, n as int));
        assert(w[0] == a && w[1] == b && w[2] == c && w[3] == d);
        let ghost o = out@;
        out.push(((a % 64) * 4 + b / 16) as u8);
        out.push(((b % 16) * 16 + c / 4) as u8);
        out.push(((c % 4) * 64 + d) as u8);
        assert(out@ =~= o + seq![first_byte(a, b), second_byte(b, c), third_byte(c, d)]);
        i = i + 4;
    }
    let ghost w = v@.subrange(i as int, n as int);
    let ghost o = out@;
    let k = n - i;
    if k == 3 {
        assert(w[0] == v@[i as int] && w[1] == v@[i + 1] && w[2] == v@[i + 2]);
        out.push(((v[i] % 64) * 4 + v[i + 1] / 16) as u8);
        out.push(((v[i + 1] % 16) * 16 + v[i + 2] / 4) as u8);
        assert(out@ =~= o + decode_sextets(w));
    } else if k == 2 {
        assert(w[0] == v@[i as int] && w[1] == v@[i + 1]);
        out.push(((v[i] % 64) * 4 + v[i + 1] / 16) as u8);
        assert(out@ =~= o + decode_sextets(w));
    } else {
        assert(out@ =~= o + decode_sextets(w));
    }
    out
}

/// Relies on `String::from_utf8`: it succeeds exactly on valid UTF-8, and
/// the string then holds the characters that the bytes encode.
#[verifier::external_body]
fn utf8_string(b: Vec<u8>) -> (r: Option<String>)
    ensures
        match r {
            Some(t) => valid_utf8(b@) && t@ == decode_utf8(b@),
            None => !valid_utf8(b@),
        },
{
    String::from_utf8(b).ok()
}

/// The base64 data of a `Basic` credential header: what follows
/// `Basic `, trimmed.
pub open spec fn basic_payload(h: Seq<u8>) -> Option<Seq<u8>> {
    let p = ascii("Basic "@);
    if p.len() <= h.len() && h.subrange(0, p.len() as int) == p {
        Some(trim(h.subrange(p.len() as int, h.len() as int)))
    } else {
        None
    }
}

/// The user name and password bytes of a `Basic` credential header: the
/// decoded data split at its first colon.
pub open spec fn credentials_of(h: Seq<u8>) -> Option<(Seq<u8>, Seq<u8>)> {
    match basic_payload(h) {
        Some(p) => match base64_of(p) {
            Some(d) => match first_index(d, COLON) {
                Some(c) => Some((d.subrange(0, c as int), d.subrange((c + 1) as int, d.len() as int))),
                None => None,
            },
            None => None,
        },
        None => None,
    }
}

/// Decodes an HTTP Basic credential header (`Basic <base64 of user:pass>`)
/// into the user name and the password. `None` where the header does not
/// start with `Basic `, the data is no base64, has no colon, or either part
/// is no UTF-8.
pub fn decode_basic_auth(header: &str) -> (r: Option<(String, String)>)
    ensures
        match credentials_of(header.spec_bytes()) {
            Some((u, p)) => if valid_utf8(u) && valid_utf8(p) {
                match r {
                    Some(x) => x.0@ == decode_utf8(u) && x.1@ == decode_utf8(p),
                    None => false,
                }
            } else {
                r is None
            },
            None => r is None,
        },
{
    let h = header.as_bytes();
    let n = h.len();
    proof {
        reveal_strlit("Basic ");
    }
    let prefix = ascii_bytes("Basic ");
    if !has_prefix(h, prefix) {
        return None;
    }
    let rest = copy_range(h, prefix.len(), n);
    let (a, b) = trim_bounds(rest.as_slice());
    let payload = copy_range(rest.as_slice(), a, b);
    let decoded = match base64_bytes(payload.as_slice()) {
        Some(d) => d,
        None => {
            return None;
        },
    };
    let m = decoded.len();
    proof {
        lemma_first_index_bounds(decoded@, COLON);
    }
    assert(decoded@.subrange(0, m as int) =~= decoded@);
    let c = match find_byte(decoded.as_slice(), 0, COLON) {
        Some(c) => c,
        None => {
            return None;
        },
    };
    let user = copy_range(decoded.as_slice(), 0, c);
    let pass = copy_range(decoded.as_slice(), c + 1, m);
    match (utf8_string(user), utf8_string(pass)) {
        (Some(u), Some(p)) => Some((u, p)),
        _ => None,
    }
}

} // verus!
