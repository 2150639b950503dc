//! Byte-string helpers shared by the parsers: trimming of Unicode
//! White_Space on UTF-8 bytes, ASCII case folding, searching, and copying
//! ranges.
use vstd::prelude::*;

verus! {

broadcast use vstd::string::group_string_axioms;

pub const LF: u8 = 10;

pub const CR: u8 = 13;

/// The bytes of an ASCII text, one per character.
pub open spec fn ascii(s: Seq<char>) -> Seq<u8> {
    s.map_values(|c: char| c as u8)
}

/// A one-byte White_Space character: HT, LF, VT, FF, CR or space.
pub open spec fn is_space(b: u8) -> bool {
    b == 32 || (9 <= b && b <= 13)
}

/// The UTF-8 encoding of U+0085 or U+00A0.
pub open spec fn is_space2(b0: u8, b1: u8) -> bool {
    b0 == 0xC2 && (b1 == 0x85 || b1 == 0xA0)
}

/// The UTF-8 encoding of U+1680, U+2000 to U+200A, U+2028, U+2029,
/// U+202F, U+205F or U+3000.
pub open spec fn is_space3(b0: u8, b1: u8, b2: u8) -> bool {
    (b0 == 0xE1 && b1 == 0x9A && b2 == 0x80) || (b0 == 0xE2 && b1 == 0x80 && ((0x80 <= b2
        && b2 <= 0x8A) || b2 == 0xA8 || b2 == 0xA9 || b2 == 0xAF)) || (b0 == 0xE2 && b1 == 0x81
        && b2 == 0x9F) || (b0 == 0xE3 && b1 == 0x80 && b2 == 0x80)
}

/// The length of the White_Space character that `s` starts with (the
/// Unicode property that `char::is_whitespace` and `str::trim` use), or 0.
pub open spec fn lead_space(s: Seq<u8>) -> nat {
    if s.len() >= 1 && is_space(s[0]) {
        1
    } else if s.len() >= 2 && is_space2(s[0], s[1]) {
        2
    } else if s.len() >= 3 && is_space3(s[0], s[1], s[2]) {
        3
    } else {
        0
    }
}

/// The length of the White_Space character that `s` ends with, or 0.
pub open spec fn trail_space(s: Seq<u8>) -> nat {
    let n = s.len() as int;
    if n >= 1 && is_space(s[n - 1]) {
        1
    } else if n >= 2 && is_space2(s[n - 2], s[n - 1]) {
        2
    } else if n >= 3 && is_space3(s[n - 3], s[n - 2], s[n - 1]) {
        3
    } else {
        0
    }
}

/// `s` without its leading White_Space characters.
pub open spec fn trim_start(s: Seq<u8>) -> Seq<u8>
    decreases s.len(),
{
    if lead_space(s) > 0 && lead_space(s) <= s.len() {
        trim_start(s.subrange(lead_space(s) as int, s.len() as int))
    } else {
        s
    }
}

/// `s` without its trailing White_Space characters.
pub open spec fn trim_end(s: Seq<u8>) -> Seq<u8>
    decreases s.len(),
{
    if trail_space(s) > 0 && trail_space(s) <= s.len() {
        trim_end(s.subrange(0, s.len() - trail_space(s)))
    } else {
        s
    }
}

/// The UTF-8 text `s` without leading and trailing White_Space, as
/// `str::trim` gives it.
pub open spec fn trim(s: Seq<u8>) -> Seq<u8> {
    trim_end(trim_start(s))
}

pub open spec fn lower_byte(b: u8) -> u8 {
    if 65 <= b && b <= 90 {
        (b + 32) as u8
    } else {
        b
    }
}

/// `s` with every ASCII capital letter replaced by its small letter.
pub open spec fn lower(s: Seq<u8>) -> Seq<u8> {
    s.map_values(|b: u8| lower_byte(b))
}

/// The first position at which `b` occurs in `s`.
pub open spec fn first_index(s: Seq<u8>, b: u8) -> Option<nat>
    decreases s.len(),
{
    if s.len() == 0 {
        None
    } else if s[0] == b {
        Some(0)
    } else {
        match first_index(s.drop_first(), b) {
            Some(i) => Some(i + 1),
            None => None,
        }
    }
}

/// Whether `pat` occurs in `s` at position `i`.
pub open spec fn occurs_at(s: Seq<u8>, pat: Seq<u8>, i: int) -> bool {
    0 <= i && i + pat.len() <= s.len() && s.subrange(i, i + pat.len()) == pat
}

/// Whether `pat` occurs anywhere in `s`.
pub open spec fn contains(s: Seq<u8>, pat: Seq<u8>) -> bool {
    exists|i: int| occurs_at(s, pat, i)
}

pub proof fn lemma_first_index_bounds(s: Seq<u8>, b: u8)
    ensures
        match first_index(s, b) {
            Some(i) => i < s.len() && s[i as int] == b && forall|j: int|
                0 <= j < i ==> s[j] != b,
            None => forall|j: int| 0 <= j < s.len() ==> s[j] != b,
        },
    decreases s.len(),
{
    if s.len() > 0 && s[0] != b {
        lemma_first_index_bounds(s.drop_first(), b);
        assert forall|j: int| 1 <= j < s.len() implies s[j] == s.drop_first()[j - 1] by {}
    }
}

/// A position `i` with the characterisation of the first occurrence is it.
pub proof fn lemma_first_index_is(s: Seq<u8>, b: u8, i: int)
    requires
        0 <= i < s.len(),
        s[i] == b,
        forall|j: int| 0 <= j < i ==> s[j] != b,
    ensures
        first_index(s, b) == Some(i as nat),
{
    lemma_first_index_bounds(s, b);
}

/// No occurrence at all.
pub proof fn lemma_first_index_none(s: Seq<u8>, b: u8)
    requires
        forall|j: int| 0 <= j < s.len() ==> s[j] != b,
    ensures
        first_index(s, b) == None::<nat>,
{
    lemma_first_index_bounds(s, b);
}

/// Appending bytes keeps an occurrence that was already there.
pub proof fn lemma_first_index_append(s: Seq<u8>, t: Seq<u8>, b: u8)
    requires
        first_index(s, b) is Some,
    ensures
        first_index(s + t, b) == first_index(s, b),
{
    lemma_first_index_bounds(s, b);
    let i = first_index(s, b)->0 as int;
    lemma_first_index_is(s + t, b, i);
}

/// The bytes of the text `s`, which must be ASCII.
pub fn ascii_bytes(s: &str) -> (r: &[u8])
    requires
        s.is_ascii(),
    ensures
        r@ == ascii(s@),
{
    let r = s.as_bytes();
    assert(r@ =~= ascii(s@));
    r
}

/// Copies `s[a..b]`.
pub fn copy_range(s: &[u8], a: usize, b: usize) -> (r: Vec<u8>)
    requires
        a <= b <= s@.len(),
    ensures
        r@ == s@.subrange(a as int, b as int),
{
    let mut r: Vec<u8> = Vec::new();
    let mut i: usize = a;
    while i < b
        invariant
            a <= i <= b <= s@.len(),
            r@ == s@.subrange(a as int, i as int),
        decreases b - i,
    {
        r.push(s[i]);
        i = i + 1;
        assert(r@ =~= s@.subrange(a as int, i as int));
    }
    r
}

/// Appends the bytes of `t` to `r`.
pub fn append_bytes(r: &mut Vec<u8>, t: &[u8])
    ensures
        final(r)@ == old(r)@ + t@,
{
    let mut i: usize = 0;
    while i < t.len()
        invariant
            i <= t@.len(),
            r@ == old(r)@ + t@.subrange(0, i as int),
        decreases t@.len() - i,
    {
        r.push(t[i]);
        i = i + 1;
        assert(r@ =~= old(r)@ + t@.subrange(0, i as int));
    }
    assert(t@.subrange(0, t@.len() as int) =~= t@);
}

/// `lead_space(s[i..n])`.
pub fn lead_space_at(s: &[u8], i: usize, n: usize) -> (r: usize)
    requires
        i <= n <= s@.len(),
    ensures
        r == lead_space(s@.subrange(i as int, n as int)),
{
    let ghost t = s@.subrange(i as int, n as int);
    let m = n - i;
    if m >= 1 && (s[i] == 32 || (9 <= s[i] && s[i] <= 13)) {
        assert(t[0] == s@[i as int]);
        return 1;
    }
    assert(m >= 1 ==> t[0] == s@[i as int]);
    if m >= 2 && s[i] == 0xC2 && (s[i + 1] == 0x85 || s[i + 1] == 0xA0) {
        assert(t[1] == s@[i + 1]);
        return 2;
    }
    assert(m >= 2 ==> t[1] == s@[i + 1]);
    if m >= 3 {
        let b0 = s[i];
        let b1 = s[i + 1];
        let b2 = s[i + 2];
        assert(t[2] == b2);
        if (b0 == 0xE1 && b1 == 0x9A && b2 == 0x80) || (b0 == 0xE2 && b1 == 0x80 && ((0x80 <= b2
            && b2 <= 0x8A) || b2 == 0xA8 || b2 == 0xA9 || b2 == 0xAF)) || (b0 == 0xE2 && b1
            == 0x81 && b2 == 0x9F) || (b0 == 0xE3 && b1 == 0x80 && b2 == 0x80) {
            return 3;
        }
    }
    0
}

/// `trail_space(s[a..j])`.
pub fn trail_space_before(s: &[u8], a: usize, j: usize) -> (r: usize)
    requires
        a <= j <= s@.len(),
    ensures
        r == trail_space(s@.subrange(a as int, j as int)),
{
    let ghost t = s@.subrange(a as int, j as int);
    let m = j - a;
    if m >= 1 {
        assert(t[m - 1] == s@[j - 1]);
        if s[j - 1] == 32 || (9 <= s[j - 1] && s[j - 1] <= 13) {
            return 1;
        }
    }
    if m >= 2 {
        assert(t[m - 2] == s@[j - 2]);
        if s[j - 2] == 0xC2 && (s[j - 1] == 0x85 || s[j - 1] == 0xA0) {
            return 2;
        }
    }
    if m >= 3 {
        let b0 = s[j - 3];
        let b1 = s[j - 2];
        let b2 = s[j - 1];
        assert(t[m - 3] == b0);
        if (b0 == 0xE1 && b1 == 0x9A && b2 == 0x80) || (b0 == 0xE2 && b1 == 0x80 && ((0x80 <= b2
            && b2 <= 0x8A) || b2 == 0xA8 || b2 == 0xA9 || b2 == 0xAF)) || (b0 == 0xE2 && b1
            == 0x81 && b2 == 0x9F) || (b0 == 0xE3 && b1 == 0x80 && b2 == 0x80) {
            return 3;
        }
    }
    0
}

/// The bounds `(a, b)` with `s[a..b] == trim(s)`.
pub fn trim_bounds(s: &[u8]) -> (r: (usize, usize))
    ensures
        r.0 <= r.1 <= s@.len(),
        s@.subrange(r.0 as int, r.1 as int) == trim(s@),
{
    let n = s.len();
    let mut a: usize = 0;
    assert(s@.subrange(0, n as int) =~= s@);
    loop
        invariant
            a <= n == s@.len(),
            trim_start(s@) == trim_start(s@.subrange(a as int, n as int)),
        ensures
            a <= n == s@.len(),
            trim_start(s@) == s@.subrange(a as int, n as int),
        decreases n - a,
    {
        let k = lead_space_at(s, a, n);
        if k == 0 {
            break;
        }
        assert(s@.subrange(a as int, n as int).subrange(k as int, (n - a) as int) =~= s@.subrange(
            a + k,
            n as int,
        ));
        a = a + k;
    }
    let ghost t = s@.subrange(a as int, n as int);
    let mut b: usize = n;
    assert(t.subrange(0, (n - a) as int) =~= t);
    loop
        invariant
            a <= b <= n == s@.len(),
            t == s@.subrange(a as int, n as int),
            trim_end(t) == trim_end(s@.subrange(a as int, b as int)),
        ensures
            a <= b <= n == s@.len(),
            trim_end(t) == s@.subrange(a as int, b as int),
        decreases b - a,
    {
        let k = trail_space_before(s, a, b);
        if k == 0 {
            break;
        }
        assert(s@.subrange(a as int, b as int).subrange(0, (b - a - k) as int) =~= s@.subrange(
            a as int,
            (b - k) as int,
        ));
        b = b - k;
    }
    (a, b)
}

/// `trim(s)` as a new vector.
pub fn trimmed(s: &[u8]) -> (r: Vec<u8>)
    ensures
        r@ == trim(s@),
{
    let (a, b) = trim_bounds(s);
    copy_range(s, a, b)
}

/// `lower(s)` as a new vector.
pub fn lowercase(s: &[u8]) -> (r: Vec<u8>)
    ensures
        r@ == lower(s@),
{
    let mut r: Vec<u8> = Vec::new();
    let mut i: usize = 0;
    while i < s.len()
        invariant
            i <= s@.len(),
            r@ == lower(s@.subrange(0, i as int)),
        decreases s@.len() - i,
    {
        let c = s[i];
        let l = if 65 <= c && c <= 90 {
            c + 32
        } else {
            c
        };
        r.push(l);
        i = i + 1;
        assert(r@ =~= lower(s@.subrange(0, i as int)));
    }
    assert(s@.subrange(0, s@.len() as int) =~= s@);
    r
}

/// The first position of `b` in `s[from..]`, counted from the start of `s`.
pub fn find_byte(s: &[u8], from: usize, b: u8) -> (r: Option<usize>)
    requires
        from <= s@.len(),
    ensures
        r == match first_index(s@.subrange(from as int, s@.len() as int), b) {
            Some(i) => Some((from + i) as usize),
            None => None::<usize>,
        },
        match r {
            Some(j) => from <= j < s@.len() && s@[j as int] == b,
            None => true,
        },
{
    let ghost t = s@.subrange(from as int, s@.len() as int);
    let mut i: usize = from;
    while i < s.len()
        invariant
            from <= i <= s@.len(),
            t == s@.subrange(from as int, s@.len() as int),
            forall|j: int| 0 <= j < i - from ==> t[j] != b,
        decreases s@.len() - i,
    {
        if s[i] == b {
            proof {
                lemma_first_index_is(t, b, (i - from) as int);
            }
            return Some(i);
        }
        i = i + 1;
    }
    proof {
        lemma_first_index_none(t, b);
    }
    None
}

/// Whether `pat` occurs in `s` at position `i`.
pub fn matches_at(s: &[u8], pat: &[u8], i: usize) -> (r: bool)
    ensures
        r == occurs_at(s@, pat@, i as int),
{
    if i > s.len() || pat.len() > s.len() - i {
        return false;
    }
    let mut k: usize = 0;
    while k < pat.len()
        invariant
            k <= pat@.len(),
            i + pat@.len() <= s.len(),
            forall|j: int| 0 <= j < k ==> s@[i + j] == pat@[j],
        decreases pat@.len() - k,
    {
        if s[i + k] != pat[k] {
            assert(s@.subrange(i as int, i + pat@.len())[k as int] != pat@[k as int]);
            return false;
        }
        k = k + 1;
    }
    assert(s@.subrange(i as int, i + pat@.len()) =~= pat@);
    true
}

/// Whether `s` begins with `pat`.
pub fn has_prefix(s: &[u8], pat: &[u8]) -> (r: bool)
    ensures
        r == (pat@.len() <= s@.len() && s@.subrange(0, pat@.len() as int) == pat@),
{
    matches_at(s, pat, 0)
}

/// The first position at which `pat` occurs in `s`.
pub fn find_pattern(s: &[u8], pat: &[u8]) -> (r: Option<usize>)
    ensures
        match r {
            Some(i) => occurs_at(s@, pat@, i as int) && forall|j: int|
                0 <= j < i ==> !occurs_at(s@, pat@, j),
            None => !contains(s@, pat@),
        },
{
    let mut i: usize = 0;
    while i < s.len()
        invariant
            i <= s@.len(),
            forall|j: int| 0 <= j < i ==> !occurs_at(s@, pat@, j),
        decreases s@.len() - i,
    {
        if matches_at(s, pat, i) {
            return Some(i);
        }
        i = i + 1;
    }
    if matches_at(s, pat, i) {
        return Some(i);
    }
    None
}

/// Whether `pat` occurs anywhere in `s`.
pub fn contains_pattern(s: &[u8], pat: &[u8]) -> (r: bool)
    ensures
        r == contains(s@, pat@),
{
    match find_pattern(s, pat) {
        Some(i) => true,
        None => false,
    }
}

} // verus!
