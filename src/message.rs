//! The parts of a request that the exchange needs (method, path, the
//! headers that steer it, the bytes after the header block) and the bytes
//! of a response.
use vstd::prelude::*;
use crate::text::{
    CR, LF, ascii, lower, lead_space, trim_start, contains, occurs_at, lead_space_at,
    lemma_first_index_bounds, find_byte, find_pattern, copy_range, append_bytes, lowercase,
};
use crate::headers::{lines_of, header_model, values_of, parse_header_bytes, HeaderMap};
use crate::router::{ResponseModel, Response, status_line_of, mime_of, lit, is_lit, after};

verus! {

broadcast use vstd::string::group_string_axioms;

/// The first line of a request.
pub open spec fn request_line(data: Seq<u8>) -> Seq<u8> {
    if lines_of(data).len() > 0 {
        lines_of(data)[0]
    } else {
        seq![]
    }
}

/// How many bytes at the start of `s` come before its first White_Space
/// character.
pub open spec fn word_len(s: Seq<u8>) -> nat
    decreases s.len(),
{
    if s.len() == 0 || lead_space(s) > 0 {
        0
    } else {
        1 + word_len(s.drop_first())
    }
}

/// The first word of `s`, as `str::split_whitespace` splits it.
pub open spec fn first_word(s: Seq<u8>) -> Seq<u8> {
    let t = trim_start(s);
    t.subrange(0, word_len(t) as int)
}

/// What follows the first word of `s`.
pub open spec fn after_first_word(s: Seq<u8>) -> Seq<u8> {
    let t = trim_start(s);
    after(t, word_len(t))
}

/// The method: the first word of the request line.
pub open spec fn method_of(data: Seq<u8>) -> Seq<u8> {
    first_word(request_line(data))
}

/// The path: the second word of the request line.
pub open spec fn path_of(data: Seq<u8>) -> Seq<u8> {
    first_word(after_first_word(request_line(data)))
}

/// The first value of the header `name` (lower case).
pub open spec fn first_value(data: Seq<u8>, name: Seq<u8>) -> Option<Seq<u8>> {
    match values_of(header_model(data), name) {
        Some(vs) => if vs.len() > 0 {
            Some(vs[0])
        } else {
            None
        },
        None => None,
    }
}

/// Whether the first `Transfer-Encoding` value is `chunked`, in any case.
pub open spec fn is_chunked(data: Seq<u8>) -> bool {
    match first_value(data, ascii("transfer-encoding"@)) {
        Some(v) => lower(v) == ascii("chunked"@),
        None => false,
    }
}

/// Whether the first `Connection` value is `keep-alive`, in any case. Any
/// other value, and no such header, asks to close.
pub open spec fn wants_keep_alive(data: Seq<u8>) -> bool {
    match first_value(data, ascii("connection"@)) {
        Some(v) => lower(v) == ascii("keep-alive"@),
        None => false,
    }
}

pub open spec fn blank_line() -> Seq<u8> {
    seq![CR, LF, CR, LF]
}

/// Whether `i` is where the first blank line (`CRLF CRLF`) starts.
pub open spec fn is_head_end(data: Seq<u8>, i: int) -> bool {
    occurs_at(data, blank_line(), i) && forall|j: int| 0 <= j < i ==> !occurs_at(data, blank_line(), j)
}

/// The bytes after the first blank line; none where there is no blank line.
pub open spec fn after_head(data: Seq<u8>) -> Seq<u8> {
    if contains(data, blank_line()) {
        let i = choose|i: int| is_head_end(data, i);
        data.subrange(i + 4, data.len() as int)
    } else {
        seq![]
    }
}

/// The decimal digits of `n`.
pub open spec fn dec_text(n: nat) -> Seq<u8>
    decreases n,
{
    if n < 10 {
        seq![(48 + n) as u8]
    } else {
        dec_text(n / 10).push((48 + n % 10) as u8)
    }
}

/// The bytes sent for a response: status line, `Content-Type`,
/// `Content-Length` (the body's length in bytes), `Connection`, a blank
/// line, and the body.
pub open spec fn response_bytes(r: ResponseModel, keep_alive: bool) -> Seq<u8> {
    status_line_of(r.status) + ascii("\r\nContent-Type: "@) + mime_of(r.content_type) + ascii(
        "\r\nContent-Length: "@,
    ) + dec_text(r.body.len()) + ascii("\r\n"@) + (if keep_alive {
        ascii("Connection: keep-alive\r\n"@)
    } else {
        ascii("Connection: close\r\n"@)
    }) + ascii("\r\n"@) + r.body
}

/// The first line of a request.
pub fn request_line_of(data: &[u8]) -> (r: Vec<u8>)
    ensures
        r@ == request_line(data@),
{
    let n = data.len();
    if n == 0 {
        return Vec::new();
    }
    proof {
        lemma_first_index_bounds(data@, LF);
    }
    assert(data@.subrange(0, n as int) =~= data@);
    match find_byte(data, 0, LF) {
        Some(j) => {
            if j > 0 && data[j - 1] == CR {
                let r = copy_range(data, 0, j - 1);
                assert(data@.subrange(0, j as int).drop_last() =~= r@);
                r
            } else {
                copy_range(data, 0, j)
            }
        },
        None => copy_range(data, 0, n),
    }
}

/// The bounds of the first word of `s[from..]`.
fn word_bounds(s: &[u8], from: usize) -> (r: (usize, usize))
    requires
        from <= s@.len(),
    ensures
        from <= r.0 <= r.1 <= s@.len(),
        s@.subrange(r.0 as int, r.1 as int) == first_word(s@.subrange(from as int, s@.len() as int)),
        s@.subrange(r.1 as int, s@.len() as int) == after_first_word(
            s@.subrange(from as int, s@.len() as int),
        ),
{
    let n = s.len();
    let ghost u = s@.subrange(from as int, n as int);
    let mut a: usize = from;
    assert(u =~= s@.subrange(from as int, n as int));
    loop
        invariant
            from <= a <= n == s@.len(),
            trim_start(u) == trim_start(s@.subrange(a as int, n as int)),
        ensures
            from <= a <= n == s@.len(),
            trim_start(u) == s@.subrange(a as int, n as int),
        decreases n - a,
    {
        let k = lead_space_at(s, a, n);
        if k == 0 {
            break;
        }
        assert(s@.subrange(a as int, n as int).subrange(k as int, (n - a) as int) =~= s@.subrange(
            a + k,
            n as int,
        ));
        a = a + k;
    }
    let ghost t = s@.subrange(a as int, n as int);
    let mut b: usize = a;
    while b < n && lead_space_at(s, b, n) == 0
        invariant
            a <= b <= n == s@.len(),
            t == s@.subrange(a as int, n as int),
            word_len(t) == (b - a) + word_len(s@.subrange(b as int, n as int)),
        decreases n - b,
    {
        assert(s@.subrange(b as int, n as int).drop_first() =~= s@.subrange(b + 1, n as int));
        b = b + 1;
    }
    assert(t.subrange(0, (b - a) as int) =~= s@.subrange(a as int, b as int));
    assert(after(t, (b - a) as nat) =~= s@.subrange(b as int, n as int));
    (a, b)
}

/// The method and the path of a request.
pub fn method_and_path(data: &[u8]) -> (r: (Vec<u8>, Vec<u8>))
    ensures
        r.0@ == method_of(data@),
        r.1@ == path_of(data@),
{
    let line = request_line_of(data);
    let l = line.as_slice();
    assert(l@.subrange(0, l@.len() as int) =~= l@);
    let (a, b) = word_bounds(l, 0);
    let (c, d) = word_bounds(l, b);
    (copy_range(l, a, b), copy_range(l, c, d))
}

proof fn lemma_head_end_unique(data: Seq<u8>, i: int)
    requires
        is_head_end(data, i),
    ensures
        contains(data, blank_line()),
        (choose|k: int| is_head_end(data, k)) == i,
{
    let k = choose|k: int| is_head_end(data, k);
    assert(is_head_end(data, k));
    if k < i {
        assert(!occurs_at(data, blank_line(), k));
    }
    if i < k {
        assert(!occurs_at(data, blank_line(), i));
    }
}

/// The bytes after the first blank line.
pub fn body_after_head(data: &[u8]) -> (r: Vec<u8>)
    ensures
        r@ == after_head(data@),
{
    proof {
        reveal_strlit("\r\n\r\n");
    }
    let pat = lit("\r\n\r\n");
    let n = data.len();
    assert(pat@ =~= blank_line());
    match find_pattern(data, pat.as_slice()) {
        Some(i) => {
            proof {
                lemma_head_end_unique(data@, i as int);
            }
            copy_range(data, i + 4, n)
        },
        None => Vec::new(),
    }
}

/// The first value of the header `name`.
fn first_header_value(h: &HeaderMap, data: Ghost<Seq<u8>>, name: &str) -> (r: Option<Vec<u8>>)
    requires
        h@ == header_model(data@),
        name.is_ascii(),
    ensures
        match first_value(data@, ascii(name@)) {
            Some(v) => r is Some && r->0@ == v,
            None => r is None,
        },
{
    let key = lit(name);
    match h.first(key.as_slice()) {
        Some(v) => Some(copy_range(v.as_slice(), 0, v.len())),
        None => None,
    }
}

/// What the exchange needs to know of a request.
pub struct RequestInfo {
    pub method: Vec<u8>,
    pub path: Vec<u8>,
    pub chunked: bool,
    pub keep_alive: bool,
    pub rest: Vec<u8>,
}

/// Reads the method, path, `Transfer-Encoding` and `Connection` of a
/// request, and the bytes after its header block.
pub fn request_info(data: &[u8]) -> (r: RequestInfo)
    ensures
        r.method@ == method_of(data@),
        r.path@ == path_of(data@),
        r.chunked == is_chunked(data@),
        r.keep_alive == wants_keep_alive(data@),
        r.rest@ == after_head(data@),
{
    let (method, path) = method_and_path(data);
    let h = parse_header_bytes(data);
    proof {
        reveal_strlit("transfer-encoding");
        reveal_strlit("connection");
        reveal_strlit("chunked");
        reveal_strlit("keep-alive");
    }
    let chunked = match first_header_value(&h, Ghost(data@), "transfer-encoding") {
        Some(v) => is_lit(lowercase(v.as_slice()).as_slice(), "chunked"),
        None => false,
    };
    let keep_alive = match first_header_value(&h, Ghost(data@), "connection") {
        Some(v) => is_lit(lowercase(v.as_slice()).as_slice(), "keep-alive"),
        None => false,
    };
    RequestInfo { method, path, chunked, keep_alive, rest: body_after_head(data) }
}

/// The decimal digits of `n`.
pub fn decimal(n: usize) -> (r: Vec<u8>)
    ensures
        r@ == dec_text(n as nat),
    decreases n,
{
    if n < 10 {
        let mut r: Vec<u8> = Vec::new();
        r.push((48 + n) as u8);
        assert(r@ =~= dec_text(n as nat));
        r
    } else {
        let mut r = decimal(n / 10);
        r.push((48 + n % 10) as u8);
        r
    }
}

/// The bytes sent for `resp`.
pub fn response_to_bytes(resp: &Response, keep_alive: bool) -> (r: Vec<u8>)
    ensures
        r@ == response_bytes(resp@, keep_alive),
{
    proof {
        reveal_strlit("\r\nContent-Type: ");
        reveal_strlit("\r\nContent-Length: ");
        reveal_strlit("\r\n");
        reveal_strlit("Connection: keep-alive\r\n");
        reveal_strlit("Connection: close\r\n");
    }
    let mut r = resp.status.status_line();
    append_bytes(&mut r, lit("\r\nContent-Type: ").as_slice());
    append_bytes(&mut r, resp.content_type.mime().as_slice());
    append_bytes(&mut r, lit("\r\nContent-Length: ").as_slice());
    append_bytes(&mut r, decimal(resp.body.len()).as_slice());
    append_bytes(&mut r, lit("\r\n").as_slice());
    if keep_alive {
        append_bytes(&mut r, lit("Connection: keep-alive\r\n").as_slice());
    } else {
        append_bytes(&mut r, lit("Connection: close\r\n").as_slice());
    }
    append_bytes(&mut r, lit("\r\n").as_slice());
    append_bytes(&mut r, resp.body.as_slice());
    r
}

} // verus!
