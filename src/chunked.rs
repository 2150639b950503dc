//! Bodies sent with `Transfer-Encoding: chunked`: size lines in hex, each
//! followed by that many payload bytes and a line ending, up to a chunk of
//! size zero. Decoding is incremental, so bytes can be fed as they arrive.
use vstd::prelude::*;
use crate::text::{
    CR, LF, first_index, lemma_first_index_bounds, lemma_first_index_append, trim, trim_start,
    trim_end, find_byte, copy_range, append_bytes, trim_bounds,
};

verus! {

/// `s` without its carriage returns.
pub open spec fn without_cr(s: Seq<u8>) -> Seq<u8>
    decreases s.len(),
{
    if s.len() == 0 {
        s
    } else if s.last() == CR {
        without_cr(s.drop_last())
    } else {
        without_cr(s.drop_last()).push(s.last())
    }
}

pub open spec fn is_hex_digit(b: u8) -> bool {
    (48 <= b && b <= 57) || (97 <= b && b <= 102) || (65 <= b && b <= 70)
}

pub open spec fn hex_digit_value(b: u8) -> nat {
    if 48 <= b && b <= 57 {
        (b - 48) as nat
    } else if 97 <= b && b <= 102 {
        (b - 87) as nat
    } else if 65 <= b && b <= 70 {
        (b - 55) as nat
    } else {
        0
    }
}

/// The number that the hex digits `s` write, most significant first.
pub open spec fn hex_value(s: Seq<u8>) -> nat
    decreases s.len(),
{
    if s.len() == 0 {
        0
    } else {
        hex_value(s.drop_last()) * 16 + hex_digit_value(s.last())
    }
}

pub open spec fn all_hex(s: Seq<u8>) -> bool {
    forall|i: int| 0 <= i < s.len() ==> is_hex_digit(#[trigger] s[i])
}

/// The chunk size that a size line (without its line feed) announces: its
/// bytes other than carriage returns, trimmed, read as a hex number that
/// fits in `usize`. `None` where the line is no such number.
pub open spec fn size_of_line(line: Seq<u8>) -> Option<nat> {
    let t = trim(without_cr(line));
    if t.len() > 0 && all_hex(t) && hex_value(t) <= usize::MAX {
        Some(hex_value(t))
    } else {
        None
    }
}

/// Where a chunked decoder stands: the size of a chunk whose payload is
/// awaited, the bytes not yet consumed, the body decoded so far, and whether
/// the end was reached.
pub struct ChunkState {
    pub pending: Option<nat>,
    pub buf: Seq<u8>,
    pub body: Seq<u8>,
    pub done: bool,
}

pub open spec fn measure(st: ChunkState) -> int {
    2 * st.buf.len() + if st.pending is None {
        1int
    } else {
        0int
    }
}

/// Decodes as far as the buffered bytes allow.
pub open spec fn advance(st: ChunkState) -> ChunkState
    decreases measure(st),
{
    if st.done {
        st
    } else {
        match st.pending {
            Some(n) => if st.buf.len() >= n + 2 {
                advance(
                    ChunkState {
                        pending: None,
                        buf: st.buf.subrange((n + 2) as int, st.buf.len() as int),
                        body: st.body + st.buf.subrange(0, n as int),
                        done: false,
                    },
                )
            } else {
                st
            },
            None => match first_index(st.buf, LF) {
                Some(i) => if i < st.buf.len() {
                    let rest = st.buf.subrange((i + 1) as int, st.buf.len() as int);
                    match size_of_line(st.buf.subrange(0, i as int)) {
                        Some(n) => if n > 0 {
                            advance(ChunkState { pending: Some(n), buf: rest, body: st.body, done: false })
                        } else {
                            ChunkState { pending: None, buf: rest, body: st.body, done: true }
                        },
                        None => ChunkState { pending: None, buf: rest, body: st.body, done: true },
                    }
                } else {
                    st
                },
                None => st,
            },
        }
    }
}

/// Adds bytes that arrived to the buffer.
pub open spec fn feed(st: ChunkState, t: Seq<u8>) -> ChunkState {
    ChunkState { buf: st.buf + t, ..st }
}

/// The state after the bytes that followed the header block.
pub open spec fn start(initial: Seq<u8>) -> ChunkState {
    advance(ChunkState { pending: None, buf: initial, body: seq![], done: false })
}

/// The state after feeding each of `frags` in turn, decoding after each.
pub open spec fn feed_all(st: ChunkState, frags: Seq<Seq<u8>>) -> ChunkState
    decreases frags.len(),
{
    if frags.len() == 0 {
        st
    } else {
        feed_all(advance(feed(st, frags[0])), frags.drop_first())
    }
}

/// The byte strings `s` joined in order.
pub open spec fn joined(s: Seq<Seq<u8>>) -> Seq<u8>
    decreases s.len(),
{
    if s.len() == 0 {
        seq![]
    } else {
        s[0] + joined(s.drop_first())
    }
}

/// A size text for a payload: hex digits, at least one, whose number is
/// the payload's length (any case, leading zeros allowed).
pub open spec fn sizes(size: Seq<u8>, n: nat) -> bool {
    size.len() > 0 && all_hex(size) && hex_value(size) == n
}

/// One chunk as it is sent: its size, CRLF, the payload, CRLF.
pub open spec fn frame(size: Seq<u8>, payload: Seq<u8>) -> Seq<u8> {
    size + seq![CR, LF] + payload + seq![CR, LF]
}

/// The chunks `cs` (each a size text and a payload) as they are sent,
/// closed by the chunk whose size text is `last` and an empty trailer.
pub open spec fn encode_chunks(cs: Seq<(Seq<u8>, Seq<u8>)>, last: Seq<u8>) -> Seq<u8>
    decreases cs.len(),
{
    if cs.len() == 0 {
        last + seq![CR, LF, CR, LF]
    } else {
        frame(cs[0].0, cs[0].1) + encode_chunks(cs.drop_first(), last)
    }
}

/// The payloads of `cs`, joined in order.
pub open spec fn payloads(cs: Seq<(Seq<u8>, Seq<u8>)>) -> Seq<u8>
    decreases cs.len(),
{
    if cs.len() == 0 {
        seq![]
    } else {
        cs[0].1 + payloads(cs.drop_first())
    }
}

proof fn lemma_advance_done(st: ChunkState)
    ensures
        advance(st).done ==> advance(advance(st)) == advance(st),
    decreases measure(st),
{
    if !st.done {
        match st.pending {
            Some(n) => if st.buf.len() >= n + 2 {
                lemma_advance_done(
                    ChunkState {
                        pending: None,
                        buf: st.buf.subrange((n + 2) as int, st.buf.len() as int),
                        body: st.body + st.buf.subrange(0, n as int),
                        done: false,
                    },
                );
            },
            None => {
                lemma_first_index_bounds(st.buf, LF);
                match first_index(st.buf, LF) {
                    Some(i) => {
                        let rest = st.buf.subrange((i + 1) as int, st.buf.len() as int);
                        match size_of_line(st.buf.subrange(0, i as int)) {
                            Some(n) => if n > 0 {
                                lemma_advance_done(
                                    ChunkState { pending: Some(n), buf: rest, body: st.body, done: false },
                                );
                            },
                            None => {},
                        }
                    },
                    None => {},
                }
            },
        }
    }
}

/// Decoding as bytes arrive gives what decoding them all at once gives.
pub proof fn lemma_advance_feed(st: ChunkState, t: Seq<u8>)
    ensures
        advance(feed(advance(st), t)) == advance(feed(st, t)),
    decreases measure(st),
{
    if st.done {
        return;
    }
    match st.pending {
        Some(n) => {
            if st.buf.len() >= n + 2 {
                let s1 = ChunkState {
                    pending: None,
                    buf: st.buf.subrange((n + 2) as int, st.buf.len() as int),
                    body: st.body + st.buf.subrange(0, n as int),
                    done: false,
                };
                let f = feed(st, t);
                assert(f.buf.subrange((n + 2) as int, f.buf.len() as int) =~= s1.buf + t);
                assert(f.buf.subrange(0, n as int) =~= st.buf.subrange(0, n as int));
                lemma_advance_feed(s1, t);
            }
        },
        None => {
            lemma_first_index_bounds(st.buf, LF);
            match first_index(st.buf, LF) {
                Some(i) => {
                    lemma_first_index_append(st.buf, t, LF);
                    let rest = st.buf.subrange((i + 1) as int, st.buf.len() as int);
                    let f = feed(st, t);
                    assert(f.buf.subrange((i + 1) as int, f.buf.len() as int) =~= rest + t);
                    assert(f.buf.subrange(0, i as int) =~= st.buf.subrange(0, i as int));
                    match size_of_line(st.buf.subrange(0, i as int)) {
                        Some(n) => {
                            if n > 0 {
                                let s1 = ChunkState { pending: Some(n), buf: rest, body: st.body, done: false };
                                lemma_advance_feed(s1, t);
                            }
                        },
                        None => {},
                    }
                },
                None => {},
            }
        },
    }
}

/// Feeding fragments one at a time is feeding their concatenation.
pub proof fn lemma_feed_all(st: ChunkState, frags: Seq<Seq<u8>>)
    ensures
        feed_all(advance(st), frags) == advance(feed(st, joined(frags))),
    decreases frags.len(),
{
    if frags.len() == 0 {
        lemma_advance_feed(st, Seq::<u8>::empty());
        assert(feed(advance(st), Seq::<u8>::empty()) == advance(st)) by {
            assert(advance(st).buf + Seq::<u8>::empty() =~= advance(st).buf);
        }
        assert(feed(st, Seq::<u8>::empty()) == st) by {
            assert(st.buf + Seq::<u8>::empty() =~= st.buf);
        }
    } else {
        lemma_advance_feed(st, frags[0]);
        let s1 = feed(st, frags[0]);
        lemma_feed_all(s1, frags.drop_first());
        assert(s1.buf + joined(frags.drop_first()) =~= st.buf + joined(frags));
        assert(feed(s1, joined(frags.drop_first())) == feed(st, joined(frags)));
    }
}

proof fn lemma_without_cr_none(s: Seq<u8>)
    requires
        forall|i: int| 0 <= i < s.len() ==> s[i] != CR,
    ensures
        without_cr(s) == s,
    decreases s.len(),
{
    if s.len() > 0 {
        lemma_without_cr_none(s.drop_last());
        assert(s.drop_last().push(s.last()) =~= s);
    }
}

proof fn lemma_size_line(h: Seq<u8>, n: nat)
    requires
        sizes(h, n),
        n <= usize::MAX,
    ensures
        size_of_line(h + seq![CR]) == Some(n),
{
    assert(forall|i: int| 0 <= i < h.len() ==> is_hex_digit(#[trigger] h[i]));
    let l = h + seq![CR];
    assert(l.drop_last() =~= h);
    lemma_without_cr_none(h);
    assert(without_cr(l) == h);
    assert(is_hex_digit(h[0]));
    assert(trim_start(h) == h);
    assert(is_hex_digit(h.last()));
    assert(trim_end(h) == h);
}

proof fn lemma_decode_encoded(cs: Seq<(Seq<u8>, Seq<u8>)>, last: Seq<u8>, t: Seq<u8>, body: Seq<u8>)
    requires
        forall|i: int|
            0 <= i < cs.len() ==> sizes((#[trigger] cs[i]).0, cs[i].1.len()) && 0 < cs[i].1.len()
                <= usize::MAX,
        sizes(last, 0),
    ensures
        advance(ChunkState { pending: None, buf: encode_chunks(cs, last) + t, body, done: false })
            == (ChunkState {
            pending: None,
            buf: seq![CR, LF] + t,
            body: body + payloads(cs),
            done: true,
        }),
    decreases cs.len(),
{
    let buf = encode_chunks(cs, last) + t;
    if cs.len() == 0 {
        assert(buf =~= last + seq![CR, LF, CR, LF] + t);
        assert forall|j: int| 0 <= j < last.len() + 1 implies buf[j] != LF by {
            if j < last.len() {
                assert(buf[j] == last[j]);
                assert(is_hex_digit(last[j]));
            }
        }
        lemma_first_index_is_lf(buf, (last.len() + 1) as int);
        assert(buf.subrange(0, (last.len() + 1) as int) =~= last + seq![CR]);
        lemma_size_line(last, 0);
        assert(buf.subrange((last.len() + 2) as int, buf.len() as int) =~= seq![CR, LF] + t);
        assert(body + payloads(cs) =~= body);
    } else {
        let h = cs[0].0;
        let c = cs[0].1;
        let n = c.len();
        let rest = cs.drop_first();
        assert forall|i: int| 0 <= i < rest.len() implies sizes((#[trigger] rest[i]).0, rest[i].1.len())
            && 0 < rest[i].1.len() <= usize::MAX by {
            assert(rest[i] == cs[i + 1]);
        }
        assert(sizes(h, n));
        assert(buf =~= h + seq![CR, LF] + c + seq![CR, LF] + encode_chunks(rest, last) + t);
        assert forall|j: int| 0 <= j < h.len() + 1 implies buf[j] != LF by {
            if j < h.len() {
                assert(buf[j] == h[j]);
                assert(is_hex_digit(h[j]));
            }
        }
        lemma_first_index_is_lf(buf, (h.len() + 1) as int);
        assert(buf.subrange(0, (h.len() + 1) as int) =~= h + seq![CR]);
        lemma_size_line(h, n);
        let r1 = buf.subrange((h.len() + 2) as int, buf.len() as int);
        assert(r1 =~= c + seq![CR, LF] + encode_chunks(rest, last) + t);
        assert(r1.subrange(0, n as int) =~= c);
        assert(r1.subrange((n + 2) as int, r1.len() as int) =~= encode_chunks(rest, last) + t);
        let s0 = ChunkState { pending: None, buf, body, done: false };
        let s1 = ChunkState { pending: Some(n), buf: r1, body, done: false };
        let s2 = ChunkState {
            pending: None,
            buf: encode_chunks(rest, last) + t,
            body: body + c,
            done: false,
        };
        assert(advance(s1) == advance(s2));
        assert(advance(s0) == advance(s1));
        lemma_decode_encoded(rest, last, t, body + c);
        assert(body + c + payloads(rest) =~= body + payloads(cs));
    }
}

proof fn lemma_first_index_is_lf(s: Seq<u8>, i: int)
    requires
        0 <= i < s.len(),
        s[i] == LF,
        forall|j: int| 0 <= j < i ==> s[j] != LF,
    ensures
        first_index(s, LF) == Some(i as nat),
{
    crate::text::lemma_first_index_is(s, LF, i);
}

/// Chunked decoding does not depend on how reads cut the stream: if the
/// bytes that followed the header block and the reads after them together
/// make up chunks of non-zero size and the closing chunk of size zero,
/// decoding them read by read ends with exactly the chunk payloads joined
/// in order.
pub proof fn lemma_chunked_any_fragmentation(
    cs: Seq<(Seq<u8>, Seq<u8>)>,
    last: Seq<u8>,
    first: Seq<u8>,
    reads: Seq<Seq<u8>>,
)
    requires
        forall|i: int|
            0 <= i < cs.len() ==> sizes((#[trigger] cs[i]).0, cs[i].1.len()) && 0 < cs[i].1.len()
                <= usize::MAX,
        sizes(last, 0),
        first + joined(reads) == encode_chunks(cs, last),
    ensures
        feed_all(start(first), reads).done,
        feed_all(start(first), reads).body == payloads(cs),
{
    let s0 = ChunkState { pending: None, buf: first, body: seq![], done: false };
    lemma_feed_all(s0, reads);
    assert(encode_chunks(cs, last) =~= encode_chunks(cs, last) + Seq::<u8>::empty());
    lemma_decode_encoded(cs, last, Seq::<u8>::empty(), seq![]);
    assert(Seq::<u8>::empty() + payloads(cs) =~= payloads(cs));
}

proof fn lemma_hex_value_grows(s: Seq<u8>, i: int, j: int)
    requires
        0 <= i <= j <= s.len(),
    ensures
        hex_value(s.subrange(0, i)) <= hex_value(s.subrange(0, j)),
    decreases j - i,
{
    if i < j {
        lemma_hex_value_grows(s, i, j - 1);
        assert(s.subrange(0, j).drop_last() =~= s.subrange(0, j - 1));
    }
}

/// The number that the hex digits `s[a..b]` write, where they are all hex
/// digits, at least one, and the number fits in `usize`.
fn parse_hex(s: &[u8], a: usize, b: usize) -> (r: Option<usize>)
    requires
        a <= b <= s@.len(),
    ensures
        ({
            let t = s@.subrange(a as int, b as int);
            if t.len() > 0 && all_hex(t) && hex_value(t) <= usize::MAX {
                r == Some(hex_value(t) as usize)
            } else {
                r is None
            }
        }),
{
    let ghost t = s@.subrange(a as int, b as int);
    if a == b {
        return None;
    }
    let mut v: usize = 0;
    let mut i: usize = a;
    assert(t.subrange(0, 0) =~= Seq::<u8>::empty());
    while i < b
        invariant
            a <= i <= b <= s@.len(),
            t == s@.subrange(a as int, b as int),
            v as nat == hex_value(t.subrange(0, i - a)),
            all_hex(t.subrange(0, i - a)),
        decreases b - i,
    {
        let c = s[i];
        assert(t[i - a] == c);
        let d: usize = if 48 <= c && c <= 57 {
            (c - 48) as usize
        } else if 97 <= c && c <= 102 {
            (c - 87) as usize
        } else if 65 <= c && c <= 70 {
            (c - 55) as usize
        } else {
            assert(!is_hex_digit(t[i - a]));
            return None;
        };
        assert(t.subrange(0, i - a + 1).drop_last() =~= t.subrange(0, i - a));
        if v > (usize::MAX - d) / 16 {
            assert(v * 16 + d > usize::MAX) by (nonlinear_arith)
                requires
                    v > (usize::MAX - d) / 16,
                    d < 16,
            ;
            proof {
                lemma_hex_value_grows(t, i - a + 1, t.len() as int);
                assert(t.subrange(0, t.len() as int) =~= t);
            }
            return None;
        }
        assert(v * 16 + d <= usize::MAX) by (nonlinear_arith)
            requires
                v <= (usize::MAX - d) / 16,
                d < 16,
        ;
        v = v * 16 + d;
        i = i + 1;
        assert forall|k: int| 0 <= k < i - a implies is_hex_digit(#[trigger] t.subrange(0, i - a)[k]) by {
            if k < i - a - 1 {
                assert(t.subrange(0, i - a)[k] == t.subrange(0, i - a - 1)[k]);
            }
        }
    }
    assert(t.subrange(0, t.len() as int) =~= t);
    Some(v)
}

/// The chunk size that the size line `line` announces.
fn chunk_size(line: &[u8]) -> (r: Option<usize>)
    ensures
        match size_of_line(line@) {
            Some(n) => r == Some(n as usize),
            None => r is None,
        },
{
    let mut w: Vec<u8> = Vec::new();
    let mut i: usize = 0;
    assert(line@.subrange(0, 0) =~= Seq::<u8>::empty());
    while i < line.len()
        invariant
            i <= line@.len(),
            w@ == without_cr(line@.subrange(0, i as int)),
        decreases line@.len() - i,
    {
        assert(line@.subrange(0, i + 1).drop_last() =~= line@.subrange(0, i as int));
        if line[i] != CR {
            w.push(line[i]);
        }
        i = i + 1;
    }
    assert(line@.subrange(0, line@.len() as int) =~= line@);
    let (a, b) = trim_bounds(w.as_slice());
    parse_hex(w.as_slice(), a, b)
}

/// An incremental decoder of a chunked body.
pub struct ChunkDecoder {
    pending: Option<usize>,
    buf: Vec<u8>,
    body: Vec<u8>,
    done: bool,
}

impl ChunkDecoder {
    pub closed spec fn view(&self) -> ChunkState {
        ChunkState {
            pending: match self.pending {
                Some(n) => Some(n as nat),
                None => None,
            },
            buf: self.buf@,
            body: self.body@,
            done: self.done,
        }
    }

    /// Starts decoding with the bytes that followed the header block.
    pub fn new(initial: &[u8]) -> (r: ChunkDecoder)
        ensures
            r@ == start(initial@),
    {
        let buf = copy_range(initial, 0, initial.len());
        assert(initial@.subrange(0, initial@.len() as int) =~= initial@);
        let mut r = ChunkDecoder { pending: None, buf, body: Vec::new(), done: false };
        assert(r@ == (ChunkState { pending: None, buf: initial@, body: seq![], done: false }));
        r.run();
        r
    }

    /// Adds bytes that arrived and decodes as far as they allow.
    pub fn feed(&mut self, more: &[u8])
        ensures
            final(self)@ == advance(feed(old(self)@, more@)),
    {
        append_bytes(&mut self.buf, more);
        self.run();
    }

    /// Whether the chunk of size zero was read, or a size line that is no
    /// number.
    pub fn is_done(&self) -> (r: bool)
        ensures
            r == self@.done,
    {
        self.done
    }

    /// The payload bytes decoded so far.
    pub fn body(&self) -> (r: &Vec<u8>)
        ensures
            r@ == self@.body,
    {
        &self.body
    }

    /// The payload bytes decoded so far, ending the decoding.
    pub fn into_body(self) -> (r: Vec<u8>)
        ensures
            r@ == self@.body,
    {
        self.body
    }

    fn run(&mut self)
        ensures
            final(self)@ == advance(old(self)@),
    {
        loop
            invariant
                advance(self@) == advance(old(self)@),
            decreases measure(self@),
        {
            if self.done {
                return;
            }
            match self.pending {
                Some(n) => {
                    if self.buf.len() >= 2 && self.buf.len() - 2 >= n {
                        let len = self.buf.len();
                        let payload = copy_range(self.buf.as_slice(), 0, n);
                        let rest = copy_range(self.buf.as_slice(), n + 2, len);
                        append_bytes(&mut self.body, payload.as_slice());
                        self.buf = rest;
                        self.pending = None;
                    } else {
                        return;
                    }
                },
                None => {
                    let len = self.buf.len();
                    proof {
                        lemma_first_index_bounds(self.buf@, LF);
                        assert(self.buf@.subrange(0, len as int) =~= self.buf@);
                    }
                    match find_byte(self.buf.as_slice(), 0, LF) {
                        Some(i) => {
                            let line = copy_range(self.buf.as_slice(), 0, i);
                            let rest = copy_range(self.buf.as_slice(), i + 1, len);
                            let size = chunk_size(line.as_slice());
                            self.buf = rest;
                            match size {
                                Some(n) => {
                                    if n > 0 {
                                        self.pending = Some(n);
                                    } else {
                                        self.done = true;
                                        return;
                                    }
                                },
                                None => {
                                    self.done = true;
                                    return;
                                },
                            }
                        },
                        None => {
                            return;
                        },
                    }
                },
            }
        }
    }
}

} // verus!
