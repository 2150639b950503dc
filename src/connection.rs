//! One connection's exchanges as a state machine: the caller performs each
//! action (read, read a file, write, close) and hands back what happened.
//! A connection serves exchanges one after another while the client asks
//! for `Connection: keep-alive`, and closes after any other exchange.
use vstd::prelude::*;
use crate::chunked::{ChunkState, ChunkDecoder, advance, feed, start};
use crate::router::{
    DispatchModel, Dispatch, route_of, route, file_reply, file_response,
    opt_bytes,
};
use crate::message::{
    method_of, path_of, is_chunked, wants_keep_alive, after_head, response_bytes, request_info,
    response_to_bytes, first_value,
};
use crate::text::{ascii, lower, first_index, lead_space, trail_space, trim_start, trim_end, trim};
use crate::message::{first_word, after_first_word, word_len, request_line};
use crate::headers::{
    lines_of, block_lines, until_blank, fold_lines, header_model, values_of, name_part,
    value_part, lemma_key_index, BlockState,
};
use crate::router::after;

verus! {

/// Where a connection stands. Parsing a request and routing it happen
/// within the step that receives its bytes; the phases are the points at
/// which the connection waits for the caller.
#[derive(Clone, Copy, Debug, PartialEq, Eq, Structural)]
pub enum Phase {
    /// Waiting for the bytes of a request.
    Reading,
    /// Waiting for more bytes of a chunked body.
    ReadingBody,
    /// Waiting for the contents of a static file.
    ReadingFile,
    /// Waiting for a response to be written.
    Writing,
    /// Done; the socket is to be released.
    Closed,
}

/// What happened after an action.
#[derive(Debug)]
pub enum Event {
    /// A read returned these bytes (none: the peer closed).
    Received(Vec<u8>),
    /// A read failed.
    ReadFailed,
    /// The static file asked for was read, or could not be.
    FileRead(Option<Vec<u8>>),
    /// The response was written.
    Written,
    /// Writing the response failed.
    WriteFailed,
}

pub enum EventModel {
    Received(Seq<u8>),
    ReadFailed,
    FileRead(Option<Seq<u8>>),
    Written,
    WriteFailed,
}

impl Event {
    pub open spec fn view(&self) -> EventModel {
        match self {
            Event::Received(d) => EventModel::Received(d@),
            Event::ReadFailed => EventModel::ReadFailed,
            Event::FileRead(c) => EventModel::FileRead(opt_bytes(*c)),
            Event::Written => EventModel::Written,
            Event::WriteFailed => EventModel::WriteFailed,
        }
    }
}

/// What the caller is to do next.
#[derive(Debug)]
pub enum Action {
    /// Read from the socket.
    Read,
    /// Read the static file at this path below the static root.
    ReadFile(Vec<u8>),
    /// Write these bytes to the socket.
    Write(Vec<u8>),
    /// Release the socket.
    Close,
}

pub enum ActionModel {
    Read,
    ReadFile(Seq<u8>),
    Write(Seq<u8>),
    Close,
}

impl Action {
    pub open spec fn view(&self) -> ActionModel {
        match self {
            Action::Read => ActionModel::Read,
            Action::ReadFile(p) => ActionModel::ReadFile(p@),
            Action::Write(b) => ActionModel::Write(b@),
            Action::Close => ActionModel::Close,
        }
    }
}

pub struct ConnModel {
    pub phase: Phase,
    pub keep_alive: bool,
    pub method: Seq<u8>,
    pub path: Seq<u8>,
    pub body: ChunkState,
    pub file: Seq<u8>,
}

pub open spec fn close(c: ConnModel) -> (ConnModel, ActionModel) {
    (ConnModel { phase: Phase::Closed, ..c }, ActionModel::Close)
}

/// Routes the request in flight with `body`.
pub open spec fn dispatch(c: ConnModel, body: Seq<u8>) -> (ConnModel, ActionModel) {
    match route_of(c.method, c.path, body) {
        DispatchModel::Reply(r) => (
            ConnModel { phase: Phase::Writing, ..c },
            ActionModel::Write(response_bytes(r, c.keep_alive)),
        ),
        DispatchModel::ServeFile(p) => (
            ConnModel { phase: Phase::ReadingFile, file: p, ..c },
            ActionModel::ReadFile(p),
        ),
    }
}

/// What the bytes of a new request lead to.
pub open spec fn on_request(c: ConnModel, data: Seq<u8>) -> (ConnModel, ActionModel) {
    let c1 = ConnModel {
        keep_alive: wants_keep_alive(data),
        method: method_of(data),
        path: path_of(data),
        ..c
    };
    if is_chunked(data) {
        let d = start(after_head(data));
        if d.done {
            dispatch(ConnModel { body: d, ..c1 }, d.body)
        } else {
            (ConnModel { phase: Phase::ReadingBody, body: d, ..c1 }, ActionModel::Read)
        }
    } else {
        dispatch(c1, after_head(data))
    }
}

/// The transition of a connection on an event.
pub open spec fn next(c: ConnModel, ev: EventModel) -> (ConnModel, ActionModel) {
    match c.phase {
        Phase::Reading => match ev {
            EventModel::Received(d) => if d.len() > 0 {
                on_request(c, d)
            } else {
                close(c)
            },
            _ => close(c),
        },
        Phase::ReadingBody => match ev {
            EventModel::Received(d) => if d.len() > 0 {
                let s = advance(feed(c.body, d));
                if s.done {
                    dispatch(ConnModel { body: s, ..c }, s.body)
                } else {
                    (ConnModel { body: s, ..c }, ActionModel::Read)
                }
            } else {
                dispatch(c, c.body.body)
            },
            EventModel::ReadFailed => dispatch(c, c.body.body),
            _ => close(c),
        },
        Phase::ReadingFile => match ev {
            EventModel::FileRead(contents) => (
                ConnModel { phase: Phase::Writing, ..c },
                ActionModel::Write(response_bytes(file_reply(c.file, contents), c.keep_alive)),
            ),
            _ => close(c),
        },
        Phase::Writing => match ev {
            EventModel::Written => if c.keep_alive {
                (ConnModel { phase: Phase::Reading, ..c }, ActionModel::Read)
            } else {
                close(c)
            },
            _ => close(c),
        },
        Phase::Closed => close(c),
    }
}

/// A fresh connection, before its first read.
pub open spec fn initial(c: ConnModel) -> bool {
    c.phase == Phase::Reading
}

/// One accepted connection. It starts in `Phase::Reading`: the first
/// action is a read.
pub struct Connection {
    phase: Phase,
    keep_alive: bool,
    method: Vec<u8>,
    path: Vec<u8>,
    body: ChunkDecoder,
    file: Vec<u8>,
}

impl Connection {
    pub closed spec fn view(&self) -> ConnModel {
        ConnModel {
            phase: self.phase,
            keep_alive: self.keep_alive,
            method: self.method@,
            path: self.path@,
            body: self.body@,
            file: self.file@,
        }
    }

    pub fn new() -> (r: Connection)
        ensures
            initial(r@),
    {
        Connection {
            phase: Phase::Reading,
            keep_alive: false,
            method: Vec::new(),
            path: Vec::new(),
            body: ChunkDecoder::new(&[]),
            file: Vec::new(),
        }
    }

    /// Where the connection stands.
    pub fn phase(&self) -> (r: Phase)
        ensures
            r == self@.phase,
    {
        self.phase
    }

    /// Whether the request in flight asked to keep the connection open.
    pub fn keep_alive(&self) -> (r: bool)
        ensures
            r == self@.keep_alive,
    {
        self.keep_alive
    }

    fn close(&mut self) -> (r: Action)
        ensures
            (final(self)@, r@) == close(old(self)@),
    {
        self.phase = Phase::Closed;
        Action::Close
    }

    fn dispatch(&mut self, body: &[u8]) -> (r: Action)
        ensures
            (final(self)@, r@) == dispatch(old(self)@, body@),
    {
        match route(self.method.as_slice(), self.path.as_slice(), body) {
            Dispatch::Reply(resp) => {
                self.phase = Phase::Writing;
                Action::Write(response_to_bytes(&resp, self.keep_alive))
            },
            Dispatch::ServeFile(p) => {
                self.phase = Phase::ReadingFile;
                let a = crate::text::copy_range(p.as_slice(), 0, p.len());
                assert(p@.subrange(0, p@.len() as int) =~= p@);
                self.file = p;
                Action::ReadFile(a)
            },
        }
    }

    fn on_request(&mut self, data: &[u8]) -> (r: Action)
        ensures
            (final(self)@, r@) == on_request(old(self)@, data@),
    {
        let info = request_info(data);
        self.keep_alive = info.keep_alive;
        self.method = info.method;
        self.path = info.path;
        if info.chunked {
            self.body = ChunkDecoder::new(info.rest.as_slice());
            if self.body.is_done() {
                let b = self.body.body();
                let body = crate::text::copy_range(b.as_slice(), 0, b.len());
                assert(b@.subrange(0, b@.len() as int) =~= b@);
                self.dispatch(body.as_slice())
            } else {
                self.phase = Phase::ReadingBody;
                Action::Read
            }
        } else {
            self.dispatch(info.rest.as_slice())
        }
    }

    fn dispatch_collected(&mut self) -> (r: Action)
        ensures
            (final(self)@, r@) == dispatch(old(self)@, old(self)@.body.body),
    {
        let b = self.body.body();
        let body = crate::text::copy_range(b.as_slice(), 0, b.len());
        assert(b@.subrange(0, b@.len() as int) =~= b@);
        self.dispatch(body.as_slice())
    }

    /// Takes the outcome of the last action and returns the next one.
    pub fn step(&mut self, ev: Event) -> (r: Action)
        ensures
            (final(self)@, r@) == next(old(self)@, ev@),
    {
        match self.phase {
            Phase::Reading => match ev {
                Event::Received(d) => {
                    if d.len() > 0 {
                        self.on_request(d.as_slice())
                    } else {
                        self.close()
                    }
                },
                _ => self.close(),
            },
            Phase::ReadingBody => match ev {
                Event::Received(d) => {
                    if d.len() > 0 {
                        self.body.feed(d.as_slice());
                        if self.body.is_done() {
                            self.dispatch_collected()
                        } else {
                            Action::Read
                        }
                    } else {
                        self.dispatch_collected()
                    }
                },
                Event::ReadFailed => self.dispatch_collected(),
                _ => self.close(),
            },
            Phase::ReadingFile => match ev {
                Event::FileRead(contents) => {
                    let resp = file_response(self.file.as_slice(), contents);
                    self.phase = Phase::Writing;
                    Action::Write(response_to_bytes(&resp, self.keep_alive))
                },
                _ => self.close(),
            },
            Phase::Writing => match ev {
                Event::Written => {
                    if self.keep_alive {
                        self.phase = Phase::Reading;
                        Action::Read
                    } else {
                        self.close()
                    }
                },
                _ => self.close(),
            },
            Phase::Closed => self.close(),
        }
    }
}

/// A request that is answered from its first read: not chunked, and not
/// routed to a static file.
pub open spec fn answered_at_once(d: Seq<u8>) -> bool {
    d.len() > 0 && !is_chunked(d) && route_of(method_of(d), path_of(d), after_head(d)) is Reply
}

/// A peer that closes at once gets no response: on a fresh connection, a
/// read that returns no bytes, or fails, closes it without a write.
pub proof fn lemma_immediate_eof(c: ConnModel)
    requires
        initial(c),
    ensures
        next(c, EventModel::Received(seq![])).1 == ActionModel::Close,
        next(c, EventModel::Received(seq![])).0.phase == Phase::Closed,
        next(c, EventModel::ReadFailed).1 == ActionModel::Close,
        next(c, EventModel::ReadFailed).0.phase == Phase::Closed,
{
}

/// After a response is written, the connection reads again exactly when the
/// request asked for keep-alive, and closes otherwise.
pub proof fn lemma_written(c: ConnModel)
    requires
        c.phase == Phase::Writing,
    ensures
        next(c, EventModel::Written).1 == (if c.keep_alive {
            ActionModel::Read
        } else {
            ActionModel::Close
        }),
{
}

/// Keep-alive then close: when the first request on a connection asks for
/// `Connection: keep-alive` and the second sends no `Connection` header,
/// both are answered, and after the second response the connection closes
/// without a third read.
pub proof fn lemma_keep_alive_then_close(c: ConnModel, d1: Seq<u8>, d2: Seq<u8>)
    requires
        initial(c),
        answered_at_once(d1),
        answered_at_once(d2),
        first_value(d1, ascii("connection"@)) is Some,
        lower(first_value(d1, ascii("connection"@))->0) == ascii("keep-alive"@),
        first_value(d2, ascii("connection"@)) is None,
    ensures
        ({
            let (c1, a1) = next(c, EventModel::Received(d1));
            let (c2, a2) = next(c1, EventModel::Written);
            let (c3, a3) = next(c2, EventModel::Received(d2));
            let (c4, a4) = next(c3, EventModel::Written);
            &&& a1 is Write
            &&& a2 == ActionModel::Read
            &&& a3 is Write
            &&& a4 == ActionModel::Close
            &&& c4.phase == Phase::Closed
        }),
{
}

proof fn lemma_hello_line(l: Seq<u8>)
    requires
        l == ascii("GET /hello HTTP/1.1"@),
    ensures
        first_word(l) == ascii("GET"@),
        first_word(after_first_word(l)) == ascii("/hello"@),
{
    reveal_strlit("GET /hello HTTP/1.1");
    reveal_strlit("GET");
    reveal_strlit("/hello");
    reveal_with_fuel(word_len, 8);
    assert(lead_space(l) == 0);
    assert(trim_start(l) == l);
    assert(word_len(l) == 3);
    assert(l.subrange(0, 3) =~= ascii("GET"@));
    let a = after(l, 3);
    assert(lead_space(a) == 1);
    let t = a.subrange(1, a.len() as int);
    assert(lead_space(t) == 0);
    assert(trim_start(t) == t);
    assert(trim_start(a) == t);
    assert(word_len(t) == 6);
    assert(t.subrange(0, 6) =~= ascii("/hello"@));
}

/// The second request of the keep-alive scenario: no headers at all.
proof fn lemma_plain_hello(d: Seq<u8>)
    requires
        d == ascii("GET /hello HTTP/1.1\r\n\r\n"@),
    ensures
        request_line(d) == ascii("GET /hello HTTP/1.1"@),
        header_model(d) == Seq::<crate::headers::EntryModel>::empty(),
{
    reveal_strlit("GET /hello HTTP/1.1\r\n\r\n");
    reveal_strlit("GET /hello HTTP/1.1");
    reveal_with_fuel(first_index, 22);
    assert(d.len() == 23);
    assert(first_index(d, 10) == Some(20nat));
    let r = d.subrange(21, 23);
    assert(r =~= seq![13u8, 10u8]);
    assert(first_index(r, 10) == Some(1nat));
    assert(r.subrange(0, 1).drop_last() =~= Seq::<u8>::empty());
    assert(lines_of(r.subrange(2, 2)) == Seq::<Seq<u8>>::empty());
    assert(lines_of(r) =~= seq![Seq::<u8>::empty()]);
    assert(d.subrange(0, 20).drop_last() =~= ascii("GET /hello HTTP/1.1"@));
    assert(lines_of(d) =~= seq![ascii("GET /hello HTTP/1.1"@), Seq::<u8>::empty()]);
    assert(lines_of(d).drop_first() =~= seq![Seq::<u8>::empty()]);
    assert(block_lines(d) =~= Seq::<Seq<u8>>::empty());
}

/// The first request of the keep-alive scenario: one `Connection` header.
proof fn lemma_keep_alive_hello(d: Seq<u8>)
    requires
        d == ascii("GET /hello HTTP/1.1\r\nConnection: keep-alive\r\n\r\n"@),
    ensures
        request_line(d) == ascii("GET /hello HTTP/1.1"@),
        header_model(d) == seq![(ascii("connection"@), seq![ascii("keep-alive"@)])],
{
    reveal_strlit("GET /hello HTTP/1.1\r\nConnection: keep-alive\r\n\r\n");
    reveal_strlit("GET /hello HTTP/1.1");
    reveal_strlit("connection");
    reveal_strlit("keep-alive");
    reveal_with_fuel(first_index, 25);
    assert(d.len() == 47);
    assert(first_index(d, 10) == Some(20nat));
    let r1 = d.subrange(21, 47);
    assert(first_index(r1, 10) == Some(23nat));
    let r2 = r1.subrange(24, 26);
    assert(r2 =~= seq![13u8, 10u8]);
    assert(first_index(r2, 10) == Some(1nat));
    assert(r2.subrange(0, 1).drop_last() =~= Seq::<u8>::empty());
    assert(lines_of(r2.subrange(2, 2)) == Seq::<Seq<u8>>::empty());
    assert(lines_of(r2) =~= seq![Seq::<u8>::empty()]);
    let l1 = r1.subrange(0, 22);
    assert(r1.subrange(0, 23).drop_last() =~= l1);
    assert(lines_of(r1) =~= seq![l1, Seq::<u8>::empty()]);
    assert(d.subrange(0, 20).drop_last() =~= ascii("GET /hello HTTP/1.1"@));
    assert(lines_of(d) =~= seq![ascii("GET /hello HTTP/1.1"@), l1, Seq::<u8>::empty()]);
    assert(lines_of(d).drop_first() =~= seq![l1, Seq::<u8>::empty()]);
    assert(until_blank(seq![Seq::<u8>::empty()]) =~= Seq::<Seq<u8>>::empty());
    assert(seq![l1, Seq::<u8>::empty()].drop_first() =~= seq![Seq::<u8>::empty()]);
    assert(block_lines(d) =~= seq![l1]);
    assert(seq![l1].drop_last() =~= Seq::<Seq<u8>>::empty());
    assert(seq![l1].last() == l1);
    assert(fold_lines(Seq::<Seq<u8>>::empty()) == BlockState { entries: seq![], last: None });
    assert(fold_lines(seq![l1]) == crate::headers::step(
        BlockState { entries: seq![], last: None },
        l1,
    ));
    assert(first_index(l1, 58) == Some(10nat));
    let n = l1.subrange(0, 10);
    assert(lead_space(n) == 0 && trail_space(n) == 0);
    assert(trim(n) == n);
    assert(lower(n) =~= ascii("connection"@));
    let v = l1.subrange(11, 22);
    assert(lead_space(v) == 1);
    let w = v.subrange(1, 11);
    assert(lead_space(w) == 0 && trail_space(w) == 0);
    assert(trim_start(w) == w);
    assert(v.subrange(1, v.len() as int) == w);
    assert(trim_start(v) == w);
    assert(trim_end(w) == w);
    assert(w =~= ascii("keep-alive"@));
    assert(name_part(l1, 10) == ascii("connection"@));
    assert(value_part(l1, 10) == ascii("keep-alive"@));
}

/// The keep-alive scenario on two concrete requests: `GET /hello` with
/// `Connection: keep-alive`, then `GET /hello` with no headers. Both are
/// answered, and after the second response the connection closes without a
/// third read.
pub proof fn lemma_keep_alive_hello_twice(c: ConnModel)
    requires
        initial(c),
    ensures
        ({
            let d1 = ascii("GET /hello HTTP/1.1\r\nConnection: keep-alive\r\n\r\n"@);
            let d2 = ascii("GET /hello HTTP/1.1\r\n\r\n"@);
            let (c1, a1) = next(c, EventModel::Received(d1));
            let (c2, a2) = next(c1, EventModel::Written);
            let (c3, a3) = next(c2, EventModel::Received(d2));
            let (c4, a4) = next(c3, EventModel::Written);
            &&& a1 is Write
            &&& a2 == ActionModel::Read
            &&& a3 is Write
            &&& a4 == ActionModel::Close
            &&& c4.phase == Phase::Closed
        }),
{
    let d1 = ascii("GET /hello HTTP/1.1\r\nConnection: keep-alive\r\n\r\n"@);
    let d2 = ascii("GET /hello HTTP/1.1\r\n\r\n"@);
    reveal_strlit("GET /hello HTTP/1.1\r\nConnection: keep-alive\r\n\r\n");
    reveal_strlit("GET /hello HTTP/1.1\r\n\r\n");
    reveal_strlit("GET");
    reveal_strlit("/");
    reveal_strlit("/hello");
    reveal_strlit("connection");
    reveal_strlit("keep-alive");
    reveal_strlit("transfer-encoding");
    lemma_keep_alive_hello(d1);
    lemma_plain_hello(d2);
    lemma_hello_line(request_line(d1));
    lemma_hello_line(request_line(d2));
    let es = header_model(d1);
    let k = ascii("connection"@);
    assert(crate::headers::is_first_key(es, k, 0));
    lemma_key_index(es, k, 0);
    assert(values_of(es, k) == Some(seq![ascii("keep-alive"@)]));
    assert(!crate::headers::has_key(es, ascii("transfer-encoding"@))) by {
        assert(es[0].0.len() != ascii("transfer-encoding"@).len());
    }
    assert(lower(ascii("keep-alive"@)) =~= ascii("keep-alive"@));
    assert(!crate::headers::has_key(header_model(d2), ascii("transfer-encoding"@)));
    assert(!crate::headers::has_key(header_model(d2), k));
    assert(d1.len() > 0 && d2.len() > 0);
    lemma_keep_alive_then_close(c, d1, d2);
}

} // verus!
