//! Maps a request's method, path and body to a response, in a fixed order
//! of routes; static files are handed back as a path to read.
use vstd::prelude::*;
use crate::text::{ascii, ascii_bytes, trim, contains, has_prefix, contains_pattern, copy_range, append_bytes, trimmed};

verus! {

broadcast use vstd::string::group_string_axioms;

/// The media type sent in `Content-Type`.
#[derive(Clone, Copy, Debug, PartialEq, Eq, Structural)]
pub enum ContentType {
    Html,
    Css,
    JavaScript,
    Json,
    Png,
    Jpeg,
    Gif,
    Svg,
    PlainText,
    OctetStream,
}

/// The text of a media type.
pub open spec fn mime_of(ct: ContentType) -> Seq<u8> {
    match ct {
        ContentType::Html => ascii("text/html"@),
        ContentType::Css => ascii("text/css"@),
        ContentType::JavaScript => ascii("application/javascript"@),
        ContentType::Json => ascii("application/json"@),
        ContentType::Png => ascii("image/png"@),
        ContentType::Jpeg => ascii("image/jpeg"@),
        ContentType::Gif => ascii("image/gif"@),
        ContentType::Svg => ascii("image/svg+xml"@),
        ContentType::PlainText => ascii("text/plain"@),
        ContentType::OctetStream => ascii("application/octet-stream"@),
    }
}

impl ContentType {
    /// The text of this media type.
    pub fn mime(&self) -> (r: Vec<u8>)
        ensures
            r@ == mime_of(*self),
    {
        proof {
            reveal_strlit("text/html");
            reveal_strlit("text/css");
            reveal_strlit("application/javascript");
            reveal_strlit("application/json");
            reveal_strlit("image/png");
            reveal_strlit("image/jpeg");
            reveal_strlit("image/gif");
            reveal_strlit("image/svg+xml");
            reveal_strlit("text/plain");
            reveal_strlit("application/octet-stream");
        }
        match self {
            ContentType::Html => lit("text/html"),
            ContentType::Css => lit("text/css"),
            ContentType::JavaScript => lit("application/javascript"),
            ContentType::Json => lit("application/json"),
            ContentType::Png => lit("image/png"),
            ContentType::Jpeg => lit("image/jpeg"),
            ContentType::Gif => lit("image/gif"),
            ContentType::Svg => lit("image/svg+xml"),
            ContentType::PlainText => lit("text/plain"),
            ContentType::OctetStream => lit("application/octet-stream"),
        }
    }
}

/// The statuses that the routes answer with.
#[derive(Clone, Copy, Debug, PartialEq, Eq, Structural)]
pub enum Status {
    Success,
    BadRequest,
    NotFound,
}

pub open spec fn code_of(s: Status) -> u16 {
    match s {
        Status::Success => 200,
        Status::BadRequest => 400,
        Status::NotFound => 404,
    }
}

/// The status line sent for a status.
pub open spec fn status_line_of(s: Status) -> Seq<u8> {
    match s {
        Status::Success => ascii("HTTP/1.1 200 OK"@),
        Status::BadRequest => ascii("HTTP/1.1 400 BAD REQUEST"@),
        Status::NotFound => ascii("HTTP/1.1 404 NOT FOUND"@),
    }
}

impl Status {
    /// The numeric code.
    pub fn code(&self) -> (r: u16)
        ensures
            r == code_of(*self),
    {
        match self {
            Status::Success => 200,
            Status::BadRequest => 400,
            Status::NotFound => 404,
        }
    }

    /// The status line, without its line ending.
    pub fn status_line(&self) -> (r: Vec<u8>)
        ensures
            r@ == status_line_of(*self),
    {
        proof {
            reveal_strlit("HTTP/1.1 200 OK");
            reveal_strlit("HTTP/1.1 400 BAD REQUEST");
            reveal_strlit("HTTP/1.1 404 NOT FOUND");
        }
        match self {
            Status::Success => lit("HTTP/1.1 200 OK"),
            Status::BadRequest => lit("HTTP/1.1 400 BAD REQUEST"),
            Status::NotFound => lit("HTTP/1.1 404 NOT FOUND"),
        }
    }
}

/// What a route answers: a status, a media type and a body.
#[derive(Debug)]
pub struct Response {
    pub status: Status,
    pub content_type: ContentType,
    pub body: Vec<u8>,
}

pub struct ResponseModel {
    pub status: Status,
    pub content_type: ContentType,
    pub body: Seq<u8>,
}

impl Response {
    pub open spec fn view(&self) -> ResponseModel {
        ResponseModel { status: self.status, content_type: self.content_type, body: self.body@ }
    }
}

/// The outcome of routing: a response, or the path of a static file (below
/// the static root) whose contents decide the response.
#[derive(Debug)]
pub enum Dispatch {
    Reply(Response),
    ServeFile(Vec<u8>),
}

pub enum DispatchModel {
    Reply(ResponseModel),
    ServeFile(Seq<u8>),
}

impl Dispatch {
    pub open spec fn view(&self) -> DispatchModel {
        match self {
            Dispatch::Reply(r) => DispatchModel::Reply(r@),
            Dispatch::ServeFile(p) => DispatchModel::ServeFile(p@),
        }
    }
}

pub open spec fn reply(status: Status, content_type: ContentType, body: Seq<u8>) -> DispatchModel {
    DispatchModel::Reply(ResponseModel { status, content_type, body })
}

pub open spec fn is_digit(b: u8) -> bool {
    48 <= b && b <= 57
}

pub open spec fn all_digits(s: Seq<u8>) -> bool {
    forall|i: int| 0 <= i < s.len() ==> is_digit(#[trigger] s[i])
}

pub open spec fn starts_with(s: Seq<u8>, p: Seq<u8>) -> bool {
    p.len() <= s.len() && s.subrange(0, p.len() as int) == p
}

/// `s` after its first `n` bytes.
pub open spec fn after(s: Seq<u8>, n: nat) -> Seq<u8> {
    s.subrange(n as int, s.len() as int)
}

pub open spec fn is_get(method: Seq<u8>) -> bool {
    method == ascii("GET"@)
}

/// The routes, in order: the fixed pages, `/user/{id}` with a non-empty
/// decimal id, `/static/...` (refused where the rest of the path contains
/// `..`), the three mutation routes, and a 404 for everything else.
pub open spec fn route_of(method: Seq<u8>, path: Seq<u8>, body: Seq<u8>) -> DispatchModel {
    if is_get(method) && path == ascii("/"@) {
        reply(Status::Success, ContentType::Html, ascii("<h1>Welcome to Rust low-level server</h1>"@))
    } else if is_get(method) && path == ascii("/hello"@) {
        reply(Status::Success, ContentType::PlainText, ascii("Hello!"@))
    } else if is_get(method) && path == ascii("/api"@) {
        reply(Status::Success, ContentType::Json, ascii("{\"message\": \"This is JSON\"}"@))
    } else if is_get(method) && starts_with(path, ascii("/user/"@)) {
        let id = after(path, 6);
        if id.len() > 0 && all_digits(id) {
            reply(Status::Success, ContentType::PlainText, ascii("You requested user "@) + id)
        } else {
            reply(Status::BadRequest, ContentType::PlainText, ascii("Invalid user ID"@))
        }
    } else if is_get(method) && starts_with(path, ascii("/static/"@)) {
        let rel = after(path, 8);
        if contains(rel, ascii(".."@)) {
            reply(Status::BadRequest, ContentType::PlainText, ascii("Invalid path"@))
        } else {
            DispatchModel::ServeFile(rel)
        }
    } else if method == ascii("POST"@) && path == ascii("/submit"@) {
        reply(Status::Success, ContentType::PlainText, ascii("Received POST data: "@) + trim(body))
    } else if method == ascii("PUT"@) && path == ascii("/update"@) {
        reply(Status::Success, ContentType::PlainText, ascii("Updated data: "@) + trim(body))
    } else if method == ascii("DELETE"@) && path == ascii("/delete"@) {
        reply(Status::Success, ContentType::PlainText, ascii("Delete request processed."@))
    } else {
        reply(Status::NotFound, ContentType::PlainText, ascii("Not Found"@))
    }
}

/// The bytes of the ASCII text `s`.
pub(crate) fn lit(s: &str) -> (r: Vec<u8>)
    requires
        s.is_ascii(),
    ensures
        r@ == ascii(s@),
{
    let b = ascii_bytes(s);
    let r = copy_range(b, 0, b.len());
    assert(b@.subrange(0, b@.len() as int) =~= b@);
    r
}

/// Whether `s` is the ASCII text `t`.
pub(crate) fn is_lit(s: &[u8], t: &str) -> (r: bool)
    requires
        t.is_ascii(),
    ensures
        r == (s@ == ascii(t@)),
{
    let b = ascii_bytes(t);
    let r = s.len() == b.len() && has_prefix(s, b);
    assert(s@.subrange(0, s@.len() as int) =~= s@);
    r
}

/// Whether `s` begins with the ASCII text `t`.
fn begins_with(s: &[u8], t: &str) -> (r: bool)
    requires
        t.is_ascii(),
    ensures
        r == starts_with(s@, ascii(t@)),
{
    has_prefix(s, ascii_bytes(t))
}

fn digits_only(s: &[u8]) -> (r: bool)
    ensures
        r == all_digits(s@),
{
    let mut i: usize = 0;
    while i < s.len()
        invariant
            i <= s@.len(),
            forall|j: int| 0 <= j < i ==> is_digit(#[trigger] s@[j]),
        decreases s@.len() - i,
    {
        if !(48 <= s[i] && s[i] <= 57) {
            return false;
        }
        i = i + 1;
    }
    true
}

fn respond(status: Status, content_type: ContentType, body: Vec<u8>) -> (r: Dispatch)
    ensures
        r@ == reply(status, content_type, body@),
{
    Dispatch::Reply(Response { status, content_type, body })
}

/// `lit(t)` followed by `rest`.
fn lit_then(t: &str, rest: &[u8]) -> (r: Vec<u8>)
    requires
        t.is_ascii(),
    ensures
        r@ == ascii(t@) + rest@,
{
    let mut r = lit(t);
    append_bytes(&mut r, rest);
    r
}

/// Routes a request.
pub fn route(method: &[u8], path: &[u8], body: &[u8]) -> (r: Dispatch)
    ensures
        r@ == route_of(method@, path@, body@),
{
    proof {
        reveal_strlit("GET");
        reveal_strlit("/");
        reveal_strlit("/hello");
        reveal_strlit("/api");
        reveal_strlit("/user/");
        reveal_strlit("/static/");
        reveal_strlit("..");
        reveal_strlit("POST");
        reveal_strlit("/submit");
        reveal_strlit("PUT");
        reveal_strlit("/update");
        reveal_strlit("DELETE");
        reveal_strlit("/delete");
    }
    let get = is_lit(method, "GET");
    if get && is_lit(path, "/") {
        proof {
            reveal_strlit("<h1>Welcome to Rust low-level server</h1>");
        }
        respond(Status::Success, ContentType::Html, lit("<h1>Welcome to Rust low-level server</h1>"))
    } else if get && is_lit(path, "/hello") {
        proof {
            reveal_strlit("Hello!");
        }
        respond(Status::Success, ContentType::PlainText, lit("Hello!"))
    } else if get && is_lit(path, "/api") {
        proof {
            reveal_strlit("{\"message\": \"This is JSON\"}");
        }
        respond(Status::Success, ContentType::Json, lit("{\"message\": \"This is JSON\"}"))
    } else if get && begins_with(path, "/user/") {
        assert(ascii("/user/"@).len() == 6);
        let id = copy_range(path, 6, path.len());
        if id.len() > 0 && digits_only(id.as_slice()) {
            proof {
                reveal_strlit("You requested user ");
            }
            respond(Status::Success, ContentType::PlainText, lit_then("You requested user ", id.as_slice()))
        } else {
            proof {
                reveal_strlit("Invalid user ID");
            }
            respond(Status::BadRequest, ContentType::PlainText, lit("Invalid user ID"))
        }
    } else if get && begins_with(path, "/static/") {
        assert(ascii("/static/"@).len() == 8);
        let rel = copy_range(path, 8, path.len());
        if contains_pattern(rel.as_slice(), ascii_bytes("..")) {
            proof {
                reveal_strlit("Invalid path");
            }
            respond(Status::BadRequest, ContentType::PlainText, lit("Invalid path"))
        } else {
            Dispatch::ServeFile(rel)
        }
    } else if is_lit(method, "POST") && is_lit(path, "/submit") {
        proof {
            reveal_strlit("Received POST data: ");
        }
        let t = trimmed(body);
        respond(Status::Success, ContentType::PlainText, lit_then("Received POST data: ", t.as_slice()))
    } else if is_lit(method, "PUT") && is_lit(path, "/update") {
        proof {
            reveal_strlit("Updated data: ");
        }
        let t = trimmed(body);
        respond(Status::Success, ContentType::PlainText, lit_then("Updated data: ", t.as_slice()))
    } else if is_lit(method, "DELETE") && is_lit(path, "/delete") {
        proof {
            reveal_strlit("Delete request processed.");
        }
        respond(Status::Success, ContentType::PlainText, lit("Delete request processed."))
    } else {
        proof {
            reveal_strlit("Not Found");
        }
        respond(Status::NotFound, ContentType::PlainText, lit("Not Found"))
    }
}

pub const SLASH: u8 = 47;

pub const DOT: u8 = 46;

/// The position of the last `b` in `s`.
pub open spec fn last_index(s: Seq<u8>, b: u8) -> Option<nat>
    decreases s.len(),
{
    if s.len() == 0 {
        None
    } else if s.last() == b {
        Some((s.len() - 1) as nat)
    } else {
        last_index(s.drop_last(), b)
    }
}

/// The extension of the file that `path` names: what follows the last dot
/// of the last segment, where that dot is not the segment's first byte.
pub open spec fn extension_of(path: Seq<u8>) -> Option<Seq<u8>> {
    let name = match last_index(path, SLASH) {
        Some(i) => after(path, i + 1),
        None => path,
    };
    match last_index(name, DOT) {
        Some(d) => if d > 0 {
            Some(after(name, d + 1))
        } else {
            None
        },
        None => None,
    }
}

/// The media type of a static file, by its extension.
pub open spec fn content_type_for(path: Seq<u8>) -> ContentType {
    match extension_of(path) {
        Some(e) => if e == ascii("html"@) {
            ContentType::Html
        } else if e == ascii("css"@) {
            ContentType::Css
        } else if e == ascii("js"@) {
            ContentType::JavaScript
        } else if e == ascii("json"@) {
            ContentType::Json
        } else if e == ascii("png"@) {
            ContentType::Png
        } else if e == ascii("jpg"@) || e == ascii("jpeg"@) {
            ContentType::Jpeg
        } else if e == ascii("gif"@) {
            ContentType::Gif
        } else if e == ascii("svg"@) {
            ContentType::Svg
        } else if e == ascii("txt"@) {
            ContentType::PlainText
        } else {
            ContentType::OctetStream
        },
        None => ContentType::OctetStream,
    }
}

proof fn lemma_last_index_bounds(s: Seq<u8>, b: u8)
    ensures
        match last_index(s, b) {
            Some(i) => i < s.len(),
            None => true,
        },
    decreases s.len(),
{
    if s.len() > 0 && s.last() != b {
        lemma_last_index_bounds(s.drop_last(), b);
    }
}

fn find_last(s: &[u8], b: u8) -> (r: Option<usize>)
    ensures
        match last_index(s@, b) {
            Some(i) => r == Some(i as usize),
            None => r is None,
        },
        match r {
            Some(j) => j < s.len(),
            None => true,
        },
{
    let mut i: usize = s.len();
    assert(s@.subrange(0, s@.len() as int) =~= s@);
    while i > 0
        invariant
            i <= s@.len(),
            last_index(s@, b) == last_index(s@.subrange(0, i as int), b),
        decreases i,
    {
        assert(s@.subrange(0, i as int).drop_last() =~= s@.subrange(0, i - 1));
        if s[i - 1] == b {
            return Some(i - 1);
        }
        i = i - 1;
    }
    None
}

/// The extension of the file that `path` names, as `extension_of` says.
pub fn extension(path: &[u8]) -> (r: Option<Vec<u8>>)
    ensures
        match extension_of(path@) {
            Some(e) => r is Some && r->0@ == e,
            None => r is None,
        },
{
    proof {
        lemma_last_index_bounds(path@, SLASH);
    }
    let name = match find_last(path, SLASH) {
        Some(i) => copy_range(path, i + 1, path.len()),
        None => copy_range(path, 0, path.len()),
    };
    assert(path@.subrange(0, path@.len() as int) =~= path@);
    proof {
        lemma_last_index_bounds(name@, DOT);
    }
    match find_last(name.as_slice(), DOT) {
        Some(d) => if d > 0 {
            Some(copy_range(name.as_slice(), d + 1, name.len()))
        } else {
            None
        },
        None => None,
    }
}

/// The media type of a static file, by its extension.
pub fn content_type_of(path: &[u8]) -> (r: ContentType)
    ensures
        r == content_type_for(path@),
{
    proof {
        reveal_strlit("html");
        reveal_strlit("css");
        reveal_strlit("js");
        reveal_strlit("json");
        reveal_strlit("png");
        reveal_strlit("jpg");
        reveal_strlit("jpeg");
        reveal_strlit("gif");
        reveal_strlit("svg");
        reveal_strlit("txt");
    }
    match extension(path) {
        Some(e) => {
            let e = e.as_slice();
            if is_lit(e, "html") {
                ContentType::Html
            } else if is_lit(e, "css") {
                ContentType::Css
            } else if is_lit(e, "js") {
                ContentType::JavaScript
            } else if is_lit(e, "json") {
                ContentType::Json
            } else if is_lit(e, "png") {
                ContentType::Png
            } else if is_lit(e, "jpg") || is_lit(e, "jpeg") {
                ContentType::Jpeg
            } else if is_lit(e, "gif") {
                ContentType::Gif
            } else if is_lit(e, "svg") {
                ContentType::Svg
            } else if is_lit(e, "txt") {
                ContentType::PlainText
            } else {
                ContentType::OctetStream
            }
        },
        None => ContentType::OctetStream,
    }
}

/// The response for a static file: its contents with the media type of
/// its extension, or a 404 where it could not be read.
pub open spec fn file_reply(path: Seq<u8>, contents: Option<Seq<u8>>) -> ResponseModel {
    match contents {
        Some(c) => ResponseModel { status: Status::Success, content_type: content_type_for(path), body: c },
        None => ResponseModel {
            status: Status::NotFound,
            content_type: ContentType::PlainText,
            body: ascii("File not found"@),
        },
    }
}

pub open spec fn opt_bytes(o: Option<Vec<u8>>) -> Option<Seq<u8>> {
    match o {
        Some(v) => Some(v@),
        None => None,
    }
}

/// The response for the static file at `path` below the static root:
/// its contents with the media type of its extension, or a 404 where it
/// could not be read.
pub fn file_response(path: &[u8], contents: Option<Vec<u8>>) -> (r: Response)
    ensures
        r@ == file_reply(path@, opt_bytes(contents)),
{
    match contents {
        Some(c) => Response { status: Status::Success, content_type: content_type_of(path), body: c },
        None => {
            proof {
                reveal_strlit("File not found");
            }
            Response { status: Status::NotFound, content_type: ContentType::PlainText, body: lit("File not found") }
        },
    }
}

/// `GET /user/{id}` with a non-empty decimal id answers 200 with the id
/// echoed; any other id answers 400 `Invalid user ID`.
pub proof fn lemma_user_route(id: Seq<u8>, body: Seq<u8>)
    ensures
        route_of(ascii("GET"@), ascii("/user/"@) + id, body) == (if id.len() > 0 && all_digits(id) {
            reply(Status::Success, ContentType::PlainText, ascii("You requested user "@) + id)
        } else {
            reply(Status::BadRequest, ContentType::PlainText, ascii("Invalid user ID"@))
        }),
{
    reveal_strlit("GET");
    reveal_strlit("/");
    reveal_strlit("/hello");
    reveal_strlit("/api");
    reveal_strlit("/user/");
    let p = ascii("/user/"@) + id;
    assert(p.subrange(0, 6) =~= ascii("/user/"@));
    assert(after(p, 6) =~= id);
    assert(p[1] == 117u8);
}

/// A static path whose rest contains `..` is refused with 400 `Invalid
/// path`, and no file is asked for.
pub proof fn lemma_traversal_refused(rel: Seq<u8>, body: Seq<u8>)
    requires
        contains(rel, ascii(".."@)),
    ensures
        route_of(ascii("GET"@), ascii("/static/"@) + rel, body) == reply(
            Status::BadRequest,
            ContentType::PlainText,
            ascii("Invalid path"@),
        ),
{
    reveal_strlit("GET");
    reveal_strlit("/");
    reveal_strlit("/hello");
    reveal_strlit("/api");
    reveal_strlit("/user/");
    reveal_strlit("/static/");
    let p = ascii("/static/"@) + rel;
    assert(p.subrange(0, 8) =~= ascii("/static/"@));
    assert(after(p, 8) =~= rel);
    assert(p[1] == 115u8);
    assert(p.subrange(0, 6)[1] == 115u8);
}

/// `DELETE /delete` answers 200 `Delete request processed.` whatever the
/// body.
pub proof fn lemma_delete_route(body: Seq<u8>)
    ensures
        route_of(ascii("DELETE"@), ascii("/delete"@), body) == reply(
            Status::Success,
            ContentType::PlainText,
            ascii("Delete request processed."@),
        ),
{
    reveal_strlit("GET");
    reveal_strlit("POST");
    reveal_strlit("PUT");
    reveal_strlit("DELETE");
    reveal_strlit("/delete");
    reveal_strlit("/submit");
    reveal_strlit("/update");
    assert(ascii("DELETE"@).len() == 6);
    assert(ascii("GET"@).len() == 3);
    assert(ascii("POST"@).len() == 4);
    assert(ascii("PUT"@).len() == 3);
}

} // verus!
