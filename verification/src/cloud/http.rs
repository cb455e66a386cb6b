//! HTTP/1.1 requests and responses, server side: the fixed subset that the
//! fleet dashboard and the tool endpoint need.
use vstd::prelude::*;
use vstd::utf8::{decode_utf8, encode_utf8, valid_utf8};
use crate::cloud::json::{text as json_text, Json};
use crate::text::{
    bytes_of, decimal, find_char, first_at, lower, lowercase, parse_unsigned, push_decimal,
    same_text, split_words, text_of, trim, trimmed, unsigned_up_to, utf8_chars, views, words,
};

verus! {

/// HTTP method. Unknown verbs are kept verbatim under [`Method::Other`].
#[derive(Debug, Clone, PartialEq, Eq)]
pub enum Method {
    /// `GET`.
    Get,
    /// `POST`.
    Post,
    /// `PUT`.
    Put,
    /// `DELETE`.
    Delete,
    /// Any other method, preserved as text.
    Other(String),
}

/// What a [`Method`] stands for.
pub ghost enum MethodView {
    Get,
    Post,
    Put,
    Delete,
    Other(Seq<char>),
}

impl View for Method {
    type V = MethodView;

    open spec fn view(&self) -> MethodView {
        match self {
            Method::Get => MethodView::Get,
            Method::Post => MethodView::Post,
            Method::Put => MethodView::Put,
            Method::Delete => MethodView::Delete,
            Method::Other(s) => MethodView::Other(s@),
        }
    }
}

/// The method that a token names.
pub open spec fn method_of(s: Seq<char>) -> MethodView {
    if s == "GET"@ {
        MethodView::Get
    } else if s == "POST"@ {
        MethodView::Post
    } else if s == "PUT"@ {
        MethodView::Put
    } else if s == "DELETE"@ {
        MethodView::Delete
    } else {
        MethodView::Other(s)
    }
}

impl MethodView {
    /// The canonical token text.
    pub open spec fn token(self) -> Seq<char> {
        match self {
            MethodView::Get => "GET"@,
            MethodView::Post => "POST"@,
            MethodView::Put => "PUT"@,
            MethodView::Delete => "DELETE"@,
            MethodView::Other(s) => s,
        }
    }
}

impl Method {
    /// Parses a method token.
    pub fn parse(s: &str) -> (r: Method)
        ensures
            r@ == method_of(s@),
    {
        if same_text(s, "GET") {
            Method::Get
        } else if same_text(s, "POST") {
            Method::Post
        } else if same_text(s, "PUT") {
            Method::Put
        } else if same_text(s, "DELETE") {
            Method::Delete
        } else {
            Method::Other(s.to_owned())
        }
    }

    /// The canonical token text.
    pub fn as_str(&self) -> (r: &str)
        ensures
            r@ == self@.token(),
    {
        match self {
            Method::Get => "GET",
            Method::Post => "POST",
            Method::Put => "PUT",
            Method::Delete => "DELETE",
            Method::Other(s) => s.as_str(),
        }
    }
}

/// The token of a parsed method is the text it was parsed from.
pub proof fn law_method_token(s: Seq<char>)
    ensures
        method_of(s).token() == s,
{
}

/// Parsing failure classification.
#[derive(Debug, Clone, Copy, PartialEq, Eq, Structural)]
pub enum HttpError {
    /// Request line or headers malformed.
    Malformed,
}

impl HttpError {
    /// The error in words.
    pub fn message(&self) -> (r: String)
        ensures
            r@ == "malformed HTTP request"@,
    {
        "malformed HTTP request".to_owned()
    }
}

/// A parsed HTTP request, headers in order.
#[derive(Debug, Clone, PartialEq)]
pub struct Request {
    /// Method.
    pub method: Method,
    /// Path component only (query string stripped into `query`).
    pub path: String,
    /// Raw query string (after `?`), empty if absent.
    pub query: String,
    /// Header name/value pairs (names lower-cased).
    pub headers: Vec<(String, String)>,
    /// Body bytes (length-delimited by `Content-Length`).
    pub body: Vec<u8>,
}

/// What a [`Request`] stands for.
#[verifier::ext_equal]
pub ghost struct RequestView {
    pub method: MethodView,
    pub path: Seq<char>,
    pub query: Seq<char>,
    pub headers: Seq<(Seq<char>, Seq<char>)>,
    pub body: Seq<u8>,
}

/// The texts of header pairs.
pub open spec fn pairs(v: Seq<(String, String)>) -> Seq<(Seq<char>, Seq<char>)> {
    v.map_values(|p: (String, String)| (p.0@, p.1@))
}

impl View for Request {
    type V = RequestView;

    open spec fn view(&self) -> RequestView {
        RequestView {
            method: self.method@,
            path: self.path@,
            query: self.query@,
            headers: pairs(self.headers@),
            body: self.body@,
        }
    }
}

// --- What a request is -----------------------------------------------------

/// `needle` stands in `haystack` at `i`.
pub open spec fn occurs_at(haystack: Seq<u8>, needle: Seq<u8>, i: int) -> bool {
    0 <= i && i + needle.len() <= haystack.len() && haystack.subrange(i, i + needle.len()) == needle
}

/// The first place from `i` on where `needle` stands.
pub open spec fn first_from(haystack: Seq<u8>, needle: Seq<u8>, i: int) -> Option<int>
    decreases haystack.len() - i,
{
    if i < 0 || i + needle.len() > haystack.len() || i >= haystack.len() {
        None
    } else if occurs_at(haystack, needle, i) {
        Some(i)
    } else {
        first_from(haystack, needle, i + 1)
    }
}

/// The blank line that ends the headers.
pub open spec fn blank_line() -> Seq<u8> {
    seq![13u8, 10u8, 13u8, 10u8]
}

/// Where a line of `s` ends first, or its length.
pub open spec fn line_end(s: Seq<char>) -> int
    decreases s.len(),
{
    if s.len() < 2 {
        s.len() as int
    } else if s[0] == '\r' && s[1] == '\n' {
        0
    } else {
        1 + line_end(s.drop_first())
    }
}

/// The lines of `s`, which CR LF separates.
pub open spec fn lines(s: Seq<char>) -> Seq<Seq<char>>
    decreases s.len(),
{
    let n = line_end(s);
    if 0 <= n && n + 2 <= s.len() {
        seq![s.take(n)] + lines(s.skip(n + 2))
    } else {
        seq![s]
    }
}

/// The header that a line holds: what stands before the first colon in lower
/// case, and what stands after it, both trimmed.
pub open spec fn header_of(line: Seq<char>) -> Option<(Seq<char>, Seq<char>)> {
    match first_at(line, ':') {
        Some(i) => Some((lower(trim(line.take(i))), trim(line.skip(i + 1)))),
        None => None,
    }
}

/// Whether every line holds a header or nothing at all.
pub open spec fn all_headers(ls: Seq<Seq<char>>) -> bool {
    forall|i: int| 0 <= i < ls.len() ==> (#[trigger] ls[i]).len() == 0 || header_of(ls[i]) is Some
}

/// The headers that lines hold. An empty line holds none.
pub open spec fn headers_of(ls: Seq<Seq<char>>) -> Seq<(Seq<char>, Seq<char>)>
    decreases ls.len(),
{
    if ls.len() == 0 {
        Seq::empty()
    } else {
        let before = headers_of(ls.drop_last());
        match header_of(ls.last()) {
            Some(h) => before.push(h),
            None => before,
        }
    }
}

/// The number that a length header gives, zero where it gives none.
pub open spec fn length_value(v: Seq<char>) -> nat {
    match unsigned_up_to(v, usize::MAX as nat) {
        Some(n) => n,
        None => 0,
    }
}

/// The length of the body: what the last `content-length` header gives.
pub open spec fn body_length(headers: Seq<(Seq<char>, Seq<char>)>) -> nat
    decreases headers.len(),
{
    if headers.len() == 0 {
        0
    } else if headers.last().0 == "content-length"@ {
        length_value(headers.last().1)
    } else {
        body_length(headers.drop_last())
    }
}

/// Path and query of a request target.
pub open spec fn target_parts(target: Seq<char>) -> (Seq<char>, Seq<char>) {
    match first_at(target, '?') {
        Some(i) => (target.take(i), target.skip(i + 1)),
        None => (target, Seq::empty()),
    }
}

/// Method, path, query and headers of the head of a request, where it is well
/// formed: a request line of three words, then headers, each with a colon.
pub open spec fn head_of(bytes: Seq<u8>) -> Option<RequestView> {
    let ls = lines(decode_utf8(bytes));
    let parts = words(ls[0]);
    if !valid_utf8(bytes) || parts.len() != 3 || !all_headers(ls.skip(1)) {
        None
    } else {
        let (path, query) = target_parts(parts[1]);
        Some(
            RequestView {
                method: method_of(parts[0]),
                path,
                query,
                headers: headers_of(ls.skip(1)),
                body: Seq::empty(),
            },
        )
    }
}

/// The request that `buf` starts with, and how many bytes it spans. There is
/// none yet while the blank line or a part of the body is missing.
pub open spec fn request_in(buf: Seq<u8>) -> Result<Option<(RequestView, int)>, HttpError> {
    match first_from(buf, blank_line(), 0) {
        None => Ok(None),
        Some(p) => match head_of(buf.take(p)) {
            None => Err(HttpError::Malformed),
            Some(head) => {
                let total = p + 4 + body_length(head.headers);
                if buf.len() < total {
                    Ok(None)
                } else {
                    Ok(
                        Some(
                            (
                                RequestView { body: buf.subrange(p + 4, total), ..head },
                                total,
                            ),
                        ),
                    )
                }
            },
        },
    }
}

// --- Parsing ---------------------------------------------------------------

pub proof fn lemma_line_end(s: Seq<char>)
    ensures
        0 <= line_end(s) <= s.len(),
        line_end(s) == s.len() || line_end(s) + 2 <= s.len(),
    decreases s.len(),
{
    if s.len() >= 2 && !(s[0] == '\r' && s[1] == '\n') {
        lemma_line_end(s.drop_first());
    }
}

/// Finds where `needle` first stands in `haystack`. An empty one stands
/// nowhere.
pub fn find_subslice(haystack: &[u8], needle: &[u8]) -> (r: Option<usize>)
    ensures
        match r {
            Some(i) => needle@.len() > 0 && first_from(haystack@, needle@, 0) == Some(i as int) && i
                + needle@.len() <= haystack.len(),
            None => needle@.len() == 0 || first_from(haystack@, needle@, 0) is None,
        },
{
    if needle.len() == 0 || haystack.len() < needle.len() {
        return None;
    }
    let mut i: usize = 0;
    let last: usize = haystack.len() - needle.len();
    while i <= last
        invariant
            needle@.len() > 0,
            last == haystack@.len() - needle@.len(),
            i <= last + 1,
            first_from(haystack@, needle@, 0) == first_from(haystack@, needle@, i as int),
        decreases haystack@.len() - i,
    {
        let mut k: usize = 0;
        while k < needle.len() && haystack[i + k] == needle[k]
            invariant
                k <= needle@.len(),
                i + needle@.len() <= haystack.len(),
                forall|j: int| 0 <= j < k ==> haystack@[i + j] == needle@[j],
            decreases needle@.len() - k,
        {
            k = k + 1;
        }
        if k == needle.len() {
            assert(haystack@.subrange(i as int, i + needle@.len()) =~= needle@);
            return Some(i);
        }
        proof {
            if occurs_at(haystack@, needle@, i as int) {
                assert(haystack@.subrange(i as int, i + needle@.len())[k as int] == needle@[k as int]);
                assert(false);
            }
        }
        i = i + 1;
    }
    None
}

/// Splits a request target into path and query.
fn split_query(target: &[char]) -> (r: (String, String))
    ensures
        (r.0@, r.1@) == target_parts(target@),
{
    match find_char(target, '?') {
        Some(i) => {
            let path: &[char] = vstd::slice::slice_subrange(target, 0, i);
            let query: &[char] = vstd::slice::slice_subrange(target, i + 1, target.len());
            assert(path@ =~= target@.take(i as int));
            assert(query@ =~= target@.skip(i + 1));
            (text_of(path), text_of(query))
        },
        None => (text_of(target), String::new()),
    }
}

/// The lines of `s`.
fn split_lines(s: &[char]) -> (r: Vec<Vec<char>>)
    ensures
        views(r@) == lines(s@),
        r@.len() > 0,
{
    let mut out: Vec<Vec<char>> = Vec::new();
    let mut start: usize = 0;
    let mut i: usize = 0;
    proof {
        assert(s@.skip(0) =~= s@);
        assert(views(out@) + lines(s@) =~= lines(s@));
    }
    while i < s.len()
        invariant
            start <= i <= s@.len(),
            lines(s@) == views(out@) + lines(s@.skip(start as int)),
            line_end(s@.skip(start as int)) == (i - start) + line_end(s@.skip(i as int)),
        decreases s@.len() - i,
    {
        let ghost rest = s@.skip(start as int);
        if i + 1 < s.len() && s[i] == '\r' && s[i + 1] == '\n' {
            let line: Vec<char> = vstd::slice::slice_to_vec(
                vstd::slice::slice_subrange(s, start, i),
            );
            let ghost before = views(out@);
            out.push(line);
            proof {
                assert(line@ =~= rest.take(i - start));
                assert(rest.skip(i - start + 2) =~= s@.skip(i + 2));
                assert(views(out@) =~= before.push(line@));
                assert(before + (seq![line@] + lines(s@.skip(i + 2))) =~= views(out@) + lines(
                    s@.skip(i + 2),
                ));
            }
            i = i + 2;
            start = i;
        } else {
            proof {
                assert(s@.skip(i as int).drop_first() =~= s@.skip(i + 1));
            }
            i = i + 1;
        }
    }
    let line: Vec<char> = vstd::slice::slice_to_vec(
        vstd::slice::slice_subrange(s, start, s.len()),
    );
    let ghost before = views(out@);
    out.push(line);
    proof {
        let rest = s@.skip(start as int);
        assert(line@ =~= rest);
        assert(line_end(s@.skip(i as int)) == 0);
        assert(line_end(rest) == rest.len());
        assert(views(out@) =~= before.push(line@));
        assert(before + seq![line@] =~= views(out@));
    }
    out
}

impl Request {
    /// Attempts to parse one complete request from `buf`.
    ///
    /// * `Ok(None)` - not enough bytes yet (incomplete headers or body). The
    ///   caller should retain `buf` and call again after more data arrives.
    /// * `Ok(Some((req, total)))` - a complete request spanning `total` bytes
    ///   (so the caller can drain exactly that many from its buffer).
    /// * `Err` - malformed request line/headers.
    pub fn parse(buf: &[u8]) -> (r: Result<Option<(Request, usize)>, HttpError>)
        ensures
            match r {
                Ok(Some((req, total))) => {
                    &&& request_in(buf@) == Ok::<Option<(RequestView, int)>, HttpError>(
                        Some((req@, total as int)),
                    )
                    &&& total <= buf@.len()
                },
                Ok(None) => request_in(buf@) == Ok::<Option<(RequestView, int)>, HttpError>(None),
                Err(e) => request_in(buf@) == Err::<Option<(RequestView, int)>, HttpError>(e),
            },
    {
        let blank: [u8; 4] = [13u8, 10u8, 13u8, 10u8];
        assert(blank@ =~= blank_line());
        let end: usize = match find_subslice(buf, blank.as_slice()) {
            Some(p) => p,
            None => {
                return Ok(None);
            },
        };
        let head_bytes: &[u8] = vstd::slice::slice_subrange(buf, 0, end);
        assert(head_bytes@ =~= buf@.take(end as int));
        let head: Vec<char> = match utf8_chars(head_bytes) {
            Some(v) => v,
            None => {
                return Err(HttpError::Malformed);
            },
        };
        let all: Vec<Vec<char>> = split_lines(head.as_slice());
        let ghost ls = lines(head@);
        proof {
            assert(views(all@)[0] == all@[0]@);
        }
        let parts: Vec<Vec<char>> = split_words(all[0].as_slice());
        proof {
            assert(views(parts@).len() == parts@.len());
        }
        if parts.len() != 3 {
            return Err(HttpError::Malformed);
        }
        proof {
            assert(views(parts@)[0] == parts@[0]@);
            assert(views(parts@)[1] == parts@[1]@);
        }
        let verb: String = text_of(parts[0].as_slice());
        let method: Method = Method::parse(verb.as_str());
        let (path, query): (String, String) = split_query(parts[1].as_slice());
        let mut headers: Vec<(String, String)> = Vec::new();
        let mut content_length: usize = 0;
        let mut i: usize = 1;
        proof {
            assert(pairs(headers@) =~= headers_of(ls.skip(1).take(0)));
        }
        while i < all.len()
            invariant
                1 <= i <= all@.len(),
                views(all@) == ls,
                ls == lines(decode_utf8(buf@.take(end as int))),
                first_from(buf@, blank_line(), 0) == Some(end as int),
                forall|j: int|
                    1 <= j < i ==> (#[trigger] ls[j]).len() == 0 || header_of(ls[j]) is Some,
                pairs(headers@) == headers_of(ls.skip(1).take(i - 1)),
                content_length == body_length(pairs(headers@)),
            decreases all@.len() - i,
        {
            proof {
                let more = ls.skip(1).take(i as int);
                assert(more.drop_last() =~= ls.skip(1).take(i - 1));
                assert(more.last() == all@[i as int]@);
            }
            let line: &[char] = all[i].as_slice();
            if let Some(c) = find_char(line, ':') {
                let name_part: &[char] = vstd::slice::slice_subrange(line, 0, c);
                let value_part: &[char] = vstd::slice::slice_subrange(line, c + 1, line.len());
                assert(name_part@ =~= line@.take(c as int));
                assert(value_part@ =~= line@.skip(c + 1));
                let name: String = lowercase(trimmed(name_part));
                let value: &[char] = trimmed(value_part);
                if same_text(name.as_str(), "content-length") {
                    content_length = match parse_unsigned(value, usize::MAX as u64) {
                        Some(n) => n as usize,
                        None => 0,
                    };
                }
                let ghost before = pairs(headers@);
                let ghost pair = (name@, value@);
                headers.push((name, text_of(value)));
                proof {
                    assert(pairs(headers@) =~= before.push(pair));
                    assert(before.push(pair).drop_last() =~= before);
                }
            } else if line.len() > 0 {
                proof {
                    assert(ls.skip(1)[i - 1] == line@);
                    assert(!all_headers(ls.skip(1)));
                }
                return Err(HttpError::Malformed);
            }
            i = i + 1;
        }
        proof {
            assert forall|j: int| 0 <= j < ls.skip(1).len() implies (#[trigger] ls.skip(
                1,
            )[j]).len() == 0 || header_of(ls.skip(1)[j]) is Some by {
                assert(ls.skip(1)[j] == ls[j + 1]);
            }
            assert(ls.skip(1).take(i - 1) =~= ls.skip(1));
        }
        let start: usize = end + 4;
        if buf.len() - start < content_length {
            return Ok(None);
        }
        let total: usize = start + content_length;
        let body: Vec<u8> = vstd::slice::slice_to_vec(
            vstd::slice::slice_subrange(buf, start, total),
        );
        Ok(Some((Request { method, path, query, headers, body }, total)))
    }
}

proof fn lemma_first_from_extends(a: Seq<u8>, more: Seq<u8>, needle: Seq<u8>, i: int)
    requires
        first_from(a, needle, i) is Some,
        0 <= i,
    ensures
        first_from(a + more, needle, i) == first_from(a, needle, i),
        first_from(a, needle, i)->0 + needle.len() <= a.len(),
        first_from(a, needle, i)->0 >= i,
    decreases a.len() - i,
{
    let b = a + more;
    assert(b.subrange(i, i + needle.len()) =~= a.subrange(i, i + needle.len()));
    if !occurs_at(a, needle, i) {
        lemma_first_from_extends(a, more, needle, i + 1);
    }
}

/// A request that has arrived is not changed by the bytes that follow it.
pub proof fn law_request_is_framed(buf: Seq<u8>, more: Seq<u8>)
    requires
        request_in(buf) matches Ok(Some(_)),
    ensures
        request_in(buf + more) == request_in(buf),
{
    lemma_first_from_extends(buf, more, blank_line(), 0);
    let p = first_from(buf, blank_line(), 0)->0;
    assert((buf + more).take(p) =~= buf.take(p));
    let head = head_of(buf.take(p))->0;
    let total = p + 4 + body_length(head.headers);
    assert((buf + more).subrange(p + 4, total) =~= buf.subrange(p + 4, total));
}

/// A malformed head stays malformed whatever follows it.
pub proof fn law_malformed_stays_malformed(buf: Seq<u8>, more: Seq<u8>)
    requires
        request_in(buf) is Err,
    ensures
        request_in(buf + more) is Err,
{
    lemma_first_from_extends(buf, more, blank_line(), 0);
    let p = first_from(buf, blank_line(), 0)->0;
    assert((buf + more).take(p) =~= buf.take(p));
}

// --- Responses -------------------------------------------------------------

/// An HTTP response to be serialized to the wire.
#[derive(Debug, Clone)]
pub struct Response {
    /// Status code.
    pub status: u16,
    /// Header pairs (names preserved as given).
    pub headers: Vec<(String, String)>,
    /// Body bytes.
    pub body: Vec<u8>,
}

/// What a [`Response`] stands for.
#[verifier::ext_equal]
pub ghost struct ResponseView {
    pub status: u16,
    pub headers: Seq<(Seq<char>, Seq<char>)>,
    pub body: Seq<u8>,
}

impl View for Response {
    type V = ResponseView;

    open spec fn view(&self) -> ResponseView {
        ResponseView { status: self.status, headers: pairs(self.headers@), body: self.body@ }
    }
}

/// A response with a body of the given content type.
pub open spec fn response(code: u16, content_type: Seq<char>, body: Seq<u8>) -> ResponseView {
    ResponseView {
        status: code,
        headers: seq![
            ("content-type"@, content_type),
            ("content-length"@, decimal(body.len())),
        ],
        body,
    }
}

/// A JSON response.
pub open spec fn json_response(code: u16, v: crate::cloud::json::Value) -> ResponseView {
    response(code, "application/json"@, encode_utf8(json_text(v)))
}

/// A plain-text response.
pub open spec fn text_response(code: u16, body: Seq<char>) -> ResponseView {
    response(code, "text/plain; charset=utf-8"@, encode_utf8(body))
}

/// An HTML response.
pub open spec fn html_response(code: u16, body: Seq<char>) -> ResponseView {
    response(code, "text/html; charset=utf-8"@, encode_utf8(body))
}

/// The canonical reason phrase of a status code.
pub open spec fn reason(code: u16) -> Seq<char> {
    if code == 200 {
        "OK"@
    } else if code == 201 {
        "Created"@
    } else if code == 204 {
        "No Content"@
    } else if code == 400 {
        "Bad Request"@
    } else if code == 401 {
        "Unauthorized"@
    } else if code == 403 {
        "Forbidden"@
    } else if code == 404 {
        "Not Found"@
    } else if code == 405 {
        "Method Not Allowed"@
    } else if code == 409 {
        "Conflict"@
    } else if code == 422 {
        "Unprocessable Entity"@
    } else if code == 500 {
        "Internal Server Error"@
    } else if code == 501 {
        "Not Implemented"@
    } else {
        "Unknown"@
    }
}

/// Header lines.
pub open spec fn header_lines(headers: Seq<(Seq<char>, Seq<char>)>) -> Seq<char>
    decreases headers.len(),
{
    if headers.len() == 0 {
        Seq::empty()
    } else {
        header_lines(headers.drop_last()) + headers.last().0 + ": "@ + headers.last().1
            + "\r\n"@
    }
}

/// All of a response but its body, as text.
pub open spec fn response_head(r: ResponseView) -> Seq<char> {
    "HTTP/1.1 "@ + decimal(r.status as nat) + " "@ + reason(r.status) + "\r\n"@ + header_lines(
        r.headers,
    ) + "connection: close\r\n\r\n"@
}

/// Returns the canonical reason phrase for a status code (subset used here).
pub fn status_text(code: u16) -> (r: &'static str)
    ensures
        r@ == reason(code),
{
    match code {
        200 => "OK",
        201 => "Created",
        204 => "No Content",
        400 => "Bad Request",
        401 => "Unauthorized",
        403 => "Forbidden",
        404 => "Not Found",
        405 => "Method Not Allowed",
        409 => "Conflict",
        422 => "Unprocessable Entity",
        500 => "Internal Server Error",
        501 => "Not Implemented",
        _ => "Unknown",
    }
}

impl Response {
    /// Builds a JSON response.
    pub fn json(code: u16, body: Json) -> (r: Response)
        ensures
            r@ == json_response(code, body@),
    {
        let text: String = body.write_to_string();
        Response::with_body(code, "application/json", bytes_of(text.as_str()))
    }

    /// Builds a plain-text response.
    pub fn text(code: u16, body: &str) -> (r: Response)
        ensures
            r@ == text_response(code, body@),
    {
        Response::with_body(code, "text/plain; charset=utf-8", bytes_of(body))
    }

    /// Builds an HTML response.
    pub fn html(code: u16, body: &str) -> (r: Response)
        ensures
            r@ == html_response(code, body@),
    {
        Response::with_body(code, "text/html; charset=utf-8", bytes_of(body))
    }

    /// Builds a response carrying a body with the given content type.
    pub fn with_body(code: u16, content_type: &str, body: Vec<u8>) -> (r: Response)
        ensures
            r@ == response(code, content_type@, body@),
    {
        let mut length: String = String::new();
        push_decimal(&mut length, body.len() as u64);
        let mut headers: Vec<(String, String)> = Vec::new();
        headers.push(("content-type".to_owned(), content_type.to_owned()));
        headers.push(("content-length".to_owned(), length));
        proof {
            assert(length@ =~= decimal(body@.len()));
            assert(pairs(headers@) =~= response(code, content_type@, body@).headers);
        }
        Response { status: code, headers, body }
    }

    /// A plain-text error response.
    pub fn error(code: u16, msg: &str) -> (r: Response)
        ensures
            r@ == text_response(code, msg@),
    {
        Response::text(code, msg)
    }

    /// Serializes to wire bytes (HTTP/1.1, `Connection: close`).
    pub fn to_bytes(&self) -> (r: Vec<u8>)
        ensures
            r@ == encode_utf8(response_head(self@)) + self@.body,
    {
        let mut head: String = "HTTP/1.1 ".to_owned();
        push_decimal(&mut head, self.status as u64);
        head.append(" ");
        head.append(status_text(self.status));
        head.append("\r\n");
        let ghost line = head@;
        let mut i: usize = 0;
        proof {
            assert(pairs(self.headers@).take(0) =~= Seq::empty());
            assert(line + Seq::<char>::empty() =~= line);
        }
        while i < self.headers.len()
            invariant
                i <= self.headers@.len(),
                head@ == line + header_lines(pairs(self.headers@).take(i as int)),
            decreases self.headers@.len() - i,
        {
            let ghost before = head@;
            head.append(self.headers[i].0.as_str());
            head.append(": ");
            head.append(self.headers[i].1.as_str());
            head.append("\r\n");
            proof {
                let all = pairs(self.headers@);
                let more = all.take(i + 1);
                assert(more.drop_last() =~= all.take(i as int));
                assert(more.last() == (self.headers@[i as int].0@, self.headers@[i as int].1@));
                assert(head@ =~= line + header_lines(more));
            }
            i = i + 1;
        }
        proof {
            assert(pairs(self.headers@).take(i as int) =~= pairs(self.headers@));
        }
        head.append("connection: close\r\n\r\n");
        assert(head@ =~= response_head(self@));
        let mut out: Vec<u8> = bytes_of(head.as_str());
        let mut body: Vec<u8> = vstd::slice::slice_to_vec(self.body.as_slice());
        out.append(&mut body);
        out
    }
}

} // verus!
