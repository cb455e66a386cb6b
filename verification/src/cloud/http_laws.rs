//! The parts of an HTTP request.
use vstd::prelude::*;
use vstd::utf8::{decode_utf8, encode_utf8_decode_utf8};
use crate::cloud::http::{
    body_length, first_from, header_lines, html_response, json_response, method_of, occurs_at,
    request_in, response_head, target_parts, text_response, MethodView, ResponseView,
};
use crate::cloud::json::{parse_result, Value};
use crate::cloud::json_laws::{law_parse_reads_back, plain};
use crate::num::decimal::lemma_decimal_digits;
use crate::text::{
    after_plus, decimal, first_at, is_digit, lemma_first_at, lemma_first_at_is, unsigned_up_to,
};

verus! {

/// A target is a path up to the first question mark, and a query behind it.
pub proof fn law_targets_part_at_the_question_mark(path: Seq<char>, query: Seq<char>)
    requires
        !path.contains('?'),
    ensures
        target_parts(path + seq!['?'] + query) == (path, query),
        target_parts(path) == (path, Seq::<char>::empty()),
{
    let t = path + seq!['?'] + query;
    let n = path.len() as int;
    assert forall|j: int| 0 <= j < n implies #[trigger] t[j] != '?' by {
        assert(path.contains(path[j]));
        assert(t[j] == path[j]);
    }
    lemma_first_at_is(t, '?', n);
    assert(t.take(n) =~= path);
    assert(t.skip(n + 1) =~= query);
    lemma_first_at(path, '?');
    if let Some(i) = first_at(path, '?') {
        assert(path.contains(path[i]));
    }
}

/// The tokens of the methods, written in capitals; any other token is another
/// method.
pub proof fn law_methods_by_token(s: Seq<char>)
    ensures
        method_of(s) is Get <==> s == "GET"@,
        method_of(s) is Post <==> s == "POST"@,
        method_of(s) is Put <==> s == "PUT"@,
        method_of(s) is Delete <==> s == "DELETE"@,
        method_of(s) matches MethodView::Other(t) ==> t == s,
{
    reveal_strlit("GET");
    reveal_strlit("POST");
    reveal_strlit("PUT");
    reveal_strlit("DELETE");
    assert("GET"@[0] == 'G' && "POST"@[1] == 'O' && "PUT"@[1] == 'U' && "DELETE"@[0] == 'D');
    assert("POST"@[0] == 'P' && "PUT"@[0] == 'P');
}

/// The length of the body is what the last `content-length` says, 0 where there
/// is none or where it is no number.
pub proof fn law_last_length_counts(
    headers: Seq<(Seq<char>, Seq<char>)>,
    name: Seq<char>,
    value: Seq<char>,
    n: usize,
)
    ensures
        body_length(Seq::empty()) == 0,
        body_length(headers.push(("content-length"@, decimal(n as nat)))) == n,
        name != "content-length"@ ==> body_length(headers.push((name, value))) == body_length(
            headers,
        ),
        unsigned_up_to(value, usize::MAX as nat) is None ==> body_length(
            headers.push(("content-length"@, value)),
        ) == 0,
{
    let h = headers.push(("content-length"@, decimal(n as nat)));
    assert(headers.push(("content-length"@, value)).drop_last() =~= headers);
    assert(h.drop_last() =~= headers);
    assert(headers.push((name, value)).drop_last() =~= headers);
    let d = decimal(n as nat);
    lemma_decimal_digits(n as nat);
    assert(is_digit(d[0]));
    assert(after_plus(d) == d);
}

/// A line end and an empty line stand at `i`.
pub open spec fn is_blank_line(b: Seq<u8>, i: int) -> bool {
    &&& 0 <= i && i + 4 <= b.len()
    &&& b[i] == 13 && b[i + 1] == 10 && b[i + 2] == 13 && b[i + 3] == 10
}

/// A request that is complete ends behind its body, which starts behind the first
/// blank line and is as long as its headers say; nothing is complete before that
/// many bytes are there.
pub proof fn law_requests_end_behind_the_body(buf: Seq<u8>)
    ensures
        request_in(buf) matches Ok(Some((req, end))) ==> {
            &&& 0 <= end <= buf.len()
            &&& req.body.len() == body_length(req.headers)
            &&& req.body == buf.subrange(end - req.body.len(), end)
            &&& is_blank_line(buf, end - req.body.len() - 4)
            &&& forall|i: int|
                0 <= i < end - req.body.len() - 4 ==> !#[trigger] is_blank_line(buf, i)
        },
{
    let blank = seq![13u8, 10u8, 13u8, 10u8];
    lemma_first_from(buf, blank, 0);
    assert forall|i: int| 0 <= i implies #[trigger] is_blank_line(buf, i) == occurs_at(
        buf,
        blank,
        i,
    ) by {
        if i + 4 <= buf.len() {
            let s = buf.subrange(i, i + 4);
            assert(s[0] == buf[i] && s[1] == buf[i + 1] && s[2] == buf[i + 2] && s[3] == buf[i
                + 3]);
            if is_blank_line(buf, i) {
                assert(s =~= blank);
            }
        }
    }
}

proof fn lemma_first_from(haystack: Seq<u8>, needle: Seq<u8>, i: int)
    requires
        0 <= i,
    ensures
        first_from(haystack, needle, i) matches Some(p) ==> {
            &&& i <= p
            &&& occurs_at(haystack, needle, p)
            &&& forall|j: int| i <= j < p ==> !#[trigger] occurs_at(haystack, needle, j)
        },
    decreases haystack.len() - i,
{
    if i + needle.len() <= haystack.len() && i < haystack.len() && !occurs_at(haystack, needle, i) {
        lemma_first_from(haystack, needle, i + 1);
    }
}

/// The head of a response: the status line, one line per header in order, and the
/// line that says that the connection closes.
pub proof fn law_response_head_lines(
    r: ResponseView,
    a: Seq<(Seq<char>, Seq<char>)>,
    name: Seq<char>,
    value: Seq<char>,
)
    ensures
        header_lines(a.push((name, value))) == header_lines(a) + name + ": "@ + value + "\r\n"@,
        header_lines(Seq::empty()) == Seq::<char>::empty(),
        ("HTTP/1.1 "@ + decimal(r.status as nat) + " "@).is_prefix_of(response_head(r)),
        (header_lines(r.headers) + "connection: close\r\n\r\n"@).is_suffix_of(response_head(r)),
{
    assert(a.push((name, value)).drop_last() =~= a);
    let t = response_head(r);
    let start = "HTTP/1.1 "@ + decimal(r.status as nat) + " "@;
    assert(start =~= t.subrange(0, start.len() as int));
    let tail = header_lines(r.headers) + "connection: close\r\n\r\n"@;
    assert(tail =~= t.subrange(t.len() - tail.len(), t.len() as int));
}

/// `r` has the status `code` and says of its body what it is and how long.
pub open spec fn is_labelled(r: ResponseView, code: u16, kind: Seq<char>) -> bool {
    &&& r.status == code
    &&& r.headers.len() == 2
    &&& r.headers[0] == ("content-type"@, kind)
    &&& r.headers[1] == ("content-length"@, decimal(r.body.len()))
}

/// An answer in JSON is labelled so, and its body reads back as the value.
pub proof fn law_json_answers_read_back(code: u16, v: Value)
    requires
        plain(v),
    ensures
        is_labelled(json_response(code, v), code, "application/json"@),
        parse_result(json_response(code, v).body) == Ok::<Value, Seq<char>>(v),
{
    law_parse_reads_back(v);
}

/// An answer in plain text or HTML is labelled so, and its body is the text.
pub proof fn law_text_answers_read_back(code: u16, t: Seq<char>)
    ensures
        is_labelled(text_response(code, t), code, "text/plain; charset=utf-8"@),
        is_labelled(html_response(code, t), code, "text/html; charset=utf-8"@),
        decode_utf8(text_response(code, t).body) == t,
        decode_utf8(html_response(code, t).body) == t,
{
    encode_utf8_decode_utf8(t);
}

} // verus!
