//! What the console and the fleet server say to each other is understood on
//! both sides.
use vstd::prelude::*;
use vstd::utf8::{
    decode_utf8, encode_scalar, encode_utf8, encode_utf8_decode_utf8, encode_utf8_valid_utf8,
    is_ascii_chars, last_continuation_byte, leading_byte_width_1, leading_byte_width_2,
    leading_byte_width_3, leading_byte_width_4, second_last_continuation_byte,
    third_last_continuation_byte, valid_utf8,
};
use crate::cli::console::{before_text, body_in, request_text, status_in};
use crate::cloud::auth::{attestation_in, bearer, hex_text, law_presented_attestation, SCHEME};
use crate::cloud::http::{
    all_headers, blank_line, body_length, first_from, header_lines, header_of, headers_of, line_end,
    lines, method_of, occurs_at, reason, request_in, response, response_head, target_parts,
    HttpError, MethodView, RequestView,
};
use crate::cloud::http_laws::{law_last_length_counts, law_targets_part_at_the_question_mark};
use crate::cloud::json::hex_char;
use crate::num::decimal::lemma_decimal_digits;
use crate::text::{
    after_plus, decimal, is_digit, is_space, lemma_after_text_is, lemma_encode_joins,
    lemma_first_at, lemma_first_at_is, lemma_words_last, lemma_words_more, lemma_words_push,
    lower_ascii, one_word, spaces, trim, trim_end, trim_start, words,
};

verus! {

// --- Lines ---------------------------------------------------------------------------

/// Whether a text stays within one line.
pub open spec fn one_line(s: Seq<char>) -> bool {
    forall|i: int| 0 <= i < s.len() ==> #[trigger] s[i] != '\r' && s[i] != '\n'
}

/// Whether each item is a line: not empty, and without `cr` and `lf`.
spec fn clean<A>(ls: Seq<Seq<A>>, cr: A, lf: A) -> bool {
    forall|k: int| 0 <= k < ls.len() ==> clean_line(#[trigger] ls[k], cr, lf)
}

spec fn clean_line<A>(l: Seq<A>, cr: A, lf: A) -> bool {
    l.len() > 0 && forall|i: int| 0 <= i < l.len() ==> #[trigger] l[i] != cr && l[i] != lf
}

/// Lines with `cr` and `lf` between them.
spec fn joined<A>(ls: Seq<Seq<A>>, cr: A, lf: A) -> Seq<A>
    decreases ls.len(),
{
    if ls.len() == 0 {
        Seq::empty()
    } else if ls.len() == 1 {
        ls[0]
    } else {
        ls[0] + seq![cr, lf] + joined(ls.drop_first(), cr, lf)
    }
}

/// The blank line comes first behind the lines.
proof fn lemma_no_blank<A>(ls: Seq<Seq<A>>, cr: A, lf: A, tail: Seq<A>, j: int)
    requires
        clean(ls, cr, lf),
        cr != lf,
        ls.len() > 0,
        0 <= j < joined(ls, cr, lf).len(),
    ensures
        ({
            let s = joined(ls, cr, lf) + seq![cr, lf, cr, lf] + tail;
            !(s[j] == cr && s[j + 1] == lf && s[j + 2] == cr && s[j + 3] == lf)
        }),
    decreases ls.len(),
{
    let s = joined(ls, cr, lf) + seq![cr, lf, cr, lf] + tail;
    let l = ls[0];
    assert(clean_line(ls[0], cr, lf));
    if j < l.len() {
        assert(s[j] == l[j]);
    } else {
        let rest = ls.drop_first();
        assert(clean(rest, cr, lf)) by {
            assert forall|k: int| 0 <= k < rest.len() implies clean_line(
                #[trigger] rest[k],
                cr,
                lf,
            ) by {
                assert(rest[k] == ls[k + 1]);
            }
        }
        let t = joined(rest, cr, lf) + seq![cr, lf, cr, lf] + tail;
        assert(s =~= l + seq![cr, lf] + t);
        if j == l.len() {
            assert(s[j + 2] == t[0]);
            assert(clean_line(rest[0], cr, lf));
            assert(t[0] == rest[0][0]);
        } else if j == l.len() + 1 {
            assert(s[j] == lf);
        } else {
            lemma_no_blank(rest, cr, lf, tail, j - l.len() - 2);
        }
    }
}

proof fn lemma_line_end_is(s: Seq<char>, n: int)
    requires
        0 <= n <= s.len(),
        forall|i: int| 0 <= i < n ==> #[trigger] s[i] != '\r',
        n == s.len() || (n + 2 <= s.len() && s[n] == '\r' && s[n + 1] == '\n'),
    ensures
        line_end(s) == n,
    decreases n,
{
    if n > 0 {
        let rest = s.drop_first();
        assert(s[0] != '\r');
        assert forall|i: int| 0 <= i < n - 1 implies #[trigger] rest[i] != '\r' by {
            assert(rest[i] == s[i + 1]);
        }
        lemma_line_end_is(rest, n - 1);
    }
}

/// Lines that were joined come apart again.
proof fn lemma_lines_of(ls: Seq<Seq<char>>)
    requires
        clean(ls, '\r', '\n'),
        ls.len() > 0,
    ensures
        lines(joined(ls, '\r', '\n')) == ls,
    decreases ls.len(),
{
    let s = joined(ls, '\r', '\n');
    let l = ls[0];
    assert(clean_line(ls[0], '\r', '\n'));
    assert forall|i: int| 0 <= i < l.len() implies #[trigger] s[i] != '\r' by {
        assert(s[i] == l[i]);
    }
    lemma_line_end_is(s, l.len() as int);
    if ls.len() == 1 {
        assert(seq![s] =~= ls);
    } else {
        let rest = ls.drop_first();
        assert(clean(rest, '\r', '\n')) by {
            assert forall|k: int| 0 <= k < rest.len() implies clean_line(
                #[trigger] rest[k],
                '\r',
                '\n',
            ) by {
                assert(rest[k] == ls[k + 1]);
            }
        }
        lemma_lines_of(rest);
        assert(s.take(l.len() as int) =~= l);
        assert(s.skip(l.len() as int + 2) =~= joined(rest, '\r', '\n'));
        assert(seq![l] + rest =~= ls);
    }
}

// --- Bytes ---------------------------------------------------------------------------

proof fn lemma_scalar_bytes(c: char)
    ensures
        encode_scalar(c as u32).len() > 0,
        forall|i: int|
            0 <= i < encode_scalar(c as u32).len() ==> (#[trigger] encode_scalar(c as u32)[i]
                >= 0x80 || encode_scalar(c as u32)[i] == c as u32),
{
    let s = c as u32;
    assert(s <= 0x7f ==> (s & 0x7f) as u8 == s) by (bit_vector);
    let a = ((s >> 6) & 0x1f) as u8;
    let b = ((s >> 12) & 0x0f) as u8;
    let d = ((s >> 18) & 0x7) as u8;
    assert(0xc0u8 | a >= 0x80 && 0xe0u8 | b >= 0x80 && 0xf0u8 | d >= 0x80) by (bit_vector);
    let x = (s & 0x3f) as u8;
    let y = ((s >> 6) & 0x3f) as u8;
    let z = ((s >> 12) & 0x3f) as u8;
    assert(0x80u8 | x >= 0x80 && 0x80u8 | y >= 0x80 && 0x80u8 | z >= 0x80) by (bit_vector);
    assert(leading_byte_width_2(s) >= 0x80 && leading_byte_width_3(s) >= 0x80
        && leading_byte_width_4(s) >= 0x80);
    assert(last_continuation_byte(s) >= 0x80 && second_last_continuation_byte(s) >= 0x80
        && third_last_continuation_byte(s) >= 0x80);
    assert(s <= 0x7f ==> leading_byte_width_1(s) == s);
}

/// The bytes of a line hold no line end.
proof fn lemma_line_bytes(l: Seq<char>)
    requires
        one_line(l),
    ensures
        forall|i: int|
            0 <= i < encode_utf8(l).len() ==> #[trigger] encode_utf8(l)[i] != 13 && encode_utf8(l)[i]
                != 10,
        l.len() > 0 ==> encode_utf8(l).len() > 0,
    decreases l.len(),
{
    if l.len() > 0 {
        let c = l[0];
        let rest = l.drop_first();
        assert(c != '\r' && c != '\n');
        assert(c as u32 != 13 && c as u32 != 10) by {
            if c as u32 == 13 {
                vstd::utf8::char_u32_cast(c, 13);
            }
            if c as u32 == 10 {
                vstd::utf8::char_u32_cast(c, 10);
            }
        }
        assert forall|i: int| 0 <= i < rest.len() implies #[trigger] rest[i] != '\r' && rest[i]
            != '\n' by {
            assert(rest[i] == l[i + 1]);
        }
        lemma_line_bytes(rest);
        lemma_scalar_bytes(c);
        let first = encode_scalar(c as u32);
        let all = encode_utf8(l);
        assert(all == first + encode_utf8(rest));
        assert forall|i: int| 0 <= i < all.len() implies #[trigger] all[i] != 13 && all[i] != 10 by {
            if i < first.len() {
                assert(all[i] == first[i]);
                assert(first[i] >= 0x80 || first[i] == c as u32);
            } else {
                assert(all[i] == encode_utf8(rest)[i - first.len()]);
            }
        }
    }
}

spec fn byte_lines(ls: Seq<Seq<char>>) -> Seq<Seq<u8>> {
    ls.map_values(|l: Seq<char>| encode_utf8(l))
}

proof fn lemma_line_end_bytes()
    ensures
        encode_utf8(seq!['\r', '\n']) == seq![13u8, 10u8],
{
    let t = seq!['\r', '\n'];
    vstd::utf8::is_ascii_chars_encode_utf8(t);
    assert(encode_utf8(t) =~= seq![13u8, 10u8]);
}

proof fn lemma_joined_bytes(ls: Seq<Seq<char>>)
    requires
        clean(ls, '\r', '\n'),
    ensures
        encode_utf8(joined(ls, '\r', '\n')) == joined(byte_lines(ls), 13u8, 10u8),
        clean(byte_lines(ls), 13u8, 10u8),
    decreases ls.len(),
{
    let bs = byte_lines(ls);
    assert forall|k: int| 0 <= k < bs.len() implies clean_line(#[trigger] bs[k], 13u8, 10u8) by {
        assert(clean_line(ls[k], '\r', '\n'));
        lemma_line_bytes(ls[k]);
    }
    if ls.len() > 1 {
        let rest = ls.drop_first();
        assert(clean(rest, '\r', '\n')) by {
            assert forall|k: int| 0 <= k < rest.len() implies clean_line(
                #[trigger] rest[k],
                '\r',
                '\n',
            ) by {
                assert(rest[k] == ls[k + 1]);
            }
        }
        lemma_joined_bytes(rest);
        lemma_line_end_bytes();
        lemma_encode_joins(ls[0] + seq!['\r', '\n'], joined(rest, '\r', '\n'));
        lemma_encode_joins(ls[0], seq!['\r', '\n']);
        assert(bs.drop_first() =~= byte_lines(rest));
    }
}

// --- Words and headers ---------------------------------------------------------------

proof fn lemma_header(name: Seq<char>, value: Seq<char>)
    requires
        name.len() > 0,
        forall|i: int| 0 <= i < name.len() ==> #[trigger] name[i] != ':',
        !is_space(name[0]),
        !is_space(name.last()),
        is_ascii_chars(name),
    ensures
        header_of(name + seq![':', ' '] + value) == Some((lower_ascii(name), trim(value))),
{
    let line = name + seq![':', ' '] + value;
    let n = name.len() as int;
    assert forall|i: int| 0 <= i < n implies #[trigger] line[i] != ':' by {
        assert(line[i] == name[i]);
    }
    lemma_first_at_is(line, ':', n);
    assert(line.take(n) =~= name);
    assert(trim_start(name) == name);
    assert(trim_end(name) == name);
    let after = line.skip(n + 1);
    assert(after[0] == ' ');
    assert(after.drop_first() =~= value);
    assert(trim_start(after) == trim_start(value));
}

/// A line `<name>: <value>` is the header with that name in lower case and with
/// that value, white space around it aside.
pub proof fn law_header_lines_are_read(name: Seq<char>, value: Seq<char>)
    requires
        name.len() > 0,
        forall|i: int| 0 <= i < name.len() ==> #[trigger] name[i] != ':',
        !is_space(name[0]),
        !is_space(name.last()),
        is_ascii_chars(name),
    ensures
        header_of(name + seq![':', ' '] + value) == Some((lower_ascii(name), trim(value))),
{
    lemma_header(name, value);
}

// --- Requests ------------------------------------------------------------------------

/// The value of the header that presents an attestation.
pub open spec fn credentials(h: Seq<char>) -> Seq<char> {
    trim(SCHEME@ + h)
}

/// What the server makes of a request of the console.
pub open spec fn served_request(
    host: Seq<char>,
    auth: Option<Seq<char>>,
    body: Seq<char>,
) -> RequestView {
    RequestView {
        method: MethodView::Post,
        path: "/mcp"@,
        query: Seq::empty(),
        headers: seq![
            ("host"@, trim(host)),
            ("content-type"@, "application/json"@),
            ("content-length"@, decimal(encode_utf8(body).len())),
        ] + (match auth {
            Some(h) => seq![("authorization"@, credentials(h))],
            None => Seq::empty(),
        }) + seq![("connection"@, "close"@)],
        body: encode_utf8(body),
    }
}

spec fn length_line(n: nat) -> Seq<char> {
    "Content-Length"@ + seq![':', ' '] + decimal(n)
}

spec fn auth_line(h: Seq<char>) -> Seq<char> {
    "Authorization"@ + seq![':', ' '] + (SCHEME@ + h)
}

spec fn request_lines(host: Seq<char>, auth: Option<Seq<char>>, n: nat) -> Seq<Seq<char>> {
    seq![
        "POST /mcp HTTP/1.1"@,
        "Host"@ + seq![':', ' '] + host,
        "Content-Type"@ + seq![':', ' '] + "application/json"@,
        length_line(n),
    ] + (match auth {
        Some(h) => seq![auth_line(h)],
        None => Seq::empty(),
    }) + seq!["Connection"@ + seq![':', ' '] + "close"@]
}

/// The pieces of the request are its lines.
proof fn lemma_request_pieces()
    ensures
        "POST /mcp HTTP/1.1\r\nHost: "@ == "POST /mcp HTTP/1.1"@ + seq!['\r', '\n'] + ("Host"@ + seq![
            ':',
            ' ',
        ]),
        "\r\nContent-Type: application/json\r\nContent-Length: "@ == seq!['\r', '\n'] + (
        "Content-Type"@ + seq![':', ' '] + "application/json"@) + seq!['\r', '\n'] + (
        "Content-Length"@ + seq![':', ' ']),
        "\r\n"@ == seq!['\r', '\n'],
        "Authorization: TPT-Attestation "@ == "Authorization"@ + seq![':', ' '] + SCHEME@,
        "Connection: close\r\n\r\n"@ == "Connection"@ + seq![':', ' '] + "close"@ + seq![
            '\r',
            '\n',
            '\r',
            '\n',
        ],
{
    reveal_strlit("POST /mcp HTTP/1.1\r\nHost: ");
    reveal_strlit("POST /mcp HTTP/1.1");
    reveal_strlit("Host");
    reveal_strlit("\r\nContent-Type: application/json\r\nContent-Length: ");
    reveal_strlit("Content-Type");
    reveal_strlit("application/json");
    reveal_strlit("Content-Length");
    reveal_strlit("\r\n");
    reveal_strlit("Authorization: TPT-Attestation ");
    reveal_strlit("Authorization");
    reveal_strlit("TPT-Attestation ");
    reveal_strlit("Connection: close\r\n\r\n");
    reveal_strlit("Connection");
    reveal_strlit("close");
    assert("POST /mcp HTTP/1.1\r\nHost: "@ =~= "POST /mcp HTTP/1.1"@ + seq!['\r', '\n'] + (
    "Host"@ + seq![':', ' ']));
    assert("\r\nContent-Type: application/json\r\nContent-Length: "@ =~= seq!['\r', '\n'] + (
    "Content-Type"@ + seq![':', ' '] + "application/json"@) + seq!['\r', '\n'] + ("Content-Length"@
        + seq![':', ' ']));
    assert("\r\n"@ =~= seq!['\r', '\n']);
    assert("Authorization: TPT-Attestation "@ =~= "Authorization"@ + seq![':', ' '] + SCHEME@);
    assert("Connection: close\r\n\r\n"@ =~= "Connection"@ + seq![':', ' '] + "close"@ + seq![
        '\r',
        '\n',
        '\r',
        '\n',
    ]);
}

proof fn lemma_request_text(host: Seq<char>, auth: Option<Seq<char>>, body: Seq<char>)
    ensures
        request_text(host, auth, body) == joined(
            request_lines(host, auth, encode_utf8(body).len()),
            '\r',
            '\n',
        ) + seq!['\r', '\n', '\r', '\n'] + body,
{
    lemma_request_pieces();
    let n = encode_utf8(body).len();
    let ls = request_lines(host, auth, n);
    let e = seq!['\r', '\n'];
    let l1 = ls.drop_first();
    let l2 = l1.drop_first();
    let l3 = l2.drop_first();
    let l4 = l3.drop_first();
    let close = "Connection"@ + seq![':', ' '] + "close"@;
    reveal_with_fuel(joined, 7);
    let tail = match auth {
        Some(h) => auth_line(h) + e + close,
        None => close,
    };
    assert(joined(l4, '\r', '\n') =~= tail) by {
        match auth {
            Some(h) => {
                assert(l4 =~= seq![auth_line(h), close]);
                assert(l4.drop_first() =~= seq![close]);
            },
            None => {
                assert(l4 =~= seq![close]);
            },
        }
    }
    let all = ls[0] + e + (ls[1] + e + (ls[2] + e + (ls[3] + e + tail)));
    assert(joined(ls, '\r', '\n') == all);
    let end = seq!['\r', '\n', '\r', '\n'];
    match auth {
        Some(h) => {
            assert(request_text(host, auth, body) =~= all + end + body);
        },
        None => {
            assert(request_text(host, auth, body) =~= all + end + body);
        },
    }
}

proof fn lemma_request_lines_clean(host: Seq<char>, auth: Option<Seq<char>>, n: nat)
    requires
        one_line(host),
        auth matches Some(h) ==> one_line(h),
    ensures
        clean(request_lines(host, auth, n), '\r', '\n'),
{
    reveal_strlit("POST /mcp HTTP/1.1");
    reveal_strlit("Host");
    reveal_strlit("Content-Type");
    reveal_strlit("application/json");
    reveal_strlit("Content-Length");
    reveal_strlit("Authorization");
    reveal_strlit("TPT-Attestation ");
    reveal_strlit("Connection");
    reveal_strlit("close");
    lemma_decimal_digits(n);
    let ls = request_lines(host, auth, n);
    assert(clean_line(ls[0], '\r', '\n'));
    assert(clean_line(ls[1], '\r', '\n'));
    assert(clean_line(ls[2], '\r', '\n'));
    assert(clean_line(ls[3], '\r', '\n')) by {
        let l = ls[3];
        assert forall|i: int| 0 <= i < l.len() implies #[trigger] l[i] != '\r' && l[i] != '\n' by {
            if i >= 16 {
                assert(is_digit(decimal(n)[i - 16]));
            }
        }
    }
    assert(clean_line("Connection"@ + seq![':', ' '] + "close"@, '\r', '\n'));
    match auth {
        Some(h) => {
            let l = auth_line(h);
            assert(clean_line(l, '\r', '\n')) by {
                assert forall|i: int| 0 <= i < l.len() implies #[trigger] l[i] != '\r' && l[i]
                    != '\n' by {
                    if i >= 31 {
                        assert(l[i] == h[i - 31]);
                    } else if i >= 15 {
                        assert(l[i] == SCHEME@[i - 15]);
                    }
                }
            }
            assert(ls.len() == 6);
            assert(ls[4] == l);
        },
        None => {
            assert(ls.len() == 5);
        },
    }
}

/// The headers of the lines of a request.
proof fn lemma_request_headers(host: Seq<char>, auth: Option<Seq<char>>, body: Seq<char>)
    ensures
        headers_of(request_lines(host, auth, encode_utf8(body).len()).skip(1)) == served_request(
            host,
            auth,
            body,
        ).headers,
        all_headers(request_lines(host, auth, encode_utf8(body).len()).skip(1)),
{
    let n = encode_utf8(body).len();
    reveal_strlit("Host");
    reveal_strlit("host");
    reveal_strlit("Content-Type");
    reveal_strlit("content-type");
    reveal_strlit("application/json");
    reveal_strlit("Content-Length");
    reveal_strlit("content-length");
    reveal_strlit("Authorization");
    reveal_strlit("authorization");
    reveal_strlit("Connection");
    reveal_strlit("connection");
    reveal_strlit("close");
    lemma_header("Host"@, host);
    lemma_header("Content-Type"@, "application/json"@);
    lemma_header("Content-Length"@, decimal(n));
    lemma_header("Connection"@, "close"@);
    assert(lower_ascii("Host"@) =~= "host"@);
    assert(lower_ascii("Content-Type"@) =~= "content-type"@);
    assert(lower_ascii("Content-Length"@) =~= "content-length"@);
    assert(lower_ascii("Authorization"@) =~= "authorization"@);
    assert(lower_ascii("Connection"@) =~= "connection"@);
    let json = "application/json"@;
    assert(trim_start(json) == json && trim_end(json) == json);
    let close = "close"@;
    assert(trim_start(close) == close && trim_end(close) == close);
    lemma_decimal_digits(n);
    let d = decimal(n);
    assert(is_digit(d[0]) && is_digit(d.last()));
    assert(trim_start(d) == d && trim_end(d) == d);
    reveal_with_fuel(headers_of, 6);
    let ls = request_lines(host, auth, n).skip(1);
    let a = "Host"@ + seq![':', ' '] + host;
    let b = "Content-Type"@ + seq![':', ' '] + json;
    let c = length_line(n);
    let z = "Connection"@ + seq![':', ' '] + close;
    let none = Seq::<Seq<char>>::empty();
    assert(seq![a].drop_last() =~= none);
    assert(headers_of(seq![a]) =~= seq![("host"@, trim(host))]);
    assert(seq![a, b].drop_last() =~= seq![a]);
    assert(headers_of(seq![a, b]) =~= seq![("host"@, trim(host)), ("content-type"@, json)]);
    assert(seq![a, b, c].drop_last() =~= seq![a, b]);
    let three = seq![("host"@, trim(host)), ("content-type"@, json), ("content-length"@, d)];
    assert(headers_of(seq![a, b, c]) =~= three);
    match auth {
        Some(h) => {
            let v = SCHEME@ + h;
            lemma_header("Authorization"@, v);
            let y = auth_line(h);
            assert(seq![a, b, c, y].drop_last() =~= seq![a, b, c]);
            assert(headers_of(seq![a, b, c, y]) =~= three.push(("authorization"@, credentials(h))));
            assert(ls =~= seq![a, b, c, y, z]);
            assert(ls.drop_last() =~= seq![a, b, c, y]);
            assert(headers_of(ls) =~= served_request(host, auth, body).headers);
        },
        None => {
            assert(ls =~= seq![a, b, c, z]);
            assert(ls.drop_last() =~= seq![a, b, c]);
            assert(headers_of(ls) =~= served_request(host, auth, body).headers);
        },
    }
}

proof fn lemma_request_line()
    ensures
        words("POST /mcp HTTP/1.1"@) == seq!["POST"@, "/mcp"@, "HTTP/1.1"@],
        method_of("POST"@) == MethodView::Post,
        target_parts("/mcp"@) == ("/mcp"@, Seq::<char>::empty()),
{
    reveal_strlit("POST /mcp HTTP/1.1");
    reveal_strlit("POST");
    reveal_strlit("GET");
    reveal_strlit("/mcp");
    reveal_strlit("HTTP/1.1");
    let a = "POST"@;
    let b = "/mcp"@;
    let c = "HTTP/1.1"@;
    assert(one_word(a));
    assert(one_word(b));
    assert(one_word(c));
    let r1 = seq![' '] + (b + (seq![' '] + c));
    let r2 = seq![' '] + c;
    assert("POST /mcp HTTP/1.1"@ =~= a + r1);
    lemma_words_more(a, r1);
    assert(r1.drop_first() =~= b + r2);
    lemma_words_more(b, r2);
    assert(r2.drop_first() =~= c);
    lemma_words_last(c);
    assert(seq![a] + (seq![b] + seq![c]) =~= seq![a, b, c]);
    assert(a.len() == 4 && "GET"@.len() == 3);
    lemma_first_at(b, '?');
}

/// The length that a request announces is that of its body.
proof fn lemma_request_length(host: Seq<char>, auth: Option<Seq<char>>, body: Seq<char>)
    requires
        encode_utf8(body).len() <= usize::MAX,
    ensures
        body_length(served_request(host, auth, body).headers) == encode_utf8(body).len(),
{
    reveal_strlit("content-length");
    reveal_strlit("authorization");
    reveal_strlit("connection");
    assert("content-length"@.len() == 14 && "authorization"@.len() == 13 && "connection"@.len()
        == 10);
    let n = encode_utf8(body).len();
    lemma_decimal_digits(n);
    assert(is_digit(decimal(n)[0]));
    assert(after_plus(decimal(n)) == decimal(n));
    reveal_with_fuel(body_length, 5);
    let hs = served_request(host, auth, body).headers;
    let up = hs.drop_last();
    assert(hs.last().0 == "connection"@);
    match auth {
        Some(h) => {
            assert(up.last().0 == "authorization"@);
            assert(up.drop_last().last() == ("content-length"@, decimal(n)));
        },
        None => {
            assert(up.last() == ("content-length"@, decimal(n)));
        },
    }
}

/// The server understands what the console sends: the request is complete, is a
/// call of the tool endpoint, carries the body, and presents the attestation
/// where there is one.
pub proof fn law_request_is_served(host: Seq<char>, auth: Option<Seq<char>>, body: Seq<char>)
    requires
        one_line(host),
        auth matches Some(h) ==> one_line(h),
        encode_utf8(body).len() <= usize::MAX,
    ensures
        ({
            let sent = encode_utf8(request_text(host, auth, body));
            request_in(sent) == Ok::<Option<(RequestView, int)>, HttpError>(
                Some((served_request(host, auth, body), sent.len() as int)),
            )
        }),
{
    let n = encode_utf8(body).len();
    let ls = request_lines(host, auth, n);
    let head = joined(ls, '\r', '\n');
    let sent = encode_utf8(request_text(host, auth, body));
    lemma_request_text(host, auth, body);
    lemma_request_lines_clean(host, auth, n);
    lemma_joined_bytes(ls);
    let bytes = encode_utf8(head);
    let end = seq!['\r', '\n', '\r', '\n'];
    lemma_encode_joins(head + end, body);
    lemma_encode_joins(head, end);
    assert(encode_utf8(end) == blank_line()) by {
        vstd::utf8::is_ascii_chars_encode_utf8(end);
        assert(encode_utf8(end) =~= blank_line());
    }
    assert(sent == bytes + blank_line() + encode_utf8(body));
    let p = bytes.len() as int;
    assert forall|j: int| 0 <= j < p implies !occurs_at(sent, blank_line(), j) by {
        lemma_no_blank(byte_lines(ls), 13u8, 10u8, encode_utf8(body), j);
        let w = sent.subrange(j, j + 4);
        assert(w[0] == sent[j] && w[1] == sent[j + 1] && w[2] == sent[j + 2] && w[3] == sent[j + 3]);
        if occurs_at(sent, blank_line(), j) {
            assert(w == blank_line());
        }
    }
    assert(occurs_at(sent, blank_line(), p)) by {
        assert(sent.subrange(p, p + 4) =~= blank_line());
    }
    lemma_first_from_is(sent, blank_line(), 0, p);
    assert(sent.take(p) =~= bytes);
    encode_utf8_decode_utf8(head);
    encode_utf8_valid_utf8(head);
    lemma_lines_of(ls);
    lemma_request_line();
    lemma_request_headers(host, auth, body);
    lemma_request_length(host, auth, body);
    assert(ls[0] == "POST /mcp HTTP/1.1"@);
    assert(sent.subrange(p + 4, p + 4 + n) =~= encode_utf8(body));
    assert(sent.len() == p + 4 + n);
}

proof fn lemma_first_from_is(b: Seq<u8>, needle: Seq<u8>, i: int, p: int)
    requires
        0 <= i <= p,
        needle.len() > 0,
        occurs_at(b, needle, p),
        forall|j: int| i <= j < p ==> !occurs_at(b, needle, j),
    ensures
        first_from(b, needle, i) == Some(p),
    decreases p - i,
{
    if i < p {
        assert(!occurs_at(b, needle, i));
        lemma_first_from_is(b, needle, i + 1, p);
    }
}

proof fn lemma_hex_is_one_line(wire: Seq<u8>)
    ensures
        forall|i: int|
            0 <= i < hex_text(wire).len() ==> #[trigger] hex_text(wire)[i] >= '0',
        wire.len() > 0 ==> hex_text(wire).len() > 0,
    decreases wire.len(),
{
    if wire.len() > 0 {
        lemma_hex_is_one_line(wire.drop_last());
        let a = wire.last() as nat / 16;
        let b = wire.last() as nat % 16;
        assert(hex_char(a) >= '0' && hex_char(b) >= '0');
        let front = hex_text(wire.drop_last());
        let all = hex_text(wire);
        assert(all == front + seq![hex_char(a), hex_char(b)]);
        assert forall|i: int| 0 <= i < all.len() implies #[trigger] all[i] >= '0' by {
            if i < front.len() {
                assert(all[i] == front[i]);
            } else {
                assert(all[i] == hex_char(a) || all[i] == hex_char(b));
            }
        }
    }
}

/// An attestation that the console sends is the one that the server finds.
pub proof fn law_attestation_arrives(host: Seq<char>, wire: Seq<u8>, body: Seq<char>)
    requires
        one_line(host),
        wire.len() > 0,
        encode_utf8(body).len() <= usize::MAX,
    ensures
        ({
            let sent = encode_utf8(request_text(host, Some(hex_text(wire)), body));
            &&& request_in(sent) matches Ok(Some((req, _)))
            &&& attestation_in(req) == Some(wire)
        }),
{
    let h = hex_text(wire);
    lemma_hex_is_one_line(wire);
    assert(one_line(h));
    law_request_is_served(host, Some(h), body);
    let req = served_request(host, Some(h), body);
    reveal_strlit("host");
    reveal_strlit("content-type");
    reveal_strlit("content-length");
    reveal_strlit("authorization");
    reveal_strlit("x-tpt-attestation");
    assert("host"@.len() == 4 && "content-type"@.len() == 12 && "content-length"@.len() == 14
        && "authorization"@.len() == 13 && "x-tpt-attestation"@.len() == 17);
    reveal_with_fuel(bearer, 5);
    let hs = req.headers;
    assert(hs.drop_first().drop_first().drop_first()[0] == ("authorization"@, credentials(h)));
    assert(bearer(hs) == Some(credentials(h)));
    let v = SCHEME@ + h;
    assert(trim(v) == v) by {
        reveal_strlit("TPT-Attestation ");
        assert(v[0] == 'T');
        assert(trim_start(v) == v);
        assert(v.last() == h.last());
        assert(h[h.len() - 1] >= '0');
        lemma_hex_chars(wire);
        assert(trim_end(v) == v);
    }
    law_presented_attestation(req, wire);
}

proof fn lemma_hex_chars(wire: Seq<u8>)
    requires
        wire.len() > 0,
    ensures
        !is_space(hex_text(wire).last()),
{
    let c = hex_char(wire.last() as nat % 16);
    assert(hex_text(wire).last() == c);
}

// --- Replies -------------------------------------------------------------------------

spec fn reply_lines(code: u16, content_type: Seq<char>, n: nat) -> Seq<Seq<char>> {
    seq![
        "HTTP/1.1"@ + seq![' '] + decimal(code as nat) + seq![' '] + reason(code),
        "content-type"@ + seq![':', ' '] + content_type,
        "content-length"@ + seq![':', ' '] + decimal(n),
        "connection"@ + seq![':', ' '] + "close"@,
    ]
}

proof fn lemma_reason(code: u16)
    ensures
        one_line(reason(code)),
{
    reveal_strlit("OK");
    reveal_strlit("Created");
    reveal_strlit("No Content");
    reveal_strlit("Bad Request");
    reveal_strlit("Unauthorized");
    reveal_strlit("Forbidden");
    reveal_strlit("Not Found");
    reveal_strlit("Method Not Allowed");
    reveal_strlit("Conflict");
    reveal_strlit("Unprocessable Entity");
    reveal_strlit("Internal Server Error");
    reveal_strlit("Not Implemented");
    reveal_strlit("Unknown");
}

proof fn lemma_reply_text(code: u16, content_type: Seq<char>, body: Seq<u8>)
    ensures
        response_head(response(code, content_type, body)) == joined(
            reply_lines(code, content_type, body.len()),
            '\r',
            '\n',
        ) + seq!['\r', '\n', '\r', '\n'],
{
    reveal_strlit("HTTP/1.1 ");
    reveal_strlit("HTTP/1.1");
    reveal_strlit(" ");
    reveal_strlit(": ");
    reveal_strlit("\r\n");
    reveal_strlit("connection: close\r\n\r\n");
    reveal_strlit("connection");
    reveal_strlit("close");
    assert("HTTP/1.1 "@ =~= "HTTP/1.1"@ + seq![' ']);
    assert(" "@ =~= seq![' ']);
    assert(": "@ =~= seq![':', ' ']);
    assert("\r\n"@ =~= seq!['\r', '\n']);
    assert("connection: close\r\n\r\n"@ =~= "connection"@ + seq![':', ' '] + "close"@ + seq![
        '\r',
        '\n',
        '\r',
        '\n',
    ]);
    lemma_reply_joins(code, content_type, body);
}

proof fn lemma_reply_joins(code: u16, content_type: Seq<char>, body: Seq<u8>)
    requires
        "HTTP/1.1 "@ == "HTTP/1.1"@ + seq![' '],
        " "@ == seq![' '],
        ": "@ == seq![':', ' '],
        "\r\n"@ == seq!['\r', '\n'],
        "connection: close\r\n\r\n"@ == "connection"@ + seq![':', ' '] + "close"@ + seq![
            '\r',
            '\n',
            '\r',
            '\n',
        ],
    ensures
        response_head(response(code, content_type, body)) == joined(
            reply_lines(code, content_type, body.len()),
            '\r',
            '\n',
        ) + seq!['\r', '\n', '\r', '\n'],
{
    let r = response(code, content_type, body);
    let ls = reply_lines(code, content_type, body.len());
    let e = seq!['\r', '\n'];
    reveal_with_fuel(header_lines, 3);
    let one = r.headers.drop_last();
    assert(one.drop_last() =~= Seq::<(Seq<char>, Seq<char>)>::empty());
    assert(one.last() == r.headers[0]);
    assert(header_lines(r.headers) =~= ls[1] + e + ls[2] + e);
    reveal_with_fuel(joined, 5);
    let l1 = ls.drop_first();
    let l2 = l1.drop_first();
    let l3 = l2.drop_first();
    assert(l3 =~= seq![ls[3]]);
    assert(joined(ls, '\r', '\n') == ls[0] + e + (ls[1] + e + (ls[2] + e + ls[3])));
    assert(response_head(r) =~= ls[0] + e + (ls[1] + e + (ls[2] + e + ls[3])) + seq![
        '\r',
        '\n',
        '\r',
        '\n',
    ]);
}

proof fn lemma_reply_lines_clean(code: u16, content_type: Seq<char>, n: nat)
    requires
        one_line(content_type),
    ensures
        clean(reply_lines(code, content_type, n), '\r', '\n'),
{
    reveal_strlit("HTTP/1.1");
    reveal_strlit("content-type");
    reveal_strlit("content-length");
    reveal_strlit("connection");
    reveal_strlit("close");
    lemma_reason(code);
    lemma_decimal_digits(n);
    lemma_decimal_digits(code as nat);
    let ls = reply_lines(code, content_type, n);
    let d = decimal(code as nat);
    let l = ls[0];
    assert forall|i: int| 0 <= i < l.len() implies #[trigger] l[i] != '\r' && l[i] != '\n' by {
        if i >= 10 + d.len() {
            assert(l[i] == reason(code)[i - 10 - d.len()]);
        } else if 9 <= i < 9 + d.len() {
            assert(is_digit(d[i - 9]));
        }
    }
    assert(clean_line(ls[0], '\r', '\n'));
    assert(clean_line(ls[1], '\r', '\n'));
    let m = ls[2];
    assert forall|i: int| 0 <= i < m.len() implies #[trigger] m[i] != '\r' && m[i] != '\n' by {
        if i >= 16 {
            assert(is_digit(decimal(n)[i - 16]));
        }
    }
    assert(clean_line(ls[2], '\r', '\n'));
    assert(clean_line(ls[3], '\r', '\n'));
}

/// The status line says the status.
proof fn lemma_reply_status(code: u16, content_type: Seq<char>, n: nat)
    requires
        one_line(content_type),
    ensures
        status_in(joined(reply_lines(code, content_type, n), '\r', '\n')) == code,
{
    let ls = reply_lines(code, content_type, n);
    let head = joined(ls, '\r', '\n');
    lemma_reply_lines_clean(code, content_type, n);
    let l = ls[0];
    assert(clean_line(ls[0], '\r', '\n'));
    let k = l.len() as int + 1;
    assert(head[l.len() as int] == '\r' && head[k] == '\n');
    assert forall|j: int| 0 <= j < k implies #[trigger] head[j] != '\n' by {
        if j < l.len() {
            assert(head[j] == l[j]);
        }
    }
    lemma_first_at_is(head, '\n', k);
    let line = head.take(k);
    assert(line =~= l.push('\r'));
    reveal_strlit("HTTP/1.1");
    let a = "HTTP/1.1"@;
    let d = decimal(code as nat);
    let r = reason(code).push('\r');
    lemma_decimal_digits(code as nat);
    assert(one_word(a));
    assert(one_word(d)) by {
        assert forall|i: int| 0 <= i < d.len() implies !is_space(#[trigger] d[i]) by {
            assert(is_digit(d[i]));
        }
    }
    let r2 = seq![' '] + r;
    let r1 = seq![' '] + (d + r2);
    assert(line =~= a + r1);
    lemma_words_more(a, r1);
    assert(r1.drop_first() =~= d + r2);
    lemma_words_more(d, r2);
    let w = words(line);
    assert(w[1] == d);
    assert(is_digit(d[0]));
    assert(after_plus(d) == d);
}

/// The console understands what the server answers: status and body come out as
/// they went in.
pub proof fn law_reply_is_understood(code: u16, content_type: Seq<char>, body: Seq<char>)
    requires
        one_line(content_type),
    ensures
        ({
            let r = response(code, content_type, encode_utf8(body));
            let raw = encode_utf8(response_head(r)) + r.body;
            &&& valid_utf8(raw)
            &&& status_in(before_text(decode_utf8(raw), "\r\n\r\n"@)) == code
            &&& body_in(decode_utf8(raw)) == body
        }),
{
    let bytes = encode_utf8(body);
    let r = response(code, content_type, bytes);
    let head = response_head(r);
    let ls = reply_lines(code, content_type, bytes.len());
    let front = joined(ls, '\r', '\n');
    let end = seq!['\r', '\n', '\r', '\n'];
    lemma_reply_text(code, content_type, bytes);
    lemma_reply_lines_clean(code, content_type, bytes.len());
    let reply = head + body;
    lemma_encode_joins(head, body);
    encode_utf8_decode_utf8(reply);
    encode_utf8_valid_utf8(reply);
    reveal_strlit("\r\n\r\n");
    let blank = "\r\n\r\n"@;
    assert(blank =~= end);
    let k = front.len() as int;
    assert(reply =~= front + end + body);
    assert forall|j: int| 0 <= j < k implies !blank.is_prefix_of(#[trigger] reply.skip(j)) by {
        lemma_no_blank(ls, '\r', '\n', body, j);
        let t = reply.skip(j);
        if blank.is_prefix_of(t) {
            assert(t[0] == blank[0] && t[1] == blank[1] && t[2] == blank[2] && t[3] == blank[3]);
            assert(t[0] == reply[j] && t[1] == reply[j + 1] && t[2] == reply[j + 2] && t[3]
                == reply[j + 3]);
        }
    }
    assert(blank.is_prefix_of(reply.skip(k))) by {
        let t = reply.skip(k);
        assert(t[0] == end[0] && t[1] == end[1] && t[2] == end[2] && t[3] == end[3]);
    }
    lemma_after_text_is(reply, blank, k);
    assert(reply.skip(k + 4) =~= body);
    assert(reply.take(reply.len() - body.len() - 4) =~= front);
    lemma_reply_status(code, content_type, bytes.len());
}

// --- Any request -------------------------------------------------------------------------

/// A header that stands on a line of its own.
pub open spec fn plain_header(h: (Seq<char>, Seq<char>)) -> bool {
    &&& one_word(h.0)
    &&& is_ascii_chars(h.0)
    &&& !h.0.contains(':')
    &&& one_line(h.1)
}

/// The line of a header.
spec fn line_of(h: (Seq<char>, Seq<char>)) -> Seq<char> {
    h.0 + seq![':', ' '] + h.1
}

spec fn lines_of(headers: Seq<(Seq<char>, Seq<char>)>) -> Seq<Seq<char>> {
    headers.map_values(|h: (Seq<char>, Seq<char>)| line_of(h))
}

/// Headers as they are read: names in lower case, values without white space
/// around them.
pub open spec fn read_headers(headers: Seq<(Seq<char>, Seq<char>)>) -> Seq<
    (Seq<char>, Seq<char>),
> {
    headers.map_values(|h: (Seq<char>, Seq<char>)| (lower_ascii(h.0), trim(h.1)))
}

/// The text of a request up to its body.
pub open spec fn written_head(
    method: Seq<char>,
    target: Seq<char>,
    headers: Seq<(Seq<char>, Seq<char>)>,
) -> Seq<char> {
    method + " "@ + target + " HTTP/1.1\r\n"@ + header_lines(headers) + "\r\n"@
}

proof fn lemma_joined_push(ls: Seq<Seq<char>>, l: Seq<char>)
    requires
        ls.len() > 0,
    ensures
        joined(ls.push(l), '\r', '\n') == joined(ls, '\r', '\n') + seq!['\r', '\n'] + l,
    decreases ls.len(),
{
    let all = ls.push(l);
    let e = seq!['\r', '\n'];
    assert(all.drop_first() =~= ls.drop_first().push(l));
    if ls.len() == 1 {
        assert(all.drop_first() =~= seq![l]);
        assert(joined(seq![l], '\r', '\n') == l);
    } else {
        lemma_joined_push(ls.drop_first(), l);
        assert(joined(all, '\r', '\n') =~= joined(ls, '\r', '\n') + e + l);
    }
}

proof fn lemma_header_lines_join(line: Seq<char>, headers: Seq<(Seq<char>, Seq<char>)>)
    ensures
        joined(seq![line] + lines_of(headers), '\r', '\n') + seq!['\r', '\n'] == line + seq![
            '\r',
            '\n',
        ] + header_lines(headers),
    decreases headers.len(),
{
    let e = seq!['\r', '\n'];
    let all = seq![line] + lines_of(headers);
    assert("\r\n"@ == e && ": "@ == seq![':', ' ']) by {
        reveal_strlit("\r\n");
        reveal_strlit(": ");
        assert("\r\n"@ =~= e);
        assert(": "@ =~= seq![':', ' ']);
    }
    if headers.len() == 0 {
        assert(all =~= seq![line]);
        assert(joined(seq![line], '\r', '\n') == line);
        assert(line + e + header_lines(headers) =~= line + e);
    } else {
        let front = headers.drop_last();
        let h = headers.last();
        lemma_header_lines_join(line, front);
        let ls = seq![line] + lines_of(front);
        assert(all =~= ls.push(line_of(h)));
        lemma_joined_push(ls, line_of(h));
        let so_far = line + e + header_lines(front);
        assert(joined(all, '\r', '\n') + e =~= joined(ls, '\r', '\n') + e + line_of(h) + e);
        assert(so_far + line_of(h) + e =~= line + e + (header_lines(front) + h.0 + ": "@ + h.1
            + "\r\n"@));
    }
}

proof fn lemma_headers_read(headers: Seq<(Seq<char>, Seq<char>)>)
    requires
        forall|i: int| 0 <= i < headers.len() ==> plain_header(#[trigger] headers[i]),
    ensures
        headers_of(lines_of(headers)) == read_headers(headers),
        all_headers(lines_of(headers)),
        clean(lines_of(headers), '\r', '\n'),
    decreases headers.len(),
{
    let ls = lines_of(headers);
    assert forall|k: int| 0 <= k < ls.len() implies header_of(#[trigger] ls[k]) == Some(
        (lower_ascii(headers[k].0), trim(headers[k].1)),
    ) && clean_line(ls[k], '\r', '\n') by {
        let h = headers[k];
        assert(plain_header(h));
        assert forall|i: int| 0 <= i < h.0.len() implies #[trigger] h.0[i] != ':' by {
            assert(h.0.contains(h.0[i]));
        }
        assert(!is_space(h.0[0]) && !is_space(h.0[h.0.len() - 1]));
        lemma_header(h.0, h.1);
        let l = ls[k];
        assert forall|i: int| 0 <= i < l.len() implies #[trigger] l[i] != '\r' && l[i] != '\n' by {
            if i < h.0.len() {
                assert(l[i] == h.0[i]);
                assert(!is_space(h.0[i]));
            } else if i >= h.0.len() + 2 {
                assert(l[i] == h.1[i - h.0.len() - 2]);
            }
        }
    }
    if headers.len() > 0 {
        let front = headers.drop_last();
        assert forall|i: int| 0 <= i < front.len() implies plain_header(#[trigger] front[i]) by {
            assert(front[i] == headers[i]);
        }
        lemma_headers_read(front);
        assert(ls.drop_last() =~= lines_of(front));
        assert(ls.last() == ls[ls.len() - 1]);
        assert(read_headers(headers) =~= read_headers(front).push(
            (lower_ascii(headers.last().0), trim(headers.last().1)),
        ));
    } else {
        assert(headers_of(ls) =~= read_headers(headers));
    }
}

proof fn lemma_written_line(method: Seq<char>, target: Seq<char>)
    requires
        one_word(method),
        one_word(target),
    ensures
        words(method + " "@ + target + " HTTP/1.1"@) == seq![method, target, "HTTP/1.1"@],
        clean_line(method + " "@ + target + " HTTP/1.1"@, '\r', '\n'),
        " HTTP/1.1\r\n"@ == " HTTP/1.1"@ + seq!['\r', '\n'],
{
    assert(" "@ == spaces(1) && " HTTP/1.1"@ == spaces(1) + "HTTP/1.1"@ && one_word("HTTP/1.1"@)
        && " HTTP/1.1\r\n"@ == " HTTP/1.1"@ + seq!['\r', '\n']) by {
        reveal_strlit(" ");
        reveal_strlit(" HTTP/1.1");
        reveal_strlit("HTTP/1.1");
        reveal_strlit(" HTTP/1.1\r\n");
        assert(" "@ =~= spaces(1));
        assert(" HTTP/1.1"@ =~= spaces(1) + "HTTP/1.1"@);
        assert(" HTTP/1.1\r\n"@ =~= " HTTP/1.1"@ + seq!['\r', '\n']);
    }
    let version = "HTTP/1.1"@;
    lemma_words_last(method);
    lemma_words_push(method, 1, target);
    let t = method + spaces(1) + target;
    lemma_words_push(t, 1, version);
    let line = method + " "@ + target + " HTTP/1.1"@;
    assert(line =~= t + spaces(1) + version);
    assert(words(line) =~= seq![method, target, version]);
    assert forall|i: int| 0 <= i < line.len() implies #[trigger] line[i] != '\r' && line[i]
        != '\n' by {
        if i < method.len() {
            assert(line[i] == method[i]);
            assert(!is_space(method[i]));
        } else if i > method.len() && i < method.len() + 1 + target.len() {
            assert(line[i] == target[i - method.len() - 1]);
            assert(!is_space(target[i - method.len() - 1]));
        } else if i >= method.len() + 2 + target.len() {
            assert(line[i] == version[i - method.len() - target.len() - 2]);
            assert(!is_space(version[i - method.len() - target.len() - 2]));
        }
    }
}

/// Any request that is written out with its method, its path and query, its
/// headers in order and the length of its body is read as just that: the method
/// of the token, the path before the question mark and the query behind it, the
/// headers with their names in lower case, and the body byte for byte.
pub proof fn law_written_request_is_read(
    method: Seq<char>,
    path: Seq<char>,
    query: Seq<char>,
    headers: Seq<(Seq<char>, Seq<char>)>,
    body: Seq<u8>,
)
    requires
        one_word(method),
        one_word(path),
        !path.contains('?'),
        query.len() == 0 || one_word(query),
        forall|i: int| 0 <= i < headers.len() ==> plain_header(#[trigger] headers[i]),
        body.len() <= usize::MAX,
    ensures
        ({
            let all = headers.push(("Content-Length"@, decimal(body.len())));
            let sent = encode_utf8(written_head(method, path + seq!['?'] + query, all)) + body;
            request_in(sent) == Ok::<Option<(RequestView, int)>, HttpError>(
                Some(
                    (
                        RequestView {
                            method: method_of(method),
                            path,
                            query,
                            headers: read_headers(headers).push(
                                ("content-length"@, decimal(body.len())),
                            ),
                            body,
                        },
                        sent.len() as int,
                    ),
                ),
            )
        }),
{
    let n = body.len();
    let all = headers.push(("Content-Length"@, decimal(n)));
    let target = path + seq!['?'] + query;
    assert(one_word(target)) by {
        assert forall|i: int| 0 <= i < target.len() implies !is_space(#[trigger] target[i]) by {
            if i < path.len() {
                assert(target[i] == path[i]);
            } else if i > path.len() {
                assert(target[i] == query[i - path.len() - 1]);
            }
        }
    }
    lemma_written_line(method, target);
    lemma_length_header(n);
    assert forall|i: int| 0 <= i < all.len() implies plain_header(#[trigger] all[i]) by {
        if i < headers.len() {
            assert(all[i] == headers[i]);
        }
    }
    lemma_headers_read(all);
    let line = method + " "@ + target + " HTTP/1.1"@;
    let ls = seq![line] + lines_of(all);
    lemma_header_lines_join(line, all);
    let head = joined(ls, '\r', '\n');
    let e = seq!['\r', '\n'];
    let end = seq!['\r', '\n', '\r', '\n'];
    let text = written_head(method, target, all);
    assert(text == head + end) by {
        reveal_strlit("\r\n");
        assert("\r\n"@ =~= e);
        assert(text =~= (line + e + header_lines(all)) + e);
        assert(head + end =~= (head + e) + e);
    }
    assert(clean(ls, '\r', '\n')) by {
        assert forall|k: int| 0 <= k < ls.len() implies clean_line(#[trigger] ls[k], '\r', '\n') by {
            if k > 0 {
                assert(ls[k] == lines_of(all)[k - 1]);
            }
        }
    }
    lemma_written_bytes(ls, body);
    encode_utf8_decode_utf8(head);
    encode_utf8_valid_utf8(head);
    lemma_lines_of(ls);
    assert(ls.skip(1) =~= lines_of(all));
    assert(ls[0] == line);
    law_targets_part_at_the_question_mark(path, query);
    assert(read_headers(all) =~= read_headers(headers).push(("content-length"@, decimal(n))));
    law_last_length_counts(read_headers(headers), Seq::empty(), Seq::empty(), n as usize);
    let sent = encode_utf8(text) + body;
    let p = encode_utf8(head).len() as int;
    assert(sent.subrange(p + 4, p + 4 + n) =~= body);
}

/// The header that gives the length of the body.
proof fn lemma_length_header(n: nat)
    ensures
        plain_header(("Content-Length"@, decimal(n))),
        lower_ascii("Content-Length"@) == "content-length"@,
        trim(decimal(n)) == decimal(n),
{
    reveal_strlit("Content-Length");
    reveal_strlit("content-length");
    assert(lower_ascii("Content-Length"@) =~= "content-length"@);
    let d = decimal(n);
    lemma_decimal_digits(n);
    assert forall|i: int| 0 <= i < d.len() implies !is_space(#[trigger] d[i]) && d[i] != '\r' && d[i]
        != '\n' by {
        assert(is_digit(d[i]));
    }
    assert(trim_start(d) == d);
    assert(!is_space(d[d.len() - 1]));
}

/// Where the head of a written request ends in its bytes.
proof fn lemma_written_bytes(ls: Seq<Seq<char>>, body: Seq<u8>)
    requires
        clean(ls, '\r', '\n'),
        ls.len() > 0,
    ensures
        ({
            let head = joined(ls, '\r', '\n');
            let sent = encode_utf8(head + seq!['\r', '\n', '\r', '\n']) + body;
            let p = encode_utf8(head).len() as int;
            &&& first_from(sent, blank_line(), 0) == Some(p)
            &&& sent.take(p) == encode_utf8(head)
            &&& sent.len() == p + 4 + body.len()
            &&& sent == encode_utf8(head) + blank_line() + body
        }),
{
    let head = joined(ls, '\r', '\n');
    let end = seq!['\r', '\n', '\r', '\n'];
    let sent = encode_utf8(head + end) + body;
    lemma_joined_bytes(ls);
    let bytes = encode_utf8(head);
    lemma_encode_joins(head, end);
    assert(encode_utf8(end) == blank_line()) by {
        vstd::utf8::is_ascii_chars_encode_utf8(end);
        assert(encode_utf8(end) =~= blank_line());
    }
    assert(sent == bytes + blank_line() + body);
    let p = bytes.len() as int;
    assert forall|j: int| 0 <= j < p implies !occurs_at(sent, blank_line(), j) by {
        lemma_no_blank(byte_lines(ls), 13u8, 10u8, body, j);
        let w = sent.subrange(j, j + 4);
        assert(w[0] == sent[j] && w[1] == sent[j + 1] && w[2] == sent[j + 2] && w[3] == sent[j + 3]);
        if occurs_at(sent, blank_line(), j) {
            assert(w == blank_line());
        }
    }
    assert(occurs_at(sent, blank_line(), p)) by {
        assert(sent.subrange(p, p + 4) =~= blank_line());
    }
    lemma_first_from_is(sent, blank_line(), 0, p);
    assert(sent.take(p) =~= bytes);
}

} // verus!
