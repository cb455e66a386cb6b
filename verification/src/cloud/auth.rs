//! Zero-trust admission for the fleet HTTP API and MCP dispatch.
//!
//! Without a gate the server is open. With one, every privileged route requires
//! an attestation that verifies, presented in the `Authorization` header:
//! `Authorization: TPT-Attestation <hex of the attestation's bytes>`.
//!
//! Verifying the bytes of an attestation is left to the caller, who hands in
//! the [`Verdict`].
use vstd::prelude::*;
use vstd::utf8::encode_utf8;
use crate::cloud::http::{pairs, Request, RequestView};
use crate::cloud::json::{as_uint, hex_char, hex_value, uint_value, values, Json, Value};
use crate::text::{bytes_of, chars_of, same_text, starts_with, text_of, trim, trimmed};

verus! {

/// Header scheme prefix for the attestation bearer.
pub const SCHEME: &'static str = "TPT-Attestation ";

// --- Hexadecimal text ----------------------------------------------------------

/// The value of a hexadecimal digit.
pub fn hex_val(c: u8) -> (r: Option<u8>)
    ensures
        match r {
            Some(v) => hex_value(c) == Some(v as nat) && v < 16,
            None => hex_value(c) is None,
        },
{
    if ('0' as u8) <= c && c <= ('9' as u8) {
        Some(c - ('0' as u8))
    } else if ('a' as u8) <= c && c <= ('f' as u8) {
        Some(c - ('a' as u8) + 10)
    } else if ('A' as u8) <= c && c <= ('F' as u8) {
        Some(c - ('A' as u8) + 10)
    } else {
        None
    }
}

/// The bytes that pairs of hexadecimal digits write.
pub open spec fn hex_bytes(digits: Seq<u8>) -> Option<Seq<u8>>
    decreases digits.len(),
{
    if digits.len() == 0 {
        Some(Seq::empty())
    } else if digits.len() == 1 {
        None
    } else {
        match (hex_value(digits[0]), hex_value(digits[1]), hex_bytes(digits.skip(2))) {
            (Some(high), Some(low), Some(rest)) => Some(seq![(16 * high + low) as u8] + rest),
            _ => None,
        }
    }
}

/// The lower-case hexadecimal digits of `data`, two for each byte.
pub open spec fn hex_text(data: Seq<u8>) -> Seq<char>
    decreases data.len(),
{
    if data.len() == 0 {
        Seq::empty()
    } else {
        hex_text(data.drop_last()) + seq![
            hex_char(data.last() as nat / 16),
            hex_char(data.last() as nat % 16),
        ]
    }
}

/// Hex decoder (upper or lower case, even length).
pub fn hex_decode(s: &str) -> (r: Option<Vec<u8>>)
    ensures
        match r {
            Some(b) => hex_bytes(encode_utf8(s@)) == Some(b@),
            None => hex_bytes(encode_utf8(s@)) is None,
        },
{
    let bytes: Vec<u8> = bytes_of(s);
    let ghost all = bytes@;
    if bytes.len() % 2 != 0 {
        proof {
            lemma_hex_odd(all);
        }
        return None;
    }
    let mut out: Vec<u8> = Vec::new();
    let mut i: usize = 0;
    proof {
        assert(all.skip(0) =~= all);
        if let Some(b) = hex_bytes(all) {
            assert(Seq::<u8>::empty() + b =~= b);
        }
    }
    while i < bytes.len()
        invariant
            bytes@ == all,
            all == encode_utf8(s@),
            i <= all.len(),
            i % 2 == 0,
            all.len() % 2 == 0,
            hex_bytes(all) is Some <==> hex_bytes(all.skip(i as int)) is Some,
            hex_bytes(all) is Some ==> hex_bytes(all)->0 == out@ + hex_bytes(
                all.skip(i as int),
            )->0,
        decreases all.len() - i,
    {
        let ghost rest = all.skip(i as int);
        assert(i + 1 < bytes.len());
        assert(rest.skip(2) =~= all.skip(i + 2));
        let high: u8 = match hex_val(bytes[i]) {
            Some(h) => h,
            None => {
                return None;
            },
        };
        let low: u8 = match hex_val(bytes[i + 1]) {
            Some(l) => l,
            None => {
                return None;
            },
        };
        let ghost before = out@;
        out.push(16 * high + low);
        proof {
            if let Some(more) = hex_bytes(all.skip(i + 2)) {
                assert(before + (seq![(16 * high + low) as u8] + more) =~= out@ + more);
            }
        }
        i = i + 2;
    }
    proof {
        assert(out@ + Seq::<u8>::empty() =~= out@);
    }
    Some(out)
}

proof fn lemma_hex_odd(digits: Seq<u8>)
    requires
        digits.len() % 2 == 1,
    ensures
        hex_bytes(digits) is None,
    decreases digits.len(),
{
    if digits.len() > 1 {
        lemma_hex_odd(digits.skip(2));
    }
}

fn hex_digit(d: u8) -> (c: char)
    requires
        d < 16,
    ensures
        c == hex_char(d as nat),
{
    if d < 10 {
        (('0' as u8) + d) as char
    } else {
        (('a' as u8) + (d - 10)) as char
    }
}

/// Hex encoder.
pub fn hex_encode(data: &[u8]) -> (r: String)
    ensures
        r@ == hex_text(data@),
{
    let mut s: String = String::new();
    let mut i: usize = 0;
    proof {
        assert(data@.take(0) =~= Seq::<u8>::empty());
    }
    while i < data.len()
        invariant
            i <= data@.len(),
            s@ == hex_text(data@.take(i as int)),
        decreases data@.len() - i,
    {
        let ghost before = s@;
        s.push(hex_digit(data[i] / 16));
        s.push(hex_digit(data[i] % 16));
        proof {
            assert(data@.take(i + 1).drop_last() =~= data@.take(i as int));
            assert(s@ =~= hex_text(data@.take(i + 1)));
        }
        i = i + 1;
    }
    proof {
        assert(data@.take(i as int) =~= data@);
    }
    s
}

proof fn lemma_hex_char(d: nat)
    requires
        d < 16,
    ensures
        hex_char(d) as u32 <= 0x7f,
        hex_value(hex_char(d) as u8) == Some(d),
{
}

proof fn lemma_hex_append(a: Seq<u8>, b: Seq<u8>)
    requires
        hex_bytes(a) is Some,
        hex_bytes(b) is Some,
    ensures
        hex_bytes(a + b) == Some(hex_bytes(a)->0 + hex_bytes(b)->0),
    decreases a.len(),
{
    if a.len() == 0 {
        assert(a + b =~= b);
        assert(hex_bytes(a)->0 + hex_bytes(b)->0 =~= hex_bytes(b)->0);
    } else {
        lemma_hex_append(a.skip(2), b);
        assert((a + b).skip(2) =~= a.skip(2) + b);
        let first = seq![(16 * hex_value(a[0])->0 + hex_value(a[1])->0) as u8];
        assert(first + (hex_bytes(a.skip(2))->0 + hex_bytes(b)->0) =~= (first + hex_bytes(
            a.skip(2),
        )->0) + hex_bytes(b)->0);
    }
}

/// Decoding what was encoded gives the bytes back.
pub proof fn law_hex_reads_back(data: Seq<u8>)
    ensures
        hex_bytes(encode_utf8(hex_text(data))) == Some(data),
    decreases data.len(),
{
    if data.len() == 0 {
        assert(data =~= Seq::<u8>::empty());
    } else {
        let front = data.drop_last();
        let b = data.last() as nat;
        let two = seq![hex_char(b / 16), hex_char(b % 16)];
        law_hex_reads_back(front);
        lemma_hex_char(b / 16);
        lemma_hex_char(b % 16);
        assert(vstd::utf8::is_ascii_chars(two));
        vstd::utf8::is_ascii_chars_encode_utf8(two);
        let e = encode_utf8(two);
        assert(e.skip(2) =~= Seq::<u8>::empty());
        assert(e[0] == hex_char(b / 16) as u8 && e[1] == hex_char(b % 16) as u8);
        assert(hex_bytes(e.skip(2)) == Some(Seq::<u8>::empty()));
        assert(hex_bytes(e)->0 =~= seq![data.last()]);
        crate::text::lemma_encode_joins(hex_text(front), two);
        lemma_hex_append(encode_utf8(hex_text(front)), e);
        assert(front + seq![data.last()] =~= data);
    }
}

// --- Attestations ----------------------------------------------------------------

/// The value of the first header that may carry an attestation.
pub open spec fn bearer(headers: Seq<(Seq<char>, Seq<char>)>) -> Option<Seq<char>>
    decreases headers.len(),
{
    if headers.len() == 0 {
        None
    } else if headers[0].0 == "authorization"@ || headers[0].0 == "x-tpt-attestation"@ {
        Some(headers[0].1)
    } else {
        bearer(headers.drop_first())
    }
}

/// `s` without the scheme that may stand before it.
pub open spec fn after_scheme(s: Seq<char>) -> Seq<char> {
    if SCHEME@.is_prefix_of(s) {
        s.skip(SCHEME@.len() as int)
    } else {
        s
    }
}

/// The bytes of the attestation that a request presents.
pub open spec fn attestation_in(req: RequestView) -> Option<Seq<u8>> {
    match bearer(req.headers) {
        Some(value) => hex_bytes(encode_utf8(after_scheme(trim(value)))),
        None => None,
    }
}

/// Extracts the bytes of an attestation from a request's `Authorization` (or
/// `X-Tpt-Attestation`) header. Returns `None` when the header is absent or
/// malformed.
pub fn extract_attestation(req: &Request) -> (r: Option<Vec<u8>>)
    ensures
        match r {
            Some(b) => attestation_in(req@) == Some(b@),
            None => attestation_in(req@) is None,
        },
{
    let ghost all = pairs(req.headers@);
    let mut i: usize = 0;
    proof {
        assert(all.skip(0) =~= all);
    }
    while i < req.headers.len()
        invariant
            all == pairs(req.headers@),
            i <= req.headers@.len(),
            bearer(all) == bearer(all.skip(i as int)),
        decreases req.headers@.len() - i,
    {
        proof {
            assert(all.skip(i as int)[0] == (req.headers@[i as int].0@, req.headers@[i as int].1@));
            assert(all.skip(i as int).drop_first() =~= all.skip(i + 1));
        }
        if same_text(req.headers[i].0.as_str(), "authorization") || same_text(
            req.headers[i].0.as_str(),
            "x-tpt-attestation",
        ) {
            let value: Vec<char> = chars_of(req.headers[i].1.as_str());
            let inner: &[char] = trimmed(value.as_slice());
            let scheme: Vec<char> = chars_of(SCHEME);
            let hex: &[char] = if starts_with(inner, scheme.as_slice()) {
                vstd::slice::slice_subrange(inner, scheme.len(), inner.len())
            } else {
                inner
            };
            assert(hex@ =~= after_scheme(trim(req.headers@[i as int].1@)));
            let text: String = text_of(hex);
            return hex_decode(text.as_str());
        }
        i = i + 1;
    }
    None
}

/// A verified operator or agent, and the fleet-dispatch tools it may use.
#[derive(Debug)]
pub struct Principal {
    /// Names of the tools.
    pub tools: Vec<String>,
}

impl Principal {
    /// Whether the principal may use `tool`.
    pub open spec fn may_use(&self, tool: Seq<char>) -> bool {
        exists|i: int| 0 <= i < self.tools@.len() && #[trigger] self.tools@[i]@ == tool
    }
}

/// What verifying the attestation of a request showed.
#[derive(Debug)]
pub enum Verdict {
    /// The bytes are no attestation, or it does not verify.
    Rejected,
    /// It verifies, for this principal.
    Verified(Principal),
}

/// Authenticates a request into a [`Principal`]. `Err(401)` where it presents no
/// attestation, or one that failed verification.
pub fn authenticate_request<'a>(verdict: &'a Verdict, req: &Request) -> (r: Result<
    &'a Principal,
    u16,
>)
    ensures
        match r {
            Ok(p) => attestation_in(req@) is Some && *verdict == Verdict::Verified(*p),
            Err(code) => code == 401 && (attestation_in(req@) is None || *verdict is Rejected),
        },
{
    match extract_attestation(req) {
        Some(_) => match verdict {
            Verdict::Verified(p) => Ok(p),
            Verdict::Rejected => Err(401),
        },
        None => Err(401),
    }
}

/// True iff `principal` is authorized for the named fleet-dispatch `tool`.
pub fn authorize_tool(principal: &Principal, tool: &str) -> (r: bool)
    ensures
        r == principal.may_use(tool@),
{
    let mut i: usize = 0;
    while i < principal.tools.len()
        invariant
            i <= principal.tools@.len(),
            forall|j: int| 0 <= j < i ==> (#[trigger] principal.tools@[j])@ != tool@,
        decreases principal.tools@.len() - i,
    {
        if same_text(principal.tools[i].as_str(), tool) {
            assert(principal.tools@[i as int]@ == tool@);
            return true;
        }
        i = i + 1;
    }
    false
}

/// The `Authorization` header line that carries the bytes of an attestation.
pub fn attestation_header(wire: &[u8]) -> (r: String)
    ensures
        r@ == "Authorization: TPT-Attestation "@ + hex_text(wire@),
{
    let mut s: String = "Authorization: TPT-Attestation ".to_owned();
    let hex: String = hex_encode(wire);
    s.append(hex.as_str());
    s
}

/// A request whose first bearer header is the value that
/// [`attestation_header`] writes presents those bytes.
pub proof fn law_presented_attestation(req: RequestView, wire: Seq<u8>)
    requires
        bearer(req.headers) == Some(SCHEME@ + hex_text(wire)),
        wire.len() > 0,
    ensures
        attestation_in(req) == Some(wire),
{
    reveal_strlit("TPT-Attestation ");
    let t = SCHEME@ + hex_text(wire);
    lemma_hex_text_ends(wire);
    assert(t[0] == 'T');
    assert(t.last() == hex_text(wire).last());
    assert(crate::text::trim_start(t) == t);
    assert(crate::text::trim_end(t) == t);
    assert(SCHEME@.is_prefix_of(t));
    assert(after_scheme(t) =~= hex_text(wire));
    law_hex_reads_back(wire);
}

proof fn lemma_hex_text_ends(data: Seq<u8>)
    requires
        data.len() > 0,
    ensures
        hex_text(data).len() > 0,
        !crate::text::is_space(hex_text(data).last()),
{
    let c = hex_char(data.last() as nat % 16);
    assert(hex_text(data).last() == c);
}

// --- Handshakes --------------------------------------------------------------------

/// The cipher suites of a secure session.
#[derive(Debug, Clone, Copy, PartialEq, Eq, Structural)]
pub enum CipherSuite {
    /// AES-256 in Galois/counter mode.
    Aes256Gcm,
    /// ChaCha20 with Poly1305.
    ChaCha20Poly1305,
}

/// The number of a suite.
pub open spec fn suite_number(s: CipherSuite) -> u8 {
    match s {
        CipherSuite::Aes256Gcm => 1,
        CipherSuite::ChaCha20Poly1305 => 2,
    }
}

/// The suite of a number.
pub open spec fn suite_of(n: u8) -> Option<CipherSuite> {
    if n == 1 {
        Some(CipherSuite::Aes256Gcm)
    } else if n == 2 {
        Some(CipherSuite::ChaCha20Poly1305)
    } else {
        None
    }
}

/// All suites, in order of their numbers.
pub open spec fn all_suites() -> Seq<CipherSuite> {
    seq![CipherSuite::Aes256Gcm, CipherSuite::ChaCha20Poly1305]
}

/// Maps a [`CipherSuite`] to its compact wire number.
pub fn suite_to_u8(s: CipherSuite) -> (r: u8)
    ensures
        r == suite_number(s),
{
    match s {
        CipherSuite::Aes256Gcm => 1,
        CipherSuite::ChaCha20Poly1305 => 2,
    }
}

/// Inverse of [`suite_to_u8`].
pub fn suite_from_u8(n: u8) -> (r: Option<CipherSuite>)
    ensures
        r == suite_of(n),
{
    match n {
        1 => Some(CipherSuite::Aes256Gcm),
        2 => Some(CipherSuite::ChaCha20Poly1305),
        _ => None,
    }
}

/// The number of a suite leads back to the suite, and no other number does.
pub proof fn law_suite_numbers(s: CipherSuite, n: u8)
    ensures
        suite_of(suite_number(s)) == Some(s),
        suite_of(n) matches Some(t) ==> suite_number(t) == n,
{
}

/// What opens a handshake: the bytes of an attestation, and the suites that the
/// peer offers.
#[derive(Debug)]
pub struct HandshakeInit {
    /// Bytes of the attestation.
    pub attestation: Vec<u8>,
    /// Offered suites, in the peer's order.
    pub suites: Vec<CipherSuite>,
}

/// The suites that the numbers among `items` name, taken modulo 256.
pub open spec fn suites_in(items: Seq<Value>) -> Seq<CipherSuite>
    decreases items.len(),
{
    if items.len() == 0 {
        Seq::empty()
    } else {
        let front = suites_in(items.drop_last());
        match as_uint(items.last()) {
            Some(u) => match suite_of((u % 256) as u8) {
                Some(s) => front.push(s),
                None => front,
            },
            None => front,
        }
    }
}

/// The opening that a JSON object describes:
/// `{ "attestation": "<hex>", "suites": [1, 2] }`. Without a list of suites all
/// of them are offered; an offer of none is no opening.
pub open spec fn opening_in(v: Value) -> Option<(Seq<u8>, Seq<CipherSuite>)> {
    let suites = match v.field("suites"@) {
        Some(Value::Arr(items)) => suites_in(items),
        _ => all_suites(),
    };
    match v.field("attestation"@) {
        Some(Value::Str(hex)) => match hex_bytes(encode_utf8(hex)) {
            Some(wire) => if suites.len() == 0 {
                None
            } else {
                Some((wire, suites))
            },
            None => None,
        },
        _ => None,
    }
}

/// Decodes a JSON object into a [`HandshakeInit`].
pub fn handshake_init_from_json(v: &Json) -> (r: Option<HandshakeInit>)
    ensures
        match r {
            Some(i) => opening_in(v@) == Some((i.attestation@, i.suites@)),
            None => opening_in(v@) is None,
        },
{
    let hex: &str = match v.get("attestation") {
        Some(a) => match a.as_str() {
            Some(s) => s,
            None => {
                return None;
            },
        },
        None => {
            return None;
        },
    };
    let attestation: Vec<u8> = match hex_decode(hex) {
        Some(w) => w,
        None => {
            return None;
        },
    };
    let mut suites: Vec<CipherSuite> = Vec::new();
    let list: Option<&[Json]> = match v.get("suites") {
        Some(s) => s.as_array(),
        None => None,
    };
    match list {
        Some(items) => {
            let ghost all = values(items@);
            let mut i: usize = 0;
            proof {
                assert(all.take(0) =~= Seq::<Value>::empty());
            }
            while i < items.len()
                invariant
                    all == values(items@),
                    i <= items@.len(),
                    suites@ == suites_in(all.take(i as int)),
                decreases items@.len() - i,
            {
                proof {
                    assert(all.take(i + 1).drop_last() =~= all.take(i as int));
                    assert(all.take(i + 1).last() == items@[i as int]@);
                }
                if let Some(u) = items[i].as_u64() {
                    if let Some(s) = suite_from_u8((u % 256) as u8) {
                        suites.push(s);
                    }
                }
                i = i + 1;
            }
            proof {
                assert(all.take(i as int) =~= all);
            }
        },
        None => {
            suites.push(CipherSuite::Aes256Gcm);
            suites.push(CipherSuite::ChaCha20Poly1305);
            assert(suites@ =~= all_suites());
        },
    }
    if suites.len() == 0 {
        return None;
    }
    Some(HandshakeInit { attestation, suites })
}

/// The reply to a handshake.
pub open spec fn reply_value(wire: Seq<u8>, suite: CipherSuite) -> Value {
    Value::Obj(
        seq![
            ("attestation"@, Value::Str(hex_text(wire))),
            ("suite"@, uint_value(suite_number(suite) as u64)),
        ],
    )
}

/// Encodes the reply to a handshake (the bytes of the server's attestation and
/// the suite that was chosen) into JSON.
pub fn handshake_resp_to_json(attestation: &[u8], suite: CipherSuite) -> (r: Json)
    ensures
        r@ == reply_value(attestation@, suite),
{
    let hex: String = hex_encode(attestation);
    let all: [(&str, Json); 2] = [
        ("attestation", Json::Str(hex)),
        ("suite", Json::uint(suite_to_u8(suite) as u64)),
    ];
    let r: Json = Json::obj(all.as_slice());
    assert(r@->Obj_0 =~= reply_value(attestation@, suite)->Obj_0);
    r
}

/// Every byte is two digits, the higher half first, in lower case.
pub proof fn law_hex_digits_of_a_byte(data: Seq<u8>, i: int)
    requires
        0 <= i < data.len(),
    ensures
        hex_text(data).len() == 2 * data.len(),
        hex_value(hex_text(data)[2 * i] as u8) == Some((data[i] / 16) as nat),
        hex_value(hex_text(data)[2 * i + 1] as u8) == Some((data[i] % 16) as nat),
        !('A' <= hex_text(data)[2 * i] <= 'F'),
        !('A' <= hex_text(data)[2 * i + 1] <= 'F'),
    decreases data.len(),
{
    let front = data.drop_last();
    if front.len() > 0 {
        law_hex_digits_of_a_byte(front, if i < front.len() {
            i
        } else {
            0
        });
    } else {
        assert(hex_text(front).len() == 0);
    }
    if i < front.len() {
        assert(front[i] == data[i]);
        assert(hex_text(data)[2 * i] == hex_text(front)[2 * i]);
        assert(hex_text(data)[2 * i + 1] == hex_text(front)[2 * i + 1]);
    }
}

/// The numbers of the cipher suites on the wire.
pub proof fn law_suites_by_number(n: u8)
    ensures
        suite_of(n) == Some(CipherSuite::Aes256Gcm) <==> n == 1,
        suite_of(n) == Some(CipherSuite::ChaCha20Poly1305) <==> n == 2,
        suite_of(n) is None <==> n == 0 || n > 2,
{
}

/// The attestation of a request stands in the first header of either name, and a
/// request with neither has none.
pub proof fn law_first_credentials_count(
    headers: Seq<(Seq<char>, Seq<char>)>,
    name: Seq<char>,
    value: Seq<char>,
)
    ensures
        bearer(Seq::empty()) is None,
        name == "authorization"@ || name == "x-tpt-attestation"@ ==> bearer(
            seq![(name, value)] + headers,
        ) == Some(value),
        name != "authorization"@ && name != "x-tpt-attestation"@ ==> bearer(
            seq![(name, value)] + headers,
        ) == bearer(headers),
{
    let all = seq![(name, value)] + headers;
    assert(all[0] == (name, value));
    assert(all.drop_first() =~= headers);
}

/// The suites that an opening names come in its order; a number that is no suite
/// is passed over.
pub proof fn law_suites_keep_their_order(a: Seq<Value>, b: Seq<Value>, v: Value)
    ensures
        suites_in(a + b) == suites_in(a) + suites_in(b),
        as_uint(v) == Some(1u64) ==> suites_in(seq![v]) == seq![CipherSuite::Aes256Gcm],
        as_uint(v) == Some(2u64) ==> suites_in(seq![v]) == seq![CipherSuite::ChaCha20Poly1305],
        as_uint(v) is None ==> suites_in(seq![v]).len() == 0,
    decreases b.len(),
{
    assert(seq![v].drop_last() =~= Seq::<Value>::empty());
    assert(seq![v].last() == v);
    assert(suites_in(seq![v].drop_last()) =~= Seq::<CipherSuite>::empty());
    assert(as_uint(v) == Some(1u64) ==> suites_in(seq![v]) =~= seq![CipherSuite::Aes256Gcm]);
    assert(as_uint(v) == Some(2u64) ==> suites_in(seq![v]) =~= seq![
        CipherSuite::ChaCha20Poly1305,
    ]);
    if b.len() == 0 {
        assert(a + b =~= a);
        assert(suites_in(b) =~= Seq::<CipherSuite>::empty());
        assert(suites_in(a) + suites_in(b) =~= suites_in(a));
    } else {
        law_suites_keep_their_order(a, b.drop_last(), v);
        assert((a + b).drop_last() =~= a + b.drop_last());
        assert((a + b).last() == b.last());
        assert(suites_in(a + b) =~= suites_in(a) + suites_in(b));
    }
}

/// An opening with the digits of an attestation is read as that attestation, with
/// the suites it names, or with both where it names none.
pub proof fn law_opening_is_read(v: Value, wire: Seq<u8>)
    requires
        v.field("attestation"@) == Some(Value::Str(hex_text(wire))),
    ensures
        v.field("suites"@) is None ==> opening_in(v) == Some(
            (wire, seq![CipherSuite::Aes256Gcm, CipherSuite::ChaCha20Poly1305]),
        ),
        v.field("suites"@) matches Some(Value::Arr(items)) ==> {
            &&& suites_in(items).len() > 0 ==> opening_in(v) == Some((wire, suites_in(items)))
            &&& suites_in(items).len() == 0 ==> opening_in(v) is None
        },
{
    law_hex_reads_back(wire);
}

/// The answer to a handshake carries the digits of the attestation and the number
/// of the suite.
pub proof fn law_handshake_answer(wire: Seq<u8>, suite: CipherSuite)
    ensures
        reply_value(wire, suite).field("attestation"@) == Some(Value::Str(hex_text(wire))),
        reply_value(wire, suite).field("suite"@) == Some(
            uint_value(
                match suite {
                    CipherSuite::Aes256Gcm => 1,
                    CipherSuite::ChaCha20Poly1305 => 2,
                },
            ),
        ),
{
    reveal_strlit("attestation");
    reveal_strlit("suite");
    assert("attestation"@.len() == 11 && "suite"@.len() == 5);
    reveal_with_fuel(crate::cloud::json::lookup, 3);
}

/// Hexadecimal digits are read in pairs: an odd number of them, or anything that is no
/// digit, is refused, and every pair is one byte.
pub proof fn law_digits_are_read_in_pairs(digits: Seq<u8>, i: int)
    requires
        0 <= i < digits.len(),
    ensures
        digits.len() % 2 == 1 ==> hex_bytes(digits) is None,
        hex_value(digits[i]) is None ==> hex_bytes(digits) is None,
        hex_bytes(digits) matches Some(b) ==> 2 * b.len() == digits.len() && (2 * (i / 2) + 1
            < digits.len() && b[i / 2] == 16 * hex_value(digits[2 * (i / 2)])->0 + hex_value(
            digits[2 * (i / 2) + 1],
        )->0),
    decreases digits.len(),
{
    if digits.len() >= 2 {
        let rest = digits.skip(2);
        if rest.len() > 0 {
            law_digits_are_read_in_pairs(rest, if i >= 2 {
                i - 2
            } else {
                0
            });
        } else {
            assert(hex_bytes(rest) == Some(Seq::<u8>::empty()));
        }
        if i >= 2 {
            assert(rest[i - 2] == digits[i]);
            assert((i - 2) / 2 == i / 2 - 1);
            if hex_bytes(digits) is Some {
                let k = i / 2;
                assert(rest[2 * (k - 1)] == digits[2 * k]);
                assert(rest[2 * (k - 1) + 1] == digits[2 * k + 1]);
            }
        }
    }
}

} // verus!
