//! MAVLink framing, versions 1.0 (magic `0xFE`) and 2.0 (magic `0xFD`), with the
//! optional 13-byte signature tail of the latter.
//!
//! The checksum is CRC-16/MCRF4XX (reflected, polynomial `0x8408`, start
//! `0xFFFF`) over header and payload, XORed with the `crc_extra` of the message
//! from a small built-in dialect table.
//!
//! [`parse_frame`] reads one frame; [`MavParser`] takes bytes from any transport
//! and yields frames as they complete, without heap traffic.
use vstd::prelude::*;
use crate::bytes::{le_value, lemma_le_ranges, read_le};

verus! {

/// MAVLink 1.0 framing magic.
pub const MAVLINK_1_MAGIC: u8 = 0xFE;

/// MAVLink 2.0 framing magic.
pub const MAVLINK_2_MAGIC: u8 = 0xFD;

/// Length of the signature tail of version 2.
pub const MAVLINK_2_SIGNATURE_LEN: usize = 13;

/// Maximum MAVLink payload (both versions).
pub const MAVLINK_MAX_PAYLOAD: usize = 255;

/// Bytes that a [`MavParser`] holds at most.
pub const PARSER_LEN: usize = 287;

// --- Checksum ----------------------------------------------------------------------

/// One step of the checksum register.
pub open spec fn crc_bit(c: u16) -> u16 {
    if c & 1 != 0 {
        (c >> 1) ^ 0x8408
    } else {
        c >> 1
    }
}

/// `n` steps of the checksum register.
pub open spec fn crc_bits(c: u16, n: nat) -> u16
    decreases n,
{
    if n == 0 {
        c
    } else {
        crc_bit(crc_bits(c, (n - 1) as nat))
    }
}

/// The checksum register after one byte.
pub open spec fn crc_byte(c: u16, b: u8) -> u16 {
    crc_bits(c ^ (b as u16), 8)
}

/// The checksum register that started as `start`, after some bytes.
pub open spec fn crc_from(start: u16, data: Seq<u8>) -> u16
    decreases data.len(),
{
    if data.len() == 0 {
        start
    } else {
        crc_byte(crc_from(start, data.drop_last()), data.last())
    }
}

/// The checksum of some bytes.
pub open spec fn crc16(data: Seq<u8>) -> u16 {
    crc_from(0xFFFF, data)
}

/// MAVLink CRC-16/MCRF4XX (reflected, polynomial `0x8408`, start `0xFFFF`).
pub fn mav_crc16(data: &[u8]) -> (r: u16)
    ensures
        r == crc16(data@),
{
    let mut crc: u16 = 0xFFFF;
    let mut i: usize = 0;
    proof {
        assert(data@.take(0) =~= Seq::<u8>::empty());
    }
    while i < data.len()
        invariant
            i <= data@.len(),
            crc == crc16(data@.take(i as int)),
        decreases data@.len() - i,
    {
        let ghost before = crc;
        crc = crc ^ (data[i] as u16);
        let ghost mixed = crc;
        let mut k: u32 = 0;
        while k < 8
            invariant
                k <= 8,
                crc == crc_bits(mixed, k as nat),
            decreases 8 - k,
        {
            if crc & 1 != 0 {
                crc = (crc >> 1) ^ 0x8408;
            } else {
                crc = crc >> 1;
            }
            k = k + 1;
        }
        proof {
            assert(data@.take(i + 1).drop_last() =~= data@.take(i as int));
            assert(data@.take(i + 1).last() == data@[i as int]);
        }
        i = i + 1;
    }
    proof {
        assert(data@.take(i as int) =~= data@);
    }
    crc
}

proof fn lemma_crc_bits_injective(a: u16, b: u16, n: nat)
    requires
        crc_bits(a, n) == crc_bits(b, n),
    ensures
        a == b,
    decreases n,
{
    if n > 0 {
        let x = crc_bits(a, (n - 1) as nat);
        let y = crc_bits(b, (n - 1) as nat);
        assert(crc_bit(x) == crc_bit(y) ==> x == y) by (bit_vector);
        lemma_crc_bits_injective(a, b, (n - 1) as nat);
    }
}

proof fn lemma_crc_byte_injective(a: u16, b: u16, x: u8, y: u8)
    requires
        crc_byte(a, x) == crc_byte(b, y),
    ensures
        x == y ==> a == b,
        a == b ==> x == y,
{
    lemma_crc_bits_injective(a ^ (x as u16), b ^ (y as u16), 8);
    assert(a ^ (x as u16) == b ^ (y as u16) ==> (x == y ==> a == b) && (a == b ==> x == y))
        by (bit_vector);
}

/// Messages that differ in a single byte have different checksums.
pub proof fn law_crc_sees_one_byte(data: Seq<u8>, i: int, b: u8)
    requires
        0 <= i < data.len(),
        b != data[i],
    ensures
        crc16(data.update(i, b)) != crc16(data),
{
    lemma_crc_one_byte(0xFFFF, data, i, b);
}

proof fn lemma_crc_one_byte(start: u16, data: Seq<u8>, i: int, b: u8)
    requires
        0 <= i < data.len(),
        b != data[i],
    ensures
        crc_from(start, data.update(i, b)) != crc_from(start, data),
    decreases data.len(),
{
    let other = data.update(i, b);
    let front = data.drop_last();
    if i == data.len() - 1 {
        assert(other.drop_last() =~= front);
        if crc_from(start, other) == crc_from(start, data) {
            lemma_crc_byte_injective(
                crc_from(start, front),
                crc_from(start, front),
                b,
                data.last(),
            );
        }
    } else {
        assert(other.drop_last() =~= front.update(i, b));
        lemma_crc_one_byte(start, front, i, b);
        if crc_from(start, other) == crc_from(start, data) {
            lemma_crc_byte_injective(
                crc_from(start, front.update(i, b)),
                crc_from(start, front),
                data.last(),
                data.last(),
            );
        }
    }
}

// --- The checksum as a remainder ---------------------------------------------------

/// Bit `t` of a word, the least significant first.
pub open spec fn bit_at(x: u32, t: int) -> bool {
    0 <= t < 32 && (x >> (t as u32)) & 1 == 1
}

/// Bit `k` of a message as it goes over the wire: its bytes in order, the least
/// significant bit of each first. Past the end there are zeros.
pub open spec fn message_bit(data: Seq<u8>, k: int) -> bool {
    0 <= k < 8 * data.len() && bit_at(data[k / 8] as u32, k % 8)
}

/// The coefficient at `k` of a polynomial, highest power first.
pub open spec fn term(q: Seq<bool>, k: int) -> bool {
    0 <= k < q.len() && q[k]
}

/// The coefficient at `k`, highest power first, of the product of a polynomial
/// over two elements with `x^16 + x^12 + x^5 + 1`.
pub open spec fn product_term(q: Seq<bool>, k: int) -> bool {
    ((term(q, k) != term(q, k - 4)) != term(q, k - 11)) != term(q, k - 16)
}

/// The bit at `k` of what is sent: the message with its first sixteen bits
/// inverted, followed by the sixteen bits of a checksum.
pub open spec fn sent_bit(data: Seq<u8>, crc: u16, k: int) -> bool {
    (message_bit(data, k) != (k < 16)) != bit_at(crc as u32, k - 8 * data.len())
}

/// A quotient shows that a message and its checksum together are a multiple of
/// the generator.
pub open spec fn divides(q: Seq<bool>, data: Seq<u8>, crc: u16) -> bool {
    &&& q.len() == 8 * data.len()
    &&& forall|k: int|
        0 <= k < 8 * data.len() + 16 ==> #[trigger] sent_bit(data, crc, k) == product_term(q, k)
}

/// The bits that leave the register while a byte goes in, the first the least
/// significant.
spec fn leaving(c: u16, b: u8) -> u32 {
    let c0 = c ^ (b as u16);
    let c1 = crc_bit(c0);
    let c2 = crc_bit(c1);
    let c3 = crc_bit(c2);
    let c4 = crc_bit(c3);
    let c5 = crc_bit(c4);
    let c6 = crc_bit(c5);
    let c7 = crc_bit(c6);
    (c0 & 1) as u32 | (((c1 & 1) as u32) << 1) | (((c2 & 1) as u32) << 2) | (((c3 & 1) as u32) << 3)
        | (((c4 & 1) as u32) << 4) | (((c5 & 1) as u32) << 5) | (((c6 & 1) as u32) << 6)
        | (((c7 & 1) as u32) << 7)
}

/// A byte's worth of division.
proof fn lemma_byte_divides(c: u16, b: u8)
    ensures
        ({
            let q = leaving(c, b);
            &&& q < 256
            &&& (c as u32) ^ (b as u32) ^ ((crc_byte(c, b) as u32) << 8) == q ^ (q << 4) ^ (q << 11)
                ^ (q << 16)
        }),
{
    reveal_with_fuel(crc_bits, 9);
    let c0 = c ^ (b as u16);
    let c1 = crc_bit(c0);
    let c2 = crc_bit(c1);
    let c3 = crc_bit(c2);
    let c4 = crc_bit(c3);
    let c5 = crc_bit(c4);
    let c6 = crc_bit(c5);
    let c7 = crc_bit(c6);
    let c8 = crc_bit(c7);
    assert(crc_byte(c, b) == c8);
    let q = leaving(c, b);
    assert(q < 256 && (c as u32) ^ (b as u32) ^ ((c8 as u32) << 8) == q ^ (q << 4) ^ (q << 11) ^ (q
        << 16)) by (bit_vector)
        requires
            c0 == c ^ (b as u16),
            c1 == crc_bit(c0),
            c2 == crc_bit(c1),
            c3 == crc_bit(c2),
            c4 == crc_bit(c3),
            c5 == crc_bit(c4),
            c6 == crc_bit(c5),
            c7 == crc_bit(c6),
            c8 == crc_bit(c7),
            q == (c0 & 1) as u32 | (((c1 & 1) as u32) << 1) | (((c2 & 1) as u32) << 2) | (((c3 & 1) as u32)
                << 3) | (((c4 & 1) as u32) << 4) | (((c5 & 1) as u32) << 5) | (((c6 & 1) as u32) << 6)
                | (((c7 & 1) as u32) << 7),
    ;
}

proof fn lemma_bit_of_xor(x: u32, y: u32, t: int)
    ensures
        bit_at(x ^ y, t) == (bit_at(x, t) != bit_at(y, t)),
{
    let n = t as u32;
    if 0 <= t < 32 {
        assert((((x ^ y) >> n) & 1 == 1) == (((x >> n) & 1 == 1) != ((y >> n) & 1 == 1))) by (bit_vector)
            requires
                n < 32,
        ;
    }
}

proof fn lemma_bit_of_shift(x: u32, m: u32, t: int)
    requires
        m <= 16,
        0 <= t < 24,
    ensures
        bit_at(x << m, t) == bit_at(x, t - m),
{
    let n = t as u32;
    if m <= n {
        let d = (n - m) as u32;
        assert(((x << m) >> n) & 1 == (x >> d) & 1) by (bit_vector)
            requires
                m <= n,
                n < 24,
                m <= 16,
                d == n - m,
        ;
    } else {
        assert(((x << m) >> n) & 1 == 0) by (bit_vector)
            requires
                n < m,
                m <= 16,
        ;
    }
}

proof fn lemma_bit_past(x: u32, m: u32, t: int)
    requires
        m == 8 || m == 16,
        m == 8 ==> x < 256,
        m == 16 ==> x < 65536,
        t < 0 || m <= t,
    ensures
        !bit_at(x, t),
{
    let n = t as u32;
    if 0 <= t < 32 {
        assert((x >> n) & 1 == 0) by (bit_vector)
            requires
                n < 32,
                (m == 8 && x < 256) || (m == 16 && x < 65536),
                m <= n,
        ;
    }
}

/// The quotient of a message.
spec fn quotient_of(data: Seq<u8>) -> Seq<bool>
    decreases data.len(),
{
    if data.len() == 0 {
        Seq::empty()
    } else {
        let front = data.drop_last();
        let q = leaving(crc16(front), data.last());
        quotient_of(front) + Seq::new(8, |j: int| bit_at(q, j))
    }
}

proof fn lemma_divides(data: Seq<u8>)
    ensures
        divides(quotient_of(data), data, crc16(data)),
    decreases data.len(),
{
    let q = quotient_of(data);
    let crc = crc16(data);
    if data.len() == 0 {
        assert forall|k: int| 0 <= k < 16 implies #[trigger] sent_bit(data, crc, k) == product_term(
            q,
            k,
        ) by {
            let n = k as u32;
            assert((0xFFFFu32 >> n) & 1 == 1) by (bit_vector)
                requires
                    n < 16,
            ;
        }
    } else {
        let front = data.drop_last();
        let b = data.last();
        let c = crc16(front);
        let p = quotient_of(front);
        let w = leaving(c, b);
        lemma_divides(front);
        lemma_byte_divides(c, b);
        let m = 8 * front.len() as int;
        assert(crc == crc_byte(c, b));
        assert forall|k: int|
            0 <= k < 8 * data.len() + 16 implies #[trigger] sent_bit(data, crc, k) == product_term(
            q,
            k,
        ) by {
            let t = k - m;
            assert forall|j: int| #[trigger] term(q, j) == (term(p, j) != bit_at(w, j - m)) by {
                if j < m {
                    lemma_bit_past(w, 8, j - m);
                } else if j >= m + 8 {
                    lemma_bit_past(w, 8, j - m);
                }
            }
            assert(message_bit(data, k) == (message_bit(front, k) != bit_at(b as u32, t))) by {
                if k < m {
                    assert(data[k / 8] == front[k / 8]);
                    lemma_bit_past(b as u32, 8, t);
                } else if k < m + 8 {
                    assert(k / 8 == front.len() && k % 8 == t);
                } else {
                    lemma_bit_past(b as u32, 8, t);
                }
            }
            if t < 0 {
                lemma_bit_past(c as u32, 16, t);
                lemma_bit_past(crc as u32, 16, t - 8);
                assert(sent_bit(front, c, k) == product_term(p, k));
                lemma_bit_past(w, 8, t);
                lemma_bit_past(w, 8, t - 4);
                lemma_bit_past(w, 8, t - 11);
                lemma_bit_past(w, 8, t - 16);
            } else {
                let left = (c as u32) ^ (b as u32);
                lemma_bit_of_xor(c as u32, b as u32, t);
                lemma_bit_of_xor(left, (crc as u32) << 8, t);
                lemma_bit_of_shift(crc as u32, 8, t);
                let r1 = w ^ (w << 4);
                let r2 = r1 ^ (w << 11);
                lemma_bit_of_xor(w, w << 4, t);
                lemma_bit_of_xor(r1, w << 11, t);
                lemma_bit_of_xor(r2, w << 16, t);
                lemma_bit_of_shift(w, 4, t);
                lemma_bit_of_shift(w, 11, t);
                lemma_bit_of_shift(w, 16, t);
                assert(((bit_at(c as u32, t) != bit_at(b as u32, t)) != bit_at(crc as u32, t - 8))
                    == (((bit_at(w, t) != bit_at(w, t - 4)) != bit_at(w, t - 11)) != bit_at(
                    w,
                    t - 16,
                )));
                if t < 16 {
                    assert(sent_bit(front, c, k) == product_term(p, k));
                } else {
                    lemma_bit_past(c as u32, 16, t);
                    assert(!product_term(p, k));
                    assert(!message_bit(front, k) && k >= 16);
                }
            }
        }
    }
}

/// The checksum is a remainder over two elements: a message whose first sixteen
/// bits are inverted, with the checksum behind it, is a multiple of
/// `x^16 + x^12 + x^5 + 1`, bits taken least significant first.
pub proof fn law_checksum_is_the_remainder(data: Seq<u8>)
    ensures
        exists|q: Seq<bool>| divides(q, data, crc16(data)),
{
    lemma_divides(data);
}

/// No other number is the remainder: one that makes a multiple of the generator
/// too is the checksum.
pub proof fn law_remainder_is_the_checksum(data: Seq<u8>, crc: u16, q: Seq<bool>)
    requires
        divides(q, data, crc),
    ensures
        crc == crc16(data),
{
    lemma_divides(data);
    let p = quotient_of(data);
    let own = crc16(data);
    let n = 8 * data.len() as int;
    assert forall|k: int| 0 <= k < n implies q[k] == p[k] by {
        lemma_same_quotient(data, crc, q, own, p, k);
    }
    assert(q =~= p);
    assert forall|t: int| 0 <= t < 16 implies #[trigger] bit_at(crc as u32, t) == bit_at(own as u32, t) by {
        let k = n + t;
        assert(sent_bit(data, crc, k) == product_term(q, k));
        assert(sent_bit(data, own, k) == product_term(p, k));
    }
    lemma_same_bits(crc, own);
}

proof fn lemma_same_quotient(data: Seq<u8>, a: u16, p: Seq<bool>, b: u16, q: Seq<bool>, k: int)
    requires
        divides(p, data, a),
        divides(q, data, b),
        0 <= k < 8 * data.len(),
    ensures
        p[k] == q[k],
    decreases k,
{
    assert(sent_bit(data, a, k) == product_term(p, k));
    assert(sent_bit(data, b, k) == product_term(q, k));
    let t = k - 8 * data.len();
    assert(!bit_at(a as u32, t) && !bit_at(b as u32, t));
    if k >= 4 {
        lemma_same_quotient(data, a, p, b, q, k - 4);
    }
    if k >= 11 {
        lemma_same_quotient(data, a, p, b, q, k - 11);
    }
    if k >= 16 {
        lemma_same_quotient(data, a, p, b, q, k - 16);
    }
}

proof fn lemma_same_bits(a: u16, b: u16)
    requires
        forall|t: int| 0 <= t < 16 ==> #[trigger] bit_at(a as u32, t) == bit_at(b as u32, t),
    ensures
        a == b,
{
    let x = a as u32;
    let y = b as u32;
    assert(bit_at(x, 0) == bit_at(y, 0) && bit_at(x, 1) == bit_at(y, 1) && bit_at(x, 2) == bit_at(y, 2)
        && bit_at(x, 3) == bit_at(y, 3) && bit_at(x, 4) == bit_at(y, 4) && bit_at(x, 5) == bit_at(y, 5)
        && bit_at(x, 6) == bit_at(y, 6) && bit_at(x, 7) == bit_at(y, 7) && bit_at(x, 8) == bit_at(y, 8)
        && bit_at(x, 9) == bit_at(y, 9) && bit_at(x, 10) == bit_at(y, 10) && bit_at(x, 11) == bit_at(
        y,
        11,
    ) && bit_at(x, 12) == bit_at(y, 12) && bit_at(x, 13) == bit_at(y, 13) && bit_at(x, 14) == bit_at(
        y,
        14,
    ) && bit_at(x, 15) == bit_at(y, 15));
    assert(x == y) by (bit_vector)
        requires
            x < 65536,
            y < 65536,
            ((x >> 0) & 1 == 1) == ((y >> 0) & 1 == 1),
            ((x >> 1) & 1 == 1) == ((y >> 1) & 1 == 1),
            ((x >> 2) & 1 == 1) == ((y >> 2) & 1 == 1),
            ((x >> 3) & 1 == 1) == ((y >> 3) & 1 == 1),
            ((x >> 4) & 1 == 1) == ((y >> 4) & 1 == 1),
            ((x >> 5) & 1 == 1) == ((y >> 5) & 1 == 1),
            ((x >> 6) & 1 == 1) == ((y >> 6) & 1 == 1),
            ((x >> 7) & 1 == 1) == ((y >> 7) & 1 == 1),
            ((x >> 8) & 1 == 1) == ((y >> 8) & 1 == 1),
            ((x >> 9) & 1 == 1) == ((y >> 9) & 1 == 1),
            ((x >> 10) & 1 == 1) == ((y >> 10) & 1 == 1),
            ((x >> 11) & 1 == 1) == ((y >> 11) & 1 == 1),
            ((x >> 12) & 1 == 1) == ((y >> 12) & 1 == 1),
            ((x >> 13) & 1 == 1) == ((y >> 13) & 1 == 1),
            ((x >> 14) & 1 == 1) == ((y >> 14) & 1 == 1),
            ((x >> 15) & 1 == 1) == ((y >> 15) & 1 == 1),
    ;
}

// --- Dialect -----------------------------------------------------------------------

/// Payload length and `crc_extra` of the built-in messages: HEARTBEAT,
/// ATTITUDE, GLOBAL_POSITION_INT, SYS_STATUS and GPS_RAW_INT.
pub open spec fn dialect(msgid: u32) -> Option<(u8, u8)> {
    if msgid == 0 {
        Some((9, 50))
    } else if msgid == 30 {
        Some((28, 39))
    } else if msgid == 33 {
        Some((28, 104))
    } else if msgid == 1 {
        Some((31, 124))
    } else if msgid == 24 {
        Some((12, 167))
    } else {
        None
    }
}

/// Looks up payload length and `crc_extra` for a message id.
pub fn dialect_for(msgid: u32) -> (r: Option<(u8, u8)>)
    ensures
        r == dialect(msgid),
{
    match msgid {
        0 => Some((9, 50)),
        30 => Some((28, 39)),
        33 => Some((28, 104)),
        1 => Some((31, 124)),
        24 => Some((12, 167)),
        _ => None,
    }
}

// --- Frames ------------------------------------------------------------------------

/// Why a parse failed.
#[derive(Debug, Clone, Copy, PartialEq, Eq, Structural)]
pub enum MavError {
    /// Leading byte was not a MAVLink magic.
    Magic,
    /// Buffer ended before a complete frame.
    Truncated,
    /// Trailing checksum did not match.
    Crc,
}

/// The message of an error.
pub open spec fn mav_error_text(e: MavError) -> Seq<char> {
    match e {
        MavError::Magic => "not a MAVLink frame (bad magic)"@,
        MavError::Truncated => "truncated MAVLink frame"@,
        MavError::Crc => "MAVLink checksum mismatch"@,
    }
}

impl MavError {
    /// The message of the error.
    pub fn message(self) -> (r: String)
        ensures
            r@ == mav_error_text(self),
    {
        match self {
            MavError::Magic => "not a MAVLink frame (bad magic)".to_owned(),
            MavError::Truncated => "truncated MAVLink frame".to_owned(),
            MavError::Crc => "MAVLink checksum mismatch".to_owned(),
        }
    }
}

/// One decoded MAVLink frame.
#[derive(Debug, Clone, Copy, PartialEq)]
pub struct MavFrame {
    /// Protocol version (`1` or `2`).
    pub version: u8,
    /// Packet sequence number.
    pub seq: u8,
    /// System id.
    pub sysid: u8,
    /// Component id.
    pub compid: u8,
    /// Message id (24-bit in version 2, low byte in version 1).
    pub msgid: u32,
    /// Payload length in bytes.
    pub payload_len: u8,
    /// Raw payload bytes (unused tail is zero).
    pub payload: [u8; MAVLINK_MAX_PAYLOAD],
    /// Trailing checksum.
    pub crc: u16,
    /// 1 when a version 2 signature tail was present, else 0.
    pub signed: u8,
}

/// What a [`MavFrame`] says.
#[verifier::ext_equal]
pub ghost struct Frame {
    pub version: u8,
    pub seq: u8,
    pub sysid: u8,
    pub compid: u8,
    pub msgid: u32,
    pub payload: Seq<u8>,
    pub crc: u16,
    pub signed: u8,
}

impl View for MavFrame {
    type V = Frame;

    open spec fn view(&self) -> Frame {
        Frame {
            version: self.version,
            seq: self.seq,
            sysid: self.sysid,
            compid: self.compid,
            msgid: self.msgid,
            payload: self.payload@.take(self.payload_len as int),
            crc: self.crc,
            signed: self.signed,
        }
    }
}

impl MavFrame {
    /// The bytes after the payload are zero.
    pub open spec fn has_zero_tail(&self) -> bool {
        forall|i: int| self.payload_len <= i < 255 ==> #[trigger] self.payload@[i] == 0
    }

    /// Message id as a 24-bit value.
    pub fn message_id(&self) -> (r: u32)
        ensures
            r == self@.msgid,
    {
        self.msgid
    }

    /// Borrow the populated payload slice.
    pub fn payload(&self) -> (r: &[u8])
        ensures
            r@ == self@.payload,
    {
        let r: &[u8] = vstd::slice::slice_subrange(
            self.payload.as_slice(),
            0,
            self.payload_len as usize,
        );
        assert(r@ =~= self@.payload);
        r
    }
}

/// Length of everything before the payload.
pub open spec fn header_len(version: u8) -> nat {
    if version == 1 {
        6
    } else {
        11
    }
}

/// Total on-wire byte length of a frame.
pub open spec fn wire_len(version: u8, payload_len: nat, signed: bool) -> nat {
    header_len(version) + payload_len + 2 + if version == 2 && signed {
        13nat
    } else {
        0nat
    }
}

/// Total on-wire byte length for a frame with `payload_len` and `signed`.
pub fn frame_len(version: u8, payload_len: usize, signed: bool) -> (r: usize)
    requires
        payload_len <= usize::MAX - 26,
    ensures
        r == wire_len(version, payload_len as nat, signed),
{
    let header_total: usize = if version == 1 {
        6
    } else {
        11
    };
    let sig: usize = if version == 2 && signed {
        MAVLINK_2_SIGNATURE_LEN
    } else {
        0
    };
    header_total + payload_len + 2 + sig
}

/// The version that a magic byte announces.
pub open spec fn version_of(magic: u8) -> Option<u8> {
    if magic == MAVLINK_1_MAGIC {
        Some(1)
    } else if magic == MAVLINK_2_MAGIC {
        Some(2)
    } else {
        None
    }
}

/// Whether a frame that starts with `buf` has a signature tail.
pub open spec fn is_signed(buf: Seq<u8>) -> bool {
    buf[0] == MAVLINK_2_MAGIC && buf.len() > 2 && buf[2] & 1 != 0
}

/// The whole length of a frame that starts with `buf`.
pub open spec fn announced_len(buf: Seq<u8>) -> nat {
    wire_len(version_of(buf[0])->0, buf[1] as nat, is_signed(buf))
}

/// The frame at the start of `buf`, its checksum aside.
pub open spec fn fields_in(buf: Seq<u8>) -> Frame {
    let version = version_of(buf[0])->0;
    let start = header_len(version) as int;
    let n = buf[1] as int;
    Frame {
        version,
        seq: if version == 1 {
            buf[2]
        } else {
            buf[4]
        },
        sysid: if version == 1 {
            buf[3]
        } else {
            buf[5]
        },
        compid: if version == 1 {
            buf[4]
        } else {
            buf[6]
        },
        msgid: if version == 1 {
            buf[5] as u32
        } else {
            le_value(buf.subrange(7, 10)) as u32
        },
        payload: buf.subrange(start, start + n),
        crc: le_value(buf.subrange(start + n, start + n + 2)) as u16,
        signed: if is_signed(buf) {
            1
        } else {
            0
        },
    }
}

/// The checksum that a frame of a built-in message must carry. It covers header
/// and payload, without the magic. Other messages carry any.
pub open spec fn owed_crc(buf: Seq<u8>) -> Option<u16> {
    let f = fields_in(buf);
    match dialect(f.msgid) {
        Some((_, extra)) => {
            let end = (header_len(f.version) + f.payload.len()) as int;
            Some(crc16(buf.subrange(1, end)) ^ (extra as u16))
        },
        None => None,
    }
}

/// What the start of `buf` parses as.
pub open spec fn frame_in(buf: Seq<u8>) -> Result<Frame, MavError> {
    if buf.len() == 0 || version_of(buf[0]) is None {
        Err(MavError::Magic)
    } else if buf.len() < 3 || buf.len() < announced_len(buf) {
        Err(MavError::Truncated)
    } else {
        let f = fields_in(buf);
        match owed_crc(buf) {
            Some(crc) => if crc == f.crc {
                Ok(f)
            } else {
                Err(MavError::Crc)
            },
            None => Ok(f),
        }
    }
}

/// Parses one complete MAVLink frame from `buf` (must contain the whole frame).
/// The checksum is validated when the message id is in the dialect table;
/// unknown ids parse structurally (the appended checksum is still recorded).
pub fn parse_frame(buf: &[u8]) -> (r: Result<MavFrame, MavError>)
    ensures
        match r {
            Ok(f) => frame_in(buf@) == Ok::<Frame, MavError>(f@) && f.has_zero_tail(),
            Err(e) => frame_in(buf@) == Err::<Frame, MavError>(e),
        },
{
    if buf.len() == 0 {
        return Err(MavError::Magic);
    }
    let version: u8 = match buf[0] {
        0xFE => 1,
        0xFD => 2,
        _ => {
            return Err(MavError::Magic);
        },
    };
    if buf.len() < 3 {
        return Err(MavError::Truncated);
    }
    let payload_len: usize = buf[1] as usize;
    let signed: bool = version == 2 && buf[2] & 1 != 0;
    let total: usize = frame_len(version, payload_len, signed);
    if buf.len() < total {
        return Err(MavError::Truncated);
    }
    let start: usize = if version == 1 {
        6
    } else {
        11
    };
    // The checksum covers header (after magic) and payload, and stands behind.
    let crc_pos: usize = start + payload_len;
    let crc: u16 = read_le(buf, crc_pos, 2) as u16;
    let msgid: u32 = if version == 1 {
        buf[5] as u32
    } else {
        read_le(buf, 7, 3) as u32
    };
    proof {
        lemma_le_ranges();
        reveal_with_fuel(crate::bytes::le_range, 4);
    }
    let ghost f = fields_in(buf@);
    assert(msgid == f.msgid && crc == f.crc);
    if let Some((_, extra)) = dialect_for(msgid) {
        let covered: &[u8] = vstd::slice::slice_subrange(buf, 1, crc_pos);
        let calc: u16 = mav_crc16(covered) ^ (extra as u16);
        assert(owed_crc(buf@) == Some(calc));
        if calc != crc {
            return Err(MavError::Crc);
        }
    }
    let mut payload: [u8; MAVLINK_MAX_PAYLOAD] = [0u8; MAVLINK_MAX_PAYLOAD];
    let mut i: usize = 0;
    while i < payload_len
        invariant
            i <= payload_len <= 255,
            start + payload_len <= buf@.len(),
            start <= 11,
            forall|j: int| 0 <= j < i ==> payload@[j] == buf@[start + j],
            forall|j: int| i <= j < 255 ==> payload@[j] == 0,
        decreases payload_len - i,
    {
        assert(start + i < buf.len());
        payload[i] = buf[start + i];
        i = i + 1;
    }
    let r: MavFrame = MavFrame {
        version,
        seq: if version == 1 {
            buf[2]
        } else {
            buf[4]
        },
        sysid: if version == 1 {
            buf[3]
        } else {
            buf[5]
        },
        compid: if version == 1 {
            buf[4]
        } else {
            buf[6]
        },
        msgid,
        payload_len: payload_len as u8,
        payload,
        crc,
        signed: if signed {
            1
        } else {
            0
        },
    };
    assert(r@.payload =~= f.payload);
    assert(r@ =~= f);
    Ok(r)
}

/// Corrupting one byte of the payload of a built-in message is noticed.
pub proof fn law_corrupt_payload_is_refused(buf: Seq<u8>, i: int, b: u8)
    requires
        frame_in(buf) is Ok,
        dialect(fields_in(buf).msgid) is Some,
        0 <= i < fields_in(buf).payload.len(),
        b != fields_in(buf).payload[i],
    ensures
        frame_in(buf.update(header_len(fields_in(buf).version) + i, b)) == Err::<Frame, MavError>(
            MavError::Crc,
        ),
{
    let f = fields_in(buf);
    let h = header_len(f.version) as int;
    let n = f.payload.len() as int;
    let bad = buf.update(h + i, b);
    let g = fields_in(bad);
    assert(buf.len() >= h + n + 2);
    assert(bad.subrange(7, 10) =~= buf.subrange(7, 10) || f.version == 1);
    assert(bad.subrange(h + n, h + n + 2) =~= buf.subrange(h + n, h + n + 2));
    let covered = buf.subrange(1, h + n);
    assert(covered[h + i - 1] == f.payload[i]);
    law_crc_sees_one_byte(covered, h + i - 1, b);
    assert(bad.subrange(1, h + n) =~= covered.update(h + i - 1, b));
    let x = crc16(covered);
    let y = crc16(covered.update(h + i - 1, b));
    let e = (dialect(f.msgid)->0).1 as u16;
    assert(x != y ==> x ^ e != y ^ e) by (bit_vector);
}

// --- Streaming ---------------------------------------------------------------------

/// Streaming parser: feed bytes, get frames as they complete.
#[derive(Debug, Clone)]
pub struct MavParser {
    buf: [u8; PARSER_LEN],
    len: usize,
}

impl View for MavParser {
    type V = Seq<u8>;

    /// The bytes of the frame that is being captured.
    closed spec fn view(&self) -> Seq<u8> {
        self.buf@.take(self.len as int)
    }
}

/// Whether a byte is a magic.
pub open spec fn is_magic(b: u8) -> bool {
    b == MAVLINK_1_MAGIC || b == MAVLINK_2_MAGIC
}

/// What is captured after one more byte, and the frame that it completes.
///
/// Bytes are discarded until a magic, and a magic beyond the second byte starts
/// over. A frame that does not pass is kept until then, or until the buffer is
/// full.
pub open spec fn fed(captured: Seq<u8>, b: u8) -> (Seq<u8>, Option<Frame>) {
    if captured.len() == 0 {
        (
            if is_magic(b) {
                seq![b]
            } else {
                Seq::empty()
            },
            None,
        )
    } else if captured.len() > 1 && is_magic(b) {
        (seq![b], None)
    } else if captured.len() >= 287 {
        (Seq::empty(), None)
    } else {
        let next = captured.push(b);
        if next.len() < announced_len(next) {
            (next, None)
        } else {
            match frame_in(next.take(announced_len(next) as int)) {
                Ok(f) => (Seq::empty(), Some(f)),
                Err(_) => (next, None),
            }
        }
    }
}

impl MavParser {
    /// What is captured starts with a magic.
    pub closed spec fn wf(&self) -> bool {
        &&& self.len <= 287
        &&& self.len > 0 ==> is_magic(self.buf@[0])
    }

    /// Creates an empty parser.
    pub fn new() -> (r: MavParser)
        ensures
            r.wf(),
            r@ == Seq::<u8>::empty(),
    {
        let r: MavParser = MavParser { buf: [0u8; PARSER_LEN], len: 0 };
        assert(r@ =~= Seq::<u8>::empty());
        r
    }

    /// Feed one byte; returns `Some(frame)` when a full frame is assembled.
    ///
    /// Resynchronizes on magic: any non-magic byte while idle is discarded, and
    /// a stray magic mid-frame restarts capture.
    pub fn feed(&mut self, byte: u8) -> (r: Option<MavFrame>)
        requires
            old(self).wf(),
        ensures
            final(self).wf(),
            final(self)@ == fed(old(self)@, byte).0,
            match r {
                Some(f) => fed(old(self)@, byte).1 == Some(f@) && f.has_zero_tail(),
                None => fed(old(self)@, byte).1 is None,
            },
    {
        let magic: bool = byte == MAVLINK_1_MAGIC || byte == MAVLINK_2_MAGIC;
        if self.len == 0 {
            if magic {
                self.buf[0] = byte;
                self.len = 1;
                assert(self@ =~= seq![byte]);
            } else {
                assert(self@ =~= Seq::<u8>::empty());
            }
            return None;
        }
        if self.len > 1 && magic {
            // Lost sync: start over.
            self.buf[0] = byte;
            self.len = 1;
            assert(self@ =~= seq![byte]);
            return None;
        }
        if self.len >= PARSER_LEN {
            // Over-length: drop and resync on the next magic.
            self.len = 0;
            assert(self@ =~= Seq::<u8>::empty());
            return None;
        }
        let at: usize = self.len;
        self.buf[at] = byte;
        self.len = at + 1;
        let ghost next = old(self)@.push(byte);
        assert(self@ =~= next);
        // Once we have the payload length we know the full frame size.
        let version: u8 = if self.buf[0] == MAVLINK_1_MAGIC {
            1
        } else {
            2
        };
        let payload_len: usize = self.buf[1] as usize;
        let signed: bool = version == 2 && self.len > 2 && self.buf[2] & 1 != 0;
        let total: usize = frame_len(version, payload_len, signed);
        proof {
            assert(next[0] == self.buf@[0] && next[1] == self.buf@[1]);
            if next.len() > 2 {
                assert(next[2] == self.buf@[2]);
            }
            assert(total == announced_len(next));
        }
        if self.len >= total {
            let whole: &[u8] = vstd::slice::slice_subrange(self.buf.as_slice(), 0, total);
            assert(whole@ =~= next.take(total as int));
            if let Ok(frame) = parse_frame(whole) {
                self.len = 0;
                assert(self@ =~= Seq::<u8>::empty());
                return Some(frame);
            }
        }
        None
    }
}

impl Default for MavParser {
    fn default() -> (r: MavParser)
        ensures
            r.wf(),
            r@ == Seq::<u8>::empty(),
    {
        MavParser::new()
    }
}

/// What is captured after some bytes.
pub open spec fn fed_all(captured: Seq<u8>, bytes: Seq<u8>) -> Seq<u8>
    decreases bytes.len(),
{
    if bytes.len() == 0 {
        captured
    } else {
        fed(fed_all(captured, bytes.drop_last()), bytes.last()).0
    }
}

/// The bytes of a frame that passes, fed to an idle parser one by one, yield
/// that frame with its last byte and leave the parser idle, where no byte after
/// the second is a magic.
pub proof fn law_stream_yields_the_frame(buf: Seq<u8>)
    requires
        frame_in(buf) is Ok,
        buf.len() == announced_len(buf),
        forall|i: int| 2 <= i < buf.len() ==> !is_magic(#[trigger] buf[i]),
    ensures
        fed(fed_all(Seq::empty(), buf.drop_last()), buf.last()) == (
            Seq::<u8>::empty(),
            Some(frame_in(buf)->Ok_0),
        ),
{
    let n = buf.len() as int;
    lemma_capture(buf, n - 1);
    assert(buf.take(n - 1) =~= buf.drop_last());
    assert(buf.drop_last().push(buf.last()) =~= buf);
    assert(buf.take(n) =~= buf);
}

proof fn lemma_capture(buf: Seq<u8>, k: int)
    requires
        frame_in(buf) is Ok,
        buf.len() == announced_len(buf),
        forall|i: int| 2 <= i < buf.len() ==> !is_magic(#[trigger] buf[i]),
        1 <= k < buf.len(),
    ensures
        fed_all(Seq::empty(), buf.take(k)) == buf.take(k),
    decreases k,
{
    let none = Seq::<u8>::empty();
    let all = buf.take(k);
    if k == 1 {
        assert(all.drop_last() =~= none);
        assert(fed_all(none, all.drop_last()) == none);
        assert(all =~= seq![buf[0]]);
    } else {
        lemma_capture(buf, k - 1);
        let front = buf.take(k - 1);
        assert(all.drop_last() =~= front);
        assert(all.last() == buf[k - 1]);
        assert(front.push(buf[k - 1]) =~= all);
        assert(all[0] == buf[0] && all[1] == buf[1]);
        if k > 2 {
            assert(all[2] == buf[2]);
            assert(!is_magic(buf[k - 1]));
        }
        // The frame is longer than what was captured.
        assert(announced_len(all) > k);
        assert(buf.len() <= 281);
    }
}

// --- Messages ----------------------------------------------------------------------

/// HEARTBEAT payload (9 bytes).
#[derive(Debug, Clone, Copy, PartialEq)]
pub struct Heartbeat {
    /// Autopilot-specific mode bitmap.
    pub custom_mode: u32,
    /// Vehicle/component type.
    pub type_: u8,
    /// Autopilot id.
    pub autopilot: u8,
    /// Base mode bitmap.
    pub base_mode: u8,
    /// System status.
    pub system_status: u8,
    /// MAVLink version (should be 3).
    pub mavlink_version: u8,
}

/// ATTITUDE payload (28 bytes): a timestamp and six single-precision numbers,
/// held as bit patterns.
#[derive(Debug, Clone, Copy, PartialEq)]
pub struct Attitude {
    /// Timestamp (ms since boot).
    pub time_boot_ms: u32,
    /// Roll (rad).
    pub roll: u32,
    /// Pitch (rad).
    pub pitch: u32,
    /// Yaw (rad).
    pub yaw: u32,
    /// Roll rate (rad/s).
    pub rollspeed: u32,
    /// Pitch rate (rad/s).
    pub pitchspeed: u32,
    /// Yaw rate (rad/s).
    pub yawspeed: u32,
}

/// The 32-bit number at `off`.
pub open spec fn word_at(b: Seq<u8>, off: int) -> u32 {
    le_value(b.subrange(off, off + 4)) as u32
}

/// The 32-bit number at `off`.
pub fn le_u32(b: &[u8], off: usize) -> (r: u32)
    requires
        off + 4 <= b@.len(),
    ensures
        r == word_at(b@, off as int),
{
    proof {
        lemma_le_ranges();
    }
    read_le(b, off, 4) as u32
}

/// What a HEARTBEAT frame says.
pub open spec fn heartbeat_of(f: Frame) -> Option<Heartbeat> {
    if f.msgid != 0 || f.payload.len() < 9 {
        None
    } else {
        Some(
            Heartbeat {
                custom_mode: word_at(f.payload, 0),
                type_: f.payload[4],
                autopilot: f.payload[5],
                base_mode: f.payload[6],
                system_status: f.payload[7],
                mavlink_version: f.payload[8],
            },
        )
    }
}

/// What an ATTITUDE frame says.
pub open spec fn attitude_of(f: Frame) -> Option<Attitude> {
    if f.msgid != 30 || f.payload.len() < 28 {
        None
    } else {
        Some(
            Attitude {
                time_boot_ms: word_at(f.payload, 0),
                roll: word_at(f.payload, 4),
                yaw: word_at(f.payload, 8),
                pitch: word_at(f.payload, 12),
                rollspeed: word_at(f.payload, 16),
                pitchspeed: word_at(f.payload, 20),
                yawspeed: word_at(f.payload, 24),
            },
        )
    }
}

/// Decodes a HEARTBEAT frame into [`Heartbeat`].
pub fn decode_heartbeat(frame: &MavFrame) -> (r: Option<Heartbeat>)
    ensures
        match r {
            Some(h) => {
                let p = frame@.payload;
                &&& frame.msgid == 0 && frame.payload_len >= 9
                &&& h.custom_mode == word_at(p, 0)
                &&& h.type_ == p[4]
                &&& h.autopilot == p[5]
                &&& h.base_mode == p[6]
                &&& h.system_status == p[7]
                &&& h.mavlink_version == p[8]
            },
            None => frame.msgid != 0 || frame.payload_len < 9,
        },
        r == heartbeat_of(frame@),
{
    if frame.msgid != 0 || frame.payload_len < 9 {
        return None;
    }
    let p: &[u8] = frame.payload();
    assert(p.len() >= 9);
    Some(
        Heartbeat {
            custom_mode: le_u32(p, 0),
            type_: p[4],
            autopilot: p[5],
            base_mode: p[6],
            system_status: p[7],
            mavlink_version: p[8],
        },
    )
}

/// Decodes an ATTITUDE frame into [`Attitude`].
pub fn decode_attitude(frame: &MavFrame) -> (r: Option<Attitude>)
    ensures
        match r {
            Some(a) => {
                let p = frame@.payload;
                &&& frame.msgid == 30 && frame.payload_len >= 28
                &&& a.time_boot_ms == word_at(p, 0)
                &&& a.roll == word_at(p, 4)
                &&& a.yaw == word_at(p, 8)
                &&& a.pitch == word_at(p, 12)
                &&& a.rollspeed == word_at(p, 16)
                &&& a.pitchspeed == word_at(p, 20)
                &&& a.yawspeed == word_at(p, 24)
            },
            None => frame.msgid != 30 || frame.payload_len < 28,
        },
        r == attitude_of(frame@),
{
    if frame.msgid != 30 || frame.payload_len < 28 {
        return None;
    }
    let p: &[u8] = frame.payload();
    Some(
        Attitude {
            time_boot_ms: le_u32(p, 0),
            roll: le_u32(p, 4),
            yaw: le_u32(p, 8),
            pitch: le_u32(p, 12),
            rollspeed: le_u32(p, 16),
            pitchspeed: le_u32(p, 20),
            yawspeed: le_u32(p, 24),
        },
    )
}

} // verus!
