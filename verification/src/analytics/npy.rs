//! Minimal NumPy `.npy` (v1.0) reader and writer.
//!
//! A file is a 6-byte magic, a 2-byte version, a 2-byte little-endian header
//! length, a padded dict of text, then raw little-endian tensor bytes.
use vstd::prelude::*;
use vstd::utf8::{
    decode_utf8, encode_utf8, encode_utf8_decode_utf8, encode_utf8_valid_utf8, valid_utf8,
};
use crate::bytes::{
    le, le_value, lemma_le_len, lemma_le_ranges, lemma_le_reads_back, push_le, push_slice, read_le,
    same_bytes,
};
use crate::num::decimal::lemma_decimal_digits;
use crate::runtime::wire::{push_words, words};
use crate::text::{
    after_plus, after_text, bytes_of, chars_of, decimal, find_char, first_at, is_digit, is_space,
    lemma_after_text_is, lemma_encode_joins, lemma_first_at_is, lemma_first_at, parse_unsigned,
    push_decimal, text_after, text_of, trim, trim_end, trim_start, trimmed, unsigned_up_to,
    utf8_chars,
};

verus! {

/// NumPy `.npy` magic prefix (`\x93NUMPY`).
pub const NPY_MAGIC: [u8; 6] = [0x93, 0x4e, 0x55, 0x4d, 0x50, 0x59];

/// Errors from `.npy` parsing.
#[derive(Debug, Clone, Copy, PartialEq, Eq, Structural)]
pub enum NpyError {
    /// Stream shorter than the 10-byte fixed prefix.
    TooShort,
    /// Magic bytes did not match.
    BadMagic,
    /// Declared header length would run past the buffer.
    BadHeaderLen,
    /// Header was not valid UTF-8 / dict.
    BadHeader,
}

/// The message of an error.
pub open spec fn npy_error_text(e: NpyError) -> Seq<char> {
    match e {
        NpyError::TooShort => "npy: stream too short for prefix"@,
        NpyError::BadMagic => "npy: bad magic (not a .npy file)"@,
        NpyError::BadHeaderLen => "npy: header length out of range"@,
        NpyError::BadHeader => "npy: malformed header dict"@,
    }
}

impl NpyError {
    /// The message of the error.
    pub fn message(self) -> (r: String)
        ensures
            r@ == npy_error_text(self),
    {
        match self {
            NpyError::TooShort => "npy: stream too short for prefix".to_owned(),
            NpyError::BadMagic => "npy: bad magic (not a .npy file)".to_owned(),
            NpyError::BadHeaderLen => "npy: header length out of range".to_owned(),
            NpyError::BadHeader => "npy: malformed header dict".to_owned(),
        }
    }
}

// --- Writing -----------------------------------------------------------------

/// The sizes of a shape, parted by a comma and a space.
pub open spec fn sizes_text(shape: Seq<usize>) -> Seq<char>
    decreases shape.len(),
{
    if shape.len() == 0 {
        Seq::empty()
    } else if shape.len() == 1 {
        decimal(shape[0] as nat)
    } else {
        decimal(shape[0] as nat) + ", "@ + sizes_text(shape.drop_first())
    }
}

/// What a tuple with the sizes of a shape holds between its brackets. A single
/// size is followed by a comma, without which it would be a number in brackets.
pub open spec fn shape_text(shape: Seq<usize>) -> Seq<char> {
    if shape.len() == 1 {
        decimal(shape[0] as nat) + ","@
    } else {
        sizes_text(shape)
    }
}

/// The dict that describes a tensor.
pub open spec fn dict_text(descr: Seq<char>, shape: Seq<usize>) -> Seq<char> {
    "{'descr': '"@ + descr + "', 'fortran_order': False, 'shape': ("@ + shape_text(shape)
        + "), }"@
}

/// How many spaces fill up a header of `n` bytes, so that with its line end and
/// the ten bytes before it a whole number of 64-byte blocks results.
pub open spec fn header_fill(n: nat) -> nat {
    ((53 - n) % 64) as nat
}

/// `n` spaces.
pub open spec fn spaces(n: nat) -> Seq<u8> {
    Seq::new(n, |i: int| 0x20u8)
}

/// The header: the dict, spaces, and a line end.
pub open spec fn header_bytes(dict: Seq<u8>) -> Seq<u8> {
    dict + spaces(header_fill(dict.len())) + seq![0x0au8]
}

/// The bytes of a file.
pub open spec fn npy_bytes(descr: Seq<char>, shape: Seq<usize>, data: Seq<u8>) -> Seq<u8> {
    let header = header_bytes(encode_utf8(dict_text(descr, shape)));
    NPY_MAGIC@ + seq![1u8, 0u8] + le(header.len() % 0x1_0000, 2) + header + data
}

fn push_sizes(out: &mut String, shape: &[usize], from: usize)
    requires
        from <= shape@.len(),
    ensures
        final(out)@ == old(out)@ + sizes_text(shape@.skip(from as int)),
    decreases shape@.len() - from,
{
    let ghost rest = shape@.skip(from as int);
    if from < shape.len() {
        push_decimal(out, shape[from] as u64);
        if from + 1 < shape.len() {
            out.append(", ");
            push_sizes(out, shape, from + 1);
            assert(rest.drop_first() =~= shape@.skip(from + 1));
        }
    }
    assert(out@ =~= old(out)@ + sizes_text(rest));
}

fn push_shape(out: &mut String, shape: &[usize])
    ensures
        final(out)@ == old(out)@ + shape_text(shape@),
{
    push_sizes(out, shape, 0);
    assert(shape@.skip(0) =~= shape@);
    if shape.len() == 1 {
        out.append(",");
    }
    assert(out@ =~= old(out)@ + shape_text(shape@));
}

/// Writes a tensor described by `descr` (e.g. `"<f4"`, `"<f8"`, `"<i8"`) and
/// `shape` with raw `data` bytes.
pub fn write_npy(descr: &str, shape: &[usize], data: &[u8]) -> (r: Vec<u8>)
    ensures
        r@ == npy_bytes(descr@, shape@, data@),
{
    let mut dict: String = "{'descr': '".to_owned();
    dict.append(descr);
    dict.append("', 'fortran_order': False, 'shape': (");
    push_shape(&mut dict, shape);
    dict.append("), }");
    assert(dict@ =~= dict_text(descr@, shape@));
    let mut header: Vec<u8> = bytes_of(dict.as_str());
    let ghost start = header@;
    // One byte more for the line end.
    let n: usize = header.len() % 64;
    let fill: usize = if n <= 53 {
        53 - n
    } else {
        117 - n
    };
    let mut i: usize = 0;
    while i < fill
        invariant
            i <= fill,
            header@ == start + spaces(i as nat),
        decreases fill - i,
    {
        header.push(0x20);
        assert(header@ =~= start + spaces((i + 1) as nat));
        i = i + 1;
    }
    header.push(0x0a);
    assert(header@ =~= header_bytes(start));

    let mut out: Vec<u8> = Vec::new();
    push_slice(&mut out, NPY_MAGIC.as_slice());
    out.push(1);
    out.push(0);
    push_le(&mut out, (header.len() % 0x1_0000) as u64, 2);
    out.append(&mut header);
    push_slice(&mut out, data);
    assert(out@ =~= npy_bytes(descr@, shape@, data@));
    out
}

/// The bytes of several 64-bit words.
pub open spec fn long_words(v: Seq<u64>) -> Seq<u8>
    decreases v.len(),
{
    if v.len() == 0 {
        Seq::empty()
    } else {
        long_words(v.drop_last()) + le(v.last() as nat, 8)
    }
}

/// Writes a tensor of single-precision bit patterns, as `<f4`.
pub fn f32_npy(shape: &[usize], data: &[u32]) -> (r: Vec<u8>)
    ensures
        r@ == npy_bytes("<f4"@, shape@, words(data@)),
{
    let mut bytes: Vec<u8> = Vec::new();
    push_words(&mut bytes, data);
    assert(bytes@ =~= words(data@));
    write_npy("<f4", shape, bytes.as_slice())
}

/// Writes a tensor of double-precision bit patterns, as `<f8`.
pub fn f64_npy(shape: &[usize], data: &[u64]) -> (r: Vec<u8>)
    ensures
        r@ == npy_bytes("<f8"@, shape@, long_words(data@)),
{
    let mut bytes: Vec<u8> = Vec::new();
    let mut i: usize = 0;
    proof {
        assert(data@.take(0) =~= Seq::<u64>::empty());
    }
    while i < data.len()
        invariant
            i <= data@.len(),
            bytes@ == long_words(data@.take(i as int)),
        decreases data@.len() - i,
    {
        push_le(&mut bytes, data[i], 8);
        assert(data@.take(i + 1).drop_last() =~= data@.take(i as int));
        i = i + 1;
    }
    proof {
        assert(data@.take(i as int) =~= data@);
    }
    write_npy("<f8", shape, bytes.as_slice())
}

/// The header of a file always ends on a 64-byte boundary.
pub proof fn law_header_is_aligned(dict: Seq<u8>)
    ensures
        (10 + header_bytes(dict).len()) % 64 == 0,
        header_bytes(dict).len() >= 54,
        header_bytes(dict).len() < dict.len() + 65,
{
}

// --- Reading -----------------------------------------------------------------

/// A parsed view into a `.npy` buffer (borrows the underlying bytes).
#[derive(Debug)]
pub struct NpyView<'a> {
    /// Dtype description string (e.g. `"<f4"`).
    pub descr: String,
    /// Tensor shape.
    pub shape: Vec<usize>,
    /// Raw tensor bytes (little-endian, row-major).
    pub data: &'a [u8],
}

/// What stands in `s` after its first `n` single quotes.
pub open spec fn after_quotes(s: Seq<char>, n: nat) -> Option<Seq<char>>
    decreases n,
{
    if n == 0 {
        Some(s)
    } else {
        match first_at(s, '\'') {
            Some(i) => after_quotes(s.skip(i + 1), (n - 1) as nat),
            None => None,
        }
    }
}

/// What stands in `s` before its first single quote, or all of it.
pub open spec fn before_quote(s: Seq<char>) -> Seq<char> {
    match first_at(s, '\'') {
        Some(i) => s.take(i),
        None => s,
    }
}

/// The dtype of a header: what stands after its third single quote.
pub open spec fn descr_in(header: Seq<char>) -> Option<Seq<char>> {
    match after_quotes(header, 3) {
        Some(s) => Some(before_quote(s)),
        None => None,
    }
}

/// Numbers parted by commas, with white space round each. A comma may follow the
/// last.
pub open spec fn number_list(s: Seq<char>) -> Option<Seq<usize>>
    decreases s.len(),
    via number_list_decreases
{
    match first_at(s, ',') {
        None => match unsigned_up_to(trim(s), usize::MAX as nat) {
            Some(n) => Some(seq![n as usize]),
            None => None,
        },
        Some(i) => match unsigned_up_to(trim(s.take(i)), usize::MAX as nat) {
            Some(n) => if trim(s.skip(i + 1)).len() == 0 {
                Some(seq![n as usize])
            } else {
                match number_list(s.skip(i + 1)) {
                    Some(rest) => Some(seq![n as usize] + rest),
                    None => None,
                }
            },
            None => None,
        },
    }
}

#[via_fn]
proof fn number_list_decreases(s: Seq<char>) {
    lemma_first_at(s, ',');
}

/// The shape of a header: the numbers between the brackets after its first
/// `'shape': (`.
pub open spec fn shape_in(header: Seq<char>) -> Option<Seq<usize>> {
    match after_text(header, "'shape': ("@) {
        Some(s) => match first_at(s, ')') {
            Some(i) => if trim(s.take(i)).len() == 0 {
                Some(Seq::empty())
            } else {
                number_list(s.take(i))
            },
            None => None,
        },
        None => None,
    }
}

/// What a buffer reads as: dtype, shape and data.
pub open spec fn npy_in(bytes: Seq<u8>) -> Result<(Seq<char>, Seq<usize>, Seq<u8>), NpyError> {
    if bytes.len() < 10 {
        Err(NpyError::TooShort)
    } else if bytes.take(6) != NPY_MAGIC@ {
        Err(NpyError::BadMagic)
    } else {
        let end = 10 + le_value(bytes.subrange(8, 10));
        if end > bytes.len() {
            Err(NpyError::BadHeaderLen)
        } else {
            let header = bytes.subrange(10, end as int);
            let text = decode_utf8(header);
            if !valid_utf8(header) {
                Err(NpyError::BadHeader)
            } else {
                match (descr_in(text), shape_in(text)) {
                    (Some(descr), Some(shape)) => Ok((descr, shape, bytes.skip(end as int))),
                    _ => Err(NpyError::BadHeader),
                }
            }
        }
    }
}

fn descr_exec(header: &[char]) -> (r: Option<String>)
    ensures
        match r {
            Some(t) => descr_in(header@) == Some(t@),
            None => descr_in(header@) is None,
        },
{
    let mut rest: &[char] = header;
    let mut n: usize = 3;
    while n > 0
        invariant
            n <= 3,
            after_quotes(header@, 3) == after_quotes(rest@, n as nat),
        decreases n,
    {
        match find_char(rest, '\'') {
            Some(i) => {
                let next: &[char] = vstd::slice::slice_subrange(rest, i + 1, rest.len());
                assert(next@ =~= rest@.skip(i + 1));
                rest = next;
            },
            None => {
                return None;
            },
        }
        n = n - 1;
    }
    match find_char(rest, '\'') {
        Some(i) => Some(text_of(vstd::slice::slice_subrange(rest, 0, i))),
        None => Some(text_of(rest)),
    }
}

fn number_list_exec(s: &[char]) -> (r: Option<Vec<usize>>)
    ensures
        match r {
            Some(v) => number_list(s@) == Some(v@),
            None => number_list(s@) is None,
        },
{
    let mut out: Vec<usize> = Vec::new();
    let mut rest: &[char] = s;
    proof {
        if let Some(all) = number_list(s@) {
            assert(Seq::<usize>::empty() + all =~= all);
        }
    }
    loop
        invariant
            number_list(s@) is Some <==> number_list(rest@) is Some,
            number_list(s@) is Some ==> number_list(s@)->0 == out@ + number_list(rest@)->0,
        decreases rest@.len(),
    {
        let comma: Option<usize> = find_char(rest, ',');
        let head: &[char] = match comma {
            Some(i) => vstd::slice::slice_subrange(rest, 0, i),
            None => rest,
        };
        let n: u64 = match parse_unsigned(trimmed(head), usize::MAX as u64) {
            Some(n) => n,
            None => {
                return None;
            },
        };
        let ghost before = out@;
        out.push(n as usize);
        match comma {
            Some(i) => {
                let next: &[char] = vstd::slice::slice_subrange(rest, i + 1, rest.len());
                proof {
                    assert(head@ =~= rest@.take(i as int));
                    assert(next@ =~= rest@.skip(i + 1));
                    if let Some(more) = number_list(next@) {
                        assert(before + (seq![n as usize] + more) =~= out@ + more);
                    }
                    assert(before + seq![n as usize] =~= out@);
                }
                if trimmed(next).len() == 0 {
                    return Some(out);
                }
                rest = next;
            },
            None => {
                assert(before + seq![n as usize] =~= out@);
                return Some(out);
            },
        }
    }
}

fn shape_exec(header: &[char]) -> (r: Option<Vec<usize>>)
    ensures
        match r {
            Some(v) => shape_in(header@) == Some(v@),
            None => shape_in(header@) is None,
        },
{
    let mark: Vec<char> = chars_of("'shape': (");
    let rest: &[char] = match text_after(header, mark.as_slice()) {
        Some(t) => t,
        None => {
            return None;
        },
    };
    let end: usize = match find_char(rest, ')') {
        Some(i) => i,
        None => {
            return None;
        },
    };
    let part: &[char] = vstd::slice::slice_subrange(rest, 0, end);
    assert(part@ =~= rest@.take(end as int));
    if trimmed(part).len() == 0 {
        let none: Vec<usize> = Vec::new();
        assert(none@ =~= Seq::<usize>::empty());
        return Some(none);
    }
    number_list_exec(part)
}

/// Parses a `.npy` buffer into its metadata and a borrowed data slice.
pub fn read_npy<'a>(bytes: &'a [u8]) -> (r: Result<NpyView<'a>, NpyError>)
    ensures
        match r {
            Ok(v) => npy_in(bytes@) == Ok::<(Seq<char>, Seq<usize>, Seq<u8>), NpyError>(
                (v.descr@, v.shape@, v.data@),
            ),
            Err(e) => npy_in(bytes@) == Err::<(Seq<char>, Seq<usize>, Seq<u8>), NpyError>(e),
        },
{
    if bytes.len() < 10 {
        return Err(NpyError::TooShort);
    }
    let front: &[u8] = vstd::slice::slice_subrange(bytes, 0, 6);
    assert(front@ =~= bytes@.take(6));
    if !same_bytes(front, NPY_MAGIC.as_slice()) {
        return Err(NpyError::BadMagic);
    }
    let hl: u64 = read_le(bytes, 8, 2);
    proof {
        lemma_le_ranges();
    }
    if hl > (bytes.len() - 10) as u64 {
        return Err(NpyError::BadHeaderLen);
    }
    let end: usize = 10 + hl as usize;
    let header: &[u8] = vstd::slice::slice_subrange(bytes, 10, end);
    let text: Vec<char> = match utf8_chars(header) {
        Some(t) => t,
        None => {
            return Err(NpyError::BadHeader);
        },
    };
    let descr: String = match descr_exec(text.as_slice()) {
        Some(d) => d,
        None => {
            return Err(NpyError::BadHeader);
        },
    };
    let shape: Vec<usize> = match shape_exec(text.as_slice()) {
        Some(s) => s,
        None => {
            return Err(NpyError::BadHeader);
        },
    };
    let data: &'a [u8] = vstd::slice::slice_subrange(bytes, end, bytes.len());
    assert(data@ =~= bytes@.skip(end as int));
    Ok(NpyView { descr, shape, data })
}

// --- Reading what was written --------------------------------------------------

proof fn lemma_number_trims(lead: Seq<char>, n: nat)
    requires
        lead == Seq::<char>::empty() || lead == seq![' '],
        n <= usize::MAX,
    ensures
        trim(lead + decimal(n)) == decimal(n),
        unsigned_up_to(decimal(n), usize::MAX as nat) == Some(n),
{
    let d = decimal(n);
    lemma_decimal_digits(n);
    assert(is_digit(d[0]));
    assert(is_digit(d.last()));
    assert(trim_start(d) == d);
    assert(trim_end(d) == d);
    if lead.len() == 0 {
        assert(lead + d =~= d);
    } else {
        assert((lead + d).drop_first() =~= d);
        assert(is_space((lead + d)[0]));
    }
    assert(after_plus(d) == d);
}

proof fn lemma_sizes_chars(shape: Seq<usize>)
    ensures
        forall|i: int|
            0 <= i < sizes_text(shape).len() ==> {
                let c = #[trigger] sizes_text(shape)[i];
                is_digit(c) || c == ',' || c == ' '
            },
    decreases shape.len(),
{
    if shape.len() > 0 {
        lemma_decimal_digits(shape[0] as nat);
        if shape.len() > 1 {
            reveal_strlit(", ");
            lemma_sizes_chars(shape.drop_first());
            let d = decimal(shape[0] as nat);
            let t = sizes_text(shape);
            let rest = sizes_text(shape.drop_first());
            assert forall|i: int| 0 <= i < t.len() implies ({
                let c = #[trigger] t[i];
                is_digit(c) || c == ',' || c == ' '
            }) by {
                if i < d.len() {
                    assert(t[i] == d[i]);
                } else if i >= d.len() + 2 {
                    assert(t[i] == rest[i - d.len() - 2]);
                }
            }
        }
    }
}

proof fn lemma_shape_chars(shape: Seq<usize>)
    ensures
        forall|i: int|
            0 <= i < shape_text(shape).len() ==> {
                let c = #[trigger] shape_text(shape)[i];
                is_digit(c) || c == ',' || c == ' '
            },
{
    lemma_sizes_chars(shape);
    reveal_strlit(",");
    if shape.len() == 1 {
        let t = shape_text(shape);
        let u = sizes_text(shape);
        assert forall|i: int| 0 <= i < t.len() implies ({
            let c = #[trigger] t[i];
            is_digit(c) || c == ',' || c == ' '
        }) by {
            if i < u.len() {
                assert(t[i] == u[i]);
            }
        }
    }
}

proof fn lemma_numbers_read_back(lead: Seq<char>, shape: Seq<usize>)
    requires
        lead == Seq::<char>::empty() || lead == seq![' '],
        shape.len() > 0,
    ensures
        number_list(lead + sizes_text(shape)) == Some(shape),
        trim(lead + sizes_text(shape)).len() > 0,
    decreases shape.len(),
{
    let n = shape[0] as nat;
    let d = decimal(n);
    let s = lead + sizes_text(shape);
    lemma_number_trims(lead, n);
    lemma_decimal_digits(n);
    assert(is_digit(d[0]));
    if shape.len() == 1 {
        assert(s =~= lead + d);
        lemma_first_at(s, ',');
        assert(forall|j: int|
            lead.len() <= j < s.len() ==> is_digit(#[trigger] d[j - lead.len()]) && s[j] == d[j
                - lead.len()]);
        assert(first_at(s, ',') is None);
        assert(seq![n as usize] =~= shape);
    } else {
        reveal_strlit(", ");
        let rest = shape.drop_first();
        let i = (lead.len() + d.len()) as int;
        assert forall|j: int| 0 <= j < i implies #[trigger] s[j] != ',' by {
            if j >= lead.len() {
                assert(s[j] == d[j - lead.len()]);
            }
        }
        assert(s[i] == ',');
        lemma_first_at_is(s, ',', i);
        assert(s.take(i) =~= lead + d);
        assert(s.skip(i + 1) =~= seq![' '] + sizes_text(rest));
        lemma_numbers_read_back(seq![' '], rest);
        assert(trim(s.skip(i + 1)).len() > 0);
        assert(seq![n as usize] + rest =~= shape);
    }
    // The text holds a digit, which is no white space.
    assert(trim(s).len() > 0) by {
        let k = lead.len() as int;
        assert(s[k] == d[0]);
        if lead.len() > 0 {
            assert(s.drop_first()[0] == d[0]);
            assert(trim_start(s.drop_first()) == s.drop_first());
            assert(trim_start(s) == s.skip(k));
        } else {
            assert(trim_start(s) == s);
            assert(s.skip(0) =~= s);
        }
        let t = s.skip(k);
        assert(t[0] == d[0]);
        lemma_trim_end_keeps(t);
    }
}

proof fn lemma_shape_reads_back(shape: Seq<usize>)
    requires
        shape.len() > 0,
    ensures
        number_list(shape_text(shape)) == Some(shape),
        trim(shape_text(shape)).len() > 0,
{
    let none = Seq::<char>::empty();
    if shape.len() == 1 {
        let n = shape[0] as nat;
        let d = decimal(n);
        let s = shape_text(shape);
        reveal_strlit(",");
        lemma_number_trims(none, n);
        lemma_decimal_digits(n);
        assert(none + d =~= d);
        assert forall|j: int| 0 <= j < d.len() implies #[trigger] s[j] != ',' by {
            assert(s[j] == d[j] && is_digit(d[j]));
        }
        lemma_first_at_is(s, ',', d.len() as int);
        assert(s.take(d.len() as int) =~= d);
        assert(s.skip(d.len() as int + 1) =~= none);
        assert(trim(none).len() == 0);
        assert(seq![n as usize] =~= shape);
        assert(s[0] == d[0] && is_digit(d[0]));
        assert(trim_start(s) == s);
        lemma_trim_end_keeps(s);
    } else {
        lemma_numbers_read_back(none, shape);
        assert(none + sizes_text(shape) =~= shape_text(shape));
    }
}

proof fn lemma_trim_end_keeps(t: Seq<char>)
    requires
        t.len() > 0,
        !is_space(t[0]),
    ensures
        trim_end(t).len() > 0,
    decreases t.len(),
{
    if is_space(t.last()) {
        assert(t.len() > 1);
        assert(t.drop_last()[0] == t[0]);
        lemma_trim_end_keeps(t.drop_last());
    }
}

proof fn lemma_dict_descr(descr: Seq<char>, shape: Seq<usize>, more: Seq<char>)
    requires
        forall|i: int| 0 <= i < descr.len() ==> #[trigger] descr[i] != '\'',
    ensures
        descr_in(dict_text(descr, shape) + more) == Some(descr),
{
    reveal_strlit("{'descr': '");
    reveal_strlit("', 'fortran_order': False, 'shape': (");
    reveal_strlit("), }");
    let pre = "{'descr': '"@;
    let mid = "', 'fortran_order': False, 'shape': ("@;
    let h = dict_text(descr, shape) + more;
    let d = descr.len() as int;
    let tail = shape_text(shape) + "), }"@ + more;
    assert(h =~= pre + descr + mid + tail);
    lemma_first_at_is(h, '\'', 1);
    let h1 = h.skip(2);
    lemma_first_at_is(h1, '\'', 5);
    let h2 = h1.skip(6);
    assert(h2 =~= h.skip(8));
    lemma_first_at_is(h2, '\'', 2);
    let h3 = h2.skip(3);
    assert(h3 =~= h.skip(11));
    assert(h3 =~= descr + mid + tail);
    assert(h3[d] == mid[0]);
    lemma_first_at_is(h3, '\'', d);
    assert(h3.take(d) =~= descr);
    assert(after_quotes(h3, 0) == Some(h3));
    assert(after_quotes(h2, 1) == Some(h3));
    assert(after_quotes(h1, 2) == Some(h3));
    assert(after_quotes(h, 3) == Some(h3));
}

/// Where the shape is announced.
#[verifier::spinoff_prover]
proof fn lemma_shape_mark(descr: Seq<char>, shape: Seq<usize>, more: Seq<char>)
    requires
        forall|i: int| 0 <= i < descr.len() ==> #[trigger] descr[i] != '\'',
    ensures
        ({
            let h = dict_text(descr, shape) + more;
            let m = 38 + descr.len() as int;
            &&& "'shape': ("@.len() == 10
            &&& m + 10 <= h.len()
            &&& "'shape': ("@.is_prefix_of(h.skip(m))
            &&& forall|j: int| 0 <= j < m ==> !"'shape': ("@.is_prefix_of(#[trigger] h.skip(j))
            &&& h.skip(m + 10) == shape_text(shape) + "), }"@ + more
        }),
{
    reveal_strlit("{'descr': '");
    reveal_strlit("', 'fortran_order': False, 'shape': (");
    reveal_strlit("), }");
    reveal_strlit("'shape': (");
    let pre = "{'descr': '"@;
    let mid = "', 'fortran_order': False, 'shape': ("@;
    let mark = "'shape': ("@;
    let h = dict_text(descr, shape) + more;
    let d = descr.len() as int;
    let tail = shape_text(shape) + "), }"@ + more;
    assert(h =~= pre + descr + mid + tail);
    let m = 38 + d;
    assert forall|j: int| 0 <= j < m implies !mark.is_prefix_of(#[trigger] h.skip(j)) by {
        let t = h.skip(j);
        if mark.is_prefix_of(t) {
            assert(t[0] == mark[0] && t[1] == mark[1] && t[6] == mark[6] && t[7] == mark[7]);
            assert(t[0] == h[j] && t[1] == h[j + 1] && t[6] == h[j + 6] && t[7] == h[j + 7]);
            if j < 11 {
                assert(h[j] == pre[j]);
                assert(j == 1 || j == 7 || j == 10);
                if j == 10 {
                    if d < 6 {
                        assert(t[1 + d] == mark[1 + d]);
                        assert(t[1 + d] == h[11 + d]);
                        assert(h[11 + d] == mid[0]);
                        assert(d == 5);
                        assert(h[12 + d] == mid[1]);
                    } else {
                        assert(h[16] == descr[5]);
                    }
                } else {
                    assert(h[j + 1] == pre[j + 1]);
                }
            } else if j < 11 + d {
                assert(h[j] == descr[j - 11]);
            } else {
                assert(h[j] == mid[j - 11 - d]);
                assert(h[j + 1] == mid[j + 1 - 11 - d]);
            }
            assert(false);
        }
    }
    assert(mark.is_prefix_of(h.skip(m))) by {
        assert forall|i: int| 0 <= i < mark.len() implies mark[i] == h.skip(m)[i] by {
            assert(h.skip(m)[i] == mid[27 + i]);
        }
    }
    assert(h.skip(m + 10) =~= tail);
}

proof fn lemma_dict_reads_back(descr: Seq<char>, shape: Seq<usize>, more: Seq<char>)
    requires
        forall|i: int| 0 <= i < descr.len() ==> #[trigger] descr[i] != '\'',
    ensures
        descr_in(dict_text(descr, shape) + more) == Some(descr),
        shape_in(dict_text(descr, shape) + more) == Some(shape),
{
    lemma_dict_descr(descr, shape, more);
    lemma_shape_mark(descr, shape, more);
    reveal_strlit("), }");
    let mark = "'shape': ("@;
    let h = dict_text(descr, shape) + more;
    let m = 38 + descr.len() as int;
    let tail = shape_text(shape) + "), }"@ + more;
    lemma_after_text_is(h, mark, m);
    let s = h.skip(m + 10);
    assert(s =~= tail);
    let k = shape_text(shape).len() as int;
    lemma_shape_chars(shape);
    assert forall|j: int| 0 <= j < k implies #[trigger] s[j] != ')' by {
        assert(s[j] == shape_text(shape)[j]);
    }
    assert(s[k] == ')');
    lemma_first_at_is(s, ')', k);
    assert(s.take(k) =~= shape_text(shape));
    if shape.len() == 0 {
        assert(s.take(k) =~= Seq::<char>::empty());
        assert(trim(s.take(k)).len() == 0);
        assert(shape =~= Seq::<usize>::empty());
    } else {
        lemma_shape_reads_back(shape);
    }
}

/// The text of `n` spaces and a line end.
spec fn fill_text(n: nat) -> Seq<char> {
    Seq::new(n, |i: int| ' ').push('\n')
}

proof fn lemma_fill_bytes(n: nat)
    ensures
        encode_utf8(fill_text(n)) == spaces(n) + seq![0x0au8],
    decreases n,
{
    let t = fill_text(n);
    vstd::utf8::is_ascii_chars_encode_utf8(t);
    assert(encode_utf8(t) =~= spaces(n) + seq![0x0au8]);
}

/// Reading what was written gives the dtype, the shape and the data back, for
/// every dtype without a single quote whose header length fits its field.
pub proof fn law_npy_reads_back(descr: Seq<char>, shape: Seq<usize>, data: Seq<u8>)
    requires
        forall|i: int| 0 <= i < descr.len() ==> #[trigger] descr[i] != '\'',
        header_bytes(encode_utf8(dict_text(descr, shape))).len() <= 0xffff,
    ensures
        npy_in(npy_bytes(descr, shape, data)) == Ok::<(Seq<char>, Seq<usize>, Seq<u8>), NpyError>(
            (descr, shape, data),
        ),
{
    let text = dict_text(descr, shape);
    let dict = encode_utf8(text);
    let header = header_bytes(dict);
    let b = npy_bytes(descr, shape, data);
    let n = header_fill(dict.len());
    let field = le(header.len() % 0x1_0000, 2);
    lemma_le_ranges();
    lemma_le_len(header.len() % 0x1_0000, 2);
    lemma_le_reads_back(header.len(), 2);
    assert(b.take(6) =~= NPY_MAGIC@);
    assert(b.subrange(8, 10) =~= field);
    let end = 10 + header.len();
    assert(b.subrange(10, end as int) =~= header);
    assert(b.skip(end as int) =~= data);
    let all = text + fill_text(n);
    lemma_fill_bytes(n);
    lemma_encode_joins(text, fill_text(n));
    assert(header =~= encode_utf8(all));
    encode_utf8_valid_utf8(all);
    encode_utf8_decode_utf8(all);
    lemma_dict_reads_back(descr, shape, fill_text(n));
}

/// A `.npy` stream starts with its magic text, the version 1.0 and the length of
/// its header, lowest byte first. The header ends in a line end on a multiple of
/// 64 bytes, and the data follows it as it is.
pub proof fn law_npy_layout(descr: Seq<char>, shape: Seq<usize>, data: Seq<u8>)
    requires
        header_bytes(encode_utf8(dict_text(descr, shape))).len() <= 0xffff,
    ensures
        ({
            let b = npy_bytes(descr, shape, data);
            let n = b[8] + 256 * b[9];
            &&& b.take(6) == seq![0x93u8, 0x4e, 0x55, 0x4d, 0x50, 0x59]
            &&& b[6] == 1 && b[7] == 0
            &&& (10 + n) % 64 == 0
            &&& b.len() == 10 + n + data.len()
            &&& b[9 + n] == 0x0a
            &&& b.skip(10 + n) == data
            &&& encode_utf8(dict_text(descr, shape)).is_prefix_of(b.skip(10))
        }),
{
    let dict = encode_utf8(dict_text(descr, shape));
    let header = header_bytes(dict);
    law_header_is_aligned(dict);
    reveal_with_fuel(le, 3);
    lemma_le_len(header.len(), 2);
    let b = npy_bytes(descr, shape, data);
    let n = b[8] + 256 * b[9];
    assert(NPY_MAGIC@ =~= seq![0x93u8, 0x4e, 0x55, 0x4d, 0x50, 0x59]);
    assert(b.take(6) =~= NPY_MAGIC@);
    assert(b[8] == le(header.len(), 2)[0] && b[9] == le(header.len(), 2)[1]);
    assert(n == header.len());
    assert(b.skip(10 + n) =~= data);
    assert(b[9 + n] == header[n - 1]);
    assert(dict =~= b.skip(10).subrange(0, dict.len() as int));
}

/// The header gives the type of the numbers, that rows come first, and the shape in
/// brackets, its sizes in order and parted by commas.
pub proof fn law_header_describes_the_data(descr: Seq<char>, shape: Seq<usize>, n: usize)
    ensures
        ("{'descr': '"@ + descr + "', 'fortran_order': False, 'shape': ("@).is_prefix_of(
            dict_text(descr, shape),
        ),
        (shape_text(shape) + "), }"@).is_suffix_of(dict_text(descr, shape)),
        shape_text(seq![n]) == decimal(n as nat) + ","@,
        shape.len() > 0 ==> sizes_text(seq![n] + shape) == decimal(n as nat) + ", "@ + sizes_text(
            shape,
        ),
        shape.len() != 1 ==> shape_text(shape) == sizes_text(shape),
{
    let t = dict_text(descr, shape);
    let start = "{'descr': '"@ + descr + "', 'fortran_order': False, 'shape': ("@;
    let end = shape_text(shape) + "), }"@;
    assert(start =~= t.subrange(0, start.len() as int));
    assert(end =~= t.subrange(t.len() - end.len(), t.len() as int));
    let more = seq![n] + shape;
    assert(more[0] == n);
    assert(more.drop_first() =~= shape);
}

} // verus!
