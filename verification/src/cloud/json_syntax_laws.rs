//! The forms that strings and numbers have in JSON text.
use vstd::prelude::*;
use vstd::arithmetic::div_mod::lemma_div_multiples_vanish;
use vstd::arithmetic::power2::{lemma_pow2_pos, pow2};
use crate::cloud::json::{
    array_at, as_uint, blank_end, chars_at, escaped, escaped_char, fields_at, hex_number, hex_value,
    items_at, number_text, object_at, parse_result, string_at, string_text, text, uint_value,
    value_at, Value,
};
use crate::num::binary::{double_as_u64, nearest, whole_part, Width};
use crate::num::integer_laws::law_small_integers_are_exact;
use crate::text::decimal;

verus! {

/// The short form of an escaped character: the letter behind the backslash.
pub open spec fn short_escape(letter: char) -> Option<char> {
    if letter == '"' || letter == '\\' || letter == '/' {
        Some(letter)
    } else if letter == 'b' {
        Some(8u8 as char)
    } else if letter == 't' {
        Some(9u8 as char)
    } else if letter == 'n' {
        Some(10u8 as char)
    } else if letter == 'f' {
        Some(12u8 as char)
    } else if letter == 'r' {
        Some(13u8 as char)
    } else {
        None
    }
}

/// What a string is written as: itself in quotes, where every quote, backslash
/// and control character is escaped, by a letter that stands for it or by its
/// four hexadecimal digits, and every other character stands for itself.
pub proof fn law_strings_are_escaped(c: char, a: Seq<char>, b: Seq<char>)
    ensures
        string_text(a) == seq!['"'] + escaped(a) + seq!['"'],
        escaped(a + b) == escaped(a) + escaped(b),
        escaped(seq![c]) == escaped_char(c),
        c != '"' && c != '\\' && c as u32 >= 0x20 ==> escaped_char(c) == seq![c],
        c == '"' || c == '\\' || (c as u32) < 0x20 ==> {
            let e = escaped_char(c);
            &&& e[0] == '\\'
            &&& {
                ||| e.len() == 2 && short_escape(e[1]) == Some(c)
                ||| {
                    &&& e.len() == 6
                    &&& e[1] == 'u' && e[2] == '0' && e[3] == '0'
                    &&& hex_value(e[4] as u8) matches Some(high)
                    &&& hex_value(e[5] as u8) matches Some(low)
                    &&& c as u32 == 16 * high + low
                }
            }
        },
    decreases a.len(),
{
    assert(seq![c].drop_first() =~= Seq::<char>::empty());
    assert(escaped(seq![c].drop_first()) =~= Seq::<char>::empty());
    assert(escaped(seq![c]) =~= escaped_char(c));
    if a.len() == 0 {
        assert(a + b =~= b);
        assert(escaped(a) + escaped(b) =~= escaped(b));
    } else {
        law_strings_are_escaped(c, a.drop_first(), b);
        assert((a + b).drop_first() =~= a.drop_first() + b);
        assert((a + b)[0] == a[0]);
        assert(escaped(a + b) =~= escaped(a) + escaped(b));
    }
}

/// A backslash and a letter are read as the character that the letter stands for,
/// and a backslash, `u` and four hexadecimal digits as the character with that
/// code. What follows is read on from there.
pub proof fn law_escapes_are_read(b: Seq<u8>, i: int)
    requires
        0 <= i,
        i + 1 < b.len(),
        b[i] == 0x5c,
    ensures
        b[i + 1] < 0x80 && short_escape(b[i + 1] as char) is Some ==> match chars_at(b, i + 2) {
            Ok((rest, end)) => chars_at(b, i) == Ok::<(Seq<char>, int), Seq<char>>(
                (seq![short_escape(b[i + 1] as char)->0] + rest, end),
            ),
            Err(e) => chars_at(b, i) == Err::<(Seq<char>, int), Seq<char>>(e),
        },
        b[i + 1] == 0x75 && i + 6 <= b.len() ==> match (
            hex_value(b[i + 2]),
            hex_value(b[i + 3]),
            hex_value(b[i + 4]),
            hex_value(b[i + 5]),
        ) {
            (Some(p), Some(q), Some(r), Some(s)) => {
                let code = 0x1000 * p + 0x100 * q + 0x10 * r + s;
                if code < 0xd800 || code > 0xdfff {
                    match chars_at(b, i + 6) {
                        Ok((rest, end)) => chars_at(b, i) == Ok::<(Seq<char>, int), Seq<char>>(
                            (seq![code as u32 as char] + rest, end),
                        ),
                        Err(e) => chars_at(b, i) == Err::<(Seq<char>, int), Seq<char>>(e),
                    }
                } else {
                    chars_at(b, i) is Err
                }
            },
            _ => true,
        },
        b[i + 1] < 0x80 && short_escape(b[i + 1] as char) is None && b[i + 1] != 0x75 ==> chars_at(
            b,
            i,
        ) is Err,
{
    if b[i + 1] == 0x75 && i + 6 <= b.len() {
        let four = b.subrange(i + 2, i + 6);
        if hex_value(four[0]) is Some && hex_value(four[1]) is Some && hex_value(four[2]) is Some
            && hex_value(four[3]) is Some {
            lemma_four_digits(four);
        }
    }
}

proof fn lemma_four_digits(four: Seq<u8>)
    requires
        four.len() == 4,
        hex_value(four[0]) is Some,
        hex_value(four[1]) is Some,
        hex_value(four[2]) is Some,
        hex_value(four[3]) is Some,
    ensures
        hex_number(four) == Some(
            (0x1000 * hex_value(four[0])->0 + 0x100 * hex_value(four[1])->0 + 0x10 * hex_value(
                four[2],
            )->0 + hex_value(four[3])->0) as nat,
        ),
{
    reveal_with_fuel(hex_number, 5);
    let three = four.drop_last();
    let two = three.drop_last();
    let one = two.drop_last();
    assert(one.drop_last().len() == 0);
    assert(one.last() == four[0] && two.last() == four[1] && three.last() == four[2]);
}

/// A hexadecimal digit is worth its place in `0123456789abcdef`, in either case.
pub proof fn law_hex_digits(c: u8)
    ensures
        0x30 <= c <= 0x39 ==> hex_value(c) == Some((c - 0x30) as nat),
        0x61 <= c <= 0x66 ==> hex_value(c) == Some((c - 0x61 + 10) as nat) && hex_value(
            (c - 0x20) as u8,
        ) == hex_value(c),
        hex_value(c) matches Some(d) ==> d < 16,
{
}

/// Of several fields with one key the first counts, and a key that no field has
/// is not found.
pub proof fn law_first_field_counts(f: Seq<(Seq<char>, Value)>, key: Seq<char>, i: int)
    requires
        0 <= i <= f.len(),
        forall|j: int| 0 <= j < i ==> (#[trigger] f[j]).0 != key,
        i < f.len() ==> f[i].0 == key,
    ensures
        i < f.len() ==> Value::Obj(f).field(key) == Some(f[i].1),
        i == f.len() ==> Value::Obj(f).field(key) is None,
    decreases f.len(),
{
    if f.len() > 0 && i > 0 {
        let rest = f.drop_first();
        assert(f[0].0 != key);
        assert forall|j: int| 0 <= j < i - 1 implies (#[trigger] rest[j]).0 != key by {
            assert(rest[j] == f[j + 1]);
        }
        law_first_field_counts(rest, key, i - 1);
    }
}

/// An unsigned integer is written as its decimal digits, without point or
/// exponent, as long as it has fifteen of them at most.
pub proof fn law_integers_are_written_plainly(n: u64)
    requires
        n < 1_000_000_000_000_000,
    ensures
        text(uint_value(n)) == decimal(n as nat),
{
    let w = Width::Double;
    law_small_integers_are_exact(w, n as nat);
    let b = nearest(w, n as nat, 1);
    lemma_pow2_pos(w.scale());
    assert(n as nat * pow2(w.scale()) == pow2(w.scale()) * n as nat) by (nonlinear_arith);
    lemma_div_multiples_vanish(n as int, pow2(w.scale()) as int);
    assert(whole_part(w, b) == n);
    assert(number_text(b as u64) == decimal(n as nat));
}

/// Blanks before a value are passed over: spaces, tabs and the two line ends, and
/// nothing else.
pub proof fn law_blanks_are_passed_over(b: Seq<u8>, i: int)
    requires
        0 <= i < b.len(),
    ensures
        b[i] == 0x20 || b[i] == 0x09 || b[i] == 0x0a || b[i] == 0x0d ==> value_at(b, i)
            == value_at(b, i + 1) && blank_end(b, i) == blank_end(b, i + 1),
        b[i] != 0x20 && b[i] != 0x09 && b[i] != 0x0a && b[i] != 0x0d ==> blank_end(b, i) == i,
{
    reveal_with_fuel(value_at, 2);
    reveal_with_fuel(blank_end, 2);
}

/// The first byte of a value decides what it is: a string, an object, an array, a
/// truth value, null or a number; with any other byte there is no value.
pub proof fn law_first_byte_decides(b: Seq<u8>, i: int)
    requires
        0 <= i < b.len(),
        blank_end(b, i) == i,
    ensures
        value_at(b, i) matches Ok((v, end)) ==> {
            &&& v is Str <==> b[i] == 0x22
            &&& v is Obj <==> b[i] == 0x7b
            &&& v is Arr <==> b[i] == 0x5b
            &&& v == Value::Bool(true) <==> b[i] == 0x74
            &&& v == Value::Bool(false) <==> b[i] == 0x66
            &&& v is Null <==> b[i] == 0x6e
            &&& v is Num <==> b[i] == 0x2d || 0x30 <= b[i] <= 0x39
        },
{
    reveal_with_fuel(value_at, 2);
    reveal_with_fuel(object_at, 2);
    reveal_with_fuel(array_at, 2);
}

/// The items of an array are parted by commas, and it ends in its bracket.
pub proof fn law_items_are_parted_by_commas(b: Seq<u8>, i: int)
    ensures
        items_at(b, i) matches Ok((items, last)) ==> {
            &&& items.len() > 0
            &&& b[last - 1] == 0x5d
            &&& value_at(b, i) matches Ok((v, end)) && v == items[0] && {
                let j = blank_end(b, end);
                &&& items.len() > 1 ==> b[j] == 0x2c && items_at(b, j + 1) == Ok::<
                    (Seq<Value>, int),
                    Seq<char>,
                >((items.drop_first(), last))
                &&& items.len() == 1 ==> b[j] == 0x5d && last == j + 1
            }
        },
    decreases b.len() - i,
{
    reveal_with_fuel(items_at, 2);
    if let Ok((v, end)) = value_at(b, i) {
        let j = blank_end(b, end);
        if j < b.len() && j >= i && b[j] == 0x2c {
            law_items_are_parted_by_commas(b, j + 1);
            if let Ok((rest, last)) = items_at(b, j + 1) {
                assert((seq![v] + rest).drop_first() =~= rest);
            }
        }
        assert(seq![v].len() == 1);
    }
}

/// The fields of an object are a key in quotes, a colon and a value each, parted
/// by commas, and it ends in its brace.
pub proof fn law_fields_are_parted_by_commas(b: Seq<u8>, i: int)
    ensures
        fields_at(b, i) matches Ok((f, last)) ==> {
            let k = blank_end(b, i);
            &&& f.len() > 0
            &&& b[k] == 0x22
            &&& b[last - 1] == 0x7d
            &&& string_at(b, k) matches Ok((key, key_end)) && key == f[0].0 && {
                let c = blank_end(b, key_end);
                &&& b[c] == 0x3a
                &&& value_at(b, c + 1) matches Ok((v, end)) && v == f[0].1 && {
                    let j = blank_end(b, end);
                    &&& f.len() > 1 ==> b[j] == 0x2c && fields_at(b, j + 1) == Ok::<
                        (Seq<(Seq<char>, Value)>, int),
                        Seq<char>,
                    >((f.drop_first(), last))
                    &&& f.len() == 1 ==> b[j] == 0x7d && last == j + 1
                }
            }
        },
    decreases b.len() - i,
{
    reveal_with_fuel(fields_at, 2);
    let k = blank_end(b, i);
    if let Ok((key, key_end)) = string_at(b, k) {
        let c = blank_end(b, key_end);
        if let Ok((v, end)) = value_at(b, c + 1) {
            let j = blank_end(b, end);
            if j < b.len() && j >= i && b[j] == 0x2c {
                law_fields_are_parted_by_commas(b, j + 1);
                if let Ok((rest, last)) = fields_at(b, j + 1) {
                    assert((seq![(key, v)] + rest).drop_first() =~= rest);
                }
            }
            assert(seq![(key, v)].len() == 1);
        }
    }
}

/// A text is one value, and nothing but blanks may follow it.
pub proof fn law_nothing_may_follow(b: Seq<u8>)
    ensures
        match value_at(b, 0) {
            Ok((v, end)) => if blank_end(b, end) == b.len() {
                parse_result(b) == Ok::<Value, Seq<char>>(v)
            } else {
                parse_result(b) is Err
            },
            Err(e) => parse_result(b) == Err::<Value, Seq<char>>(e),
        },
{
}

/// An unsigned integer below 2^53 comes back from a JSON number as it was.
pub proof fn law_integers_survive_json(n: u64)
    requires
        n < 0x20_0000_0000_0000,
    ensures
        as_uint(uint_value(n)) == Some(n),
{
    let w = Width::Double;
    law_small_integers_are_exact(w, n as nat);
    let b = nearest(w, n as nat, 1);
    lemma_pow2_pos(w.scale());
    assert(n as nat * pow2(w.scale()) == pow2(w.scale()) * n as nat) by (nonlinear_arith);
    lemma_div_multiples_vanish(n as int, pow2(w.scale()) as int);
    assert(whole_part(w, b) == n);
    assert(double_as_u64(b as u64) == n);
}

} // verus!
