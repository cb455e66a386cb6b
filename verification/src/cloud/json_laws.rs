//! What the JSON parser gives back of what the writer wrote.
use vstd::prelude::*;
use vstd::arithmetic::power2::{lemma_pow2_pos, pow2};
use vstd::utf8::{encode_utf8, is_ascii_chars, is_ascii_chars_encode_utf8};
use crate::cloud::json::{
    array_at, blank_end, byte_chars, chars_at, comma, digits_end, escape_at, escape_code, escaped,
    escaped_char, fields_at, fields_text, hex_char, hex_number, hex_value, is_blank, is_digit_byte,
    items_at, items_text, number_end, number_text, object_at, parse_result, prepend, string_at,
    string_text, text, value_at, Value,
};
use crate::num::binary::{is_whole, units, whole_part, Width};
use crate::num::decimal::{
    all_digits, law_display_reads_back, lemma_decimal_digits, lemma_exact_rounds,
    lemma_positional_literal, lemma_read_signed, literal_value, magnitude, plain_literal,
    positional, read_value, shortest, sign_set, ten_num,
};
use crate::num::natural::pow10;
use crate::text::{decimal, is_digit};

verus! {

/// Numbers are finite and not the negative zero, and all text is ASCII.
pub open spec fn plain(v: Value) -> bool
    decreases v,
{
    match v {
        Value::Null => true,
        Value::Bool(_) => true,
        Value::Num(bits) => plain_number(bits),
        Value::Str(s) => is_ascii_chars(s),
        Value::Arr(items) => plain_items(items),
        Value::Obj(f) => plain_fields(f),
    }
}

pub open spec fn plain_number(bits: u64) -> bool {
    &&& magnitude(Width::Double, bits as nat) < Width::Double.infinity()
    &&& bits != 0x8000_0000_0000_0000
}

pub open spec fn plain_items(items: Seq<Value>) -> bool
    decreases items,
{
    items.len() > 0 ==> plain(items[0]) && plain_items(items.drop_first())
}

pub open spec fn plain_fields(f: Seq<(Seq<char>, Value)>) -> bool
    decreases f,
{
    f.len() > 0 ==> is_ascii_chars(f[0].0) && plain(f[0].1) && plain_fields(f.drop_first())
}

/// The ASCII text `t` stands in `b` at `i`.
spec fn stands(b: Seq<u8>, i: int, t: Seq<char>) -> bool {
    &&& 0 <= i
    &&& i + t.len() <= b.len()
    &&& forall|k: int| 0 <= k < t.len() ==> #[trigger] t[k] <= '\u{7f}' && b[i + k] == t[k] as u8
}

proof fn lemma_stands_parts(b: Seq<u8>, i: int, s: Seq<char>, t: Seq<char>)
    requires
        stands(b, i, s + t),
    ensures
        stands(b, i, s),
        stands(b, i + s.len(), t),
{
    assert forall|k: int| 0 <= k < s.len() implies #[trigger] s[k] <= '\u{7f}' && b[i + k]
        == s[k] as u8 by {
        assert((s + t)[k] == s[k]);
    }
    assert forall|k: int| 0 <= k < t.len() implies #[trigger] t[k] <= '\u{7f}' && b[i + s.len()
        + k] == t[k] as u8 by {
        assert((s + t)[k + s.len()] == t[k]);
    }
}

proof fn lemma_ascii_cast(c: char)
    requires
        c <= '\u{7f}',
    ensures
        (c as u8) as char == c,
{
}

/// The bytes where `t` stands are its characters.
proof fn lemma_stands_chars(b: Seq<u8>, i: int, t: Seq<char>)
    requires
        stands(b, i, t),
    ensures
        byte_chars(b.subrange(i, i + t.len())) == t,
{
    let c = byte_chars(b.subrange(i, i + t.len()));
    assert forall|k: int| 0 <= k < t.len() implies c[k] == t[k] by {
        let x = t[k];
        assert(x <= '\u{7f}' && b[i + k] == x as u8);
        lemma_ascii_cast(x);
    }
    assert(c =~= t);
}

/// What may follow a value inside a larger text.
spec fn delimits(b: Seq<u8>, j: int) -> bool {
    j == b.len() || (0 <= j < b.len() && (b[j] == (',' as u8) || b[j] == (']' as u8) || b[j] == (
    '}' as u8)))
}

proof fn lemma_digits_end_is(b: Seq<u8>, i: int, n: nat)
    requires
        0 <= i,
        i + n <= b.len(),
        forall|k: int| i <= k < i + n ==> is_digit_byte(#[trigger] b[k]),
        i + n == b.len() || !is_digit_byte(b[i + n]),
    ensures
        digits_end(b, i) == i + n,
    decreases n,
{
    if n > 0 {
        assert(is_digit_byte(b[i]));
        lemma_digits_end_is(b, i + 1, (n - 1) as nat);
    }
}

/// The token of a plain literal, with or without sign, ends where it ends.
proof fn lemma_number_end_is(
    b: Seq<u8>,
    i: int,
    negative: bool,
    whole: Seq<char>,
    point: bool,
    fraction: Seq<char>,
)
    requires
        all_digits(whole),
        whole.len() > 0,
        all_digits(fraction),
        !point ==> fraction.len() == 0,
        ({
            let body = plain_literal(whole, point, fraction);
            let t = if negative {
                seq!['-'] + body
            } else {
                body
            };
            stands(b, i, t) && delimits(b, i + t.len())
        }),
    ensures
        ({
            let body = plain_literal(whole, point, fraction);
            let t = if negative {
                seq!['-'] + body
            } else {
                body
            };
            &&& number_end(b, i) == i + t.len()
            &&& b[i] == ('-' as u8) || is_digit_byte(b[i])
            &&& !is_blank(b[i])
        }),
{
    let body = plain_literal(whole, point, fraction);
    let t = if negative {
        seq!['-'] + body
    } else {
        body
    };
    let sign: int = if negative {
        1
    } else {
        0
    };
    assert(t[0] <= '\u{7f}' && b[i + 0] == t[0] as u8);
    if negative {
        lemma_stands_parts(b, i, seq!['-'], body);
    }
    let start = i + sign;
    assert(stands(b, start, body));
    assert forall|k: int| start <= k < start + whole.len() implies is_digit_byte(#[trigger] b[k]) by {
        assert(body[k - start] == whole[k - start]);
        assert(is_digit(whole[k - start]));
        assert(b[start + (k - start)] == body[k - start] as u8);
    }
    assert(is_digit_byte(b[start]));
    let after = start + whole.len();
    if point {
        assert(body[whole.len() as int] == '.');
        assert(b[start + whole.len() as int] == body[whole.len() as int] as u8);
        assert(b[after] == ('.' as u8));
        assert forall|k: int| after + 1 <= k < after + 1 + fraction.len() implies is_digit_byte(
            #[trigger] b[k],
        ) by {
            assert(body[k - start] == fraction[k - after - 1]);
            assert(is_digit(fraction[k - after - 1]));
            assert(b[start + (k - start)] == body[k - start] as u8);
        }
        lemma_digits_end_is(b, start, whole.len());
        lemma_digits_end_is(b, after + 1, fraction.len());
    } else {
        lemma_digits_end_is(b, start, whole.len());
    }
}

/// The text of a plain number reads as the number.
proof fn lemma_number_reads_back(bits: u64)
    requires
        plain_number(bits),
    ensures
        read_value(Width::Double, number_text(bits)) == Some(bits as nat),
{
    let w = Width::Double;
    let b = magnitude(w, bits as nat);
    if is_whole(w, b) && whole_part(w, b) < 1_000_000_000_000_000 {
        let n = whole_part(w, b);
        let negative = sign_set(w, bits as nat) && n != 0;
        lemma_decimal_digits(n);
        assert(is_digit(decimal(n)[0]));
        lemma_read_signed(w, negative, decimal(n));
        lemma_whole_literal(n);
        assert(ten_num(n, 0) == n) by {
            assert(n * pow10(0) == n) by (nonlinear_arith)
                requires
                    pow10(0) == 1,
            ;
        }
        assert(units(w, b) * 1 == units(w, b));
        lemma_exact_rounds(w, n, 1, b);
        if n == 0 {
            lemma_pow2_pos(w.scale());
            assert(0 * pow2(w.scale()) == 0);
            lemma_zero_units(w, b);
        }
    } else {
        law_display_reads_back(w, bits as nat);
    }
}

proof fn lemma_zero_units(w: Width, b: nat)
    requires
        units(w, b) == 0,
    ensures
        b == 0,
{
    if b > 0 {
        crate::num::binary::lemma_units_increase(w, 0, b);
    }
}

proof fn lemma_whole_literal(n: nat)
    ensures
        literal_value(decimal(n)) == Some((n, 0int)),
{
    lemma_decimal_digits(n);
    crate::num::decimal::lemma_plain_literal(decimal(n), false, Seq::empty());
    assert(decimal(n) + Seq::<char>::empty() =~= decimal(n));
}

/// The token of a plain number is where its text stands.
proof fn lemma_number_token(b: Seq<u8>, i: int, bits: u64)
    requires
        plain_number(bits),
        stands(b, i, number_text(bits)),
        delimits(b, i + number_text(bits).len()),
    ensures
        number_end(b, i) == i + number_text(bits).len(),
        b[i] == ('-' as u8) || is_digit_byte(b[i]),
        !is_blank(b[i]),
        number_text(bits).len() > 0,
{
    let w = Width::Double;
    let m = magnitude(w, bits as nat);
    let t = number_text(bits);
    if is_whole(w, m) && whole_part(w, m) < 1_000_000_000_000_000 {
        let n = whole_part(w, m);
        let negative = sign_set(w, bits as nat) && n != 0;
        lemma_decimal_digits(n);
        lemma_number_end_is(b, i, negative, decimal(n), false, Seq::empty());
    } else {
        let negative = sign_set(w, bits as nat);
        if m == 0 {
            assert(units(w, 0) == 0);
            lemma_pow2_pos(w.scale());
            assert(0 * pow2(w.scale()) == 0);
            assert(false);
        }
        let (n, k) = shortest(w, m);
        let r = lemma_positional_literal(n, k);
        assert(t =~= if negative {
            seq!['-'] + plain_literal(r.0, r.1, r.2)
        } else {
            plain_literal(r.0, r.1, r.2)
        });
        lemma_number_end_is(b, i, negative, r.0, r.1, r.2);
    }
}

proof fn lemma_hex_digit(d: nat)
    requires
        d < 16,
    ensures
        hex_value(hex_char(d) as u8) == Some(d),
        hex_char(d) <= '\u{7f}',
{
}

/// The four digits of a control character's escape read as its number.
proof fn lemma_escape_code(four: Seq<u8>, n: nat)
    requires
        n < 256,
        four.len() == 4,
        four[0] == ('0' as u8),
        four[1] == ('0' as u8),
        four[2] == hex_char(n / 16) as u8,
        four[3] == hex_char(n % 16) as u8,
    ensures
        escape_code(four) == Some(n),
{
    lemma_hex_digit(n / 16);
    lemma_hex_digit(n % 16);
    let three = four.drop_last();
    let two = three.drop_last();
    let one = two.drop_last();
    let none = one.drop_last();
    assert(hex_value('0' as u8) == Some(0nat));
    assert(hex_number(none) == Some(0nat));
    assert(one.last() == four[0]);
    assert(hex_number(one) == Some(0nat));
    assert(two.last() == four[1]);
    assert(hex_number(two) == Some(0nat));
    assert(three.last() == four[2]);
    assert(hex_number(three) == Some(n / 16));
    assert(four.last() == four[3]);
    assert(hex_number(four) == Some(16 * (n / 16) + n % 16));
}

/// One character of a string, as it is written, reads as itself.
proof fn lemma_char_reads_back(b: Seq<u8>, i: int, c: char)
    requires
        c <= '\u{7f}',
        stands(b, i, escaped_char(c)),
    ensures
        chars_at(b, i) == prepend(seq![c], chars_at(b, i + escaped_char(c).len())),
{
    let t = escaped_char(c);
    assert(t[0] <= '\u{7f}' && b[i + 0] == t[0] as u8);
    if t.len() > 1 {
        assert(t[1] <= '\u{7f}' && b[i + 1] == t[1] as u8);
    }
    if t.len() == 6 {
        let n = (c as u32) as nat;
        assert(t[2] <= '\u{7f}' && b[i + 2] == t[2] as u8);
        assert(t[3] <= '\u{7f}' && b[i + 3] == t[3] as u8);
        assert(t[4] <= '\u{7f}' && b[i + 4] == t[4] as u8);
        assert(t[5] <= '\u{7f}' && b[i + 5] == t[5] as u8);
        let four = b.subrange(i + 2, i + 6);
        assert(four[0] == b[i + 2] && four[1] == b[i + 3] && four[2] == b[i + 4] && four[3] == b[i
            + 5]);
        lemma_escape_code(four, n);
        assert(escape_at(b, i + 1) == Ok::<(char, int), Seq<char>>((c, i + 6)));
    } else if t.len() == 1 {
        assert((c as u8) as char == c);
        assert(b[i] != ('"' as u8) && b[i] != ('\\' as u8));
    }
}

/// A string, as it is written, reads as itself.
proof fn lemma_string_reads_back(b: Seq<u8>, i: int, s: Seq<char>)
    requires
        is_ascii_chars(s),
        stands(b, i, escaped(s) + seq!['"']),
    ensures
        chars_at(b, i) == Ok::<(Seq<char>, int), Seq<char>>((s, i + escaped(s).len() + 1)),
    decreases s.len(),
{
    let t = escaped(s) + seq!['"'];
    if s.len() == 0 {
        assert(t[0] == '"');
        assert(b[i + 0] == t[0] as u8);
        assert(s =~= Seq::<char>::empty());
    } else {
        let rest = s.drop_first();
        let head = escaped_char(s[0]);
        assert(t =~= head + (escaped(rest) + seq!['"']));
        lemma_stands_parts(b, i, head, escaped(rest) + seq!['"']);
        assert(s[0] <= '\u{7f}');
        lemma_char_reads_back(b, i, s[0]);
        assert(is_ascii_chars(rest)) by {
            assert forall|k: int| 0 <= k < rest.len() implies '\0' <= #[trigger] rest[k]
                <= '\u{7f}' by {
                assert(rest[k] == s[k + 1]);
            }
        }
        lemma_string_reads_back(b, i + head.len(), rest);
        assert(seq![s[0]] + rest =~= s);
    }
}

/// The text of a value starts with a character that is neither blank nor closes
/// anything.
proof fn lemma_text_start(v: Value)
    requires
        plain(v),
    ensures
        text(v).len() > 0,
        text(v)[0] != ']',
        text(v)[0] != '}',
        text(v)[0] != ',',
{
    reveal_strlit("null");
    reveal_strlit("true");
    reveal_strlit("false");
    if let Value::Num(bits) = v {
        let t = number_text(bits);
        let w = Width::Double;
        let m = magnitude(w, bits as nat);
        if is_whole(w, m) && whole_part(w, m) < 1_000_000_000_000_000 {
            let n = whole_part(w, m);
            lemma_decimal_digits(n);
            assert(is_digit(decimal(n)[0]));
        } else {
            if m == 0 {
                assert(units(w, 0) == 0);
                lemma_pow2_pos(w.scale());
                assert(0 * pow2(w.scale()) == 0);
                assert(false);
            }
            let (n, k) = shortest(w, m);
            let r = lemma_positional_literal(n, k);
            assert(is_digit(r.0[0]));
            assert(positional(decimal(n), k)[0] == r.0[0]);
        }
    }
}

/// The value whose text stands at `i` is what the parser finds there.
proof fn lemma_value_reads_back(b: Seq<u8>, i: int, v: Value)
    requires
        plain(v),
        stands(b, i, text(v)),
        delimits(b, i + text(v).len()),
    ensures
        value_at(b, i) == Ok::<(Value, int), Seq<char>>((v, i + text(v).len())),
    decreases v,
{
    let t = text(v);
    reveal_strlit("null");
    reveal_strlit("true");
    reveal_strlit("false");
    lemma_text_start(v);
    assert(t[0] <= '\u{7f}' && b[i + 0] == t[0] as u8);
    match v {
        Value::Null => {
            lemma_stands_chars(b, i, t);
        },
        Value::Bool(x) => {
            lemma_stands_chars(b, i, t);
        },
        Value::Num(bits) => {
            lemma_number_token(b, i, bits);
            lemma_stands_chars(b, i, t);
            lemma_number_reads_back(bits);
        },
        Value::Str(s) => {
            let rest = escaped(s) + seq!['"'];
            assert(t =~= seq!['"'] + rest);
            lemma_stands_parts(b, i, seq!['"'], rest);
            lemma_string_reads_back(b, i + 1, s);
        },
        Value::Arr(items) => {
            let rest = items_text(items, true) + seq![']'];
            assert(t =~= seq!['['] + rest);
            lemma_stands_parts(b, i, seq!['['], rest);
            if items.len() == 0 {
                assert(rest[0] == ']');
                assert(b[i + 1 + 0] == rest[0] as u8);
                assert(items =~= Seq::<Value>::empty());
            } else {
                lemma_text_start(items[0]);
                assert(rest[0] == text(items[0])[0]);
                assert(rest[0] <= '\u{7f}' && b[i + 1 + 0] == rest[0] as u8);
                lemma_first_not_blank(b, i + 1, items[0], rest);
                lemma_items_read_back(b, i + 1, items);
            }
            assert(array_at(b, i) == Ok::<(Value, int), Seq<char>>((v, i + t.len())));
        },
        Value::Obj(f) => {
            let rest = fields_text(f, true) + seq!['}'];
            assert(t =~= seq!['{'] + rest);
            lemma_stands_parts(b, i, seq!['{'], rest);
            if f.len() == 0 {
                assert(rest[0] == '}');
                assert(b[i + 1 + 0] == rest[0] as u8);
                assert(f =~= Seq::<(Seq<char>, Value)>::empty());
            } else {
                assert(rest[0] == '"');
                assert(b[i + 1 + 0] == rest[0] as u8);
                lemma_fields_read_back(b, i + 1, f);
            }
            assert(object_at(b, i) == Ok::<(Value, int), Seq<char>>((v, i + t.len())));
        },
    }
}

/// The text of a value does not start with a blank.
proof fn lemma_first_not_blank(b: Seq<u8>, i: int, v: Value, rest: Seq<char>)
    requires
        plain(v),
        rest.len() > 0,
        rest[0] == text(v)[0],
        0 <= i < b.len(),
        b[i] == rest[0] as u8,
    ensures
        !is_blank(b[i]),
{
    reveal_strlit("null");
    reveal_strlit("true");
    reveal_strlit("false");
    if let Value::Num(bits) = v {
        let w = Width::Double;
        let m = magnitude(w, bits as nat);
        if is_whole(w, m) && whole_part(w, m) < 1_000_000_000_000_000 {
            let n = whole_part(w, m);
            lemma_decimal_digits(n);
            assert(is_digit(decimal(n)[0]));
        } else {
            if m == 0 {
                assert(units(w, 0) == 0);
                lemma_pow2_pos(w.scale());
                assert(0 * pow2(w.scale()) == 0);
                assert(false);
            }
            let (n, k) = shortest(w, m);
            let r = lemma_positional_literal(n, k);
            assert(is_digit(r.0[0]));
            assert(positional(decimal(n), k)[0] == r.0[0]);
        }
    }
}

/// The items whose texts stand at `i` are what the parser finds there.
proof fn lemma_items_read_back(b: Seq<u8>, i: int, items: Seq<Value>)
    requires
        items.len() > 0,
        plain_items(items),
        stands(b, i, items_text(items, true) + seq![']']),
    ensures
        items_at(b, i) == Ok::<(Seq<Value>, int), Seq<char>>(
            (items, i + items_text(items, true).len() + 1),
        ),
    decreases items,
{
    let v = items[0];
    let rest = items.drop_first();
    let tail = items_text(rest, false) + seq![']'];
    assert(items_text(items, true) + seq![']'] =~= text(v) + tail);
    lemma_stands_parts(b, i, text(v), tail);
    let j = i + text(v).len();
    assert(tail[0] <= '\u{7f}' && b[j + 0] == tail[0] as u8);
    if rest.len() == 0 {
        assert(tail[0] == ']');
        lemma_value_reads_back(b, i, v);
        assert(blank_end(b, j) == j);
        assert(seq![v] =~= items);
    } else {
        let next = items_text(rest, true) + seq![']'];
        assert(tail =~= seq![','] + next);
        lemma_value_reads_back(b, i, v);
        assert(blank_end(b, j) == j);
        lemma_stands_parts(b, j, seq![','], next);
        lemma_items_read_back(b, j + 1, rest);
        assert(seq![v] + rest =~= items);
    }
}

/// The fields whose texts stand at `i` are what the parser finds there.
proof fn lemma_fields_read_back(b: Seq<u8>, i: int, f: Seq<(Seq<char>, Value)>)
    requires
        f.len() > 0,
        plain_fields(f),
        stands(b, i, fields_text(f, true) + seq!['}']),
    ensures
        fields_at(b, i) == Ok::<(Seq<(Seq<char>, Value)>, int), Seq<char>>(
            (f, i + fields_text(f, true).len() + 1),
        ),
    decreases f,
{
    let key = f[0].0;
    let v = f[0].1;
    let rest = f.drop_first();
    let tail = fields_text(rest, false) + seq!['}'];
    let from_value = text(v) + tail;
    let from_colon = seq![':'] + from_value;
    let from_key = escaped(key) + seq!['"'];
    assert(fields_text(f, true) + seq!['}'] =~= seq!['"'] + (from_key + from_colon));
    lemma_stands_parts(b, i, seq!['"'], from_key + from_colon);
    assert(seq!['"'][0] == '"');
    assert(b[i + 0] == '"' as u8);
    lemma_stands_parts(b, i + 1, from_key, from_colon);
    lemma_string_reads_back(b, i + 1, key);
    let c = i + 1 + from_key.len();
    lemma_stands_parts(b, c, seq![':'], from_value);
    assert(seq![':'][0] == ':');
    assert(b[c + 0] == ':' as u8);
    lemma_stands_parts(b, c + 1, text(v), tail);
    let j = c + 1 + text(v).len();
    assert(tail[0] <= '\u{7f}' && b[j + 0] == tail[0] as u8);
    assert(decreases_to!(f[0] => f[0].1));
    if rest.len() == 0 {
        assert(tail[0] == '}');
        lemma_value_reads_back(b, c + 1, v);
        assert(blank_end(b, j) == j);
        assert(seq![(key, v)] =~= f);
    } else {
        let next = fields_text(rest, true) + seq!['}'];
        assert(tail =~= seq![','] + next);
        lemma_value_reads_back(b, c + 1, v);
        assert(blank_end(b, j) == j);
        lemma_stands_parts(b, j, seq![','], next);
        lemma_fields_read_back(b, j + 1, rest);
        assert(seq![(key, v)] + rest =~= f);
    }
}

proof fn lemma_ascii_join(a: Seq<char>, b: Seq<char>)
    requires
        is_ascii_chars(a),
        is_ascii_chars(b),
    ensures
        is_ascii_chars(a + b),
{
    let t = a + b;
    assert forall|i: int| 0 <= i < t.len() implies '\0' <= #[trigger] t[i] <= '\u{7f}' by {
        if i < a.len() {
            assert(t[i] == a[i]);
        } else {
            assert(t[i] == b[i - a.len()]);
        }
    }
}

proof fn lemma_digits_are_ascii(d: Seq<char>)
    requires
        all_digits(d),
    ensures
        is_ascii_chars(d),
{
    assert forall|i: int| 0 <= i < d.len() implies '\0' <= #[trigger] d[i] <= '\u{7f}' by {
        assert(is_digit(d[i]));
    }
}

proof fn lemma_number_is_ascii(bits: u64)
    requires
        plain_number(bits),
    ensures
        is_ascii_chars(number_text(bits)),
{
    let w = Width::Double;
    let m = magnitude(w, bits as nat);
    let minus = seq!['-'];
    assert(is_ascii_chars(minus));
    assert(is_ascii_chars(seq!['.']));
    assert(is_ascii_chars(Seq::<char>::empty()));
    if is_whole(w, m) && whole_part(w, m) < 1_000_000_000_000_000 {
        let n = whole_part(w, m);
        lemma_decimal_digits(n);
        lemma_digits_are_ascii(decimal(n));
        lemma_ascii_join(minus, decimal(n));
    } else {
        if m == 0 {
            assert(units(w, 0) == 0);
            lemma_pow2_pos(w.scale());
            assert(0 * pow2(w.scale()) == 0);
            assert(false);
        }
        let (n, k) = shortest(w, m);
        let r = lemma_positional_literal(n, k);
        lemma_digits_are_ascii(r.0);
        lemma_digits_are_ascii(r.2);
        lemma_ascii_join(r.0, seq!['.']);
        lemma_ascii_join(r.0 + seq!['.'], r.2);
        lemma_ascii_join(minus, positional(decimal(n), k));
        lemma_ascii_join(Seq::empty(), positional(decimal(n), k));
    }
}

proof fn lemma_escaped_is_ascii(s: Seq<char>)
    requires
        is_ascii_chars(s),
    ensures
        is_ascii_chars(escaped(s)),
    decreases s.len(),
{
    if s.len() > 0 {
        let c = s[0];
        let rest = s.drop_first();
        assert(c <= '\u{7f}');
        let head = escaped_char(c);
        assert(is_ascii_chars(head)) by {
            let n = (c as u32) as nat;
            if n < 32 {
                lemma_hex_digit(n / 16);
                lemma_hex_digit(n % 16);
            }
        }
        assert forall|k: int| 0 <= k < rest.len() implies '\0' <= #[trigger] rest[k] <= '\u{7f}' by {
            assert(rest[k] == s[k + 1]);
        }
        lemma_escaped_is_ascii(rest);
        lemma_ascii_join(head, escaped(rest));
    }
}

proof fn lemma_string_is_ascii(s: Seq<char>)
    requires
        is_ascii_chars(s),
    ensures
        is_ascii_chars(string_text(s)),
{
    let quote = seq!['"'];
    assert(is_ascii_chars(quote));
    lemma_escaped_is_ascii(s);
    lemma_ascii_join(quote, escaped(s));
    lemma_ascii_join(quote + escaped(s), quote);
}

proof fn lemma_text_is_ascii(v: Value)
    requires
        plain(v),
    ensures
        is_ascii_chars(text(v)),
    decreases v,
{
    reveal_strlit("null");
    reveal_strlit("true");
    reveal_strlit("false");
    match v {
        Value::Null => {},
        Value::Bool(_) => {},
        Value::Num(bits) => {
            lemma_number_is_ascii(bits);
        },
        Value::Str(s) => {
            lemma_string_is_ascii(s);
        },
        Value::Arr(items) => {
            lemma_items_are_ascii(items, true);
            assert(is_ascii_chars(seq!['[']));
            assert(is_ascii_chars(seq![']']));
            lemma_ascii_join(seq!['['], items_text(items, true));
            lemma_ascii_join(seq!['['] + items_text(items, true), seq![']']);
        },
        Value::Obj(f) => {
            lemma_fields_are_ascii(f, true);
            assert(is_ascii_chars(seq!['{']));
            assert(is_ascii_chars(seq!['}']));
            lemma_ascii_join(seq!['{'], fields_text(f, true));
            lemma_ascii_join(seq!['{'] + fields_text(f, true), seq!['}']);
        },
    }
}

proof fn lemma_items_are_ascii(items: Seq<Value>, first: bool)
    requires
        plain_items(items),
    ensures
        is_ascii_chars(items_text(items, first)),
    decreases items,
{
    if items.len() > 0 {
        lemma_text_is_ascii(items[0]);
        lemma_items_are_ascii(items.drop_first(), false);
        assert(is_ascii_chars(comma(first)));
        lemma_ascii_join(comma(first), text(items[0]));
        lemma_ascii_join(comma(first) + text(items[0]), items_text(items.drop_first(), false));
    }
}

proof fn lemma_fields_are_ascii(f: Seq<(Seq<char>, Value)>, first: bool)
    requires
        plain_fields(f),
    ensures
        is_ascii_chars(fields_text(f, first)),
    decreases f,
{
    if f.len() > 0 {
        assert(decreases_to!(f[0] => f[0].1));
        lemma_text_is_ascii(f[0].1);
        lemma_fields_are_ascii(f.drop_first(), false);
        lemma_string_is_ascii(f[0].0);
        let a = comma(first);
        let b = string_text(f[0].0);
        let c = seq![':'];
        let d = text(f[0].1);
        assert(is_ascii_chars(a));
        assert(is_ascii_chars(c));
        lemma_ascii_join(a, b);
        lemma_ascii_join(a + b, c);
        lemma_ascii_join(a + b + c, d);
        lemma_ascii_join(a + b + c + d, fields_text(f.drop_first(), false));
    }
}

/// Parsing the text of a value gives the value back: every value whose text is
/// ASCII and whose numbers are finite and not the negative zero.
pub proof fn law_parse_reads_back(v: Value)
    requires
        plain(v),
    ensures
        parse_result(encode_utf8(text(v))) == Ok::<Value, Seq<char>>(v),
{
    let t = text(v);
    let b = encode_utf8(t);
    lemma_text_is_ascii(v);
    is_ascii_chars_encode_utf8(t);
    assert forall|k: int| 0 <= k < t.len() implies #[trigger] t[k] <= '\u{7f}' && b[0 + k]
        == t[k] as u8 by {}
    lemma_value_reads_back(b, 0, v);
}

proof fn lemma_escaped_is_printed(s: Seq<char>)
    ensures
        forall|k: int| 0 <= k < escaped(s).len() ==> #[trigger] escaped(s)[k] >= ' ',
    decreases s.len(),
{
    if s.len() > 0 {
        let c = s[0];
        let head = escaped_char(c);
        let rest = escaped(s.drop_first());
        lemma_escaped_is_printed(s.drop_first());
        assert forall|k: int| 0 <= k < head.len() implies #[trigger] head[k] >= ' ' by {
            let n = (c as u32) as nat;
            if n < 32 {
                lemma_hex_digit(n / 16);
                lemma_hex_digit(n % 16);
            } else {
                vstd::utf8::char_u32_cast(c, n as u32);
            }
        }
        assert forall|k: int| 0 <= k < escaped(s).len() implies #[trigger] escaped(s)[k] >= ' ' by {
            if k < head.len() {
                assert(escaped(s)[k] == head[k]);
            } else {
                assert(escaped(s)[k] == rest[k - head.len()]);
            }
        }
    }
}

/// A string of ASCII characters, quotes, backslashes and control characters
/// among them, is read back from its JSON form, up to the end of that form, which
/// holds no control character as it stands.
pub proof fn law_string_reads_back(s: Seq<char>)
    requires
        is_ascii_chars(s),
    ensures
        string_at(encode_utf8(string_text(s)), 0) == Ok::<(Seq<char>, int), Seq<char>>(
            (s, encode_utf8(string_text(s)).len() as int),
        ),
        encode_utf8(string_text(s)).len() == string_text(s).len(),
        forall|k: int|
            0 <= k < string_text(s).len() ==> #[trigger] encode_utf8(string_text(s))[k] >= 0x20,
{
    let t = string_text(s);
    let b = encode_utf8(t);
    lemma_string_is_ascii(s);
    is_ascii_chars_encode_utf8(t);
    let inner = escaped(s) + seq!['"'];
    assert(t =~= seq!['"'] + inner);
    assert forall|k: int| 0 <= k < t.len() implies #[trigger] t[k] <= '\u{7f}' && b[0 + k]
        == t[k] as u8 by {}
    lemma_stands_parts(b, 0, seq!['"'], inner);
    lemma_string_reads_back(b, 1, s);
    lemma_escaped_is_printed(s);
    assert forall|k: int| 0 <= k < t.len() implies #[trigger] b[k] >= 0x20 by {
        assert(t[k] <= '\u{7f}' && b[0 + k] == t[k] as u8);
        if 0 < k < t.len() - 1 {
            assert(t[k] == escaped(s)[k - 1]);
        }
        lemma_ascii_cast(t[k]);
    }
}

/// The same value always has the same text, so values with equal texts are
/// equal where the text can be read back.
pub proof fn law_text_is_injective(u: Value, v: Value)
    requires
        plain(u),
        plain(v),
        text(u) == text(v),
    ensures
        u == v,
{
    law_parse_reads_back(u);
    law_parse_reads_back(v);
}

} // verus!
