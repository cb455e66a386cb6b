//! JSON values, their text and their parser.
//!
//! Object order is preserved, so payloads are deterministic and diff-friendly.
//! Numbers are doubles, held as bit patterns.
use vstd::prelude::*;
use crate::num::binary::{
    double_as_u64, double_of_u64, double_to_u64, is_whole, nearest, whole_part, whole_part_exec,
    Width,
};
use crate::num::decimal::{
    display, display_exec, magnitude, push_natural, read, read_value, sign_set, split_sign,
};
use crate::num::natural::{Nat, Rank};
use crate::text::{chars_of, decimal, push_chars, same_chars, same_text};

verus! {

/// A JSON value.
#[derive(Debug)]
pub enum Json {
    /// `null`.
    Null,
    /// Boolean.
    Bool(bool),
    /// Number, as the bit pattern of a double.
    Num(u64),
    /// String.
    Str(String),
    /// Array.
    Arr(Vec<Json>),
    /// Object, key/value pairs in insertion order.
    Obj(Vec<(String, Json)>),
}

/// What a [`Json`] value stands for.
pub ghost enum Value {
    Null,
    Bool(bool),
    Num(u64),
    Str(Seq<char>),
    Arr(Seq<Value>),
    Obj(Seq<(Seq<char>, Value)>),
}

pub open spec fn value_of(j: Json) -> Value
    decreases j,
{
    match j {
        Json::Null => Value::Null,
        Json::Bool(b) => Value::Bool(b),
        Json::Num(n) => Value::Num(n),
        Json::Str(s) => Value::Str(s@),
        Json::Arr(v) => Value::Arr(
            Seq::new(
                v@.len(),
                |i: int|
                    if 0 <= i < v@.len() {
                        value_of(v@[i])
                    } else {
                        Value::Null
                    },
            ),
        ),
        Json::Obj(v) => Value::Obj(
            Seq::new(
                v@.len(),
                |i: int|
                    if 0 <= i < v@.len() {
                        (v@[i].0@, value_of(v@[i].1))
                    } else {
                        (Seq::empty(), Value::Null)
                    },
            ),
        ),
    }
}

impl View for Json {
    type V = Value;

    open spec fn view(&self) -> Value {
        value_of(*self)
    }
}

/// The values of several items.
pub open spec fn values(items: Seq<Json>) -> Seq<Value> {
    items.map_values(|j: Json| j@)
}

/// The values of several fields.
pub open spec fn fields(items: Seq<(String, Json)>) -> Seq<(Seq<char>, Value)> {
    items.map_values(|f: (String, Json)| (f.0@, f.1@))
}

pub broadcast proof fn lemma_value_of_arr(v: Vec<Json>)
    ensures
        #[trigger] value_of(Json::Arr(v)) == Value::Arr(values(v@)),
{
    assert(value_of(Json::Arr(v))->Arr_0 =~= values(v@));
}

pub broadcast proof fn lemma_value_of_obj(v: Vec<(String, Json)>)
    ensures
        #[trigger] value_of(Json::Obj(v)) == Value::Obj(fields(v@)),
{
    assert(value_of(Json::Obj(v))->Obj_0 =~= fields(v@));
}

/// The value under `key`, the first one if there are several.
pub open spec fn lookup(f: Seq<(Seq<char>, Value)>, key: Seq<char>) -> Option<Value>
    decreases f.len(),
{
    if f.len() == 0 {
        None
    } else if f[0].0 == key {
        Some(f[0].1)
    } else {
        lookup(f.drop_first(), key)
    }
}

impl Value {
    /// The value of the field `key`, of an object that has it.
    pub open spec fn field(self, key: Seq<char>) -> Option<Value> {
        match self {
            Value::Obj(f) => lookup(f, key),
            _ => None,
        }
    }
}

impl Clone for Json {
    fn clone(&self) -> (r: Json)
        ensures
            r@ == self@,
    {
        self.copied()
    }
}

impl Json {
    fn copied(&self) -> (r: Json)
        ensures
            r@ == self@,
        decreases self,
    {
        broadcast use {lemma_value_of_arr, lemma_value_of_obj};

        match self {
            Json::Null => Json::Null,
            Json::Bool(b) => Json::Bool(*b),
            Json::Num(n) => Json::Num(*n),
            Json::Str(s) => Json::Str(s.clone()),
            Json::Arr(items) => {
                let mut out: Vec<Json> = Vec::new();
                let mut i: usize = 0;
                while i < items.len()
                    invariant
                        i <= items@.len(),
                        self == Json::Arr(*items),
                        out@.len() == i,
                        forall|j: int| 0 <= j < i ==> (#[trigger] out@[j])@ == items@[j]@,
                    decreases items@.len() - i,
                {
                    assert(decreases_to!(*self => self->Arr_0));
                    assert(decreases_to!(*items => items@[i as int]));
                    let item: Json = items[i].copied();
                    out.push(item);
                    i = i + 1;
                }
                assert(values(out@) =~= values(items@));
                Json::Arr(out)
            },
            Json::Obj(items) => {
                let mut out: Vec<(String, Json)> = Vec::new();
                let mut i: usize = 0;
                while i < items.len()
                    invariant
                        i <= items@.len(),
                        self == Json::Obj(*items),
                        out@.len() == i,
                        forall|j: int|
                            0 <= j < i ==> (#[trigger] out@[j]).0@ == items@[j].0@ && out@[j].1@
                                == items@[j].1@,
                    decreases items@.len() - i,
                {
                    assert(decreases_to!(*self => self->Obj_0));
                    assert(decreases_to!(*items => items@[i as int]));
                    assert(decreases_to!(items@[i as int] => items@[i as int].1));
                    let key: String = items[i].0.clone();
                    let item: Json = items[i].1.copied();
                    out.push((key, item));
                    i = i + 1;
                }
                assert(fields(out@) =~= fields(items@));
                Json::Obj(out)
            },
        }
    }

    /// Builds an object from borrowed key/value pairs.
    pub fn obj(fields: &[(&str, Json)]) -> (r: Json)
        ensures
            r@ == Value::Obj(Seq::new(fields@.len(), |i: int| (fields@[i].0@, fields@[i].1@))),
    {
        broadcast use lemma_value_of_obj;

        let mut out: Vec<(String, Json)> = Vec::new();
        let mut i: usize = 0;
        while i < fields.len()
            invariant
                i <= fields@.len(),
                out@.len() == i,
                forall|j: int|
                    0 <= j < i ==> (#[trigger] out@[j]).0@ == fields@[j].0@ && out@[j].1@
                        == fields@[j].1@,
            decreases fields@.len() - i,
        {
            out.push((fields[i].0.to_owned(), fields[i].1.clone()));
            i = i + 1;
        }
        proof {
            assert(self::fields(out@) =~= Seq::new(
                fields@.len(),
                |i: int| (fields@[i].0@, fields@[i].1@),
            ));
        }
        Json::Obj(out)
    }

    /// Builds an object whose values are all strings.
    pub fn obj_str(fields: &[(&str, &str)]) -> (r: Json)
        ensures
            r@ == Value::Obj(
                Seq::new(fields@.len(), |i: int| (fields@[i].0@, Value::Str(fields@[i].1@))),
            ),
    {
        broadcast use lemma_value_of_obj;

        let mut out: Vec<(String, Json)> = Vec::new();
        let mut i: usize = 0;
        while i < fields.len()
            invariant
                i <= fields@.len(),
                out@.len() == i,
                forall|j: int|
                    0 <= j < i ==> (#[trigger] out@[j]).0@ == fields@[j].0@ && out@[j].1@
                        == Value::Str(fields@[j].1@),
            decreases fields@.len() - i,
        {
            out.push((fields[i].0.to_owned(), Json::Str(fields[i].1.to_owned())));
            i = i + 1;
        }
        proof {
            assert(self::fields(out@) =~= Seq::new(
                fields@.len(),
                |i: int| (fields@[i].0@, Value::Str(fields@[i].1@)),
            ));
        }
        Json::Obj(out)
    }

    /// Builds an object whose values are all numbers.
    pub fn obj_num(fields: &[(&str, u64)]) -> (r: Json)
        ensures
            r@ == Value::Obj(
                Seq::new(fields@.len(), |i: int| (fields@[i].0@, Value::Num(fields@[i].1))),
            ),
    {
        broadcast use lemma_value_of_obj;

        let mut out: Vec<(String, Json)> = Vec::new();
        let mut i: usize = 0;
        while i < fields.len()
            invariant
                i <= fields@.len(),
                out@.len() == i,
                forall|j: int|
                    0 <= j < i ==> (#[trigger] out@[j]).0@ == fields@[j].0@ && out@[j].1@
                        == Value::Num(fields@[j].1),
            decreases fields@.len() - i,
        {
            out.push((fields[i].0.to_owned(), Json::Num(fields[i].1)));
            i = i + 1;
        }
        proof {
            assert(self::fields(out@) =~= Seq::new(
                fields@.len(),
                |i: int| (fields@[i].0@, Value::Num(fields@[i].1)),
            ));
        }
        Json::Obj(out)
    }

    /// A string value.
    pub fn str(s: &str) -> (r: Json)
        ensures
            r@ == Value::Str(s@),
    {
        Json::Str(s.to_owned())
    }

    /// A number value, from the bit pattern of a double.
    pub fn num(bits: u64) -> (r: Json)
        ensures
            r@ == Value::Num(bits),
    {
        Json::Num(bits)
    }

    /// An unsigned integer value, as the nearest double.
    pub fn uint(n: u64) -> (r: Json)
        ensures
            r@ == uint_value(n),
    {
        Json::Num(double_of_u64(n))
    }

    /// An array value.
    pub fn arr(items: Vec<Json>) -> (r: Json)
        ensures
            r@ == Value::Arr(values(items@)),
    {
        broadcast use lemma_value_of_arr;

        Json::Arr(items)
    }

    /// Looks up a top-level object field by key.
    pub fn get(&self, key: &str) -> (r: Option<&Json>)
        ensures
            match r {
                Some(j) => self@.field(key@) == Some(j@),
                None => self@.field(key@) is None,
            },
    {
        if let Json::Obj(f) = self {
            let mut i: usize = 0;
            proof {
                lemma_value_of_obj(*f);
                assert(fields(f@).skip(0) =~= fields(f@));
            }
            while i < f.len()
                invariant
                    i <= f@.len(),
                    self@ == Value::Obj(fields(f@)),
                    lookup(fields(f@), key@) == lookup(fields(f@).skip(i as int), key@),
                decreases f@.len() - i,
            {
                proof {
                    assert(fields(f@).skip(i as int)[0] == (f@[i as int].0@, f@[i as int].1@));
                    assert(fields(f@).skip(i as int).drop_first() =~= fields(f@).skip(i + 1));
                }
                if same_text(f[i].0.as_str(), key) {
                    return Some(&f[i].1);
                }
                i = i + 1;
            }
            None
        } else {
            None
        }
    }

    /// Borrow the inner string, if this is one.
    pub fn as_str(&self) -> (r: Option<&str>)
        ensures
            match r {
                Some(s) => self@ == Value::Str(s@),
                None => !(self@ is Str),
            },
    {
        if let Json::Str(s) = self {
            Some(s.as_str())
        } else {
            None
        }
    }

    /// The inner number as an unsigned integer, if this is a number.
    pub fn as_u64(&self) -> (r: Option<u64>)
        ensures
            r == as_uint(self@),
    {
        if let Json::Num(n) = self {
            Some(double_to_u64(*n))
        } else {
            None
        }
    }

    /// The inner bool, if this is one.
    pub fn as_bool(&self) -> (r: Option<bool>)
        ensures
            r == (match self@ {
                Value::Bool(b) => Some(b),
                _ => None,
            }),
    {
        if let Json::Bool(b) = self {
            Some(*b)
        } else {
            None
        }
    }

    /// Borrow the inner array, if this is one.
    pub fn as_array(&self) -> (r: Option<&[Json]>)
        ensures
            match r {
                Some(items) => self@ == Value::Arr(values(items@)),
                None => !(self@ is Arr),
            },
    {
        broadcast use lemma_value_of_arr;

        if let Json::Arr(items) = self {
            Some(items.as_slice())
        } else {
            None
        }
    }
}

/// The value of the integer `n`.
pub open spec fn uint_value(n: u64) -> Value {
    Value::Num(nearest(Width::Double, n as nat, 1) as u64)
}

/// The unsigned integer that a number stands for.
pub open spec fn as_uint(v: Value) -> Option<u64> {
    match v {
        Value::Num(n) => Some(double_as_u64(n)),
        _ => None,
    }
}

// --- Text ------------------------------------------------------------------

/// The hexadecimal digit `d`, in lower case.
pub open spec fn hex_char(d: nat) -> char {
    if d < 10 {
        (48 + d) as u8 as char
    } else {
        (87 + d) as u8 as char
    }
}

/// How the character `c` stands inside a JSON string.
pub open spec fn escaped_char(c: char) -> Seq<char> {
    if c == '"' {
        seq!['\\', '"']
    } else if c == '\\' {
        seq!['\\', '\\']
    } else if c == '\n' {
        seq!['\\', 'n']
    } else if c == '\r' {
        seq!['\\', 'r']
    } else if c == '\t' {
        seq!['\\', 't']
    } else if c == '\u{08}' {
        seq!['\\', 'b']
    } else if c == '\u{0c}' {
        seq!['\\', 'f']
    } else if (c as u32) < 0x20 {
        seq![
            '\\',
            'u',
            '0',
            '0',
            hex_char((c as u32 / 16) as nat),
            hex_char((c as u32 % 16) as nat),
        ]
    } else {
        seq![c]
    }
}

/// The characters `s` as they stand inside a JSON string.
pub open spec fn escaped(s: Seq<char>) -> Seq<char>
    decreases s.len(),
{
    if s.len() == 0 {
        Seq::empty()
    } else {
        escaped_char(s[0]) + escaped(s.drop_first())
    }
}

/// The JSON string of the characters `s`.
pub open spec fn string_text(s: Seq<char>) -> Seq<char> {
    seq!['"'] + escaped(s) + seq!['"']
}

/// The text of a number: whole numbers below ten to the power of fifteen as
/// integers, all others in the fewest digits that read as them.
pub open spec fn number_text(bits: u64) -> Seq<char> {
    let w = Width::Double;
    let b = magnitude(w, bits as nat);
    if b < w.infinity() && is_whole(w, b) && whole_part(w, b) < 1_000_000_000_000_000 {
        let n = whole_part(w, b);
        if sign_set(w, bits as nat) && n != 0 {
            seq!['-'] + decimal(n)
        } else {
            decimal(n)
        }
    } else {
        display(w, bits as nat)
    }
}

/// The compact text of a value.
pub open spec fn text(v: Value) -> Seq<char>
    decreases v,
{
    match v {
        Value::Null => "null"@,
        Value::Bool(b) => if b {
            "true"@
        } else {
            "false"@
        },
        Value::Num(bits) => number_text(bits),
        Value::Str(s) => string_text(s),
        Value::Arr(items) => seq!['['] + items_text(items, true) + seq![']'],
        Value::Obj(f) => seq!['{'] + fields_text(f, true) + seq!['}'],
    }
}

/// The texts of several values, each but the `first` after a comma.
pub open spec fn items_text(items: Seq<Value>, first: bool) -> Seq<char>
    decreases items,
{
    if items.len() == 0 {
        Seq::empty()
    } else {
        comma(first) + text(items[0]) + items_text(items.drop_first(), false)
    }
}

/// The texts of several fields, each but the `first` after a comma.
pub open spec fn fields_text(f: Seq<(Seq<char>, Value)>, first: bool) -> Seq<char>
    decreases f,
{
    if f.len() == 0 {
        Seq::empty()
    } else {
        comma(first) + string_text(f[0].0) + seq![':'] + text(f[0].1) + fields_text(
            f.drop_first(),
            false,
        )
    }
}

/// What stands before an item.
pub open spec fn comma(first: bool) -> Seq<char> {
    if first {
        Seq::empty()
    } else {
        seq![',']
    }
}

fn hex_digit(d: u32) -> (c: char)
    requires
        d < 16,
    ensures
        c == hex_char(d as nat),
{
    if d < 10 {
        (48u8 + d as u8) as char
    } else {
        (87u8 + d as u8) as char
    }
}

/// Appends the JSON string of `s`.
fn write_json_string(s: &str, out: &mut String)
    ensures
        final(out)@ == old(out)@ + string_text(s@),
{
    out.push('"');
    let chars: Vec<char> = chars_of(s);
    let mut i: usize = 0;
    proof {
        assert(chars@.skip(0) =~= chars@);
        assert(out@ + escaped(chars@) =~= old(out)@ + seq!['"'] + escaped(s@));
    }
    while i < chars.len()
        invariant
            i <= chars@.len(),
            chars@ == s@,
            out@ + escaped(chars@.skip(i as int)) == old(out)@ + seq!['"'] + escaped(s@),
        decreases chars@.len() - i,
    {
        let c: char = chars[i];
        let ghost before = out@;
        if c == '"' {
            out.push('\\');
            out.push('"');
        } else if c == '\\' {
            out.push('\\');
            out.push('\\');
        } else if c == '\n' {
            out.push('\\');
            out.push('n');
        } else if c == '\r' {
            out.push('\\');
            out.push('r');
        } else if c == '\t' {
            out.push('\\');
            out.push('t');
        } else if c == '\u{08}' {
            out.push('\\');
            out.push('b');
        } else if c == '\u{0c}' {
            out.push('\\');
            out.push('f');
        } else if (c as u32) < 0x20 {
            out.push('\\');
            out.push('u');
            out.push('0');
            out.push('0');
            out.push(hex_digit(c as u32 / 16));
            out.push(hex_digit(c as u32 % 16));
        } else {
            out.push(c);
        }
        proof {
            let rest = chars@.skip(i as int);
            assert(rest.drop_first() =~= chars@.skip(i + 1));
            assert(out@ =~= before + escaped_char(c));
            assert(out@ + escaped(chars@.skip(i + 1)) =~= before + escaped(rest));
        }
        i = i + 1;
    }
    proof {
        assert(chars@.skip(i as int) =~= Seq::<char>::empty());
        assert(out@ =~= old(out)@ + seq!['"'] + escaped(s@));
    }
    out.push('"');
    assert(out@ =~= old(out)@ + string_text(s@));
}

/// Appends the text of a number.
fn write_number(bits: u64, out: &mut String)
    ensures
        final(out)@ == old(out)@ + number_text(bits),
{
    let w: Width = Width::Double;
    let (b, negative): (u64, bool) = split_sign(w, bits);
    if b < 0x7ff0_0000_0000_0000 {
        let (n, whole): (Nat, bool) = whole_part_exec(w, b);
        let limit: Nat = Nat::from_u64(1_000_000_000_000_000);
        if whole && matches!(n.rank(&limit), Rank::Below) {
            if negative && !n.is_zero() {
                out.push('-');
            }
            let mut digits: Vec<char> = Vec::new();
            push_natural(&mut digits, &n);
            push_chars(out, digits.as_slice());
            assert(out@ =~= old(out)@ + number_text(bits));
            return;
        }
    }
    let all: Vec<char> = display_exec(w, bits);
    push_chars(out, all.as_slice());
}

impl Json {
    /// Serializes to a compact JSON string.
    pub fn write_to_string(&self) -> (r: String)
        ensures
            r@ == text(self@),
    {
        let mut out: String = String::new();
        self.write(&mut out);
        assert(out@ =~= text(self@));
        out
    }

    /// Appends the compact text of the value.
    fn write(&self, out: &mut String)
        ensures
            final(out)@ == old(out)@ + text(self@),
        decreases self,
    {
        match self {
            Json::Null => out.append("null"),
            Json::Bool(b) => if *b {
                out.append("true")
            } else {
                out.append("false")
            },
            Json::Num(n) => write_number(*n, out),
            Json::Str(s) => write_json_string(s.as_str(), out),
            Json::Arr(items) => {
                out.push('[');
                let mut i: usize = 0;
                let ghost all = values(items@);
                proof {
                    lemma_value_of_arr(*items);
                    assert(all.skip(0) =~= all);
                    assert(out@ + items_text(all, true) =~= old(out)@ + seq!['['] + items_text(
                        all,
                        true,
                    ));
                }
                while i < items.len()
                    invariant
                        i <= items@.len(),
                        all == values(items@),
                        self == Json::Arr(*items),
                        out@ + items_text(all.skip(i as int), i == 0) == old(out)@ + seq!['[']
                            + items_text(all, true),
                    decreases items@.len() - i,
                {
                    assert(decreases_to!(*self => self->Arr_0));
                    assert(decreases_to!(*items => items@[i as int]));
                    let ghost before = out@;
                    if i > 0 {
                        out.push(',');
                    }
                    items[i].write(out);
                    proof {
                        let rest = all.skip(i as int);
                        assert(rest.drop_first() =~= all.skip(i + 1));
                        assert(rest[0] == items@[i as int]@);
                        assert(out@ =~= before + (comma(i == 0) + text(rest[0])));
                        assert(out@ + items_text(all.skip(i + 1), false) =~= before + items_text(
                            rest,
                            i == 0,
                        ));
                    }
                    i = i + 1;
                }
                out.push(']');
                proof {
                    assert(all.skip(i as int) =~= Seq::<Value>::empty());
                    assert(out@ =~= old(out)@ + text(self@));
                }
            },
            Json::Obj(f) => {
                out.push('{');
                let mut i: usize = 0;
                let ghost all = fields(f@);
                proof {
                    lemma_value_of_obj(*f);
                    assert(all.skip(0) =~= all);
                    assert(out@ + fields_text(all, true) =~= old(out)@ + seq!['{'] + fields_text(
                        all,
                        true,
                    ));
                }
                while i < f.len()
                    invariant
                        i <= f@.len(),
                        all == fields(f@),
                        self == Json::Obj(*f),
                        out@ + fields_text(all.skip(i as int), i == 0) == old(out)@ + seq!['{']
                            + fields_text(all, true),
                    decreases f@.len() - i,
                {
                    assert(decreases_to!(*self => self->Obj_0));
                    assert(decreases_to!(*f => f@[i as int]));
                    assert(decreases_to!(f@[i as int] => f@[i as int].1));
                    let ghost before = out@;
                    if i > 0 {
                        out.push(',');
                    }
                    write_json_string(f[i].0.as_str(), out);
                    out.push(':');
                    f[i].1.write(out);
                    proof {
                        let rest = all.skip(i as int);
                        assert(rest.drop_first() =~= all.skip(i + 1));
                        assert(rest[0] == (f@[i as int].0@, f@[i as int].1@));
                        assert(out@ =~= before + (comma(i == 0) + string_text(rest[0].0) + seq![
                            ':',
                        ] + text(rest[0].1)));
                        assert(out@ + fields_text(all.skip(i + 1), false) =~= before + fields_text(
                            rest,
                            i == 0,
                        ));
                    }
                    i = i + 1;
                }
                out.push('}');
                proof {
                    assert(all.skip(i as int) =~= Seq::<(Seq<char>, Value)>::empty());
                    assert(out@ =~= old(out)@ + text(self@));
                }
            },
        }
    }
}

// --- Parser ----------------------------------------------------------------

/// Whether `c` may stand between tokens.
pub open spec fn is_blank(c: u8) -> bool {
    c == (' ' as u8) || c == ('\t' as u8) || c == ('\n' as u8) || c == ('\r' as u8)
}

/// The first position from `i` on that holds no blank.
pub open spec fn blank_end(b: Seq<u8>, i: int) -> int
    decreases b.len() - i,
{
    if 0 <= i < b.len() && is_blank(b[i]) {
        blank_end(b, i + 1)
    } else {
        i
    }
}

pub proof fn lemma_blank_end(b: Seq<u8>, i: int)
    ensures
        i <= blank_end(b, i),
        i <= b.len() ==> blank_end(b, i) <= b.len(),
    decreases b.len() - i,
{
    if 0 <= i < b.len() && is_blank(b[i]) {
        lemma_blank_end(b, i + 1);
    }
}

/// The value of a hexadecimal digit.
pub open spec fn hex_value(c: u8) -> Option<nat> {
    if ('0' as u8) <= c <= ('9' as u8) {
        Some((c - ('0' as u8)) as nat)
    } else if ('a' as u8) <= c <= ('f' as u8) {
        Some((c - ('a' as u8) + 10) as nat)
    } else if ('A' as u8) <= c <= ('F' as u8) {
        Some((c - ('A' as u8) + 10) as nat)
    } else {
        None
    }
}

/// The number that hexadecimal digits write.
pub open spec fn hex_number(digits: Seq<u8>) -> Option<nat>
    decreases digits.len(),
{
    if digits.len() == 0 {
        Some(0)
    } else {
        match (hex_number(digits.drop_last()), hex_value(digits.last())) {
            (Some(high), Some(low)) => Some(16 * high + low),
            _ => None,
        }
    }
}

/// The code in the four bytes of a `\u` escape: hexadecimal digits, the first
/// of which may be a `+`.
pub open spec fn escape_code(four: Seq<u8>) -> Option<nat> {
    if four[0] == ('+' as u8) {
        hex_number(four.skip(1))
    } else {
        hex_number(four)
    }
}

/// The character of the escape whose letter stands at `i`, with the position
/// past it.
pub open spec fn escape_at(b: Seq<u8>, i: int) -> Result<(char, int), Seq<char>> {
    if i >= b.len() {
        Err("unterminated escape"@)
    } else if b[i] == ('"' as u8) {
        Ok(('"', i + 1))
    } else if b[i] == ('\\' as u8) {
        Ok(('\\', i + 1))
    } else if b[i] == ('/' as u8) {
        Ok(('/', i + 1))
    } else if b[i] == ('n' as u8) {
        Ok(('\n', i + 1))
    } else if b[i] == ('r' as u8) {
        Ok(('\r', i + 1))
    } else if b[i] == ('t' as u8) {
        Ok(('\t', i + 1))
    } else if b[i] == ('b' as u8) {
        Ok(('\u{08}', i + 1))
    } else if b[i] == ('f' as u8) {
        Ok(('\u{0c}', i + 1))
    } else if b[i] == ('u' as u8) {
        if i + 5 > b.len() {
            Err("bad \\u escape"@)
        } else {
            match escape_code(b.subrange(i + 1, i + 5)) {
                None => Err("bad \\u escape"@),
                Some(code) => if vstd::utf8::is_scalar(code as u32) {
                    Ok((code as u32 as char, i + 5))
                } else {
                    Err("bad \\u codepoint"@)
                },
            }
        }
    } else {
        Err("bad escape '\\"@ + seq![b[i] as char] + "'"@)
    }
}

/// The characters from `i` to the quote that closes the string, with the
/// position past the quote. A byte outside an escape is the character of the
/// same number.
pub open spec fn chars_at(b: Seq<u8>, i: int) -> Result<(Seq<char>, int), Seq<char>>
    decreases b.len() - i,
{
    if i >= b.len() {
        Err("unterminated string"@)
    } else if b[i] == ('"' as u8) {
        Ok((Seq::empty(), i + 1))
    } else if b[i] == ('\\' as u8) {
        match escape_at(b, i + 1) {
            Err(e) => Err(e),
            Ok((c, j)) => prepend(seq![c], chars_at(b, j)),
        }
    } else {
        prepend(seq![b[i] as char], chars_at(b, i + 1))
    }
}

/// A parse of characters with `head` before them.
pub open spec fn prepend(
    head: Seq<char>,
    rest: Result<(Seq<char>, int), Seq<char>>,
) -> Result<(Seq<char>, int), Seq<char>> {
    match rest {
        Ok((tail, end)) => Ok((head + tail, end)),
        Err(e) => Err(e),
    }
}

/// The string whose opening quote stands at `i`.
pub open spec fn string_at(b: Seq<u8>, i: int) -> Result<(Seq<char>, int), Seq<char>> {
    chars_at(b, i + 1)
}

pub open spec fn is_digit_byte(c: u8) -> bool {
    ('0' as u8) <= c <= ('9' as u8)
}

/// The first position from `i` on that holds no digit.
pub open spec fn digits_end(b: Seq<u8>, i: int) -> int
    decreases b.len() - i,
{
    if 0 <= i < b.len() && is_digit_byte(b[i]) {
        digits_end(b, i + 1)
    } else {
        i
    }
}

/// The position past the sign at `i`, if one of the given kind stands there.
pub open spec fn past(b: Seq<u8>, i: int, one: u8, other: u8) -> int {
    if 0 <= i < b.len() && (b[i] == one || b[i] == other) {
        i + 1
    } else {
        i
    }
}

/// The position past the number token at `i`: an optional `-`, digits,
/// optionally a point with digits, optionally `e` or `E` with an optional sign
/// and digits.
pub open spec fn number_end(b: Seq<u8>, i: int) -> int {
    let whole = digits_end(b, past(b, i, ('-' as u8), ('-' as u8)));
    let point = past(b, whole, ('.' as u8), ('.' as u8));
    let fraction = if point > whole {
        digits_end(b, point)
    } else {
        whole
    };
    let mark = past(b, fraction, ('e' as u8), ('E' as u8));
    if mark > fraction {
        digits_end(b, past(b, mark, ('+' as u8), ('-' as u8)))
    } else {
        fraction
    }
}

/// Bytes as the characters of the same numbers.
pub open spec fn byte_chars(b: Seq<u8>) -> Seq<char> {
    b.map_values(|x: u8| x as char)
}

/// The number whose token starts at `i`.
pub open spec fn number_at(b: Seq<u8>, i: int) -> Result<(Value, int), Seq<char>> {
    let end = number_end(b, i);
    match read_value(Width::Double, byte_chars(b.subrange(i, end))) {
        Some(bits) => Ok((Value::Num(bits as u64), end)),
        None => Err("invalid number"@),
    }
}

/// The value `v` if the word `word` stands at `i`.
pub open spec fn word_at(b: Seq<u8>, i: int, word: Seq<char>, v: Value) -> Result<
    (Value, int),
    Seq<char>,
> {
    if i + word.len() <= b.len() && byte_chars(b.subrange(i, i + word.len())) == word {
        Ok((v, i + word.len() as int))
    } else {
        Err("expected '"@ + word + "'"@)
    }
}

/// The value at `i`, after blanks, with the position past it.
pub open spec fn value_at(b: Seq<u8>, i: int) -> Result<(Value, int), Seq<char>>
    decreases b.len() - i, 2int,
{
    let j = blank_end(b, i);
    proof {
        lemma_blank_end(b, i);
    }
    if j >= b.len() {
        Err("unexpected end of input"@)
    } else if b[j] == ('"' as u8) {
        match string_at(b, j) {
            Ok((s, end)) => Ok((Value::Str(s), end)),
            Err(e) => Err(e),
        }
    } else if b[j] == ('{' as u8) {
        object_at(b, j)
    } else if b[j] == ('[' as u8) {
        array_at(b, j)
    } else if b[j] == ('t' as u8) {
        word_at(b, j, "true"@, Value::Bool(true))
    } else if b[j] == ('f' as u8) {
        word_at(b, j, "false"@, Value::Bool(false))
    } else if b[j] == ('n' as u8) {
        word_at(b, j, "null"@, Value::Null)
    } else if b[j] == ('-' as u8) || is_digit_byte(b[j]) {
        number_at(b, j)
    } else {
        Err("unexpected character '"@ + seq![b[j] as char] + "' in JSON"@)
    }
}

/// The array whose bracket stands at `i`.
pub open spec fn array_at(b: Seq<u8>, i: int) -> Result<(Value, int), Seq<char>>
    decreases b.len() - i, 1int,
{
    let j = blank_end(b, i + 1);
    proof {
        lemma_blank_end(b, i + 1);
    }
    if i >= b.len() {
        Err("unexpected end of input"@)
    } else if j < b.len() && b[j] == (']' as u8) {
        Ok((Value::Arr(Seq::empty()), j + 1))
    } else {
        match items_at(b, j) {
            Ok((items, end)) => Ok((Value::Arr(items), end)),
            Err(e) => Err(e),
        }
    }
}

/// The items of an array from the one at `i` on.
pub open spec fn items_at(b: Seq<u8>, i: int) -> Result<(Seq<Value>, int), Seq<char>>
    decreases b.len() - i, 3int,
{
    match value_at(b, i) {
        Err(e) => Err(e),
        Ok((v, end)) => {
            let j = blank_end(b, end);
            if j >= b.len() || j < i {
                Err("unterminated array"@)
            } else if b[j] == (',' as u8) {
                match items_at(b, j + 1) {
                    Ok((rest, last)) => Ok((seq![v] + rest, last)),
                    Err(e) => Err(e),
                }
            } else if b[j] == (']' as u8) {
                Ok((seq![v], j + 1))
            } else {
                Err("expected ',' or ']' in array"@)
            }
        },
    }
}

/// The object whose brace stands at `i`.
pub open spec fn object_at(b: Seq<u8>, i: int) -> Result<(Value, int), Seq<char>>
    decreases b.len() - i, 1int,
{
    let j = blank_end(b, i + 1);
    proof {
        lemma_blank_end(b, i + 1);
    }
    if i >= b.len() {
        Err("unexpected end of input"@)
    } else if j < b.len() && b[j] == ('}' as u8) {
        Ok((Value::Obj(Seq::empty()), j + 1))
    } else {
        match fields_at(b, j) {
            Ok((f, end)) => Ok((Value::Obj(f), end)),
            Err(e) => Err(e),
        }
    }
}

/// The fields of an object from the one at `i` on.
pub open spec fn fields_at(b: Seq<u8>, i: int) -> Result<(Seq<(Seq<char>, Value)>, int), Seq<char>>
    decreases b.len() - i, 3int,
{
    let k = blank_end(b, i);
    if k >= b.len() || b[k] != ('"' as u8) {
        Err("expected object key string"@)
    } else {
        match string_at(b, k) {
            Err(e) => Err(e),
            Ok((key, key_end)) => {
                let c = blank_end(b, key_end);
                if c >= b.len() || b[c] != (':' as u8) || c < i {
                    Err("expected ':' in object"@)
                } else {
                    match value_at(b, c + 1) {
                        Err(e) => Err(e),
                        Ok((v, end)) => {
                            let j = blank_end(b, end);
                            if j >= b.len() || j < i {
                                Err("unterminated object"@)
                            } else if b[j] == (',' as u8) {
                                match fields_at(b, j + 1) {
                                    Ok((rest, last)) => Ok((seq![(key, v)] + rest, last)),
                                    Err(e) => Err(e),
                                }
                            } else if b[j] == ('}' as u8) {
                                Ok((seq![(key, v)], j + 1))
                            } else {
                                Err("expected ',' or '}' in object"@)
                            }
                        },
                    }
                }
            },
        }
    }
}

/// What `bytes` parse as: one value with blanks around it.
pub open spec fn parse_result(b: Seq<u8>) -> Result<Value, Seq<char>> {
    match value_at(b, 0) {
        Err(e) => Err(e),
        Ok((v, end)) => if blank_end(b, end) == b.len() {
            Ok(v)
        } else {
            Err("trailing data after JSON value"@)
        },
    }
}

/// Moves past blanks.
fn skip_ws(b: &[u8], i: &mut usize)
    requires
        *old(i) <= b@.len(),
    ensures
        *final(i) == blank_end(b@, *old(i) as int),
        *old(i) <= *final(i) <= b@.len(),
{
    while *i < b.len()
        invariant
            *old(i) <= *i <= b@.len(),
            blank_end(b@, *old(i) as int) == blank_end(b@, *i as int),
        ensures
            *old(i) <= *i <= b@.len(),
            blank_end(b@, *old(i) as int) == *i,
        decreases b@.len() - *i,
    {
        let c: u8 = b[*i];
        if c == (' ' as u8) || c == ('\t' as u8) || c == ('\n' as u8) || c == ('\r' as u8) {
            *i = *i + 1;
        } else {
            break;
        }
    }
}

/// Moves past digits.
fn skip_digits(b: &[u8], i: &mut usize)
    requires
        *old(i) <= b@.len(),
    ensures
        *final(i) == digits_end(b@, *old(i) as int),
        *old(i) <= *final(i) <= b@.len(),
        *old(i) < b@.len() && is_digit_byte(b@[*old(i) as int]) ==> *old(i) < *final(i),
{
    while *i < b.len() && ('0' as u8) <= b[*i] && b[*i] <= ('9' as u8)
        invariant
            *old(i) <= *i <= b@.len(),
            digits_end(b@, *old(i) as int) == digits_end(b@, *i as int),
        decreases b@.len() - *i,
    {
        *i = *i + 1;
    }
}

/// Moves past the byte at `i` if it is one of two.
fn skip_one(b: &[u8], i: &mut usize, one: u8, other: u8) -> (moved: bool)
    requires
        *old(i) <= b@.len(),
    ensures
        *final(i) == past(b@, *old(i) as int, one, other),
        *old(i) <= *final(i) <= b@.len(),
        moved == (*final(i) > *old(i)),
{
    if *i < b.len() && (b[*i] == one || b[*i] == other) {
        *i = *i + 1;
        true
    } else {
        false
    }
}

fn hex_digit_value(c: u8) -> (r: Option<u32>)
    ensures
        match r {
            Some(v) => hex_value(c) == Some(v as nat) && v < 16,
            None => hex_value(c) is None,
        },
{
    if ('0' as u8) <= c && c <= ('9' as u8) {
        Some((c - ('0' as u8)) as u32)
    } else if ('a' as u8) <= c && c <= ('f' as u8) {
        Some((c - ('a' as u8) + 10) as u32)
    } else if ('A' as u8) <= c && c <= ('F' as u8) {
        Some((c - ('A' as u8) + 10) as u32)
    } else {
        None
    }
}

proof fn lemma_hex_number_prefix(digits: Seq<u8>, n: int)
    requires
        0 <= n <= digits.len(),
        hex_number(digits.take(n)) is None,
    ensures
        hex_number(digits) is None,
    decreases digits.len() - n,
{
    if n < digits.len() {
        let more = digits.take(n + 1);
        assert(more.drop_last() =~= digits.take(n));
        lemma_hex_number_prefix(digits, n + 1);
    } else {
        assert(digits.take(n) =~= digits);
    }
}

/// The code in the four bytes of a `\u` escape.
fn escape_code_exec(four: &[u8]) -> (r: Option<u32>)
    requires
        four@.len() == 4,
    ensures
        match r {
            Some(code) => escape_code(four@) == Some(code as nat),
            None => escape_code(four@) is None,
        },
{
    let mut i: usize = if four[0] == ('+' as u8) {
        1
    } else {
        0
    };
    let ghost start = i as int;
    let ghost digits = four@.skip(start);
    let mut code: u32 = 0;
    proof {
        assert(four@.skip(0) =~= four@);
        assert(digits.take(0) =~= Seq::<u8>::empty());
    }
    while i < 4
        invariant
            0 <= start <= i <= 4,
            four@.len() == 4,
            digits == four@.skip(start),
            escape_code(four@) == hex_number(digits),
            hex_number(digits.take(i - start)) == Some(code as nat),
            i == 0 ==> code < 1,
            i == 1 ==> code < 16,
            i == 2 ==> code < 256,
            i == 3 ==> code < 4096,
            i == 4 ==> code < 65536,
        decreases 4 - i,
    {
        proof {
            let more = digits.take(i - start + 1);
            assert(more.drop_last() =~= digits.take(i - start));
            assert(more.last() == four@[i as int]);
        }
        match hex_digit_value(four[i]) {
            Some(v) => {
                code = code * 16 + v;
            },
            None => {
                proof {
                    lemma_hex_number_prefix(digits, i - start + 1);
                }
                return None;
            },
        }
        i = i + 1;
    }
    proof {
        assert(digits.take(i - start) =~= digits);
    }
    Some(code)
}

/// Reads the escape whose letter stands at `i`.
fn parse_escape(b: &[u8], i: &mut usize) -> (r: Result<char, String>)
    requires
        *old(i) <= b@.len(),
    ensures
        match r {
            Ok(c) => {
                &&& escape_at(b@, *old(i) as int) == Ok::<(char, int), Seq<char>>(
                    (c, *final(i) as int),
                )
                &&& *old(i) < *final(i) <= b@.len()
            },
            Err(e) => escape_at(b@, *old(i) as int) == Err::<(char, int), Seq<char>>(e@),
        },
{
    if *i >= b.len() {
        return Err("unterminated escape".to_owned());
    }
    let e: u8 = b[*i];
    *i = *i + 1;
    if e == ('"' as u8) {
        Ok('"')
    } else if e == ('\\' as u8) {
        Ok('\\')
    } else if e == ('/' as u8) {
        Ok('/')
    } else if e == ('n' as u8) {
        Ok('\n')
    } else if e == ('r' as u8) {
        Ok('\r')
    } else if e == ('t' as u8) {
        Ok('\t')
    } else if e == ('b' as u8) {
        Ok('\u{08}')
    } else if e == ('f' as u8) {
        Ok('\u{0c}')
    } else if e == ('u' as u8) {
        if b.len() - *i < 4 {
            return Err("bad \\u escape".to_owned());
        }
        let four: &[u8] = vstd::slice::slice_subrange(b, *i, *i + 4);
        match escape_code_exec(four) {
            None => Err("bad \\u escape".to_owned()),
            Some(code) => {
                *i = *i + 4;
                match char::from_u32(code) {
                    Some(c) => {
                        proof {
                            vstd::utf8::char_u32_cast(c, code);
                        }
                        Ok(c)
                    },
                    None => Err("bad \\u codepoint".to_owned()),
                }
            },
        }
    } else {
        let mut msg: String = "bad escape '\\".to_owned();
        msg.push(e as char);
        msg.append("'");
        assert(msg@ =~= "bad escape '\\"@ + seq![e as char] + "'"@);
        Err(msg)
    }
}

/// Reads the string whose opening quote stands at `i`.
fn parse_string(b: &[u8], i: &mut usize) -> (r: Result<String, String>)
    requires
        *old(i) < b@.len(),
    ensures
        match r {
            Ok(s) => {
                &&& string_at(b@, *old(i) as int) == Ok::<(Seq<char>, int), Seq<char>>(
                    (s@, *final(i) as int),
                )
                &&& *old(i) < *final(i) <= b@.len()
            },
            Err(e) => string_at(b@, *old(i) as int) == Err::<(Seq<char>, int), Seq<char>>(e@),
        },
{
    let ghost start = *i as int;
    assert(*i < b.len());
    *i = *i + 1;
    let mut s: String = String::new();
    proof {
        lemma_prepend_empty(chars_at(b@, *i as int));
    }
    while *i < b.len()
        invariant
            start < *i <= b@.len(),
            start == *old(i),
            string_at(b@, start) == prepend(s@, chars_at(b@, *i as int)),
        decreases b@.len() - *i,
    {
        let c: u8 = b[*i];
        if c == ('"' as u8) {
            *i = *i + 1;
            assert(s@ + Seq::<char>::empty() =~= s@);
            return Ok(s);
        }
        if c == ('\\' as u8) {
            *i = *i + 1;
            match parse_escape(b, i) {
                Ok(ch) => {
                    proof {
                        lemma_prepend_twice(s@, ch, chars_at(b@, *i as int));
                    }
                    s.push(ch);
                },
                Err(e) => {
                    return Err(e);
                },
            }
            continue;
        }
        proof {
            lemma_prepend_twice(s@, c as char, chars_at(b@, *i + 1));
        }
        s.push(c as char);
        *i = *i + 1;
    }
    Err("unterminated string".to_owned())
}

proof fn lemma_prepend_empty(rest: Result<(Seq<char>, int), Seq<char>>)
    ensures
        prepend(Seq::empty(), rest) == rest,
{
    if let Ok((tail, end)) = rest {
        assert(Seq::<char>::empty() + tail =~= tail);
    }
}

proof fn lemma_prepend_twice(head: Seq<char>, c: char, rest: Result<(Seq<char>, int), Seq<char>>)
    ensures
        prepend(head, prepend(seq![c], rest)) == prepend(head.push(c), rest),
{
    if let Ok((tail, end)) = rest {
        assert(head + (seq![c] + tail) =~= head.push(c) + tail);
    }
}

/// Bytes as the characters of the same numbers.
fn chars_of_bytes(b: &[u8]) -> (r: Vec<char>)
    ensures
        r@ == byte_chars(b@),
{
    let mut out: Vec<char> = Vec::new();
    let mut i: usize = 0;
    while i < b.len()
        invariant
            i <= b@.len(),
            out@.len() == i,
            forall|j: int| 0 <= j < i ==> out@[j] == b@[j] as char,
        decreases b@.len() - i,
    {
        out.push(b[i] as char);
        i = i + 1;
    }
    assert(out@ =~= byte_chars(b@));
    out
}

/// Reads the number whose token starts at `i`.
fn parse_number(b: &[u8], i: &mut usize) -> (r: Result<u64, String>)
    requires
        *old(i) < b@.len(),
        b@[*old(i) as int] == ('-' as u8) || is_digit_byte(b@[*old(i) as int]),
    ensures
        match r {
            Ok(n) => {
                &&& number_at(b@, *old(i) as int) == Ok::<(Value, int), Seq<char>>(
                    (Value::Num(n), *final(i) as int),
                )
                &&& *old(i) < *final(i) <= b@.len()
            },
            Err(e) => number_at(b@, *old(i) as int) == Err::<(Value, int), Seq<char>>(e@),
        },
{
    let start: usize = *i;
    skip_one(b, i, '-' as u8, '-' as u8);
    skip_digits(b, i);
    if skip_one(b, i, '.' as u8, '.' as u8) {
        skip_digits(b, i);
    }
    if skip_one(b, i, 'e' as u8, 'E' as u8) {
        skip_one(b, i, '+' as u8, '-' as u8);
        skip_digits(b, i);
    }
    assert(*i == number_end(b@, start as int));
    let token: Vec<char> = chars_of_bytes(vstd::slice::slice_subrange(b, start, *i));
    match read(Width::Double, token.as_slice()) {
        Some(bits) => Ok(bits),
        None => Err("invalid number".to_owned()),
    }
}

/// Reads the word `word`, which stands for `v`.
fn expect(b: &[u8], i: &mut usize, word: &str, Ghost(v): Ghost<Value>) -> (r: Result<(), String>)
    requires
        *old(i) < b@.len(),
        word@.len() > 0,
    ensures
        match r {
            Ok(_) => {
                &&& word_at(b@, *old(i) as int, word@, v) == Ok::<(Value, int), Seq<char>>(
                    (v, *final(i) as int),
                )
                &&& *old(i) < *final(i) <= b@.len()
            },
            Err(e) => word_at(b@, *old(i) as int, word@, v) == Err::<(Value, int), Seq<char>>(e@),
        },
{
    let chars: Vec<char> = chars_of(word);
    if b.len() - *i >= chars.len() {
        let here: Vec<char> = chars_of_bytes(
            vstd::slice::slice_subrange(b, *i, *i + chars.len()),
        );
        if same_chars(here.as_slice(), chars.as_slice()) {
            *i = *i + chars.len();
            return Ok(());
        }
    }
    let mut msg: String = "expected '".to_owned();
    msg.append(word);
    msg.append("'");
    Err(msg)
}

/// Reads the value at `i`, after blanks.
fn parse_value(b: &[u8], i: &mut usize) -> (r: Result<Json, String>)
    requires
        *old(i) <= b@.len(),
    ensures
        match r {
            Ok(j) => {
                &&& value_at(b@, *old(i) as int) == Ok::<(Value, int), Seq<char>>(
                    (j@, *final(i) as int),
                )
                &&& *old(i) < *final(i) <= b@.len()
            },
            Err(e) => value_at(b@, *old(i) as int) == Err::<(Value, int), Seq<char>>(e@),
        },
    decreases b@.len() - *old(i), 2int,
{
    skip_ws(b, i);
    if *i >= b.len() {
        return Err("unexpected end of input".to_owned());
    }
    let c: u8 = b[*i];
    if c == ('"' as u8) {
        match parse_string(b, i) {
            Ok(s) => Ok(Json::Str(s)),
            Err(e) => Err(e),
        }
    } else if c == ('{' as u8) {
        parse_object(b, i)
    } else if c == ('[' as u8) {
        parse_array(b, i)
    } else if c == ('t' as u8) {
        proof {
            reveal_strlit("true");
        }
        match expect(b, i, "true", Ghost(Value::Bool(true))) {
            Ok(_) => Ok(Json::Bool(true)),
            Err(e) => Err(e),
        }
    } else if c == ('f' as u8) {
        proof {
            reveal_strlit("false");
        }
        match expect(b, i, "false", Ghost(Value::Bool(false))) {
            Ok(_) => Ok(Json::Bool(false)),
            Err(e) => Err(e),
        }
    } else if c == ('n' as u8) {
        proof {
            reveal_strlit("null");
        }
        match expect(b, i, "null", Ghost(Value::Null)) {
            Ok(_) => Ok(Json::Null),
            Err(e) => Err(e),
        }
    } else if c == ('-' as u8) || (('0' as u8) <= c && c <= ('9' as u8)) {
        match parse_number(b, i) {
            Ok(n) => Ok(Json::Num(n)),
            Err(e) => Err(e),
        }
    } else {
        let mut msg: String = "unexpected character '".to_owned();
        msg.push(c as char);
        msg.append("' in JSON");
        assert(msg@ =~= "unexpected character '"@ + seq![c as char] + "' in JSON"@);
        Err(msg)
    }
}

/// A parse of items with `head` before them.
spec fn prepend_items(
    head: Seq<Value>,
    rest: Result<(Seq<Value>, int), Seq<char>>,
) -> Result<(Seq<Value>, int), Seq<char>> {
    match rest {
        Ok((tail, end)) => Ok((head + tail, end)),
        Err(e) => Err(e),
    }
}

/// A parse of fields with `head` before them.
spec fn prepend_fields(
    head: Seq<(Seq<char>, Value)>,
    rest: Result<(Seq<(Seq<char>, Value)>, int), Seq<char>>,
) -> Result<(Seq<(Seq<char>, Value)>, int), Seq<char>> {
    match rest {
        Ok((tail, end)) => Ok((head + tail, end)),
        Err(e) => Err(e),
    }
}

/// Reads the array whose bracket stands at `i`.
fn parse_array(b: &[u8], i: &mut usize) -> (r: Result<Json, String>)
    requires
        *old(i) < b@.len(),
    ensures
        match r {
            Ok(j) => {
                &&& array_at(b@, *old(i) as int) == Ok::<(Value, int), Seq<char>>(
                    (j@, *final(i) as int),
                )
                &&& *old(i) < *final(i) <= b@.len()
            },
            Err(e) => array_at(b@, *old(i) as int) == Err::<(Value, int), Seq<char>>(e@),
        },
    decreases b@.len() - *old(i), 1int,
{
    let ghost start = *i as int;
    assert(*i < b.len());
    *i = *i + 1;
    let mut items: Vec<Json> = Vec::new();
    skip_ws(b, i);
    if *i < b.len() && b[*i] == (']' as u8) {
        *i = *i + 1;
        proof {
            lemma_value_of_arr(items);
            assert(values(items@) =~= Seq::<Value>::empty());
        }
        return Ok(Json::Arr(items));
    }
    let ghost first = *i as int;
    proof {
        if let Ok((tail, end)) = items_at(b@, first) {
            assert(values(items@) + tail =~= tail);
        }
    }
    loop
        invariant
            start == *old(i),
            start < first <= *i <= b@.len(),
            first == blank_end(b@, start + 1),
            !(first < b@.len() && b@[first] == (']' as u8)),
            items_at(b@, first) == prepend_items(values(items@), items_at(b@, *i as int)),
        decreases b@.len() - *i,
    {
        let ghost here = *i as int;
        let ghost before = values(items@);
        let v: Json = match parse_value(b, i) {
            Ok(v) => v,
            Err(e) => {
                return Err(e);
            },
        };
        items.push(v);
        proof {
            assert(values(items@) =~= before.push(v@));
        }
        skip_ws(b, i);
        if *i >= b.len() {
            return Err("unterminated array".to_owned());
        }
        let c: u8 = b[*i];
        if c == (',' as u8) {
            *i = *i + 1;
            proof {
                if let Ok((tail, end)) = items_at(b@, *i as int) {
                    assert(before + (seq![v@] + tail) =~= values(items@) + tail);
                }
            }
        } else if c == (']' as u8) {
            *i = *i + 1;
            proof {
                lemma_value_of_arr(items);
                assert(before + seq![v@] =~= values(items@));
            }
            return Ok(Json::Arr(items));
        } else {
            return Err("expected ',' or ']' in array".to_owned());
        }
    }
}

/// Reads the object whose brace stands at `i`.
fn parse_object(b: &[u8], i: &mut usize) -> (r: Result<Json, String>)
    requires
        *old(i) < b@.len(),
    ensures
        match r {
            Ok(j) => {
                &&& object_at(b@, *old(i) as int) == Ok::<(Value, int), Seq<char>>(
                    (j@, *final(i) as int),
                )
                &&& *old(i) < *final(i) <= b@.len()
            },
            Err(e) => object_at(b@, *old(i) as int) == Err::<(Value, int), Seq<char>>(e@),
        },
    decreases b@.len() - *old(i), 1int,
{
    let ghost start = *i as int;
    assert(*i < b.len());
    *i = *i + 1;
    let mut items: Vec<(String, Json)> = Vec::new();
    skip_ws(b, i);
    if *i < b.len() && b[*i] == ('}' as u8) {
        *i = *i + 1;
        proof {
            lemma_value_of_obj(items);
            assert(fields(items@) =~= Seq::<(Seq<char>, Value)>::empty());
        }
        return Ok(Json::Obj(items));
    }
    let ghost first = *i as int;
    proof {
        if let Ok((tail, end)) = fields_at(b@, first) {
            assert(fields(items@) + tail =~= tail);
        }
    }
    loop
        invariant
            start == *old(i),
            start < first <= *i <= b@.len(),
            first == blank_end(b@, start + 1),
            !(first < b@.len() && b@[first] == ('}' as u8)),
            fields_at(b@, first) == prepend_fields(fields(items@), fields_at(b@, *i as int)),
        decreases b@.len() - *i,
    {
        let ghost before = fields(items@);
        skip_ws(b, i);
        if *i >= b.len() || b[*i] != ('"' as u8) {
            return Err("expected object key string".to_owned());
        }
        let key: String = match parse_string(b, i) {
            Ok(key) => key,
            Err(e) => {
                return Err(e);
            },
        };
        skip_ws(b, i);
        if *i >= b.len() || b[*i] != (':' as u8) {
            return Err("expected ':' in object".to_owned());
        }
        *i = *i + 1;
        let v: Json = match parse_value(b, i) {
            Ok(v) => v,
            Err(e) => {
                return Err(e);
            },
        };
        let ghost pair = (key@, v@);
        items.push((key, v));
        proof {
            assert(fields(items@) =~= before.push(pair));
        }
        skip_ws(b, i);
        if *i >= b.len() {
            return Err("unterminated object".to_owned());
        }
        let c: u8 = b[*i];
        if c == (',' as u8) {
            *i = *i + 1;
            proof {
                if let Ok((tail, end)) = fields_at(b@, *i as int) {
                    assert(before + (seq![pair] + tail) =~= fields(items@) + tail);
                }
            }
        } else if c == ('}' as u8) {
            *i = *i + 1;
            proof {
                lemma_value_of_obj(items);
                assert(before + seq![pair] =~= fields(items@));
            }
            return Ok(Json::Obj(items));
        } else {
            return Err("expected ',' or '}' in object".to_owned());
        }
    }
}

impl Json {
    /// Parses a single JSON value from `bytes` (blanks around it allowed).
    pub fn parse(bytes: &[u8]) -> (r: Result<Json, String>)
        ensures
            match r {
                Ok(j) => parse_result(bytes@) == Ok::<Value, Seq<char>>(j@),
                Err(e) => parse_result(bytes@) == Err::<Value, Seq<char>>(e@),
            },
    {
        let mut i: usize = 0;
        let v: Json = match parse_value(bytes, &mut i) {
            Ok(v) => v,
            Err(e) => {
                return Err(e);
            },
        };
        skip_ws(bytes, &mut i);
        if i != bytes.len() {
            return Err("trailing data after JSON value".to_owned());
        }
        Ok(v)
    }
}

} // verus!
