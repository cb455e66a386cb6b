//! Text as sequences of characters: building strings, decimal numbers,
//! trimming, splitting, letter case and UTF-8.
use vstd::prelude::*;
use vstd::utf8::{
    decode_first_scalar, decode_utf8, encode_utf8, is_ascii_chars, is_scalar, length_of_first_scalar,
    pop_first_scalar, valid_first_scalar, valid_utf8,
};

verus! {

/// A text, as contracts speak of it.
pub type Text = Seq<char>;

/// `String::push` appends one character to the end of the string.
pub assume_specification[ String::push ](s: &mut String, c: char)
    ensures
        final(s)@ == old(s)@.push(c),
;

/// `char::from_u32` gives the character of a Unicode scalar value, and none for
/// any other number.
pub assume_specification[ char::from_u32 ](code: u32) -> (r: Option<char>)
    ensures
        match r {
            Some(c) => is_scalar(code) && c as u32 == code,
            None => !is_scalar(code),
        },
;

/// The characters of `s`.
pub fn chars_of(s: &str) -> (r: Vec<char>)
    ensures
        r@ == s@,
{
    let mut out: Vec<char> = Vec::new();
    for c in it: s.chars()
        invariant
            it.seq() == s@,
            out@ == it.seq().take(it.index()),
    {
        out.push(c);
    }
    out
}

/// Appends the characters of `part` to `out`.
pub fn push_chars(out: &mut String, part: &[char])
    ensures
        final(out)@ == old(out)@ + part@,
{
    let mut i: usize = 0;
    while i < part.len()
        invariant
            i <= part@.len(),
            out@ == old(out)@ + part@.take(i as int),
        decreases part@.len() - i,
    {
        out.push(part[i]);
        i = i + 1;
    }
}

/// The string of the characters `part`.
pub fn text_of(part: &[char]) -> (r: String)
    ensures
        r@ == part@,
{
    let mut out: String = String::new();
    push_chars(&mut out, part);
    out
}

/// The text of an optional string.
pub open spec fn text_opt(s: Option<String>) -> Option<Seq<char>> {
    match s {
        Some(t) => Some(t@),
        None => None,
    }
}

// --- Decimal numbers -------------------------------------------------------

/// The decimal digit `d`.
pub open spec fn digit_char(d: nat) -> char {
    (48 + d) as u8 as char
}

/// `n` in decimal, without leading zeros.
pub open spec fn decimal(n: nat) -> Seq<char>
    decreases n,
{
    if n < 10 {
        seq![digit_char(n)]
    } else {
        decimal(n / 10).push(digit_char(n % 10))
    }
}

/// The digit `d` as a character.
pub fn digit(d: u32) -> (c: char)
    requires
        d < 10,
    ensures
        c == digit_char(d as nat),
{
    (48u8 + d as u8) as char
}

/// Appends `n` in decimal.
pub fn push_decimal(out: &mut String, n: u64)
    ensures
        final(out)@ == old(out)@ + decimal(n as nat),
    decreases n,
{
    if n < 10 {
        out.push(digit(n as u32));
    } else {
        push_decimal(out, n / 10);
        out.push(digit((n % 10) as u32));
    }
}

/// Whether `c` is an ASCII digit.
pub open spec fn is_digit(c: char) -> bool {
    '0' <= c <= '9'
}

/// The number that ASCII digits write.
pub open spec fn digits_value(digits: Seq<char>) -> nat
    decreases digits.len(),
{
    if digits.len() == 0 {
        0
    } else {
        digits_value(digits.drop_last()) * 10 + (digits.last() as nat - 48) as nat
    }
}

/// `s` without one leading `+`.
pub open spec fn after_plus(s: Seq<char>) -> Seq<char> {
    if s.len() > 0 && s[0] == '+' {
        s.skip(1)
    } else {
        s
    }
}

/// What a decimal integer without sign reads as: an optional `+`, then at least
/// one digit and nothing else.
pub open spec fn unsigned_value(s: Seq<char>) -> Option<nat> {
    let body = after_plus(s);
    if body.len() > 0 && (forall|i: int| 0 <= i < body.len() ==> is_digit(#[trigger] body[i])) {
        Some(digits_value(body))
    } else {
        None
    }
}

/// What a decimal integer without sign reads as, if it is at most `max`.
pub open spec fn unsigned_up_to(s: Seq<char>, max: nat) -> Option<nat> {
    match unsigned_value(s) {
        Some(v) => if v <= max {
            Some(v)
        } else {
            None
        },
        None => None,
    }
}

proof fn lemma_digits_value_grows(digits: Seq<char>, n: int)
    requires
        0 <= n <= digits.len(),
        forall|i: int| 0 <= i < digits.len() ==> is_digit(#[trigger] digits[i]),
    ensures
        digits_value(digits.take(n)) <= digits_value(digits),
    decreases digits.len() - n,
{
    if n < digits.len() {
        lemma_digits_value_grows(digits, n + 1);
        let more = digits.take(n + 1);
        assert(more.drop_last() =~= digits.take(n));
        assert(more.last() == digits[n]);
    } else {
        assert(digits.take(n) =~= digits);
    }
}

/// Reads an unsigned decimal integer of at most `max`.
pub fn parse_unsigned(s: &[char], max: u64) -> (r: Option<u64>)
    ensures
        match r {
            Some(v) => unsigned_up_to(s@, max as nat) == Some(v as nat),
            None => unsigned_up_to(s@, max as nat) is None,
        },
{
    let mut i: usize = if s.len() > 0 && s[0] == '+' {
        1
    } else {
        0
    };
    let ghost start = i as int;
    let ghost body = s@.skip(start);
    proof {
        assert(s@.skip(0) =~= s@);
        assert(body =~= after_plus(s@));
        assert(body.take(0) =~= Seq::<char>::empty());
    }
    if i >= s.len() {
        return None;
    }
    let mut v: u64 = 0;
    while i < s.len()
        invariant
            0 <= start <= i <= s@.len(),
            body == s@.skip(start),
            body.len() > 0,
            body == after_plus(s@),
            v <= max,
            v == digits_value(body.take(i - start)),
            forall|j: int| 0 <= j < i - start ==> is_digit(#[trigger] body[j]),
        decreases s@.len() - i,
    {
        let c: char = s[i];
        assert(c == body[i - start]);
        if c < '0' || c > '9' {
            return None;
        }
        let d: u64 = c as u64 - 48;
        let next: u128 = v as u128 * 10 + d as u128;
        proof {
            let more = body.take(i - start + 1);
            assert(more.drop_last() =~= body.take(i - start));
            assert(more.last() == c);
        }
        if next > max as u128 {
            proof {
                if unsigned_value(s@) is Some {
                    lemma_digits_value_grows(body, i - start + 1);
                }
            }
            return None;
        }
        v = next as u64;
        i = i + 1;
    }
    proof {
        assert(body.take(i - start) =~= body);
    }
    Some(v)
}

// --- White space -----------------------------------------------------------

/// Whether `c` has the Unicode property White_Space.
pub open spec fn is_space(c: char) -> bool {
    let n = c as u32;
    ||| 0x09 <= n <= 0x0d
    ||| n == 0x20
    ||| n == 0x85
    ||| n == 0xa0
    ||| n == 0x1680
    ||| 0x2000 <= n <= 0x200a
    ||| n == 0x2028
    ||| n == 0x2029
    ||| n == 0x202f
    ||| n == 0x205f
    ||| n == 0x3000
}

/// Whether `c` is white space.
pub fn space(c: char) -> (r: bool)
    ensures
        r == is_space(c),
{
    let n: u32 = c as u32;
    (0x09 <= n && n <= 0x0d) || n == 0x20 || n == 0x85 || n == 0xa0 || n == 0x1680 || (0x2000 <= n
        && n <= 0x200a) || n == 0x2028 || n == 0x2029 || n == 0x202f || n == 0x205f || n == 0x3000
}

/// `s` without the white space at its start.
pub open spec fn trim_start(s: Seq<char>) -> Seq<char>
    decreases s.len(),
{
    if s.len() > 0 && is_space(s[0]) {
        trim_start(s.drop_first())
    } else {
        s
    }
}

/// `s` without the white space at its end.
pub open spec fn trim_end(s: Seq<char>) -> Seq<char>
    decreases s.len(),
{
    if s.len() > 0 && is_space(s.last()) {
        trim_end(s.drop_last())
    } else {
        s
    }
}

/// `s` without the white space at its two ends.
pub open spec fn trim(s: Seq<char>) -> Seq<char> {
    trim_end(trim_start(s))
}

/// The part of `s` between the white space at its ends.
pub fn trimmed(s: &[char]) -> (r: &[char])
    ensures
        r@ == trim(s@),
{
    let mut i: usize = 0;
    proof {
        assert(s@.skip(0) =~= s@);
    }
    while i < s.len() && space(s[i])
        invariant
            i <= s@.len(),
            trim_start(s@) == trim_start(s@.skip(i as int)),
        decreases s@.len() - i,
    {
        proof {
            assert(s@.skip(i as int).drop_first() =~= s@.skip(i + 1));
        }
        i = i + 1;
    }
    let mut j: usize = s.len();
    proof {
        assert(trim_start(s@) == s@.skip(i as int));
        assert(s@.subrange(i as int, j as int) =~= s@.skip(i as int));
    }
    while i < j && space(s[j - 1])
        invariant
            i <= j <= s@.len(),
            trim(s@) == trim_end(s@.subrange(i as int, j as int)),
        decreases j,
    {
        proof {
            assert(s@.subrange(i as int, j as int).drop_last() =~= s@.subrange(i as int, j - 1));
        }
        j = j - 1;
    }
    vstd::slice::slice_subrange(s, i, j)
}

// --- Searching and splitting -----------------------------------------------

/// Where `c` first stands in `s`.
pub open spec fn first_at(s: Seq<char>, c: char) -> Option<int>
    decreases s.len(),
{
    if s.len() == 0 {
        None
    } else if s[0] == c {
        Some(0)
    } else {
        match first_at(s.drop_first(), c) {
            Some(i) => Some(i + 1),
            None => None,
        }
    }
}

pub proof fn lemma_first_at(s: Seq<char>, c: char)
    ensures
        match first_at(s, c) {
            Some(i) => 0 <= i < s.len() && s[i] == c && forall|j: int|
                0 <= j < i ==> #[trigger] s[j] != c,
            None => forall|j: int| 0 <= j < s.len() ==> #[trigger] s[j] != c,
        },
    decreases s.len(),
{
    if s.len() > 0 && s[0] != c {
        lemma_first_at(s.drop_first(), c);
        let rest = s.drop_first();
        assert(forall|j: int| 1 <= j < s.len() ==> s[j] == rest[j - 1]);
    }
}

/// `i` is where `c` first stands in `s`.
pub proof fn lemma_first_at_is(s: Seq<char>, c: char, i: int)
    requires
        0 <= i < s.len(),
        s[i] == c,
        forall|j: int| 0 <= j < i ==> #[trigger] s[j] != c,
    ensures
        first_at(s, c) == Some(i),
{
    lemma_first_at(s, c);
}

/// Finds where `c` first stands in `s`.
pub fn find_char(s: &[char], c: char) -> (r: Option<usize>)
    ensures
        match r {
            Some(i) => first_at(s@, c) == Some(i as int) && i < s.len(),
            None => first_at(s@, c) is None,
        },
{
    let mut i: usize = 0;
    while i < s.len()
        invariant
            i <= s@.len(),
            forall|j: int| 0 <= j < i ==> #[trigger] s@[j] != c,
        decreases s@.len() - i,
    {
        if s[i] == c {
            proof {
                lemma_first_at_is(s@, c, i as int);
            }
            return Some(i);
        }
        i = i + 1;
    }
    proof {
        lemma_first_at(s@, c);
    }
    None
}

/// What stands after the first `pat` in `s`.
pub open spec fn after_text(s: Seq<char>, pat: Seq<char>) -> Option<Seq<char>>
    decreases s.len(),
{
    if pat.is_prefix_of(s) {
        Some(s.skip(pat.len() as int))
    } else if s.len() == 0 {
        None
    } else {
        after_text(s.drop_first(), pat)
    }
}

/// What stands after `pat` at `k`, where `pat` stands nowhere before.
pub proof fn lemma_after_text_is(s: Seq<char>, pat: Seq<char>, k: int)
    requires
        0 <= k <= s.len(),
        pat.is_prefix_of(s.skip(k)),
        forall|j: int| 0 <= j < k ==> !pat.is_prefix_of(#[trigger] s.skip(j)),
    ensures
        after_text(s, pat) == Some(s.skip(k + pat.len())),
    decreases k,
{
    assert(s.skip(0) =~= s);
    if k == 0 {
    } else {
        let rest = s.drop_first();
        assert(!pat.is_prefix_of(s.skip(0)));
        assert(rest.skip(k - 1) =~= s.skip(k));
        assert forall|j: int| 0 <= j < k - 1 implies !pat.is_prefix_of(#[trigger] rest.skip(j)) by {
            assert(rest.skip(j) =~= s.skip(j + 1));
        }
        lemma_after_text_is(rest, pat, k - 1);
        assert(rest.skip(k - 1 + pat.len()) =~= s.skip(k + pat.len()));
    }
}

/// What stands after the first `pat` in `s`.
pub fn text_after<'a>(s: &'a [char], pat: &[char]) -> (r: Option<&'a [char]>)
    ensures
        match r {
            Some(t) => after_text(s@, pat@) == Some(t@),
            None => after_text(s@, pat@) is None,
        },
{
    let mut i: usize = 0;
    proof {
        assert(s@.skip(0) =~= s@);
    }
    loop
        invariant
            i <= s@.len(),
            after_text(s@, pat@) == after_text(s@.skip(i as int), pat@),
        decreases s@.len() - i,
    {
        let rest: &[char] = vstd::slice::slice_subrange(s, i, s.len());
        assert(rest@ =~= s@.skip(i as int));
        if starts_with(rest, pat) {
            let t: &[char] = vstd::slice::slice_subrange(rest, pat.len(), rest.len());
            assert(t@ =~= rest@.skip(pat@.len() as int));
            return Some(t);
        }
        if i >= s.len() {
            return None;
        }
        proof {
            assert(rest@.drop_first() =~= s@.skip(i + 1));
        }
        i = i + 1;
    }
}

/// Whether two character slices are the same.
pub fn same_chars(a: &[char], b: &[char]) -> (r: bool)
    ensures
        r == (a@ == b@),
{
    if a.len() != b.len() {
        return false;
    }
    let mut i: usize = 0;
    while i < a.len()
        invariant
            i <= a@.len(),
            a@.len() == b@.len(),
            forall|j: int| 0 <= j < i ==> a@[j] == b@[j],
        decreases a@.len() - i,
    {
        if a[i] != b[i] {
            return false;
        }
        i = i + 1;
    }
    assert(a@ =~= b@);
    true
}

/// Whether `s` holds exactly the characters of `t`.
pub fn is_text(s: &[char], t: &str) -> (r: bool)
    ensures
        r == (s@ == t@),
{
    let other: Vec<char> = chars_of(t);
    same_chars(s, other.as_slice())
}

/// Whether two strings are the same.
pub fn same_text(a: &str, b: &str) -> (r: bool)
    ensures
        r == (a@ == b@),
{
    let x: Vec<char> = chars_of(a);
    is_text(x.as_slice(), b)
}

/// Whether `s` starts with `head`.
pub fn starts_with(s: &[char], head: &[char]) -> (r: bool)
    ensures
        r == head@.is_prefix_of(s@),
{
    if s.len() < head.len() {
        return false;
    }
    let front: &[char] = vstd::slice::slice_subrange(s, 0, head.len());
    let r: bool = same_chars(front, head);
    proof {
        if head@.is_prefix_of(s@) {
            assert(front@ =~= head@);
        }
    }
    r
}

/// Whether `s` ends with `tail`.
pub fn ends_with(s: &[char], tail: &[char]) -> (r: bool)
    ensures
        r == tail@.is_suffix_of(s@),
{
    if s.len() < tail.len() {
        return false;
    }
    let back: &[char] = vstd::slice::slice_subrange(s, s.len() - tail.len(), s.len());
    let r: bool = same_chars(back, tail);
    proof {
        if tail@.is_suffix_of(s@) {
            assert(back@ =~= tail@);
        }
    }
    r
}

/// The parts of `s` between occurrences of `c`, empty ones left out.
pub open spec fn segments(s: Seq<char>, c: char) -> Seq<Seq<char>>
    decreases s.len(),
    via segments_decreases
{
    match first_at(s, c) {
        None => if s.len() == 0 {
            Seq::empty()
        } else {
            seq![s]
        },
        Some(i) => if i == 0 {
            segments(s.skip(1), c)
        } else {
            seq![s.take(i)] + segments(s.skip(i + 1), c)
        },
    }
}

#[via_fn]
proof fn segments_decreases(s: Seq<char>, c: char) {
    lemma_first_at(s, c);
}

/// The parts of `s` between occurrences of `c`, empty ones left out.
pub fn split_segments(s: &[char], c: char) -> (r: Vec<Vec<char>>)
    ensures
        views(r@) == segments(s@, c),
{
    let mut out: Vec<Vec<char>> = Vec::new();
    let mut rest: &[char] = s;
    proof {
        assert(views(out@) =~= Seq::<Seq<char>>::empty());
        assert(views(out@) + segments(s@, c) =~= segments(s@, c));
    }
    loop
        invariant
            views(out@) + segments(rest@, c) == segments(s@, c),
        decreases rest@.len(),
    {
        let ghost before = views(out@);
        match find_char(rest, c) {
            Some(i) => {
                let next: &[char] = vstd::slice::slice_subrange(rest, i + 1, rest.len());
                assert(next@ =~= rest@.skip(i + 1));
                if i > 0 {
                    let part: &[char] = vstd::slice::slice_subrange(rest, 0, i);
                    assert(part@ =~= rest@.take(i as int));
                    out.push(vstd::slice::slice_to_vec(part));
                    proof {
                        assert(views(out@) =~= before.push(part@));
                        assert(before + (seq![part@] + segments(next@, c)) =~= views(out@)
                            + segments(next@, c));
                    }
                }
                rest = next;
            },
            None => {
                if rest.len() > 0 {
                    out.push(vstd::slice::slice_to_vec(rest));
                    assert(views(out@) =~= before + seq![rest@]);
                } else {
                    assert(views(out@) =~= before + Seq::<Seq<char>>::empty());
                }
                return out;
            },
        }
    }
}

/// The words of `s`: its longest parts without white space.
pub open spec fn words(s: Seq<char>) -> Seq<Seq<char>>
    decreases s.len(),
{
    let t = trim_start(s);
    proof {
        lemma_trim_start_len(s);
    }
    if t.len() == 0 {
        Seq::empty()
    } else {
        let n = word_len(t);
        proof {
            lemma_word_len(t);
        }
        if n <= 0 || n > t.len() {
            Seq::empty()
        } else {
            seq![t.take(n)] + words(t.skip(n))
        }
    }
}

/// How many characters stand before the first white space of `s`.
pub open spec fn word_len(s: Seq<char>) -> int
    decreases s.len(),
{
    if s.len() == 0 || is_space(s[0]) {
        0
    } else {
        1 + word_len(s.drop_first())
    }
}

pub proof fn lemma_trim_start_len(s: Seq<char>)
    ensures
        trim_start(s).len() <= s.len(),
        trim_start(s).len() > 0 ==> !is_space(trim_start(s)[0]),
    decreases s.len(),
{
    if s.len() > 0 && is_space(s[0]) {
        lemma_trim_start_len(s.drop_first());
    }
}

pub proof fn lemma_word_len(s: Seq<char>)
    ensures
        0 <= word_len(s) <= s.len(),
        s.len() > 0 && !is_space(s[0]) ==> word_len(s) > 0,
    decreases s.len(),
{
    if s.len() > 0 && !is_space(s[0]) {
        lemma_word_len(s.drop_first());
    }
}

/// Whether a text is one word.
pub open spec fn one_word(s: Seq<char>) -> bool {
    s.len() > 0 && forall|i: int| 0 <= i < s.len() ==> !is_space(#[trigger] s[i])
}

pub proof fn lemma_word_len_is(s: Seq<char>, n: int)
    requires
        0 <= n <= s.len(),
        forall|i: int| 0 <= i < n ==> !is_space(#[trigger] s[i]),
        n == s.len() || is_space(s[n]),
    ensures
        word_len(s) == n,
    decreases n,
{
    if n > 0 {
        let rest = s.drop_first();
        assert(!is_space(s[0]));
        assert forall|i: int| 0 <= i < n - 1 implies !is_space(#[trigger] rest[i]) by {
            assert(rest[i] == s[i + 1]);
        }
        lemma_word_len_is(rest, n - 1);
    }
}

pub proof fn lemma_words_more(a: Seq<char>, rest: Seq<char>)
    requires
        one_word(a),
        rest.len() > 0,
        is_space(rest[0]),
    ensures
        words(a + rest) == seq![a] + words(rest.drop_first()),
{
    let s = a + rest;
    assert(s[0] == a[0]);
    assert(trim_start(s) == s);
    assert forall|i: int| 0 <= i < a.len() implies !is_space(#[trigger] s[i]) by {
        assert(s[i] == a[i]);
    }
    lemma_word_len_is(s, a.len() as int);
    assert(s.take(a.len() as int) =~= a);
    assert(s.skip(a.len() as int) =~= rest);
    assert(trim_start(rest) == trim_start(rest.drop_first()));
    assert(words(rest) == words(rest.drop_first()));
}

pub proof fn lemma_words_last(a: Seq<char>)
    requires
        one_word(a),
    ensures
        words(a) == seq![a],
{
    assert(trim_start(a) == a);
    lemma_word_len_is(a, a.len() as int);
    assert(a.take(a.len() as int) =~= a);
    let none = a.skip(a.len() as int);
    assert(none =~= Seq::<char>::empty());
    assert(words(none) =~= Seq::<Seq<char>>::empty());
    assert(seq![a] + words(none) =~= seq![a]);
}

/// What starts with white space starts new words.
pub proof fn lemma_words_join(a: Seq<char>, b: Seq<char>)
    requires
        b.len() == 0 || is_space(b[0]),
    ensures
        words(a + b) == words(a) + words(b),
    decreases a.len(),
{
    let s = a + b;
    if a.len() == 0 {
        assert(s =~= b);
        assert(words(a) + words(b) =~= words(b));
    } else if is_space(a[0]) {
        assert(s[0] == a[0]);
        assert(s.drop_first() =~= a.drop_first() + b);
        lemma_words_join(a.drop_first(), b);
        assert(words(a) == words(a.drop_first()));
        assert(words(s) == words(s.drop_first()));
    } else {
        let n = word_len(a);
        lemma_word_len(a);
        lemma_word_end(a);
        assert(s[0] == a[0]);
        assert forall|i: int| 0 <= i < n implies !is_space(#[trigger] s[i]) by {
            assert(s[i] == a[i]);
        }
        lemma_word_len_is(s, n);
        assert(s.take(n) =~= a.take(n));
        assert(s.skip(n) =~= a.skip(n) + b);
        lemma_words_join(a.skip(n), b);
        assert(words(s) =~= words(a) + words(b));
    }
}

/// A word ends where white space or the text ends.
proof fn lemma_word_end(s: Seq<char>)
    ensures
        forall|i: int| 0 <= i < word_len(s) ==> !is_space(#[trigger] s[i]),
        word_len(s) == s.len() || 0 <= word_len(s) < s.len() && is_space(s[word_len(s)]),
    decreases s.len(),
{
    if s.len() > 0 && !is_space(s[0]) {
        let rest = s.drop_first();
        lemma_word_end(rest);
        assert forall|i: int| 0 <= i < word_len(s) implies !is_space(#[trigger] s[i]) by {
            if i > 0 {
                assert(s[i] == rest[i - 1]);
            }
        }
        if word_len(rest) < rest.len() {
            assert(s[word_len(s)] == rest[word_len(rest)]);
        }
    }
}

/// `n` spaces.
pub open spec fn spaces(n: nat) -> Seq<char> {
    Seq::new(n, |i: int| ' ')
}

/// Spaces hold no words.
pub proof fn lemma_words_of_spaces(n: nat, rest: Seq<char>)
    ensures
        words(spaces(n) + rest) == words(rest),
    decreases n,
{
    let s = spaces(n) + rest;
    if n == 0 {
        assert(s =~= rest);
    } else {
        assert(is_space(s[0]));
        assert(s.drop_first() =~= spaces((n - 1) as nat) + rest);
        lemma_words_of_spaces((n - 1) as nat, rest);
        assert(words(s) == words(s.drop_first()));
    }
}

/// A word behind spaces is one more word.
pub proof fn lemma_words_push(a: Seq<char>, n: nat, word: Seq<char>)
    requires
        n > 0,
        one_word(word),
    ensures
        words(a + spaces(n) + word) == words(a).push(word),
{
    let b = spaces(n) + word;
    assert(is_space(b[0]));
    lemma_words_join(a, b);
    lemma_words_of_spaces(n, word);
    lemma_words_last(word);
    assert(a + spaces(n) + word =~= a + b);
    assert(words(a) + seq![word] =~= words(a).push(word));
}

/// The words of `s`.
pub fn split_words(s: &[char]) -> (r: Vec<Vec<char>>)
    ensures
        views(r@) == words(s@),
{
    let mut out: Vec<Vec<char>> = Vec::new();
    let mut i: usize = 0;
    proof {
        assert(s@.skip(0) =~= s@);
        assert(views(out@) + words(s@) =~= words(s@));
    }
    loop
        invariant
            i <= s@.len(),
            words(s@) == views(out@) + words(s@.skip(i as int)),
        decreases s@.len() - i,
    {
        let ghost rest = s@.skip(i as int);
        let ghost from = i as int;
        while i < s.len() && space(s[i])
            invariant
                from <= i <= s@.len(),
                rest == s@.skip(from),
                trim_start(rest) == trim_start(s@.skip(i as int)),
            decreases s@.len() - i,
        {
            proof {
                assert(s@.skip(i as int).drop_first() =~= s@.skip(i + 1));
            }
            i = i + 1;
        }
        let ghost t = s@.skip(i as int);
        proof {
            assert(trim_start(rest) == t);
            lemma_trim_start_len(rest);
            lemma_word_len(t);
        }
        if i >= s.len() {
            assert(views(out@) + Seq::<Seq<char>>::empty() =~= views(out@));
            return out;
        }
        let start: usize = i;
        while i < s.len() && !space(s[i])
            invariant
                start <= i <= s@.len(),
                t == s@.skip(start as int),
                word_len(t) == (i - start) + word_len(s@.skip(i as int)),
            decreases s@.len() - i,
        {
            proof {
                assert(s@.skip(i as int).drop_first() =~= s@.skip(i + 1));
            }
            i = i + 1;
        }
        proof {
            assert(word_len(s@.skip(i as int)) == 0);
            assert(word_len(t) == i - start);
        }
        let word: Vec<char> = vstd::slice::slice_to_vec(
            vstd::slice::slice_subrange(s, start, i),
        );
        let ghost before = views(out@);
        out.push(word);
        proof {
            assert(word@ =~= t.take(i - start));
            assert(t.skip(i - start) =~= s@.skip(i as int));
            assert(views(out@) =~= before.push(word@));
            assert(before + (seq![word@] + words(s@.skip(i as int))) =~= views(out@) + words(
                s@.skip(i as int),
            ));
        }
    }
}

/// The texts of several character vectors.
pub open spec fn views(v: Seq<Vec<char>>) -> Seq<Seq<char>> {
    v.map_values(|x: Vec<char>| x@)
}

// --- Letter case -----------------------------------------------------------

/// What `str::to_lowercase` gives for the characters `s`.
pub uninterp spec fn unicode_lower(s: Seq<char>) -> Seq<char>;

/// `str::to_lowercase`: the text with every character in lower case by the
/// Unicode tables. Which text that is, is left to the name.
#[verifier::external_body]
fn unicode_lowercase(s: &str) -> (r: String)
    ensures
        r@ == unicode_lower(s@),
{
    s.to_lowercase()
}

/// `s` in lower case. ASCII text is mapped letter by letter, other text by the
/// Unicode tables.
pub open spec fn lower(s: Seq<char>) -> Seq<char> {
    if is_ascii_chars(s) {
        lower_ascii(s)
    } else {
        unicode_lower(s)
    }
}

/// The ASCII character `c` in lower case, any other as it is.
pub open spec fn ascii_lower(c: char) -> char {
    if 'A' <= c <= 'Z' {
        (c as u8 + 32) as u8 as char
    } else {
        c
    }
}

/// `s` with its ASCII letters in lower case.
pub open spec fn lower_ascii(s: Seq<char>) -> Seq<char> {
    s.map_values(|c: char| ascii_lower(c))
}

/// The ASCII letters of `s` in lower case, all else as it is.
pub fn lowered(s: &[char]) -> (r: Vec<char>)
    ensures
        r@ == lower_ascii(s@),
{
    let mut out: Vec<char> = Vec::new();
    let mut i: usize = 0;
    while i < s.len()
        invariant
            i <= s@.len(),
            out@.len() == i,
            forall|j: int| 0 <= j < i ==> out@[j] == ascii_lower(s@[j]),
        decreases s@.len() - i,
    {
        let c: char = s[i];
        if 'A' <= c && c <= 'Z' {
            out.push((c as u8 + 32) as char);
        } else {
            out.push(c);
        }
        i = i + 1;
    }
    assert(out@ =~= lower_ascii(s@));
    out
}

/// No character comes before the null character.
proof fn lemma_char_min(c: char)
    ensures
        '\0' <= c,
{
}

/// Whether `s` is ASCII.
pub fn ascii(s: &[char]) -> (r: bool)
    ensures
        r == is_ascii_chars(s@),
{
    let mut i: usize = 0;
    while i < s.len()
        invariant
            i <= s@.len(),
            forall|j: int| 0 <= j < i ==> '\0' <= #[trigger] s@[j] <= '\u{7f}',
        decreases s@.len() - i,
    {
        let c: char = s[i];
        if c > '\u{7f}' {
            assert(!('\0' <= s@[i as int] <= '\u{7f}'));
            return false;
        }
        proof {
            lemma_char_min(c);
        }
        i = i + 1;
    }
    true
}

/// `s` in lower case.
pub fn lowercase(s: &[char]) -> (r: String)
    ensures
        r@ == lower(s@),
{
    if ascii(s) {
        let v: Vec<char> = lowered(s);
        text_of(v.as_slice())
    } else {
        let t: String = text_of(s);
        unicode_lowercase(t.as_str())
    }
}

// --- UTF-8 -----------------------------------------------------------------

/// The first scalar of `bytes` with its length in bytes, if one stands there.
fn first_scalar(bytes: &[u8]) -> (r: Option<(u32, usize)>)
    requires
        bytes@.len() > 0,
    ensures
        match r {
            Some((code, len)) => {
                &&& valid_first_scalar(bytes@)
                &&& code == decode_first_scalar(bytes@)
                &&& len == length_of_first_scalar(bytes@)
                &&& 0 < len <= bytes@.len()
                &&& is_scalar(code)
            },
            None => !valid_first_scalar(bytes@),
        },
{
    let b1: u8 = bytes[0];
    if b1 <= 0x7f {
        let code: u32 = (b1 & 0x7f) as u32;
        assert(b1 & 0x7f == b1) by (bit_vector)
            requires
                b1 <= 0x7f,
        ;
        return Some((code, 1));
    }
    if bytes.len() < 2 {
        return None;
    }
    let b2: u8 = bytes[1];
    if b2 < 0x80 || b2 > 0xbf {
        return None;
    }
    if 0xc0 <= b1 && b1 <= 0xdf {
        let code: u32 = (((b1 & 0x1f) as u32) << 6) | ((b2 & 0x3f) as u32);
        assert(code <= 0x7ff) by (bit_vector)
            requires
                code == (((b1 & 0x1f) as u32) << 6) | ((b2 & 0x3f) as u32),
        ;
        if code < 0x80 {
            return None;
        }
        return Some((code, 2));
    }
    if bytes.len() < 3 {
        return None;
    }
    let b3: u8 = bytes[2];
    if b3 < 0x80 || b3 > 0xbf {
        return None;
    }
    if 0xe0 <= b1 && b1 <= 0xef {
        let code: u32 = (((b1 & 0x0f) as u32) << 12) | (((b2 & 0x3f) as u32) << 6) | ((b3
            & 0x3f) as u32);
        assert(code <= 0xffff) by (bit_vector)
            requires
                code == (((b1 & 0x0f) as u32) << 12) | (((b2 & 0x3f) as u32) << 6) | ((b3
                    & 0x3f) as u32),
        ;
        if code < 0x800 || (0xd800 <= code && code <= 0xdfff) {
            return None;
        }
        return Some((code, 3));
    }
    if bytes.len() < 4 {
        return None;
    }
    let b4: u8 = bytes[3];
    if b4 < 0x80 || b4 > 0xbf || b1 < 0xf0 || b1 > 0xf7 {
        return None;
    }
    let code: u32 = (((b1 & 0x07) as u32) << 18) | (((b2 & 0x3f) as u32) << 12) | (((b3
        & 0x3f) as u32) << 6) | ((b4 & 0x3f) as u32);
    if code < 0x10000 || code > 0x10ffff {
        return None;
    }
    Some((code, 4))
}

/// The characters that `bytes` encode in UTF-8, if they are well formed.
pub fn utf8_chars(bytes: &[u8]) -> (r: Option<Vec<char>>)
    ensures
        match r {
            Some(v) => valid_utf8(bytes@) && v@ == decode_utf8(bytes@),
            None => !valid_utf8(bytes@),
        },
{
    let mut out: Vec<char> = Vec::new();
    let mut i: usize = 0;
    proof {
        assert(bytes@.skip(0) =~= bytes@);
    }
    while i < bytes.len()
        invariant
            i <= bytes@.len(),
            valid_utf8(bytes@) == valid_utf8(bytes@.skip(i as int)),
            valid_utf8(bytes@) ==> decode_utf8(bytes@) == out@ + decode_utf8(
                bytes@.skip(i as int),
            ),
        decreases bytes@.len() - i,
    {
        let rest: &[u8] = vstd::slice::slice_subrange(bytes, i, bytes.len());
        assert(rest@ =~= bytes@.skip(i as int));
        match first_scalar(rest) {
            None => {
                return None;
            },
            Some((code, len)) => {
                proof {
                    assert(pop_first_scalar(rest@) =~= bytes@.skip(i + len));
                }
                let ghost before = out@;
                match char::from_u32(code) {
                    Some(c) => {
                        out.push(c);
                        proof {
                            vstd::utf8::char_u32_cast(c, code);
                            if valid_utf8(bytes@) {
                                assert(decode_utf8(rest@) == seq![c] + decode_utf8(
                                    bytes@.skip(i + len),
                                ));
                                assert(before + (seq![c] + decode_utf8(bytes@.skip(i + len)))
                                    =~= out@ + decode_utf8(bytes@.skip(i + len)));
                            }
                        }
                    },
                    None => {
                        return None;
                    },
                }
                i = i + len;
            },
        }
    }
    proof {
        assert(bytes@.skip(i as int) =~= Seq::<u8>::empty());
        assert(out@ + Seq::<char>::empty() =~= out@);
    }
    Some(out)
}

/// The UTF-8 bytes of `s`.
pub fn bytes_of(s: &str) -> (r: Vec<u8>)
    ensures
        r@ == encode_utf8(s@),
{
    vstd::slice::slice_to_vec(s.as_bytes())
}

/// The bytes of joined texts are the joined bytes.
pub proof fn lemma_encode_joins(a: Seq<char>, b: Seq<char>)
    ensures
        encode_utf8(a + b) == encode_utf8(a) + encode_utf8(b),
    decreases a.len(),
{
    if a.len() == 0 {
        assert(a + b =~= b);
        assert(encode_utf8(a) + encode_utf8(b) =~= encode_utf8(b));
    } else {
        lemma_encode_joins(a.drop_first(), b);
        assert((a + b).drop_first() =~= a.drop_first() + b);
        assert((a + b)[0] == a[0]);
        assert(encode_utf8(a + b) =~= encode_utf8(a) + encode_utf8(b));
    }
}

/// Of the characters of ASCII the space, the tab and the line ends are white space.
pub proof fn law_white_space(c: char)
    ensures
        c <= '\u{7f}' ==> (is_space(c) <==> c == ' ' || (0x09 <= c as u32 && c as u32 <= 0x0d)),
{
}

/// Trimming takes white space from both ends and nothing else.
pub proof fn law_trim_takes_the_ends(s: Seq<char>)
    ensures
        trim(s).len() > 0 ==> !is_space(trim(s)[0]) && !is_space(trim(s).last()),
        exists|i: int, j: int|
            0 <= i <= j <= s.len() && #[trigger] s.subrange(i, j) == trim(s) && (forall|k: int|
                0 <= k < i || j <= k < s.len() ==> is_space(#[trigger] s[k])),
{
    let t = trim_start(s);
    let i = s.len() - t.len();
    lemma_trim_start_parts(s);
    lemma_trim_end_parts(t);
    let u = trim_end(t);
    let j = i + u.len();
    assert(s.subrange(i, j) =~= trim(s));
    assert forall|k: int| 0 <= k < i || j <= k < s.len() implies is_space(#[trigger] s[k]) by {
        if k >= j {
            assert(s[k] == t[k - i]);
        }
    }
}

proof fn lemma_trim_start_parts(s: Seq<char>)
    ensures
        trim_start(s).len() <= s.len(),
        trim_start(s) == s.skip(s.len() - trim_start(s).len()),
        forall|k: int| 0 <= k < s.len() - trim_start(s).len() ==> is_space(#[trigger] s[k]),
        trim_start(s).len() > 0 ==> !is_space(trim_start(s)[0]),
    decreases s.len(),
{
    if s.len() > 0 && is_space(s[0]) {
        let rest = s.drop_first();
        lemma_trim_start_parts(rest);
        assert(rest.skip(rest.len() - trim_start(rest).len()) =~= s.skip(
            s.len() - trim_start(s).len(),
        ));
        assert forall|k: int| 0 <= k < s.len() - trim_start(s).len() implies is_space(
            #[trigger] s[k],
        ) by {
            if k > 0 {
                assert(s[k] == rest[k - 1]);
            }
        }
    } else {
        assert(s.skip(0) =~= s);
    }
}

proof fn lemma_trim_end_parts(s: Seq<char>)
    ensures
        trim_end(s).len() <= s.len(),
        trim_end(s) == s.take(trim_end(s).len() as int),
        forall|k: int| trim_end(s).len() <= k < s.len() ==> is_space(#[trigger] s[k]),
        trim_end(s).len() > 0 ==> !is_space(trim_end(s).last()),
    decreases s.len(),
{
    if s.len() > 0 && is_space(s.last()) {
        let front = s.drop_last();
        lemma_trim_end_parts(front);
        assert(front.take(trim_end(front).len() as int) =~= s.take(trim_end(s).len() as int));
        assert forall|k: int| trim_end(s).len() <= k < s.len() implies is_space(
            #[trigger] s[k],
        ) by {
            if k < s.len() - 1 {
                assert(s[k] == front[k]);
            }
        }
    } else {
        assert(s.take(s.len() as int) =~= s);
    }
}

/// In lower case every capital letter of ASCII is its small letter, and every other
/// character is kept.
pub proof fn law_lower_case(s: Seq<char>, i: int)
    requires
        0 <= i < s.len(),
    ensures
        lower_ascii(s).len() == s.len(),
        'A' <= s[i] <= 'Z' ==> lower_ascii(s)[i] as u32 == s[i] as u32 + 32,
        !('A' <= s[i] <= 'Z') ==> lower_ascii(s)[i] == s[i],
{
}

/// A text falls apart at every separator, and no part holds one.
pub proof fn law_segments_part_at_separators(a: Seq<char>, b: Seq<char>, c: char)
    ensures
        segments(a + seq![c] + b, c) == segments(a, c) + segments(b, c),
        !a.contains(c) ==> segments(a, c) == (if a.len() == 0 {
            Seq::empty()
        } else {
            seq![a]
        }),
    decreases a.len(),
{
    lemma_first_at(a, c);
    let s = a + seq![c] + b;
    match first_at(a, c) {
        None => {
            let n = a.len() as int;
            assert forall|j: int| 0 <= j < n implies #[trigger] s[j] != c by {
                assert(s[j] == a[j]);
            }
            lemma_first_at_is(s, c, n);
            assert(s.take(n) =~= a);
            assert(s.skip(n + 1) =~= b);
            if n == 0 {
                assert(s.skip(1) =~= b);
                assert(segments(a, c) + segments(b, c) =~= segments(b, c));
            }
        },
        Some(i) => {
            assert(a.contains(a[i]));
            assert forall|j: int| 0 <= j < i implies #[trigger] s[j] != c by {
                assert(s[j] == a[j]);
            }
            assert(s[i] == a[i]);
            lemma_first_at_is(s, c, i);
            assert(s.take(i) =~= a.take(i));
            assert(s.skip(i + 1) =~= a.skip(i + 1) + seq![c] + b);
            law_segments_part_at_separators(a.skip(i + 1), b, c);
            if i == 0 {
            } else {
                assert(seq![a.take(i)] + (segments(a.skip(i + 1), c) + segments(b, c)) =~= (seq![
                    a.take(i),
                ] + segments(a.skip(i + 1), c)) + segments(b, c));
            }
        },
    }
}

/// A number is read from digits alone, the last of them the ones and each before it
/// worth ten times the next, with at most one `+` in front; anything else is no
/// number.
pub proof fn law_numbers_are_read_from_digits(s: Seq<char>, c: char)
    ensures
        s.len() > 0 && (forall|i: int| 0 <= i < s.len() ==> is_digit(#[trigger] s[i]))
            ==> unsigned_value(s) == Some(digits_value(s)) && unsigned_value(seq!['+'] + s) == Some(
            digits_value(s),
        ),
        unsigned_value(s) is Some ==> s.len() > 0 && (s[0] == '+' || is_digit(s[0])) && (forall|
            i: int,
        | 1 <= i < s.len() ==> is_digit(#[trigger] s[i])),
        is_digit(c) ==> digits_value(s.push(c)) == 10 * digits_value(s) + (c as nat - '0' as nat),
        unsigned_value(Seq::empty()) is None,
        unsigned_value(seq!['+']) is None,
{
    assert(s.push(c).drop_last() =~= s);
    let p = seq!['+'] + s;
    assert(p.skip(1) =~= s);
    if s.len() > 0 && (forall|i: int| 0 <= i < s.len() ==> is_digit(#[trigger] s[i])) {
        assert(is_digit(s[0]));
    }
    if unsigned_value(s) is Some && s.len() > 0 {
        let body = after_plus(s);
        if s[0] == '+' {
            assert forall|i: int| 1 <= i < s.len() implies is_digit(#[trigger] s[i]) by {
                assert(s[i] == body[i - 1]);
            }
        } else {
            assert(is_digit(body[0]));
        }
    }
    assert(seq!['+'].skip(1).len() == 0);
}

/// A number is written in decimal digits without a leading zero.
pub proof fn law_decimal_has_no_leading_zero(n: nat)
    ensures
        decimal(n).len() > 0,
        n > 0 ==> decimal(n)[0] != '0',
        n == 0 ==> decimal(n) == seq!['0'],
    decreases n,
{
    if n >= 10 {
        law_decimal_has_no_leading_zero(n / 10);
        assert(decimal(n)[0] == decimal(n / 10)[0]);
    }
}

} // verus!
