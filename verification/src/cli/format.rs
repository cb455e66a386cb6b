//! Pieces of terminal output.
use vstd::prelude::*;
use crate::num::binary::Width;
use crate::num::decimal::{debug_single, debug_single_exec, fixed, fixed_exec, pad_left, padded_left};
use crate::text::{chars_of, decimal, push_chars, push_decimal};

verus! {

/// `s` with as many spaces after it as make `width` characters.
pub open spec fn pad_right(s: Seq<char>, width: nat) -> Seq<char> {
    s + Seq::new(
        if s.len() < width {
            (width - s.len()) as nat
        } else {
            0
        },
        |i: int| ' ',
    )
}

/// Appends `s`, filled up with spaces to `width` characters.
pub fn push_left(out: &mut String, s: &str, width: usize)
    ensures
        final(out)@ == old(out)@ + pad_right(s@, width as nat),
{
    let chars: Vec<char> = chars_of(s);
    push_chars(out, chars.as_slice());
    let mut n: usize = chars.len();
    let ghost start = old(out)@ + s@;
    assert(start + Seq::new(0nat, |i: int| ' ') =~= start);
    while n < width
        invariant
            s@.len() <= n,
            n <= width || n == s@.len(),
            start == old(out)@ + s@,
            out@ == start + Seq::new((n - s@.len()) as nat, |i: int| ' '),
        decreases width - n,
    {
        out.push(' ');
        n = n + 1;
        assert(out@ =~= start + Seq::new((n - s@.len()) as nat, |i: int| ' '));
    }
    assert(out@ =~= old(out)@ + pad_right(s@, width as nat));
}

/// Appends a number, filled up with spaces to `width` characters.
pub fn push_number_left(out: &mut String, n: u64, width: usize)
    ensures
        final(out)@ == old(out)@ + pad_right(decimal(n as nat), width as nat),
{
    let mut s: String = String::new();
    push_decimal(&mut s, n);
    assert(s@ =~= decimal(n as nat));
    push_left(out, s.as_str(), width);
}

/// Appends a number behind spaces that make up `width` characters.
pub fn push_number_right(out: &mut String, n: u64, width: usize)
    ensures
        final(out)@ == old(out)@ + pad_left(decimal(n as nat), width as nat, ' '),
{
    let mut s: String = String::new();
    push_decimal(&mut s, n);
    assert(s@ =~= decimal(n as nat));
    let chars: Vec<char> = chars_of(s.as_str());
    let wide: Vec<char> = padded_left(chars.as_slice(), width, ' ');
    push_chars(out, wide.as_slice());
}

/// Appends a value with `places` digits after the point.
pub fn push_fixed(out: &mut String, w: Width, bits: u64, places: u32)
    requires
        0 < places <= 9,
    ensures
        final(out)@ == old(out)@ + fixed(w, bits as nat, places as nat),
{
    let chars: Vec<char> = fixed_exec(w, bits, places);
    push_chars(out, chars.as_slice());
}

/// Appends a value with `places` digits after the point, behind spaces that make
/// up `width` characters.
pub fn push_fixed_right(out: &mut String, w: Width, bits: u64, places: u32, width: usize)
    requires
        0 < places <= 9,
    ensures
        final(out)@ == old(out)@ + pad_left(
            fixed(w, bits as nat, places as nat),
            width as nat,
            ' ',
        ),
{
    let chars: Vec<char> = fixed_exec(w, bits, places);
    let wide: Vec<char> = padded_left(chars.as_slice(), width, ' ');
    push_chars(out, wide.as_slice());
}

/// Several single-precision values, parted by a comma and a space.
pub open spec fn singles_text(v: Seq<u32>) -> Seq<char>
    decreases v.len(),
{
    if v.len() == 0 {
        Seq::empty()
    } else if v.len() == 1 {
        debug_single(v[0] as nat)
    } else {
        singles_text(v.drop_last()) + ", "@ + debug_single(v.last() as nat)
    }
}

/// A list of single-precision values in square brackets.
pub open spec fn list_text(v: Seq<u32>) -> Seq<char> {
    "["@ + singles_text(v) + "]"@
}

/// Appends a list of single-precision values in square brackets.
pub fn push_list(out: &mut String, v: &[u32])
    ensures
        final(out)@ == old(out)@ + list_text(v@),
{
    out.append("[");
    let ghost start = out@;
    let mut i: usize = 0;
    proof {
        assert(v@.take(0) =~= Seq::<u32>::empty());
        assert(start + Seq::<char>::empty() =~= start);
    }
    while i < v.len()
        invariant
            i <= v@.len(),
            out@ == start + singles_text(v@.take(i as int)),
        decreases v@.len() - i,
    {
        let ghost before = out@;
        if i > 0 {
            out.append(", ");
        }
        let one: Vec<char> = debug_single_exec(v[i]);
        push_chars(out, one.as_slice());
        proof {
            let upto = v@.take(i + 1);
            assert(upto.drop_last() =~= v@.take(i as int));
            assert(upto.last() == v@[i as int]);
            assert(out@ =~= start + singles_text(upto));
        }
        i = i + 1;
    }
    out.append("]");
    proof {
        assert(v@.take(i as int) =~= v@);
        assert(out@ =~= old(out)@ + list_text(v@));
    }
}

/// A truth value in words.
pub open spec fn bool_text(b: bool) -> Seq<char> {
    if b {
        "true"@
    } else {
        "false"@
    }
}

/// A truth value in words.
pub fn bool_str(b: bool) -> (r: &'static str)
    ensures
        r@ == bool_text(b),
{
    if b {
        "true"
    } else {
        "false"
    }
}

/// Several values stand in brackets in their order, parted by a comma and a space.
pub proof fn law_lists_keep_their_order(a: Seq<u32>, b: Seq<u32>, x: u32)
    requires
        a.len() > 0,
        b.len() > 0,
    ensures
        list_text(a) == "["@ + singles_text(a) + "]"@,
        singles_text(a + b) == singles_text(a) + ", "@ + singles_text(b),
        singles_text(seq![x]) == debug_single(x as nat),
    decreases b.len(),
{
    let all = a + b;
    assert(all.last() == b.last());
    if b.len() == 1 {
        assert(all.drop_last() =~= a);
        assert(b.last() == b[0]);
    } else {
        law_lists_keep_their_order(a, b.drop_last(), x);
        assert(all.drop_last() =~= a + b.drop_last());
        assert(singles_text(all) =~= singles_text(a) + ", "@ + singles_text(b));
    }
}

} // verus!
