//! What the lines of a simulation say, and which arguments it takes.
use vstd::prelude::*;
use crate::cli::replay_laws::{lemma_decimal_is_a_word, lemma_join_word, lemma_shown, shows};
use crate::cli::sim::{
    args_from, at_least_one, clamped, final_text, stick, tick_text, Refusal, SimArgs,
};
use crate::num::binary::Width;
use crate::num::decimal::{fixed, magnitude, pad_left, read_value};
use crate::num::decimal_laws::{law_fixed_is_accurate, lemma_fixed_is_a_word, writes};
use crate::text::{
    decimal, is_space, lemma_words_last, lemma_words_of_spaces, lemma_words_push, one_word, spaces,
    unsigned_up_to, words,
};

verus! {

/// Padding on the left puts spaces first.
proof fn lemma_pad_left(s: Seq<char>, width: nat) -> (k: nat)
    ensures
        pad_left(s, width, ' ') == spaces(k) + s,
{
    let k: nat = if s.len() < width {
        (width - s.len()) as nat
    } else {
        0
    };
    assert(pad_left(s, width, ' ') =~= spaces(k) + s);
    k
}

/// A column behind a space is one more word.
proof fn lemma_column(a: Seq<char>, s: Seq<char>, width: nat)
    requires
        one_word(s),
    ensures
        words(a + spaces(1) + pad_left(s, width, ' ')) == words(a).push(s),
{
    let k = lemma_pad_left(s, width);
    lemma_words_push(a, k + 1, s);
    assert(a + spaces(1) + (spaces(k) + s) =~= a + spaces(k + 1) + s);
}

proof fn lemma_bars()
    ensures
        " | "@ == spaces(1) + "|"@ + spaces(1),
        " "@ == spaces(1),
        one_word("|"@),
{
    reveal_strlit(" | ");
    reveal_strlit(" ");
    reveal_strlit("|");
}

proof fn lemma_bar(a: Seq<char>, s: Seq<char>, width: nat)
    requires
        one_word(s),
    ensures
        words(a + " | "@ + pad_left(s, width, ' ')) == words(a).push("|"@).push(s),
{
    lemma_bars();
    let b = a + spaces(1) + "|"@;
    lemma_words_push(a, 1, "|"@);
    lemma_column(b, s, width);
    assert(a + " | "@ + pad_left(s, width, ' ') =~= b + spaces(1) + pad_left(s, width, ' '));
}

/// The line of a tick has, between bars, the number of the tick; the position
/// with two digits after the point, first x, then y, then z; roll and throttle
/// with three; and how many commands were routed.
pub proof fn law_tick_columns(
    tick: u64,
    x: u64,
    y: u64,
    z: u64,
    roll: u32,
    throttle: u32,
    routed: u64,
)
    ensures
        ({
            let w = words(tick_text(tick, x, y, z, roll, throttle, routed));
            &&& w.len() == 10
            &&& w[0] == decimal(tick as nat)
            &&& w[1] == "|"@ && w[5] == "|"@ && w[8] == "|"@
            &&& writes(Width::Double, x as nat, 2, w[2])
            &&& writes(Width::Double, y as nat, 2, w[3])
            &&& writes(Width::Double, z as nat, 2, w[4])
            &&& writes(Width::Single, roll as nat, 3, w[6])
            &&& writes(Width::Single, throttle as nat, 3, w[7])
            &&& w[9] == decimal(routed as nat)
        }),
{
    lemma_bars();
    let d = decimal(tick as nat);
    let n = decimal(routed as nat);
    let fx = fixed(Width::Double, x as nat, 2);
    let fy = fixed(Width::Double, y as nat, 2);
    let fz = fixed(Width::Double, z as nat, 2);
    let fr = fixed(Width::Single, roll as nat, 3);
    let ft = fixed(Width::Single, throttle as nat, 3);
    lemma_decimal_is_a_word(tick as nat);
    lemma_decimal_is_a_word(routed as nat);
    law_fixed_is_accurate(Width::Double, x as nat, 2);
    law_fixed_is_accurate(Width::Double, y as nat, 2);
    law_fixed_is_accurate(Width::Double, z as nat, 2);
    law_fixed_is_accurate(Width::Single, roll as nat, 3);
    law_fixed_is_accurate(Width::Single, throttle as nat, 3);
    lemma_fixed_is_a_word(Width::Double, x as nat, 2);
    lemma_fixed_is_a_word(Width::Double, y as nat, 2);
    lemma_fixed_is_a_word(Width::Double, z as nat, 2);
    lemma_fixed_is_a_word(Width::Single, roll as nat, 3);
    lemma_fixed_is_a_word(Width::Single, throttle as nat, 3);
    let k = lemma_pad_left(d, 4);
    let t0 = pad_left(d, 4, ' ');
    lemma_words_of_spaces(k, d);
    lemma_words_last(d);
    let t1 = t0 + " | "@ + pad_left(fx, 8, ' ');
    lemma_bar(t0, fx, 8);
    let t2 = t1 + " "@ + pad_left(fy, 8, ' ');
    lemma_column(t1, fy, 8);
    let t3 = t2 + " "@ + pad_left(fz, 8, ' ');
    lemma_column(t2, fz, 8);
    let t4 = t3 + " | "@ + pad_left(fr, 8, ' ');
    lemma_bar(t3, fr, 8);
    let t5 = t4 + " "@ + pad_left(ft, 10, ' ');
    lemma_column(t4, ft, 10);
    let t6 = t5 + " | "@ + n;
    lemma_bar(t5, n, 0);
    assert(pad_left(n, 0, ' ') =~= n);
    assert(t6 == tick_text(tick, x, y, z, roll, throttle, routed));
}

proof fn lemma_final_labels()
    ensures
        "\nfinal pose: x="@ == "\nfinal"@ + spaces(1) + "pose:"@ + spaces(1) + "x="@,
        " y="@ == spaces(1) + "y="@,
        " z="@ == spaces(1) + "z="@,
        "  routed="@ == spaces(2) + "routed="@,
        words("\nfinal"@) == seq!["final"@],
        one_word("pose:"@),
        one_word("x="@),
        one_word("y="@),
        one_word("z="@),
        one_word("routed="@),
        ""@ == Seq::<char>::empty(),
{
    reveal_strlit("\nfinal pose: x=");
    reveal_strlit("\nfinal");
    reveal_strlit("final");
    reveal_strlit("pose:");
    reveal_strlit("x=");
    reveal_strlit("y=");
    reveal_strlit(" y=");
    reveal_strlit("z=");
    reveal_strlit(" z=");
    reveal_strlit("  routed=");
    reveal_strlit("routed=");
    reveal_strlit("");
    let s = "\nfinal"@;
    assert(is_space(s[0]));
    assert(s.drop_first() =~= "final"@);
    lemma_words_last("final"@);
    assert(words(s) == words(s.drop_first()));
}

/// The last line gives the position with two digits after the point, each
/// coordinate behind its letter, and how many commands were routed.
pub proof fn law_final_line(x: u64, y: u64, z: u64, routed: u64)
    ensures
        ({
            let w = words(final_text(x, y, z, routed));
            &&& w.len() == 6
            &&& w[0] == "final"@ && w[1] == "pose:"@
            &&& shows(w[2], "x="@, ""@, Width::Double, x as nat, 2)
            &&& shows(w[3], "y="@, ""@, Width::Double, y as nat, 2)
            &&& shows(w[4], "z="@, ""@, Width::Double, z as nat, 2)
            &&& w[5] == "routed="@ + decimal(routed as nat)
        }),
{
    lemma_final_labels();
    let fx = fixed(Width::Double, x as nat, 2);
    let fy = fixed(Width::Double, y as nat, 2);
    let fz = fixed(Width::Double, z as nat, 2);
    let n = decimal(routed as nat);
    lemma_shown("x="@, ""@, Width::Double, x as nat, 2);
    lemma_shown("y="@, ""@, Width::Double, y as nat, 2);
    lemma_shown("z="@, ""@, Width::Double, z as nat, 2);
    assert("x="@ + fx + ""@ =~= "x="@ + fx);
    assert("y="@ + fy + ""@ =~= "y="@ + fy);
    assert("z="@ + fz + ""@ =~= "z="@ + fz);
    lemma_decimal_is_a_word(routed as nat);
    lemma_join_word("routed="@, n);
    let t0 = "\nfinal"@;
    let t1 = t0 + spaces(1) + "pose:"@;
    lemma_words_push(t0, 1, "pose:"@);
    let t2 = "\nfinal pose: x="@ + fx;
    lemma_words_push(t1, 1, "x="@ + fx);
    assert(t2 =~= t1 + spaces(1) + ("x="@ + fx));
    let t3 = t2 + " y="@ + fy;
    lemma_words_push(t2, 1, "y="@ + fy);
    assert(t3 =~= t2 + spaces(1) + ("y="@ + fy));
    let t4 = t3 + " z="@ + fz;
    lemma_words_push(t3, 1, "z="@ + fz);
    assert(t4 =~= t3 + spaces(1) + ("z="@ + fz));
    let t5 = t4 + "  routed="@ + n;
    lemma_words_push(t4, 2, "routed="@ + n);
    assert(t5 =~= t4 + spaces(2) + ("routed="@ + n));
}

/// A throttle is held between 0 and 1, `0x3f80_0000` in single precision: what
/// lies between stays, and what is no number too.
pub proof fn law_throttle_is_held(bits: u32)
    ensures
        magnitude(Width::Single, bits as nat) <= Width::Single.infinity() ==> {
            &&& magnitude(Width::Single, clamped(bits) as nat) <= 0x3f80_0000
            &&& bits <= 0x3f80_0000 ==> clamped(bits) == bits
            &&& 0x3f80_0000 < bits < 0x8000_0000 ==> clamped(bits) == 0x3f80_0000
            &&& bits > 0x8000_0000 ==> clamped(bits) == 0
        },
        magnitude(Width::Single, bits as nat) > Width::Single.infinity() ==> clamped(bits) == bits,
{
}

/// A rate is at least 1, `0x3ff0_0000_0000_0000` in double precision; a larger one
/// stays, and what is negative or no number is 1.
pub proof fn law_rate_is_at_least_one(bits: u64)
    ensures
        at_least_one(bits) >= 0x3ff0_0000_0000_0000,
        0x3ff0_0000_0000_0000 <= bits <= Width::Double.infinity() ==> at_least_one(bits) == bits,
        bits > Width::Double.infinity() || bits < 0x3ff0_0000_0000_0000 ==> at_least_one(bits)
            == 0x3ff0_0000_0000_0000,
{
}

// --- Arguments ---------------------------------------------------------------------------

/// Arguments that were read already do not matter.
proof fn lemma_args_behind(args: Seq<Seq<char>>, i: int, more: Seq<Seq<char>>, a: SimArgs)
    requires
        0 <= i <= args.len(),
    ensures
        args_from(more + args, more.len() + i, a) == args_from(args, i, a),
    decreases args.len() - i,
{
    let all = more + args;
    let at = more.len() + i;
    if i < args.len() {
        assert(all[at] == args[i]);
        if i + 1 < args.len() {
            assert(all[at + 1] == args[i + 1]);
            let s = args[i + 1];
            if let Some(n) = unsigned_up_to(s, u64::MAX as nat) {
                lemma_args_behind(args, i + 2, more, SimArgs { ticks: n as u64, ..a });
            }
            if let Some(b) = read_value(Width::Double, s) {
                let next = SimArgs { rate_hz: at_least_one(b as u64), ..a };
                lemma_args_behind(args, i + 2, more, next);
            }
            if let Some(b) = read_value(Width::Single, s) {
                lemma_args_behind(args, i + 2, more, SimArgs { throttle: clamped(b as u32), ..a });
                lemma_args_behind(args, i + 2, more, SimArgs { roll: b as u32, ..a });
            }
        }
    }
}

proof fn lemma_sim_options()
    ensures
        "--ticks"@ != "--rate"@ && "--ticks"@ != "--throttle"@ && "--ticks"@ != "--roll"@,
        "--rate"@ != "--throttle"@ && "--rate"@ != "--roll"@ && "--throttle"@ != "--roll"@,
{
    reveal_strlit("--ticks");
    reveal_strlit("--rate");
    reveal_strlit("--throttle");
    reveal_strlit("--roll");
    assert("--ticks"@.len() == 7 && "--rate"@.len() == 6 && "--throttle"@.len() == 10);
    assert("--roll"@.len() == 6 && "--rate"@[3] == 'a' && "--roll"@[3] == 'o');
}

/// Each option sets what it is named after, to the number behind it, and nothing
/// else; what follows is read as if it stood alone. A later option replaces an
/// earlier one.
pub proof fn law_options_set_what_they_name(value: Seq<char>, rest: Seq<Seq<char>>, a: SimArgs)
    ensures
        unsigned_up_to(value, u64::MAX as nat) matches Some(n) ==> args_from(
            seq!["--ticks"@, value] + rest,
            0,
            a,
        ) == args_from(rest, 0, SimArgs { ticks: n as u64, ..a }),
        read_value(Width::Double, value) matches Some(b) ==> args_from(
            seq!["--rate"@, value] + rest,
            0,
            a,
        ) == args_from(rest, 0, SimArgs { rate_hz: at_least_one(b as u64), ..a }),
        read_value(Width::Single, value) matches Some(b) ==> {
            &&& args_from(seq!["--throttle"@, value] + rest, 0, a) == args_from(
                rest,
                0,
                SimArgs { throttle: clamped(b as u32), ..a },
            )
            &&& args_from(seq!["--roll"@, value] + rest, 0, a) == args_from(
                rest,
                0,
                SimArgs { roll: b as u32, ..a },
            )
        },
        args_from(Seq::empty(), 0, a) == Ok::<SimArgs, Refusal>(a),
{
    lemma_sim_options();
    if let Some(n) = unsigned_up_to(value, u64::MAX as nat) {
        let head = seq!["--ticks"@, value];
        assert((head + rest)[0] == "--ticks"@ && (head + rest)[1] == value);
        lemma_args_behind(rest, 0, head, SimArgs { ticks: n as u64, ..a });
    }
    if let Some(b) = read_value(Width::Double, value) {
        let head = seq!["--rate"@, value];
        assert((head + rest)[0] == "--rate"@ && (head + rest)[1] == value);
        lemma_args_behind(rest, 0, head, SimArgs { rate_hz: at_least_one(b as u64), ..a });
    }
    if let Some(b) = read_value(Width::Single, value) {
        let head = seq!["--throttle"@, value];
        assert((head + rest)[0] == "--throttle"@ && (head + rest)[1] == value);
        lemma_args_behind(rest, 0, head, SimArgs { throttle: clamped(b as u32), ..a });
        let other = seq!["--roll"@, value];
        assert((other + rest)[0] == "--roll"@ && (other + rest)[1] == value);
        lemma_args_behind(rest, 0, other, SimArgs { roll: b as u32, ..a });
    }
}

/// Roll is the first axis of the stick and throttle the fourth; the other six are
/// at rest.
pub proof fn law_axes_of_the_stick(roll: u32, throttle: u32, i: int)
    requires
        0 <= i < 8,
    ensures
        stick(roll, throttle).len() == 8,
        stick(roll, throttle)[0] == roll,
        stick(roll, throttle)[3] == throttle,
        i != 0 && i != 3 ==> stick(roll, throttle)[i] == 0,
{
}

} // verus!
