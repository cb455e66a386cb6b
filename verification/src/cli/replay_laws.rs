//! What the lines of a replay say of the recorded values.
use vstd::prelude::*;
use vstd::arithmetic::div_mod::lemma_div_multiples_vanish;
use vstd::arithmetic::power2::{lemma2_to64, lemma2_to64_rest, lemma_pow2_adds, lemma_pow2_pos, pow2};
use crate::analytics::record::{FdrEntry, RecordKind};
use crate::cli::format::{bool_text, list_text, pad_right};
use crate::cli::replay::{
    as_double, at_least_zero, control_text, count_of, frame_steps, frame_text, gps_text, imu_text,
    kind_named, line_head, line_text, pause, ratio, replay_steps, request_from, speed_named,
    summary_text,
    telemetry_text, wanted, Refusal, Request, StepView,
};
use crate::num::binary::{double_as_u64, lemma_nearest, rounds_to, units, whole_part, Width};
use crate::num::convert::quotient;
use crate::num::decimal::{fixed, lemma_decimal_digits, lemma_exact_rounds, pad_left, read_value};
use crate::num::decimal_laws::{law_fixed_is_accurate, lemma_fixed_is_a_word, writes};
use crate::num::integer_laws::law_small_integers_are_exact;
use crate::runtime::mode::{mode_name, mode_of};
use crate::runtime::wire::{
    kind_name, kind_of, law_decoded_reads_back, ControlCommand, GpsSample, ImuSample, PlainBytes,
    TelemetryPacket,
};
use crate::text::{
    after_text, decimal, is_digit, is_space, lemma_after_text_is, lemma_words_join,
    lemma_words_last, lemma_words_of_spaces, lemma_words_push, one_word, spaces, unsigned_up_to,
    words,
};

verus! {

/// `word` shows the value of the pattern `bits` with `places` digits after the
/// point, between the given texts.
pub open spec fn shows(
    word: Seq<char>,
    before: Seq<char>,
    after: Seq<char>,
    w: Width,
    bits: nat,
    places: nat,
) -> bool {
    exists|t: Seq<char>| #[trigger]
        writes(w, bits, places, t) && word == before + t + after
}

/// Padding on the right adds spaces.
pub proof fn lemma_pad_right(s: Seq<char>, width: nat) -> (k: nat)
    ensures
        pad_right(s, width) == s + spaces(k),
{
    let k: nat = if s.len() < width {
        (width - s.len()) as nat
    } else {
        0
    };
    assert(pad_right(s, width) =~= s + spaces(k));
    k
}

/// A field behind padding is one more word.
proof fn lemma_field(a: Seq<char>, pad: nat, key: Seq<char>, value: Seq<char>)
    requires
        one_word(key + value),
    ensures
        words(a + spaces(pad) + (spaces(1) + key) + value) == words(a).push(key + value),
{
    lemma_words_push(a, pad + 1, key + value);
    assert(a + spaces(pad) + (spaces(1) + key) + value =~= a + spaces(pad + 1) + (key + value));
}

pub proof fn lemma_join_word(a: Seq<char>, b: Seq<char>)
    requires
        one_word(a) || a.len() == 0,
        one_word(b) || b.len() == 0,
        a.len() + b.len() > 0,
    ensures
        one_word(a + b),
{
    let s = a + b;
    assert forall|i: int| 0 <= i < s.len() implies !is_space(#[trigger] s[i]) by {
        if i < a.len() {
            assert(s[i] == a[i]);
        } else {
            assert(s[i] == b[i - a.len()]);
        }
    }
}

pub proof fn lemma_decimal_is_a_word(n: nat)
    ensures
        one_word(decimal(n)),
{
    lemma_decimal_digits(n);
    let d = decimal(n);
    assert forall|i: int| 0 <= i < d.len() implies !is_space(#[trigger] d[i]) by {
        assert(is_digit(d[i]));
    }
}

/// The words of a line end in those of its frame.
proof fn lemma_frame_words(idx: nat, e: FdrEntry, t0: u64)
    ensures
        words(frame_text(e)).is_suffix_of(words(line_text(idx, e, t0))),
{
    reveal_strlit("ms ");
    reveal_strlit("ms");
    let since = pad_left(
        fixed(Width::Double, ratio(at_least_zero(e.timestamp_ns - t0), 1_000_000), 3),
        10,
        ' ',
    );
    let start = "["@ + pad_left(decimal(idx), 6, ' ') + "] t=+"@ + since;
    let head = start + "ms"@;
    let tail = spaces(1) + frame_text(e);
    assert(line_head(idx, e.timestamp_ns, t0) =~= head + spaces(1));
    assert(line_text(idx, e, t0) =~= head + tail);
    lemma_words_join(head, tail);
    lemma_words_of_spaces(1, frame_text(e));
    let w = words(frame_text(e));
    let all = words(line_text(idx, e, t0));
    assert(all.subrange(all.len() - w.len(), all.len() as int) =~= w);
}

pub proof fn lemma_shown(before: Seq<char>, after: Seq<char>, w: Width, bits: nat, places: nat)
    requires
        places > 0,
        one_word(before),
        one_word(after) || after.len() == 0,
    ensures
        shows(before + fixed(w, bits, places) + after, before, after, w, bits, places),
        one_word(before + fixed(w, bits, places)),
        one_word(before + fixed(w, bits, places) + after),
{
    law_fixed_is_accurate(w, bits, places);
    lemma_fixed_is_a_word(w, bits, places);
    lemma_join_word(before, fixed(w, bits, places));
    lemma_join_word(before + fixed(w, bits, places), after);
}

/// The labels of a position's text.
proof fn lemma_gps_labels()
    ensures
        "GPS       seq="@ == "GPS"@ + spaces(7) + "seq="@,
        " lat="@ == spaces(1) + "lat="@,
        " lon="@ == spaces(1) + "lon="@,
        " alt="@ == spaces(1) + "alt="@,
        "m speed="@ == "m"@ + spaces(1) + "speed="@,
        "m/s sats="@ == "m/s"@ + spaces(1) + "sats="@,
        " fix="@ == spaces(1) + "fix="@,
        "fix="@ + "true"@ == "fix=true"@,
        "fix="@ + "false"@ == "fix=false"@,
        one_word("GPS"@),
        one_word("seq="@),
        one_word("lat="@),
        one_word("lon="@),
        one_word("alt="@),
        one_word("speed="@),
        one_word("sats="@),
        one_word("fix="@),
        one_word("m"@),
        one_word("m/s"@),
        one_word("true"@),
        one_word("false"@),
        ""@ == Seq::<char>::empty(),
{
    reveal_strlit("GPS       seq=");
    reveal_strlit("GPS");
    reveal_strlit("seq=");
    reveal_strlit(" lat=");
    reveal_strlit("lat=");
    reveal_strlit(" lon=");
    reveal_strlit("lon=");
    reveal_strlit(" alt=");
    reveal_strlit("alt=");
    reveal_strlit("m speed=");
    reveal_strlit("speed=");
    reveal_strlit("m/s sats=");
    reveal_strlit("sats=");
    reveal_strlit("m/s");
    reveal_strlit("m");
    reveal_strlit("");
    reveal_strlit(" fix=");
    reveal_strlit("fix=");
    reveal_strlit("true");
    reveal_strlit("false");
    reveal_strlit("fix=true");
    reveal_strlit("fix=false");
}

/// The text of a position up to its longitude.
spec fn gps_start(s: GpsSample) -> Seq<char> {
    "GPS       seq="@ + pad_right(decimal(s.seq as nat), 6) + " lat="@ + fixed(
        Width::Double,
        s.lat_deg as nat,
        6,
    ) + " lon="@ + fixed(Width::Double, s.lon_deg as nat, 6)
}

proof fn lemma_gps_start(s: GpsSample)
    ensures
        words(gps_start(s)) == seq![
            "GPS"@,
            "seq="@ + decimal(s.seq as nat),
            "lat="@ + fixed(Width::Double, s.lat_deg as nat, 6),
            "lon="@ + fixed(Width::Double, s.lon_deg as nat, 6),
        ],
{
    lemma_gps_labels();
    let d = decimal(s.seq as nat);
    let lat = fixed(Width::Double, s.lat_deg as nat, 6);
    let lon = fixed(Width::Double, s.lon_deg as nat, 6);
    lemma_decimal_is_a_word(s.seq as nat);
    lemma_join_word("seq="@, d);
    lemma_shown("lat="@, ""@, Width::Double, s.lat_deg as nat, 6);
    lemma_shown("lon="@, ""@, Width::Double, s.lon_deg as nat, 6);
    let k = lemma_pad_right(d, 6);
    lemma_words_last("GPS"@);
    let t1 = "GPS       seq="@ + d;
    lemma_words_push("GPS"@, 7, "seq="@ + d);
    assert(t1 =~= "GPS"@ + spaces(7) + ("seq="@ + d));
    let g1 = "GPS       seq="@ + pad_right(d, 6);
    assert(g1 =~= t1 + spaces(k));
    let g2 = g1 + " lat="@ + lat;
    lemma_field(t1, k, "lat="@, lat);
    lemma_field(g2, 0, "lon="@, lon);
    assert(g2 + spaces(0) =~= g2);
    assert(words(gps_start(s)) =~= seq!["GPS"@, "seq="@ + d, "lat="@ + lat, "lon="@ + lon]);
}

/// What follows the longitude of a position adds its words.
proof fn lemma_gps_rest(a: Seq<char>, s: GpsSample)
    ensures
        ({
            let alt = fixed(Width::Double, s.alt_m as nat, 1);
            let speed = fixed(Width::Single, s.speed_mps as nat, 1);
            words(
                a + " alt="@ + alt + "m speed="@ + speed + "m/s sats="@ + decimal(s.sats as nat)
                    + " fix="@ + bool_text(s.fix_ok != 0),
            ) == words(a).push("alt="@ + alt + "m"@).push("speed="@ + speed + "m/s"@).push(
                "sats="@ + decimal(s.sats as nat),
            ).push("fix="@ + bool_text(s.fix_ok != 0))
        }),
{
    lemma_gps_labels();
    let n = decimal(s.sats as nat);
    let alt = fixed(Width::Double, s.alt_m as nat, 1);
    let speed = fixed(Width::Single, s.speed_mps as nat, 1);
    let b = bool_text(s.fix_ok != 0);
    lemma_decimal_is_a_word(s.sats as nat);
    lemma_join_word("sats="@, n);
    lemma_join_word("fix="@, b);
    lemma_shown("alt="@, "m"@, Width::Double, s.alt_m as nat, 1);
    lemma_shown("speed="@, "m/s"@, Width::Single, s.speed_mps as nat, 1);
    let g4 = a + " alt="@ + alt;
    let t4 = a + spaces(1) + ("alt="@ + alt + "m"@);
    lemma_words_push(a, 1, "alt="@ + alt + "m"@);
    assert(t4 =~= g4 + "m"@);
    let g5 = g4 + "m speed="@ + speed;
    let t5 = t4 + spaces(1) + ("speed="@ + speed + "m/s"@);
    lemma_words_push(t4, 1, "speed="@ + speed + "m/s"@);
    assert(t5 =~= g5 + "m/s"@);
    let g6 = g5 + "m/s sats="@ + n;
    lemma_words_push(t5, 1, "sats="@ + n);
    assert(g6 =~= t5 + spaces(1) + ("sats="@ + n));
    let g7 = g6 + " fix="@ + b;
    lemma_words_push(g6, 1, "fix="@ + b);
    assert(g7 =~= g6 + spaces(1) + ("fix="@ + b));
}

/// The words of a position's text.
proof fn lemma_gps_words(s: GpsSample) -> (w: Seq<Seq<char>>)
    ensures
        words(gps_text(s)) == w,
        w.len() == 8,
        w[0] == "GPS"@,
        w[1] == "seq="@ + decimal(s.seq as nat),
        shows(w[2], "lat="@, ""@, Width::Double, s.lat_deg as nat, 6),
        shows(w[3], "lon="@, ""@, Width::Double, s.lon_deg as nat, 6),
        shows(w[4], "alt="@, "m"@, Width::Double, s.alt_m as nat, 1),
        shows(w[5], "speed="@, "m/s"@, Width::Single, s.speed_mps as nat, 1),
        w[6] == "sats="@ + decimal(s.sats as nat),
        w[7] == (if s.fix_ok != 0 {
            "fix=true"@
        } else {
            "fix=false"@
        }),
{
    lemma_gps_labels();
    lemma_gps_start(s);
    lemma_gps_rest(gps_start(s), s);
    lemma_shown("lat="@, ""@, Width::Double, s.lat_deg as nat, 6);
    lemma_shown("lon="@, ""@, Width::Double, s.lon_deg as nat, 6);
    lemma_shown("alt="@, "m"@, Width::Double, s.alt_m as nat, 1);
    lemma_shown("speed="@, "m/s"@, Width::Single, s.speed_mps as nat, 1);
    let lat = fixed(Width::Double, s.lat_deg as nat, 6);
    let lon = fixed(Width::Double, s.lon_deg as nat, 6);
    assert("lat="@ + lat + ""@ =~= "lat="@ + lat);
    assert("lon="@ + lon + ""@ =~= "lon="@ + lon);
    words(gps_text(s))
}

/// The line of a recorded position, a frame of the kind 2, ends in the word `GPS` and
/// in fields that give its sequence number; its latitude and its longitude, each
/// with six digits after the point and at most half a millionth off; its altitude
/// and its speed with one digit, at most half a tenth off; the number of
/// satellites; and whether the fix is good.
pub proof fn law_gps_line(idx: nat, e: FdrEntry, t0: u64, s: GpsSample, more: Seq<u8>)
    requires
        e.kind == 2,
        e.content() == s.wire() + more,
    ensures
        ({
            let w = words(line_text(idx, e, t0));
            let n = w.len();
            &&& n >= 8
            &&& w[n - 8] == "GPS"@
            &&& w[n - 7] == "seq="@ + decimal(s.seq as nat)
            &&& shows(w[n - 6], "lat="@, ""@, Width::Double, s.lat_deg as nat, 6)
            &&& shows(w[n - 5], "lon="@, ""@, Width::Double, s.lon_deg as nat, 6)
            &&& shows(w[n - 4], "alt="@, "m"@, Width::Double, s.alt_m as nat, 1)
            &&& shows(w[n - 3], "speed="@, "m/s"@, Width::Single, s.speed_mps as nat, 1)
            &&& w[n - 2] == "sats="@ + decimal(s.sats as nat)
            &&& w[n - 1] == (if s.fix_ok != 0 {
                "fix=true"@
            } else {
                "fix=false"@
            })
        }),
{
    law_decoded_reads_back(s, more);
    s.lemma_wire_len();
    let v = lemma_gps_words(s);
    lemma_frame_words(idx, e, t0);
    let w = words(line_text(idx, e, t0));
    let n = w.len();
    let tail = w.subrange(n - 8, n as int);
    assert(tail == v);
    assert forall|i: int| 0 <= i < 8 implies v[i] == #[trigger] w[n - 8 + i] by {
        assert(tail[i] == w[n - 8 + i]);
    }
    assert(v[0] == w[n - 8 + 0] && v[1] == w[n - 8 + 1] && v[2] == w[n - 8 + 2]);
    assert(v[3] == w[n - 8 + 3] && v[4] == w[n - 8 + 4] && v[5] == w[n - 8 + 5]);
    assert(v[6] == w[n - 8 + 6] && v[7] == w[n - 8 + 7]);
}

// --- Lines that end in lists -----------------------------------------------------------

/// `line` is a text that ends in the words `w`, and then `tail`.
pub open spec fn ends_in(line: Seq<char>, w: Seq<Seq<char>>, tail: Seq<char>) -> bool {
    exists|head: Seq<char>| #[trigger] w.is_suffix_of(words(head)) && line == head + tail
}

proof fn lemma_line_ends(idx: nat, e: FdrEntry, t0: u64, text: Seq<char>, tail: Seq<char>)
    requires
        frame_text(e) == text + tail,
    ensures
        ends_in(line_text(idx, e, t0), words(text), tail),
{
    reveal_strlit("ms ");
    reveal_strlit("ms");
    let since = pad_left(
        fixed(Width::Double, ratio(at_least_zero(e.timestamp_ns - t0), 1_000_000), 3),
        10,
        ' ',
    );
    let start = "["@ + pad_left(decimal(idx), 6, ' ') + "] t=+"@ + since;
    let head = start + "ms"@;
    assert(line_head(idx, e.timestamp_ns, t0) =~= head + spaces(1));
    let whole = head + (spaces(1) + text);
    assert(line_text(idx, e, t0) =~= whole + tail);
    lemma_words_join(head, spaces(1) + text);
    lemma_words_of_spaces(1, text);
    let w = words(text);
    let all = words(whole);
    assert(all.subrange(all.len() - w.len(), all.len() as int) =~= w);
    assert(w.is_suffix_of(words(whole)));
}

/// The labels of a command's text.
proof fn lemma_control_labels()
    ensures
        "CONTROL   seq="@ == "CONTROL"@ + spaces(3) + "seq="@,
        " mode="@ == spaces(1) + "mode="@,
        " ai="@ == spaces(1) + "ai="@,
        "mode="@ + "AUTO"@ == "mode=AUTO"@,
        "mode="@ + "ASSIST"@ == "mode=ASSIST"@,
        "mode="@ + "TELEOP"@ == "mode=TELEOP"@,
        "mode="@ + "ESTOP"@ == "mode=ESTOP"@,
        "mode="@ + "?"@ == "mode=?"@,
        "ai="@ + "true"@ == "ai=true"@,
        "ai="@ + "false"@ == "ai=false"@,
        one_word("CONTROL"@),
        one_word("seq="@),
        one_word("mode=AUTO"@),
        one_word("mode=ASSIST"@),
        one_word("mode=TELEOP"@),
        one_word("mode=ESTOP"@),
        one_word("mode=?"@),
        one_word("ai=true"@),
        one_word("ai=false"@),
{
    reveal_strlit("CONTROL   seq=");
    reveal_strlit("CONTROL");
    reveal_strlit("seq=");
    reveal_strlit(" mode=");
    reveal_strlit("mode=");
    reveal_strlit(" ai=");
    reveal_strlit("ai=");
    reveal_strlit("AUTO");
    reveal_strlit("ASSIST");
    reveal_strlit("TELEOP");
    reveal_strlit("ESTOP");
    reveal_strlit("?");
    reveal_strlit("mode=AUTO");
    reveal_strlit("mode=ASSIST");
    reveal_strlit("mode=TELEOP");
    reveal_strlit("mode=ESTOP");
    reveal_strlit("mode=?");
    reveal_strlit("true");
    reveal_strlit("false");
    reveal_strlit("ai=true");
    reveal_strlit("ai=false");
}

/// The field of a line that names the mode with the given number.
pub open spec fn mode_field(number: u8) -> Seq<char> {
    if number == 0 {
        "mode=AUTO"@
    } else if number == 1 {
        "mode=ASSIST"@
    } else if number == 2 {
        "mode=TELEOP"@
    } else if number == 3 {
        "mode=ESTOP"@
    } else {
        "mode=?"@
    }
}

/// The line of a recorded command, a frame of the kind 0, gives its sequence
/// number, the name of its mode, whether the mark of autonomy is set in its flags,
/// and its six axes in order.
pub proof fn law_control_line(idx: nat, e: FdrEntry, t0: u64, c: ControlCommand, more: Seq<u8>)
    requires
        e.kind == 0,
        e.content() == c.wire() + more,
    ensures
        exists|pad: nat|
            ends_in(
                line_text(idx, e, t0),
                seq![
                    "CONTROL"@,
                    "seq="@ + decimal(c.seq as nat),
                    mode_field(c.mode),
                    if c.flags % 2 == 1 {
                        "ai=true"@
                    } else {
                        "ai=false"@
                    },
                ],
                #[trigger] spaces(pad) + " axes="@ + list_text(c.axes@),
            ),
{
    law_decoded_reads_back(c, more);
    c.lemma_wire_len();
    lemma_control_labels();
    let f = c.flags;
    assert(f & 1 == f % 2) by (bit_vector);
    let d = decimal(c.seq as nat);
    let mode = match mode_of(c.mode) {
        Some(m) => mode_name(m),
        None => "?"@,
    };
    let ai = bool_text(c.from_autonomy());
    let ai_word = if c.flags % 2 == 1 {
        "ai=true"@
    } else {
        "ai=false"@
    };
    assert("mode="@ + mode == mode_field(c.mode));
    assert("ai="@ + ai == ai_word);
    lemma_decimal_is_a_word(c.seq as nat);
    lemma_join_word("seq="@, d);
    let k1 = lemma_pad_right(d, 6);
    let k2 = lemma_pad_right(mode, 12);
    let k3 = lemma_pad_right(ai, 5);
    lemma_words_last("CONTROL"@);
    let t1 = "CONTROL   seq="@ + d;
    lemma_words_push("CONTROL"@, 3, "seq="@ + d);
    assert(t1 =~= "CONTROL"@ + spaces(3) + ("seq="@ + d));
    let g1 = "CONTROL   seq="@ + pad_right(d, 6);
    assert(g1 =~= t1 + spaces(k1));
    let t2 = g1 + " mode="@ + mode;
    lemma_field(t1, k1, "mode="@, mode);
    let g2 = g1 + " mode="@ + pad_right(mode, 12);
    assert(g2 =~= t2 + spaces(k2));
    let t3 = g2 + " ai="@ + ai;
    lemma_field(t2, k2, "ai="@, ai);
    let g3 = g2 + " ai="@ + pad_right(ai, 5);
    assert(g3 =~= t3 + spaces(k3));
    let tail = spaces(k3) + " axes="@ + list_text(c.axes@);
    assert(control_text(c) =~= t3 + tail);
    assert(words(t3) =~= seq!["CONTROL"@, "seq="@ + d, mode_field(c.mode), ai_word]);
    lemma_line_ends(idx, e, t0, t3, tail);
}

/// The labels of an inertial sample's text and of a telemetry packet's.
proof fn lemma_sample_labels()
    ensures
        "IMU       seq="@ == "IMU"@ + spaces(7) + "seq="@,
        "TELEMETRY seq="@ == "TELEMETRY"@ + spaces(1) + "seq="@,
        " kind="@ == spaces(1) + "kind="@,
        "kind="@ + "Generic"@ == "kind=Generic"@,
        "kind="@ + "Battery"@ == "kind=Battery"@,
        "kind="@ + "Pose"@ == "kind=Pose"@,
        "kind="@ + "Temperature"@ == "kind=Temperature"@,
        "kind="@ + "?"@ == "kind=?"@,
        one_word("IMU"@),
        one_word("TELEMETRY"@),
        one_word("seq="@),
        one_word("kind=Generic"@),
        one_word("kind=Battery"@),
        one_word("kind=Pose"@),
        one_word("kind=Temperature"@),
        one_word("kind=?"@),
{
    reveal_strlit("IMU       seq=");
    reveal_strlit("IMU");
    reveal_strlit("TELEMETRY seq=");
    reveal_strlit("TELEMETRY");
    reveal_strlit("seq=");
    reveal_strlit(" kind=");
    reveal_strlit("kind=");
    reveal_strlit("Generic");
    reveal_strlit("Battery");
    reveal_strlit("Pose");
    reveal_strlit("Temperature");
    reveal_strlit("?");
    reveal_strlit("kind=Generic");
    reveal_strlit("kind=Battery");
    reveal_strlit("kind=Pose");
    reveal_strlit("kind=Temperature");
    reveal_strlit("kind=?");
}

/// The line of a recorded inertial sample, a frame of the kind 1, gives its
/// sequence number, its three rates behind `gyro_rps=` and its three
/// accelerations behind `accel_g=`.
pub proof fn law_imu_line(idx: nat, e: FdrEntry, t0: u64, s: ImuSample, more: Seq<u8>)
    requires
        e.kind == 1,
        e.content() == s.wire() + more,
    ensures
        exists|pad: nat|
            ends_in(
                line_text(idx, e, t0),
                seq!["IMU"@, "seq="@ + decimal(s.seq as nat)],
                #[trigger] spaces(pad) + " gyro_rps="@ + list_text(s.gyro_rps@) + " accel_g="@
                    + list_text(s.accel_g@),
            ),
{
    law_decoded_reads_back(s, more);
    s.lemma_wire_len();
    lemma_sample_labels();
    let d = decimal(s.seq as nat);
    lemma_decimal_is_a_word(s.seq as nat);
    lemma_join_word("seq="@, d);
    let k = lemma_pad_right(d, 6);
    lemma_words_last("IMU"@);
    let t1 = "IMU       seq="@ + d;
    lemma_words_push("IMU"@, 7, "seq="@ + d);
    assert(t1 =~= "IMU"@ + spaces(7) + ("seq="@ + d));
    let tail = spaces(k) + " gyro_rps="@ + list_text(s.gyro_rps@) + " accel_g="@ + list_text(
        s.accel_g@,
    );
    assert(imu_text(s) =~= t1 + tail);
    assert(words(t1) =~= seq!["IMU"@, "seq="@ + d]);
    lemma_line_ends(idx, e, t0, t1, tail);
}

/// The field of a line that names the telemetry kind with the given number.
pub open spec fn kind_field(number: u16) -> Seq<char> {
    if number == 0 {
        "kind=Generic"@
    } else if number == 1 {
        "kind=Battery"@
    } else if number == 2 {
        "kind=Pose"@
    } else if number == 3 {
        "kind=Temperature"@
    } else {
        "kind=?"@
    }
}

/// The line of a recorded telemetry packet, a frame of the kind 3, gives its
/// sequence number, the name of its kind, and its eight values in order.
pub proof fn law_telemetry_line(idx: nat, e: FdrEntry, t0: u64, p: TelemetryPacket, more: Seq<u8>)
    requires
        e.kind == 3,
        e.content() == p.wire() + more,
    ensures
        exists|pad: nat|
            ends_in(
                line_text(idx, e, t0),
                seq!["TELEMETRY"@, "seq="@ + decimal(p.seq as nat), kind_field(p.kind)],
                #[trigger] spaces(pad) + " values="@ + list_text(p.values@),
            ),
{
    law_decoded_reads_back(p, more);
    p.lemma_wire_len();
    lemma_sample_labels();
    let d = decimal(p.seq as nat);
    let kind = match kind_of(p.kind) {
        Some(k) => kind_name(k),
        None => "?"@,
    };
    assert("kind="@ + kind == kind_field(p.kind));
    lemma_decimal_is_a_word(p.seq as nat);
    lemma_join_word("seq="@, d);
    let k1 = lemma_pad_right(d, 6);
    let k2 = lemma_pad_right(kind, 12);
    lemma_words_last("TELEMETRY"@);
    let t1 = "TELEMETRY seq="@ + d;
    lemma_words_push("TELEMETRY"@, 1, "seq="@ + d);
    assert(t1 =~= "TELEMETRY"@ + spaces(1) + ("seq="@ + d));
    let g1 = "TELEMETRY seq="@ + pad_right(d, 6);
    assert(g1 =~= t1 + spaces(k1));
    let t2 = g1 + " kind="@ + kind;
    lemma_field(t1, k1, "kind="@, kind);
    let g2 = g1 + " kind="@ + pad_right(kind, 12);
    assert(g2 =~= t2 + spaces(k2));
    let tail = spaces(k2) + " values="@ + list_text(p.values@);
    assert(telemetry_text(p) =~= t2 + tail);
    assert(words(t2) =~= seq!["TELEMETRY"@, "seq="@ + d, kind_field(p.kind)]);
    lemma_line_ends(idx, e, t0, t2, tail);
}

// --- Arguments ---------------------------------------------------------------------------

/// Arguments that were read already do not matter.
proof fn lemma_request_behind(args: Seq<Seq<char>>, i: int, more: Seq<Seq<char>>, r: Request)
    requires
        0 <= i <= args.len(),
    ensures
        request_from(more + args, more.len() + i, r) == request_from(args, i, r),
    decreases args.len() - i,
{
    let all = more + args;
    let at = more.len() + i;
    if i < args.len() {
        assert(all[at] == args[i]);
        lemma_request_behind(args, i + 1, more, Request { path: Some(args[i]), ..r });
        if i + 1 < args.len() {
            assert(all[at + 1] == args[i + 1]);
            let s = args[i + 1];
            if let Some(v) = speed_named(s) {
                lemma_request_behind(args, i + 2, more, Request { speed: Some(v), ..r });
            }
            if let Some(k) = kind_named(s) {
                lemma_request_behind(args, i + 2, more, Request { kind: Some(k), ..r });
            }
            if let Some(n) = unsigned_up_to(s, usize::MAX as nat) {
                lemma_request_behind(args, i + 2, more, Request { limit: Some(n as usize), ..r });
            }
        }
    }
}

proof fn lemma_replay_options()
    ensures
        "--speed"@ != "--kind"@ && "--speed"@ != "--limit"@ && "--kind"@ != "--limit"@,
        "control"@ != "imu"@ && "control"@ != "gps"@ && "control"@ != "telemetry"@,
        "imu"@ != "gps"@ && "imu"@ != "telemetry"@ && "gps"@ != "telemetry"@,
{
    reveal_strlit("--speed");
    reveal_strlit("--kind");
    reveal_strlit("--limit");
    reveal_strlit("control");
    reveal_strlit("imu");
    reveal_strlit("gps");
    reveal_strlit("telemetry");
    assert("--speed"@[2] == 's' && "--kind"@[2] == 'k' && "--limit"@[2] == 'l');
    assert("control"@.len() == 7 && "imu"@.len() == 3 && "gps"@.len() == 3 && "telemetry"@.len()
        == 9);
    assert("imu"@[0] == 'i' && "gps"@[0] == 'g');
}

/// `--speed`, `--kind` and `--limit` each set what they are named after, to the
/// value behind them, and nothing else. The first argument that is no option is
/// the recording. What follows is read as if it stood alone.
pub proof fn law_replay_options(value: Seq<char>, rest: Seq<Seq<char>>, r: Request)
    ensures
        speed_named(value) matches Some(v) ==> request_from(
            seq!["--speed"@, value] + rest,
            0,
            r,
        ) == request_from(rest, 0, Request { speed: Some(v), ..r }),
        kind_named(value) matches Some(k) ==> request_from(
            seq!["--kind"@, value] + rest,
            0,
            r,
        ) == request_from(rest, 0, Request { kind: Some(k), ..r }),
        unsigned_up_to(value, usize::MAX as nat) matches Some(n) ==> request_from(
            seq!["--limit"@, value] + rest,
            0,
            r,
        ) == request_from(rest, 0, Request { limit: Some(n as usize), ..r }),
        r.path is None && !"--"@.is_prefix_of(value) ==> request_from(
            seq![value] + rest,
            0,
            r,
        ) == request_from(rest, 0, Request { path: Some(value), ..r }),
        r.path is Some ==> request_from(Seq::empty(), 0, r) == Ok::<Request, Refusal>(r),
{
    lemma_replay_options();
    if let Some(v) = speed_named(value) {
        let head = seq!["--speed"@, value];
        assert((head + rest)[0] == "--speed"@ && (head + rest)[1] == value);
        lemma_request_behind(rest, 0, head, Request { speed: Some(v), ..r });
    }
    if let Some(k) = kind_named(value) {
        let head = seq!["--kind"@, value];
        assert((head + rest)[0] == "--kind"@ && (head + rest)[1] == value);
        lemma_request_behind(rest, 0, head, Request { kind: Some(k), ..r });
    }
    if let Some(n) = unsigned_up_to(value, usize::MAX as nat) {
        let head = seq!["--limit"@, value];
        assert((head + rest)[0] == "--limit"@ && (head + rest)[1] == value);
        lemma_request_behind(rest, 0, head, Request { limit: Some(n as usize), ..r });
    }
    if r.path is None && !"--"@.is_prefix_of(value) {
        let head = seq![value];
        assert((head + rest)[0] == value);
        lemma_request_behind(rest, 0, head, Request { path: Some(value), ..r });
        reveal_strlit("--");
        reveal_strlit("--speed");
        reveal_strlit("--kind");
        reveal_strlit("--limit");
        assert("--"@ =~= "--speed"@.subrange(0, 2));
        assert("--"@ =~= "--kind"@.subrange(0, 2));
        assert("--"@ =~= "--limit"@.subrange(0, 2));
    }
}

/// The kinds by their names, which show the frames with the numbers 0 to 3.
pub proof fn law_kinds_by_name(name: Seq<char>, e: FdrEntry)
    ensures
        name == "control"@ ==> (kind_named(name) is Some && (wanted(kind_named(name), e)
            <==> e.kind == 0)),
        name == "imu"@ ==> (kind_named(name) is Some && (wanted(kind_named(name), e) <==> e.kind
            == 1)),
        name == "gps"@ ==> (kind_named(name) is Some && (wanted(kind_named(name), e) <==> e.kind
            == 2)),
        name == "telemetry"@ ==> (kind_named(name) is Some && (wanted(kind_named(name), e)
            <==> e.kind == 3)),
        wanted(None, e),
{
    lemma_replay_options();
}

// --- The whole replay --------------------------------------------------------------------

/// The frames of a kind are counted one by one.
pub proof fn law_frames_are_counted(a: Seq<FdrEntry>, b: Seq<FdrEntry>, e: FdrEntry)
    ensures
        count_of(a + b, RecordKind::Control) == count_of(a, RecordKind::Control) + count_of(
            b,
            RecordKind::Control,
        ),
        count_of(a + b, RecordKind::Imu) == count_of(a, RecordKind::Imu) + count_of(
            b,
            RecordKind::Imu,
        ),
        count_of(a + b, RecordKind::Gps) == count_of(a, RecordKind::Gps) + count_of(
            b,
            RecordKind::Gps,
        ),
        count_of(a + b, RecordKind::Telemetry) == count_of(a, RecordKind::Telemetry) + count_of(
            b,
            RecordKind::Telemetry,
        ),
        count_of(seq![e], RecordKind::Control) == 1 <==> e.kind == 0,
        count_of(seq![e], RecordKind::Imu) == 1 <==> e.kind == 1,
        count_of(seq![e], RecordKind::Gps) == 1 <==> e.kind == 2,
        count_of(seq![e], RecordKind::Telemetry) == 1 <==> e.kind == 3,
    decreases b.len(),
{
    assert(seq![e].drop_last() =~= Seq::<FdrEntry>::empty());
    assert(seq![e].last() == e);
    let none = seq![e].drop_last();
    assert(count_of(none, RecordKind::Control) == 0 && count_of(none, RecordKind::Imu) == 0);
    assert(count_of(none, RecordKind::Gps) == 0 && count_of(none, RecordKind::Telemetry) == 0);
    if b.len() == 0 {
        assert(a + b =~= a);
    } else {
        law_frames_are_counted(a, b.drop_last(), e);
        assert((a + b).drop_last() =~= a + b.drop_last());
        assert((a + b).last() == b.last());
    }
}

proof fn lemma_summary_labels()
    ensures
        " control="@ == spaces(1) + "control="@,
        " imu="@ == spaces(1) + "imu="@,
        " gps="@ == spaces(1) + "gps="@,
        " telemetry="@ == spaces(1) + "telemetry="@,
        " span="@ == spaces(1) + "span="@,
        one_word("frames="@),
        one_word("control="@),
        one_word("imu="@),
        one_word("gps="@),
        one_word("telemetry="@),
        one_word("span="@),
        one_word("s"@),
{
    reveal_strlit("frames=");
    reveal_strlit(" control=");
    reveal_strlit("control=");
    reveal_strlit(" imu=");
    reveal_strlit("imu=");
    reveal_strlit(" gps=");
    reveal_strlit("gps=");
    reveal_strlit(" telemetry=");
    reveal_strlit("telemetry=");
    reveal_strlit(" span=");
    reveal_strlit("span=");
    reveal_strlit("s");
}

/// The summary gives the number of frames, how many of them are commands,
/// inertial samples, positions and telemetry packets, each behind its name, and
/// the seconds between the first and the last with three digits.
pub proof fn law_summary_counts(entries: Seq<FdrEntry>)
    requires
        entries.len() > 0,
    ensures
        ({
            let w = words(summary_text(entries));
            &&& w.len() == 6
            &&& w[0] == "frames="@ + decimal(entries.len())
            &&& w[1] == "control="@ + decimal(count_of(entries, RecordKind::Control))
            &&& w[2] == "imu="@ + decimal(count_of(entries, RecordKind::Imu))
            &&& w[3] == "gps="@ + decimal(count_of(entries, RecordKind::Gps))
            &&& w[4] == "telemetry="@ + decimal(count_of(entries, RecordKind::Telemetry))
            &&& shows(
                w[5],
                "span="@,
                "s"@,
                Width::Double,
                ratio(
                    at_least_zero(entries.last().timestamp_ns - entries[0].timestamp_ns),
                    1_000_000_000,
                ),
                3,
            )
        }),
{
    lemma_summary_labels();
    let n = entries.len();
    let c = count_of(entries, RecordKind::Control);
    let i = count_of(entries, RecordKind::Imu);
    let g = count_of(entries, RecordKind::Gps);
    let t = count_of(entries, RecordKind::Telemetry);
    let span = ratio(
        at_least_zero(entries.last().timestamp_ns - entries[0].timestamp_ns),
        1_000_000_000,
    );
    lemma_decimal_is_a_word(n);
    lemma_decimal_is_a_word(c);
    lemma_decimal_is_a_word(i);
    lemma_decimal_is_a_word(g);
    lemma_decimal_is_a_word(t);
    lemma_join_word("frames="@, decimal(n));
    lemma_join_word("control="@, decimal(c));
    lemma_join_word("imu="@, decimal(i));
    lemma_join_word("gps="@, decimal(g));
    lemma_join_word("telemetry="@, decimal(t));
    lemma_shown("span="@, "s"@, Width::Double, span, 3);
    let f = fixed(Width::Double, span, 3);
    let t0 = "frames="@ + decimal(n);
    lemma_words_last(t0);
    let t1 = t0 + " control="@ + decimal(c);
    lemma_words_push(t0, 1, "control="@ + decimal(c));
    assert(t1 =~= t0 + spaces(1) + ("control="@ + decimal(c)));
    let t2 = t1 + " imu="@ + decimal(i);
    lemma_words_push(t1, 1, "imu="@ + decimal(i));
    assert(t2 =~= t1 + spaces(1) + ("imu="@ + decimal(i)));
    let t3 = t2 + " gps="@ + decimal(g);
    lemma_words_push(t2, 1, "gps="@ + decimal(g));
    assert(t3 =~= t2 + spaces(1) + ("gps="@ + decimal(g)));
    let t4 = t3 + " telemetry="@ + decimal(t);
    lemma_words_push(t3, 1, "telemetry="@ + decimal(t));
    assert(t4 =~= t3 + spaces(1) + ("telemetry="@ + decimal(t)));
    let t5 = t4 + " span="@ + f + "s"@;
    lemma_words_push(t4, 1, "span="@ + f + "s"@);
    assert(t5 =~= t4 + spaces(1) + ("span="@ + f + "s"@));
}

// --- Times and pauses --------------------------------------------------------------------

/// The quotient of two integers that doubles hold exactly is the double nearest
/// to it.
proof fn lemma_ratio(n: nat, d: nat)
    requires
        n < 0x20_0000_0000_0000,
        0 < d < 0x20_0000_0000_0000,
    ensures
        rounds_to(Width::Double, n * pow2(1074), d * pow2(1074), ratio(n, d)),
{
    let w = Width::Double;
    law_small_integers_are_exact(w, n);
    law_small_integers_are_exact(w, d);
    lemma_nearest(w, n * pow2(1074), d * pow2(1074));
}

/// What stands behind the label of the time.
proof fn lemma_behind_time_label(idx: nat, e: FdrEntry, t0: u64)
    ensures
        after_text(line_text(idx, e, t0), "t=+"@) == Some(
            pad_left(
                fixed(Width::Double, ratio(at_least_zero(e.timestamp_ns - t0), 1_000_000), 3),
                10,
                ' ',
            ) + "ms "@ + frame_text(e),
        ),
{
    let time = pad_left(
        fixed(Width::Double, ratio(at_least_zero(e.timestamp_ns - t0), 1_000_000), 3),
        10,
        ' ',
    );
    let number = pad_left(decimal(idx), 6, ' ');
    let rest = time + "ms "@ + frame_text(e);
    let line = line_text(idx, e, t0);
    let front = "["@ + number + seq![']', ' '];
    let k = front.len() as int;
    assert(line =~= front + "t=+"@ + rest && k == 3 + number.len()) by {
        reveal_strlit("[");
        reveal_strlit("] t=+");
        reveal_strlit("t=+");
        assert("] t=+"@ =~= seq![']', ' '] + "t=+"@);
    }
    assert("["@[0] == '[' && "["@.len() == 1 && "t=+"@.len() == 3 && "t=+"@[0] == 't') by {
        reveal_strlit("[");
        reveal_strlit("t=+");
    }
    assert forall|j: int| 0 <= j < k implies !"t=+"@.is_prefix_of(#[trigger] line.skip(j)) by {
        lemma_decimal_digits(idx);
        let gap = number.len() - decimal(idx).len();
        assert(line[j] == front[j]);
        if 1 <= j < 1 + number.len() {
            assert(front[j] == number[j - 1]);
            if j - 1 >= gap {
                assert(number[j - 1] == decimal(idx)[j - 1 - gap]);
                assert(is_digit(decimal(idx)[j - 1 - gap]));
            }
        }
        if "t=+"@.is_prefix_of(line.skip(j)) {
            assert(line.skip(j).subrange(0, 3)[0] == line[j]);
        }
    }
    assert("t=+"@ =~= line.skip(k).subrange(0, 3));
    lemma_after_text_is(line, "t=+"@, k);
    assert(line.skip(k + 3) =~= rest);
}

/// The first word behind the label of the time is the time.
proof fn lemma_time_word(bits: nat, text: Seq<char>)
    ensures
        ({
            let f = fixed(Width::Double, bits, 3);
            let w = words(pad_left(f, 10, ' ') + "ms "@ + text);
            &&& w.len() > 0
            &&& w[0] == f + "ms"@
            &&& shows(f + "ms"@, ""@, "ms"@, Width::Double, bits, 3)
        }),
{
    assert("ms "@ == "ms"@ + spaces(1) && one_word("ms"@) && ""@ == Seq::<char>::empty()) by {
        reveal_strlit("ms ");
        reveal_strlit("ms");
        reveal_strlit("");
    }
    let f = fixed(Width::Double, bits, 3);
    law_fixed_is_accurate(Width::Double, bits, 3);
    lemma_fixed_is_a_word(Width::Double, bits, 3);
    lemma_join_word(f, "ms"@);
    assert(""@ + f + "ms"@ =~= f + "ms"@);
    let fill: nat = if f.len() < 10 {
        (10 - f.len()) as nat
    } else {
        0
    };
    let rest = pad_left(f, 10, ' ') + "ms "@ + text;
    let tail = spaces(1) + text;
    assert(pad_left(f, 10, ' ') =~= spaces(fill) + f);
    assert(rest =~= spaces(fill) + ((f + "ms"@) + tail));
    lemma_words_of_spaces(fill, (f + "ms"@) + tail);
    lemma_words_join(f + "ms"@, tail);
    lemma_words_last(f + "ms"@);
}

/// Behind `t=+` a line gives the time since the start in milliseconds: the double
/// nearest to a millionth of the nanoseconds, with three digits after the point.
pub proof fn law_line_time(idx: nat, e: FdrEntry, t0: u64)
    requires
        t0 <= e.timestamp_ns,
        e.timestamp_ns - t0 < 0x20_0000_0000_0000,
    ensures
        after_text(line_text(idx, e, t0), "t=+"@) matches Some(rest) && words(rest).len() > 0
            && exists|bits: nat| #[trigger]
            shows(words(rest)[0], ""@, "ms"@, Width::Double, bits, 3) && rounds_to(
                Width::Double,
                (e.timestamp_ns - t0) as nat * pow2(1074),
                1_000_000 * pow2(1074),
                bits,
            ),
{
    let since = (e.timestamp_ns - t0) as nat;
    let bits = ratio(since, 1_000_000);
    lemma_ratio(since, 1_000_000);
    let f = fixed(Width::Double, bits, 3);
    lemma_behind_time_label(idx, e, t0);
    lemma_time_word(bits, frame_text(e));
    assert(shows(f + "ms"@, ""@, "ms"@, Width::Double, bits, 3));
}

/// At the recorded pace, `0x3ff0_0000_0000_0000` or 1 in double precision, the pause
/// before a frame is the recorded one; nothing is waited for before the first
/// frame, after one that is no earlier, or where no pace is given.
pub proof fn law_pauses_keep_the_pace(prev: u64, timestamp_ns: u64, speed: Option<u64>)
    ensures
        prev < timestamp_ns && timestamp_ns - prev < 0x20_0000_0000_0000 ==> pause(
            Some(0x3ff0_0000_0000_0000),
            Some(prev),
            timestamp_ns,
        ) == seq![StepView::Sleep((timestamp_ns - prev) as u64)],
        prev >= timestamp_ns ==> pause(speed, Some(prev), timestamp_ns).len() == 0,
        pause(speed, None, timestamp_ns).len() == 0,
        pause(None, Some(prev), timestamp_ns).len() == 0,
{
    if prev < timestamp_ns && timestamp_ns - prev < 0x20_0000_0000_0000 {
        let w = Width::Double;
        let n = (timestamp_ns - prev) as nat;
        let one: nat = 0x3ff0_0000_0000_0000;
        let b = as_double(n);
        law_small_integers_are_exact(w, n);
        lemma2_to64();
        lemma2_to64_rest();
        lemma_pow2_adds(52, 1022);
        lemma_pow2_pos(1074);
        assert(one / 0x10_0000_0000_0000 == 1023 && one % 0x10_0000_0000_0000 == 0);
        assert(units(w, one) == pow2(1074));
        lemma_exact_rounds(w, units(w, b), units(w, one), b);
        assert(quotient(b, one) == b);
        assert(n * pow2(1074) == pow2(1074) * n) by (nonlinear_arith);
        lemma_div_multiples_vanish(n as int, pow2(1074) as int);
        assert(whole_part(w, b) == n);
        assert(double_as_u64(b as u64) == n);
    }
}

/// Without a kind, a limit or a pace, every frame is shown, one line each, numbered
/// from the first on.
pub proof fn law_every_frame_is_shown(
    entries: Seq<FdrEntry>,
    i: int,
    shown: nat,
    prev: Option<u64>,
    k: int,
)
    requires
        0 <= i <= entries.len(),
        0 <= k < entries.len() - i,
    ensures
        ({
            let (steps, n) = frame_steps(entries, i, None, None, None, shown, prev);
            &&& n == shown + entries.len() - i
            &&& steps.len() == entries.len() - i
            &&& steps[k] == StepView::Print(
                line_text((shown + k) as nat, entries[i + k], entries[0].timestamp_ns),
            )
        }),
    decreases entries.len() - i,
{
    let e = entries[i];
    let next = Some(e.timestamp_ns);
    let (rest, n) = frame_steps(entries, i + 1, None, None, None, shown + 1, next);
    let line = StepView::Print(line_text(shown, e, entries[0].timestamp_ns));
    let steps = frame_steps(entries, i, None, None, None, shown, prev).0;
    assert(pause(None, prev, e.timestamp_ns).len() == 0);
    assert(steps =~= seq![line] + rest);
    if i + 1 < entries.len() {
        law_every_frame_is_shown(entries, i + 1, shown + 1, next, if k > 0 {
            k - 1
        } else {
            0
        });
    }
}

/// Frames of other kinds are passed over: what is shown is what would be shown if
/// they were not there, but for the start of the time.
pub proof fn law_other_kinds_are_passed_over(
    entries: Seq<FdrEntry>,
    i: int,
    speed: Option<u64>,
    kind: Option<RecordKind>,
    limit: Option<usize>,
    shown: nat,
    prev: Option<u64>,
)
    requires
        0 <= i < entries.len(),
    ensures
        !wanted(kind, entries[i]) ==> frame_steps(entries, i, speed, kind, limit, shown, prev)
            == frame_steps(entries, i + 1, speed, kind, limit, shown, prev),
        wanted(kind, entries[i]) && (limit matches Some(max) ==> shown < max) ==> frame_steps(
            entries,
            i,
            speed,
            kind,
            limit,
            shown,
            prev,
        ).1 >= shown + 1,
        limit matches Some(max) && shown >= max ==> frame_steps(
            entries,
            i,
            speed,
            kind,
            limit,
            shown,
            prev,
        ) == (Seq::<StepView>::empty(), shown),
{
    lemma_shown_grows(entries, i + 1, speed, kind, limit, shown + 1, Some(entries[i].timestamp_ns));
    lemma_shown_is_full(entries, i, speed, kind, limit, shown, prev);
}

proof fn lemma_shown_grows(
    entries: Seq<FdrEntry>,
    i: int,
    speed: Option<u64>,
    kind: Option<RecordKind>,
    limit: Option<usize>,
    shown: nat,
    prev: Option<u64>,
)
    requires
        0 <= i <= entries.len(),
    ensures
        frame_steps(entries, i, speed, kind, limit, shown, prev).1 >= shown,
    decreases entries.len() - i,
{
    if i < entries.len() {
        lemma_shown_grows(entries, i + 1, speed, kind, limit, shown, prev);
        let next = Some(entries[i].timestamp_ns);
        lemma_shown_grows(entries, i + 1, speed, kind, limit, shown + 1, next);
    }
}

proof fn lemma_shown_is_full(
    entries: Seq<FdrEntry>,
    i: int,
    speed: Option<u64>,
    kind: Option<RecordKind>,
    limit: Option<usize>,
    shown: nat,
    prev: Option<u64>,
)
    requires
        0 <= i <= entries.len(),
    ensures
        limit matches Some(max) && shown >= max ==> frame_steps(
            entries,
            i,
            speed,
            kind,
            limit,
            shown,
            prev,
        ) == (Seq::<StepView>::empty(), shown),
    decreases entries.len() - i,
{
    if i < entries.len() {
        lemma_shown_is_full(entries, i + 1, speed, kind, limit, shown, prev);
    }
}

/// How many of the steps print a line.
pub open spec fn lines_in(steps: Seq<StepView>) -> nat
    decreases steps.len(),
{
    if steps.len() == 0 {
        0
    } else {
        lines_in(steps.drop_last()) + if steps.last() is Print {
            1nat
        } else {
            0nat
        }
    }
}

proof fn lemma_lines_join(a: Seq<StepView>, b: Seq<StepView>)
    ensures
        lines_in(a + b) == lines_in(a) + lines_in(b),
    decreases b.len(),
{
    if b.len() == 0 {
        assert(a + b =~= a);
    } else {
        lemma_lines_join(a, b.drop_last());
        assert((a + b).drop_last() =~= a + b.drop_last());
        assert((a + b).last() == b.last());
    }
}

proof fn lemma_one_line(s: StepView)
    ensures
        lines_in(seq![s]) == (if s is Print {
            1nat
        } else {
            0nat
        }),
{
    assert(seq![s].drop_last() =~= Seq::<StepView>::empty());
    assert(seq![s].last() == s);
    assert(lines_in(seq![s].drop_last()) == 0);
}

/// Every frame that counts as shown has its line.
proof fn lemma_shown_have_lines(
    entries: Seq<FdrEntry>,
    i: int,
    speed: Option<u64>,
    kind: Option<RecordKind>,
    limit: Option<usize>,
    shown: nat,
    prev: Option<u64>,
)
    requires
        0 <= i <= entries.len(),
    ensures
        ({
            let (steps, n) = frame_steps(entries, i, speed, kind, limit, shown, prev);
            n == shown + lines_in(steps)
        }),
    decreases entries.len() - i,
{
    if i < entries.len() {
        let e = entries[i];
        lemma_shown_have_lines(entries, i + 1, speed, kind, limit, shown, prev);
        let next = Some(e.timestamp_ns);
        lemma_shown_have_lines(entries, i + 1, speed, kind, limit, shown + 1, next);
        let rest = frame_steps(entries, i + 1, speed, kind, limit, shown + 1, next).0;
        let wait = pause(speed, prev, e.timestamp_ns);
        let line = StepView::Print(line_text(shown, e, entries[0].timestamp_ns));
        if wait.len() > 0 {
            lemma_one_line(wait[0]);
            assert(wait =~= seq![wait[0]]);
        }
        assert(lines_in(wait) == 0);
        lemma_one_line(line);
        lemma_lines_join(wait, seq![line]);
        lemma_lines_join(wait + seq![line], rest);
    }
}

/// A replay opens with the recording's name, the summary and a rule, and closes
/// with how many frames it showed, which is how many lines it printed in between.
pub proof fn law_replay_counts_its_lines(
    path: Seq<char>,
    speed: Option<u64>,
    kind: Option<RecordKind>,
    limit: Option<usize>,
    entries: Seq<FdrEntry>,
)
    requires
        entries.len() > 0,
    ensures
        ({
            let steps = replay_steps(path, speed, kind, limit, entries);
            let n = lines_in(steps) - 4;
            &&& steps.len() >= 4
            &&& steps[0] == StepView::Print("== "@ + path + " =="@)
            &&& steps[1] == StepView::Print(summary_text(entries))
            &&& steps[2] == StepView::Print("---"@)
            &&& n >= 0
            &&& steps.last() == StepView::Print(
                "-- "@ + decimal(n as nat) + " frame(s) shown --"@,
            )
        }),
{
    lemma_shown_have_lines(entries, 0, speed, kind, limit, 0, None);
    let (frames, shown) = frame_steps(entries, 0, speed, kind, limit, 0, None);
    let a = StepView::Print("== "@ + path + " =="@);
    let b = StepView::Print(summary_text(entries));
    let c = StepView::Print("---"@);
    let d = StepView::Print("-- "@ + decimal(shown) + " frame(s) shown --"@);
    lemma_one_line(a);
    lemma_one_line(b);
    lemma_one_line(c);
    lemma_one_line(d);
    lemma_lines_join(seq![a], seq![b]);
    lemma_lines_join(seq![a] + seq![b], seq![c]);
    let head = seq![a, b, c];
    assert(head =~= seq![a] + seq![b] + seq![c]);
    lemma_lines_join(head, frames);
    lemma_lines_join(head + frames, seq![d]);
    let steps = replay_steps(path, speed, kind, limit, entries);
    assert(steps == head + frames + seq![d]);
    assert(steps.last() == d);
}

/// A pace is a positive number, infinity among them: what is zero, negative or no
/// number is refused.
pub proof fn law_pace_is_positive(s: Seq<char>)
    ensures
        speed_named(s) matches Some(v) ==> 0 < v <= Width::Double.infinity() && read_value(
            Width::Double,
            s,
        ) == Some(v as nat),
        read_value(Width::Double, s) matches Some(b) ==> (speed_named(s) is None <==> b == 0 || b
            > Width::Double.infinity()),
        read_value(Width::Double, s) is None ==> speed_named(s) is None,
{
}

} // verus!
