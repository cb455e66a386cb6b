//! What the examples say of the logged values.
use vstd::prelude::*;
use vstd::arithmetic::power2::{lemma2_to64, lemma_pow2_adds, pow2};
use crate::analytics::export::{example_in, example_of, examples, widened, widest, Example};
use crate::analytics::record::{FdrEntry, RecordKind};
use crate::num::binary::{lemma_nearest, rounds_to, units, Width};
use crate::num::convert::{narrowed, single_of};
use crate::num::decimal::lemma_exact_rounds;
use crate::runtime::wire::{
    law_decoded_reads_back, ControlCommand, GpsSample, ImuSample, PlainBytes, TelemetryPacket,
};

verus! {

/// The single-precision number with the pattern `b` is the one nearest to the
/// integer `n`.
pub open spec fn is_nearest_single(n: nat, b: u32) -> bool {
    rounds_to(Width::Single, n, 1, b as nat)
}

proof fn lemma_single(n: nat)
    ensures
        is_nearest_single(n, single_of(n)),
{
    lemma_nearest(Width::Single, n, 1);
}

/// The pattern of the single-precision 1 is `0x3f80_0000`, and that of 0 is 0.
proof fn lemma_single_flags()
    ensures
        single_of(1) == 0x3f80_0000,
        single_of(0) == 0,
{
    let b: nat = 0x3f80_0000;
    lemma2_to64();
    lemma_pow2_adds(23, 126);
    assert(b / 0x80_0000 == 127 && b % 0x80_0000 == 0);
    assert(units(Width::Single, b) == pow2(149));
    assert(1 * pow2(149) == pow2(149) * 1);
    lemma_exact_rounds(Width::Single, 1, 1, b);
    assert(0 * pow2(149) == 0) by (nonlinear_arith);
    lemma_exact_rounds(Width::Single, 0, 1, 0);
}

/// The example of a logged command: the number of its mode, then 1 exactly if the
/// lowest bit of its flags, the mark of autonomy, is set and 0 otherwise, then
/// its six axes as they are; labelled with the number of its mode.
pub proof fn law_command_features(c: ControlCommand, more: Seq<u8>)
    ensures
        example_in(RecordKind::Control, c.wire() + more) matches Some(x) && {
            &&& x.features.len() == 8
            &&& is_nearest_single(c.mode as nat, x.features[0])
            &&& x.features[1] == 0x3f80_0000 <==> c.flags % 2 == 1
            &&& x.features[1] == 0 <==> c.flags % 2 == 0
            &&& forall|k: int| 0 <= k < 6 ==> #[trigger] c.axes@[k] == x.features[2 + k]
            &&& x.label == x.features[0]
        },
{
    law_decoded_reads_back(c, more);
    c.lemma_wire_len();
    lemma_single(c.mode as nat);
    lemma_single_flags();
    let f = c.flags;
    assert(f & 1 == f % 2) by (bit_vector);
    let x = example_in(RecordKind::Control, c.wire() + more)->0;
    assert forall|k: int| 0 <= k < 6 implies #[trigger] c.axes@[k] == x.features[2 + k] by {}
}

/// The example of a logged inertial sample: its three rates, then its three
/// accelerations, as they are; labelled 0.
pub proof fn law_imu_features(s: ImuSample, more: Seq<u8>)
    ensures
        example_in(RecordKind::Imu, s.wire() + more) matches Some(x) && {
            &&& x.features.len() == 6
            &&& forall|k: int| 0 <= k < 3 ==> #[trigger] s.gyro_rps@[k] == x.features[k]
            &&& forall|k: int| 0 <= k < 3 ==> #[trigger] s.accel_g@[k] == x.features[3 + k]
            &&& x.label == 0
        },
{
    law_decoded_reads_back(s, more);
    s.lemma_wire_len();
    let x = example_in(RecordKind::Imu, s.wire() + more)->0;
    assert forall|k: int| 0 <= k < 3 implies #[trigger] s.accel_g@[k] == x.features[3 + k] by {}
}

/// The example of a logged position: latitude, longitude and altitude in single
/// precision, speed and course as they are, then the number of satellites and
/// the fix flag; labelled with the fix flag.
pub proof fn law_gps_features(s: GpsSample, more: Seq<u8>)
    ensures
        example_in(RecordKind::Gps, s.wire() + more) matches Some(x) && {
            &&& x.features.len() == 7
            &&& x.features[0] == narrowed(s.lat_deg)
            &&& x.features[1] == narrowed(s.lon_deg)
            &&& x.features[2] == narrowed(s.alt_m)
            &&& x.features[3] == s.speed_mps
            &&& x.features[4] == s.course_deg
            &&& is_nearest_single(s.sats as nat, x.features[5])
            &&& is_nearest_single(s.fix_ok as nat, x.features[6])
            &&& x.label == x.features[6]
        },
{
    law_decoded_reads_back(s, more);
    s.lemma_wire_len();
    lemma_single(s.sats as nat);
    lemma_single(s.fix_ok as nat);
}

/// The example of a logged telemetry packet: its eight values as they are;
/// labelled with the number of its kind.
pub proof fn law_telemetry_features(s: TelemetryPacket, more: Seq<u8>)
    ensures
        example_in(RecordKind::Telemetry, s.wire() + more) matches Some(x) && {
            &&& x.features == s.values@
            &&& x.features.len() == 8
            &&& is_nearest_single(s.kind as nat, x.label)
        },
{
    law_decoded_reads_back(s, more);
    s.lemma_wire_len();
    lemma_single(s.kind as nat);
}

/// A payload that is too short for its kind gives no example, and neither does
/// the end mark.
pub proof fn law_short_payloads_give_nothing(kind: RecordKind, payload: Seq<u8>)
    ensures
        example_in(kind, payload) is None <==> kind is End || payload.len() < (match kind {
            RecordKind::Control => 48int,
            RecordKind::Imu => 48,
            RecordKind::Gps => 64,
            RecordKind::Telemetry => 56,
            RecordKind::End => 0,
        }),
{
}

/// The examples of frames come in the order of the frames, none is lost and none
/// is added: those of two logs in a row are those of the first, then those of
/// the second, and one frame gives its own or nothing.
pub proof fn law_examples_keep_order(a: Seq<FdrEntry>, b: Seq<FdrEntry>, e: FdrEntry)
    ensures
        examples(a + b) == examples(a) + examples(b),
        examples(seq![e]) == (match example_of(e) {
            Some(x) => seq![x],
            None => Seq::empty(),
        }),
    decreases b.len(),
{
    assert(seq![e].drop_last() =~= Seq::<FdrEntry>::empty());
    assert(examples(seq![e].drop_last()) =~= Seq::<Example>::empty());
    assert(seq![e].last() == e);
    if let Some(x) = example_of(e) {
        assert(examples(seq![e]) =~= seq![x]);
    }
    if b.len() == 0 {
        assert(a + b =~= a);
        assert(examples(a) + examples(b) =~= examples(a));
    } else {
        law_examples_keep_order(a, b.drop_last(), e);
        assert((a + b).drop_last() =~= a + b.drop_last());
        assert((a + b).last() == b.last());
        assert(examples(a + b) =~= examples(a) + examples(b));
    }
}

/// The width of a dataset is the number of features of one of its examples, and
/// no example has more; padding to it keeps the features and adds zeros.
pub proof fn law_padding_keeps_features(xs: Seq<Example>, i: int)
    requires
        0 <= i < xs.len(),
    ensures
        xs[i].features.len() <= widest(xs),
        exists|j: int| 0 <= j < xs.len() && (#[trigger] xs[j]).features.len() == widest(xs),
        widened(xs[i].features, widest(xs)).len() == widest(xs),
        forall|k: int|
            0 <= k < widest(xs) ==> #[trigger] widened(xs[i].features, widest(xs))[k] == (if k
                < xs[i].features.len() {
                xs[i].features[k]
            } else {
                0
            }),
    decreases xs.len(),
{
    let rest = xs.drop_last();
    if rest.len() > 0 {
        if i < rest.len() {
            law_padding_keeps_features(rest, i);
        } else {
            law_padding_keeps_features(rest, 0);
        }
        let j = choose|j: int| 0 <= j < rest.len() && (#[trigger] rest[j]).features.len() == widest(
            rest,
        );
        assert(xs[j].features.len() == widest(rest));
    } else {
        assert(widest(rest) == 0);
        assert(xs[0] == xs.last());
    }
    if widest(xs) == xs.last().features.len() {
        assert(xs[xs.len() - 1].features.len() == widest(xs));
    }
}

} // verus!
