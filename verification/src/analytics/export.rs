//! Training-data export: logged wire bytes become feature and label tensors in
//! NumPy `.npy`, which both PyTorch and JAX load.
//!
//! Numbers are single precision and held as bit patterns.
use vstd::prelude::*;
use crate::analytics::npy::{f32_npy, npy_bytes};
use crate::analytics::record::{record_kind, FdrEntry, RecordKind, MAX_PAYLOAD};
use crate::num::convert::{narrow, narrowed, single_of, single_of_u64};
use crate::runtime::wire::{
    decoded, from_bytes_aligned, words, ControlCommand, GpsSample, ImuSample, PlainBytes,
    TelemetryPacket, FLAG_AI_ORIGIN,
};

verus! {

/// One training example: a feature vector and its scalar label.
#[derive(Debug, Clone, PartialEq)]
pub struct Sample {
    /// Input features.
    pub features: Vec<u32>,
    /// Supervised label.
    pub label: u32,
}

/// What a [`Sample`] holds.
#[verifier::ext_equal]
pub ghost struct Example {
    pub features: Seq<u32>,
    pub label: u32,
}

impl View for Sample {
    type V = Example;

    open spec fn view(&self) -> Example {
        Example { features: self.features@, label: self.label }
    }
}

/// A stacked dataset ready to export.
#[derive(Debug, Clone)]
pub struct AiDataset {
    /// Number of features per sample (all samples are padded to this).
    pub feature_dim: usize,
    /// Samples.
    pub samples: Vec<Sample>,
}

/// The example in a logged payload. Of a command: its mode, whether autonomy
/// issued it, and its axes, labelled with the mode. Of an inertial sample: its
/// rates and accelerations, labelled 0. Of a position: its coordinates, speed,
/// course, satellites and fix flag, labelled with the flag. Of telemetry: its
/// values, labelled with its kind.
pub open spec fn example_in(kind: RecordKind, payload: Seq<u8>) -> Option<Example> {
    match kind {
        RecordKind::Control => if payload.len() < 48 {
            None
        } else {
            let c = decoded::<ControlCommand>(payload);
            let ai: nat = if c.flags & FLAG_AI_ORIGIN != 0 {
                1
            } else {
                0
            };
            Some(
                Example {
                    features: seq![single_of(c.mode as nat), single_of(ai)] + c.axes@,
                    label: single_of(c.mode as nat),
                },
            )
        },
        RecordKind::Imu => if payload.len() < 48 {
            None
        } else {
            let s = decoded::<ImuSample>(payload);
            Some(Example { features: s.gyro_rps@ + s.accel_g@, label: 0 })
        },
        RecordKind::Gps => if payload.len() < 64 {
            None
        } else {
            let s = decoded::<GpsSample>(payload);
            Some(
                Example {
                    features: seq![
                        narrowed(s.lat_deg),
                        narrowed(s.lon_deg),
                        narrowed(s.alt_m),
                        s.speed_mps,
                        s.course_deg,
                        single_of(s.sats as nat),
                        single_of(s.fix_ok as nat),
                    ],
                    label: single_of(s.fix_ok as nat),
                },
            )
        },
        RecordKind::Telemetry => if payload.len() < 56 {
            None
        } else {
            let s = decoded::<TelemetryPacket>(payload);
            Some(Example { features: s.values@, label: single_of(s.kind as nat) })
        },
        RecordKind::End => None,
    }
}

/// Extracts a [`Sample`] from a logged payload, or `None` if the payload is
/// too short for its kind or the kind carries none.
pub fn extract_features(kind: RecordKind, payload: &[u8]) -> (r: Option<Sample>)
    ensures
        match r {
            Some(s) => example_in(kind, payload@) == Some(s@),
            None => example_in(kind, payload@) is None,
        },
{
    match kind {
        RecordKind::Control => {
            let c: ControlCommand = match from_bytes_aligned::<ControlCommand>(payload) {
                Some(c) => c,
                None => {
                    return None;
                },
            };
            let mode: u32 = single_of_u64(c.mode as u64);
            let ai: u64 = if c.flags & FLAG_AI_ORIGIN != 0 {
                1
            } else {
                0
            };
            let mut f: Vec<u32> = Vec::new();
            f.push(mode);
            f.push(single_of_u64(ai));
            push_all(&mut f, c.axes.as_slice());
            let s: Sample = Sample { features: f, label: mode };
            assert(s@ =~= example_in(kind, payload@)->0);
            Some(s)
        },
        RecordKind::Imu => {
            let i: ImuSample = match from_bytes_aligned::<ImuSample>(payload) {
                Some(i) => i,
                None => {
                    return None;
                },
            };
            let mut f: Vec<u32> = Vec::new();
            push_all(&mut f, i.gyro_rps.as_slice());
            push_all(&mut f, i.accel_g.as_slice());
            let s: Sample = Sample { features: f, label: 0 };
            assert(s@ =~= example_in(kind, payload@)->0);
            Some(s)
        },
        RecordKind::Gps => {
            let g: GpsSample = match from_bytes_aligned::<GpsSample>(payload) {
                Some(g) => g,
                None => {
                    return None;
                },
            };
            let fix: u32 = single_of_u64(g.fix_ok as u64);
            let mut f: Vec<u32> = Vec::new();
            f.push(narrow(g.lat_deg));
            f.push(narrow(g.lon_deg));
            f.push(narrow(g.alt_m));
            f.push(g.speed_mps);
            f.push(g.course_deg);
            f.push(single_of_u64(g.sats as u64));
            f.push(fix);
            let s: Sample = Sample { features: f, label: fix };
            assert(s@ =~= example_in(kind, payload@)->0);
            Some(s)
        },
        RecordKind::Telemetry => {
            let t: TelemetryPacket = match from_bytes_aligned::<TelemetryPacket>(payload) {
                Some(t) => t,
                None => {
                    return None;
                },
            };
            let mut f: Vec<u32> = Vec::new();
            push_all(&mut f, t.values.as_slice());
            let s: Sample = Sample { features: f, label: single_of_u64(t.kind as u64) };
            assert(s@ =~= example_in(kind, payload@)->0);
            Some(s)
        },
        RecordKind::End => None,
    }
}

fn push_all(out: &mut Vec<u32>, part: &[u32])
    ensures
        final(out)@ == old(out)@ + part@,
{
    let mut tail: Vec<u32> = vstd::slice::slice_to_vec(part);
    out.append(&mut tail);
}

/// The example of a frame.
pub open spec fn example_of(e: FdrEntry) -> Option<Example> {
    match record_kind(e.kind) {
        Some(kind) => example_in(kind, e.content()),
        None => None,
    }
}

/// The examples of several frames, in order. Frames without one are skipped.
pub open spec fn examples(entries: Seq<FdrEntry>) -> Seq<Example>
    decreases entries.len(),
{
    if entries.len() == 0 {
        Seq::empty()
    } else {
        match example_of(entries.last()) {
            Some(x) => examples(entries.drop_last()).push(x),
            None => examples(entries.drop_last()),
        }
    }
}

/// The largest number of features of an example.
pub open spec fn widest(xs: Seq<Example>) -> nat
    decreases xs.len(),
{
    if xs.len() == 0 {
        0
    } else if xs.last().features.len() > widest(xs.drop_last()) {
        xs.last().features.len()
    } else {
        widest(xs.drop_last())
    }
}

/// `f` with zeros up to the length `dim`.
pub open spec fn widened(f: Seq<u32>, dim: nat) -> Seq<u32> {
    f + Seq::new((dim - f.len()) as nat, |i: int| 0u32)
}

proof fn lemma_widest(xs: Seq<Example>, i: int)
    requires
        0 <= i < xs.len(),
    ensures
        xs[i].features.len() <= widest(xs),
    decreases xs.len(),
{
    if i < xs.len() - 1 {
        lemma_widest(xs.drop_last(), i);
    }
}

/// The features of several samples, one after the other.
pub open spec fn rows(samples: Seq<Sample>) -> Seq<u32>
    decreases samples.len(),
{
    if samples.len() == 0 {
        Seq::empty()
    } else {
        rows(samples.drop_last()) + samples.last().features@
    }
}

/// The labels of several samples.
pub open spec fn labels(samples: Seq<Sample>) -> Seq<u32> {
    samples.map_values(|s: Sample| s.label)
}

impl AiDataset {
    /// Every sample has `feature_dim` features.
    pub open spec fn is_stacked(&self) -> bool {
        forall|i: int|
            0 <= i < self.samples@.len() ==> (#[trigger] self.samples@[i]).features@.len()
                == self.feature_dim
    }

    /// Builds a dataset from recorder frames, padding every feature vector to
    /// the maximum observed dimension.
    pub fn from_entries(entries: &[FdrEntry]) -> (r: AiDataset)
        requires
            forall|i: int|
                0 <= i < entries@.len() && record_kind((#[trigger] entries@[i]).kind) is Some
                    ==> entries@[i].payload_len <= MAX_PAYLOAD,
        ensures
            r.feature_dim == widest(examples(entries@)),
            r.samples@.len() == examples(entries@).len(),
            forall|i: int|
                0 <= i < r.samples@.len() ==> {
                    let x = examples(entries@)[i];
                    &&& (#[trigger] r.samples@[i]).features@ == widened(
                        x.features,
                        r.feature_dim as nat,
                    )
                    &&& r.samples@[i].label == x.label
                },
            r.is_stacked(),
    {
        let mut samples: Vec<Sample> = Vec::new();
        let mut dim: usize = 0;
        let mut i: usize = 0;
        proof {
            assert(entries@.take(0) =~= Seq::<FdrEntry>::empty());
        }
        while i < entries.len()
            invariant
                i <= entries@.len(),
                forall|j: int|
                    0 <= j < entries@.len() && record_kind((#[trigger] entries@[j]).kind) is Some
                        ==> entries@[j].payload_len <= MAX_PAYLOAD,
                samples@.len() == examples(entries@.take(i as int)).len(),
                forall|j: int|
                    0 <= j < samples@.len() ==> (#[trigger] samples@[j])@ == examples(
                        entries@.take(i as int),
                    )[j],
                dim == widest(examples(entries@.take(i as int))),
            decreases entries@.len() - i,
        {
            let e: FdrEntry = entries[i];
            let ghost old_take = entries@.take(i as int);
            proof {
                assert(entries@.take(i + 1).drop_last() =~= old_take);
                assert(entries@.take(i + 1).last() == e);
            }
            if let Some(kind) = e.kind() {
                if let Some(s) = extract_features(kind, e.payload()) {
                    let ghost next = examples(entries@.take(i + 1));
                    assert(next == examples(old_take).push(s@));
                    assert(next.drop_last() =~= examples(old_take));
                    if s.features.len() > dim {
                        dim = s.features.len();
                    }
                    samples.push(s);
                }
            }
            i = i + 1;
        }
        proof {
            assert(entries@.take(i as int) =~= entries@);
        }
        let ghost xs = examples(entries@);
        let ghost raw = samples@;
        let mut out: Vec<Sample> = Vec::new();
        let mut k: usize = 0;
        while k < samples.len()
            invariant
                k <= samples@.len(),
                samples@.len() == xs.len(),
                raw.len() == xs.len(),
                dim == widest(xs),
                out@.len() == k,
                forall|j: int| 0 <= j < raw.len() ==> (#[trigger] raw[j])@ == xs[j],
                forall|j: int| k <= j < raw.len() ==> samples@[j] == #[trigger] raw[j],
                forall|j: int|
                    0 <= j < k ==> {
                        &&& (#[trigger] out@[j]).features@ == widened(xs[j].features, dim as nat)
                        &&& out@[j].label == xs[j].label
                    },
            decreases samples@.len() - k,
        {
            let mut s: Sample = Sample { features: Vec::new(), label: 0 };
            std::mem::swap(&mut s, &mut samples[k]);
            assert(s == raw[k as int]);
            proof {
                lemma_widest(xs, k as int);
            }
            let ghost f = s.features@;
            assert(f == xs[k as int].features);
            let mut wide: Vec<u32> = s.features;
            assert(wide@ =~= f + Seq::new((wide@.len() - f.len()) as nat, |i: int| 0u32));
            while wide.len() < dim
                invariant
                    f.len() <= wide@.len() <= dim,
                    wide@ == f + Seq::new((wide@.len() - f.len()) as nat, |i: int| 0u32),
                decreases dim - wide@.len(),
            {
                wide.push(0);
                assert(wide@ =~= f + Seq::new((wide@.len() - f.len()) as nat, |i: int| 0u32));
            }
            out.push(Sample { features: wide, label: s.label });
            k = k + 1;
        }
        assert forall|j: int| 0 <= j < out@.len() implies (#[trigger] out@[j]).features@.len()
            == dim by {
            lemma_widest(xs, j);
        }
        AiDataset { feature_dim: dim, samples: out }
    }

    /// Number of samples.
    pub fn num_samples(&self) -> (r: usize)
        ensures
            r == self.samples@.len(),
    {
        self.samples.len()
    }

    /// Row-major feature matrix.
    pub fn features_matrix(&self) -> (r: Vec<u32>)
        ensures
            r@ == rows(self.samples@),
    {
        let mut m: Vec<u32> = Vec::new();
        let mut i: usize = 0;
        proof {
            assert(self.samples@.take(0) =~= Seq::<Sample>::empty());
        }
        while i < self.samples.len()
            invariant
                i <= self.samples@.len(),
                m@ == rows(self.samples@.take(i as int)),
            decreases self.samples@.len() - i,
        {
            push_all(&mut m, self.samples[i].features.as_slice());
            assert(self.samples@.take(i + 1).drop_last() =~= self.samples@.take(i as int));
            i = i + 1;
        }
        proof {
            assert(self.samples@.take(i as int) =~= self.samples@);
        }
        m
    }

    /// Label vector.
    pub fn labels_vec(&self) -> (r: Vec<u32>)
        ensures
            r@ == labels(self.samples@),
    {
        let mut out: Vec<u32> = Vec::new();
        let mut i: usize = 0;
        while i < self.samples.len()
            invariant
                i <= self.samples@.len(),
                out@.len() == i,
                forall|j: int| 0 <= j < i ==> out@[j] == self.samples@[j].label,
            decreases self.samples@.len() - i,
        {
            out.push(self.samples[i].label);
            i = i + 1;
        }
        assert(out@ =~= labels(self.samples@));
        out
    }

    /// The contents of `features.npy` (`[n, feature_dim]`, `<f4`) and of
    /// `labels.npy` (`[n]`, `<f4`).
    pub fn npy_pair(&self) -> (r: (Vec<u8>, Vec<u8>))
        ensures
            r.0@ == npy_bytes(
                "<f4"@,
                seq![self.samples@.len() as usize, self.feature_dim],
                words(rows(self.samples@)),
            ),
            r.1@ == npy_bytes(
                "<f4"@,
                seq![self.samples@.len() as usize],
                words(labels(self.samples@)),
            ),
    {
        let n: usize = self.num_samples();
        let shape: [usize; 2] = [n, self.feature_dim];
        let matrix: Vec<u32> = self.features_matrix();
        let features: Vec<u8> = f32_npy(shape.as_slice(), matrix.as_slice());
        let column: [usize; 1] = [n];
        let all: Vec<u32> = self.labels_vec();
        let labelled: Vec<u8> = f32_npy(column.as_slice(), all.as_slice());
        assert(shape@ =~= seq![n, self.feature_dim]);
        assert(column@ =~= seq![n]);
        (features, labelled)
    }
}

/// A stacked dataset is a full matrix: `feature_dim` numbers for every sample,
/// and those of sample `i` stand in row `i`.
pub proof fn law_matrix_is_full(ds: AiDataset, i: int)
    requires
        ds.is_stacked(),
        0 <= i < ds.samples@.len(),
    ensures
        rows(ds.samples@).len() == ds.samples@.len() * ds.feature_dim,
        rows(ds.samples@).subrange(i * ds.feature_dim, (i + 1) * ds.feature_dim)
            == ds.samples@[i].features@,
{
    lemma_rows(ds.samples@, ds.feature_dim as int, i);
}

proof fn lemma_rows(samples: Seq<Sample>, dim: int, i: int)
    requires
        dim >= 0,
        forall|j: int| 0 <= j < samples.len() ==> (#[trigger] samples[j]).features@.len() == dim,
        0 <= i < samples.len(),
    ensures
        rows(samples).len() == samples.len() * dim,
        rows(samples).subrange(i * dim, (i + 1) * dim) == samples[i].features@,
        0 <= i * dim <= (i + 1) * dim <= samples.len() * dim,
    decreases samples.len(),
{
    let n = samples.len() as int;
    let front = samples.drop_last();
    assert(samples.last().features@.len() == dim);
    assert((n - 1) * dim + dim == n * dim) by (nonlinear_arith);
    assert((i + 1) * dim == i * dim + dim) by (nonlinear_arith);
    if i < n - 1 {
        lemma_rows(front, dim, i);
        assert(rows(samples).subrange(i * dim, (i + 1) * dim) =~= rows(front).subrange(
            i * dim,
            (i + 1) * dim,
        ));
    } else {
        if n > 1 {
            lemma_rows(front, dim, 0);
        } else {
            assert(rows(front).len() == 0);
            assert(0 * dim == 0);
        }
        assert(0 <= i * dim) by (nonlinear_arith)
            requires
                i >= 0,
                dim >= 0,
        ;
        assert(rows(samples).subrange(i * dim, (i + 1) * dim) =~= samples.last().features@);
    }
}

} // verus!
