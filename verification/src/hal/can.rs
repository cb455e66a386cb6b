//! CAN bus: the interface of an endpoint, a virtual point-to-point bus, frames
//! as a raw socket takes them, and the backend for platforms without a bus.
use vstd::prelude::*;
use crate::hal::types::{Can, CanFrame, HalError};
use crate::runtime::ring::{rounded, SpscRing};

verus! {

/// Bidirectional CAN endpoint.
///
/// `send`/`recv` never allocate and never block.
pub trait CanBus {
    /// Transmits one frame. `Err(HalError::Dropped)` when the TX queue is full or
    /// fault injection drops it.
    fn send(&mut self, frame: &CanFrame) -> Result<(), HalError>;

    /// Receives into `out`; returns `false` when nothing is pending.
    fn recv(&mut self, out: &mut CanFrame) -> bool;
}

// --- Virtual bus ---------------------------------------------------------------------

/// One of the two ends of a virtual bus.
#[derive(Debug, Clone, Copy, PartialEq, Eq, Structural)]
pub enum End {
    /// The first end.
    A,
    /// The second end.
    B,
}

/// Transmit side of one end: how often it sent, and which sends are dropped.
#[derive(Debug, Clone, Copy, PartialEq, Eq, Structural)]
pub struct Sender {
    /// Attempted transmissions (wrapping counter).
    pub tx_count: u64,
    /// Every so many transmissions one is dropped; 0 = never.
    pub drop_every: u32,
}

impl Sender {
    /// The sender after one more attempt.
    pub open spec fn counted(self) -> Sender {
        Sender {
            tx_count: if self.tx_count == u64::MAX {
                0
            } else {
                (self.tx_count + 1) as u64
            },
            ..self
        }
    }

    /// Whether the attempt that was just counted is dropped.
    pub open spec fn drops(self) -> bool {
        self.drop_every > 0 && self.tx_count % (self.drop_every as u64) == 0
    }
}

/// A virtual point-to-point CAN bus: whatever one end sends, the other receives.
///
/// Fault injection mirrors real-world failure modes: a sender can drop every
/// n-th transmit (congestion), and a full queue behaves like TX buffer overflow
/// on silicon.
pub struct CanLink {
    a2b: SpscRing<CanFrame>,
    b2a: SpscRing<CanFrame>,
    a: Sender,
    b: Sender,
}

impl CanLink {
    pub closed spec fn wf(&self) -> bool {
        self.a2b.wf() && self.b2a.wf()
    }

    /// The frames that were sent from `from` and not received yet.
    pub closed spec fn queue(&self, from: End) -> Seq<CanFrame> {
        match from {
            End::A => self.a2b@,
            End::B => self.b2a@,
        }
    }

    /// How many frames can wait on the way from `from`.
    pub closed spec fn limit(&self, from: End) -> nat {
        match from {
            End::A => self.a2b.limit(),
            End::B => self.b2a.limit(),
        }
    }

    /// The transmit side of `from`.
    pub closed spec fn sender(&self, from: End) -> Sender {
        match from {
            End::A => self.a,
            End::B => self.b,
        }
    }

    /// The way from `from` is as it was.
    pub open spec fn same_way(&self, other: &CanLink, from: End) -> bool {
        &&& self.queue(from) == other.queue(from)
        &&& self.limit(from) == other.limit(from)
        &&& self.sender(from) == other.sender(from)
    }

    /// Injects dropped transmits: every `n`-th attempted send from `from` fails
    /// without queueing. `0` disables (default).
    pub fn set_drop_every(&mut self, from: End, n: u32)
        requires
            old(self).wf(),
        ensures
            final(self).wf(),
            final(self).sender(from) == (Sender { drop_every: n, ..old(self).sender(from) }),
            final(self).queue(from) == old(self).queue(from),
            final(self).limit(from) == old(self).limit(from),
            forall|e: End| e != from ==> #[trigger] final(self).same_way(&*old(self), e),
    {
        match from {
            End::A => {
                self.a.drop_every = n;
            },
            End::B => {
                self.b.drop_every = n;
            },
        }
    }

    /// Total attempted transmissions of an end (wrapping counter).
    pub fn tx_attempts(&self, from: End) -> (r: u64)
        ensures
            r == self.sender(from).tx_count,
    {
        match from {
            End::A => self.a.tx_count,
            End::B => self.b.tx_count,
        }
    }

    /// Transmits one frame from an end. It is dropped where fault injection says
    /// so or the queue is full.
    pub fn send(&mut self, from: End, frame: &CanFrame) -> (r: Result<(), HalError>)
        requires
            old(self).wf(),
        ensures
            final(self).wf(),
            final(self).sender(from) == old(self).sender(from).counted(),
            final(self).limit(from) == old(self).limit(from),
            forall|e: End| e != from ==> #[trigger] final(self).same_way(&*old(self), e),
            if old(self).sender(from).counted().drops() || old(self).queue(from).len() >= old(
                self,
            ).limit(from) {
                r == Err::<(), HalError>(HalError::Dropped) && final(self).queue(from) == old(
                    self,
                ).queue(from)
            } else {
                r is Ok && final(self).queue(from) == old(self).queue(from).push(*frame)
            },
            sends_on(*old(self), *final(self), from, *frame, r),
    {
        proof {
            self.a2b.lemma_bounded();
            self.b2a.lemma_bounded();
        }
        let side: Sender = match from {
            End::A => {
                self.a.tx_count = self.a.tx_count.wrapping_add(1);
                self.a
            },
            End::B => {
                self.b.tx_count = self.b.tx_count.wrapping_add(1);
                self.b
            },
        };
        if side.drop_every > 0 && side.tx_count % (side.drop_every as u64) == 0 {
            return Err(HalError::Dropped);
        }
        let pushed: Result<(), CanFrame> = match from {
            End::A => self.a2b.push(*frame),
            End::B => self.b2a.push(*frame),
        };
        match pushed {
            Ok(_) => Ok(()),
            Err(_) => Err(HalError::Dropped),
        }
    }

    /// Receives at an end what the other sent, into `out`; returns `false` when
    /// nothing is pending.
    pub fn recv(&mut self, at: End, out: &mut CanFrame) -> (r: bool)
        requires
            old(self).wf(),
        ensures
            final(self).wf(),
            ({
                let from = if at == End::A {
                    End::B
                } else {
                    End::A
                };
                &&& final(self).sender(from) == old(self).sender(from)
                &&& final(self).limit(from) == old(self).limit(from)
                &&& final(self).same_way(&*old(self), at)
                &&& r == (old(self).queue(from).len() > 0)
                &&& r ==> *final(out) == old(self).queue(from)[0] && final(self).queue(from)
                    == old(self).queue(from).drop_first()
                &&& !r ==> *final(out) == *old(out) && final(self).queue(from) == old(
                    self,
                ).queue(from)
            }),
            receives_at(
                *old(self),
                *final(self),
                at,
                if r {
                    Some(*final(out))
                } else {
                    None
                },
            ),
    {
        let got: Option<CanFrame> = match at {
            End::A => self.b2a.pop(),
            End::B => self.a2b.pop(),
        };
        match got {
            Some(frame) => {
                *out = frame;
                true
            },
            None => false,
        }
    }
}

/// Creates a virtual bus whose two ways hold `capacity` frames each, rounded up
/// to a power of two.
pub fn can_pair(capacity: usize) -> (r: CanLink)
    requires
        capacity <= usize::MAX / 2 + 1,
    ensures
        r.wf(),
        forall|e: End| #[trigger] r.queue(e) == Seq::<CanFrame>::empty(),
        forall|e: End| #[trigger] r.limit(e) == rounded(capacity as nat),
        forall|e: End| #[trigger] r.sender(e) == (Sender { tx_count: 0, drop_every: 0 }),
{
    CanLink {
        a2b: SpscRing::with_capacity(capacity),
        b2a: SpscRing::with_capacity(capacity),
        a: Sender { tx_count: 0, drop_every: 0 },
        b: Sender { tx_count: 0, drop_every: 0 },
    }
}

/// With injection of every `n`-th drop, exactly the attempts whose number is a
/// multiple of `n` are dropped by it.
pub proof fn law_injected_drops(s: Sender, attempts: nat)
    requires
        s.drop_every > 0,
        s.tx_count < u64::MAX,
        s.tx_count == attempts,
    ensures
        s.counted().drops() <==> (attempts + 1) % (s.drop_every as nat) == 0,
{
}

// --- Raw sockets -----------------------------------------------------------------------

/// Marks a 29-bit id.
pub const CAN_EFF_FLAG: u32 = 0x8000_0000;

/// A frame as a raw CAN socket takes and gives it.
#[derive(Debug, Clone, Copy, PartialEq, Eq)]
pub struct RawCan {
    /// Id with its flags.
    pub can_id: u32,
    /// Number of bytes.
    pub can_dlc: u8,
    /// The bytes.
    pub data: [u8; 8],
}

/// The id of a raw frame: one of more than 11 bits is marked.
pub open spec fn raw_id(id: u32) -> u32 {
    if id > 0x7FF {
        id | CAN_EFF_FLAG
    } else {
        id
    }
}

/// The raw frame to send.
pub fn to_raw(frame: &CanFrame) -> (r: RawCan)
    ensures
        r.can_id == raw_id(frame.id),
        r.can_dlc == (if frame.len > 8 {
            8u8
        } else {
            frame.len
        }),
        forall|i: int| 0 <= i < r.can_dlc ==> #[trigger] r.data@[i] == frame.data@[i],
        forall|i: int| r.can_dlc <= i < 8 ==> #[trigger] r.data@[i] == 0,
        is_raw_form(*frame, r),
{
    let len: usize = if frame.len > 8 {
        8
    } else {
        frame.len as usize
    };
    let can_id: u32 = if frame.id > 0x7FF {
        frame.id | CAN_EFF_FLAG
    } else {
        frame.id
    };
    let mut data: [u8; 8] = [0u8; 8];
    let mut i: usize = 0;
    while i < len
        invariant
            i <= len <= 8,
            forall|j: int| 0 <= j < i ==> data@[j] == frame.data@[j],
            forall|j: int| i <= j < 8 ==> data@[j] == 0,
        decreases len - i,
    {
        data[i] = frame.data[i];
        i = i + 1;
    }
    RawCan { can_id, can_dlc: len as u8, data }
}

/// `raw` is the form in which `f` is sent.
pub open spec fn is_raw_form(f: CanFrame, raw: RawCan) -> bool {
    &&& raw.can_id == raw_id(f.id)
    &&& raw.can_dlc == (if f.len > 8 {
        8u8
    } else {
        f.len
    })
    &&& forall|i: int| 0 <= i < raw.can_dlc ==> #[trigger] raw.data@[i] == f.data@[i]
    &&& forall|i: int| raw.can_dlc <= i < 8 ==> #[trigger] raw.data@[i] == 0
}

/// The frame that a raw one carries.
pub open spec fn raw_content(raw: RawCan) -> Can {
    Can {
        id: raw.can_id & 0x7FFF_FFFF,
        payload: raw.data@.take(
            if raw.can_dlc > 8 {
                8
            } else {
                raw.can_dlc as int
            },
        ),
    }
}

/// The frame that was received.
pub fn from_raw(raw: &RawCan) -> (f: CanFrame)
    ensures
        f.wf(),
        f@ == raw_content(*raw),
{
    let len: usize = if raw.can_dlc > 8 {
        8
    } else {
        raw.can_dlc as usize
    };
    let part: &[u8] = vstd::slice::slice_subrange(raw.data.as_slice(), 0, len);
    let id: u32 = raw.can_id & !CAN_EFF_FLAG;
    assert(id == raw.can_id & 0x7FFF_FFFF) by {
        let x = raw.can_id;
        assert(x & !0x8000_0000u32 == x & 0x7FFF_FFFF) by (bit_vector);
    }
    let f: CanFrame = CanFrame::new(id, part);
    assert(part@ =~= raw_content(*raw).payload);
    f
}

/// A frame comes back from its raw form, for every id that a bus can carry.
pub proof fn law_raw_form_reads_back(f: CanFrame, raw: RawCan)
    requires
        f.len <= 8,
        f.id <= 0x1FFF_FFFF,
        raw.can_id == raw_id(f.id),
        raw.can_dlc == f.len,
        forall|i: int| 0 <= i < raw.can_dlc ==> #[trigger] raw.data@[i] == f.data@[i],
    ensures
        raw_content(raw) == f@,
{
    let x = f.id;
    assert(x <= 0x1FFF_FFFF ==> (x | 0x8000_0000u32) & 0x7FFF_FFFF == x && x & 0x7FFF_FFFF == x)
        by (bit_vector);
    assert(raw_content(raw).payload =~= f@.payload);
}

// --- No bus ------------------------------------------------------------------------------

/// CAN source of platforms without a bus; opening one always fails with
/// [`HalError::Unsupported`], so that a session never silently runs without a
/// bus.
#[derive(Debug)]
pub struct StubCan {
    private: (),
}

impl StubCan {
    /// Always returns [`HalError::Unsupported`].
    pub fn open(iface: &str) -> (r: Result<StubCan, HalError>)
        ensures
            r is Err,
            r->Err_0 matches HalError::Unsupported(why) && why@
                == "cross-platform CAN deferred to hardware bring-up"@,
    {
        Err(HalError::Unsupported("cross-platform CAN deferred to hardware bring-up"))
    }
}

impl Default for StubCan {
    fn default() -> StubCan {
        StubCan { private: () }
    }
}

impl CanBus for StubCan {
    fn send(&mut self, frame: &CanFrame) -> (r: Result<(), HalError>)
        ensures
            r is Err,
            r->Err_0 matches HalError::Unsupported(why) && why@ == "cross-platform CAN deferred"@,
    {
        Err(HalError::Unsupported("cross-platform CAN deferred"))
    }

    fn recv(&mut self, out: &mut CanFrame) -> (r: bool)
        ensures
            !r,
            *final(out) == *old(out),
    {
        false
    }
}

/// An identifier of at most 11 bits is kept as it is; a longer one, of at most
/// 29, is marked by the highest bit and by nothing else.
pub proof fn law_long_identifiers_are_marked(id: u32)
    requires
        id < 0x2000_0000,
    ensures
        id < 0x800 ==> raw_id(id) == id,
        id >= 0x800 ==> raw_id(id) == id + 0x8000_0000,
{
    assert(id < 0x2000_0000 ==> (id | 0x8000_0000) == id + 0x8000_0000) by (bit_vector);
}

/// What is sent as a raw frame is received as the frame it was: identifier, length
/// and every byte at its place, with zeros behind them.
pub proof fn law_raw_form_keeps_the_frame(f: CanFrame, raw: RawCan)
    requires
        is_raw_form(f, raw),
        f.len <= 8,
        f.id <= 0x1FFF_FFFF,
    ensures
        raw_content(raw) == f@,
        raw.can_dlc == f.len,
        raw.data@.take(f.len as int) == f.data@.take(f.len as int),
        forall|i: int| f.len <= i < 8 ==> #[trigger] raw.data@[i] == 0,
{
    law_raw_form_reads_back(f, raw);
    assert(raw.data@.take(f.len as int) =~= f.data@.take(f.len as int));
}

/// Sending `frame` at the end `from` leads from `before` to `after` with the result
/// `r`.
pub open spec fn sends_on(
    before: CanLink,
    after: CanLink,
    from: End,
    frame: CanFrame,
    r: Result<(), HalError>,
) -> bool {
    if before.sender(from).counted().drops() || before.queue(from).len() >= before.limit(from) {
        r == Err::<(), HalError>(HalError::Dropped) && after.queue(from) == before.queue(from)
    } else {
        r is Ok && after.queue(from) == before.queue(from).push(frame)
    }
}

/// Receiving at the end `at` leads from `before` to `after` and gives `got`.
pub open spec fn receives_at(
    before: CanLink,
    after: CanLink,
    at: End,
    got: Option<CanFrame>,
) -> bool {
    let way = if at == End::A {
        before.queue(End::B)
    } else {
        before.queue(End::A)
    };
    let left = if at == End::A {
        after.queue(End::B)
    } else {
        after.queue(End::A)
    };
    match got {
        Some(f) => way.len() > 0 && f == way[0] && left == way.drop_first(),
        None => way.len() == 0 && left == way,
    }
}

/// What is sent at one end arrives at the other, and not at the end it was sent
/// from. A frame that was dropped arrives nowhere.
pub proof fn law_frames_arrive_at_the_other_end(
    before: CanLink,
    middle: CanLink,
    after: CanLink,
    from: End,
    at: End,
    frame: CanFrame,
    r: Result<(), HalError>,
    got: Option<CanFrame>,
)
    requires
        before.queue(End::A).len() == 0,
        before.queue(End::B).len() == 0,
        sends_on(before, middle, from, frame, r),
        forall|e: End| e != from ==> #[trigger] middle.same_way(&before, e),
        receives_at(middle, after, at, got),
    ensures
        at != from && r is Ok ==> got == Some(frame),
        at != from && r is Err ==> got is None,
        at == from ==> got is None,
{
    let other = if from == End::A {
        End::B
    } else {
        End::A
    };
    assert(middle.same_way(&before, other));
}

} // verus!
