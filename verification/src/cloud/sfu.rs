//! Selective forwarding of media over bounded rings.
//!
//! One publisher feeds many subscribers. Each subscriber has a ring of its own;
//! the publisher pushes once per subscriber, and a full ring drops the frame for
//! that subscriber alone.
use vstd::prelude::*;
use crate::cloud::error::{CloudError, CloudErrorView};
use crate::cloud::recorder::LINK_MAX_PAYLOAD;
use crate::runtime::ring::{rounded, SpscRing};

verus! {

/// Largest single media frame this router will carry (matches the link's
/// payload ceiling so a received datagram routes verbatim).
pub const MAX_MEDIA: usize = LINK_MAX_PAYLOAD;

/// One media/telemetry frame in flight.
#[derive(Debug, Clone, Copy, PartialEq, Eq)]
pub struct MediaFrame {
    /// Channel discriminant.
    pub channel: u8,
    /// Frame sequence number.
    pub seq: u64,
    /// Valid byte count in [`MediaFrame::payload`].
    pub len: u16,
    /// Inline payload bytes (valid prefix is `len`).
    pub payload: [u8; MAX_MEDIA],
}

/// As much of a payload as a media frame carries.
pub open spec fn carried(payload: Seq<u8>) -> Seq<u8> {
    if payload.len() > MAX_MEDIA {
        payload.take(MAX_MEDIA as int)
    } else {
        payload
    }
}

/// `f` carries `payload`, with zeros behind it.
pub open spec fn carries(f: MediaFrame, channel: u8, seq: u64, payload: Seq<u8>) -> bool {
    &&& f.channel == channel
    &&& f.seq == seq
    &&& f.len == carried(payload).len()
    &&& f.content() == carried(payload)
    &&& forall|i: int| f.len <= i < MAX_MEDIA ==> #[trigger] f.payload@[i] == 0
}

impl MediaFrame {
    /// The valid payload.
    pub open spec fn content(&self) -> Seq<u8> {
        self.payload@.take(self.len as int)
    }

    /// Builds a frame from a payload slice (truncated to [`MAX_MEDIA`]).
    pub fn new(channel: u8, seq: u64, payload: &[u8]) -> (f: MediaFrame)
        ensures
            carries(f, channel, seq, payload@),
            f.len <= MAX_MEDIA,
    {
        let n: usize = if payload.len() > MAX_MEDIA {
            MAX_MEDIA
        } else {
            payload.len()
        };
        let mut room: [u8; MAX_MEDIA] = [0u8; MAX_MEDIA];
        let mut i: usize = 0;
        while i < n
            invariant
                i <= n <= MAX_MEDIA,
                n <= payload@.len(),
                forall|j: int| 0 <= j < i ==> room@[j] == payload@[j],
                forall|j: int| i <= j < MAX_MEDIA ==> room@[j] == 0,
            decreases n - i,
        {
            room[i] = payload[i];
            i = i + 1;
        }
        let f: MediaFrame = MediaFrame { channel, seq, len: n as u16, payload: room };
        assert(f.content() =~= carried(payload@));
        f
    }

    /// The valid payload slice.
    pub fn bytes(&self) -> (r: &[u8])
        requires
            self.len <= MAX_MEDIA,
        ensures
            r@ == self.content(),
    {
        let r: &[u8] = vstd::slice::slice_subrange(self.payload.as_slice(), 0, self.len as usize);
        assert(r@ =~= self.content());
        r
    }
}

/// A subscriber's ring, and who still knows of it.
struct Viewer {
    id: u64,
    /// The router still feeds it.
    listed: bool,
    /// The subscriber still reads it.
    held: bool,
    ring: SpscRing<MediaFrame>,
}

/// What is known of a subscriber.
#[verifier::ext_equal]
pub ghost struct Subscriber {
    /// Its id.
    pub id: u64,
    /// Whether the router still feeds it.
    pub listed: bool,
    /// Whether the subscriber still reads.
    pub held: bool,
    /// The frames that wait for it, oldest first.
    pub queue: Seq<MediaFrame>,
    /// How many frames can wait for it.
    pub limit: nat,
}

impl Subscriber {
    /// Whether the router feeds it and somebody reads.
    pub open spec fn is_live(self) -> bool {
        self.listed && self.held
    }

    /// Whether a published frame reaches it.
    pub open spec fn has_room(self) -> bool {
        self.is_live() && self.queue.len() < self.limit
    }

    /// The subscriber after a frame was published.
    pub open spec fn fed(self, frame: MediaFrame) -> Subscriber {
        if self.has_room() {
            Subscriber { queue: self.queue.push(frame), ..self }
        } else {
            self
        }
    }
}

/// Selective fan-out router: one publisher per [`SfuFanout`], many subscribers.
///
/// A subscriber leaves by [`detach`](Self::detach) alone: its ring is pruned on
/// the next [`publish`](Self::publish).
pub struct SfuFanout {
    next: u64,
    viewers: Vec<Viewer>,
}

spec fn viewer(v: Viewer) -> Subscriber {
    Subscriber {
        id: v.id,
        listed: v.listed,
        held: v.held,
        queue: v.ring@,
        limit: v.ring.limit(),
    }
}

impl View for SfuFanout {
    type V = Seq<Subscriber>;

    closed spec fn view(&self) -> Seq<Subscriber> {
        self.viewers@.map_values(|v: Viewer| viewer(v))
    }
}

/// The subscribers other than `id`.
pub open spec fn without(subs: Seq<Subscriber>, id: u64) -> Seq<Subscriber>
    decreases subs.len(),
{
    if subs.len() == 0 {
        Seq::empty()
    } else if subs.last().id == id {
        without(subs.drop_last(), id)
    } else {
        without(subs.drop_last(), id).push(subs.last())
    }
}

/// Where the subscriber `id` stands, counted from the end if there are several.
pub open spec fn place_of(subs: Seq<Subscriber>, id: u64) -> Option<int>
    decreases subs.len(),
{
    if subs.len() == 0 {
        None
    } else if subs.last().id == id {
        Some(subs.len() - 1)
    } else {
        place_of(subs.drop_last(), id)
    }
}

/// How many subscribers are live.
pub open spec fn live_count(subs: Seq<Subscriber>) -> nat
    decreases subs.len(),
{
    if subs.len() == 0 {
        0
    } else {
        live_count(subs.drop_last()) + if subs.last().is_live() {
            1nat
        } else {
            0nat
        }
    }
}

/// How many subscribers a published frame reaches.
pub open spec fn reached(subs: Seq<Subscriber>) -> nat
    decreases subs.len(),
{
    if subs.len() == 0 {
        0
    } else {
        reached(subs.drop_last()) + if subs.last().has_room() {
            1nat
        } else {
            0nat
        }
    }
}

/// The subscribers after a frame was published: each live one with room has it,
/// and those that nobody reads are gone.
pub open spec fn published(subs: Seq<Subscriber>, frame: MediaFrame) -> Seq<Subscriber>
    decreases subs.len(),
{
    if subs.len() == 0 {
        Seq::empty()
    } else if subs.last().held {
        published(subs.drop_last(), frame).push(subs.last().fed(frame))
    } else {
        published(subs.drop_last(), frame)
    }
}

/// The subscribers with the one at `i` as `s`, or without it where neither side
/// knows of it any more.
pub open spec fn settled(subs: Seq<Subscriber>, i: int, s: Subscriber) -> Seq<Subscriber> {
    if s.listed || s.held {
        subs.update(i, s)
    } else {
        subs.remove(i)
    }
}

/// The subscribers when the router stops feeding `id`.
pub open spec fn unlisted(subs: Seq<Subscriber>, id: u64) -> Seq<Subscriber> {
    match place_of(subs, id) {
        Some(i) => settled(subs, i, Subscriber { listed: false, ..subs[i] }),
        None => subs,
    }
}

/// The subscribers when `id` stops reading.
pub open spec fn released(subs: Seq<Subscriber>, id: u64) -> Seq<Subscriber> {
    match place_of(subs, id) {
        Some(i) => settled(subs, i, Subscriber { held: false, ..subs[i] }),
        None => subs,
    }
}

/// Whether a frame waits for the subscriber `id`, which still reads.
pub open spec fn waits(subs: Seq<Subscriber>, id: u64) -> bool {
    place_of(subs, id) matches Some(i) && subs[i].held && subs[i].queue.len() > 0
}

/// Reading for the viewer `id` leads from `before` to `after` and gives `r`: the
/// frame that waits longest, if one does.
pub open spec fn gives(
    before: Seq<Subscriber>,
    after: Seq<Subscriber>,
    id: u64,
    r: Option<MediaFrame>,
) -> bool {
    match r {
        Some(f) => {
            let i = place_of(before, id)->0;
            let s = before[i];
            &&& waits(before, id)
            &&& f == s.queue[0]
            &&& after == before.update(i, Subscriber { queue: s.queue.drop_first(), ..s })
        },
        None => !waits(before, id) && after == before,
    }
}

proof fn lemma_counts(subs: Seq<Subscriber>)
    ensures
        live_count(subs) <= subs.len(),
        reached(subs) <= live_count(subs),
    decreases subs.len(),
{
    if subs.len() > 0 {
        lemma_counts(subs.drop_last());
    }
}

pub proof fn lemma_place_of(subs: Seq<Subscriber>, id: u64)
    ensures
        match place_of(subs, id) {
            Some(i) => 0 <= i < subs.len() && subs[i].id == id,
            None => forall|j: int| 0 <= j < subs.len() ==> (#[trigger] subs[j]).id != id,
        },
    decreases subs.len(),
{
    if subs.len() > 0 && subs.last().id != id {
        lemma_place_of(subs.drop_last(), id);
        if place_of(subs, id) is None {
            assert forall|j: int| 0 <= j < subs.len() implies (#[trigger] subs[j]).id != id by {
                if j < subs.len() - 1 {
                    assert(subs.drop_last()[j].id != id);
                }
            }
        }
    }
}

impl SfuFanout {
    /// Every ring is sound, and an entry that neither side knows of is not kept.
    pub closed spec fn wf(&self) -> bool {
        forall|i: int|
            0 <= i < self.viewers@.len() ==> {
                &&& (#[trigger] self.viewers@[i]).ring.wf()
                &&& self.viewers@[i].listed || self.viewers@[i].held
            }
    }

    /// The id that the next subscriber gets.
    pub closed spec fn next_id(&self) -> u64 {
        self.next
    }

    /// An empty fan-out.
    pub fn new() -> (r: SfuFanout)
        ensures
            r.wf(),
            r@ == Seq::<Subscriber>::empty(),
            r.next_id() == 1,
    {
        let r: SfuFanout = SfuFanout { next: 1, viewers: Vec::new() };
        assert(r@ =~= Seq::<Subscriber>::empty());
        r
    }

    /// Registers a subscriber and returns its id.
    ///
    /// `capacity` is rounded up to a power of two by the ring; it bounds how far
    /// a slow consumer may lag before frames are dropped for it. An id comes
    /// round again after all others were handed out; what has it then is
    /// replaced.
    pub fn subscribe(&mut self, capacity: usize) -> (id: u64)
        requires
            old(self).wf(),
            capacity <= usize::MAX / 2 + 1,
        ensures
            final(self).wf(),
            id == old(self).next_id(),
            final(self).next_id() == (if id == u64::MAX {
                0
            } else {
                (id + 1) as u64
            }),
            final(self)@ == without(old(self)@, id).push(
                Subscriber {
                    id,
                    listed: true,
                    held: true,
                    queue: Seq::empty(),
                    limit: rounded(
                        if capacity == 0 {
                            1
                        } else {
                            capacity as nat
                        },
                    ),
                },
            ),
    {
        let id: u64 = self.next;
        self.next = id.wrapping_add(1);
        let size: usize = if capacity == 0 {
            1
        } else {
            capacity
        };
        self.forget(id);
        let ring: SpscRing<MediaFrame> = SpscRing::with_capacity(size);
        let ghost before = self@;
        self.viewers.push(Viewer { id, listed: true, held: true, ring });
        assert(self@ =~= before.push(viewer(self.viewers@.last())));
        id
    }

    /// Drops every entry with the id.
    fn forget(&mut self, id: u64)
        requires
            old(self).wf(),
        ensures
            final(self).wf(),
            final(self).next_id() == old(self).next_id(),
            final(self)@ == without(old(self)@, id),
    {
        let ghost all = self@;
        let ghost mut k: int = 0;
        let mut i: usize = 0;
        proof {
            assert(all.take(0) =~= Seq::<Subscriber>::empty());
            assert(self@.take(0) =~= Seq::<Subscriber>::empty());
            assert(self@.skip(0) =~= all.skip(0));
        }
        while i < self.viewers.len()
            invariant
                self.wf(),
                self.next_id() == old(self).next_id(),
                0 <= k <= all.len(),
                i <= self@.len(),
                self@.len() == self.viewers@.len(),
                self@.take(i as int) == without(all.take(k), id),
                self@.skip(i as int) == all.skip(k),
            decreases self.viewers@.len() - i,
        {
            let ghost before = self@;
            proof {
                assert(before[i as int] == before.skip(i as int)[0]);
                assert(before.skip(i as int).len() == all.skip(k).len());
                assert(all.skip(k)[0] == all[k]);
                assert(all.take(k + 1).drop_last() =~= all.take(k));
                assert(all.take(k + 1).last() == all[k]);
                assert(before.skip(i as int).drop_first() =~= before.skip(i + 1));
                assert(all.skip(k).drop_first() =~= all.skip(k + 1));
            }
            if self.viewers[i].id == id {
                let gone: Viewer = self.viewers.remove(i);
                assert(self@ =~= before.remove(i as int));
                assert(self@.take(i as int) =~= before.take(i as int));
                assert(self@.skip(i as int) =~= before.skip(i + 1));
            } else {
                i = i + 1;
                assert(self@.take(i as int) =~= before.take(i - 1).push(before[i - 1]));
            }
            proof {
                k = k + 1;
            }
        }
        proof {
            assert(all.skip(k).len() == 0);
            assert(all.take(k) =~= all);
            assert(self@.take(i as int) =~= self@);
        }
    }

    /// Where the entry with the id stands.
    fn find(&self, id: u64) -> (r: Option<usize>)
        requires
            self.wf(),
        ensures
            match r {
                Some(i) => place_of(self@, id) == Some(i as int) && i < self@.len(),
                None => place_of(self@, id) is None,
            },
    {
        let mut i: usize = self.viewers.len();
        proof {
            assert(self@.take(i as int) =~= self@);
        }
        while i > 0
            invariant
                i <= self.viewers@.len(),
                self@.len() == self.viewers@.len(),
                place_of(self@, id) == place_of(self@.take(i as int), id),
            decreases i,
        {
            proof {
                assert(self@.take(i as int).drop_last() =~= self@.take(i - 1));
                assert(self@.take(i as int).last() == viewer(self.viewers@[i - 1]));
            }
            i = i - 1;
            if self.viewers[i].id == id {
                return Some(i);
            }
        }
        None
    }

    /// Takes an entry off that neither side knows of any more.
    fn settle(&mut self, i: usize)
        requires
            i < old(self).viewers@.len(),
            forall|j: int|
                0 <= j < old(self).viewers@.len() ==> (#[trigger] old(
                    self,
                ).viewers@[j]).ring.wf(),
            forall|j: int|
                0 <= j < old(self).viewers@.len() && j != i ==> (#[trigger] old(
                    self,
                ).viewers@[j]).listed || old(self).viewers@[j].held,
        ensures
            final(self).wf(),
            final(self).next_id() == old(self).next_id(),
            final(self)@ == (if old(self)@[i as int].listed || old(self)@[i as int].held {
                old(self)@
            } else {
                old(self)@.remove(i as int)
            }),
    {
        if !self.viewers[i].listed && !self.viewers[i].held {
            let gone: Viewer = self.viewers.remove(i);
            assert(self@ =~= old(self)@.remove(i as int));
        }
    }

    /// Removes a subscriber explicitly: no frame reaches it any more. It can
    /// still read what waits for it.
    pub fn unsubscribe(&mut self, id: u64)
        requires
            old(self).wf(),
        ensures
            final(self).wf(),
            final(self).next_id() == old(self).next_id(),
            final(self)@ == unlisted(old(self)@, id),
    {
        if let Some(i) = self.find(id) {
            self.viewers[i].listed = false;
            assert(self@ =~= old(self)@.update(
                i as int,
                Subscriber { listed: false, ..old(self)@[i as int] },
            ));
            self.settle(i);
        }
    }

    /// The subscriber stops reading, and what waits for it is lost. The router
    /// notices on the next [`publish`](Self::publish).
    pub fn detach(&mut self, id: u64)
        requires
            old(self).wf(),
        ensures
            final(self).wf(),
            final(self).next_id() == old(self).next_id(),
            final(self)@ == released(old(self)@, id),
    {
        if let Some(i) = self.find(id) {
            self.viewers[i].held = false;
            assert(self@ =~= old(self)@.update(
                i as int,
                Subscriber { held: false, ..old(self)@[i as int] },
            ));
            self.settle(i);
        }
    }

    /// Takes the oldest frame that waits for a subscriber that still reads.
    pub fn receive(&mut self, id: u64) -> (r: Option<MediaFrame>)
        requires
            old(self).wf(),
        ensures
            final(self).wf(),
            final(self).next_id() == old(self).next_id(),
            match r {
                Some(f) => {
                    let i = place_of(old(self)@, id)->0;
                    let s = old(self)@[i];
                    &&& waits(old(self)@, id)
                    &&& f == s.queue[0]
                    &&& final(self)@ == old(self)@.update(
                        i,
                        Subscriber { queue: s.queue.drop_first(), ..s },
                    )
                },
                None => !waits(old(self)@, id) && final(self)@ == old(self)@,
            },
            gives(old(self)@, final(self)@, id, r),
    {
        let i: usize = match self.find(id) {
            Some(i) => i,
            None => {
                return None;
            },
        };
        proof {
            lemma_place_of(self@, id);
        }
        if !self.viewers[i].held {
            return None;
        }
        let r: Option<MediaFrame> = self.viewers[i].ring.pop();
        proof {
            let s = old(self)@[i as int];
            if r is Some {
                assert(self@ =~= old(self)@.update(
                    i as int,
                    Subscriber { queue: s.queue.drop_first(), ..s },
                ));
            } else {
                assert(self@ =~= old(self)@);
            }
        }
        r
    }

    /// How many frames wait for a subscriber that still reads.
    pub fn pending(&self, id: u64) -> (r: Option<usize>)
        requires
            self.wf(),
        ensures
            match r {
                Some(n) => place_of(self@, id) matches Some(i) && self@[i].held && n
                    == self@[i].queue.len(),
                None => place_of(self@, id) matches Some(i) ==> !self@[i].held,
            },
    {
        match self.find(id) {
            Some(i) => if self.viewers[i].held {
                Some(self.viewers[i].ring.len())
            } else {
                None
            },
            None => None,
        }
    }

    /// Current live subscriber count.
    pub fn subscriber_count(&self) -> (r: usize)
        requires
            self.wf(),
        ensures
            r == live_count(self@),
    {
        let mut n: usize = 0;
        let mut i: usize = 0;
        proof {
            assert(self@.take(0) =~= Seq::<Subscriber>::empty());
        }
        while i < self.viewers.len()
            invariant
                i <= self.viewers@.len(),
                self@.len() == self.viewers@.len(),
                n <= i,
                n == live_count(self@.take(i as int)),
            decreases self.viewers@.len() - i,
        {
            proof {
                assert(self@.take(i + 1).drop_last() =~= self@.take(i as int));
                assert(self@.take(i + 1).last() == viewer(self.viewers@[i as int]));
            }
            if self.viewers[i].listed && self.viewers[i].held {
                n = n + 1;
            }
            i = i + 1;
        }
        proof {
            assert(self@.take(i as int) =~= self@);
        }
        n
    }

    /// Publishes `frame` to every live subscriber. Returns the number of
    /// subscribers that accepted it (a dropped frame counts against delivery).
    pub fn publish(&mut self, frame: MediaFrame) -> (delivered: usize)
        requires
            old(self).wf(),
        ensures
            final(self).wf(),
            final(self).next_id() == old(self).next_id(),
            final(self)@ == published(old(self)@, frame),
            delivered == reached(old(self)@),
    {
        let ghost all = self@;
        let ghost mut k: int = 0;
        let mut i: usize = 0;
        let mut delivered: usize = 0;
        proof {
            assert(all.take(0) =~= Seq::<Subscriber>::empty());
            assert(self@.take(0) =~= Seq::<Subscriber>::empty());
            assert(self@.skip(0) =~= all.skip(0));
        }
        while i < self.viewers.len()
            invariant
                self.wf(),
                self.next_id() == old(self).next_id(),
                0 <= k <= all.len(),
                i <= self@.len(),
                self@.len() == self.viewers@.len(),
                delivered <= i,
                delivered == reached(all.take(k)),
                self@.take(i as int) == published(all.take(k), frame),
                self@.skip(i as int) == all.skip(k),
            decreases self.viewers@.len() - i,
        {
            let ghost before = self@;
            proof {
                assert(before[i as int] == before.skip(i as int)[0]);
                assert(before.skip(i as int).len() == all.skip(k).len());
                assert(all.skip(k)[0] == all[k]);
                assert(all.take(k + 1).drop_last() =~= all.take(k));
                assert(all.take(k + 1).last() == all[k]);
                assert(before.skip(i as int).drop_first() =~= before.skip(i + 1));
                assert(all.skip(k).drop_first() =~= all.skip(k + 1));
                self.viewers@[i as int].ring.lemma_bounded();
            }
            if !self.viewers[i].held {
                let gone: Viewer = self.viewers.remove(i);
                assert(self@ =~= before.remove(i as int));
                assert(self@.take(i as int) =~= before.take(i as int));
                assert(self@.skip(i as int) =~= before.skip(i + 1));
            } else {
                if self.viewers[i].listed {
                    let pushed: Result<(), MediaFrame> = self.viewers[i].ring.push(frame);
                    if pushed.is_ok() {
                        delivered = delivered + 1;
                    }
                }
                assert(self@ =~= before.update(i as int, before[i as int].fed(frame)));
                assert(self@.take(i + 1) =~= before.take(i as int).push(
                    before[i as int].fed(frame),
                ));
                assert(self@.skip(i + 1) =~= before.skip(i + 1));
                i = i + 1;
            }
            proof {
                k = k + 1;
            }
        }
        proof {
            assert(all.skip(k).len() == 0);
            assert(all.take(k) =~= all);
            assert(self@.take(i as int) =~= self@);
        }
        delivered
    }
}

impl Default for SfuFanout {
    /// No subscribers, with ids that count from zero.
    fn default() -> (r: SfuFanout)
        ensures
            r.wf(),
            r@ == Seq::<Subscriber>::empty(),
            r.next_id() == 0,
    {
        let r: SfuFanout = SfuFanout { next: 0, viewers: Vec::new() };
        assert(r@ =~= Seq::<Subscriber>::empty());
        r
    }
}

/// One slow viewer never holds up another: whether a subscriber that is read
/// gets a frame depends on its own ring alone, and no frame is lost from a queue.
pub proof fn law_congestion_is_isolated(subs: Seq<Subscriber>, frame: MediaFrame, i: int)
    requires
        0 <= i < subs.len(),
        subs[i].held,
    ensures
        published(subs, frame).contains(subs[i].fed(frame)),
        subs[i].queue.is_prefix_of(subs[i].fed(frame).queue),
        reached(subs) <= live_count(subs) <= subs.len(),
    decreases subs.len(),
{
    lemma_counts(subs);
    let next = published(subs, frame);
    if i == subs.len() - 1 {
        assert(next.last() == subs[i].fed(frame));
    } else {
        let front = subs.drop_last();
        law_congestion_is_isolated(front, frame, i);
        let there = published(front, frame);
        let k = choose|k: int| 0 <= k < there.len() && there[k] == subs[i].fed(frame);
        assert(next[k] == there[k]);
    }
}

/// After a publication only subscribers that are read are kept.
pub proof fn law_dead_subscribers_are_pruned(subs: Seq<Subscriber>, frame: MediaFrame)
    ensures
        forall|i: int|
            0 <= i < published(subs, frame).len() ==> (#[trigger] published(subs, frame)[i]).held,
    decreases subs.len(),
{
    if subs.len() > 0 {
        let front = published(subs.drop_last(), frame);
        let next = published(subs, frame);
        law_dead_subscribers_are_pruned(subs.drop_last(), frame);
        assert forall|i: int| 0 <= i < next.len() implies (#[trigger] next[i]).held by {
            if i < front.len() {
                assert(next[i] == front[i]);
            }
        }
    }
}

/// The reason why negotiation is refused.
pub open spec fn negotiation_refusal() -> Seq<char> {
    "WebRTC SDP/DTLS negotiation requires the webrtc-rs stack, which is banned by the workspace §2 MIT chain; in-house SFU routing via SfuFanout is available once peers are negotiated externally"@
}

/// WebRTC SDP/DTLS negotiation hook. Negotiation is left to an external
/// component, so it always fails; [`SfuFanout`] routes the frames of peers that
/// were negotiated elsewhere.
pub fn negotiate_webrtc_stub() -> (r: Result<(), CloudError>)
    ensures
        r is Err,
        r->Err_0@ == CloudErrorView::Unsupported(negotiation_refusal()),
{
    Err(
        CloudError::Unsupported(
            "WebRTC SDP/DTLS negotiation requires the webrtc-rs stack, which is banned by the workspace §2 MIT chain; in-house SFU routing via SfuFanout is available once peers are negotiated externally",
        ),
    )
}

} // verus!
