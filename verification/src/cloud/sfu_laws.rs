//! What publishing a frame does to each viewer.
use vstd::prelude::*;
use crate::cloud::error::CloudErrorView;
use crate::cloud::fleet::{ingests, is_fresh, lemma_unit_at, takes_in, unit_at, UnitState};
use crate::cloud::recorder::{Frame, VecRecorder};
use crate::cloud::sfu::{
    carries, gives, lemma_place_of, live_count, place_of, published, reached, released, unlisted,
    waits, without, MediaFrame, Subscriber,
};
use crate::runtime::mode::Mode;

verus! {

/// How many of the first `i` viewers hold their end.
pub open spec fn held_before(subs: Seq<Subscriber>, i: int) -> int
    decreases i,
{
    if i <= 0 {
        0
    } else {
        held_before(subs, i - 1) + if subs[i - 1].held {
            1int
        } else {
            0int
        }
    }
}

proof fn lemma_held_before(subs: Seq<Subscriber>, i: int)
    requires
        0 <= i < subs.len(),
    ensures
        held_before(subs.drop_last(), i) == held_before(subs, i),
    decreases i,
{
    if i > 0 {
        lemma_held_before(subs, i - 1);
        assert(subs.drop_last()[i - 1] == subs[i - 1]);
    }
}

proof fn lemma_held_grows(subs: Seq<Subscriber>, i: int, n: int)
    requires
        0 <= i < n <= subs.len(),
        subs[i].held,
    ensures
        0 <= held_before(subs, i) < held_before(subs, n),
    decreases n,
{
    lemma_held_is_counted(subs, i);
    if i < n - 1 {
        lemma_held_grows(subs, i, n - 1);
    }
}

proof fn lemma_held_is_counted(subs: Seq<Subscriber>, i: int)
    requires
        0 <= i,
    ensures
        held_before(subs, i) >= 0,
    decreases i,
{
    if i > 0 {
        lemma_held_is_counted(subs, i - 1);
    }
}

/// A published frame goes to the end of the queue of every viewer that is
/// subscribed and has room, and to no other queue. The viewers that hold their
/// end stay, in order, and nothing else of them changes.
pub proof fn law_publishing_feeds_those_with_room(subs: Seq<Subscriber>, frame: MediaFrame, i: int)
    requires
        0 <= i < subs.len(),
        subs[i].held,
    ensures
        published(subs, frame).len() == held_before(subs, subs.len() as int),
        0 <= held_before(subs, i) < published(subs, frame).len(),
        ({
            let s = subs[i];
            let t = published(subs, frame)[held_before(subs, i)];
            &&& t.id == s.id && t.listed == s.listed && t.held && t.limit == s.limit
            &&& t.queue == (if s.listed && s.queue.len() < s.limit {
                s.queue.push(frame)
            } else {
                s.queue
            })
        }),
    decreases subs.len(),
{
    lemma_published_len(subs, frame);
    lemma_held_grows(subs, i, subs.len() as int);
    let rest = subs.drop_last();
    lemma_published_len(rest, frame);
    lemma_held_before(subs, subs.len() - 1);
    if i < rest.len() {
        assert(rest[i] == subs[i]);
        law_publishing_feeds_those_with_room(rest, frame, i);
        lemma_held_before(subs, i);
    }
}

proof fn lemma_published_len(subs: Seq<Subscriber>, frame: MediaFrame)
    ensures
        published(subs, frame).len() == held_before(subs, subs.len() as int),
    decreases subs.len(),
{
    if subs.len() > 0 {
        lemma_published_len(subs.drop_last(), frame);
        lemma_held_before(subs, subs.len() - 1);
    }
}

/// The number of deliveries counts each viewer that is subscribed, holds its end
/// and has room once, and the number of subscribers each that is subscribed and
/// holds its end.
pub proof fn law_deliveries_are_counted(a: Seq<Subscriber>, b: Seq<Subscriber>, s: Subscriber)
    ensures
        reached(a + b) == reached(a) + reached(b),
        live_count(a + b) == live_count(a) + live_count(b),
        reached(seq![s]) == (if s.listed && s.held && s.queue.len() < s.limit {
            1nat
        } else {
            0nat
        }),
        live_count(seq![s]) == (if s.listed && s.held {
            1nat
        } else {
            0nat
        }),
    decreases b.len(),
{
    assert(seq![s].drop_last() =~= Seq::<Subscriber>::empty());
    assert(seq![s].last() == s);
    assert(reached(seq![s].drop_last()) == 0 && live_count(seq![s].drop_last()) == 0);
    if b.len() == 0 {
        assert(a + b =~= a);
    } else {
        law_deliveries_are_counted(a, b.drop_last(), s);
        assert((a + b).drop_last() =~= a + b.drop_last());
        assert((a + b).last() == b.last());
    }
}

/// Every id stands for one viewer.
pub open spec fn one_each(subs: Seq<Subscriber>) -> bool {
    forall|i: int, j: int|
        0 <= i < j < subs.len() ==> (#[trigger] subs[i]).id != (#[trigger] subs[j]).id
}

/// A viewer that unsubscribes or lets go of its end is marked so and keeps what
/// waits for it; once it has done both it is gone. No other viewer is touched.
pub proof fn law_leaving_touches_one_viewer(subs: Seq<Subscriber>, i: int)
    requires
        one_each(subs),
        0 <= i < subs.len(),
    ensures
        subs[i].held ==> unlisted(subs, subs[i].id) == subs.update(
            i,
            Subscriber { listed: false, ..subs[i] },
        ),
        !subs[i].held ==> unlisted(subs, subs[i].id) == subs.remove(i),
        subs[i].listed ==> released(subs, subs[i].id) == subs.update(
            i,
            Subscriber { held: false, ..subs[i] },
        ),
        !subs[i].listed ==> released(subs, subs[i].id) == subs.remove(i),
{
    let id = subs[i].id;
    lemma_place_of(subs, id);
    let k = place_of(subs, id)->0;
    assert(k == i);
}

/// Where an id is given again, the viewer that had it is dropped and all others stay.
pub proof fn law_without_drops_one_id(subs: Seq<Subscriber>, id: u64, s: Subscriber)
    ensures
        without(subs, id).contains(s) <==> subs.contains(s) && s.id != id,
    decreases subs.len(),
{
    if subs.len() > 0 {
        let front = subs.drop_last();
        let last = subs.last();
        law_without_drops_one_id(front, id, s);
        let rest = without(front, id);
        if subs.contains(s) {
            let k = choose|k: int| 0 <= k < subs.len() && subs[k] == s;
            if k < front.len() {
                assert(front[k] == s);
                if s.id != id {
                    let j = choose|j: int| 0 <= j < rest.len() && rest[j] == s;
                    assert(without(subs, id)[j] == s);
                }
            } else if s.id != id {
                assert(rest.push(last)[rest.len() as int] == s);
            }
        }
        if without(subs, id).contains(s) {
            let k = choose|k: int| 0 <= k < without(subs, id).len() && without(subs, id)[k] == s;
            if k < rest.len() {
                assert(rest[k] == s);
                let j = choose|j: int| 0 <= j < front.len() && front[j] == s;
                assert(subs[j] == s);
            } else {
                assert(subs[subs.len() - 1] == s);
            }
        }
    }
}

/// A frame for the viewers carries the channel, the sequence number and the first
/// 1400 bytes of the payload, all of it where it is no longer.
pub proof fn law_media_frame_keeps_the_payload(
    m: MediaFrame,
    channel: u8,
    seq: u64,
    payload: Seq<u8>,
)
    requires
        carries(m, channel, seq, payload),
    ensures
        m.channel == channel,
        m.seq == seq,
        m.content().is_prefix_of(payload),
        payload.len() <= 1400 ==> m.content() == payload,
        payload.len() > 1400 ==> m.content().len() == 1400,
{
    assert(m.content() =~= payload.take(m.content().len() as int));
}

/// A frame that comes in for a unit is appended to the recording, sets the last
/// sequence number and the time the unit was last seen, and is published to the
/// viewers with its channel and its payload. The mode and the operator stay.
pub proof fn law_frames_are_recorded_and_published(
    before: Seq<UnitState<VecRecorder>>,
    after: Seq<UnitState<VecRecorder>>,
    id: u64,
    addr: String,
    frame: Frame,
    fresh: VecRecorder,
    now_ns: u64,
    r: Result<(), CloudErrorView>,
)
    requires
        ingests(before, after, id, addr, frame, fresh, now_ns, r),
    ensures
        r is Ok,
        unit_at(before, id) matches Some(i) ==> {
            &&& after.len() == before.len()
            &&& forall|j: int|
                0 <= j < before.len() && j != i ==> #[trigger] after[j] == before[j]
            &&& after[i].id == id && after[i].addr == addr
            &&& after[i].recorder@ == before[i].recorder@.push(frame)
            &&& after[i].last_seq == frame.seq
            &&& after[i].last_seen_ns == now_ns
            &&& after[i].mode == before[i].mode
            &&& after[i].assigned_operator == before[i].assigned_operator
            &&& exists|m: MediaFrame| #[trigger]
                carries(m, frame.channel, frame.seq, frame.payload) && after[i].sfu@ == published(
                    before[i].sfu@,
                    m,
                )
        },
        unit_at(before, id) is None ==> {
            &&& after.len() == before.len() + 1
            &&& after.drop_last() == before
            &&& after.last().id == id && after.last().addr == addr
            &&& after.last().recorder@ == fresh@.push(frame)
            &&& after.last().last_seq == frame.seq
            &&& after.last().last_seen_ns == now_ns
            &&& after.last().created_ns == now_ns
            &&& after.last().mode == Mode::Assist
            &&& after.last().assigned_operator is None
        },
{
    lemma_unit_at(before, id);
    match unit_at(before, id) {
        Some(i) => {
            assert(takes_in(UnitState { addr, ..before[i] }, after[i], frame, now_ns, r));
        },
        None => {
            let u = choose|u: UnitState<VecRecorder>| #[trigger]
                is_fresh(u, id, addr, fresh, now_ns) && takes_in(
                    u,
                    after.last(),
                    frame,
                    now_ns,
                    r,
                );
            assert(takes_in(u, after.last(), frame, now_ns, r));
        },
    }
}

/// A viewer reads its frames in the order in which they came, each once; the
/// queues of the others stay as they are.
pub proof fn law_frames_are_read_in_order(
    before: Seq<Subscriber>,
    middle: Seq<Subscriber>,
    after: Seq<Subscriber>,
    i: int,
    first: MediaFrame,
    second: MediaFrame,
    rest: Seq<MediaFrame>,
    r: Option<MediaFrame>,
    q: Option<MediaFrame>,
)
    requires
        one_each(before),
        0 <= i < before.len(),
        before[i].held,
        before[i].queue == seq![first, second] + rest,
        gives(before, middle, before[i].id, r),
        gives(middle, after, before[i].id, q),
    ensures
        r == Some(first),
        q == Some(second),
        after.len() == before.len(),
        after[i].queue == rest,
        forall|j: int| 0 <= j < before.len() && j != i ==> #[trigger] after[j] == before[j],
{
    let id = before[i].id;
    lemma_place_of(before, id);
    assert(place_of(before, id) == Some(i));
    assert(waits(before, id));
    let queue = before[i].queue;
    assert(queue[0] == first && queue[1] == second);
    assert(queue.drop_first() =~= seq![second] + rest);
    assert(middle[i].id == id);
    lemma_place_of(middle, id);
    let k = place_of(middle, id)->0;
    assert(k == i) by {
        if k != i {
            assert(middle[k] == before[k]);
        }
    }
    assert(waits(middle, id));
    assert((seq![second] + rest).drop_first() =~= rest);
}

} // verus!
