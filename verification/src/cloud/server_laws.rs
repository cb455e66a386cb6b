//! What becomes of the connections of the server.
use vstd::prelude::*;
use crate::cloud::http::{request_in, HttpError, RequestView};
use crate::cloud::server::{
    awake, conn_at, idle_tokens, is_idle, others, served, unwatched, verdict_on, Connection,
    PendingWork, ServiceView,
};
use crate::runtime::eventloop::{delivers, Event, EventHandler, Token};

verus! {

/// A connection is found under its own token.
pub proof fn lemma_conn_at(conns: Seq<Connection>, token: Token)
    ensures
        match conn_at(conns, token) {
            Some(i) => 0 <= i < conns.len() && conns[i].token == token,
            None => forall|j: int| 0 <= j < conns.len() ==> (#[trigger] conns[j]).token != token,
        },
    decreases conns.len(),
{
    if conns.len() > 0 && conns.last().token != token {
        lemma_conn_at(conns.drop_last(), token);
        if conn_at(conns, token) is None {
            assert forall|j: int| 0 <= j < conns.len() implies (#[trigger] conns[j]).token
                != token by {
                if j < conns.len() - 1 {
                    assert(conns.drop_last()[j].token != token);
                }
            }
        }
    }
}

/// Every token stands for one connection.
pub open spec fn tokens_differ(conns: Seq<Connection>) -> bool {
    forall|i: int, j: int|
        0 <= i < j < conns.len() ==> (#[trigger] conns[i]).token != (#[trigger] conns[j]).token
}

/// Serving a connection that its peer ended closes it. One that is still open is
/// closed where it sent more than a mebibyte without a complete request or what
/// no request can start with, is kept with all its bytes where more is to come,
/// and is closed once its request is complete and is to be served. No other
/// connection is touched.
pub proof fn law_serving_one_connection(
    conns: Seq<Connection>,
    i: int,
    data: Seq<u8>,
    ended: bool,
    now_ns: u64,
)
    requires
        tokens_differ(conns),
        0 <= i < conns.len(),
    ensures
        ({
            let all = conns[i].buffered + data;
            let after = served(conns, conns[i].token, data, ended, now_ns);
            let verdict = verdict_on(all, ended);
            &&& ended ==> verdict is Close
            &&& all.len() > 0x10_0000 ==> verdict is Close
            &&& !ended && all.len() <= 0x10_0000 ==> {
                &&& verdict is Close <==> request_in(all) is Err
                &&& verdict is Wait <==> request_in(all) == Ok::<
                    Option<(RequestView, int)>,
                    HttpError,
                >(None)
                &&& verdict matches ServiceView::Serve(req) ==> (request_in(all) matches Ok(
                    Some((r, n)),
                ) && r == req)
            }
            &&& !(verdict is Wait) ==> after == conns.remove(i)
            &&& verdict is Wait ==> {
                &&& after.len() == conns.len()
                &&& after[i].buffered == all
                &&& after[i].token == conns[i].token && after[i].registered == conns[i].registered
                &&& data.len() > 0 ==> after[i].last_active_ns == now_ns
                &&& data.len() == 0 ==> after[i].last_active_ns == conns[i].last_active_ns
                &&& forall|j: int|
                    0 <= j < conns.len() && j != i ==> #[trigger] after[j] == conns[j]
            }
        }),
{
    lemma_conn_at(conns, conns[i].token);
    assert(conn_at(conns, conns[i].token) == Some(i));
}

/// A connection is idle once more than the time allowed has passed since it was
/// last active, and not before.
pub proof fn law_idle_after_the_timeout(c: Connection, timeout_ns: u64, later: u64)
    requires
        c.last_active_ns + timeout_ns + later <= u64::MAX,
    ensures
        is_idle(c, (c.last_active_ns + timeout_ns + later) as u64, timeout_ns) <==> later > 0,
        !is_idle(c, c.last_active_ns, timeout_ns),
{
}

/// The tokens of the connections that a sweep closes are those of the idle ones,
/// and the connections that stay keep their order.
pub proof fn law_sweep_names_the_idle(
    conns: Seq<Connection>,
    more: Seq<Connection>,
    now_ns: u64,
    timeout_ns: u64,
    c: Connection,
)
    ensures
        idle_tokens(conns + more, now_ns, timeout_ns) == idle_tokens(conns, now_ns, timeout_ns)
            + idle_tokens(more, now_ns, timeout_ns),
        awake(conns + more, now_ns, timeout_ns) == awake(conns, now_ns, timeout_ns) + awake(
            more,
            now_ns,
            timeout_ns,
        ),
        idle_tokens(seq![c], now_ns, timeout_ns) == (if now_ns > c.last_active_ns + timeout_ns {
            seq![c.token]
        } else {
            Seq::empty()
        }),
        awake(seq![c], now_ns, timeout_ns) == (if now_ns > c.last_active_ns + timeout_ns {
            Seq::empty()
        } else {
            seq![c]
        }),
    decreases more.len(),
{
    let one = seq![c];
    assert(one.drop_last() =~= Seq::<Connection>::empty());
    assert(one.last() == c);
    assert(idle_tokens(one.drop_last(), now_ns, timeout_ns) =~= Seq::<Token>::empty());
    assert(awake(one.drop_last(), now_ns, timeout_ns) =~= Seq::<Connection>::empty());
    assert(idle_tokens(one, now_ns, timeout_ns) =~= if is_idle(c, now_ns, timeout_ns) {
        seq![c.token]
    } else {
        Seq::empty()
    });
    assert(awake(one, now_ns, timeout_ns) =~= if is_idle(c, now_ns, timeout_ns) {
        Seq::empty()
    } else {
        seq![c]
    });
    if more.len() == 0 {
        assert(conns + more =~= conns);
        assert(idle_tokens(more, now_ns, timeout_ns) =~= Seq::<Token>::empty());
        assert(awake(more, now_ns, timeout_ns) =~= Seq::<Connection>::empty());
    } else {
        law_sweep_names_the_idle(conns, more.drop_last(), now_ns, timeout_ns, c);
        assert((conns + more).drop_last() =~= conns + more.drop_last());
        assert((conns + more).last() == more.last());
        assert(idle_tokens(conns + more, now_ns, timeout_ns) =~= idle_tokens(
            conns,
            now_ns,
            timeout_ns,
        ) + idle_tokens(more, now_ns, timeout_ns));
        assert(awake(conns + more, now_ns, timeout_ns) =~= awake(conns, now_ns, timeout_ns)
            + awake(more, now_ns, timeout_ns));
    }
}

/// The connections still to be watched are those not registered yet, in order,
/// and dropping a token keeps the connections of all others, in order.
pub proof fn law_unwatched_are_unregistered(
    conns: Seq<Connection>,
    more: Seq<Connection>,
    c: Connection,
    token: Token,
)
    ensures
        unwatched(conns + more) == unwatched(conns) + unwatched(more),
        unwatched(seq![c]) == (if c.registered {
            Seq::empty()
        } else {
            seq![c.token]
        }),
        others(conns + more, token) == others(conns, token) + others(more, token),
        others(seq![c], token) == (if c.token == token {
            Seq::empty()
        } else {
            seq![c]
        }),
    decreases more.len(),
{
    let one = seq![c];
    assert(one.drop_last() =~= Seq::<Connection>::empty());
    assert(one.last() == c);
    assert(unwatched(one.drop_last()) =~= Seq::<Token>::empty());
    assert(others(one.drop_last(), token) =~= Seq::<Connection>::empty());
    assert(unwatched(one) =~= if c.registered {
        Seq::empty()
    } else {
        seq![c.token]
    });
    assert(others(one, token) =~= if c.token == token {
        Seq::empty()
    } else {
        seq![c]
    });
    if more.len() == 0 {
        assert(conns + more =~= conns);
        assert(unwatched(more) =~= Seq::<Token>::empty());
        assert(others(more, token) =~= Seq::<Connection>::empty());
    } else {
        law_unwatched_are_unregistered(conns, more.drop_last(), c, token);
        assert((conns + more).drop_last() =~= conns + more.drop_last());
        assert((conns + more).last() == more.last());
        assert(unwatched(conns + more) =~= unwatched(conns) + unwatched(more));
        assert(others(conns + more, token) =~= others(conns, token) + others(more, token));
    }
}

/// What is ready to read is put down in the order of its events: the listener, the
/// token 0, as connections to accept, and every other token as a connection to
/// serve. What is not ready to read is left.
pub proof fn law_ready_work_keeps_its_order(before: PendingWork, after: PendingWork, e: Event)
    requires
        PendingWork::handles(before, after, e.token, e.ready),
    ensures
        e.ready.0 % 2 == 0 ==> after.accept == before.accept && after.service@ == before.service@,
        e.ready.0 % 2 == 1 && e.token == 0 ==> after.accept && after.service@ == before.service@,
        e.ready.0 % 2 == 1 && e.token != 0 ==> after.accept == before.accept && after.service@
            == before.service@ + seq![e.token],
{
    let b = e.ready.0;
    assert(b & 1 != 0 <==> b % 2 == 1) by (bit_vector);
    assert(before.service@.push(e.token) =~= before.service@ + seq![e.token]);
}

/// Events are delivered in their order: those that are all ready to read, for
/// connections, are put down one behind the other.
pub proof fn law_events_are_delivered_in_order(
    before: PendingWork,
    after: PendingWork,
    events: Seq<Event>,
)
    requires
        delivers(before, after, events),
        forall|i: int|
            0 <= i < events.len() ==> (#[trigger] events[i]).ready.0 % 2 == 1 && events[i].token
                != 0,
    ensures
        after.service@ == before.service@ + events.map_values(|e: Event| e.token),
    decreases events.len(),
{
    if events.len() == 0 {
        assert(after.service@ =~= before.service@ + events.map_values(|e: Event| e.token));
    } else {
        let e = events.last();
        let front = events.drop_last();
        let mid = choose|mid: PendingWork| #[trigger]
            PendingWork::handles(mid, after, e.token, e.ready) && delivers(before, mid, front);
        assert forall|i: int| 0 <= i < front.len() implies (#[trigger] front[i]).ready.0 % 2 == 1
            && front[i].token != 0 by {
            assert(front[i] == events[i]);
        }
        law_events_are_delivered_in_order(before, mid, front);
        assert(events[events.len() - 1] == e);
        law_ready_work_keeps_its_order(mid, after, e);
        assert(events.map_values(|e: Event| e.token) =~= front.map_values(|e: Event| e.token).push(
            e.token,
        ));
        assert(after.service@ =~= before.service@ + events.map_values(|e: Event| e.token));
    }
}

} // verus!
