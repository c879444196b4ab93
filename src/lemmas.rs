use vstd::prelude::*;

use crate::gateway::{EventView, GatewayView, enqueue, index_consistent};

verus! {

/// The gateway after a run of subscribe (`true`) and unsubscribe (`false`)
/// requests on one (connection, channel) pair, all of them accepted.
pub open spec fn apply_requests(v: GatewayView, c: u64, ch: u64, reqs: Seq<bool>) -> GatewayView
    decreases reqs.len(),
{
    if reqs.len() == 0 {
        v
    } else {
        apply_requests(v, c, ch, reqs.drop_last()).with_subscription(c, ch, reqs.last())
    }
}

/// The gateway after each payload of `ps` is published on `ch`, in order.
pub open spec fn publish_all(v: GatewayView, ch: u64, ps: Seq<Seq<char>>) -> GatewayView
    decreases ps.len(),
{
    if ps.len() == 0 {
        v
    } else {
        publish_all(v, ch, ps.drop_last()).after_publish(ch, ps.last())
    }
}

/// The events a subscriber with room for `cap` events holds after the
/// payloads `ps` were published on `ch` after sequence number `start`:
/// the most recent `min(|ps|, cap)` of them, oldest first.
pub open spec fn recent_events(ch: u64, start: nat, ps: Seq<Seq<char>>, cap: nat) -> Seq<EventView> {
    let n = ps.len();
    let m = if n < cap { n } else { cap };
    Seq::new(
        m,
        |i: int| EventView { channel: ch, seq: (start + n - m + i + 1) as u64, payload: ps[n - m + i] },
    )
}

/// Of two requests on the same pair, the later one decides the outcome.
pub proof fn lemma_later_request_wins(v: GatewayView, c: u64, ch: u64, a: bool, b: bool)
    requires
        (c as int) < v.conns.len(),
        (ch as int) < v.chans.len(),
    ensures
        v.with_subscription(c, ch, a).with_subscription(c, ch, b) == v.with_subscription(c, ch, b),
{
    let s = v.conns[c as int].channels;
    let t = v.chans[ch as int].subscribers;
    assert(s.insert(ch).insert(ch) =~= s.insert(ch));
    assert(s.remove(ch).insert(ch) =~= s.insert(ch));
    assert(s.insert(ch).remove(ch) =~= s.remove(ch));
    assert(s.remove(ch).remove(ch) =~= s.remove(ch));
    assert(t.insert(c).insert(c) =~= t.insert(c));
    assert(t.remove(c).insert(c) =~= t.insert(c));
    assert(t.insert(c).remove(c) =~= t.remove(c));
    assert(t.remove(c).remove(c) =~= t.remove(c));
    let x = v.with_subscription(c, ch, a).with_subscription(c, ch, b);
    let y = v.with_subscription(c, ch, b);
    assert(x.conns =~= y.conns);
    assert(x.chans =~= y.chans);
}

/// Any non-empty run of requests on one pair has the effect of its last request alone.
pub proof fn lemma_net_effect(v: GatewayView, c: u64, ch: u64, reqs: Seq<bool>)
    requires
        (c as int) < v.conns.len(),
        (ch as int) < v.chans.len(),
        reqs.len() > 0,
    ensures
        apply_requests(v, c, ch, reqs) == v.with_subscription(c, ch, reqs.last()),
        apply_requests(v, c, ch, reqs).conns[c as int].channels.contains(ch) == reqs.last(),
        apply_requests(v, c, ch, reqs).chans[ch as int].subscribers.contains(c) == reqs.last(),
    decreases reqs.len(),
{
    let rest = reqs.drop_last();
    if rest.len() == 0 {
        assert(apply_requests(v, c, ch, rest) == v);
    } else {
        lemma_net_effect(v, c, ch, rest);
        lemma_later_request_wins(v, c, ch, rest.last(), reqs.last());
    }
}

/// Subscribing to a channel the connection already follows changes nothing.
pub proof fn lemma_subscribe_idempotent(v: GatewayView, c: u64, ch: u64)
    requires
        index_consistent(v),
        (c as int) < v.conns.len(),
        (ch as int) < v.chans.len(),
        v.conns[c as int].channels.contains(ch),
    ensures
        v.with_subscription(c, ch, true) == v,
{
    assert(v.chans[ch as int].subscribers.contains(c));
    assert(v.conns[c as int].channels.insert(ch) =~= v.conns[c as int].channels);
    assert(v.chans[ch as int].subscribers.insert(c) =~= v.chans[ch as int].subscribers);
    assert(v.with_subscription(c, ch, true).conns =~= v.conns);
    assert(v.with_subscription(c, ch, true).chans =~= v.chans);
}

/// Unsubscribing from a channel the connection does not follow changes nothing.
pub proof fn lemma_unsubscribe_absent(v: GatewayView, c: u64, ch: u64)
    requires
        index_consistent(v),
        (c as int) < v.conns.len(),
        (ch as int) < v.chans.len(),
        !v.conns[c as int].channels.contains(ch),
    ensures
        v.with_subscription(c, ch, false) == v,
{
    assert(!v.chans[ch as int].subscribers.contains(c));
    assert(v.conns[c as int].channels.remove(ch) =~= v.conns[c as int].channels);
    assert(v.chans[ch as int].subscribers.remove(c) =~= v.chans[ch as int].subscribers);
    assert(v.with_subscription(c, ch, false).conns =~= v.conns);
    assert(v.with_subscription(c, ch, false).chans =~= v.chans);
}

/// A subscriber that starts with an empty queue holds, after any run of
/// publications on the channel, the most recent events up to its queue's
/// capacity, with consecutive sequence numbers and in publication order.
pub proof fn lemma_published_events_delivered(v: GatewayView, c: u64, ch: u64, ps: Seq<Seq<char>>)
    requires
        v.capacity > 0,
        (c as int) < v.conns.len(),
        (ch as int) < v.chans.len(),
        v.chans[ch as int].subscribers.contains(c),
        v.conns[c as int].queue.len() == 0,
        v.chans[ch as int].last_seq + ps.len() <= u64::MAX,
    ensures
        publish_all(v, ch, ps).capacity == v.capacity,
        publish_all(v, ch, ps).conns.len() == v.conns.len(),
        publish_all(v, ch, ps).chans.len() == v.chans.len(),
        publish_all(v, ch, ps).chans[ch as int].subscribers == v.chans[ch as int].subscribers,
        publish_all(v, ch, ps).chans[ch as int].last_seq == v.chans[ch as int].last_seq + ps.len(),
        publish_all(v, ch, ps).conns[c as int].queue == recent_events(
            ch,
            v.chans[ch as int].last_seq,
            ps,
            v.capacity,
        ),
    decreases ps.len(),
{
    let start = v.chans[ch as int].last_seq;
    let cap = v.capacity;
    let n = ps.len();
    if n == 0 {
        assert(recent_events(ch, start, ps, cap) =~= Seq::<EventView>::empty());
    } else {
        let rest = ps.drop_last();
        lemma_published_events_delivered(v, c, ch, rest);
        let w = publish_all(v, ch, rest);
        let q = w.conns[c as int].queue;
        let ev = EventView { channel: ch, seq: (start + n) as u64, payload: ps.last() };
        assert(publish_all(v, ch, ps) == w.after_publish(ch, ps.last()));
        assert(publish_all(v, ch, ps).conns[c as int].queue == enqueue(q, ev, cap));
        let goal = recent_events(ch, start, ps, cap);
        assert(q == recent_events(ch, start, rest, cap));
        if n - 1 < cap {
            assert(enqueue(q, ev, cap) =~= goal);
        } else {
            assert(enqueue(q, ev, cap) =~= goal);
        }
    }
}

/// Publishing `N` events, no more than the queue holds, to a subscriber with
/// an empty queue on a fresh channel delivers all `N`, in order, numbered `1..N`.
pub proof fn lemma_all_delivered_in_order(v: GatewayView, c: u64, ch: u64, ps: Seq<Seq<char>>)
    requires
        v.capacity > 0,
        (c as int) < v.conns.len(),
        (ch as int) < v.chans.len(),
        v.chans[ch as int].subscribers.contains(c),
        v.conns[c as int].queue.len() == 0,
        v.chans[ch as int].last_seq == 0,
        ps.len() <= v.capacity,
        ps.len() <= u64::MAX,
    ensures
        publish_all(v, ch, ps).conns[c as int].queue.len() == ps.len(),
        forall|i: int|
            0 <= i < ps.len() ==> #[trigger] publish_all(v, ch, ps).conns[c as int].queue[i] == (
            EventView { channel: ch, seq: (i + 1) as u64, payload: ps[i] }),
{
    lemma_published_events_delivered(v, c, ch, ps);
}

/// Publishing `N` events to a subscriber with an empty queue of capacity
/// `K <= N` leaves exactly the most recent `K`; the first of them is numbered
/// one past the `N - K` events that were dropped.
pub proof fn lemma_overflow_keeps_most_recent(v: GatewayView, c: u64, ch: u64, ps: Seq<Seq<char>>)
    requires
        v.capacity > 0,
        (c as int) < v.conns.len(),
        (ch as int) < v.chans.len(),
        v.chans[ch as int].subscribers.contains(c),
        v.conns[c as int].queue.len() == 0,
        v.chans[ch as int].last_seq == 0,
        ps.len() <= u64::MAX,
        ps.len() >= v.capacity,
    ensures
        publish_all(v, ch, ps).conns[c as int].queue.len() == v.capacity,
        publish_all(v, ch, ps).conns[c as int].queue[0].seq == ps.len() - v.capacity + 1,
        forall|i: int|
            0 <= i < v.capacity ==> #[trigger] publish_all(v, ch, ps).conns[c as int].queue[i] == (
            EventView {
                channel: ch,
                seq: (ps.len() - v.capacity + i + 1) as u64,
                payload: ps[ps.len() - v.capacity + i],
            }),
{
    lemma_published_events_delivered(v, c, ch, ps);
}

/// Once a connection is closed no channel lists it, and publishing on any
/// channel leaves it untouched.
pub proof fn lemma_closed_connection_receives_nothing(
    v: GatewayView,
    c: u64,
    ch: u64,
    payload: Seq<char>,
)
    requires
        (c as int) < v.conns.len(),
        (ch as int) < v.chans.len(),
    ensures
        !v.without_connection(c).chans[ch as int].subscribers.contains(c),
        v.without_connection(c).after_publish(ch, payload).conns[c as int] == v.without_connection(
            c,
        ).conns[c as int],
{
}

} // verus!
