use vstd::prelude::*;

verus! {

/// Lifecycle of one client connection.
#[derive(Clone, Copy, Debug, PartialEq, Eq, Structural)]
pub enum SessionState {
    /// Transport is up, no valid token presented yet.
    Connecting,
    /// A valid token was presented; subscriptions and deliveries are allowed.
    Authenticated,
    /// Terminal state: all subscriptions and queued events are gone.
    Closed,
}

/// Errors reported by the gateway to the client that made a request.
#[derive(Clone, Copy, Debug, PartialEq, Eq, Structural)]
pub enum GatewayError {
    /// The presented token was rejected; the connection was closed.
    AuthenticationFailed,
    /// The user may not read the requested channel; nothing changed.
    PermissionDenied,
    /// The request named a channel that does not exist; nothing changed.
    NotFound,
    /// No token arrived within the handshake window; the connection was closed.
    HandshakeTimeout,
    /// The connection is unknown or not in a state that allows the request.
    NotConnected,
}

/// One event on its way to a client.
pub struct Event {
    pub channel: u64,
    pub seq: u64,
    pub payload: String,
}

pub struct EventView {
    pub channel: u64,
    pub seq: u64,
    pub payload: Seq<char>,
}

impl View for Event {
    type V = EventView;

    open spec fn view(&self) -> EventView {
        EventView { channel: self.channel, seq: self.seq, payload: self.payload@ }
    }
}

/// Abstract state of one connection.
pub struct ConnView {
    pub state: SessionState,
    pub user: Option<u64>,
    pub channels: Set<u64>,
    pub queue: Seq<EventView>,
}

/// Abstract state of one channel.
pub struct ChanView {
    pub name: Seq<char>,
    pub last_seq: nat,
    pub subscribers: Set<u64>,
}

/// Abstract state of the whole gateway.
pub struct GatewayView {
    pub capacity: nat,
    pub conns: Seq<ConnView>,
    pub chans: Seq<ChanView>,
}

/// The outbound queue after adding `e`: when the queue is full, the oldest
/// pending event is dropped to make room.
pub open spec fn enqueue(q: Seq<EventView>, e: EventView, cap: nat) -> Seq<EventView> {
    if q.len() < cap {
        q.push(e)
    } else {
        q.drop_first().push(e)
    }
}

/// Each connection is listed by a channel exactly when it lists that channel.
pub open spec fn index_consistent(v: GatewayView) -> bool {
    forall|c: u64, ch: u64|
        (c as int) < v.conns.len() && (ch as int) < v.chans.len() ==> (
        #[trigger] v.conns[c as int].channels.contains(ch)
            <==> #[trigger] v.chans[ch as int].subscribers.contains(c))
}

impl GatewayView {
    /// `c` names a connection that is waiting for its handshake.
    pub open spec fn is_connecting(self, c: u64) -> bool {
        (c as int) < self.conns.len() && self.conns[c as int].state == SessionState::Connecting
    }

    /// `c` names a connection that may subscribe and receive events.
    pub open spec fn is_authenticated(self, c: u64) -> bool {
        (c as int) < self.conns.len() && self.conns[c as int].state == SessionState::Authenticated
    }

    /// `ch` names a known channel.
    pub open spec fn has_channel(self, ch: u64) -> bool {
        (ch as int) < self.chans.len()
    }

    /// The gateway with connection `c` moved to `state`, owned by `user`.
    pub open spec fn with_state(self, c: u64, state: SessionState, user: Option<u64>) -> GatewayView {
        GatewayView {
            conns: self.conns.update(c as int, ConnView { state, user, ..self.conns[c as int] }),
            ..self
        }
    }

    /// The gateway with the pair (`c`, `ch`) present (`on`) or absent in both
    /// directions of the subscription index.
    pub open spec fn with_subscription(self, c: u64, ch: u64, on: bool) -> GatewayView {
        let conn = self.conns[c as int];
        let chan = self.chans[ch as int];
        GatewayView {
            conns: self.conns.update(
                c as int,
                ConnView {
                    channels: if on {
                        conn.channels.insert(ch)
                    } else {
                        conn.channels.remove(ch)
                    },
                    ..conn
                },
            ),
            chans: self.chans.update(
                ch as int,
                ChanView {
                    subscribers: if on {
                        chan.subscribers.insert(c)
                    } else {
                        chan.subscribers.remove(c)
                    },
                    ..chan
                },
            ),
            ..self
        }
    }

    /// `c` names a connection that has not been closed.
    pub open spec fn is_open(self, c: u64) -> bool {
        (c as int) < self.conns.len() && self.conns[c as int].state != SessionState::Closed
    }

    /// `c` names a connection with at least one event waiting for delivery.
    pub open spec fn has_pending(self, c: u64) -> bool {
        (c as int) < self.conns.len() && self.conns[c as int].queue.len() > 0
    }

    /// The gateway after connection `c` is closed: no queue, no subscriptions,
    /// and no channel lists it any more.
    pub open spec fn without_connection(self, c: u64) -> GatewayView {
        GatewayView {
            conns: self.conns.update(
                c as int,
                ConnView {
                    state: SessionState::Closed,
                    channels: Set::empty(),
                    queue: Seq::empty(),
                    ..self.conns[c as int]
                },
            ),
            chans: Seq::new(
                self.chans.len(),
                |y: int| ChanView { subscribers: self.chans[y].subscribers.remove(c), ..self.chans[y] },
            ),
            ..self
        }
    }

    /// The gateway after `payload` is published on `ch`: the channel's counter
    /// moves on by one and each subscriber's queue takes the event.
    pub open spec fn after_publish(self, ch: u64, payload: Seq<char>) -> GatewayView {
        let chan = self.chans[ch as int];
        let seq = chan.last_seq + 1;
        let ev = EventView { channel: ch, seq: seq as u64, payload };
        GatewayView {
            conns: Seq::new(
                self.conns.len(),
                |d: int|
                    if chan.subscribers.contains(d as u64) {
                        ConnView {
                            queue: enqueue(self.conns[d].queue, ev, self.capacity),
                            ..self.conns[d]
                        }
                    } else {
                        self.conns[d]
                    },
            ),
            chans: self.chans.update(ch as int, ChanView { last_seq: seq, ..chan }),
            ..self
        }
    }

    /// The gateway after the oldest pending event of `c` has been handed out.
    pub open spec fn after_delivery(self, c: u64) -> GatewayView {
        GatewayView {
            conns: self.conns.update(
                c as int,
                ConnView { queue: self.conns[c as int].queue.drop_first(), ..self.conns[c as int] },
            ),
            ..self
        }
    }
}

/// Adds `e` at the back of a bounded queue, dropping the front when it is full.
fn deliver(q: &mut Vec<Event>, e: Event, cap: usize)
    requires
        cap > 0,
        old(q)@.len() <= cap,
    ensures
        final(q)@.len() <= cap,
        final(q)@.map_values(|x: Event| x@) == enqueue(old(q)@.map_values(|x: Event| x@), e@, cap as nat),
{
    let ghost was = q@.map_values(|x: Event| x@);
    if q.len() >= cap {
        q.remove(0);
        assert(q@.map_values(|x: Event| x@) =~= was.drop_first());
    }
    let ghost mid = q@.map_values(|x: Event| x@);
    q.push(e);
    assert(q@.map_values(|x: Event| x@) =~= mid.push(e@));
}

/// The first `k + 1` items of `s` hold what the first `k` hold, and `s[k]`.
proof fn lemma_prefix_contains(s: Seq<u64>, k: int)
    requires
        0 <= k < s.len(),
    ensures
        forall|x: u64| #[trigger]
            s.subrange(0, k + 1).contains(x) == (s.subrange(0, k).contains(x) || x == s[k]),
{
    let s0 = s.subrange(0, k);
    let s1 = s.subrange(0, k + 1);
    assert forall|x: u64| #[trigger] s1.contains(x) == (s0.contains(x) || x == s[k]) by {
        if s1.contains(x) {
            let z = choose|z: int| 0 <= z < s1.len() && s1[z] == x;
            if z < k {
                assert(s0[z] == x);
            }
        }
        if s0.contains(x) {
            let z = choose|z: int| 0 <= z < s0.len() && s0[z] == x;
            assert(s1[z] == x);
        }
        if x == s[k] {
            assert(s1[k] == x);
        }
    }
}

/// Position of `x` in `v`, if it occurs.
fn find(v: &Vec<u64>, x: u64) -> (r: Option<usize>)
    ensures
        r matches Some(i) ==> i < v@.len() && v@[i as int] == x,
        r is None ==> !v@.contains(x),
{
    let mut i: usize = 0;
    while i < v.len()
        invariant
            i <= v@.len(),
            forall|j: int| 0 <= j < i ==> v@[j] != x,
        decreases v@.len() - i,
    {
        if v[i] == x {
            return Some(i);
        }
        i = i + 1;
    }
    None
}

/// Removes `x` from a list without duplicates.
fn remove_value(v: &mut Vec<u64>, x: u64)
    requires
        old(v)@.no_duplicates(),
    ensures
        final(v)@.no_duplicates(),
        forall|y: u64| #[trigger] final(v)@.contains(y) <==> (old(v)@.contains(y) && y != x),
        final(v)@.len() <= old(v)@.len(),
{
    match find(v, x) {
        None => {},
        Some(i) => {
            let ghost s = v@;
            v.remove(i);
            let ghost t = v@;
            assert(t =~= s.remove(i as int));
            assert forall|y: u64| #[trigger] t.contains(y) <==> (s.contains(y) && y != x) by {
                if t.contains(y) {
                    let j = choose|j: int| 0 <= j < t.len() && t[j] == y;
                    if j < i {
                        assert(s[j] == y);
                    } else {
                        assert(s[j + 1] == y);
                    }
                }
                if s.contains(y) && y != x {
                    let j = choose|j: int| 0 <= j < s.len() && s[j] == y;
                    if j < i {
                        assert(t[j] == y);
                    } else {
                        assert(j != i);
                        assert(t[j - 1] == y);
                    }
                }
            }
            assert forall|a: int, b: int| 0 <= a < t.len() && 0 <= b < t.len() && a != b implies t[a]
                != t[b] by {
                let a2 = if a < i { a } else { a + 1 };
                let b2 = if b < i { b } else { b + 1 };
                assert(t[a] == s[a2] && t[b] == s[b2]);
            }
        },
    }
}

/// Adds `x` to a list without duplicates, unless it is there already.
fn insert_value(v: &mut Vec<u64>, x: u64)
    requires
        old(v)@.no_duplicates(),
    ensures
        final(v)@.no_duplicates(),
        forall|y: u64| #[trigger] final(v)@.contains(y) <==> (old(v)@.contains(y) || y == x),
{
    match find(v, x) {
        Some(_) => {},
        None => {
            let ghost s = v@;
            v.push(x);
            assert(v@[s.len() as int] == x);
            assert forall|y: u64| #[trigger] v@.contains(y) <==> (s.contains(y) || y == x) by {
                if v@.contains(y) {
                    let j = choose|j: int| 0 <= j < v@.len() && v@[j] == y;
                    if j < s.len() {
                        assert(s[j] == y);
                    }
                }
                if s.contains(y) {
                    let j = choose|j: int| 0 <= j < s.len() && s[j] == y;
                    assert(v@[j] == y);
                }
            }
        },
    }
}

struct Connection {
    state: SessionState,
    user: Option<u64>,
    channels: Vec<u64>,
    queue: Vec<Event>,
}

impl View for Connection {
    type V = ConnView;

    closed spec fn view(&self) -> ConnView {
        ConnView {
            state: self.state,
            user: self.user,
            channels: Set::new(|ch: u64| self.channels@.contains(ch)),
            queue: self.queue@.map_values(|e: Event| e@),
        }
    }
}

struct ChannelEntry {
    name: String,
    last_seq: u64,
    subscribers: Vec<u64>,
}

impl View for ChannelEntry {
    type V = ChanView;

    closed spec fn view(&self) -> ChanView {
        ChanView {
            name: self.name@,
            last_seq: self.last_seq as nat,
            subscribers: Set::new(|c: u64| self.subscribers@.contains(c)),
        }
    }
}

/// Connection registry, subscription index and event dispatcher in one
/// explicitly constructed shared-state object. Connection ids are indices
/// into the registry and are never handed out twice; channel ids likewise.
pub struct Gateway {
    capacity: usize,
    conns: Vec<Connection>,
    chans: Vec<ChannelEntry>,
}

impl View for Gateway {
    type V = GatewayView;

    closed spec fn view(&self) -> GatewayView {
        GatewayView {
            capacity: self.capacity as nat,
            conns: self.conns@.map_values(|c: Connection| c@),
            chans: self.chans@.map_values(|c: ChannelEntry| c@),
        }
    }
}

impl Gateway {
    closed spec fn conn_has(&self, c: u64, ch: u64) -> bool {
        self.conns@[c as int].channels@.contains(ch)
    }

    closed spec fn chan_has(&self, ch: u64, c: u64) -> bool {
        self.chans@[ch as int].subscribers@.contains(c)
    }

    /// The registry and the subscription index agree and stay within bounds.
    pub closed spec fn wf(&self) -> bool {
        &&& self.capacity > 0
        &&& forall|c: int|
            0 <= c < self.conns@.len() ==> {
                let conn = #[trigger] self.conns@[c];
                &&& conn.channels@.no_duplicates()
                &&& conn.queue@.len() <= self.capacity
                &&& conn.state != SessionState::Authenticated ==> conn.channels@.len() == 0
                    && conn.queue@.len() == 0
            }
        &&& forall|ch: int|
            0 <= ch < self.chans@.len() ==> (#[trigger] self.chans@[ch]).subscribers@.no_duplicates()
        &&& forall|c: u64, ch: u64|
            (c as int) < self.conns@.len() && #[trigger] self.conn_has(c, ch) ==> (ch as int)
                < self.chans@.len()
        &&& forall|ch: u64, c: u64|
            (ch as int) < self.chans@.len() && #[trigger] self.chan_has(ch, c) ==> (c as int)
                < self.conns@.len()
        &&& forall|c: u64, ch: u64|
            (c as int) < self.conns@.len() && (ch as int) < self.chans@.len() ==> (
            #[trigger] self.conn_has(c, ch) <==> #[trigger] self.chan_has(ch, c))
    }

    /// In every well-formed gateway a connection is listed by a channel
    /// exactly when the connection lists that channel.
    pub proof fn lemma_index_consistent(&self)
        requires
            self.wf(),
        ensures
            index_consistent(self@),
    {
        assert forall|c: u64, ch: u64|
            (c as int) < self@.conns.len() && (ch as int) < self@.chans.len() implies (
            self@.conns[c as int].channels.contains(ch)
                <==> self@.chans[ch as int].subscribers.contains(c)) by {
            assert(self.conn_has(c, ch) <==> self.chan_has(ch, c));
        }
    }

    /// An empty gateway whose outbound queues hold at most `capacity` events.
    pub fn new(capacity: usize) -> (r: Gateway)
        requires
            capacity > 0,
        ensures
            r.wf(),
            r@.capacity == capacity as nat,
            r@.conns.len() == 0,
            r@.chans.len() == 0,
    {
        let r = Gateway { capacity, conns: Vec::new(), chans: Vec::new() };
        assert(r@.conns =~= Seq::<ConnView>::empty());
        assert(r@.chans =~= Seq::<ChanView>::empty());
        r
    }
    /// Registers a new transport connection: a fresh id, an empty outbound
    /// queue, no owning user until the handshake completes.
    pub fn register(&mut self) -> (r: u64)
        requires
            old(self).wf(),
            old(self)@.conns.len() < u64::MAX,
        ensures
            final(self).wf(),
            r as int == old(self)@.conns.len(),
            final(self)@ == (GatewayView {
                conns: old(self)@.conns.push(
                    ConnView {
                        state: SessionState::Connecting,
                        user: None,
                        channels: Set::empty(),
                        queue: Seq::empty(),
                    },
                ),
                ..old(self)@
            }),
    {
        let r = self.conns.len() as u64;
        let conn = Connection {
            state: SessionState::Connecting,
            user: None,
            channels: Vec::new(),
            queue: Vec::new(),
        };
        self.conns.push(conn);
        assert(conn@.channels =~= Set::<u64>::empty());
        assert(conn@.queue =~= Seq::<EventView>::empty());
        assert(self@.conns =~= old(self)@.conns.push(conn@));
        assert forall|c: u64, ch: u64|
            (c as int) < self.conns@.len() && #[trigger] self.conn_has(c, ch) implies (ch as int)
                < self.chans@.len() by {
            assert(old(self).conn_has(c, ch));
        }
        assert forall|ch: u64, c: u64|
            (ch as int) < self.chans@.len() && #[trigger] self.chan_has(ch, c) implies (c as int)
                < self.conns@.len() by {
            assert(old(self).chan_has(ch, c));
        }
        assert forall|c: u64, ch: u64|
            (c as int) < self.conns@.len() && (ch as int) < self.chans@.len() implies (
            #[trigger] self.conn_has(c, ch) <==> #[trigger] self.chan_has(ch, c)) by {
            assert(self.chan_has(ch, c) == old(self).chan_has(ch, c));
            if (c as int) < old(self).conns@.len() {
                assert(self.conn_has(c, ch) == old(self).conn_has(c, ch));
            } else {
                assert(!self.conn_has(c, ch));
                assert(!old(self).chan_has(ch, c));
            }
        }
        r
    }

    /// Makes a channel known to the gateway, with no events published yet.
    pub fn add_channel(&mut self, name: String) -> (r: u64)
        requires
            old(self).wf(),
            old(self)@.chans.len() < u64::MAX,
        ensures
            final(self).wf(),
            r as int == old(self)@.chans.len(),
            final(self)@ == (GatewayView {
                chans: old(self)@.chans.push(
                    ChanView { name: name@, last_seq: 0, subscribers: Set::empty() },
                ),
                ..old(self)@
            }),
    {
        let r = self.chans.len() as u64;
        let entry = ChannelEntry { name, last_seq: 0, subscribers: Vec::new() };
        assert(entry@.subscribers =~= Set::<u64>::empty());
        self.chans.push(entry);
        assert(self@.chans =~= old(self)@.chans.push(entry@));
        assert(self@.conns =~= old(self)@.conns);
        assert forall|c: u64, ch: u64|
            (c as int) < self.conns@.len() && #[trigger] self.conn_has(c, ch) implies (ch as int)
                < self.chans@.len() by {
            assert(old(self).conn_has(c, ch));
        }
        assert forall|ch: u64, c: u64|
            (ch as int) < self.chans@.len() && #[trigger] self.chan_has(ch, c) implies (c as int)
                < self.conns@.len() by {
            if (ch as int) < old(self).chans@.len() {
                assert(old(self).chan_has(ch, c));
            }
        }
        assert forall|c: u64, ch: u64|
            (c as int) < self.conns@.len() && (ch as int) < self.chans@.len() implies (
            #[trigger] self.conn_has(c, ch) <==> #[trigger] self.chan_has(ch, c)) by {
            assert(self.conn_has(c, ch) == old(self).conn_has(c, ch));
            if (ch as int) < old(self).chans@.len() {
                assert(self.chan_has(ch, c) == old(self).chan_has(ch, c));
            } else {
                assert(!self.chan_has(ch, c));
                assert(!old(self).conn_has(c, ch));
            }
        }
        r
    }
    /// Completes the handshake of connection `c`. `user` is what the identity
    /// service made of the presented token: `None` when it was rejected.
    pub fn authenticate(&mut self, c: u64, user: Option<u64>) -> (r: Result<(), GatewayError>)
        requires
            old(self).wf(),
        ensures
            final(self).wf(),
            !old(self)@.is_connecting(c) ==> r == Err::<(), GatewayError>(
                GatewayError::NotConnected,
            ) && final(self)@ == old(self)@,
            old(self)@.is_connecting(c) && user is None ==> r == Err::<(), GatewayError>(
                GatewayError::AuthenticationFailed,
            ) && final(self)@ == old(self)@.with_state(c, SessionState::Closed, None),
            old(self)@.is_connecting(c) && user is Some ==> r == Ok::<(), GatewayError>(())
                && final(self)@ == old(self)@.with_state(c, SessionState::Authenticated, user),
    {
        if c >= self.conns.len() as u64 || self.conns[c as usize].state != SessionState::Connecting {
            return Err(GatewayError::NotConnected);
        }
        match user {
            None => {
                self.set_state(c, SessionState::Closed, None);
                Err(GatewayError::AuthenticationFailed)
            },
            Some(u) => {
                self.set_state(c, SessionState::Authenticated, Some(u));
                Ok(())
            },
        }
    }

    /// Ends the handshake window of connection `c`: one that has not
    /// authenticated by now is closed with `HandshakeTimeout`; any other
    /// connection is left as it is.
    pub fn expire_handshake(&mut self, c: u64) -> (r: Result<(), GatewayError>)
        requires
            old(self).wf(),
        ensures
            final(self).wf(),
            !old(self)@.is_connecting(c) ==> r == Ok::<(), GatewayError>(()) && final(self)@
                == old(self)@,
            old(self)@.is_connecting(c) ==> r == Err::<(), GatewayError>(
                GatewayError::HandshakeTimeout,
            ) && final(self)@ == old(self)@.with_state(c, SessionState::Closed, None),
    {
        if c >= self.conns.len() as u64 || self.conns[c as usize].state != SessionState::Connecting {
            return Ok(());
        }
        self.set_state(c, SessionState::Closed, None);
        Err(GatewayError::HandshakeTimeout)
    }

    fn set_state(&mut self, c: u64, state: SessionState, user: Option<u64>)
        requires
            old(self).wf(),
            (c as int) < old(self)@.conns.len(),
            old(self)@.conns[c as int].state == SessionState::Connecting,
        ensures
            final(self).wf(),
            final(self)@ == old(self)@.with_state(c, state, user),
    {
        assert(self@.conns.len() == self.conns@.len());
        assert((c as int) < self.conns@.len());
        assert((c as int) < self.conns.len());
        let i = c as usize;
        let ghost prev = self.conns@[c as int];
        self.conns[i].state = state;
        self.conns[i].user = user;
        let ghost cur = self.conns@[c as int];
        assert(self.conns@ =~= old(self).conns@.update(c as int, cur));
        assert(cur@.channels =~= prev@.channels);
        assert(self@.conns =~= old(self)@.conns.update(
            c as int,
            ConnView { state, user, ..old(self)@.conns[c as int] },
        ));
        assert(self@.chans =~= old(self)@.chans);
        assert forall|d: u64, ch: u64| (d as int) < self.conns@.len() implies #[trigger] self.conn_has(d, ch)
            == old(self).conn_has(d, ch) by {}
        assert forall|ch: u64, d: u64| #[trigger] self.chan_has(ch, d) == old(self).chan_has(ch, d) by {}
    }
    /// Subscribes connection `c` to channel `ch`. `can_read` is the permission
    /// service's answer for the connection's user and `ch`. Subscribing twice
    /// is the same as subscribing once.
    pub fn subscribe(&mut self, c: u64, ch: u64, can_read: bool) -> (r: Result<(), GatewayError>)
        requires
            old(self).wf(),
        ensures
            final(self).wf(),
            !old(self)@.is_authenticated(c) ==> r == Err::<(), GatewayError>(
                GatewayError::NotConnected,
            ) && final(self)@ == old(self)@,
            old(self)@.is_authenticated(c) && !old(self)@.has_channel(ch) ==> r == Err::<
                (),
                GatewayError,
            >(GatewayError::NotFound) && final(self)@ == old(self)@,
            old(self)@.is_authenticated(c) && old(self)@.has_channel(ch) && !can_read ==> r
                == Err::<(), GatewayError>(GatewayError::PermissionDenied) && final(self)@ == old(
                self,
            )@,
            old(self)@.is_authenticated(c) && old(self)@.has_channel(ch) && can_read ==> r == Ok::<
                (),
                GatewayError,
            >(()) && final(self)@ == old(self)@.with_subscription(c, ch, true),
    {
        if c >= self.conns.len() as u64 || self.conns[c as usize].state
            != SessionState::Authenticated {
            return Err(GatewayError::NotConnected);
        }
        if ch >= self.chans.len() as u64 {
            return Err(GatewayError::NotFound);
        }
        if !can_read {
            return Err(GatewayError::PermissionDenied);
        }
        self.link(c, ch, true);
        Ok(())
    }

    /// Removes the subscription of connection `c` to channel `ch`, if any.
    pub fn unsubscribe(&mut self, c: u64, ch: u64) -> (r: Result<(), GatewayError>)
        requires
            old(self).wf(),
        ensures
            final(self).wf(),
            !old(self)@.is_authenticated(c) ==> r == Err::<(), GatewayError>(
                GatewayError::NotConnected,
            ) && final(self)@ == old(self)@,
            old(self)@.is_authenticated(c) && !old(self)@.has_channel(ch) ==> r == Err::<
                (),
                GatewayError,
            >(GatewayError::NotFound) && final(self)@ == old(self)@,
            old(self)@.is_authenticated(c) && old(self)@.has_channel(ch) ==> r == Ok::<
                (),
                GatewayError,
            >(()) && final(self)@ == old(self)@.with_subscription(c, ch, false),
    {
        if c >= self.conns.len() as u64 || self.conns[c as usize].state
            != SessionState::Authenticated {
            return Err(GatewayError::NotConnected);
        }
        if ch >= self.chans.len() as u64 {
            return Err(GatewayError::NotFound);
        }
        self.link(c, ch, false);
        Ok(())
    }

    /// Adds (`on`) or removes the pair (`c`, `ch`) in both directions of the index.
    fn link(&mut self, c: u64, ch: u64, on: bool)
        requires
            old(self).wf(),
            old(self)@.is_authenticated(c),
            old(self)@.has_channel(ch),
        ensures
            final(self).wf(),
            final(self)@ == old(self)@.with_subscription(c, ch, on),
    {
        assert((c as int) < self.conns.len());
        assert((ch as int) < self.chans.len());
        let i = c as usize;
        let j = ch as usize;
        if on {
            insert_value(&mut self.conns[i].channels, ch);
            insert_value(&mut self.chans[j].subscribers, c);
        } else {
            remove_value(&mut self.conns[i].channels, ch);
            remove_value(&mut self.chans[j].subscribers, c);
        }
        let ghost oc = old(self).conns@[c as int];
        let ghost nc = self.conns@[c as int];
        let ghost oh = old(self).chans@[ch as int];
        let ghost nh = self.chans@[ch as int];
        assert(self.conns@ =~= old(self).conns@.update(c as int, nc));
        assert(self.chans@ =~= old(self).chans@.update(ch as int, nh));
        assert(nc@.queue =~= oc@.queue);
        if on {
            assert(nc@.channels =~= oc@.channels.insert(ch));
            assert(nh@.subscribers =~= oh@.subscribers.insert(c));
        } else {
            assert(nc@.channels =~= oc@.channels.remove(ch));
            assert(nh@.subscribers =~= oh@.subscribers.remove(c));
        }
        assert(self@.conns =~= old(self)@.with_subscription(c, ch, on).conns);
        assert(self@.chans =~= old(self)@.with_subscription(c, ch, on).chans);
        assert forall|d: u64, x: u64| (d as int) < self.conns@.len() implies #[trigger] self.conn_has(
            d,
            x,
        ) == if d == c && x == ch {
            on
        } else {
            old(self).conn_has(d, x)
        } by {}
        assert forall|y: u64, e: u64| (y as int) < self.chans@.len() implies #[trigger] self.chan_has(
            y,
            e,
        ) == if y == ch && e == c {
            on
        } else {
            old(self).chan_has(y, e)
        } by {}
        assert forall|d: int| 0 <= d < self.conns@.len() implies (#[trigger] self.conns@[d]).state
            != SessionState::Authenticated ==> self.conns@[d].channels@.len() == 0 by {
            if d != c as int {
                assert(self.conns@[d] == old(self).conns@[d]);
            }
        }
    }
    /// Closes connection `c`: its queued events are discarded and it is
    /// removed from every channel it was subscribed to. Closing a connection
    /// that is already closed changes nothing.
    pub fn deregister(&mut self, c: u64)
        requires
            old(self).wf(),
        ensures
            final(self).wf(),
            !old(self)@.is_open(c) ==> final(self)@ == old(self)@,
            old(self)@.is_open(c) ==> final(self)@ == old(self)@.without_connection(c),
    {
        if c >= self.conns.len() as u64 || self.conns[c as usize].state == SessionState::Closed {
            return;
        }
        let i = c as usize;
        let n = self.conns[i].channels.len();
        let mut k: usize = 0;
        while k < n
            invariant
                self.subscriber_lists_distinct(),
                old(self).wf(),
                i == c,
                (c as int) < old(self).conns@.len(),
                n == old(self).conns@[c as int].channels@.len(),
                0 <= k <= n,
                self.capacity == old(self).capacity,
                self.conns@ == old(self).conns@,
                self.chans@.len() == old(self).chans@.len(),
                forall|y: int|
                    0 <= y < self.chans@.len() ==> (#[trigger] self.chans@[y]).name == old(
                        self,
                    ).chans@[y].name && self.chans@[y].last_seq == old(self).chans@[y].last_seq,
                forall|y: u64, e: u64|
                    (y as int) < self.chans@.len() ==> #[trigger] self.chans@[y as int].subscribers@.contains(e) == (old(
                        self,
                    ).chan_has(y, e) && !(e == c && old(self).conns@[c as int].channels@.subrange(
                        0,
                        k as int,
                    ).contains(y))),
            decreases n - k,
        {
            let y = self.conns[i].channels[k];
            let ghost list = old(self).conns@[c as int].channels@;
            proof { lemma_prefix_contains(list, k as int); }
            assert(old(self).conn_has(c, y));
            assert((y as int) < self.chans.len());
            let ghost before = self.chans@;
            remove_value(&mut self.chans[y as usize].subscribers, c);
            assert(self.chans@ == before.update(y as int, self.chans@[y as int]));
            assert forall|x: u64, e: u64| (x as int) < self.chans@.len() implies #[trigger] self.chans@[x as int].subscribers@.contains(
                e,
            ) == (old(self).chan_has(x, e) && !(e == c && list.subrange(0, k + 1).contains(x))) by {
                if x == y {
                    assert(self.chans@[y as int].subscribers@.contains(e) == (before[y as int].subscribers@.contains(e) && e != c));
                } else {
                    assert(self.chans@[x as int] == before[x as int]);
                }
            }
            k = k + 1;
        }
        let ghost mid = self.chans@;
        self.conns[i].channels = Vec::new();
        self.conns[i].queue = Vec::new();
        self.conns[i].state = SessionState::Closed;
        let ghost nc = self.conns@[c as int];
        assert(old(self).conns@[c as int].channels@.subrange(0, n as int) =~= old(
            self,
        ).conns@[c as int].channels@);
        assert(nc@.channels =~= Set::<u64>::empty());
        assert(nc@.queue =~= Seq::<EventView>::empty());
        assert(self.conns@ =~= old(self).conns@.update(c as int, nc));
        assert(self@.conns =~= old(self)@.without_connection(c).conns);
        assert forall|y: u64, e: u64| (y as int) < self.chans@.len() implies #[trigger] self.chan_has(
            y,
            e,
        ) == (old(self).chan_has(y, e) && e != c) by {
            if e == c {
                assert(old(self).chan_has(y, e) == old(self).conn_has(c, y));
                assert(old(self).conns@[c as int].channels@.subrange(0, n as int).contains(y)
                    == old(self).conn_has(c, y));
            }
        }
        assert forall|y: int| 0 <= y < self.chans@.len() implies #[trigger] self@.chans[y]
            == old(self)@.without_connection(c).chans[y] by {
            assert(y < self.chans.len());
            let yy = y as u64;
            assert(yy as int == y);
            assert(self.chans@[y]@.subscribers =~= old(self).chans@[y]@.subscribers.remove(c)) by {
                assert forall|e: u64| self.chans@[y]@.subscribers.contains(e) == old(
                    self,
                ).chans@[y]@.subscribers.remove(c).contains(e) by {
                    assert(self.chan_has(yy, e) == (old(self).chan_has(yy, e) && e != c));
                }
            }
        }
        assert(self@.chans =~= old(self)@.without_connection(c).chans);
        assert forall|d: u64, x: u64| (d as int) < self.conns@.len() implies #[trigger] self.conn_has(
            d,
            x,
        ) == (old(self).conn_has(d, x) && d != c) by {}
    }

    /// No channel lists a subscriber twice.
    closed spec fn subscriber_lists_distinct(&self) -> bool {
        &&& forall|ch: int|
            0 <= ch < self.chans@.len() ==> (#[trigger] self.chans@[ch]).subscribers@.no_duplicates()
    }

    /// Publishes `payload` on channel `ch`: the channel's next sequence number
    /// is assigned and the event is queued for every current subscriber.
    /// A subscriber whose queue is full loses its oldest pending event.
    pub fn publish(&mut self, ch: u64, payload: String) -> (r: u64)
        requires
            old(self).wf(),
            old(self)@.has_channel(ch),
            old(self)@.chans[ch as int].last_seq < u64::MAX,
        ensures
            final(self).wf(),
            r as nat == old(self)@.chans[ch as int].last_seq + 1,
            final(self)@ == old(self)@.after_publish(ch, payload@),
    {
        assert((ch as int) < self.chans.len());
        let j = ch as usize;
        let seq = self.chans[j].last_seq + 1;
        self.chans[j].last_seq = seq;
        let ghost chans1 = self.chans@;
        assert(chans1 == old(self).chans@.update(ch as int, chans1[ch as int]));
        assert(chans1[ch as int].subscribers == old(self).chans@[ch as int].subscribers);
        let ghost target = old(self)@.after_publish(ch, payload@);
        let ghost subs = self.chans@[ch as int].subscribers@;
        let ghost ev = EventView { channel: ch, seq, payload: payload@ };
        assert(subs == old(self).chans@[ch as int].subscribers@);
        let cap = self.capacity;
        let n = self.chans[j].subscribers.len();
        let mut k: usize = 0;
        while k < n
            invariant
                old(self).wf(),
                j as int == ch as int,
                (ch as int) < old(self).chans@.len(),
                self.chans@.len() == old(self).chans@.len(),
                n == subs.len(),
                0 <= k <= n,
                cap == old(self).capacity,
                self.capacity == cap,
                self.chans@ == chans1,
                subs == chans1[ch as int].subscribers@,
                subs == self.chans@[ch as int].subscribers@,
                subs == old(self).chans@[ch as int].subscribers@,
                ev == (EventView { channel: ch, seq, payload: payload@ }),
                self.conns@.len() == old(self).conns@.len(),
                forall|d: int|
                    0 <= d < self.conns@.len() ==> {
                        let now = #[trigger] self.conns@[d];
                        let was = old(self).conns@[d];
                        &&& now.state == was.state
                        &&& now.user == was.user
                        &&& now.channels == was.channels
                        &&& now.queue@.len() <= cap
                        &&& now@.queue == if subs.subrange(0, k as int).contains(d as u64) {
                            enqueue(was@.queue, ev, cap as nat)
                        } else {
                            was@.queue
                        }
                    },
            decreases n - k,
        {
            let d = self.chans[j].subscribers[k];
            assert(old(self).chan_has(ch, d));
            assert((d as int) < self.conns.len());
            proof { lemma_prefix_contains(subs, k as int); }
            assert(!subs.subrange(0, k as int).contains(d)) by {
                if subs.subrange(0, k as int).contains(d) {
                    let z = choose|z: int| 0 <= z < k && subs.subrange(0, k as int)[z] == d;
                    assert(subs[z] == subs[k as int]);
                }
            }
            let e = Event { channel: ch, seq, payload: payload.clone() };
            let ghost before = self.conns@;
            deliver(&mut self.conns[d as usize].queue, e, cap);
            assert(self.conns@ == before.update(d as int, self.conns@[d as int]));
            k = k + 1;
        }
        assert(subs.subrange(0, n as int) =~= subs);
        assert forall|d: int| 0 <= d < self.conns@.len() implies #[trigger] self@.conns[d]
            == target.conns[d] by {
            let now = self.conns@[d];
            let was = old(self).conns@[d];
            assert(now@.channels =~= was@.channels);
            assert(subs.contains(d as u64) == old(self).chans@[ch as int]@.subscribers.contains(
                d as u64,
            ));
        }
        assert(self@.conns =~= target.conns);
        assert(self@.chans =~= target.chans);
        assert forall|d: u64, x: u64| (d as int) < self.conns@.len() implies #[trigger] self.conn_has(
            d,
            x,
        ) == old(self).conn_has(d, x) by {}
        assert forall|y: u64, e: u64| (y as int) < self.chans@.len() implies #[trigger] self.chan_has(
            y,
            e,
        ) == old(self).chan_has(y, e) by {
            if y != ch {
                assert(self.chans@[y as int] == old(self).chans@[y as int]);
            }
        }
        assert forall|d: int| 0 <= d < self.conns@.len() implies (#[trigger] self.conns@[d]).state
            != SessionState::Authenticated ==> self.conns@[d].queue@.len() == 0 by {
            let was = old(self).conns@[d];
            assert(d < self.conns.len());
            let dd = d as u64;
            assert(dd as int == d);
            if was.state != SessionState::Authenticated && subs.contains(dd) {
                assert(old(self).chan_has(ch, dd));
                assert(old(self).conn_has(dd, ch));
                assert(was.channels@.contains(ch));
            }
        }
        seq
    }

    /// Takes the oldest pending event of connection `c` for delivery to its
    /// transport, if there is one.
    pub fn next_event(&mut self, c: u64) -> (r: Option<Event>)
        requires
            old(self).wf(),
        ensures
            final(self).wf(),
            !old(self)@.has_pending(c) ==> r is None && final(self)@ == old(self)@,
            old(self)@.has_pending(c) ==> (r matches Some(e) && e@ == old(
                self,
            )@.conns[c as int].queue[0]),
            old(self)@.has_pending(c) ==> final(self)@ == old(self)@.after_delivery(c),
    {
        if c >= self.conns.len() as u64 || self.conns[c as usize].queue.len() == 0 {
            return None;
        }
        let i = c as usize;
        let ghost was = self.conns@[c as int];
        let e = self.conns[i].queue.remove(0);
        let ghost nc = self.conns@[c as int];
        assert(nc@.queue =~= was@.queue.drop_first());
        assert(nc@.channels =~= was@.channels);
        assert(self.conns@ =~= old(self).conns@.update(c as int, nc));
        assert(self@.conns =~= old(self)@.after_delivery(c).conns);
        assert(self@.chans =~= old(self)@.chans);
        assert forall|d: u64, x: u64| (d as int) < self.conns@.len() implies #[trigger] self.conn_has(
            d,
            x,
        ) == old(self).conn_has(d, x) by {}
        assert forall|y: u64, e: u64| #[trigger] self.chan_has(y, e) == old(self).chan_has(y, e) by {}
        Some(e)
    }
    /// Queue bound given at construction.
    pub fn capacity(&self) -> (r: usize)
        ensures
            r as nat == self@.capacity,
    {
        self.capacity
    }

    /// Number of connections ever registered.
    pub fn connection_count(&self) -> (r: usize)
        ensures
            r as int == self@.conns.len(),
    {
        self.conns.len()
    }

    /// Number of known channels.
    pub fn channel_count(&self) -> (r: usize)
        ensures
            r as int == self@.chans.len(),
    {
        self.chans.len()
    }

    /// Session state of connection `c`, or `None` for an unknown id.
    pub fn lookup(&self, c: u64) -> (r: Option<SessionState>)
        ensures
            (c as int) < self@.conns.len() ==> r == Some(self@.conns[c as int].state),
            (c as int) >= self@.conns.len() ==> r is None,
    {
        if c >= self.conns.len() as u64 {
            return None;
        }
        Some(self.conns[c as usize].state)
    }

    /// User that owns connection `c`, once it has authenticated.
    pub fn user_of(&self, c: u64) -> (r: Option<u64>)
        ensures
            (c as int) < self@.conns.len() ==> r == self@.conns[c as int].user,
            (c as int) >= self@.conns.len() ==> r is None,
    {
        if c >= self.conns.len() as u64 {
            return None;
        }
        self.conns[c as usize].user
    }

    /// Whether connection `c` is subscribed to channel `ch`.
    pub fn is_subscribed(&self, c: u64, ch: u64) -> (r: bool)
        ensures
            r == ((c as int) < self@.conns.len() && self@.conns[c as int].channels.contains(ch)),
    {
        if c >= self.conns.len() as u64 {
            return false;
        }
        find(&self.conns[c as usize].channels, ch).is_some()
    }

    /// Connections currently subscribed to channel `ch`.
    pub fn subscribers_of(&self, ch: u64) -> (r: Vec<u64>)
        ensures
            (ch as int) < self@.chans.len() ==> forall|c: u64|
                #[trigger] r@.contains(c) == self@.chans[ch as int].subscribers.contains(c),
            (ch as int) >= self@.chans.len() ==> r@.len() == 0,
    {
        let mut r: Vec<u64> = Vec::new();
        if ch >= self.chans.len() as u64 {
            return r;
        }
        let subs = &self.chans[ch as usize].subscribers;
        let mut k: usize = 0;
        while k < subs.len()
            invariant
                k <= subs@.len(),
                r@ == subs@.subrange(0, k as int),
            decreases subs@.len() - k,
        {
            r.push(subs[k]);
            k = k + 1;
            assert(r@ =~= subs@.subrange(0, k as int));
        }
        assert(r@ =~= subs@);
        r
    }

    /// Sequence number of the last event published on channel `ch`
    /// (0 before the first one).
    pub fn last_seq(&self, ch: u64) -> (r: Option<u64>)
        ensures
            (ch as int) < self@.chans.len() ==> r == Some(self@.chans[ch as int].last_seq as u64),
            (ch as int) >= self@.chans.len() ==> r is None,
    {
        if ch >= self.chans.len() as u64 {
            return None;
        }
        Some(self.chans[ch as usize].last_seq)
    }

    /// Number of events waiting for delivery on connection `c`.
    pub fn pending(&self, c: u64) -> (r: usize)
        ensures
            (c as int) < self@.conns.len() ==> r as int == self@.conns[c as int].queue.len(),
            (c as int) >= self@.conns.len() ==> r == 0,
    {
        if c >= self.conns.len() as u64 {
            return 0;
        }
        self.conns[c as usize].queue.len()
    }
}

} // verus!
