use chat_gateway::gateway::{Event, Gateway, GatewayError, SessionState};

fn authed(g: &mut Gateway, user: u64) -> u64 {
    let c = g.register();
    assert_eq!(g.authenticate(c, Some(user)), Ok(()));
    c
}

fn drain(g: &mut Gateway, c: u64) -> Vec<Event> {
    let mut out = Vec::new();
    while let Some(e) = g.next_event(c) {
        out.push(e);
    }
    out
}

#[test]
fn scenario_general_channel() {
    let mut g = Gateway::new(16);
    let general = g.add_channel("general".to_string());
    let x = authed(&mut g, 7);
    assert_eq!(g.subscribe(x, general, true), Ok(()));
    assert_eq!(g.publish(general, "hello".to_string()), 1);
    let e = g.next_event(x).unwrap();
    assert_eq!((e.channel, e.seq, e.payload.as_str()), (general, 1, "hello"));
    assert_eq!(g.publish(general, "world".to_string()), 2);
    let e = g.next_event(x).unwrap();
    assert_eq!((e.channel, e.seq, e.payload.as_str()), (general, 2, "world"));
    g.deregister(x);
    assert_eq!(g.publish(general, "again".to_string()), 3);
    assert!(g.next_event(x).is_none());
    assert_eq!(g.pending(x), 0);
}

#[test]
fn scenario_permission_denied() {
    let mut g = Gateway::new(4);
    let secret = g.add_channel("secret".to_string());
    let y = authed(&mut g, 9);
    assert_eq!(g.subscribe(y, secret, false), Err(GatewayError::PermissionDenied));
    assert!(!g.is_subscribed(y, secret));
    assert!(g.subscribers_of(secret).is_empty());
    g.publish(secret, "hidden".to_string());
    assert!(g.next_event(y).is_none());
}

#[test]
fn subscribe_twice_then_unsubscribe_twice() {
    let mut g = Gateway::new(4);
    let ch = g.add_channel("a".to_string());
    let c = authed(&mut g, 1);
    assert_eq!(g.unsubscribe(c, ch), Ok(()));
    assert!(!g.is_subscribed(c, ch));
    assert_eq!(g.subscribe(c, ch, true), Ok(()));
    assert_eq!(g.subscribe(c, ch, true), Ok(()));
    assert!(g.is_subscribed(c, ch));
    assert_eq!(g.subscribers_of(ch), vec![c]);
    assert_eq!(g.unsubscribe(c, ch), Ok(()));
    assert!(!g.is_subscribed(c, ch));
    assert_eq!(g.unsubscribe(c, ch), Ok(()));
    assert!(g.subscribers_of(ch).is_empty());
    assert_eq!(g.subscribe(c, ch, true), Ok(()));
    assert!(g.is_subscribed(c, ch));
}

#[test]
fn both_directions_agree() {
    let mut g = Gateway::new(4);
    let a = g.add_channel("a".to_string());
    let b = g.add_channel("b".to_string());
    let c1 = authed(&mut g, 1);
    let c2 = authed(&mut g, 2);
    g.subscribe(c1, a, true).unwrap();
    g.subscribe(c2, a, true).unwrap();
    g.subscribe(c2, b, true).unwrap();
    g.unsubscribe(c1, a).unwrap();
    for c in [c1, c2] {
        for ch in [a, b] {
            assert_eq!(g.is_subscribed(c, ch), g.subscribers_of(ch).contains(&c));
        }
    }
    assert_eq!(g.subscribers_of(a), vec![c2]);
    assert_eq!(g.subscribers_of(b), vec![c2]);
}

#[test]
fn in_order_delivery_without_overflow() {
    let mut g = Gateway::new(8);
    let ch = g.add_channel("feed".to_string());
    let c = authed(&mut g, 3);
    g.subscribe(c, ch, true).unwrap();
    for i in 0..5 {
        g.publish(ch, format!("m{}", i));
    }
    let got = drain(&mut g, c);
    assert_eq!(got.len(), 5);
    for (i, e) in got.iter().enumerate() {
        assert_eq!(e.seq, i as u64 + 1);
        assert_eq!(e.payload, format!("m{}", i));
        assert_eq!(e.channel, ch);
    }
}

#[test]
fn overflow_drops_oldest() {
    let mut g = Gateway::new(3);
    let ch = g.add_channel("busy".to_string());
    let c = authed(&mut g, 4);
    g.subscribe(c, ch, true).unwrap();
    for i in 0..7 {
        g.publish(ch, format!("m{}", i));
    }
    assert_eq!(g.pending(c), 3);
    let got = drain(&mut g, c);
    let seqs: Vec<u64> = got.iter().map(|e| e.seq).collect();
    assert_eq!(seqs, vec![5, 6, 7]);
    assert_eq!(got[0].payload, "m4");
    // the gap before the first delivered event equals the dropped count
    assert_eq!(got[0].seq - 1, 7 - 3);
}

#[test]
fn queue_exactly_full_keeps_everything() {
    let mut g = Gateway::new(2);
    let ch = g.add_channel("x".to_string());
    let c = authed(&mut g, 4);
    g.subscribe(c, ch, true).unwrap();
    g.publish(ch, "p".to_string());
    g.publish(ch, "q".to_string());
    let seqs: Vec<u64> = drain(&mut g, c).iter().map(|e| e.seq).collect();
    assert_eq!(seqs, vec![1, 2]);
}

#[test]
fn deregister_cleans_every_channel() {
    let mut g = Gateway::new(4);
    let a = g.add_channel("a".to_string());
    let b = g.add_channel("b".to_string());
    let c = authed(&mut g, 5);
    let other = authed(&mut g, 6);
    g.subscribe(c, a, true).unwrap();
    g.subscribe(c, b, true).unwrap();
    g.subscribe(other, a, true).unwrap();
    g.publish(a, "queued".to_string());
    g.deregister(c);
    assert_eq!(g.lookup(c), Some(SessionState::Closed));
    assert_eq!(g.subscribers_of(a), vec![other]);
    assert!(g.subscribers_of(b).is_empty());
    assert_eq!(g.pending(c), 0);
    g.publish(a, "x".to_string());
    g.publish(b, "y".to_string());
    assert!(g.next_event(c).is_none());
    assert_eq!(g.pending(other), 2);
    // closing twice is harmless
    g.deregister(c);
    assert_eq!(g.lookup(c), Some(SessionState::Closed));
    assert_eq!(g.subscribers_of(a), vec![other]);
}

#[test]
fn handshake_outcomes() {
    let mut g = Gateway::new(4);
    let ok = g.register();
    assert_eq!(g.lookup(ok), Some(SessionState::Connecting));
    assert_eq!(g.user_of(ok), None);
    assert_eq!(g.authenticate(ok, Some(42)), Ok(()));
    assert_eq!(g.lookup(ok), Some(SessionState::Authenticated));
    assert_eq!(g.user_of(ok), Some(42));
    assert_eq!(g.authenticate(ok, Some(43)), Err(GatewayError::NotConnected));
    assert_eq!(g.expire_handshake(ok), Ok(()));
    assert_eq!(g.lookup(ok), Some(SessionState::Authenticated));

    let bad = g.register();
    assert_eq!(g.authenticate(bad, None), Err(GatewayError::AuthenticationFailed));
    assert_eq!(g.lookup(bad), Some(SessionState::Closed));

    let slow = g.register();
    assert_eq!(g.expire_handshake(slow), Err(GatewayError::HandshakeTimeout));
    assert_eq!(g.lookup(slow), Some(SessionState::Closed));
    assert_eq!(g.authenticate(slow, Some(1)), Err(GatewayError::NotConnected));

    assert_eq!(g.lookup(99), None);
    assert_eq!(g.authenticate(99, Some(1)), Err(GatewayError::NotConnected));
    assert_eq!(g.connection_count(), 3);
}

#[test]
fn request_errors() {
    let mut g = Gateway::new(4);
    let ch = g.add_channel("a".to_string());
    let pending = g.register();
    assert_eq!(g.subscribe(pending, ch, true), Err(GatewayError::NotConnected));
    assert_eq!(g.unsubscribe(pending, ch), Err(GatewayError::NotConnected));
    assert_eq!(g.subscribe(77, ch, true), Err(GatewayError::NotConnected));
    let c = authed(&mut g, 1);
    assert_eq!(g.subscribe(c, 5, true), Err(GatewayError::NotFound));
    assert_eq!(g.unsubscribe(c, 5), Err(GatewayError::NotFound));
    assert_eq!(g.subscribe(c, 5, false), Err(GatewayError::NotFound));
    assert!(!g.is_subscribed(c, 5));
    g.deregister(c);
    assert_eq!(g.subscribe(c, ch, true), Err(GatewayError::NotConnected));
}

#[test]
fn sequence_numbers_per_channel() {
    let mut g = Gateway::new(4);
    let a = g.add_channel("a".to_string());
    let b = g.add_channel("b".to_string());
    assert_eq!(g.last_seq(a), Some(0));
    assert_eq!(g.publish(a, "1".to_string()), 1);
    assert_eq!(g.publish(a, "2".to_string()), 2);
    assert_eq!(g.publish(b, "1".to_string()), 1);
    assert_eq!(g.last_seq(a), Some(2));
    assert_eq!(g.last_seq(b), Some(1));
    assert_eq!(g.last_seq(9), None);
    assert_eq!(g.channel_count(), 2);
    assert_eq!(g.capacity(), 4);
}

#[test]
fn fan_out_reaches_only_subscribers() {
    let mut g = Gateway::new(4);
    let a = g.add_channel("a".to_string());
    let b = g.add_channel("b".to_string());
    let c1 = authed(&mut g, 1);
    let c2 = authed(&mut g, 2);
    let c3 = authed(&mut g, 3);
    g.subscribe(c1, a, true).unwrap();
    g.subscribe(c2, a, true).unwrap();
    g.subscribe(c3, b, true).unwrap();
    g.publish(a, "hi".to_string());
    assert_eq!(g.pending(c1), 1);
    assert_eq!(g.pending(c2), 1);
    assert_eq!(g.pending(c3), 0);
    assert_eq!(g.next_event(c2).unwrap().payload, "hi");
    assert_eq!(g.pending(c1), 1);
}
