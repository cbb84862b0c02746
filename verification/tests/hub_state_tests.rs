use eigenstream::hub::{Chan, RecvOutcome};
use eigenstream::state::{Cursor, Event, StreamState};

#[test]
fn channel_delivers_in_order() {
    let mut ch: Chan<Event> = Chan::new(8);
    let sub = ch.subscribe();
    assert_eq!(ch.receiver_count(), 1);
    assert_eq!(ch.publish(Event("a".to_string())), 1);
    assert_eq!(ch.publish(Event("b".to_string())), 1);
    match ch.recv(sub) {
        RecvOutcome::Msg(Event(s)) => assert_eq!(s, "a"),
        _ => panic!("expected first message"),
    }
    match ch.recv(sub) {
        RecvOutcome::Msg(Event(s)) => assert_eq!(s, "b"),
        _ => panic!("expected second message"),
    }
    match ch.recv(sub) {
        RecvOutcome::Empty => {},
        _ => panic!("expected empty"),
    }
}

#[test]
fn slow_consumer_sees_lag_signal_not_a_stall() {
    // Capacity 2; the consumer never receives while 5 messages arrive.
    let mut ch: Chan<Event> = Chan::new(2);
    let sub = ch.subscribe();
    for i in 0..5 {
        // Publishing never blocks and reports the subscriber count each time.
        assert_eq!(ch.publish(Event(format!("m{i}"))), 1);
    }
    match ch.recv(sub) {
        RecvOutcome::Lagged(n) => assert_eq!(n, 3),
        _ => panic!("expected lag signal"),
    }
    match ch.recv(sub) {
        RecvOutcome::Msg(Event(s)) => assert_eq!(s, "m3"),
        _ => panic!("expected oldest retained message"),
    }
    match ch.recv(sub) {
        RecvOutcome::Msg(Event(s)) => assert_eq!(s, "m4"),
        _ => panic!("expected newest message"),
    }
}

#[test]
fn publish_without_subscribers_drops_message() {
    let mut ch: Chan<Event> = Chan::new(4);
    assert_eq!(ch.publish(Event("lost".to_string())), 0);
    let sub = ch.subscribe();
    match ch.recv(sub) {
        RecvOutcome::Empty => {},
        _ => panic!("dropped message must not reappear"),
    }
}

#[test]
fn unsubscribe_lowers_count() {
    let mut ch: Chan<Event> = Chan::new(4);
    let a = ch.subscribe();
    let b = ch.subscribe();
    assert_eq!(ch.receiver_count(), 2);
    ch.unsubscribe(a);
    assert_eq!(ch.receiver_count(), 1);
    assert_eq!(ch.publish(Event("x".to_string())), 1);
    match ch.recv(b) {
        RecvOutcome::Msg(Event(s)) => assert_eq!(s, "x"),
        _ => panic!("remaining subscriber still receives"),
    }
}

#[test]
fn register_interest_raises_floor_monotonically() {
    let mut st = StreamState::new();
    st.register_interest("EIGEN", Some(100));
    st.register_interest("EIGEN", Some(50));
    st.register_interest("EIGEN", Some(200));
    st.register_interest("EIGEN", None);
    let todo = st.tokens_to_poll();
    assert_eq!(todo.len(), 1);
    assert_eq!(todo[0].0, "EIGEN");
    assert_eq!(todo[0].1.since_hint, 200);
    assert_eq!(todo[0].1.last_ts, 0);
}

#[test]
fn advance_cursor_never_moves_backward() {
    let mut st = StreamState::new();
    st.advance_cursor("T", 100, "b");
    st.advance_cursor("T", 90, "z");
    st.advance_cursor("T", 100, "a");
    let todo = {
        st.register_interest("T", None);
        st.tokens_to_poll()
    };
    assert_eq!(todo[0].1.last_ts, 100);
    assert_eq!(todo[0].1.last_id, "b");
    // Same timestamp, larger id: moves forward.
    st.advance_cursor("T", 100, "c");
    let todo2 = st.tokens_to_poll();
    assert_eq!(todo2[0].1.last_id, "c");
}

#[test]
fn seed_cursor_only_fills_an_empty_cursor() {
    let mut st = StreamState::new();
    st.seed_cursor_if_empty("T", 500, "p1");
    st.register_interest("T", None);
    assert_eq!(st.tokens_to_poll()[0].1.last_ts, 500);
    // A later seed never overwrites an advanced cursor.
    st.seed_cursor_if_empty("T", 100, "old");
    assert_eq!(st.tokens_to_poll()[0].1.last_ts, 500);
    assert_eq!(st.tokens_to_poll()[0].1.last_id, "p1");
}

#[test]
fn state_publish_without_channel_is_a_noop() {
    let mut st = StreamState::new();
    assert_eq!(st.publish("T", Event("x".to_string())), 0);
    assert_eq!(st.subscriber_count("T"), 0);
}

#[test]
fn state_subscribe_then_publish_roundtrip() {
    let mut st = StreamState::new();
    let sub = st.subscribe("T");
    assert_eq!(st.subscriber_count("T"), 1);
    assert_eq!(st.publish("T", Event("hello".to_string())), 1);
    match st.recv("T", sub) {
        RecvOutcome::Msg(Event(s)) => assert_eq!(s, "hello"),
        _ => panic!("expected message"),
    }
    st.unsubscribe("T", sub);
    assert_eq!(st.subscriber_count("T"), 0);
}

#[test]
fn default_cursor_is_origin() {
    let c = Cursor::default();
    assert_eq!(c.last_ts, 0);
    assert_eq!(c.last_id, "");
    assert_eq!(c.since_hint, 0);
}

#[test]
fn registry_consumer_that_stalls_past_capacity_lags() {
    // The registry creates channels with capacity 1024; a consumer that
    // never receives while more than that is published sees one lag signal
    // carrying the dropped count, then the oldest retained message.
    let mut st = StreamState::new();
    let sub = st.subscribe("T");
    for i in 0..1030 {
        assert_eq!(st.publish("T", Event(format!("m{i}"))), 1);
    }
    match st.recv("T", sub) {
        RecvOutcome::Lagged(n) => assert_eq!(n, 6),
        _ => panic!("expected lag signal"),
    }
    match st.recv("T", sub) {
        RecvOutcome::Msg(Event(s)) => assert_eq!(s, "m6"),
        _ => panic!("expected oldest retained message"),
    }
}
