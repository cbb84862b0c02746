use eigenstream::hub::RecvOutcome;
use eigenstream::relay::{control_to_frame, relay_on_frame, Control, SubCounts, Tick, TickHub,
    UpstreamEvent};

#[test]
fn count_transitions_signal_exactly_once_per_edge() {
    // Three subscribe/unsubscribe pairs on one symbol, arrivals first:
    // exactly one activation and one deactivation, final count zero.
    let mut counts = SubCounts::new();
    let mut activations = 0;
    let mut deactivations = 0;
    for _ in 0..3 {
        if counts.incr("BTC-USD") {
            activations += 1;
        }
    }
    for _ in 0..3 {
        if counts.decr("BTC-USD") {
            deactivations += 1;
        }
    }
    assert_eq!(activations, 1);
    assert_eq!(deactivations, 1);
    assert!(counts.active_symbols().is_empty());
}

#[test]
fn interleaved_pairs_signal_on_each_zero_edge() {
    // A strict subscribe/unsubscribe alternation crosses the zero edge on
    // every pair: each crossing signals.
    let mut counts = SubCounts::new();
    assert!(counts.incr("S"));
    assert!(counts.decr("S"));
    assert!(counts.incr("S"));
    assert!(counts.decr("S"));
}

#[test]
fn decr_without_entry_is_silent() {
    let mut counts = SubCounts::new();
    assert!(!counts.decr("GHOST"));
}

#[test]
fn active_symbols_lists_positive_counts_in_order() {
    let mut counts = SubCounts::new();
    counts.incr("A");
    counts.incr("B");
    counts.incr("C");
    counts.decr("B");
    assert_eq!(counts.active_symbols(), vec!["A".to_string(), "C".to_string()]);
}

#[test]
fn relay_republishes_matched_trades_only() {
    let m = UpstreamEvent::Match {
        product_id: "BTC-USD".to_string(),
        price: "100.5".to_string(),
        time: "t1".to_string(),
    };
    let t = relay_on_frame(m).expect("a match becomes a tick");
    assert_eq!(t.product_id, "BTC-USD");
    assert_eq!(t.price, "100.5");
    let lm = UpstreamEvent::LastMatch {
        product_id: "ETH-USD".to_string(),
        price: "7".to_string(),
        time: "t2".to_string(),
    };
    assert!(relay_on_frame(lm).is_some());
    assert!(relay_on_frame(UpstreamEvent::Other).is_none());
}

#[test]
fn control_frames_spell_out_the_command() {
    let s = control_to_frame(&Control::Subscribe("BTC-USD".to_string()));
    assert_eq!(s, "{\"type\":\"subscribe\",\"ids\":[\"BTC-USD\"]}");
    let u = control_to_frame(&Control::Unsubscribe("BTC-USD".to_string()));
    assert_eq!(u, "{\"type\":\"unsubscribe\",\"ids\":[\"BTC-USD\"]}");
}

#[test]
fn tick_hub_routes_by_product() {
    let mut hub = TickHub::new();
    let sub = hub.subscribe("BTC-USD");
    let tick = Tick {
        product_id: "BTC-USD".to_string(),
        price: "9".to_string(),
        time: "t".to_string(),
    };
    assert_eq!(hub.publish("BTC-USD", tick), 1);
    match hub.recv("BTC-USD", sub) {
        RecvOutcome::Msg(t) => assert_eq!(t.price, "9"),
        _ => panic!("expected the tick"),
    }
    // Publishing to a product nobody watches creates the channel but
    // reaches nobody.
    let other = Tick {
        product_id: "ETH-USD".to_string(),
        price: "1".to_string(),
        time: "t".to_string(),
    };
    assert_eq!(hub.publish("ETH-USD", other), 0);
}

#[test]
fn idle_channels_are_removed_lazily() {
    let mut hub = TickHub::new();
    let sub = hub.subscribe("BTC-USD");
    hub.remove_if_idle("BTC-USD");
    assert_eq!(hub.receiver_count("BTC-USD"), 1, "a live channel survives cleanup");
    hub.unsubscribe("BTC-USD", sub);
    hub.remove_if_idle("BTC-USD");
    assert_eq!(hub.receiver_count("BTC-USD"), 0);
}
