//! The end-to-end flow of a topic never seen before: first subscriber
//! connects, receives the handshake, an empty zero-filled replay and a
//! zero-count tick; the first pulled deposit reaches it exactly once, and a
//! re-fetch of the same window produces no second delivery.

use eigenstream::hub::RecvOutcome;
use eigenstream::poller::{accept_deposits, apply_new_deposits, emit_tick, pick_token, DepositDto,
    StakerLite, StrategyLite, TokenLite, TopicPollState};
use eigenstream::session::{session_connect, SessionAction, session_on_recv};
use eigenstream::sink::MemSink;
use eigenstream::state::StreamState;

#[test]
fn eigen_first_contact() {
    let mut state = StreamState::new();
    let mut sink = MemSink::new();
    let mut topic = TopicPollState::new();

    // Resolution: the upstream symbol lookup returned one token.
    let tokens = vec![TokenLite {
        id: "0xE1".to_string(),
        symbol: "EIGEN".to_string(),
        decimals: Some(18),
    }];
    let (token_id, token_label) = pick_token(&tokens, "EIGEN").unwrap();
    assert_eq!(token_id, "0xe1");

    // The first subscriber connects with since=0; window 600s, buckets 300s.
    let now = 1200;
    let start = session_connect(&mut state, &sink, "EIGEN", token_id.as_str(), Some(0), now, 600,
        300);
    assert_eq!(
        start.hello,
        "{\"type\":\"hello\",\"topic\":\"EIGEN\",\"resolved_id\":\"0xe1\",\
         \"subscribers\":0,\"window_sec\":600,\"bucket_sec\":300}"
    );
    // The replay series is zero-filled and empty of data: 600..1200 on a
    // 300s grid is three buckets, all zero.
    assert_eq!(start.series.len(), 3);
    for b in &start.series {
        assert_eq!(b.count, 0);
        assert_eq!(b.sum_shares, "0");
    }
    assert!(start.init.contains("\"type\":\"init\""));
    assert!(start.init.contains("{\"t\":600,\"count\":0,\"sum_shares\":\"0\"}"));

    // The poller's first tick: the topic is now interesting.
    let todo = state.tokens_to_poll();
    assert_eq!(todo.len(), 1);
    assert_eq!(todo[0].0, "EIGEN");
    let cursor = &todo[0].1;
    assert_eq!(cursor.last_ts, 0);

    // Cold start: no persisted rows, so bootstrap triggers (and only once).
    assert!(topic.needs_bootstrap(sink.count_rows_for_token(token_id.as_str())));
    topic.mark_bootstrapped();
    assert!(!topic.needs_bootstrap(0));

    // A periodic liveness tick arrives before any deposit.
    let (delivered, bucket) = emit_tick(&mut state, &sink, "EIGEN", token_id.as_str(), now, 300);
    assert_eq!(delivered, 1);
    assert_eq!(bucket.count, 0);
    match session_on_recv(state.recv("EIGEN", start.sub_id)) {
        SessionAction::Forward(frame) => {
            assert!(frame.contains("\"type\":\"tick\""));
            assert!(frame.contains("\"count\":0"));
        },
        _ => panic!("the subscriber sees the tick"),
    }

    // A new deposit arrives from the pull source.
    let deposits = vec![DepositDto {
        id: "d1".to_string(),
        token: None,
        staker: StakerLite { id: "0xstaker".to_string() },
        strategy: StrategyLite { id: "0xstrat".to_string() },
        shares: "5".to_string(),
        block_number: "10".to_string(),
        block_timestamp: "1000".to_string(),
        transaction_hash: "0xtx1".to_string(),
    }];
    let (rows, max_ts, max_id) = accept_deposits(&deposits, token_id.as_str(),
        token_label.as_str(), cursor.last_ts, cursor.last_id.as_str());
    assert_eq!(rows.len(), 1);
    let inserted = apply_new_deposits(&mut state, &mut sink, "EIGEN", token_id.as_str(), &rows,
        max_ts, max_id.as_str(), cursor.last_ts, cursor.last_id.as_str());
    assert_eq!(inserted, 1);

    // The session receives exactly one deposit frame for d1.
    match session_on_recv(state.recv("EIGEN", start.sub_id)) {
        SessionAction::Forward(frame) => {
            assert!(frame.contains("\"type\":\"deposit\""));
            assert!(frame.contains("\"id\":\"d1\""));
        },
        _ => panic!("the subscriber sees the deposit"),
    }

    // A second identical re-fetch of the same window: nothing new is
    // accepted, nothing new is delivered.
    let cursor2 = &state.tokens_to_poll()[0].1;
    assert_eq!(cursor2.last_ts, 1000);
    assert_eq!(cursor2.last_id, "d1");
    let (rows2, max_ts2, max_id2) = accept_deposits(&deposits, token_id.as_str(),
        token_label.as_str(), cursor2.last_ts, cursor2.last_id.as_str());
    assert_eq!(rows2.len(), 0);
    let inserted2 = apply_new_deposits(&mut state, &mut sink, "EIGEN", token_id.as_str(), &rows2,
        max_ts2, max_id2.as_str(), cursor2.last_ts, cursor2.last_id.as_str());
    assert_eq!(inserted2, 0);
    match state.recv("EIGEN", start.sub_id) {
        RecvOutcome::Empty => {},
        _ => panic!("no second deposit frame"),
    }
}
