use eigenstream::bucket::BucketPoint;
use eigenstream::frames::{deposit_frame, error_frame, hello_frame, init_frame, tick_frame,
    trade_tick_frame, warning_lagged_frame};
use eigenstream::hub::RecvOutcome;
use eigenstream::session::{session_on_recv, SessionAction};
use eigenstream::sink::DepositRow;
use eigenstream::state::Event;

fn bp(t: i64, count: i64, sum: &str) -> BucketPoint {
    BucketPoint { t, count, sum_shares: sum.to_string() }
}

#[test]
fn deposit_frame_carries_all_fields() {
    let row = DepositRow {
        id: "d1".to_string(),
        token_id: "0xtok".to_string(),
        token_symbol: "EIGEN".to_string(),
        staker: "0xstaker".to_string(),
        strategy_id: "0xstrat".to_string(),
        shares: "5".to_string(),
        block_number: 10,
        block_timestamp: 1000,
        tx_hash: "0xtx".to_string(),
    };
    assert_eq!(
        deposit_frame("EIGEN", &row),
        "{\"type\":\"deposit\",\"token\":\"EIGEN\",\"token_id\":\"0xtok\",\
         \"token_symbol\":\"EIGEN\",\"staker\":\"0xstaker\",\"strategy_id\":\"0xstrat\",\
         \"shares\":\"5\",\"block_number\":10,\"block_timestamp\":1000,\
         \"tx_hash\":\"0xtx\",\"id\":\"d1\"}"
    );
}

#[test]
fn tick_and_status_frames() {
    assert_eq!(
        tick_frame("EIGEN", &bp(300, 0, "0")),
        "{\"type\":\"tick\",\"token\":\"EIGEN\",\"bucket\":{\"t\":300,\"count\":0,\"sum_shares\":\"0\"}}"
    );
    assert_eq!(warning_lagged_frame(), "{\"type\":\"warning\",\"reason\":\"lagged\"}");
    assert_eq!(
        error_frame("token resolve failed"),
        "{\"type\":\"error\",\"reason\":\"token resolve failed\"}"
    );
    assert_eq!(
        trade_tick_frame("BTC-USD", "100.5", "t1"),
        "{\"product_id\":\"BTC-USD\",\"price\":\"100.5\",\"time\":\"t1\"}"
    );
}

#[test]
fn frames_escape_embedded_quotes() {
    assert_eq!(
        error_frame("bad \"token\""),
        "{\"type\":\"error\",\"reason\":\"bad \\\"token\\\"\"}"
    );
}

#[test]
fn hello_and_init_frames() {
    assert_eq!(
        hello_frame("EIGEN", "0xtok", 1, 86400, 300),
        "{\"type\":\"hello\",\"topic\":\"EIGEN\",\"resolved_id\":\"0xtok\",\
         \"subscribers\":1,\"window_sec\":86400,\"bucket_sec\":300}"
    );
    assert_eq!(
        init_frame(&vec![], 0, ""),
        "{\"type\":\"init\",\"series\":[],\"cursor\":{\"last_ts\":0,\"last_id\":\"\"}}"
    );
    assert_eq!(
        init_frame(&vec![bp(0, 0, "0"), bp(300, 2, "7")], 310, "d2"),
        "{\"type\":\"init\",\"series\":[{\"t\":0,\"count\":0,\"sum_shares\":\"0\"},\
         {\"t\":300,\"count\":2,\"sum_shares\":\"7\"}],\"cursor\":{\"last_ts\":310,\"last_id\":\"d2\"}}"
    );
}

#[test]
fn live_loop_actions() {
    match session_on_recv(RecvOutcome::Msg(Event("payload".to_string()))) {
        SessionAction::Forward(s) => assert_eq!(s, "payload"),
        _ => panic!("a message is forwarded"),
    }
    match session_on_recv(RecvOutcome::Lagged(3)) {
        SessionAction::Warn(s) => assert_eq!(s, "{\"type\":\"warning\",\"reason\":\"lagged\"}"),
        _ => panic!("lag warns and continues"),
    }
    match session_on_recv(RecvOutcome::Empty) {
        SessionAction::Idle => {},
        _ => panic!("nothing pending means wait"),
    }
}
