use eigenstream::metrics::{cache_inc, error_inc, subgraph_observe, DbTimer, Metrics};

#[test]
fn counters_record_each_observation() {
    let mut m = Metrics::new();
    subgraph_observe(&mut m, "ok", 12);
    subgraph_observe(&mut m, "ok", 30);
    subgraph_observe(&mut m, "err", 5);
    cache_inc(&mut m, "get", "hit");
    cache_inc(&mut m, "get", "miss");
    error_inc(&mut m, "db");
    // The registry is a value; nothing here can be read back except through
    // more recording, so exercise the timer path as well.
    let t = DbTimer::new("select_rows", 100);
    assert_eq!(t.op, "select_rows");
    assert_eq!(t.start_ms, 100);
    t.finish(150, &mut m);
    let t2 = DbTimer::new("select_rows", 200);
    t2.finish(180, &mut m);
}
