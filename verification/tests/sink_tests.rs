use eigenstream::sink::{DepositRow, MemSink, TsDb};

fn row(id: &str, ts: i64, tx: &str, shares: &str) -> DepositRow {
    DepositRow {
        id: id.to_string(),
        token_id: "0xtoken".to_string(),
        token_symbol: "EIGEN".to_string(),
        staker: "0xstaker".to_string(),
        strategy_id: "0xstrat".to_string(),
        shares: shares.to_string(),
        block_number: 1,
        block_timestamp: ts,
        tx_hash: tx.to_string(),
    }
}

#[test]
fn insert_batch_is_idempotent() {
    let mut sink = MemSink::new();
    let batch = vec![row("d1", 1000, "0xaaa", "5"), row("d2", 1010, "0xbbb", "6")];
    assert_eq!(sink.insert_batch_ts(&batch), 2);
    assert_eq!(sink.count_rows_for_token("0xtoken"), 2);
    // Same natural keys again: row count unchanged.
    assert_eq!(sink.insert_batch_ts(&batch), 0);
    assert_eq!(sink.count_rows_for_token("0xtoken"), 2);
}

#[test]
fn insert_skips_duplicates_inside_one_batch() {
    let mut sink = MemSink::new();
    let batch = vec![row("d1", 1000, "0xaaa", "5"), row("d1b", 1000, "0xaaa", "5")];
    assert_eq!(sink.insert_batch_ts(&batch), 1);
}

#[test]
fn same_tx_different_timestamp_is_a_new_row() {
    let mut sink = MemSink::new();
    assert_eq!(sink.insert_batch_ts(&vec![row("d1", 1000, "0xaaa", "5")]), 1);
    assert_eq!(sink.insert_batch_ts(&vec![row("d2", 1001, "0xaaa", "5")]), 1);
    assert_eq!(sink.count_rows_for_token("0xtoken"), 2);
}

#[test]
fn cursor_upsert_overwrites() {
    let mut sink = MemSink::new();
    assert_eq!(sink.load_cursor("0xtoken"), None);
    sink.upsert_cursor("0xtoken", 1000, "d1");
    assert_eq!(sink.load_cursor("0xtoken"), Some((1000, "d1".to_string())));
    sink.upsert_cursor("0xtoken", 1100, "d2");
    assert_eq!(sink.load_cursor("0xtoken"), Some((1100, "d2".to_string())));
}

#[test]
fn current_bucket_counts_and_sums_decimal_strings() {
    let mut sink = MemSink::new();
    sink.insert_batch_ts(
        &vec![
            row("d1", 300, "0xa", "100000000000000000000"),
            row("d2", 350, "0xb", "23"),
            row("d3", 650, "0xc", "1"),
            row("d4", 400, "0xd", "7"),
        ],
    );
    let bp = sink.fetch_current_bucket("0xtoken", 300, 600);
    assert_eq!(bp.t, 300);
    assert_eq!(bp.count, 3);
    assert_eq!(bp.sum_shares, "100000000000000000030");
    let empty = sink.fetch_current_bucket("0xother", 300, 600);
    assert_eq!(empty.count, 0);
    assert_eq!(empty.sum_shares, "0");
}

#[test]
fn fetch_buckets_groups_by_grid_ascending() {
    let mut sink = MemSink::new();
    // Rows arrive out of bucket order; the series still comes back sorted.
    sink.insert_batch_ts(
        &vec![
            row("d3", 900, "0xc", "7"),
            row("d1", 310, "0xa", "5"),
            row("d2", 580, "0xb", "6"),
            row("d4", 100, "0xd", "9"),
        ],
    );
    let buckets = sink.fetch_buckets("0xtoken", 300, 300);
    assert_eq!(buckets.len(), 2);
    assert_eq!((buckets[0].t, buckets[0].count, buckets[0].sum_shares.as_str()), (300, 2, "11"));
    assert_eq!((buckets[1].t, buckets[1].count, buckets[1].sum_shares.as_str()), (900, 1, "7"));
}

#[test]
fn stub_constructor_exists() {
    let _ = TsDb::new_unused_stub();
}
