use eigenstream::poller::{accept_deposits, bootstrap_accumulate, bootstrap_should_continue,
    effective_since, normalize_addr, pick_token, resolve_local, start_cursor, DepositDto,
    StakerLite, StrategyLite, TokenLite, TopicPollState};
use eigenstream::state::Cursor;

fn dto(id: &str, ts: &str) -> DepositDto {
    DepositDto {
        id: id.to_string(),
        token: None,
        staker: StakerLite { id: "0xstaker".to_string() },
        strategy: StrategyLite { id: "0xstrat".to_string() },
        shares: "5".to_string(),
        block_number: "10".to_string(),
        block_timestamp: ts.to_string(),
        transaction_hash: format!("0xtx{id}"),
    }
}

#[test]
fn accepts_only_deposits_beyond_the_cursor() {
    let deposits = vec![dto("d1", "900"), dto("d2", "1000"), dto("d3", "1100")];
    let (rows, max_ts, max_id) = accept_deposits(&deposits, "0xtoken", "EIGEN", 1000, "d2");
    assert_eq!(rows.len(), 1);
    assert_eq!(rows[0].id, "d3");
    assert_eq!(rows[0].block_timestamp, 1100);
    assert_eq!(rows[0].token_id, "0xtoken");
    assert_eq!(rows[0].token_symbol, "EIGEN");
    assert_eq!((max_ts, max_id.as_str()), (1100, "d3"));
}

#[test]
fn same_timestamp_breaks_ties_by_id() {
    let deposits = vec![dto("d1", "1000"), dto("d3", "1000")];
    let (rows, max_ts, max_id) = accept_deposits(&deposits, "t", "T", 1000, "d2");
    assert_eq!(rows.len(), 1);
    assert_eq!(rows[0].id, "d3");
    assert_eq!((max_ts, max_id.as_str()), (1000, "d3"));
}

#[test]
fn refetching_the_overlap_window_accepts_nothing_twice() {
    let deposits = vec![dto("d1", "900"), dto("d2", "1000")];
    let (rows, max_ts, max_id) = accept_deposits(&deposits, "t", "T", 0, "");
    assert_eq!(rows.len(), 2);
    // The very same window again, now against the raised watermark.
    let (rows2, max_ts2, max_id2) =
        accept_deposits(&deposits, "t", "T", max_ts, max_id.as_str());
    assert_eq!(rows2.len(), 0);
    assert_eq!((max_ts2, max_id2), (max_ts, max_id));
}

#[test]
fn effective_since_takes_the_higher_floor() {
    assert_eq!(effective_since(0, 1000, 600), 400);
    assert_eq!(effective_since(700, 1000, 600), 700);
    assert_eq!(effective_since(-600, 100, 600), -500);
}

#[test]
fn start_cursor_prefers_live_memory_over_persisted() {
    let active = Cursor { last_ts: 900, last_id: "d9".to_string(), since_hint: 0 };
    let (ts, id) = start_cursor(&active, Some((100, "old".to_string())));
    assert_eq!((ts, id.as_str()), (900, "d9"));
    let empty = Cursor::default();
    let (ts2, id2) = start_cursor(&empty, Some((100, "old".to_string())));
    assert_eq!((ts2, id2.as_str()), (100, "old"));
    let (ts3, id3) = start_cursor(&empty, None);
    assert_eq!((ts3, id3.as_str()), (0, ""));
}

#[test]
fn bootstrap_runs_at_most_once() {
    let mut st = TopicPollState::new();
    assert!(st.needs_bootstrap(0));
    assert!(!st.needs_bootstrap(5));
    st.mark_bootstrapped();
    // Even a row count of zero — rows deleted externally — never triggers
    // bootstrap again.
    assert!(!st.needs_bootstrap(0));
    assert!(!st.needs_bootstrap(7));
}

#[test]
fn bootstrap_accumulates_every_page_row() {
    let page = vec![dto("d1", "500"), dto("d2", "400")];
    let (rows, max_ts, max_id) = bootstrap_accumulate(&page, "0xtoken", "EIGEN", 0, "");
    assert_eq!(rows.len(), 2);
    assert_eq!((max_ts, max_id.as_str()), (500, "d1"));
    assert!(bootstrap_should_continue(2, 2, 0, 50));
    assert!(!bootstrap_should_continue(1, 2, 0, 50));
    assert!(!bootstrap_should_continue(2, 2, 50, 50));
}

#[test]
fn address_fast_path_resolves_locally() {
    let addr = "0xABCDEF0123456789abcdef0123456789ABCDEF01";
    let r = resolve_local(addr).expect("42-char address resolves locally");
    assert_eq!(r.0, addr.to_lowercase());
    assert_eq!(r.1, r.0);
    assert!(resolve_local("EIGEN").is_none());
    assert!(resolve_local("0xshort").is_none());
}

#[test]
fn normalize_addr_prefixes_and_lowers() {
    assert_eq!(normalize_addr("0xABC"), "0xabc");
    assert_eq!(normalize_addr("ABC"), "0xabc");
}

#[test]
fn pick_token_prefers_exact_symbol_match() {
    let tokens = vec![
        TokenLite { id: "0xAAA".to_string(), symbol: "WEIGEN".to_string(), decimals: Some(18) },
        TokenLite { id: "0xBBB".to_string(), symbol: "eigen".to_string(), decimals: Some(18) },
    ];
    let r = pick_token(&tokens, "EIGEN").unwrap();
    assert_eq!(r.0, "0xbbb");
    assert_eq!(r.1, "eigen");
    // No case-insensitive match: first result wins.
    let r2 = pick_token(&tokens, "OTHER").unwrap();
    assert_eq!(r2.0, "0xaaa");
    assert_eq!(r2.1, "WEIGEN");
    assert!(pick_token(&Vec::new(), "EIGEN").is_none());
}
