use eigenstream::models::{OperatorDto, OperatorOrderBy, OperatorsSnapshotData,
    OperatorsSnapshotVars, OperatorStrategyLinkDto, OrderDirection, StrategyLiteDto, TokenDto,
    UniformPage, PageMeta, UniformOperator, UniformPosition};
use eigenstream::snapshot::{compute_tvl_by_token, from_subgraph_adapt, key_snapshot,
    key_snapshot_page, parse_order_by, partition_by_token, upsert_operators_snapshot_cache,
    SnapshotCache};
use eigenstream::models::{AtomicAmount, OperatorStrategyPosition, StrategyId, TokenId, TokenRef};

fn op(id: &str, last_update: &str, token: Option<(&str, &str, i32)>) -> OperatorDto {
    OperatorDto {
        id: id.to_string(),
        avs_count: 2,
        strategy_count: 1,
        slashing_count: 0,
        last_update_block_timestamp: last_update.to_string(),
        slashings: Vec::new(),
        strategies: vec![OperatorStrategyLinkDto {
            total_shares: "100".to_string(),
            strategy: StrategyLiteDto {
                id: "0xstrat".to_string(),
                exchange_rate: "1".to_string(),
                token: token.map(|(tid, sym, dec)| TokenDto {
                    id: tid.to_string(),
                    symbol: sym.to_string(),
                    decimals: dec,
                }),
            },
        }],
    }
}

#[test]
fn snapshot_cache_keys_spell_out_every_variable() {
    let vars = OperatorsSnapshotVars {
        first: 25,
        skip: 50,
        order_by: OperatorOrderBy::AvsCount,
        order_direction: OrderDirection::Desc,
        has_slashing: 1,
    };
    assert_eq!(
        key_snapshot(&vars),
        "snapshot:first=25:skip=50:orderBy=avsCount:orderDir=desc:hasSlashing=1"
    );
    assert_eq!(key_snapshot_page(10, 0), "snapshot_page:first=10:skip=0");
}

#[test]
fn order_by_accepts_both_casings() {
    assert!(matches!(parse_order_by(Some("id")), Some(OperatorOrderBy::Id)));
    assert!(matches!(parse_order_by(Some("avsCount")), Some(OperatorOrderBy::AvsCount)));
    assert!(matches!(parse_order_by(Some("avs_count")), Some(OperatorOrderBy::AvsCount)));
    assert!(matches!(
        parse_order_by(Some("last_update_block_timestamp")),
        Some(OperatorOrderBy::LastUpdateBlockTimestamp)
    ));
    assert!(parse_order_by(Some("bogus")).is_none());
    assert!(parse_order_by(None).is_none());
}

#[test]
fn adapts_a_snapshot_page() {
    let data = OperatorsSnapshotData {
        operators: vec![op("0xop1", "1234", Some(("0xtok", "EIGEN", 18))), op("0xop2", "x", None)],
    };
    let page = from_subgraph_adapt(&data, 25, 0);
    assert_eq!(page.page_meta.first, 25);
    assert_eq!(page.operators.len(), 2);
    assert_eq!(page.operators[0].operator_id, "0xop1");
    assert_eq!(page.operators[0].last_update_block_ts, 1234);
    assert_eq!(page.operators[0].positions.len(), 1);
    assert_eq!(page.operators[0].positions[0].token_symbol, "EIGEN");
    // A malformed timestamp reads as zero; a tokenless link yields no position.
    assert_eq!(page.operators[1].last_update_block_ts, 0);
    assert_eq!(page.operators[1].positions.len(), 0);
}

#[test]
fn cache_keeps_the_freshest_row() {
    let mut cache = SnapshotCache::new();
    upsert_operators_snapshot_cache(
        &mut cache,
        &OperatorsSnapshotData { operators: vec![op("0xop1", "100", None)] },
    );
    upsert_operators_snapshot_cache(
        &mut cache,
        &OperatorsSnapshotData { operators: vec![op("0xop1", "50", None)] },
    );
    assert_eq!(cache.lookup("0xop1").unwrap().last_update_block_timestamp, "100");
    upsert_operators_snapshot_cache(
        &mut cache,
        &OperatorsSnapshotData { operators: vec![op("0xop1", "200", None)] },
    );
    assert_eq!(cache.lookup("0xop1").unwrap().last_update_block_timestamp, "200");
    assert!(cache.lookup("0xmissing").is_none());
}

fn upos(sym: &str, strat: &str) -> UniformPosition {
    UniformPosition {
        strategy_id: strat.to_string(),
        token_id: format!("0x{sym}"),
        token_symbol: sym.to_string(),
        token_decimals: 18,
        total_shares: "10".to_string(),
        exchange_rate: "1".to_string(),
    }
}

fn uop(id: &str, positions: Vec<UniformPosition>) -> UniformOperator {
    UniformOperator {
        operator_id: id.to_string(),
        avs_count: 1,
        strategy_count: positions.len() as i32,
        slashing_count: 0,
        last_slash_at: None,
        last_update_block_ts: 5,
        positions,
    }
}

#[test]
fn partitions_operators_by_token_symbol() {
    let page = UniformPage {
        operators: vec![
            // Symbol B appears before A, yet the groups come back sorted.
            uop("op1", vec![upos("B", "s2"), upos("A", "s1"), upos("A", "s3")]),
            uop("op2", vec![upos("B", "s4"), upos("", "s5")]),
        ],
        page_meta: PageMeta { first: 25, skip: 0 },
    };
    let out = partition_by_token(&page);
    assert_eq!(out.len(), 2);
    assert_eq!(out.key_ref(0), "A");
    assert_eq!(out.key_ref(1), "B");
    let a = out.find("A").expect("group A exists");
    let ga = out.value_ref(a);
    assert_eq!(ga.operators.len(), 1);
    assert_eq!(ga.operators[0].operator_id, "op1");
    assert_eq!(ga.operators[0].positions.len(), 2);
    assert_eq!(ga.operators[0].positions[0].strategy_id, "s1");
    assert_eq!(ga.operators[0].positions[1].strategy_id, "s3");
    assert_eq!(ga.page_meta.first, 25);
    let b = out.find("B").expect("group B exists");
    let gb = out.value_ref(b);
    assert_eq!(gb.operators.len(), 2);
    assert_eq!(gb.operators[0].operator_id, "op1");
    assert_eq!(gb.operators[1].operator_id, "op2");
    // The empty symbol never forms a group.
    assert!(out.find("").is_none());
}

#[test]
fn tvl_rolls_up_by_token() {
    let pos = |strat: &str, tok: &str, shares: &str, rate: &str, dec: u8| OperatorStrategyPosition {
        strategy_id: StrategyId(strat.to_string()),
        token: TokenRef { id: TokenId(tok.to_string()), symbol: tok.to_string(), decimals: dec },
        total_shares_atomic: AtomicAmount(shares.to_string()),
        exchange_rate_atomic: AtomicAmount(rate.to_string()),
    };
    let positions = vec![
        // 100 * 2 / 10^1 = 20, plus 5 * 10 / 10^1 = 5: token A totals 25.
        pos("s1", "A", "100", "2", 1),
        pos("s2", "A", "5", "10", 1),
        // 7 * 3 / 10^0 = 21 on token B.
        pos("s3", "B", "7", "3", 0),
        // Zero shares, zero rate, or malformed amounts contribute nothing.
        pos("s4", "A", "0", "5", 0),
        pos("s5", "B", "5", "0", 0),
        pos("s6", "C", "x", "1", 0),
    ];
    let mut out = compute_tvl_by_token(&positions);
    out.sort_by(|x, y| x.token.id.0.cmp(&y.token.id.0));
    assert_eq!(out.len(), 2);
    assert_eq!(out[0].token.id.0, "A");
    assert_eq!(out[0].amount_atomic.0, "25");
    assert_eq!(out[1].token.id.0, "B");
    assert_eq!(out[1].amount_atomic.0, "21");
}
