//! Plain data types shared by the reporting side of the service: identifier
//! newtypes, token references, snapshot query/response shapes and the
//! uniform operator page the aggregation works on. They carry no logic of
//! their own; the functions over them live in the snapshot module.

use vstd::prelude::*;

verus! {

/// An operator identifier.
#[derive(Clone, Debug, PartialEq, Eq, PartialOrd, Ord, Hash)]
pub struct OperatorId(pub String);

/// A strategy identifier.
#[derive(Clone, Debug, PartialEq, Eq, PartialOrd, Ord, Hash)]
pub struct StrategyId(pub String);

/// A token identifier.
#[derive(Clone, Debug, PartialEq, Eq, PartialOrd, Ord, Hash)]
pub struct TokenId(pub String);

/// A token with its display data.
#[derive(Clone, Debug, PartialEq, Eq, Hash)]
pub struct TokenRef {
    pub id: TokenId,
    pub symbol: String,
    pub decimals: u8,
}

/// An atomic (smallest-unit) amount as a decimal string.
#[derive(Clone, Debug, PartialEq, Eq)]
pub struct AtomicAmount(pub String);

/// The value locked in one token.
#[derive(Clone, Debug, PartialEq)]
pub struct TvlByToken {
    pub token: TokenRef,
    pub amount_atomic: AtomicAmount,
}

/// One operator position in a strategy.
#[derive(Clone, Debug, PartialEq)]
pub struct OperatorStrategyPosition {
    pub strategy_id: StrategyId,
    pub token: TokenRef,
    pub total_shares_atomic: AtomicAmount,
    pub exchange_rate_atomic: AtomicAmount,
}

/// Where a cached answer came from.
#[derive(Debug, Clone)]
pub enum DataSource {
    Redis,
    Subgraph,
    Db,
}

/// An answer together with its source.
#[derive(Debug, Clone)]
pub struct Cached<T> {
    pub source: DataSource,
    pub data: T,
}

/// A query against the indexer's GraphQL endpoint.
pub struct GraphQLRequest<'q, V> {
    pub query: &'q str,
    pub variables: Option<V>,
}

/// A position inside a query an error points at.
#[derive(Debug)]
pub struct GraphQLErrorLocation {
    pub line: i32,
    pub column: i32,
}

/// The query parameters of the snapshot endpoint.
#[derive(Debug)]
pub struct SnapshotQuery {
    pub first: Option<i32>,
    pub skip: Option<i32>,
    pub has_slashing: Option<i32>,
    pub order_by: Option<String>,
    pub order_direction: Option<String>,
}

/// One token's locked value, as the report shows it.
#[derive(Debug)]
pub struct TvlView {
    pub token: String,
    pub symbol: String,
    pub amount_atomic: String,
}

/// Metadata of an aggregate report page.
#[derive(Debug)]
pub struct AggregatesMeta {
    pub source: String,
    pub first: i32,
    pub skip: i32,
    pub count: usize,
}

/// A page of uniform operators.
#[derive(Debug, Clone)]
pub struct UniformPage {
    pub operators: Vec<UniformOperator>,
    pub page_meta: PageMeta,
}

/// Paging bounds of a fetched page.
#[derive(Debug, Clone)]
pub struct PageMeta {
    pub first: i32,
    pub skip: i32,
}

/// One operator in the uniform shape both sources adapt into.
#[derive(Debug, Clone)]
pub struct UniformOperator {
    pub operator_id: String,
    pub avs_count: i32,
    pub strategy_count: i32,
    pub slashing_count: i32,
    pub last_slash_at: Option<i64>,
    pub last_update_block_ts: i64,
    pub positions: Vec<UniformPosition>,
}

/// One position in the uniform shape.
#[derive(Debug, Clone)]
pub struct UniformPosition {
    pub strategy_id: String,
    pub token_id: String,
    pub token_symbol: String,
    pub token_decimals: i32,
    pub total_shares: String,
    pub exchange_rate: String,
}

/// One bar of the top-operators chart.
#[derive(Debug, Clone)]
pub struct BarItem {
    pub operator_id: String,
    pub tvl_total_atomic: String,
}

/// One operator-to-strategy edge of the exposure graph.
#[derive(Debug, Clone)]
pub struct GraphEdge {
    pub operator_id: String,
    pub strategy_id: String,
    pub weight_atomic: String,
}

/// The outlier lists of a report.
#[derive(Debug, Clone)]
pub struct Outliers {
    pub high_concentration: Vec<String>,
    pub zero_share: Vec<String>,
    pub recent_slashes: Vec<String>,
}

/// Variables of the operators snapshot query.
#[derive(Debug)]
pub struct OperatorsSnapshotVars {
    pub first: i32,
    pub skip: i32,
    pub order_by: OperatorOrderBy,
    pub order_direction: OrderDirection,
    pub has_slashing: i32,
}

/// The field a snapshot query orders by.
#[derive(Debug, Clone, Copy)]
pub enum OperatorOrderBy {
    Id,
    AvsCount,
    StrategyCount,
    SlashingCount,
    LastUpdateBlockTimestamp,
}

/// The direction a snapshot query orders in.
#[derive(Debug, Clone, Copy)]
pub enum OrderDirection {
    Asc,
    Desc,
}

/// The payload of a snapshot answer.
pub struct OperatorsSnapshotData {
    pub operators: Vec<OperatorDto>,
}

/// One operator as the indexer reports it.
#[derive(Debug, Clone)]
pub struct OperatorDto {
    pub id: String,
    pub avs_count: i32,
    pub strategy_count: i32,
    pub slashing_count: i32,
    pub last_update_block_timestamp: String,
    pub slashings: Vec<OperatorSlashingDto>,
    pub strategies: Vec<OperatorStrategyLinkDto>,
}

/// One slashing event of an operator.
#[derive(Debug, Clone)]
pub struct OperatorSlashingDto {
    pub block_timestamp: String,
}

/// One operator-to-strategy link.
#[derive(Debug, Clone)]
pub struct OperatorStrategyLinkDto {
    pub total_shares: String,
    pub strategy: StrategyLiteDto,
}

/// A strategy as the indexer reports it.
#[derive(Debug, Clone)]
pub struct StrategyLiteDto {
    pub id: String,
    pub exchange_rate: String,
    pub token: Option<TokenDto>,
}

/// A token as the indexer reports it.
#[derive(Debug, Clone)]
pub struct TokenDto {
    pub id: String,
    pub symbol: String,
    pub decimals: i32,
}

/// Ordering of a risk listing.
#[derive(Clone, Debug)]
pub struct OperatorRiskOrder {
    pub field: OperatorRiskOrderField,
    pub direction: SortDir,
}

/// The sortable fields of a risk listing.
#[derive(Clone, Debug)]
pub enum OperatorRiskOrderField {
    Tvl,
    Hhi,
    AvsCount,
    StrategyCount,
    SlashingCount,
    LastSlashAt,
    LastUpdateBlockTs,
}

/// Sort direction of a risk listing.
#[derive(Clone, Copy, Debug)]
pub enum SortDir {
    Asc,
    Desc,
}

} // verus!
