//! The pure functions of the reporting side: cache keys, query-parameter
//! parsing, the adaptation of indexer pages into the uniform operator
//! shape, per-token partitioning, the freshest-wins snapshot cache, and the
//! per-token value rollup.

use vstd::prelude::*;
use crate::assoc::AssocVec;
use crate::dec::{dec_i64, i64_or_zero, i64_parseable, i64_value, parse_i64, parse_u64_or_zero,
    u64_or_zero};
use crate::models::{
    AtomicAmount, OperatorDto, OperatorOrderBy, OperatorSlashingDto, OperatorsSnapshotData,
    OperatorsSnapshotVars, OperatorStrategyLinkDto, OperatorStrategyPosition, OrderDirection,
    PageMeta, StrategyLiteDto, TokenDto, TokenId, TokenRef, TvlByToken, UniformOperator,
    UniformPage, UniformPosition,
};

verus! {

/// The label of an ordering field inside a cache key.
pub open spec fn order_by_label(ob: OperatorOrderBy) -> Seq<char> {
    match ob {
        OperatorOrderBy::Id => "id"@,
        OperatorOrderBy::AvsCount => "avsCount"@,
        OperatorOrderBy::StrategyCount => "strategyCount"@,
        OperatorOrderBy::SlashingCount => "slashingCount"@,
        OperatorOrderBy::LastUpdateBlockTimestamp => "lastUpdateBlockTimestamp"@,
    }
}

/// The label of an ordering direction inside a cache key.
pub open spec fn order_dir_label(od: OrderDirection) -> Seq<char> {
    match od {
        OrderDirection::Asc => "asc"@,
        OrderDirection::Desc => "desc"@,
    }
}

/// The cache key of a snapshot query: every variable spelled out.
pub fn key_snapshot(vars: &OperatorsSnapshotVars) -> (r: String)
    ensures
        r@ == "snapshot:first="@ + dec_i64(vars.first as int) + ":skip="@ + dec_i64(
            vars.skip as int,
        ) + ":orderBy="@ + order_by_label(vars.order_by) + ":orderDir="@ + order_dir_label(
            vars.order_direction,
        ) + ":hasSlashing="@ + dec_i64(vars.has_slashing as int),
{
    let mut s = String::new();
    s.append("snapshot:first=");
    let f = crate::dec::i64_to_dec(vars.first as i64);
    s.append(f.as_str());
    s.append(":skip=");
    let k = crate::dec::i64_to_dec(vars.skip as i64);
    s.append(k.as_str());
    s.append(":orderBy=");
    match vars.order_by {
        OperatorOrderBy::Id => s.append("id"),
        OperatorOrderBy::AvsCount => s.append("avsCount"),
        OperatorOrderBy::StrategyCount => s.append("strategyCount"),
        OperatorOrderBy::SlashingCount => s.append("slashingCount"),
        OperatorOrderBy::LastUpdateBlockTimestamp => s.append("lastUpdateBlockTimestamp"),
    }
    s.append(":orderDir=");
    match vars.order_direction {
        OrderDirection::Asc => s.append("asc"),
        OrderDirection::Desc => s.append("desc"),
    }
    s.append(":hasSlashing=");
    let h = crate::dec::i64_to_dec(vars.has_slashing as i64);
    s.append(h.as_str());
    proof {
        assert(s@ =~= "snapshot:first="@ + dec_i64(vars.first as int) + ":skip="@ + dec_i64(
            vars.skip as int,
        ) + ":orderBy="@ + order_by_label(vars.order_by) + ":orderDir="@ + order_dir_label(
            vars.order_direction,
        ) + ":hasSlashing="@ + dec_i64(vars.has_slashing as int));
    }
    s
}

/// The cache key of a raw snapshot page.
pub fn key_snapshot_page(first: i32, skip: i32) -> (r: String)
    ensures
        r@ == "snapshot_page:first="@ + dec_i64(first as int) + ":skip="@ + dec_i64(skip as int),
{
    let mut s = String::new();
    s.append("snapshot_page:first=");
    let f = crate::dec::i64_to_dec(first as i64);
    s.append(f.as_str());
    s.append(":skip=");
    let k = crate::dec::i64_to_dec(skip as i64);
    s.append(k.as_str());
    proof {
        assert(s@ =~= "snapshot_page:first="@ + dec_i64(first as int) + ":skip="@ + dec_i64(
            skip as int,
        ));
    }
    s
}

/// The ordering field a query-string value names, accepting both casings.
pub fn parse_order_by(s: Option<&str>) -> (r: Option<OperatorOrderBy>)
    ensures
        match s {
            None => r is None,
            Some(v) => {
                if v@ == "id"@ {
                    r matches Some(OperatorOrderBy::Id)
                } else if v@ == "avsCount"@ || v@ == "avs_count"@ {
                    r matches Some(OperatorOrderBy::AvsCount)
                } else if v@ == "strategyCount"@ || v@ == "strategy_count"@ {
                    r matches Some(OperatorOrderBy::StrategyCount)
                } else if v@ == "slashingCount"@ || v@ == "slashing_count"@ {
                    r matches Some(OperatorOrderBy::SlashingCount)
                } else if v@ == "lastUpdateBlockTimestamp"@ || v@ == "last_update_block_timestamp"@ {
                    r matches Some(OperatorOrderBy::LastUpdateBlockTimestamp)
                } else {
                    r is None
                }
            },
        },
{
    match s {
        None => None,
        Some(v) => {
            if crate::text::str_eq(v, "id") {
                Some(OperatorOrderBy::Id)
            } else if crate::text::str_eq(v, "avsCount") || crate::text::str_eq(v, "avs_count") {
                Some(OperatorOrderBy::AvsCount)
            } else if crate::text::str_eq(v, "strategyCount") || crate::text::str_eq(
                v,
                "strategy_count",
            ) {
                Some(OperatorOrderBy::StrategyCount)
            } else if crate::text::str_eq(v, "slashingCount") || crate::text::str_eq(
                v,
                "slashing_count",
            ) {
                Some(OperatorOrderBy::SlashingCount)
            } else if crate::text::str_eq(v, "lastUpdateBlockTimestamp") || crate::text::str_eq(
                v,
                "last_update_block_timestamp",
            ) {
                Some(OperatorOrderBy::LastUpdateBlockTimestamp)
            } else {
                None
            }
        },
    }
}

/// The positions a link list adapts into: one per link whose strategy
/// carries a token.
pub open spec fn positions_of(links: Seq<OperatorStrategyLinkDto>) -> Seq<UniformPosition>
    decreases links.len(),
{
    if links.len() == 0 {
        Seq::<UniformPosition>::empty()
    } else {
        positions_of(links.drop_last()) + match links.last().strategy.token {
            Some(t) => seq![
                UniformPosition {
                    strategy_id: links.last().strategy.id,
                    token_id: t.id,
                    token_symbol: t.symbol,
                    token_decimals: t.decimals,
                    total_shares: links.last().total_shares,
                    exchange_rate: links.last().strategy.exchange_rate,
                },
            ],
            None => Seq::<UniformPosition>::empty(),
        }
    }
}

/// `u` is the uniform adaptation of the reported operator `o`.
pub open spec fn op_adapted(u: UniformOperator, o: OperatorDto) -> bool {
    &&& u.operator_id == o.id
    &&& u.avs_count == o.avs_count
    &&& u.strategy_count == o.strategy_count
    &&& u.slashing_count == o.slashing_count
    &&& u.last_slash_at == (if o.slashings@.len() > 0 && i64_parseable(
        o.slashings@[0].block_timestamp@,
    ) {
        Some(i64_value(o.slashings@[0].block_timestamp@) as i64)
    } else {
        None::<i64>
    })
    &&& u.last_update_block_ts as int == i64_or_zero(o.last_update_block_timestamp@)
    &&& u.positions@ == positions_of(o.strategies@)
}

/// Adapts an indexer snapshot page into the uniform shape: numbers parsed
/// leniently, one position per link that carries a token.
pub fn from_subgraph_adapt(page: &OperatorsSnapshotData, first: i32, skip: i32) -> (r: UniformPage)
    ensures
        r.page_meta.first == first,
        r.page_meta.skip == skip,
        r.operators@.len() == page.operators@.len(),
        forall|i: int|
            0 <= i < page.operators@.len() ==> op_adapted(
                #[trigger] r.operators@[i],
                page.operators@[i],
            ),
{
    let n = page.operators.len();
    let mut out: Vec<UniformOperator> = Vec::new();
    let mut i: usize = 0;
    while i < n
        invariant
            n == page.operators@.len(),
            i <= n,
            out@.len() == i,
            forall|k: int|
                0 <= k < i ==> op_adapted(#[trigger] out@[k], page.operators@[k]),
        decreases n - i,
    {
        let o = &page.operators[i];
        let last_slash_at: Option<i64> = if o.slashings.len() > 0 {
            parse_i64(o.slashings[0].block_timestamp.as_str())
        } else {
            None
        };
        let last_update_block_ts = crate::dec::parse_i64_or_zero(
            o.last_update_block_timestamp.as_str(),
        );
        let m = o.strategies.len();
        let mut positions: Vec<UniformPosition> = Vec::new();
        let mut j: usize = 0;
        proof {
            assert(o.strategies@.take(0) =~= Seq::<OperatorStrategyLinkDto>::empty());
        }
        while j < m
            invariant
                m == o.strategies@.len(),
                j <= m,
                positions@ == positions_of(o.strategies@.take(j as int)),
            decreases m - j,
        {
            proof {
                assert(o.strategies@.take(j as int + 1).drop_last() =~= o.strategies@.take(
                    j as int,
                ));
                assert(o.strategies@.take(j as int + 1).last() == o.strategies@[j as int]);
            }
            let ghost pre = positions@;
            let link = &o.strategies[j];
            match &link.strategy.token {
                Some(t) => {
                    positions.push(
                        UniformPosition {
                            strategy_id: link.strategy.id.clone(),
                            token_id: t.id.clone(),
                            token_symbol: t.symbol.clone(),
                            token_decimals: t.decimals,
                            total_shares: link.total_shares.clone(),
                            exchange_rate: link.strategy.exchange_rate.clone(),
                        },
                    );
                    proof {
                        assert(positions@ =~= positions_of(o.strategies@.take(j as int + 1)));
                    }
                },
                None => {
                    proof {
                        assert(positions@ =~= positions_of(o.strategies@.take(j as int + 1)));
                    }
                },
            }
            j = j + 1;
        }
        proof {
            assert(o.strategies@.take(m as int) =~= o.strategies@);
        }
        out.push(
            UniformOperator {
                operator_id: o.id.clone(),
                avs_count: o.avs_count,
                strategy_count: o.strategy_count,
                slashing_count: o.slashing_count,
                last_slash_at,
                last_update_block_ts,
                positions,
            },
        );
        i = i + 1;
    }
    UniformPage { operators: out, page_meta: PageMeta { first, skip } }
}

/// The ghost view of a reported token.
pub ghost struct TokenV {
    pub id: Seq<char>,
    pub symbol: Seq<char>,
    pub decimals: int,
}

/// The ghost view of an operator-to-strategy link.
pub ghost struct LinkV {
    pub total_shares: Seq<char>,
    pub strategy_id: Seq<char>,
    pub exchange_rate: Seq<char>,
    pub token: Option<TokenV>,
}

/// The ghost view of a reported operator.
pub ghost struct DtoV {
    pub id: Seq<char>,
    pub avs_count: int,
    pub strategy_count: int,
    pub slashing_count: int,
    pub last_update: Seq<char>,
    pub slashings: Seq<Seq<char>>,
    pub strategies: Seq<LinkV>,
}

/// The view of a link.
pub open spec fn link_v(l: OperatorStrategyLinkDto) -> LinkV {
    LinkV {
        total_shares: l.total_shares@,
        strategy_id: l.strategy.id@,
        exchange_rate: l.strategy.exchange_rate@,
        token: match l.strategy.token {
            Some(t) => Some(TokenV { id: t.id@, symbol: t.symbol@, decimals: t.decimals as int }),
            None => None,
        },
    }
}

/// The view of a reported operator.
pub open spec fn dto_v(o: OperatorDto) -> DtoV {
    DtoV {
        id: o.id@,
        avs_count: o.avs_count as int,
        strategy_count: o.strategy_count as int,
        slashing_count: o.slashing_count as int,
        last_update: o.last_update_block_timestamp@,
        slashings: o.slashings@.map_values(|s: OperatorSlashingDto| s.block_timestamp@),
        strategies: o.strategies@.map_values(|l: OperatorStrategyLinkDto| link_v(l)),
    }
}

/// An exact deep copy of a reported operator, by field.
fn duplicate_dto(o: &OperatorDto) -> (r: OperatorDto)
    ensures
        dto_v(r) == dto_v(*o),
{
    let mut slashings: Vec<OperatorSlashingDto> = Vec::new();
    let ns = o.slashings.len();
    let mut i: usize = 0;
    while i < ns
        invariant
            ns == o.slashings@.len(),
            i <= ns,
            slashings@.len() == i,
            forall|k: int|
                0 <= k < i ==> (#[trigger] slashings@[k]).block_timestamp@
                    == o.slashings@[k].block_timestamp@,
        decreases ns - i,
    {
        slashings.push(OperatorSlashingDto { block_timestamp: o.slashings[i].block_timestamp.clone() });
        i = i + 1;
    }
    let mut strategies: Vec<OperatorStrategyLinkDto> = Vec::new();
    let nl = o.strategies.len();
    let mut j: usize = 0;
    while j < nl
        invariant
            nl == o.strategies@.len(),
            j <= nl,
            strategies@.len() == j,
            forall|k: int|
                0 <= k < j ==> link_v(#[trigger] strategies@[k]) == link_v(o.strategies@[k]),
        decreases nl - j,
    {
        let l = &o.strategies[j];
        let token: Option<TokenDto> = match &l.strategy.token {
            Some(t) => Some(
                TokenDto { id: t.id.clone(), symbol: t.symbol.clone(), decimals: t.decimals },
            ),
            None => None,
        };
        strategies.push(
            OperatorStrategyLinkDto {
                total_shares: l.total_shares.clone(),
                strategy: StrategyLiteDto {
                    id: l.strategy.id.clone(),
                    exchange_rate: l.strategy.exchange_rate.clone(),
                    token,
                },
            },
        );
        j = j + 1;
    }
    let r = OperatorDto {
        id: o.id.clone(),
        avs_count: o.avs_count,
        strategy_count: o.strategy_count,
        slashing_count: o.slashing_count,
        last_update_block_timestamp: o.last_update_block_timestamp.clone(),
        slashings,
        strategies,
    };
    proof {
        assert(dto_v(r).slashings =~= dto_v(*o).slashings);
        assert(dto_v(r).strategies =~= dto_v(*o).strategies);
        assert(dto_v(r) == dto_v(*o));
    }
    r
}

/// The freshest-wins cache of operator snapshots, keyed by operator id.
pub struct SnapshotCache {
    entries: AssocVec<OperatorDto>,
}

impl View for SnapshotCache {
    type V = Map<Seq<char>, DtoV>;

    /// The cache as a map from operator id to the view of the cached row.
    closed spec fn view(&self) -> Map<Seq<char>, DtoV> {
        Map::new(
            |k: Seq<char>| self.entries.contains_key(k),
            |k: Seq<char>| dto_v(self.entries.value_of(k)),
        )
    }
}

impl SnapshotCache {
    /// Distinct operator ids.
    pub closed spec fn wf(self) -> bool {
        self.entries.wf()
    }

    /// An empty cache.
    pub fn new() -> (r: SnapshotCache)
        ensures
            r.wf(),
            r@ == Map::<Seq<char>, DtoV>::empty(),
    {
        let c = SnapshotCache { entries: AssocVec::new() };
        proof {
            assert(c@ =~= Map::<Seq<char>, DtoV>::empty());
        }
        c
    }

    /// The cached row of operator `id`, if any.
    pub fn lookup(&self, id: &str) -> (r: Option<&OperatorDto>)
        requires
            self.wf(),
        ensures
            match r {
                Some(o) => self@.dom().contains(id@) && dto_v(*o) == self@[id@],
                None => !self@.dom().contains(id@),
            },
    {
        match self.entries.find(id) {
            Some(i) => Some(self.entries.value_ref(i)),
            None => None,
        }
    }
}

/// The freshness a cached operator reports, read leniently.
pub open spec fn op_freshness(o: DtoV) -> int {
    u64_or_zero(o.last_update)
}

/// One freshest-wins upsert.
pub open spec fn upsert_step(m: Map<Seq<char>, DtoV>, o: DtoV) -> Map<Seq<char>, DtoV> {
    if !m.dom().contains(o.id) {
        m.insert(o.id, o)
    } else if op_freshness(o) > op_freshness(m[o.id]) {
        m.insert(o.id, o)
    } else {
        m
    }
}

/// The cache after folding in every row of `page`, in order.
pub open spec fn spec_upsert(m: Map<Seq<char>, DtoV>, page: Seq<DtoV>) -> Map<Seq<char>, DtoV>
    decreases page.len(),
{
    if page.len() == 0 {
        m
    } else {
        spec_upsert(upsert_step(m, page.first()), page.drop_first())
    }
}

/// Folds a snapshot page into the cache: a new operator is inserted, a
/// known one replaced only when the incoming row is strictly fresher by its
/// last-update timestamp.
pub fn upsert_operators_snapshot_cache(cache: &mut SnapshotCache, page: &OperatorsSnapshotData)
    requires
        old(cache).wf(),
    ensures
        final(cache).wf(),
        final(cache)@ == spec_upsert(
            old(cache)@,
            page.operators@.map_values(|o: OperatorDto| dto_v(o)),
        ),
{
    let ghost pv = page.operators@.map_values(|o: OperatorDto| dto_v(o));
    let n = page.operators.len();
    let mut i: usize = 0;
    proof {
        assert(pv.skip(0) =~= pv);
    }
    while i < n
        invariant
            n == page.operators@.len(),
            pv == page.operators@.map_values(|o: OperatorDto| dto_v(o)),
            i <= n,
            cache.wf(),
            spec_upsert(cache@, pv.skip(i as int)) == spec_upsert(old(cache)@, pv),
        decreases n - i,
    {
        let ghost pre = cache@;
        let incoming = &page.operators[i];
        let incoming_ts = parse_u64_or_zero(incoming.last_update_block_timestamp.as_str());
        match cache.entries.find(incoming.id.as_str()) {
            Some(p) => {
                let existing_ts = parse_u64_or_zero(
                    cache.entries.value_ref(p).last_update_block_timestamp.as_str(),
                );
                if incoming_ts > existing_ts {
                    cache.entries.set_value_at(p, duplicate_dto(incoming));
                }
            },
            None => {
                cache.entries.push_new(incoming.id.clone(), duplicate_dto(incoming));
            },
        }
        proof {
            assert(pv.skip(i as int).first() == dto_v(page.operators@[i as int]));
            assert(pv.skip(i as int).drop_first() =~= pv.skip(i as int + 1));
            assert(cache@ =~= upsert_step(pre, dto_v(page.operators@[i as int])));
        }
        i = i + 1;
    }
    proof {
        assert(pv.skip(n as int) =~= Seq::<DtoV>::empty());
    }
}

/// The positions of `ps` whose token symbol is `sym`, in order.
pub open spec fn pos_filter(ps: Seq<UniformPosition>, sym: Seq<char>) -> Seq<UniformPosition>
    decreases ps.len(),
{
    if ps.len() == 0 {
        Seq::<UniformPosition>::empty()
    } else {
        pos_filter(ps.drop_last(), sym) + if ps.last().token_symbol@ == sym {
            seq![ps.last()]
        } else {
            Seq::<UniformPosition>::empty()
        }
    }
}

/// How many operators of `ops` hold at least one position of symbol `sym`.
pub open spec fn op_group_count(ops: Seq<UniformOperator>, sym: Seq<char>) -> int
    decreases ops.len(),
{
    if ops.len() == 0 {
        0
    } else {
        op_group_count(ops.drop_last(), sym) + if pos_filter(ops.last().positions@, sym).len()
            > 0 {
            1int
        } else {
            0int
        }
    }
}

/// `u` is `src` restricted to its positions of symbol `sym`.
pub open spec fn op_projected(u: UniformOperator, src: UniformOperator, sym: Seq<char>) -> bool {
    &&& u.operator_id == src.operator_id
    &&& u.avs_count == src.avs_count
    &&& u.strategy_count == src.strategy_count
    &&& u.slashing_count == src.slashing_count
    &&& u.last_slash_at == src.last_slash_at
    &&& u.last_update_block_ts == src.last_update_block_ts
    &&& u.positions@ == pos_filter(src.positions@, sym)
}

/// No position carries symbol `s`, so the filter is empty.
proof fn lemma_pos_filter_empty(ps: Seq<UniformPosition>, s: Seq<char>)
    requires
        forall|j: int| 0 <= j < ps.len() ==> (#[trigger] ps[j]).token_symbol@ != s,
    ensures
        pos_filter(ps, s).len() == 0,
    decreases ps.len(),
{
    if ps.len() > 0 {
        let p = ps.drop_last();
        assert forall|j: int| 0 <= j < p.len() implies (#[trigger] p[j]).token_symbol@ != s by {
            assert(p[j] == ps[j]);
        }
        lemma_pos_filter_empty(p, s);
        assert(ps.last() == ps[ps.len() - 1]);
    }
}

/// No operator holds symbol `s`, so the group count is zero.
proof fn lemma_group_count_zero(ops: Seq<UniformOperator>, s: Seq<char>)
    requires
        forall|i: int|
            0 <= i < ops.len() ==> pos_filter((#[trigger] ops[i]).positions@, s).len() == 0,
    ensures
        op_group_count(ops, s) == 0,
    decreases ops.len(),
{
    if ops.len() > 0 {
        let p = ops.drop_last();
        assert forall|i: int|
            0 <= i < p.len() implies pos_filter((#[trigger] p[i]).positions@, s).len() == 0 by {
            assert(p[i] == ops[i]);
        }
        lemma_group_count_zero(p, s);
        assert(ops.last() == ops[ops.len() - 1]);
    }
}

/// Splits a uniform page by token symbol: one group per symbol that occurs
/// (the empty symbol is skipped), each holding — per operator exposed to
/// that symbol — the operator restricted to exactly its positions of that
/// symbol, with the page bounds carried over. Groups are ordered by symbol,
/// ascending.
pub fn partition_by_token(page: &UniformPage) -> (out: AssocVec<UniformPage>)
    ensures
        out.wf(),
        forall|a: int, c: int|
            0 <= a < c < out.spec_len() ==> crate::text::lex_lt(
                #[trigger] out.key_at(a),
                #[trigger] out.key_at(c),
            ),
        forall|g: int| 0 <= g < out.spec_len() ==> (#[trigger] out.key_at(g)).len() > 0,
        forall|i: int, j: int|
            0 <= i < page.operators@.len() && 0 <= j < page.operators@[i].positions@.len()
                && (#[trigger] page.operators@[i].positions@[j]).token_symbol@.len() > 0
                ==> out.contains_key(page.operators@[i].positions@[j].token_symbol@),
        forall|g: int|
            0 <= g < out.spec_len() ==> (#[trigger] out.value_at(g)).page_meta.first
                == page.page_meta.first && out.value_at(g).page_meta.skip == page.page_meta.skip,
        forall|g: int|
            0 <= g < out.spec_len() ==> (#[trigger] out.value_at(g)).operators@.len()
                == op_group_count(page.operators@, out.key_at(g)),
        forall|g: int, k: int|
            0 <= g < out.spec_len() && 0 <= k < out.value_at(g).operators@.len() ==> (exists|
            si: int|
                0 <= si < page.operators@.len() && op_projected(
                    #[trigger] out.value_at(g).operators@[k],
                    #[trigger] page.operators@[si],
                    out.key_at(g),
                )),
{
    let ops = &page.operators;
    let n = ops.len();
    let mut out: AssocVec<UniformPage> = AssocVec::new();
    let mut i: usize = 0;
    while i < n
        invariant
            n == ops@.len(),
            ops@ == page.operators@,
            i <= n,
            out.wf(),
            forall|a: int, c: int|
                0 <= a < c < out.spec_len() ==> crate::text::lex_lt(
                    #[trigger] out.key_at(a),
                    #[trigger] out.key_at(c),
                ),
            forall|g: int| 0 <= g < out.spec_len() ==> (#[trigger] out.key_at(g)).len() > 0,
            forall|i2: int, j: int|
                0 <= i2 < i && 0 <= j < ops@[i2].positions@.len() && (
                #[trigger] ops@[i2].positions@[j]).token_symbol@.len() > 0 ==> out.contains_key(
                    ops@[i2].positions@[j].token_symbol@,
                ),
            forall|g: int|
                0 <= g < out.spec_len() ==> (#[trigger] out.value_at(g)).page_meta.first
                    == page.page_meta.first && out.value_at(g).page_meta.skip
                    == page.page_meta.skip,
            forall|g: int|
                0 <= g < out.spec_len() ==> (#[trigger] out.value_at(g)).operators@.len()
                    == op_group_count(ops@.take(i as int), out.key_at(g)),
            forall|g: int, k: int|
                0 <= g < out.spec_len() && 0 <= k < out.value_at(g).operators@.len() ==> (exists|
                si: int|
                    0 <= si < i && op_projected(
                        #[trigger] out.value_at(g).operators@[k],
                        #[trigger] ops@[si],
                        out.key_at(g),
                    )),
        decreases n - i,
    {
        proof {
            assert(ops@.take(i as int + 1).drop_last() =~= ops@.take(i as int));
            assert(ops@.take(i as int + 1).last() == ops@[i as int]);
        }
        let op = &ops[i];
        // Group this operator's positions by symbol, skipping empty symbols.
        let m = op.positions.len();
        let mut buckets: AssocVec<Vec<UniformPosition>> = AssocVec::new();
        let mut j: usize = 0;
        proof {
            assert(op.positions@.take(0) =~= Seq::<UniformPosition>::empty());
        }
        while j < m
            invariant
                m == op.positions@.len(),
                op == &ops@[i as int],
                i < n,
                n == ops@.len(),
                j <= m,
                buckets.wf(),
                forall|b: int|
                    0 <= b < buckets.spec_len() ==> (#[trigger] buckets.key_at(b)).len() > 0
                        && buckets.value_at(b)@ == pos_filter(
                        op.positions@.take(j as int),
                        buckets.key_at(b),
                    ) && buckets.value_at(b)@.len() > 0,
                forall|j2: int|
                    0 <= j2 < j && (#[trigger] op.positions@[j2]).token_symbol@.len() > 0
                        ==> buckets.contains_key(op.positions@[j2].token_symbol@),
            decreases m - j,
        {
            let ghost jj = j as int;
            proof {
                assert(op.positions@.take(jj + 1).drop_last() =~= op.positions@.take(jj));
                assert(op.positions@.take(jj + 1).last() == op.positions@[jj]);
            }
            let p = &op.positions[j];
            if !p.token_symbol.as_str().is_empty() {
                let copy = UniformPosition {
                    strategy_id: p.strategy_id.clone(),
                    token_id: p.token_id.clone(),
                    token_symbol: p.token_symbol.clone(),
                    token_decimals: p.token_decimals,
                    total_shares: p.total_shares.clone(),
                    exchange_rate: p.exchange_rate.clone(),
                };
                proof {
                    assert(copy == op.positions@[jj]);
                }
                match buckets.find(p.token_symbol.as_str()) {
                    Some(b) => {
                        proof {
                            buckets.lemma_at(b as int);
                        }
                        let ghost bk0 = buckets;
                        let mut v = buckets.replace_value_at(b, Vec::new());
                        v.push(copy);
                        buckets.set_value_at(b, v);
                        proof {
                            assert forall|b2: int|
                                0 <= b2 < buckets.spec_len() implies (
                            #[trigger] buckets.key_at(b2)).len() > 0 && buckets.value_at(b2)@
                                == pos_filter(op.positions@.take(jj + 1), buckets.key_at(b2))
                                && buckets.value_at(b2)@.len() > 0 by {
                                if b2 == b as int {
                                    assert(buckets.value_at(b2)@ =~= bk0.value_at(b2)@.push(copy));
                                    assert(pos_filter(op.positions@.take(jj + 1), buckets.key_at(b2))
                                        =~= pos_filter(op.positions@.take(jj), buckets.key_at(b2))
                                        + seq![op.positions@[jj]]);
                                } else {
                                    assert(buckets.value_at(b2) == bk0.value_at(b2));
                                    buckets.lemma_keys_distinct(b2, b as int);
                                    assert(buckets.key_at(b2) != op.positions@[jj].token_symbol@);
                                    assert(pos_filter(op.positions@.take(jj + 1), buckets.key_at(b2))
                                        =~= pos_filter(op.positions@.take(jj), buckets.key_at(b2)));
                                }
                            }
                        }
                    },
                    None => {
                        let ghost bk0 = buckets;
                        let mut v: Vec<UniformPosition> = Vec::new();
                        v.push(copy);
                        buckets.push_new(p.token_symbol.clone(), v);
                        proof {
                            assert forall|b2: int|
                                0 <= b2 < buckets.spec_len() implies (
                            #[trigger] buckets.key_at(b2)).len() > 0 && buckets.value_at(b2)@
                                == pos_filter(op.positions@.take(jj + 1), buckets.key_at(b2))
                                && buckets.value_at(b2)@.len() > 0 by {
                                if b2 == buckets.spec_len() - 1 {
                                    assert(buckets.key_at(b2) == op.positions@[jj].token_symbol@);
                                    assert(buckets.value_at(b2)@ =~= seq![op.positions@[jj]]);
                                    assert forall|j3: int|
                                        0 <= j3 < op.positions@.take(jj).len() implies (
                                    #[trigger] op.positions@.take(jj)[j3]).token_symbol@
                                        != buckets.key_at(b2) by {
                                        assert(op.positions@.take(jj)[j3] == op.positions@[j3]);
                                        if op.positions@[j3].token_symbol@ == buckets.key_at(b2) {
                                            assert(bk0.contains_key(
                                                op.positions@[j3].token_symbol@,
                                            ));
                                        }
                                    }
                                    lemma_pos_filter_empty(op.positions@.take(jj), buckets.key_at(b2));
                                    assert(pos_filter(op.positions@.take(jj + 1), buckets.key_at(b2))
                                        =~= pos_filter(op.positions@.take(jj), buckets.key_at(b2))
                                        + seq![op.positions@[jj]]);
                                } else {
                                    assert(buckets.key_at(b2) == bk0.key_at(b2));
                                    assert(buckets.value_at(b2) == bk0.value_at(b2));
                                    buckets.lemma_keys_distinct(b2, buckets.spec_len() - 1);
                                    assert(buckets.key_at(buckets.spec_len() - 1)
                                        == op.positions@[jj].token_symbol@);
                                    assert(buckets.key_at(b2) != op.positions@[jj].token_symbol@);
                                    assert(pos_filter(op.positions@.take(jj + 1), buckets.key_at(b2))
                                        =~= pos_filter(op.positions@.take(jj), buckets.key_at(b2)));
                                }
                            }
                        }
                    },
                }
            } else {
                proof {
                    assert forall|b2: int|
                        0 <= b2 < buckets.spec_len() implies (#[trigger] buckets.key_at(b2)).len()
                        > 0 && buckets.value_at(b2)@ == pos_filter(
                        op.positions@.take(jj + 1),
                        buckets.key_at(b2),
                    ) && buckets.value_at(b2)@.len() > 0 by {
                        assert(buckets.key_at(b2) != op.positions@[jj].token_symbol@);
                        assert(pos_filter(op.positions@.take(jj + 1), buckets.key_at(b2)) =~=
                            pos_filter(op.positions@.take(jj), buckets.key_at(b2)));
                    }
                }
            }
            j = j + 1;
        }
        proof {
            assert(op.positions@.take(m as int) =~= op.positions@);
        }
        // Fold each bucket into its symbol's group.
        let nb = buckets.len();
        let mut b: usize = 0;
        while b < nb
            invariant
                nb == buckets.spec_len(),
                b <= nb,
                i < n,
                n == ops@.len(),
                ops@ == page.operators@,
                op == &ops@[i as int],
                buckets.wf(),
                forall|b2: int|
                    b <= b2 < nb ==> (#[trigger] buckets.key_at(b2)).len() > 0 && buckets.value_at(
                        b2,
                    )@ == pos_filter(op.positions@, buckets.key_at(b2)) && buckets.value_at(
                        b2,
                    )@.len() > 0,
                forall|b2: int| 0 <= b2 < nb ==> (#[trigger] buckets.key_at(b2)).len() > 0,
                forall|j2: int|
                    0 <= j2 < op.positions@.len() && (
                    #[trigger] op.positions@[j2]).token_symbol@.len() > 0 ==> buckets.contains_key(
                        op.positions@[j2].token_symbol@,
                    ),
                out.wf(),
                forall|a: int, c: int|
                    0 <= a < c < out.spec_len() ==> crate::text::lex_lt(
                        #[trigger] out.key_at(a),
                        #[trigger] out.key_at(c),
                    ),
                forall|g: int| 0 <= g < out.spec_len() ==> (#[trigger] out.key_at(g)).len() > 0,
                forall|i2: int, j2: int|
                    0 <= i2 < i && 0 <= j2 < ops@[i2].positions@.len() && (
                    #[trigger] ops@[i2].positions@[j2]).token_symbol@.len() > 0
                        ==> out.contains_key(ops@[i2].positions@[j2].token_symbol@),
                forall|g: int|
                    0 <= g < out.spec_len() ==> (#[trigger] out.value_at(g)).page_meta.first
                        == page.page_meta.first && out.value_at(g).page_meta.skip
                        == page.page_meta.skip,
                forall|g: int|
                    0 <= g < out.spec_len() ==> (#[trigger] out.value_at(g)).operators@.len() == (
                    if exists|b2: int|
                        0 <= b2 < b && #[trigger] buckets.key_at(b2) == out.key_at(g) {
                        op_group_count(ops@.take(i as int + 1), out.key_at(g))
                    } else {
                        op_group_count(ops@.take(i as int), out.key_at(g))
                    }),
                forall|b2: int| 0 <= b2 < b ==> out.contains_key(#[trigger] buckets.key_at(b2)),
                forall|g: int, k: int|
                    0 <= g < out.spec_len() && 0 <= k < out.value_at(g).operators@.len() ==> (
                    exists|si: int|
                        0 <= si < i + 1 && op_projected(
                            #[trigger] out.value_at(g).operators@[k],
                            #[trigger] ops@[si],
                            out.key_at(g),
                        )),
            decreases nb - b,
        {
            proof {
                buckets.lemma_at(b as int);
                assert(ops@.take(i as int + 1).drop_last() =~= ops@.take(i as int));
                assert(ops@.take(i as int + 1).last() == ops@[i as int]);
            }
            let sym = buckets.key_ref(b).clone();
            let positions = buckets.replace_value_at(b, Vec::new());
            let ghost psv = positions@;
            let entry = UniformOperator {
                operator_id: op.operator_id.clone(),
                avs_count: op.avs_count,
                strategy_count: op.strategy_count,
                slashing_count: op.slashing_count,
                last_slash_at: op.last_slash_at,
                last_update_block_ts: op.last_update_block_ts,
                positions,
            };
            proof {
                assert(entry.positions@ == pos_filter(ops@[i as int].positions@, sym@));
                assert(op_projected(entry, ops@[i as int], sym@));
                assert(pos_filter(ops@[i as int].positions@, sym@).len() > 0);
            }
            let ghost out0 = out;
            match out.find(sym.as_str()) {
                Some(g) => {
                    proof {
                        out.lemma_at(g as int);
                    }
                    let mut grp = out.replace_value_at(g, UniformPage {
                        operators: Vec::new(),
                        page_meta: PageMeta { first: 0, skip: 0 },
                    });
                    grp.operators.push(entry);
                    let ghost grpv = grp.operators@;
                    out.set_value_at(g, grp);
                    proof {
                        assert(out.value_at(g as int).operators@ =~= out0.value_at(
                            g as int,
                        ).operators@.push(entry));
                        assert forall|a: int, c: int|
                            0 <= a < c < out.spec_len() implies crate::text::lex_lt(
                            #[trigger] out.key_at(a),
                            #[trigger] out.key_at(c),
                        ) by {
                            assert(out.key_at(a) == out0.key_at(a));
                            assert(out.key_at(c) == out0.key_at(c));
                        }
                        lemma_fold_step(out0, out, buckets, b as int, g as int, ops@, i as int, page);
                    }
                },
                None => {
                    // Find where the new symbol belongs in the ascending key
                    // order.
                    let glen = out.len();
                    let mut p: usize = 0;
                    while p < glen && crate::text::str_lt(out.key_ref(p).as_str(), sym.as_str())
                        invariant
                            glen == out.spec_len(),
                            p <= glen,
                            out.wf(),
                            out == out0,
                            forall|a: int|
                                0 <= a < p ==> crate::text::lex_lt(
                                    #[trigger] out.key_at(a),
                                    sym@,
                                ),
                        decreases glen - p,
                    {
                        p = p + 1;
                    }
                    proof {
                        if (p as int) < out.spec_len() {
                            if out.key_at(p as int) == sym@ {
                                out.lemma_at(p as int);
                                assert(false);
                            }
                            if !crate::text::lex_lt(sym@, out.key_at(p as int)) {
                                crate::text::lemma_lex_connex(sym@, out.key_at(p as int));
                                assert(false);
                            }
                        }
                        assert forall|a: int|
                            p <= a < out.spec_len() implies crate::text::lex_lt(
                            sym@,
                            #[trigger] out.key_at(a),
                        ) by {
                            if a > p as int {
                                crate::text::lemma_lex_lt_trans(
                                    sym@,
                                    out.key_at(p as int),
                                    out.key_at(a),
                                );
                            }
                        }
                    }
                    let mut v: Vec<UniformOperator> = Vec::new();
                    v.push(entry);
                    out.insert_new_at(p, sym, UniformPage {
                        operators: v,
                        page_meta: PageMeta {
                            first: page.page_meta.first,
                            skip: page.page_meta.skip,
                        },
                    });
                    proof {
                        let g = p as int;
                        assert(out.value_at(g).operators@ =~= seq![entry]);
                        assert(op_group_count(ops@.take(i as int), out.key_at(g)) == 0) by {
                            assert forall|i2: int|
                                0 <= i2 < ops@.take(i as int).len() implies pos_filter(
                                (#[trigger] ops@.take(i as int)[i2]).positions@,
                                out.key_at(g),
                            ).len() == 0 by {
                                assert(ops@.take(i as int)[i2] == ops@[i2]);
                                if pos_filter(ops@[i2].positions@, out.key_at(g)).len() > 0 {
                                    lemma_filter_member(ops@[i2].positions@, out.key_at(g));
                                    let j3 = choose|j3: int|
                                        0 <= j3 < ops@[i2].positions@.len() && (
                                        #[trigger] ops@[i2].positions@[j3]).token_symbol@
                                            == out.key_at(g);
                                    assert(out0.contains_key(
                                        ops@[i2].positions@[j3].token_symbol@,
                                    ));
                                }
                            }
                            lemma_group_count_zero(ops@.take(i as int), out.key_at(g));
                        }
                        assert forall|a: int, c: int|
                            0 <= a < c < out.spec_len() implies crate::text::lex_lt(
                            #[trigger] out.key_at(a),
                            #[trigger] out.key_at(c),
                        ) by {
                            if a != g && c != g {
                                let ao = if a < g {
                                    a
                                } else {
                                    a - 1
                                };
                                let co = if c < g {
                                    c
                                } else {
                                    c - 1
                                };
                                assert(out.key_at(a) == out0.key_at(ao));
                                assert(out.key_at(c) == out0.key_at(co));
                            } else if a == g {
                                assert(out.key_at(c) == out0.key_at(c - 1));
                            } else {
                                assert(out.key_at(a) == out0.key_at(a));
                            }
                        }
                        lemma_fold_step_new(out0, out, buckets, b as int, p as int, ops@, i as int, page);
                    }
                },
            }
            b = b + 1;
        }
        proof {
            assert forall|g: int|
                0 <= g < out.spec_len() implies (#[trigger] out.value_at(g)).operators@.len()
                    == op_group_count(ops@.take(i as int + 1), out.key_at(g)) by {
                if !(exists|b2: int|
                    0 <= b2 < nb && #[trigger] buckets.key_at(b2) == out.key_at(g))  {
                    assert(!buckets.contains_key(out.key_at(g))) by {
                        if buckets.contains_key(out.key_at(g)) {
                            buckets.lemma_contains_index(out.key_at(g));
                            let b2 = choose|b2: int|
                                0 <= b2 < buckets.spec_len() && #[trigger] buckets.key_at(b2)
                                    == out.key_at(g) && buckets.value_at(b2) == buckets.value_of(
                                    out.key_at(g),
                                );
                            assert(buckets.key_at(b2) == out.key_at(g));
                        }
                    }
                    assert(pos_filter(ops@[i as int].positions@, out.key_at(g)).len() == 0) by {
                        if pos_filter(ops@[i as int].positions@, out.key_at(g)).len() > 0 {
                            lemma_filter_member(ops@[i as int].positions@, out.key_at(g));
                            let j3 = choose|j3: int|
                                0 <= j3 < ops@[i as int].positions@.len() && (
                                #[trigger] ops@[i as int].positions@[j3]).token_symbol@
                                    == out.key_at(g);
                            assert(buckets.contains_key(
                                ops@[i as int].positions@[j3].token_symbol@,
                            ));
                        }
                    }
                    assert(ops@.take(i as int + 1).drop_last() =~= ops@.take(i as int));
                    assert(ops@.take(i as int + 1).last() == ops@[i as int]);
                }
            }
            assert forall|i2: int, j2: int|
                0 <= i2 < i + 1 && 0 <= j2 < ops@[i2].positions@.len() && (
                #[trigger] ops@[i2].positions@[j2]).token_symbol@.len() > 0 implies out.contains_key(
                ops@[i2].positions@[j2].token_symbol@,
            ) by {
                if i2 == i as int {
                    assert(buckets.contains_key(ops@[i2].positions@[j2].token_symbol@));
                    buckets.lemma_contains_index(ops@[i2].positions@[j2].token_symbol@);
                    let b2 = choose|b2: int|
                        0 <= b2 < buckets.spec_len() && #[trigger] buckets.key_at(b2)
                            == ops@[i2].positions@[j2].token_symbol@ && buckets.value_at(b2)
                            == buckets.value_of(ops@[i2].positions@[j2].token_symbol@);
                    assert(out.contains_key(buckets.key_at(b2)));
                }
            }
        }
        i = i + 1;
    }
    proof {
        assert(ops@.take(n as int) =~= ops@);
    }
    out
}

/// A nonempty filter names a position with that symbol.
proof fn lemma_filter_member(ps: Seq<UniformPosition>, s: Seq<char>)
    requires
        pos_filter(ps, s).len() > 0,
    ensures
        exists|j: int| 0 <= j < ps.len() && (#[trigger] ps[j]).token_symbol@ == s,
    decreases ps.len(),
{
    if ps.len() > 0 {
        if ps.last().token_symbol@ == s {
            assert(ps[ps.len() - 1].token_symbol@ == s);
        } else {
            lemma_filter_member(ps.drop_last(), s);
            let j = choose|j: int|
                0 <= j < ps.drop_last().len() && (#[trigger] ps.drop_last()[j]).token_symbol@ == s;
            assert(ps[j].token_symbol@ == s);
        }
    }
}

/// After folding one bucket into an existing group, the count and content
/// invariants of the fold loop hold again.
proof fn lemma_fold_step(
    out0: AssocVec<UniformPage>,
    out: AssocVec<UniformPage>,
    buckets: AssocVec<Vec<UniformPosition>>,
    b: int,
    g: int,
    ops: Seq<UniformOperator>,
    i: int,
    page: &UniformPage,
)
    requires
        out0.wf(),
        out.wf(),
        buckets.wf(),
        0 <= b < buckets.spec_len(),
        0 <= g < out0.spec_len(),
        0 <= i < ops.len(),
        out.spec_len() == out0.spec_len(),
        forall|g2: int| 0 <= g2 < out0.spec_len() ==> #[trigger] out.key_at(g2) == out0.key_at(g2),
        forall|g2: int|
            0 <= g2 < out0.spec_len() && g2 != g ==> #[trigger] out.value_at(g2) == out0.value_at(
                g2,
            ),
        out0.key_at(g) == buckets.key_at(b),
        out.value_at(g).operators@.len() == out0.value_at(g).operators@.len() + 1,
        pos_filter(ops[i].positions@, buckets.key_at(b)).len() > 0,
        forall|g2: int|
            0 <= g2 < out0.spec_len() ==> (#[trigger] out0.value_at(g2)).operators@.len() == (
            if exists|b2: int| 0 <= b2 < b && #[trigger] buckets.key_at(b2) == out0.key_at(g2) {
                op_group_count(ops.take(i + 1), out0.key_at(g2))
            } else {
                op_group_count(ops.take(i), out0.key_at(g2))
            }),
    ensures
        forall|g2: int|
            0 <= g2 < out.spec_len() ==> (#[trigger] out.value_at(g2)).operators@.len() == (
            if exists|b2: int| 0 <= b2 < b + 1 && #[trigger] buckets.key_at(b2) == out.key_at(g2) {
                op_group_count(ops.take(i + 1), out.key_at(g2))
            } else {
                op_group_count(ops.take(i), out.key_at(g2))
            }),
{
    assert(ops.take(i + 1).drop_last() =~= ops.take(i));
    assert(ops.take(i + 1).last() == ops[i]);
    assert forall|g2: int|
        0 <= g2 < out.spec_len() implies (#[trigger] out.value_at(g2)).operators@.len() == (
    if exists|b2: int| 0 <= b2 < b + 1 && #[trigger] buckets.key_at(b2) == out.key_at(g2) {
        op_group_count(ops.take(i + 1), out.key_at(g2))
    } else {
        op_group_count(ops.take(i), out.key_at(g2))
    }) by {
        if g2 == g {
            // the bucket folded just now was not folded before
            assert(!(exists|b2: int|
                0 <= b2 < b && #[trigger] buckets.key_at(b2) == out0.key_at(g2))) by {
                if exists|b2: int|
                    0 <= b2 < b && #[trigger] buckets.key_at(b2) == out0.key_at(g2) {
                    let b2 = choose|b2: int|
                        0 <= b2 < b && #[trigger] buckets.key_at(b2) == out0.key_at(g2);
                    assert(buckets.key_at(b2) == buckets.key_at(b));
                    buckets.lemma_keys_distinct(b2, b);
                }
            }
            assert(buckets.key_at(b) == out.key_at(g2));
            assert(op_group_count(ops.take(i + 1), out.key_at(g2)) == op_group_count(
                ops.take(i),
                out.key_at(g2),
            ) + 1);
        } else {
            out.lemma_keys_distinct(g2, g);
            assert(out.key_at(g2) != buckets.key_at(b));
            if exists|b2: int|
                0 <= b2 < b + 1 && #[trigger] buckets.key_at(b2) == out.key_at(g2) {
                let b2 = choose|b2: int|
                    0 <= b2 < b + 1 && #[trigger] buckets.key_at(b2) == out.key_at(g2);
                assert(b2 != b);
                assert(exists|b3: int|
                    0 <= b3 < b && #[trigger] buckets.key_at(b3) == out.key_at(g2));
            }
        }
    }
}

/// After creating a fresh group from one bucket, the count invariant of the
/// fold loop holds again.
proof fn lemma_fold_step_new(
    out0: AssocVec<UniformPage>,
    out: AssocVec<UniformPage>,
    buckets: AssocVec<Vec<UniformPosition>>,
    b: int,
    p: int,
    ops: Seq<UniformOperator>,
    i: int,
    page: &UniformPage,
)
    requires
        out0.wf(),
        out.wf(),
        buckets.wf(),
        0 <= b < buckets.spec_len(),
        0 <= i < ops.len(),
        0 <= p <= out0.spec_len(),
        out.spec_len() == out0.spec_len() + 1,
        forall|g2: int|
            0 <= g2 < p ==> #[trigger] out.key_at(g2) == out0.key_at(g2) && out.value_at(g2)
                == out0.value_at(g2),
        forall|g2: int|
            p < g2 < out.spec_len() ==> #[trigger] out.key_at(g2) == out0.key_at(g2 - 1)
                && out.value_at(g2) == out0.value_at(g2 - 1),
        out.key_at(p) == buckets.key_at(b),
        out.value_at(p).operators@.len() == 1,
        !out0.contains_key(buckets.key_at(b)),
        pos_filter(ops[i].positions@, buckets.key_at(b)).len() > 0,
        op_group_count(ops.take(i), buckets.key_at(b)) == 0,
        forall|g2: int|
            0 <= g2 < out0.spec_len() ==> (#[trigger] out0.value_at(g2)).operators@.len() == (
            if exists|b2: int| 0 <= b2 < b && #[trigger] buckets.key_at(b2) == out0.key_at(g2) {
                op_group_count(ops.take(i + 1), out0.key_at(g2))
            } else {
                op_group_count(ops.take(i), out0.key_at(g2))
            }),
    ensures
        forall|g2: int|
            0 <= g2 < out.spec_len() ==> (#[trigger] out.value_at(g2)).operators@.len() == (
            if exists|b2: int| 0 <= b2 < b + 1 && #[trigger] buckets.key_at(b2) == out.key_at(g2) {
                op_group_count(ops.take(i + 1), out.key_at(g2))
            } else {
                op_group_count(ops.take(i), out.key_at(g2))
            }),
{
    assert(ops.take(i + 1).drop_last() =~= ops.take(i));
    assert(ops.take(i + 1).last() == ops[i]);
    assert forall|g2: int|
        0 <= g2 < out.spec_len() implies (#[trigger] out.value_at(g2)).operators@.len() == (
    if exists|b2: int| 0 <= b2 < b + 1 && #[trigger] buckets.key_at(b2) == out.key_at(g2) {
        op_group_count(ops.take(i + 1), out.key_at(g2))
    } else {
        op_group_count(ops.take(i), out.key_at(g2))
    }) by {
        if g2 == p {
            assert(buckets.key_at(b) == out.key_at(g2));
            assert(op_group_count(ops.take(i + 1), out.key_at(g2)) == 1);
        } else {
            // the fresh group's key is new, so the other groups cannot name
            // the bucket folded just now
            let go = if g2 < p {
                g2
            } else {
                g2 - 1
            };
            assert(out.key_at(g2) == out0.key_at(go));
            assert(out.value_at(g2) == out0.value_at(go));
            if out.key_at(g2) == buckets.key_at(b) {
                assert(out0.contains_key(buckets.key_at(b))) by {
                    out0.lemma_at(go);
                }
            }
            if exists|b2: int|
                0 <= b2 < b + 1 && #[trigger] buckets.key_at(b2) == out.key_at(g2) {
                let b2 = choose|b2: int|
                    0 <= b2 < b + 1 && #[trigger] buckets.key_at(b2) == out.key_at(g2);
                assert(b2 != b);
                assert(exists|b3: int|
                    0 <= b3 < b && #[trigger] buckets.key_at(b3) == out.key_at(g2));
            }
        }
    }
}

/// A position that counts toward locked value: positive decimal share and
/// rate amounts.
pub open spec fn contributes(p: OperatorStrategyPosition) -> bool {
    &&& p.total_shares_atomic.0@.len() >= 1
    &&& crate::dec::all_digits(p.total_shares_atomic.0@)
    &&& crate::dec::dec_val(p.total_shares_atomic.0@) > 0
    &&& p.exchange_rate_atomic.0@.len() >= 1
    &&& crate::dec::all_digits(p.exchange_rate_atomic.0@)
    &&& crate::dec::dec_val(p.exchange_rate_atomic.0@) > 0
}

/// The atomic value of one contributing position: shares times rate, scaled
/// down by the token's decimals.
pub open spec fn pos_amount(p: OperatorStrategyPosition) -> int {
    crate::dec::dec_val(p.total_shares_atomic.0@) * crate::dec::dec_val(p.exchange_rate_atomic.0@)
        / vstd::arithmetic::power::pow(10, p.token.decimals as nat)
}

/// The summed value of token `tid` over a position list.
pub open spec fn tvl_sum(ps: Seq<OperatorStrategyPosition>, tid: Seq<char>) -> int
    decreases ps.len(),
{
    if ps.len() == 0 {
        0
    } else {
        tvl_sum(ps.drop_last(), tid) + if contributes(ps.last()) && ps.last().token.id.0@ == tid {
            pos_amount(ps.last())
        } else {
            0int
        }
    }
}

proof fn lemma_tvl_sum_zero(ps: Seq<OperatorStrategyPosition>, tid: Seq<char>)
    requires
        forall|k: int|
            0 <= k < ps.len() ==> !(contributes(#[trigger] ps[k]) && ps[k].token.id.0@ == tid),
    ensures
        tvl_sum(ps, tid) == 0,
    decreases ps.len(),
{
    if ps.len() > 0 {
        let p = ps.drop_last();
        assert forall|k: int|
            0 <= k < p.len() implies !(contributes(#[trigger] p[k]) && p[k].token.id.0@ == tid) by {
            assert(p[k] == ps[k]);
        }
        lemma_tvl_sum_zero(p, tid);
        assert(ps.last() == ps[ps.len() - 1]);
    }
}

/// Rolls positions up into per-token locked value: one entry per token that
/// any contributing position names, carrying the exact sum of the scaled
/// share values and the token reference of the first such position.
#[verifier::rlimit(80)]
pub fn compute_tvl_by_token(positions: &Vec<OperatorStrategyPosition>) -> (out: Vec<TvlByToken>)
    ensures
        forall|a: int, b: int|
            0 <= a < b < out@.len() ==> (#[trigger] out@[a]).token.id.0@ != (
            #[trigger] out@[b]).token.id.0@,
        forall|g: int|
            0 <= g < out@.len() ==> crate::dec::dec_val((#[trigger] out@[g]).amount_atomic.0@)
                == tvl_sum(positions@, out@[g].token.id.0@) && crate::dec::is_canon_dec(
                out@[g].amount_atomic.0@,
            ) && (exists|j: int|
                0 <= j < positions@.len() && contributes(#[trigger] positions@[j])
                    && positions@[j].token.id.0@ == out@[g].token.id.0@ && out@[g].token
                    == positions@[j].token),
        forall|k: int|
            0 <= k < positions@.len() && contributes(#[trigger] positions@[k]) ==> (exists|g: int|
                0 <= g < out@.len() && (#[trigger] out@[g]).token.id.0@
                    == positions@[k].token.id.0@),
{
    let n = positions.len();
    let mut out: Vec<TvlByToken> = Vec::new();
    let mut i: usize = 0;
    proof {
        reveal_strlit("0");
        assert("0"@ =~= seq!['0']);
        assert("0"@.drop_last() =~= Seq::<char>::empty());
        assert(crate::dec::dec_val(Seq::<char>::empty()) == 0);
        assert(crate::dec::dec_val("0"@) == 0);
        assert(crate::dec::is_dec_digit('0'));
    }
    while i < n
        invariant
            n == positions@.len(),
            i <= n,
            crate::dec::dec_val("0"@) == 0,
            "0"@.len() == 1,
            crate::dec::all_digits("0"@),
            forall|a: int, b: int|
                0 <= a < b < out@.len() ==> (#[trigger] out@[a]).token.id.0@ != (
                #[trigger] out@[b]).token.id.0@,
            forall|g: int|
                0 <= g < out@.len() ==> crate::dec::dec_val((#[trigger] out@[g]).amount_atomic.0@)
                    == tvl_sum(positions@.take(i as int), out@[g].token.id.0@)
                    && crate::dec::is_canon_dec(out@[g].amount_atomic.0@) && (exists|j: int|
                    0 <= j < i && contributes(#[trigger] positions@[j]) && positions@[j].token.id.0@
                        == out@[g].token.id.0@ && out@[g].token == positions@[j].token),
            forall|k: int|
                0 <= k < i && contributes(#[trigger] positions@[k]) ==> (exists|g: int|
                    0 <= g < out@.len() && (#[trigger] out@[g]).token.id.0@
                        == positions@[k].token.id.0@),
        decreases n - i,
    {
        let ghost ii = i as int;
        proof {
            assert(positions@.take(ii + 1).drop_last() =~= positions@.take(ii));
            assert(positions@.take(ii + 1).last() == positions@[ii]);
        }
        let p = &positions[i];
        let shares_ok = crate::dec::check_digits(p.total_shares_atomic.0.as_str());
        let rate_ok = crate::dec::check_digits(p.exchange_rate_atomic.0.as_str());
        let good = shares_ok && rate_ok && crate::bignum::big_cmp_dec(
            "0",
            p.total_shares_atomic.0.as_str(),
        ) == -1 && crate::bignum::big_cmp_dec("0", p.exchange_rate_atomic.0.as_str()) == -1;
        if good {
            proof {
                assert(contributes(positions@[ii]));
            }
            let num = crate::bignum::big_mul_dec(
                p.total_shares_atomic.0.as_str(),
                p.exchange_rate_atomic.0.as_str(),
            );
            let scale = crate::dec::pow10_dec(p.token.decimals as usize);
            proof {
                vstd::arithmetic::power::lemma_pow_positive(10, p.token.decimals as nat);
            }
            let amount = crate::bignum::big_div_dec(num.as_str(), scale.as_str());
            proof {
                assert(crate::dec::dec_val(amount@) == pos_amount(positions@[ii]));
            }
            let m = out.len();
            let mut g: usize = 0;
            let mut found = false;
            while g < m && !found
                invariant
                    m == out@.len(),
                    g <= m,
                    !found ==> (forall|a: int|
                        0 <= a < g ==> (#[trigger] out@[a]).token.id.0@
                            != positions@[ii].token.id.0@),
                    found ==> g < m && out@[g as int].token.id.0@ == positions@[ii].token.id.0@,
                    p == &positions@[ii],
                decreases m - g + if found {
                    0int
                } else {
                    1int
                },
            {
                if crate::text::str_eq(out[g].token.id.0.as_str(), p.token.id.0.as_str()) {
                    found = true;
                } else {
                    g = g + 1;
                }
            }
            let ghost out0 = out@;
            if found {
                let cur = &out[g];
                let newsum = crate::bignum::big_add_dec(
                    cur.amount_atomic.0.as_str(),
                    amount.as_str(),
                );
                let tok = TokenRef {
                    id: TokenId(cur.token.id.0.clone()),
                    symbol: cur.token.symbol.clone(),
                    decimals: cur.token.decimals,
                };
                proof {
                    assert(tok == out0[g as int].token);
                }
                out.set(g, TvlByToken { token: tok, amount_atomic: AtomicAmount(newsum) });
                proof {
                    assert forall|g2: int|
                        0 <= g2 < out@.len() implies crate::dec::dec_val(
                        (#[trigger] out@[g2]).amount_atomic.0@,
                    ) == tvl_sum(positions@.take(ii + 1), out@[g2].token.id.0@)
                        && crate::dec::is_canon_dec(out@[g2].amount_atomic.0@) && (exists|j: int|
                        0 <= j < ii + 1 && contributes(#[trigger] positions@[j])
                            && positions@[j].token.id.0@ == out@[g2].token.id.0@ && out@[g2].token
                            == positions@[j].token) by {
                        if g2 != g as int {
                            assert(out@[g2] == out0[g2]);
                            assert(out0[g2].token.id.0@ != positions@[ii].token.id.0@);
                        }
                    }
                    assert forall|a: int, b: int|
                        0 <= a < b < out@.len() implies (#[trigger] out@[a]).token.id.0@ != (
                    #[trigger] out@[b]).token.id.0@ by {
                        assert(out@[a].token.id.0@ == out0[a].token.id.0@);
                        assert(out@[b].token.id.0@ == out0[b].token.id.0@);
                    }
                    assert forall|k: int|
                        0 <= k < ii + 1 && contributes(#[trigger] positions@[k]) implies (exists|
                    g2: int|
                        0 <= g2 < out@.len() && (#[trigger] out@[g2]).token.id.0@
                            == positions@[k].token.id.0@) by {
                        if k < ii {
                            let gx = choose|gx: int|
                                0 <= gx < out0.len() && (#[trigger] out0[gx]).token.id.0@
                                    == positions@[k].token.id.0@;
                            assert(out@[gx].token.id.0@ == out0[gx].token.id.0@);
                        } else {
                            assert(out@[g as int].token.id.0@ == positions@[ii].token.id.0@);
                        }
                    }
                }
            } else {
                proof {
                    assert forall|k: int|
                        0 <= k < positions@.take(ii).len() implies !(contributes(
                        #[trigger] positions@.take(ii)[k],
                    ) && positions@.take(ii)[k].token.id.0@ == positions@[ii].token.id.0@) by {
                        assert(positions@.take(ii)[k] == positions@[k]);
                        if contributes(positions@[k]) && positions@[k].token.id.0@
                            == positions@[ii].token.id.0@ {
                            let gx = choose|gx: int|
                                0 <= gx < out@.len() && (#[trigger] out@[gx]).token.id.0@
                                    == positions@[k].token.id.0@;
                            assert(out@[gx].token.id.0@ != positions@[ii].token.id.0@);
                        }
                    }
                    lemma_tvl_sum_zero(positions@.take(ii), positions@[ii].token.id.0@);
                }
                let tok = TokenRef {
                    id: TokenId(p.token.id.0.clone()),
                    symbol: p.token.symbol.clone(),
                    decimals: p.token.decimals,
                };
                proof {
                    assert(tok == positions@[ii].token);
                }
                out.push(TvlByToken { token: tok, amount_atomic: AtomicAmount(amount) });
                proof {
                    assert forall|g2: int|
                        0 <= g2 < out@.len() implies crate::dec::dec_val(
                        (#[trigger] out@[g2]).amount_atomic.0@,
                    ) == tvl_sum(positions@.take(ii + 1), out@[g2].token.id.0@)
                        && crate::dec::is_canon_dec(out@[g2].amount_atomic.0@) && (exists|j: int|
                        0 <= j < ii + 1 && contributes(#[trigger] positions@[j])
                            && positions@[j].token.id.0@ == out@[g2].token.id.0@ && out@[g2].token
                            == positions@[j].token) by {
                        if g2 < out@.len() - 1 {
                            assert(out@[g2] == out0[g2]);
                            assert(out0[g2].token.id.0@ != positions@[ii].token.id.0@);
                        } else {
                            assert(out@[g2].token.id.0@ == positions@[ii].token.id.0@);
                        }
                    }
                    assert forall|a: int, b: int|
                        0 <= a < b < out@.len() implies (#[trigger] out@[a]).token.id.0@ != (
                    #[trigger] out@[b]).token.id.0@ by {
                        if b < out@.len() - 1 {
                            assert(out@[a] == out0[a] && out@[b] == out0[b]);
                        } else {
                            assert(out@[a] == out0[a]);
                            assert(out0[a].token.id.0@ != positions@[ii].token.id.0@);
                        }
                    }
                    assert forall|k: int|
                        0 <= k < ii + 1 && contributes(#[trigger] positions@[k]) implies (exists|
                    g2: int|
                        0 <= g2 < out@.len() && (#[trigger] out@[g2]).token.id.0@
                            == positions@[k].token.id.0@) by {
                        if k < ii {
                            let gx = choose|gx: int|
                                0 <= gx < out0.len() && (#[trigger] out0[gx]).token.id.0@
                                    == positions@[k].token.id.0@;
                            assert(out@[gx] == out0[gx]);
                        } else {
                            assert(out@[out@.len() - 1].token.id.0@
                                == positions@[ii].token.id.0@);
                        }
                    }
                }
            }
        } else {
            proof {
                assert(!contributes(positions@[ii]));
                assert forall|g2: int|
                    0 <= g2 < out@.len() implies crate::dec::dec_val(
                    (#[trigger] out@[g2]).amount_atomic.0@,
                ) == tvl_sum(positions@.take(ii + 1), out@[g2].token.id.0@) by {}
            }
        }
        i = i + 1;
    }
    proof {
        assert(positions@.take(n as int) =~= positions@);
    }
    out
}

} // verus!