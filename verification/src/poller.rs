//! The pull-side ingestion core: per-topic cursor selection, the strict
//! `(ts, id)` acceptance filter that makes overlap re-fetching safe, and the
//! cold-start bootstrap bookkeeping.
//!
//! Every decision of the polling loop lives here as a verified function on
//! plain values; the loop around it only fetches pages and hands them in.

use vstd::prelude::*;
use crate::dec::{i64_or_zero, parse_i64_or_zero};
use crate::sink::DepositRow;
use crate::state::{pair_lt, Cursor, Event, StreamState};
use crate::sink::MemSink;
use crate::bucket::BucketPoint;
use crate::text::{lemma_lex_connex, lemma_lex_lt_asym, lemma_lex_lt_irrefl, lemma_lex_lt_trans};

verus! {

/// A token reference as the pull source reports it.
#[derive(Clone, Debug)]
pub struct TokenLite {
    pub id: String,
    pub symbol: String,
    pub decimals: Option<i32>,
}

/// The staker reference of a deposit.
#[derive(Clone, Debug)]
pub struct StakerLite {
    pub id: String,
}

/// The strategy reference of a deposit.
#[derive(Clone, Debug)]
pub struct StrategyLite {
    pub id: String,
}

/// One deposit as the pull source reports it: numbers still in their
/// decimal-string form.
#[derive(Clone, Debug)]
pub struct DepositDto {
    pub id: String,
    pub token: Option<TokenLite>,
    pub staker: StakerLite,
    pub strategy: StrategyLite,
    pub shares: String,
    pub block_number: String,
    pub block_timestamp: String,
    pub transaction_hash: String,
}

/// The timestamp of a reported deposit, read leniently.
pub open spec fn dep_ts(d: DepositDto) -> int {
    i64_or_zero(d.block_timestamp@)
}

/// The acceptance rule: a deposit passes only if its `(ts, id)` lies
/// strictly beyond the pre-tick cursor.
pub open spec fn accepted(d: DepositDto, last_ts: int, last_id: Seq<char>) -> bool {
    pair_lt(last_ts, last_id, dep_ts(d), d.id@)
}

/// The deposits of `deps` that pass the acceptance rule, in order.
pub open spec fn accept_rows(deps: Seq<DepositDto>, last_ts: int, last_id: Seq<char>) -> Seq<
    DepositDto,
>
    decreases deps.len(),
{
    if deps.len() == 0 {
        Seq::<DepositDto>::empty()
    } else {
        accept_rows(deps.drop_last(), last_ts, last_id) + if accepted(
            deps.last(),
            last_ts,
            last_id,
        ) {
            seq![deps.last()]
        } else {
            Seq::<DepositDto>::empty()
        }
    }
}

/// The running `(max_ts, max_id)` watermark after scanning `deps`: seeded
/// with `(mts, mid)` and raised by every accepted deposit that lies beyond
/// it.
pub open spec fn max_after(
    deps: Seq<DepositDto>,
    last_ts: int,
    last_id: Seq<char>,
    mts: int,
    mid: Seq<char>,
) -> (int, Seq<char>)
    decreases deps.len(),
{
    if deps.len() == 0 {
        (mts, mid)
    } else {
        let m = max_after(deps.drop_last(), last_ts, last_id, mts, mid);
        if accepted(deps.last(), last_ts, last_id) && pair_lt(
            m.0,
            m.1,
            dep_ts(deps.last()),
            deps.last().id@,
        ) {
            (dep_ts(deps.last()), deps.last().id@)
        } else {
            m
        }
    }
}

/// Exactly one of: `a` before `b`, `b` before `a`, or the pairs are equal.
pub proof fn lemma_pair_trichotomy(a_ts: int, a_id: Seq<char>, b_ts: int, b_id: Seq<char>)
    ensures
        pair_lt(a_ts, a_id, b_ts, b_id) || pair_lt(b_ts, b_id, a_ts, a_id) || (a_ts == b_ts && a_id
            == b_id),
{
    if a_ts == b_ts && !crate::text::lex_lt(a_id, b_id) && !crate::text::lex_lt(b_id, a_id) {
        lemma_lex_connex(a_id, b_id);
    }
}

/// The pair order is transitive.
pub proof fn lemma_pair_lt_trans(
    a_ts: int,
    a_id: Seq<char>,
    b_ts: int,
    b_id: Seq<char>,
    c_ts: int,
    c_id: Seq<char>,
)
    requires
        pair_lt(a_ts, a_id, b_ts, b_id),
        pair_lt(b_ts, b_id, c_ts, c_id),
    ensures
        pair_lt(a_ts, a_id, c_ts, c_id),
{
    if a_ts == b_ts && b_ts == c_ts {
        lemma_lex_lt_trans(a_id, b_id, c_id);
    }
}

proof fn lemma_max_after_ge_seed(
    deps: Seq<DepositDto>,
    last_ts: int,
    last_id: Seq<char>,
    mts: int,
    mid: Seq<char>,
)
    ensures
        ({
            let m = max_after(deps, last_ts, last_id, mts, mid);
            !pair_lt(m.0, m.1, mts, mid)
        }),
    decreases deps.len(),
{
    lemma_lex_lt_irrefl(mid);
    if deps.len() > 0 {
        lemma_max_after_ge_seed(deps.drop_last(), last_ts, last_id, mts, mid);
        let m = max_after(deps.drop_last(), last_ts, last_id, mts, mid);
        let w = max_after(deps, last_ts, last_id, mts, mid);
        if w != m {
            if pair_lt(w.0, w.1, mts, mid) {
                lemma_pair_trichotomy(m.0, m.1, mts, mid);
                if m.0 == mts && m.1 == mid {
                    lemma_pair_lt_trans(w.0, w.1, mts, mid, w.0, w.1);
                    lemma_lex_lt_irrefl(w.1);
                } else {
                    lemma_pair_lt_trans(w.0, w.1, mts, mid, m.0, m.1);
                    lemma_pair_lt_trans(m.0, m.1, w.0, w.1, m.0, m.1);
                    lemma_lex_lt_irrefl(m.1);
                }
            }
        }
    }
}

proof fn lemma_max_after_covers(
    deps: Seq<DepositDto>,
    last_ts: int,
    last_id: Seq<char>,
    mts: int,
    mid: Seq<char>,
)
    requires
        !pair_lt(mts, mid, last_ts, last_id),
    ensures
        ({
            let m = max_after(deps, last_ts, last_id, mts, mid);
            &&& !pair_lt(m.0, m.1, last_ts, last_id)
            &&& (forall|k: int|
                0 <= k < deps.len() ==> !pair_lt(
                    m.0,
                    m.1,
                    dep_ts(#[trigger] deps[k]),
                    deps[k].id@,
                ))
        }),
    decreases deps.len(),
{
    let m = max_after(deps, last_ts, last_id, mts, mid);
    lemma_max_after_ge_seed(deps, last_ts, last_id, mts, mid);
    if pair_lt(m.0, m.1, last_ts, last_id) {
        lemma_pair_trichotomy(mts, mid, last_ts, last_id);
        if mts == last_ts && mid == last_id {
        } else {
            lemma_pair_lt_trans(m.0, m.1, last_ts, last_id, mts, mid);
        }
    }
    if deps.len() > 0 {
        let p = deps.drop_last();
        let mp = max_after(p, last_ts, last_id, mts, mid);
        lemma_max_after_covers(p, last_ts, last_id, mts, mid);
        assert forall|k: int|
            0 <= k < deps.len() implies !pair_lt(m.0, m.1, dep_ts(#[trigger] deps[k]), deps[k].id@)
            by {
            if k < deps.len() - 1 {
                assert(deps[k] == p[k]);
                assert(!pair_lt(mp.0, mp.1, dep_ts(deps[k]), deps[k].id@));
                if pair_lt(m.0, m.1, dep_ts(deps[k]), deps[k].id@) {
                    // m >= mp in the pair order, so a pair beyond m is beyond mp.
                    if m != mp {
                        lemma_pair_lt_trans(
                            mp.0,
                            mp.1,
                            m.0,
                            m.1,
                            dep_ts(deps[k]),
                            deps[k].id@,
                        );
                    }
                }
            } else {
                let d = deps.last();
                assert(deps[k] == d);
                if pair_lt(m.0, m.1, dep_ts(d), d.id@) {
                    if accepted(d, last_ts, last_id) && pair_lt(mp.0, mp.1, dep_ts(d), d.id@) {
                        lemma_lex_lt_irrefl(d.id@);
                    } else if accepted(d, last_ts, last_id) {
                        // m == mp and mp is not below d, contradiction.
                        assert(m == mp);
                        assert(!pair_lt(mp.0, mp.1, dep_ts(d), d.id@));
                    } else {
                        // d was rejected: its pair does not exceed the pre-tick
                        // cursor, which the watermark never drops below.
                        assert(m == mp);
                        assert(!pair_lt(last_ts, last_id, dep_ts(d), d.id@));
                        lemma_pair_trichotomy(dep_ts(d), d.id@, last_ts, last_id);
                        if dep_ts(d) == last_ts && d.id@ == last_id {
                            assert(!pair_lt(mp.0, mp.1, last_ts, last_id));
                        } else {
                            assert(pair_lt(dep_ts(d), d.id@, last_ts, last_id));
                            if pair_lt(mp.0, mp.1, dep_ts(d), d.id@) {
                                lemma_pair_lt_trans(
                                    mp.0,
                                    mp.1,
                                    dep_ts(d),
                                    d.id@,
                                    last_ts,
                                    last_id,
                                );
                                assert(!pair_lt(mp.0, mp.1, last_ts, last_id));
                            }
                        }
                    }
                }
            }
        }
    }
}

/// Re-fetching yields no new acceptances: after a scan has raised the cursor
/// to its watermark, running the same deposits through the acceptance rule
/// against that watermark accepts nothing — overlap windows cannot
/// duplicate events.
pub proof fn lemma_refetch_no_new(deps: Seq<DepositDto>, last_ts: int, last_id: Seq<char>)
    ensures
        ({
            let m = max_after(deps, last_ts, last_id, last_ts, last_id);
            accept_rows(deps, m.0, m.1).len() == 0
        }),
{
    let m = max_after(deps, last_ts, last_id, last_ts, last_id);
    lemma_lex_lt_irrefl(last_id);
    lemma_max_after_covers(deps, last_ts, last_id, last_ts, last_id);
    lemma_accept_rows_empty(deps, m.0, m.1);
}

/// `row` is the stored form of the reported deposit `d`: numbers parsed
/// leniently, token fields from the report or from the topic's own
/// resolution when the report omits them.
pub open spec fn row_matches(
    row: DepositRow,
    d: DepositDto,
    fallback_id: Seq<char>,
    fallback_label: Seq<char>,
) -> bool {
    &&& row.id@ == d.id@
    &&& row.block_timestamp as int == dep_ts(d)
    &&& row.block_number as int == i64_or_zero(d.block_number@)
    &&& row.staker@ == d.staker.id@
    &&& row.strategy_id@ == d.strategy.id@
    &&& row.shares@ == d.shares@
    &&& row.tx_hash@ == d.transaction_hash@
    &&& (match d.token {
        Some(t) => row.token_id@ == t.id@ && row.token_symbol@ == t.symbol@,
        None => row.token_id@ == fallback_id && row.token_symbol@ == fallback_label,
    })
}

/// One steady-state scan: keeps exactly the deposits lying strictly beyond
/// the pre-tick cursor `(last_ts, last_id)`, in order, as storable rows, and
/// returns the raised `(max_ts, max_id)` watermark. Every kept row is
/// strictly beyond the pre-tick cursor — no event is accepted twice.
pub fn accept_deposits(
    deposits: &Vec<DepositDto>,
    token_id: &str,
    token_label: &str,
    last_ts: i64,
    last_id: &str,
) -> (r: (Vec<DepositRow>, i64, String))
    ensures
        ({
            let acc = accept_rows(deposits@, last_ts as int, last_id@);
            let m = max_after(deposits@, last_ts as int, last_id@, last_ts as int, last_id@);
            &&& r.0@.len() == acc.len()
            &&& (forall|k: int|
                0 <= k < acc.len() ==> row_matches(
                    #[trigger] r.0@[k],
                    acc[k],
                    token_id@,
                    token_label@,
                ))
            &&& (forall|k: int|
                0 <= k < r.0@.len() ==> pair_lt(
                    last_ts as int,
                    last_id@,
                    (#[trigger] r.0@[k]).block_timestamp as int,
                    r.0@[k].id@,
                ))
            &&& r.1 as int == m.0
            &&& r.2@ == m.1
        }),
{
    let n = deposits.len();
    let mut rows: Vec<DepositRow> = Vec::new();
    let mut max_ts = last_ts;
    let mut max_id = last_id.to_owned();
    let mut i: usize = 0;
    proof {
        assert(deposits@.take(0) =~= Seq::<DepositDto>::empty());
    }
    while i < n
        invariant
            n == deposits@.len(),
            i <= n,
            rows@.len() == accept_rows(deposits@.take(i as int), last_ts as int, last_id@).len(),
            forall|k: int|
                0 <= k < rows@.len() ==> row_matches(
                    #[trigger] rows@[k],
                    accept_rows(deposits@.take(i as int), last_ts as int, last_id@)[k],
                    token_id@,
                    token_label@,
                ),
            forall|k: int|
                0 <= k < rows@.len() ==> pair_lt(
                    last_ts as int,
                    last_id@,
                    (#[trigger] rows@[k]).block_timestamp as int,
                    rows@[k].id@,
                ),
            max_ts as int == max_after(
                deposits@.take(i as int),
                last_ts as int,
                last_id@,
                last_ts as int,
                last_id@,
            ).0,
            max_id@ == max_after(
                deposits@.take(i as int),
                last_ts as int,
                last_id@,
                last_ts as int,
                last_id@,
            ).1,
        decreases n - i,
    {
        let ghost pre = deposits@.take(i as int);
        let ghost acc_pre = accept_rows(pre, last_ts as int, last_id@);
        proof {
            assert(deposits@.take(i as int + 1).drop_last() =~= pre);
            assert(deposits@.take(i as int + 1).last() == deposits@[i as int]);
        }
        let d = &deposits[i];
        let ts = parse_i64_or_zero(d.block_timestamp.as_str());
        let acc = ts > last_ts || (ts == last_ts && crate::text::str_lt(last_id, d.id.as_str()));
        if acc {
            let bn = parse_i64_or_zero(d.block_number.as_str());
            let tid: String;
            let tsym: String;
            match &d.token {
                Some(t) => {
                    tid = t.id.clone();
                    tsym = t.symbol.clone();
                },
                None => {
                    tid = token_id.to_owned();
                    tsym = token_label.to_owned();
                },
            }
            rows.push(
                DepositRow {
                    id: d.id.clone(),
                    token_id: tid,
                    token_symbol: tsym,
                    staker: d.staker.id.clone(),
                    strategy_id: d.strategy.id.clone(),
                    shares: d.shares.clone(),
                    block_number: bn,
                    block_timestamp: ts,
                    tx_hash: d.transaction_hash.clone(),
                },
            );
            proof {
                assert(accept_rows(deposits@.take(i as int + 1), last_ts as int, last_id@) =~=
                    acc_pre + seq![deposits@[i as int]]);
                assert(rows@.last() == rows@[rows@.len() - 1]);
                assert forall|k: int|
                    0 <= k < rows@.len() implies row_matches(
                    #[trigger] rows@[k],
                    accept_rows(deposits@.take(i as int + 1), last_ts as int, last_id@)[k],
                    token_id@,
                    token_label@,
                ) by {
                    if k < rows@.len() - 1 {
                        assert(accept_rows(
                            deposits@.take(i as int + 1),
                            last_ts as int,
                            last_id@,
                        )[k] == acc_pre[k]);
                    }
                }
            }
            if ts > max_ts || (ts == max_ts && crate::text::str_lt(max_id.as_str(), d.id.as_str()))
                {
                max_ts = ts;
                max_id = d.id.clone();
            }
        } else {
            proof {
                assert(accept_rows(deposits@.take(i as int + 1), last_ts as int, last_id@) =~=
                    acc_pre);
            }
        }
        i = i + 1;
    }
    proof {
        assert(deposits@.take(n as int) =~= deposits@);
    }
    (rows, max_ts, max_id)
}

/// The cursor a tick starts from: the in-memory cursor when it has moved at
/// all, else the persisted one, else the origin — persisted state seeds,
/// never overrides.
pub fn start_cursor(cur: &Cursor, db: Option<(i64, String)>) -> (r: (i64, String))
    ensures
        (cur.last_ts > 0 || cur.last_id@.len() > 0) ==> r.0 == cur.last_ts && r.1@ == cur.last_id@,
        !(cur.last_ts > 0 || cur.last_id@.len() > 0) ==> (match db {
            Some(c) => r.0 == c.0 && r.1@ == c.1@,
            None => r.0 == 0 && r.1@ == Seq::<char>::empty(),
        }),
{
    if cur.last_ts > 0 || !cur.last_id.as_str().is_empty() {
        (cur.last_ts, cur.last_id.clone())
    } else {
        match db {
            Some(c) => c,
            None => (0, String::new()),
        }
    }
}

/// The polling floor of a tick: the subscriber-requested replay floor or the
/// cursor minus the re-fetch overlap window, whichever is higher. The
/// overlap deliberately re-requests recent items; the acceptance rule keeps
/// re-delivery harmless.
pub fn effective_since(since_hint: i64, last_ts: i64, refetch_window: i64) -> (r: i64)
    requires
        0 <= last_ts,
        0 <= refetch_window,
    ensures
        r as int == if since_hint > last_ts - refetch_window {
            since_hint as int
        } else {
            last_ts - refetch_window
        },
{
    let floor = last_ts - refetch_window;
    if since_hint > floor {
        since_hint
    } else {
        floor
    }
}

/// What the per-topic poll loop remembers across ticks.
pub struct TopicPollState {
    pub bootstrapped: bool,
}

/// The bootstrap trigger: only a topic with no persisted rows that has not
/// bootstrapped in this process yet.
pub open spec fn spec_needs_bootstrap(st: TopicPollState, row_count: int) -> bool {
    row_count == 0 && !st.bootstrapped
}

impl TopicPollState {
    /// The state of a topic never polled.
    pub fn new() -> (r: TopicPollState)
        ensures
            !r.bootstrapped,
    {
        TopicPollState { bootstrapped: false }
    }

    /// Decides whether this tick must run the cold-start backfill: exactly
    /// when the sink holds no rows and no backfill ran before.
    pub fn needs_bootstrap(&self, row_count: usize) -> (r: bool)
        ensures
            r == spec_needs_bootstrap(*self, row_count as int),
    {
        row_count == 0 && !self.bootstrapped
    }

    /// Records that the backfill completed and its cursor was persisted.
    pub fn mark_bootstrapped(&mut self)
        ensures
            final(self).bootstrapped,
    {
        self.bootstrapped = true;
    }
}

/// Bootstrap runs at most once per topic: once a backfill has been recorded,
/// no row count — not even one emptied by external deletion — triggers it
/// again; every later tick takes the steady-state incremental path.
pub proof fn lemma_bootstrap_at_most_once(st: TopicPollState, row_count: int)
    requires
        st.bootstrapped,
    ensures
        !spec_needs_bootstrap(st, row_count),
{
}

/// The `(max_ts, max_id)` watermark over a whole backfill page, seeded with
/// the running maximum.
pub open spec fn max_all(deps: Seq<DepositDto>, mts: int, mid: Seq<char>) -> (int, Seq<char>)
    decreases deps.len(),
{
    if deps.len() == 0 {
        (mts, mid)
    } else {
        let m = max_all(deps.drop_last(), mts, mid);
        if pair_lt(m.0, m.1, dep_ts(deps.last()), deps.last().id@) {
            (dep_ts(deps.last()), deps.last().id@)
        } else {
            m
        }
    }
}

/// One backfill page turned into storable rows — bootstrap stores every
/// reported deposit — together with the raised watermark.
pub fn bootstrap_accumulate(
    page: &Vec<DepositDto>,
    token_id: &str,
    token_key: &str,
    max_ts: i64,
    max_id: &str,
) -> (r: (Vec<DepositRow>, i64, String))
    ensures
        r.0@.len() == page@.len(),
        forall|k: int|
            0 <= k < page@.len() ==> row_matches(#[trigger] r.0@[k], page@[k], token_id@, token_key@),
        r.1 as int == max_all(page@, max_ts as int, max_id@).0,
        r.2@ == max_all(page@, max_ts as int, max_id@).1,
{
    let n = page.len();
    let mut rows: Vec<DepositRow> = Vec::new();
    let mut mts = max_ts;
    let mut mid = max_id.to_owned();
    let mut i: usize = 0;
    proof {
        assert(page@.take(0) =~= Seq::<DepositDto>::empty());
    }
    while i < n
        invariant
            n == page@.len(),
            i <= n,
            rows@.len() == i,
            forall|k: int|
                0 <= k < i ==> row_matches(#[trigger] rows@[k], page@[k], token_id@, token_key@),
            mts as int == max_all(page@.take(i as int), max_ts as int, max_id@).0,
            mid@ == max_all(page@.take(i as int), max_ts as int, max_id@).1,
        decreases n - i,
    {
        proof {
            assert(page@.take(i as int + 1).drop_last() =~= page@.take(i as int));
            assert(page@.take(i as int + 1).last() == page@[i as int]);
        }
        let d = &page[i];
        let ts = parse_i64_or_zero(d.block_timestamp.as_str());
        let bn = parse_i64_or_zero(d.block_number.as_str());
        let tid: String;
        let tsym: String;
        match &d.token {
            Some(t) => {
                tid = t.id.clone();
                tsym = t.symbol.clone();
            },
            None => {
                tid = token_id.to_owned();
                tsym = token_key.to_owned();
            },
        }
        rows.push(
            DepositRow {
                id: d.id.clone(),
                token_id: tid,
                token_symbol: tsym,
                staker: d.staker.id.clone(),
                strategy_id: d.strategy.id.clone(),
                shares: d.shares.clone(),
                block_number: bn,
                block_timestamp: ts,
                tx_hash: d.transaction_hash.clone(),
            },
        );
        if ts > mts || (ts == mts && crate::text::str_lt(mid.as_str(), d.id.as_str())) {
            mts = ts;
            mid = d.id.clone();
        }
        i = i + 1;
    }
    proof {
        assert(page@.take(n as int) =~= page@);
    }
    (rows, mts, mid)
}

/// Whether the steady-state fetch requests another page: only a full page
/// suggests more data, and the total skip across one tick is capped.
pub fn fetch_should_continue(page_len: usize, page_size: i32, next_skip: i32) -> (r: bool)
    requires
        page_size >= 0,
    ensures
        r == (page_len as int == page_size as int && next_skip < 5000),
{
    page_len == page_size as usize && next_skip < 5000
}

/// Whether the backfill fetches another page: only a full page suggests more
/// history, and the page budget is hard.
pub fn bootstrap_should_continue(
    page_len: usize,
    page_size: i32,
    pages_done: i32,
    max_pages: i32,
) -> (r: bool)
    requires
        page_size >= 0,
    ensures
        r == (page_len as int == page_size as int && pages_done < max_pages),
{
    page_len == page_size as usize && pages_done < max_pages
}

/// Applies one tick's accepted rows: publishes each as a live `deposit`
/// frame — live delivery runs ahead of durability by design — then inserts
/// the batch into the sink (idempotent on the natural key), and finally,
/// only if the watermark advanced past the pre-tick cursor, persists it and
/// moves the in-memory cursor forward.
pub fn apply_new_deposits(
    state: &mut StreamState,
    sink: &mut MemSink,
    token_key: &str,
    token_id: &str,
    rows: &Vec<DepositRow>,
    max_ts: i64,
    max_id: &str,
    last_ts: i64,
    last_id: &str,
) -> (inserted: usize)
    requires
        old(state).wf(),
        old(sink).wf(),
        forall|k: int| 0 <= k < rows@.len() ==> crate::sink::row_wf(#[trigger] rows@[k]),
        old(sink).rows_view().len() + rows@.len() <= i64::MAX,
        old(state).has_channel(token_key@) ==> old(state).chan_of(token_key@).next_seq()
            + rows@.len() <= u64::MAX,
    ensures
        final(state).wf(),
        final(sink).wf(),
        final(sink).rows_view() == crate::sink::spec_insert(old(sink).rows_view(), rows@),
        inserted == final(sink).rows_view().len() - old(sink).rows_view().len(),
        pair_lt(last_ts as int, last_id@, max_ts as int, max_id@) ==> final(sink).has_db_cursor(
            token_id@,
        ) && final(sink).db_cursor(token_id@) == (max_ts as int, max_id@),
        !pair_lt(last_ts as int, last_id@, max_ts as int, max_id@) ==> (forall|t: Seq<char>|
            final(sink).has_db_cursor(t) == old(sink).has_db_cursor(t) && (old(sink).has_db_cursor(t) ==> final(sink).db_cursor(t) == old(sink).db_cursor(t))),
        forall|t: Seq<char>| final(state).has_channel(t) == old(state).has_channel(t),
        forall|t: Seq<char>|
            t != token_key@ && old(state).has_channel(t) ==> final(state).chan_of(t) == old(state).chan_of(t),
        old(state).has_channel(token_key@) ==> final(state).chan_of(token_key@).sub_count() == old(state).chan_of(token_key@).sub_count() && (forall|o: u64|
            old(state).chan_of(token_key@).has_sub(o) ==> final(state).chan_of(
                token_key@,
            ).has_sub(o) && final(state).chan_of(token_key@).sub_next(o) == old(state).chan_of(
                token_key@,
            ).sub_next(o)),
        old(state).topic_subs(token_key@) > 0 ==> final(state).chan_of(token_key@).next_seq()
            == old(state).chan_of(token_key@).next_seq() + rows@.len() && (forall|k: int|
            0 <= k < rows@.len() && final(state).chan_of(token_key@).base_seq() <= old(state).chan_of(token_key@).next_seq() + k ==> (#[trigger] final(state).chan_of(
                token_key@,
            ).msg_at(old(state).chan_of(token_key@).next_seq() + k)).0@
                == crate::frames::frame_deposit(token_key@, rows@[k])),
        pair_lt(last_ts as int, last_id@, max_ts as int, max_id@) && pair_lt(
            old(state).cursor_ts(token_key@),
            old(state).cursor_id(token_key@),
            max_ts as int,
            max_id@,
        ) ==> final(state).cursor_ts(token_key@) == max_ts && final(state).cursor_id(token_key@)
            == max_id@,
        !pair_lt(last_ts as int, last_id@, max_ts as int, max_id@) ==> final(state).cursor_ts(
            token_key@,
        ) == old(state).cursor_ts(token_key@) && final(state).cursor_id(token_key@) == old(state).cursor_id(token_key@),
{
    let n = rows.len();
    let mut k: usize = 0;
    while k < n
        invariant
            n == rows@.len(),
            k <= n,
            state.wf(),
            forall|t: Seq<char>| state.has_channel(t) == old(state).has_channel(t),
            forall|t: Seq<char>|
                t != token_key@ && old(state).has_channel(t) ==> state.chan_of(t) == old(state).chan_of(t),
            old(state).has_channel(token_key@) ==> state.chan_of(token_key@).sub_count() == old(state).chan_of(token_key@).sub_count() && (forall|o: u64|
                old(state).chan_of(token_key@).has_sub(o) ==> state.chan_of(token_key@).has_sub(o)
                    && state.chan_of(token_key@).sub_next(o) == old(state).chan_of(
                    token_key@,
                ).sub_next(o)),
            old(state).has_channel(token_key@) ==> state.chan_of(token_key@).ids_used() == old(state).chan_of(token_key@).ids_used(),
            old(state).topic_subs(token_key@) > 0 ==> state.chan_of(token_key@).next_seq() == old(state).chan_of(token_key@).next_seq() + k && (forall|j: int|
                0 <= j < k && state.chan_of(token_key@).base_seq() <= old(state).chan_of(
                    token_key@,
                ).next_seq() + j ==> (#[trigger] state.chan_of(token_key@).msg_at(
                    old(state).chan_of(token_key@).next_seq() + j,
                )).0@ == crate::frames::frame_deposit(token_key@, rows@[j])),
            old(state).topic_subs(token_key@) <= 0 && old(state).has_channel(token_key@)
                ==> state.chan_of(token_key@).next_seq() == old(state).chan_of(
                token_key@,
            ).next_seq() && state.chan_of(token_key@).base_seq() == old(state).chan_of(
                token_key@,
            ).base_seq(),
            forall|t: Seq<char>|
                state.cursor_ts(t) == old(state).cursor_ts(t) && state.cursor_id(t) == old(state).cursor_id(t) && state.cursor_hint(t) == old(state).cursor_hint(t) && state.has_cursor(t) == old(state).has_cursor(t),
            state.capacity() == old(state).capacity(),
            old(state).has_channel(token_key@) ==> old(state).chan_of(token_key@).next_seq() + n
                <= u64::MAX,
        decreases n - k,
    {
        let frame = crate::frames::deposit_frame(token_key, &rows[k]);
        let ghost st0 = *state;
        proof {
            if state.has_channel(token_key@) {
                assert(old(state).has_channel(token_key@));
                if old(state).topic_subs(token_key@) > 0 {
                    assert(state.chan_of(token_key@).next_seq() == old(state).chan_of(
                        token_key@,
                    ).next_seq() + k);
                } else {
                    assert(state.chan_of(token_key@).next_seq() == old(state).chan_of(
                        token_key@,
                    ).next_seq());
                }
                assert(state.chan_of(token_key@).next_seq() < u64::MAX);
            }
        }
        state.publish(token_key, Event(frame));
        proof {
            if old(state).topic_subs(token_key@) > 0 {
                let tk = token_key@;
                let old_next0 = old(state).chan_of(tk).next_seq();
                assert forall|j: int|
                    0 <= j < k + 1 && state.chan_of(tk).base_seq() <= old_next0 + j implies (
                #[trigger] state.chan_of(tk).msg_at(old_next0 + j)).0@
                    == crate::frames::frame_deposit(tk, rows@[j]) by {
                    if j == k as int {
                        assert(st0.chan_of(tk).next_seq() == old_next0 + k);
                        assert(state.chan_of(tk).msg_at(old_next0 + k).0@
                            == crate::frames::frame_deposit(tk, rows@[k as int]));
                    } else {
                        assert(st0.chan_of(tk).base_seq() <= state.chan_of(tk).base_seq());
                        assert(old_next0 + j < st0.chan_of(tk).next_seq());
                        assert(state.chan_of(tk).msg_at(old_next0 + j) == st0.chan_of(tk).msg_at(
                            old_next0 + j,
                        ));
                    }
                }
            }
        }
        k = k + 1;
    }
    let inserted = sink.insert_batch_ts(rows);
    let moved = max_ts > last_ts || (max_ts == last_ts && crate::text::str_lt(last_id, max_id));
    if moved {
        sink.upsert_cursor(token_id, max_ts, max_id);
        state.advance_cursor(token_key, max_ts, max_id);
    }
    inserted
}

/// One liveness tick: aggregates the current bucket of `token_id` from the
/// sink and publishes it as a `tick` frame on `token_key`'s channel —
/// subscribers see periodic ticks even when nothing new arrived.
pub fn emit_tick(
    state: &mut StreamState,
    sink: &MemSink,
    token_key: &str,
    token_id: &str,
    now: i64,
    bucket_sec: i64,
) -> (r: (usize, BucketPoint))
    requires
        old(state).wf(),
        sink.wf(),
        bucket_sec > 0,
        0 <= now,
        now <= i64::MAX - bucket_sec,
        old(state).has_channel(token_key@) ==> old(state).chan_of(token_key@).next_seq()
            < u64::MAX,
    ensures
        final(state).wf(),
        r.0 == old(state).topic_subs(token_key@),
        r.1.t == crate::bucket::aligned_start(now as int, bucket_sec as int),
        r.1.count == crate::sink::count_in_range(
            sink.rows_view(),
            token_id@,
            r.1.t as int,
            r.1.t + bucket_sec,
        ),
        crate::dec::dec_val(r.1.sum_shares@) == crate::sink::sum_in_range(
            sink.rows_view(),
            token_id@,
            r.1.t as int,
            r.1.t + bucket_sec,
        ),
        crate::dec::is_canon_dec(r.1.sum_shares@),
        forall|t: Seq<char>| final(state).has_channel(t) == old(state).has_channel(t),
        forall|t: Seq<char>|
            t != token_key@ && old(state).has_channel(t) ==> final(state).chan_of(t) == old(state).chan_of(t),
        old(state).has_channel(token_key@) ==> final(state).chan_of(token_key@).sub_count()
            == old(state).chan_of(token_key@).sub_count() && final(state).chan_of(
            token_key@,
        ).ids_used() == old(state).chan_of(token_key@).ids_used() && final(state).chan_of(
            token_key@,
        ).capacity() == old(state).chan_of(token_key@).capacity() && (forall|o: u64|
            old(state).chan_of(token_key@).has_sub(o) ==> final(state).chan_of(
                token_key@,
            ).has_sub(o) && final(state).chan_of(token_key@).sub_next(o) == old(state).chan_of(
                token_key@,
            ).sub_next(o)),
        old(state).has_channel(token_key@) && old(state).chan_of(token_key@).sub_count() <= 0
            ==> final(state).chan_of(token_key@).base_seq() == old(state).chan_of(
            token_key@,
        ).base_seq() && final(state).chan_of(token_key@).next_seq() == old(state).chan_of(
            token_key@,
        ).next_seq(),
        old(state).topic_subs(token_key@) > 0 ==> final(state).chan_of(token_key@).next_seq()
            == old(state).chan_of(token_key@).next_seq() + 1 && (final(state).chan_of(
            token_key@,
        ).msg_at(old(state).chan_of(token_key@).next_seq())).0@ == crate::frames::frame_tick(
            token_key@,
            r.1,
        ) && final(state).chan_of(token_key@).base_seq() == (
        if old(state).chan_of(token_key@).next_seq() - old(state).chan_of(token_key@).base_seq()
            == old(state).chan_of(token_key@).capacity() {
            old(state).chan_of(token_key@).base_seq() + 1
        } else {
            old(state).chan_of(token_key@).base_seq()
        }) && (forall|s: int|
            final(state).chan_of(token_key@).base_seq() <= s < old(state).chan_of(
                token_key@,
            ).next_seq() ==> final(state).chan_of(token_key@).msg_at(s) == old(state).chan_of(
                token_key@,
            ).msg_at(s)),
        forall|t: Seq<char>|
            final(state).cursor_ts(t) == old(state).cursor_ts(t) && final(state).cursor_id(t)
                == old(state).cursor_id(t) && final(state).cursor_hint(t) == old(state).cursor_hint(t),
{
    let (bucket_start, bucket_end) = crate::bucket::bucket_bounds(now, bucket_sec);
    let bp = sink.fetch_current_bucket(token_id, bucket_start, bucket_end);
    let frame = crate::frames::tick_frame(token_key, &bp);
    let delivered = state.publish(token_key, Event(frame));
    (delivered, bp)
}

/// The local fast path of topic resolution: a `0x`-prefixed address of at
/// least 42 characters normalizes locally, without a lookup.
pub fn resolve_local(sym_or_addr: &str) -> (r: Option<(String, String)>)
    ensures
        (sym_or_addr@.len() >= 42 && sym_or_addr@[0] == '0' && sym_or_addr@[1] == 'x') ==> (
        r matches Some(p) && p.0@ == crate::text::lower_of(sym_or_addr@) && p.1@
            == crate::text::lower_of(sym_or_addr@)),
        !(sym_or_addr@.len() >= 42 && sym_or_addr@[0] == '0' && sym_or_addr@[1] == 'x') ==> r
            is None,
{
    let n = sym_or_addr.unicode_len();
    if n >= 42 && sym_or_addr.get_char(0) == '0' && sym_or_addr.get_char(1) == 'x' {
        let id = crate::text::lowercase(sym_or_addr);
        let id2 = id.clone();
        Some((id, id2))
    } else {
        None
    }
}

/// Normalizes a source identifier: ensures a `0x` prefix and lowers the
/// case, exactly as `str::to_lowercase` does.
pub fn normalize_addr(s: &str) -> (r: String)
    ensures
        (s@.len() >= 2 && s@[0] == '0' && s@[1] == 'x') ==> r@ == crate::text::lower_of(s@),
        !(s@.len() >= 2 && s@[0] == '0' && s@[1] == 'x') ==> r@ == crate::text::lower_of(
            seq!['0', 'x'] + s@,
        ),
{
    let n = s.unicode_len();
    if n >= 2 && s.get_char(0) == '0' && s.get_char(1) == 'x' {
        crate::text::lowercase(s)
    } else {
        let mut p = String::new();
        crate::dec::push_char(&mut p, '0');
        crate::dec::push_char(&mut p, 'x');
        p.append(s);
        proof {
            assert(p@ =~= seq!['0', 'x'] + s@);
        }
        crate::text::lowercase(p.as_str())
    }
}

/// The first token of `tokens` whose symbol equals `query` up to ASCII
/// case, if any.
pub open spec fn first_symbol_match(tokens: Seq<TokenLite>, query: Seq<char>) -> int
    decreases tokens.len(),
{
    if tokens.len() == 0 {
        -1
    } else if crate::text::ascii_eq_ic(tokens.first().symbol@, query) {
        0
    } else {
        let r = first_symbol_match(tokens.drop_first(), query);
        if r < 0 {
            -1
        } else {
            r + 1
        }
    }
}

/// Picks the resolution of a symbol lookup: the first case-insensitive
/// symbol match, or the first result, or nothing. Returns the normalized
/// id and the reported symbol.
pub fn pick_token(tokens: &Vec<TokenLite>, query: &str) -> (r: Option<(String, String)>)
    ensures
        tokens@.len() == 0 ==> r is None,
        tokens@.len() > 0 ==> ({
            let m = first_symbol_match(tokens@, query@);
            let chosen = if m >= 0 {
                tokens@[m]
            } else {
                tokens@[0]
            };
            r matches Some(p) && p.1@ == chosen.symbol@ && ((chosen.id@.len() >= 2 && chosen.id@[0]
                == '0' && chosen.id@[1] == 'x') ==> p.0@ == crate::text::lower_of(chosen.id@)) && (
            !(chosen.id@.len() >= 2 && chosen.id@[0] == '0' && chosen.id@[1] == 'x') ==> p.0@
                == crate::text::lower_of(seq!['0', 'x'] + chosen.id@))
        }),
{
    let n = tokens.len();
    if n == 0 {
        return None;
    }
    let mut i: usize = 0;
    proof {
        assert(tokens@.skip(0) =~= tokens@);
    }
    while i < n
        invariant
            n == tokens@.len(),
            i <= n,
            first_symbol_match(tokens@, query@) == (if first_symbol_match(
                tokens@.skip(i as int),
                query@,
            ) >= 0 {
                first_symbol_match(tokens@.skip(i as int), query@) + i
            } else {
                -1
            }),
            forall|j: int|
                0 <= j < i ==> !crate::text::ascii_eq_ic((#[trigger] tokens@[j]).symbol@, query@),
        decreases n - i,
    {
        proof {
            assert(tokens@.skip(i as int).first() == tokens@[i as int]);
            assert(tokens@.skip(i as int).drop_first() =~= tokens@.skip(i as int + 1));
        }
        let t = &tokens[i];
        if crate::text::str_eq_ignore_ascii_case(t.symbol.as_str(), query) {
            let id = normalize_addr(t.id.as_str());
            return Some((id, t.symbol.clone()));
        }
        i = i + 1;
    }
    proof {
        assert(tokens@.skip(n as int).len() == 0);
        assert(first_symbol_match(tokens@, query@) == -1);
    }
    let t0 = &tokens[0];
    let id = normalize_addr(t0.id.as_str());
    Some((id, t0.symbol.clone()))
}

proof fn lemma_accept_rows_empty(deps: Seq<DepositDto>, ts: int, id: Seq<char>)
    requires
        forall|k: int| 0 <= k < deps.len() ==> !pair_lt(ts, id, dep_ts(#[trigger] deps[k]), deps[k].id@),
    ensures
        accept_rows(deps, ts, id).len() == 0,
    decreases deps.len(),
{
    if deps.len() > 0 {
        let p = deps.drop_last();
        assert forall|k: int|
            0 <= k < p.len() implies !pair_lt(ts, id, dep_ts(#[trigger] p[k]), p[k].id@) by {
            assert(p[k] == deps[k]);
        }
        lemma_accept_rows_empty(p, ts, id);
        assert(deps.last() == deps[deps.len() - 1]);
    }
}

} // verus!
