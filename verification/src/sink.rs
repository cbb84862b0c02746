//! The durable sink, modelled exactly: an append-only deposit table with a
//! natural-key uniqueness constraint, a cursor table, and the aggregation
//! queries the engine runs against it.
//!
//! Inserting is idempotent on the natural key `(tx_hash, block_timestamp)`:
//! re-delivering a batch — as overlapping poll windows do — never duplicates
//! a row.

use vstd::prelude::*;
use crate::assoc::AssocVec;
use crate::bucket::BucketPoint;
use crate::dec::{all_digits, dec_val, is_canon_dec};

verus! {

/// One persisted deposit event.
#[derive(Clone, Debug)]
pub struct DepositRow {
    pub id: String,
    pub token_id: String,
    pub token_symbol: String,
    pub staker: String,
    pub strategy_id: String,
    pub shares: String,
    pub block_number: i64,
    pub block_timestamp: i64,
    pub tx_hash: String,
}

/// A storable row: a decimal share amount and a non-negative timestamp.
pub open spec fn row_wf(r: DepositRow) -> bool {
    &&& r.shares@.len() >= 1
    &&& all_digits(r.shares@)
    &&& r.block_timestamp >= 0
}

/// Two rows collide on the natural key.
pub open spec fn key_eq(a: DepositRow, b: DepositRow) -> bool {
    a.tx_hash@ == b.tx_hash@ && a.block_timestamp == b.block_timestamp
}

/// Some stored row collides with `x` on the natural key.
pub open spec fn has_key(rows: Seq<DepositRow>, x: DepositRow) -> bool {
    exists|i: int| 0 <= i < rows.len() && key_eq(#[trigger] rows[i], x)
}

/// One keyed insert: a no-op on a key collision.
pub open spec fn insert_step(rows: Seq<DepositRow>, x: DepositRow) -> Seq<DepositRow> {
    if has_key(rows, x) {
        rows
    } else {
        rows.push(x)
    }
}

/// The table after a keyed insert of every batch row, in order.
pub open spec fn spec_insert(rows: Seq<DepositRow>, batch: Seq<DepositRow>) -> Seq<DepositRow>
    decreases batch.len(),
{
    if batch.len() == 0 {
        rows
    } else {
        spec_insert(insert_step(rows, batch.first()), batch.drop_first())
    }
}

proof fn lemma_insert_grows(rows: Seq<DepositRow>, batch: Seq<DepositRow>, x: DepositRow)
    requires
        has_key(rows, x),
    ensures
        has_key(spec_insert(rows, batch), x),
    decreases batch.len(),
{
    if batch.len() > 0 {
        let rows1 = insert_step(rows, batch.first());
        assert(has_key(rows1, x)) by {
            let i = choose|i: int| 0 <= i < rows.len() && key_eq(#[trigger] rows[i], x);
            if !has_key(rows, batch.first()) {
                assert(rows1[i] == rows[i]);
            }
        }
        lemma_insert_grows(rows1, batch.drop_first(), x);
    }
}

proof fn lemma_batch_keys_present(rows: Seq<DepositRow>, batch: Seq<DepositRow>)
    ensures
        forall|j: int|
            0 <= j < batch.len() ==> has_key(spec_insert(rows, batch), #[trigger] batch[j]),
    decreases batch.len(),
{
    if batch.len() > 0 {
        let rows1 = insert_step(rows, batch.first());
        assert(has_key(rows1, batch.first())) by {
            if !has_key(rows, batch.first()) {
                assert(rows1.last() == batch.first());
                assert(key_eq(rows1[rows.len() as int], batch.first()));
            }
        }
        lemma_insert_grows(rows1, batch.drop_first(), batch.first());
        lemma_batch_keys_present(rows1, batch.drop_first());
        assert forall|j: int|
            0 <= j < batch.len() implies has_key(spec_insert(rows, batch), #[trigger] batch[j]) by {
            if j > 0 {
                assert(batch.drop_first()[j - 1] == batch[j]);
            }
        }
    }
}

proof fn lemma_insert_noop(rows: Seq<DepositRow>, batch: Seq<DepositRow>)
    requires
        forall|j: int| 0 <= j < batch.len() ==> has_key(rows, #[trigger] batch[j]),
    ensures
        spec_insert(rows, batch) == rows,
    decreases batch.len(),
{
    if batch.len() > 0 {
        assert(has_key(rows, batch.first()));
        assert(insert_step(rows, batch.first()) == rows);
        assert forall|j: int|
            0 <= j < batch.drop_first().len() implies has_key(
            rows,
            #[trigger] batch.drop_first()[j],
        ) by {
            assert(batch.drop_first()[j] == batch[j + 1]);
        }
        lemma_insert_noop(rows, batch.drop_first());
    }
}

/// Inserting a batch is idempotent: running the same keyed insert a second
/// time leaves the table exactly as it was after the first run.
pub proof fn lemma_insert_batch_idempotent(rows: Seq<DepositRow>, batch: Seq<DepositRow>)
    ensures
        spec_insert(spec_insert(rows, batch), batch) == spec_insert(rows, batch),
{
    lemma_batch_keys_present(rows, batch);
    lemma_insert_noop(spec_insert(rows, batch), batch);
}

/// The legacy handle of the time-series store.
pub struct TsDb;

impl TsDb {
    /// A constructor kept for interface compatibility; the handle carries no
    /// state of its own.
    pub fn new_unused_stub() -> (r: TsDb)
    {
        TsDb
    }
}

/// The in-memory model of the durable sink.
pub struct MemSink {
    rows: Vec<DepositRow>,
    cursors: AssocVec<(i64, String)>,
}

impl MemSink {
    /// The stored rows, in insertion order.
    pub closed spec fn rows_view(self) -> Seq<DepositRow> {
        self.rows@
    }

    /// A persisted cursor exists for `t`.
    pub closed spec fn has_db_cursor(self, t: Seq<char>) -> bool {
        self.cursors.contains_key(t)
    }

    /// The persisted cursor position of `t`.
    pub closed spec fn db_cursor(self, t: Seq<char>) -> (int, Seq<char>) {
        (self.cursors.value_of(t).0 as int, self.cursors.value_of(t).1@)
    }

    /// Every stored row is storable, natural keys are unique, and the table
    /// stays countable in an `i64`.
    pub closed spec fn wf(self) -> bool {
        &&& (forall|i: int| 0 <= i < self.rows@.len() ==> row_wf(#[trigger] self.rows@[i]))
        &&& (forall|i: int, j: int|
            0 <= i < j < self.rows@.len() ==> !key_eq(
                #[trigger] self.rows@[i],
                #[trigger] self.rows@[j],
            ))
        &&& self.rows@.len() <= i64::MAX
        &&& self.cursors.wf()
    }

    /// An empty sink.
    pub fn new() -> (r: MemSink)
        ensures
            r.wf(),
            r.rows_view() == Seq::<DepositRow>::empty(),
            forall|t: Seq<char>| !r.has_db_cursor(t),
    {
        let s = MemSink { rows: Vec::new(), cursors: AssocVec::new() };
        proof {
            assert(s.rows@ =~= Seq::<DepositRow>::empty());
        }
        s
    }

    fn contains_row_key(&self, x: &DepositRow) -> (r: bool)
        ensures
            r == has_key(self.rows@, *x),
    {
        let n = self.rows.len();
        let mut i: usize = 0;
        while i < n
            invariant
                n == self.rows@.len(),
                i <= n,
                forall|k: int| 0 <= k < i ==> !key_eq(#[trigger] self.rows@[k], *x),
            decreases n - i,
        {
            let row = &self.rows[i];
            if crate::text::str_eq(row.tx_hash.as_str(), x.tx_hash.as_str())
                && row.block_timestamp == x.block_timestamp {
                return true;
            }
            i = i + 1;
        }
        false
    }

    /// Inserts a batch, skipping every row whose natural key is already
    /// present (rows earlier in the same batch included), and returns how
    /// many rows were actually added.
    pub fn insert_batch_ts(&mut self, batch: &Vec<DepositRow>) -> (n: usize)
        requires
            old(self).wf(),
            forall|j: int| 0 <= j < batch@.len() ==> row_wf(#[trigger] batch@[j]),
            old(self).rows_view().len() + batch@.len() <= i64::MAX,
        ensures
            final(self).wf(),
            final(self).rows_view() == spec_insert(old(self).rows_view(), batch@),
            n == final(self).rows_view().len() - old(self).rows_view().len(),
            forall|t: Seq<char>|
                final(self).has_db_cursor(t) == old(self).has_db_cursor(t) && (old(
                    self,
                ).has_db_cursor(t) ==> final(self).db_cursor(t) == old(self).db_cursor(t)),
    {
        let m = batch.len();
        let base = self.rows.len();
        let mut j: usize = 0;
        proof {
            assert(batch@.skip(0) =~= batch@);
        }
        while j < m
            invariant
                m == batch@.len(),
                j <= m,
                self.cursors == old(self).cursors,
                self.wf(),
                self.rows@.len() + (m - j) <= i64::MAX,
                self.rows@.len() >= base,
                base == old(self).rows_view().len(),
                forall|k: int| 0 <= k < batch@.len() ==> row_wf(#[trigger] batch@[k]),
                spec_insert(self.rows@, batch@.skip(j as int)) == spec_insert(
                    old(self).rows_view(),
                    batch@,
                ),
            decreases m - j,
        {
            let ghost rows0 = self.rows@;
            let x = &batch[j];
            let present = self.contains_row_key(x);
            if !present {
                self.rows.push(
                    DepositRow {
                        id: x.id.clone(),
                        token_id: x.token_id.clone(),
                        token_symbol: x.token_symbol.clone(),
                        staker: x.staker.clone(),
                        strategy_id: x.strategy_id.clone(),
                        shares: x.shares.clone(),
                        block_number: x.block_number,
                        block_timestamp: x.block_timestamp,
                        tx_hash: x.tx_hash.clone(),
                    },
                );
                proof {
                    assert(self.rows@ =~= rows0.push(batch@[j as int]));
                    assert forall|a: int, b: int|
                        0 <= a < b < self.rows@.len() implies !key_eq(
                        #[trigger] self.rows@[a],
                        #[trigger] self.rows@[b],
                    ) by {
                        if b < self.rows@.len() - 1 {
                            assert(self.rows@[a] == rows0[a] && self.rows@[b] == rows0[b]);
                        } else {
                            assert(self.rows@[a] == rows0[a]);
                            assert(self.rows@[b] == batch@[j as int]);
                            if key_eq(rows0[a], batch@[j as int]) {
                                assert(has_key(rows0, batch@[j as int]));
                            }
                        }
                    }
                }
            }
            proof {
                assert(batch@.skip(j as int).first() == batch@[j as int]);
                assert(batch@.skip(j as int).drop_first() =~= batch@.skip(j as int + 1));
                assert(self.rows@ == insert_step(rows0, batch@[j as int]));
                assert(spec_insert(rows0, batch@.skip(j as int)) == spec_insert(
                    self.rows@,
                    batch@.skip(j as int + 1),
                ));
            }
            j = j + 1;
        }
        proof {
            assert(batch@.skip(m as int) =~= Seq::<DepositRow>::empty());
            assert(spec_insert(self.rows@, batch@.skip(m as int)) == self.rows@);
        }
        self.rows.len() - base
    }

    /// The persisted cursor of `token_id`, if one was ever written.
    pub fn load_cursor(&self, token_id: &str) -> (r: Option<(i64, String)>)
        requires
            self.wf(),
        ensures
            match r {
                Some(c) => self.has_db_cursor(token_id@) && c.0 as int == self.db_cursor(
                    token_id@,
                ).0 && c.1@ == self.db_cursor(token_id@).1,
                None => !self.has_db_cursor(token_id@),
            },
    {
        match self.cursors.find(token_id) {
            Some(i) => {
                let c = self.cursors.value_ref(i);
                Some((c.0, c.1.clone()))
            },
            None => None,
        }
    }

    /// Writes the cursor of `token_id`, overwriting any previous position.
    pub fn upsert_cursor(&mut self, token_id: &str, last_ts: i64, last_id: &str)
        requires
            old(self).wf(),
        ensures
            final(self).wf(),
            final(self).rows_view() == old(self).rows_view(),
            final(self).has_db_cursor(token_id@),
            final(self).db_cursor(token_id@) == (last_ts as int, last_id@),
            forall|t: Seq<char>|
                t != token_id@ ==> final(self).has_db_cursor(t) == old(self).has_db_cursor(t) && (
                old(self).has_db_cursor(t) ==> final(self).db_cursor(t) == old(self).db_cursor(t)),
    {
        match self.cursors.find(token_id) {
            Some(i) => {
                self.cursors.set_value_at(i, (last_ts, last_id.to_owned()));
            },
            None => {
                self.cursors.push_new(token_id.to_owned(), (last_ts, last_id.to_owned()));
            },
        }
    }

    /// The count and share sum of the rows of `token_id` inside
    /// `[bucket_start, bucket_end)` — the periodic liveness tick.
    pub fn fetch_current_bucket(&self, token_id: &str, bucket_start: i64, bucket_end: i64) -> (r:
        BucketPoint)
        requires
            self.wf(),
        ensures
            r.t == bucket_start,
            r.count == count_in_range(
                self.rows_view(),
                token_id@,
                bucket_start as int,
                bucket_end as int,
            ),
            dec_val(r.sum_shares@) == sum_in_range(
                self.rows_view(),
                token_id@,
                bucket_start as int,
                bucket_end as int,
            ),
            is_canon_dec(r.sum_shares@),
    {
        let ghost t = token_id@;
        let ghost lo = bucket_start as int;
        let ghost hi = bucket_end as int;
        let n = self.rows.len();
        let mut cnt: usize = 0;
        let mut sum = String::new();
        crate::dec::push_char(&mut sum, '0');
        proof {
            assert(sum@ =~= seq!['0']);
            assert(sum@.drop_last() =~= Seq::<char>::empty());
            assert(dec_val(Seq::<char>::empty()) == 0);
            assert(dec_val(sum@) == 0);
        }
        let mut i: usize = 0;
        while i < n
            invariant
                self.wf(),
                n == self.rows@.len(),
                i <= n,
                cnt <= i,
                cnt == count_in_range(self.rows@.take(i as int), t, lo, hi),
                dec_val(sum@) == sum_in_range(self.rows@.take(i as int), t, lo, hi),
                is_canon_dec(sum@),
                t == token_id@,
                lo == bucket_start as int,
                hi == bucket_end as int,
            decreases n - i,
        {
            proof {
                assert(self.rows@.take(i as int + 1).drop_last() =~= self.rows@.take(i as int));
                assert(self.rows@.take(i as int + 1).last() == self.rows@[i as int]);
            }
            let row = &self.rows[i];
            if crate::text::str_eq(row.token_id.as_str(), token_id) && bucket_start
                <= row.block_timestamp && row.block_timestamp < bucket_end {
                cnt = cnt + 1;
                sum = crate::bignum::big_add_dec(sum.as_str(), row.shares.as_str());
            }
            i = i + 1;
        }
        proof {
            assert(self.rows@.take(n as int) =~= self.rows@);
        }
        BucketPoint { t: bucket_start, count: cnt as i64, sum_shares: sum }
    }

    /// The non-empty buckets of `token_id` at or after `since_ts`, on the
    /// grid of width `bucket_sec`: one entry per bucket that holds at least
    /// one row, carrying that bucket's exact count and share sum. No grid
    /// point appears twice, and no contributing row is left out.
    pub fn fetch_buckets(&self, token_id: &str, since_ts: i64, bucket_sec: i64) -> (out: Vec<
        BucketPoint,
    >)
        requires
            self.wf(),
            bucket_sec > 0,
        ensures
            forall|a: int, b: int|
                0 <= a < b < out@.len() ==> (#[trigger] out@[a]).t < (#[trigger] out@[b]).t,
            forall|j: int|
                0 <= j < out@.len() ==> (#[trigger] out@[j]).count == count_in_bucket(
                    self.rows_view(),
                    token_id@,
                    since_ts as int,
                    bucket_sec as int,
                    out@[j].t as int,
                ) && out@[j].count >= 1 && dec_val(out@[j].sum_shares@) == sum_in_bucket(
                    self.rows_view(),
                    token_id@,
                    since_ts as int,
                    bucket_sec as int,
                    out@[j].t as int,
                ) && is_canon_dec(out@[j].sum_shares@),
            forall|k: int|
                0 <= k < self.rows_view().len() && in_window(
                    #[trigger] self.rows_view()[k],
                    token_id@,
                    since_ts as int,
                ) ==> (exists|j: int|
                    0 <= j < out@.len() && (#[trigger] out@[j]).t == bkt(
                        self.rows_view()[k].block_timestamp as int,
                        bucket_sec as int,
                    )),
    {
        let ghost t = token_id@;
        let ghost since = since_ts as int;
        let ghost w = bucket_sec as int;
        let n = self.rows.len();
        let mut out: Vec<BucketPoint> = Vec::new();
        let mut i: usize = 0;
        while i < n
            invariant
                self.wf(),
                n == self.rows@.len(),
                i <= n,
                t == token_id@,
                since == since_ts as int,
                w == bucket_sec as int,
                bucket_sec > 0,
                forall|a: int, b: int|
                    0 <= a < b < out@.len() ==> (#[trigger] out@[a]).t < (#[trigger] out@[b]).t,
                forall|j: int|
                    0 <= j < out@.len() ==> (#[trigger] out@[j]).count == count_in_bucket(
                        self.rows@.take(i as int),
                        t,
                        since,
                        w,
                        out@[j].t as int,
                    ) && out@[j].count >= 1 && out@[j].count <= i && dec_val(out@[j].sum_shares@)
                        == sum_in_bucket(
                        self.rows@.take(i as int),
                        t,
                        since,
                        w,
                        out@[j].t as int,
                    ) && is_canon_dec(out@[j].sum_shares@),
                forall|k: int|
                    0 <= k < i && in_window(#[trigger] self.rows@[k], t, since) ==> (exists|j: int|
                        0 <= j < out@.len() && (#[trigger] out@[j]).t == bkt(
                            self.rows@[k].block_timestamp as int,
                            w,
                        )),
            decreases n - i,
        {
            let ghost rows = self.rows@;
            let ghost out0 = out@;
            proof {
                assert(rows.take(i as int + 1).drop_last() =~= rows.take(i as int));
                assert(rows.take(i as int + 1).last() == rows[i as int]);
            }
            let row = &self.rows[i];
            if crate::text::str_eq(row.token_id.as_str(), token_id) && row.block_timestamp
                >= since_ts {
                proof {
                    assert(row_wf(rows[i as int]));
                    vstd::arithmetic::div_mod::lemma_fundamental_div_mod(
                        row.block_timestamp as int,
                        w,
                    );
                    vstd::arithmetic::div_mod::lemma_mod_bound(row.block_timestamp as int, w);
                    vstd::arithmetic::mul::lemma_mul_is_commutative(
                        w,
                        (row.block_timestamp as int) / w,
                    );
                }
                let b = (row.block_timestamp / bucket_sec) * bucket_sec;
                let m = out.len();
                let mut j: usize = 0;
                let mut found = false;
                while j < m && !found
                    invariant
                        m == out@.len(),
                        j <= m,
                        !found ==> (forall|a: int| 0 <= a < j ==> (#[trigger] out@[a]).t != b),
                        found ==> j < m && out@[j as int].t == b,
                    decreases m - j + if found {
                        0int
                    } else {
                        1int
                    },
                {
                    if out[j].t == b {
                        found = true;
                    } else {
                        j = j + 1;
                    }
                }
                if found {
                    let cur = &out[j];
                    let newcount = cur.count + 1;
                    let newsum = crate::bignum::big_add_dec(
                        cur.sum_shares.as_str(),
                        row.shares.as_str(),
                    );
                    let bt = cur.t;
                    out.set(j, BucketPoint { t: bt, count: newcount, sum_shares: newsum });
                    proof {
                        assert(out@ =~= out0.update(j as int, out@[j as int]));
                        assert forall|a: int, c: int|
                            0 <= a < c < out@.len() implies (#[trigger] out@[a]).t < (
                        #[trigger] out@[c]).t by {
                            assert(out@[a].t == out0[a].t);
                            assert(out@[c].t == out0[c].t);
                            assert(out0[a].t < out0[c].t);
                        }
                        assert forall|jj: int|
                            0 <= jj < out@.len() implies (#[trigger] out@[jj]).count
                            == count_in_bucket(rows.take(i as int + 1), t, since, w, out@[jj].t as int)
                            && out@[jj].count >= 1 && out@[jj].count <= i + 1 && dec_val(
                            out@[jj].sum_shares@,
                        ) == sum_in_bucket(rows.take(i as int + 1), t, since, w, out@[jj].t as int)
                            && is_canon_dec(out@[jj].sum_shares@) by {
                            if jj != j as int {
                                assert(out@[jj] == out0[jj]);
                                if jj < j as int {
                                    assert(out0[jj].t < out0[j as int].t);
                                } else {
                                    assert(out0[j as int].t < out0[jj].t);
                                }
                                assert(out0[jj].t != b);
                            }
                        }
                        assert forall|k: int|
                            0 <= k < i + 1 && in_window(#[trigger] rows[k], t, since) implies (
                        exists|jj: int|
                            0 <= jj < out@.len() && (#[trigger] out@[jj]).t == bkt(
                                rows[k].block_timestamp as int,
                                w,
                            )) by {
                            if k < i as int {
                                let jj = choose|jj: int|
                                    0 <= jj < out0.len() && (#[trigger] out0[jj]).t == bkt(
                                        rows[k].block_timestamp as int,
                                        w,
                                    );
                                assert(out@[jj].t == out0[jj].t);
                            } else {
                                assert(out@[j as int].t == b);
                            }
                        }
                    }
                } else {
                    proof {
                        reveal_strlit("0");
                        assert("0"@ =~= seq!['0']);
                        assert("0"@.drop_last() =~= Seq::<char>::empty());
                        assert(dec_val(Seq::<char>::empty()) == 0);
                        assert(dec_val("0"@) == 0);
                    }
                    let canon = crate::bignum::big_add_dec("0", row.shares.as_str());
                    proof {
                        assert forall|k: int| 0 <= k < rows.take(i as int).len() implies !(
                        in_window(#[trigger] rows.take(i as int)[k], t, since) && bkt(
                            rows.take(i as int)[k].block_timestamp as int,
                            w,
                        ) == b) by {
                            assert(rows.take(i as int)[k] == rows[k]);
                            if in_window(rows[k], t, since) && bkt(
                                rows[k].block_timestamp as int,
                                w,
                            ) == b {
                                let jj = choose|jj: int|
                                    0 <= jj < out0.len() && (#[trigger] out0[jj]).t == bkt(
                                        rows[k].block_timestamp as int,
                                        w,
                                    );
                                assert(out0[jj].t != b);
                            }
                        }
                        lemma_bucket_empty(rows.take(i as int), t, since, w, b as int);
                    }
                    // Insert the new bucket at its grid position, keeping the
                    // series ascending.
                    let mlen = out.len();
                    let mut p: usize = 0;
                    while p < mlen && out[p].t < b
                        invariant
                            mlen == out@.len(),
                            p <= mlen,
                            forall|a: int| 0 <= a < p ==> (#[trigger] out@[a]).t < b,
                        decreases mlen - p,
                    {
                        p = p + 1;
                    }
                    proof {
                        if (p as int) < out0.len() {
                            assert(out0[p as int].t >= b);
                            assert(out0[p as int].t != b);
                            assert(out0[p as int].t > b);
                        }
                        assert forall|a: int| p <= a < out0.len() implies (#[trigger] out0[a]).t
                            > b by {
                            if a > p as int {
                                assert(out0[p as int].t < out0[a].t);
                            }
                        }
                    }
                    out.insert(p, BucketPoint { t: b, count: 1, sum_shares: canon });
                    proof {
                        assert(out@ =~= out0.insert(p as int, out@[p as int]));
                        assert forall|jj: int| 0 <= jj < out@.len() implies #[trigger] out@[jj]
                            == (if jj < p as int {
                            out0[jj]
                        } else if jj == p as int {
                            out@[p as int]
                        } else {
                            out0[jj - 1]
                        }) by {}
                        assert forall|a: int, c: int|
                            0 <= a < c < out@.len() implies (#[trigger] out@[a]).t < (
                        #[trigger] out@[c]).t by {
                            if a != p as int && c != p as int {
                                let ao = if a < p as int { a } else { a - 1 };
                                let co = if c < p as int { c } else { c - 1 };
                                if ao < co {
                                    assert(out0[ao].t < out0[co].t);
                                }
                            }
                        }
                        assert forall|jj: int|
                            0 <= jj < out@.len() implies (#[trigger] out@[jj]).count
                            == count_in_bucket(rows.take(i as int + 1), t, since, w, out@[jj].t as int)
                            && out@[jj].count >= 1 && out@[jj].count <= i + 1 && dec_val(
                            out@[jj].sum_shares@,
                        ) == sum_in_bucket(rows.take(i as int + 1), t, since, w, out@[jj].t as int)
                            && is_canon_dec(out@[jj].sum_shares@) by {
                            if jj != p as int {
                                let jo = if jj < p as int { jj } else { jj - 1 };
                                assert(out@[jj] == out0[jo]);
                                assert(out0[jo].t != b);
                            } else {
                                assert(out@[jj].t == b);
                            }
                        }
                        assert forall|k: int|
                            0 <= k < i + 1 && in_window(#[trigger] rows[k], t, since) implies (
                        exists|jj: int|
                            0 <= jj < out@.len() && (#[trigger] out@[jj]).t == bkt(
                                rows[k].block_timestamp as int,
                                w,
                            )) by {
                            if k < i as int {
                                let jj = choose|jj: int|
                                    0 <= jj < out0.len() && (#[trigger] out0[jj]).t == bkt(
                                        rows[k].block_timestamp as int,
                                        w,
                                    );
                                let jn = if jj < p as int { jj } else { jj + 1 };
                                assert(out@[jn] == out0[jj]);
                            } else {
                                assert(out@[p as int].t == b);
                            }
                        }
                    }
                }
            } else {
                proof {
                    assert forall|jj: int|
                        0 <= jj < out@.len() implies (#[trigger] out@[jj]).count == count_in_bucket(
                        rows.take(i as int + 1),
                        t,
                        since,
                        w,
                        out@[jj].t as int,
                    ) && dec_val(out@[jj].sum_shares@) == sum_in_bucket(
                        rows.take(i as int + 1),
                        t,
                        since,
                        w,
                        out@[jj].t as int,
                    ) by {}
                }
            }
            i = i + 1;
        }
        proof {
            assert(self.rows@.take(n as int) =~= self.rows@);
        }
        out
    }

    /// How many stored rows belong to `token_id`.
    pub fn count_rows_for_token(&self, token_id: &str) -> (r: usize)
        requires
            self.wf(),
        ensures
            r == count_for(self.rows_view(), token_id@),
            r <= self.rows_view().len(),
    {
        let n = self.rows.len();
        let mut cnt: usize = 0;
        let mut i: usize = 0;
        proof {
            lemma_count_for_bound(self.rows@.take(0), token_id@);
        }
        while i < n
            invariant
                n == self.rows@.len(),
                i <= n,
                cnt == count_for(self.rows@.take(i as int), token_id@),
                cnt <= i,
            decreases n - i,
        {
            proof {
                assert(self.rows@.take(i as int + 1).drop_last() =~= self.rows@.take(i as int));
                assert(self.rows@.take(i as int + 1).last() == self.rows@[i as int]);
            }
            if crate::text::str_eq(self.rows[i].token_id.as_str(), token_id) {
                cnt = cnt + 1;
            }
            i = i + 1;
        }
        proof {
            assert(self.rows@.take(n as int) =~= self.rows@);
        }
        cnt
    }
}

/// `r` is a row of token `t` inside the half-open time range `[lo, hi)`.
pub open spec fn in_range(r: DepositRow, t: Seq<char>, lo: int, hi: int) -> bool {
    r.token_id@ == t && lo <= r.block_timestamp < hi
}

/// Number of rows of token `t` inside `[lo, hi)`.
pub open spec fn count_in_range(rows: Seq<DepositRow>, t: Seq<char>, lo: int, hi: int) -> int
    decreases rows.len(),
{
    if rows.len() == 0 {
        0
    } else {
        count_in_range(rows.drop_last(), t, lo, hi) + if in_range(rows.last(), t, lo, hi) {
            1int
        } else {
            0int
        }
    }
}

/// Sum of the share values of the rows of token `t` inside `[lo, hi)`.
pub open spec fn sum_in_range(rows: Seq<DepositRow>, t: Seq<char>, lo: int, hi: int) -> int
    decreases rows.len(),
{
    if rows.len() == 0 {
        0
    } else {
        sum_in_range(rows.drop_last(), t, lo, hi) + if in_range(rows.last(), t, lo, hi) {
            dec_val(rows.last().shares@)
        } else {
            0int
        }
    }
}

/// `r` is a row of token `t` at or after `since`.
pub open spec fn in_window(r: DepositRow, t: Seq<char>, since: int) -> bool {
    r.token_id@ == t && r.block_timestamp >= since
}

/// The bucket grid point that `ts` falls into, for width `w`.
pub open spec fn bkt(ts: int, w: int) -> int {
    (ts / w) * w
}

/// Number of rows of token `t` at or after `since` whose timestamp falls in
/// bucket `b`.
pub open spec fn count_in_bucket(
    rows: Seq<DepositRow>,
    t: Seq<char>,
    since: int,
    w: int,
    b: int,
) -> int
    decreases rows.len(),
{
    if rows.len() == 0 {
        0
    } else {
        count_in_bucket(rows.drop_last(), t, since, w, b) + if in_window(rows.last(), t, since)
            && bkt(rows.last().block_timestamp as int, w) == b {
            1int
        } else {
            0int
        }
    }
}

/// Sum of the share values of those rows.
pub open spec fn sum_in_bucket(
    rows: Seq<DepositRow>,
    t: Seq<char>,
    since: int,
    w: int,
    b: int,
) -> int
    decreases rows.len(),
{
    if rows.len() == 0 {
        0
    } else {
        sum_in_bucket(rows.drop_last(), t, since, w, b) + if in_window(rows.last(), t, since)
            && bkt(rows.last().block_timestamp as int, w) == b {
            dec_val(rows.last().shares@)
        } else {
            0int
        }
    }
}

proof fn lemma_count_in_bucket_bound(rows: Seq<DepositRow>, t: Seq<char>, since: int, w: int, b: int)
    ensures
        0 <= count_in_bucket(rows, t, since, w, b) <= rows.len(),
    decreases rows.len(),
{
    if rows.len() > 0 {
        lemma_count_in_bucket_bound(rows.drop_last(), t, since, w, b);
    }
}

/// A bucket no stored row contributes to counts and sums to zero.
pub proof fn lemma_bucket_empty(rows: Seq<DepositRow>, t: Seq<char>, since: int, w: int, b: int)
    requires
        forall|k: int|
            0 <= k < rows.len() ==> !(in_window(#[trigger] rows[k], t, since) && bkt(
                rows[k].block_timestamp as int,
                w,
            ) == b),
    ensures
        count_in_bucket(rows, t, since, w, b) == 0,
        sum_in_bucket(rows, t, since, w, b) == 0,
    decreases rows.len(),
{
    if rows.len() > 0 {
        let p = rows.drop_last();
        assert forall|k: int|
            0 <= k < p.len() implies !(in_window(#[trigger] p[k], t, since) && bkt(
            p[k].block_timestamp as int,
            w,
        ) == b) by {
            assert(p[k] == rows[k]);
        }
        lemma_bucket_empty(p, t, since, w, b);
        assert(!(in_window(rows.last(), t, since) && bkt(rows.last().block_timestamp as int, w)
            == b)) by {
            assert(rows.last() == rows[rows.len() - 1]);
        }
    }
}

/// Number of rows of `rows` that belong to token `t`.
pub open spec fn count_for(rows: Seq<DepositRow>, t: Seq<char>) -> int
    decreases rows.len(),
{
    if rows.len() == 0 {
        0
    } else {
        count_for(rows.drop_last(), t) + if rows.last().token_id@ == t {
            1int
        } else {
            0int
        }
    }
}

proof fn lemma_count_for_bound(rows: Seq<DepositRow>, t: Seq<char>)
    ensures
        0 <= count_for(rows, t) <= rows.len(),
    decreases rows.len(),
{
    if rows.len() > 0 {
        lemma_count_for_bound(rows.drop_last(), t);
    }
}

} // verus!
