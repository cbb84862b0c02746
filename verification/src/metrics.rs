//! In-process counters for the service's observability: outcome counts of
//! indexer calls, cache operations, application errors, and database call
//! timings. The registry is an explicit value handed to whoever records —
//! counters saturate instead of wrapping, and every increment is exact.

use vstd::prelude::*;
use crate::assoc::AssocVec;

verus! {

/// The metrics registry.
pub struct Metrics {
    subgraph: AssocVec<u64>,
    cache: AssocVec<u64>,
    errors: AssocVec<u64>,
    db_calls: AssocVec<(u64, u64)>,
}

/// A saturating counter bump.
pub open spec fn bumped(c: int) -> int {
    if c < u64::MAX {
        c + 1
    } else {
        c
    }
}

fn bump(table: &mut AssocVec<u64>, key: &str)
    requires
        old(table).wf(),
    ensures
        final(table).wf(),
        (if final(table).contains_key(key@) {
            final(table).value_of(key@) as int
        } else {
            0int
        }) == bumped(
            if old(table).contains_key(key@) {
                old(table).value_of(key@) as int
            } else {
                0int
            },
        ),
        final(table).contains_key(key@),
        forall|k: Seq<char>|
            k != key@ ==> final(table).contains_key(k) == old(table).contains_key(k) && (old(table).contains_key(k) ==> final(table).value_of(k) == old(table).value_of(k)),
{
    match table.find(key) {
        Some(i) => {
            let c = *table.value_ref(i);
            let nc: u64 = if c < u64::MAX {
                c + 1
            } else {
                c
            };
            table.set_value_at(i, nc);
        },
        None => {
            table.push_new(key.to_owned(), 1);
        },
    }
}

impl Metrics {
    /// How often an indexer call ended with `result`.
    pub closed spec fn subgraph_count(self, result: Seq<char>) -> int {
        if self.subgraph.contains_key(result) {
            self.subgraph.value_of(result) as int
        } else {
            0
        }
    }

    /// How often a cache operation `op` ended with `result` (keyed by
    /// `op:result`).
    pub closed spec fn cache_count(self, key: Seq<char>) -> int {
        if self.cache.contains_key(key) {
            self.cache.value_of(key) as int
        } else {
            0
        }
    }

    /// How often error kind `kind` was recorded.
    pub closed spec fn error_count(self, kind: Seq<char>) -> int {
        if self.errors.contains_key(kind) {
            self.errors.value_of(kind) as int
        } else {
            0
        }
    }

    /// Count and total duration (milliseconds) of database calls named `op`.
    pub closed spec fn db_stats(self, op: Seq<char>) -> (int, int) {
        if self.db_calls.contains_key(op) {
            (self.db_calls.value_of(op).0 as int, self.db_calls.value_of(op).1 as int)
        } else {
            (0, 0)
        }
    }

    /// All tables keyed consistently.
    pub closed spec fn wf(self) -> bool {
        self.subgraph.wf() && self.cache.wf() && self.errors.wf() && self.db_calls.wf()
    }

    /// An empty registry.
    pub fn new() -> (r: Metrics)
        ensures
            r.wf(),
            forall|k: Seq<char>| r.subgraph_count(k) == 0,
            forall|k: Seq<char>| r.cache_count(k) == 0,
            forall|k: Seq<char>| r.error_count(k) == 0,
            forall|k: Seq<char>| r.db_stats(k) == (0int, 0int),
    {
        Metrics {
            subgraph: AssocVec::new(),
            cache: AssocVec::new(),
            errors: AssocVec::new(),
            db_calls: AssocVec::new(),
        }
    }
}

/// Records the outcome and duration of one indexer call.
pub fn subgraph_observe(m: &mut Metrics, result: &str, dur_ms: u64)
    requires
        old(m).wf(),
    ensures
        final(m).wf(),
        final(m).subgraph_count(result@) == bumped(old(m).subgraph_count(result@)),
        forall|k: Seq<char>| k != result@ ==> final(m).subgraph_count(k) == old(m).subgraph_count(k),
        forall|k: Seq<char>| final(m).cache_count(k) == old(m).cache_count(k),
        forall|k: Seq<char>| final(m).error_count(k) == old(m).error_count(k),
        forall|k: Seq<char>| final(m).db_stats(k) == old(m).db_stats(k),
{
    let _ = dur_ms;
    bump(&mut m.subgraph, result);
}

/// Records one cache operation under the composite key `op:result`.
pub fn cache_inc(m: &mut Metrics, op: &str, result: &str)
    requires
        old(m).wf(),
    ensures
        final(m).wf(),
        final(m).cache_count(op@ + seq![':'] + result@) == bumped(
            old(m).cache_count(op@ + seq![':'] + result@),
        ),
        forall|k: Seq<char>|
            k != op@ + seq![':'] + result@ ==> final(m).cache_count(k) == old(m).cache_count(k),
        forall|k: Seq<char>| final(m).subgraph_count(k) == old(m).subgraph_count(k),
        forall|k: Seq<char>| final(m).error_count(k) == old(m).error_count(k),
        forall|k: Seq<char>| final(m).db_stats(k) == old(m).db_stats(k),
{
    let mut key = op.to_owned();
    crate::dec::push_char(&mut key, ':');
    key.append(result);
    proof {
        assert(key@ =~= op@ + seq![':'] + result@);
    }
    bump(&mut m.cache, key.as_str());
}

/// Records one application error of kind `kind`.
pub fn error_inc(m: &mut Metrics, kind: &str)
    requires
        old(m).wf(),
    ensures
        final(m).wf(),
        final(m).error_count(kind@) == bumped(old(m).error_count(kind@)),
        forall|k: Seq<char>| k != kind@ ==> final(m).error_count(k) == old(m).error_count(k),
        forall|k: Seq<char>| final(m).subgraph_count(k) == old(m).subgraph_count(k),
        forall|k: Seq<char>| final(m).cache_count(k) == old(m).cache_count(k),
        forall|k: Seq<char>| final(m).db_stats(k) == old(m).db_stats(k),
{
    bump(&mut m.errors, kind);
}

/// A running timer around one database call.
pub struct DbTimer {
    pub op: String,
    pub start_ms: u64,
}

impl DbTimer {
    /// Starts timing a database call named `op` at `start_ms`.
    pub fn new(op: &str, start_ms: u64) -> (r: DbTimer)
        ensures
            r.op@ == op@,
            r.start_ms == start_ms,
    {
        DbTimer { op: op.to_owned(), start_ms }
    }

    /// Stops the timer at `now_ms` and records one call of `op` taking the
    /// elapsed time (zero if the clock ran backwards), saturating.
    pub fn finish(self, now_ms: u64, m: &mut Metrics)
        requires
            old(m).wf(),
        ensures
            final(m).wf(),
            ({
                let elapsed: int = if now_ms >= self.start_ms {
                    now_ms - self.start_ms
                } else {
                    0
                };
                let prev = old(m).db_stats(self.op@);
                let cur = final(m).db_stats(self.op@);
                cur.0 == bumped(prev.0) && cur.1 == (if prev.1 + elapsed <= u64::MAX {
                    prev.1 + elapsed
                } else {
                    u64::MAX as int
                })
            }),
            forall|k: Seq<char>| k != self.op@ ==> final(m).db_stats(k) == old(m).db_stats(k),
            forall|k: Seq<char>| final(m).subgraph_count(k) == old(m).subgraph_count(k),
            forall|k: Seq<char>| final(m).cache_count(k) == old(m).cache_count(k),
            forall|k: Seq<char>| final(m).error_count(k) == old(m).error_count(k),
    {
        let elapsed: u64 = if now_ms >= self.start_ms {
            now_ms - self.start_ms
        } else {
            0
        };
        match m.db_calls.find(self.op.as_str()) {
            Some(i) => {
                let (c, tot) = *m.db_calls.value_ref(i);
                let nc: u64 = if c < u64::MAX {
                    c + 1
                } else {
                    c
                };
                let nt: u64 = if tot <= u64::MAX - elapsed {
                    tot + elapsed
                } else {
                    u64::MAX
                };
                m.db_calls.set_value_at(i, (nc, nt));
            },
            None => {
                m.db_calls.push_new(self.op.clone(), (1, elapsed));
            },
        }
    }
}

} // verus!
