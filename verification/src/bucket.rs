//! Fixed-width time buckets and the zero-filling of a requested window.
//!
//! A bucket summarises the events of one `[t, t + step)` slice as a count
//! and a decimal sum. Chart replay asks for a window `[start, end]` and must
//! receive one bucket per aligned grid point, with explicit zero buckets
//! where nothing happened.

use vstd::prelude::*;
use vstd::arithmetic::div_mod::*;
use vstd::arithmetic::mul::lemma_mul_is_commutative;

verus! {

/// One aggregated time slice: bucket start, event count, decimal sum of
/// shares.
#[derive(Clone, Debug)]
pub struct BucketPoint {
    pub t: i64,
    pub count: i64,
    pub sum_shares: String,
}

/// The last point of `points` whose bucket start is `t`, if any. Later
/// entries shadow earlier ones, as a keyed insert of each point in order
/// would have it.
pub open spec fn find_last_at(points: Seq<BucketPoint>, t: int) -> Option<BucketPoint>
    decreases points.len(),
{
    if points.len() == 0 {
        None
    } else if points.last().t == t {
        Some(points.last())
    } else {
        find_last_at(points.drop_last(), t)
    }
}

/// What `find_last_at` returns is an element of the sequence at that grid
/// position — or nothing stands there at all.
pub proof fn lemma_find_last_at(points: Seq<BucketPoint>, t: int)
    ensures
        match find_last_at(points, t) {
            Some(p) => p.t == t && exists|j: int| 0 <= j < points.len() && points[j] == p,
            None => forall|j: int| 0 <= j < points.len() ==> (#[trigger] points[j]).t != t,
        },
    decreases points.len(),
{
    if points.len() > 0 {
        let p = points.drop_last();
        lemma_find_last_at(p, t);
        assert(points.last() == points[points.len() - 1]);
        if points.last().t != t {
            match find_last_at(p, t) {
                Some(q) => {
                    let j = choose|j: int| 0 <= j < p.len() && p[j] == q;
                    assert(points[j] == q);
                },
                None => {
                    assert forall|j: int|
                        0 <= j < points.len() implies (#[trigger] points[j]).t != t by {
                        if j < points.len() - 1 {
                            assert(points[j] == p[j]);
                        }
                    }
                },
            }
        }
    }
}

/// `b` carries the data of the last source point at its grid position, or
/// an explicit zero bucket when no source point landed there.
pub open spec fn bucket_filled(points: Seq<BucketPoint>, b: BucketPoint) -> bool {
    match find_last_at(points, b.t as int) {
        Some(p) => b.count == p.count && b.sum_shares@ == p.sum_shares@,
        None => b.count == 0 && b.sum_shares@ == seq!['0'],
    }
}

/// The first grid point at or below `start`.
pub open spec fn aligned_start(start: int, step: int) -> int {
    (start / step) * step
}

fn lookup_bucket(points: &Vec<BucketPoint>, t: i64) -> (r: Option<(i64, String)>)
    ensures
        ({
            let f = find_last_at(points@, t as int);
            match r {
                Some(cs) => f is Some && cs.0 == f->Some_0.count && cs.1@ == f->Some_0.sum_shares@,
                None => f is None,
            }
        }),
{
    let mut i = points.len();
    proof {
        assert(points@.take(i as int) =~= points@);
    }
    while i > 0
        invariant
            i <= points.len(),
            find_last_at(points@, t as int) == find_last_at(points@.take(i as int), t as int),
        decreases i,
    {
        i = i - 1;
        proof {
            assert(points@.take(i as int + 1).drop_last() =~= points@.take(i as int));
            assert(points@.take(i as int + 1).last() == points@[i as int]);
        }
        let p = &points[i];
        if p.t == t {
            return Some((p.count, p.sum_shares.clone()));
        }
    }
    None
}

/// Expands `points` onto the full bucket grid of the window `[start, end]`:
/// one bucket per aligned grid point, explicit zeros where `points` holds
/// nothing. For an aligned window the series length is exactly
/// `(end - start) / step + 1` — zero-fill is total.
pub fn zero_fill(points: Vec<BucketPoint>, start: i64, end: i64, step: i64) -> (out: Vec<
    BucketPoint,
>)
    requires
        step > 0,
        0 <= start,
        end <= i64::MAX - step,
    ensures
        aligned_start(start as int, step as int) <= end ==> out@.len() == (end - aligned_start(
            start as int,
            step as int,
        )) / (step as int) + 1,
        aligned_start(start as int, step as int) > end ==> out@.len() == 0,
        forall|i: int|
            0 <= i < out@.len() ==> (#[trigger] out@[i]).t == aligned_start(
                start as int,
                step as int,
            ) + i * step,
        forall|i: int| 0 <= i < out@.len() ==> bucket_filled(points@, #[trigger] out@[i]),
        start % step == 0 && start <= end ==> out@.len() == (end - start) / (step as int) + 1,
{
    let ghost aligned = aligned_start(start as int, step as int);
    proof {
        lemma_fundamental_div_mod(start as int, step as int);
        lemma_mod_bound(start as int, step as int);
        lemma_mul_is_commutative(step as int, (start as int) / (step as int));
        assert(aligned == start - start % step);
        assert(0 <= aligned <= start);
    }
    let mut out: Vec<BucketPoint> = Vec::new();
    let mut t: i64 = (start / step) * step;
    if t > end {
        return out;
    }
    while t <= end
        invariant
            step > 0,
            end <= i64::MAX - step,
            aligned == aligned_start(start as int, step as int),
            aligned <= t <= end + step,
            t == aligned + out@.len() * step,
            forall|i: int|
                0 <= i < out@.len() ==> (#[trigger] out@[i]).t == aligned + i * step,
            forall|i: int| 0 <= i < out@.len() ==> bucket_filled(points@, #[trigger] out@[i]),
        decreases end + step - t,
    {
        let ghost k = out@.len() as int;
        let filled = match lookup_bucket(&points, t) {
            Some(cs) => BucketPoint { t, count: cs.0, sum_shares: cs.1 },
            None => {
                let mut zero = String::new();
                crate::dec::push_char(&mut zero, '0');
                proof {
                    assert(zero@ =~= seq!['0']);
                }
                BucketPoint { t, count: 0, sum_shares: zero }
            },
        };
        out.push(filled);
        proof {
            assert((k + 1) * step == k * step + step) by (nonlinear_arith);
        }
        t = t + step;
    }
    proof {
        let k = out@.len() as int;
        if aligned <= end {
            assert(k >= 1);
            assert((k - 1) * step == k * step - step) by (nonlinear_arith);
            lemma_fundamental_div_mod_converse(
                end - aligned,
                step as int,
                k - 1,
                end - aligned - (k - 1) * step,
            );
            assert((end - aligned) / (step as int) == k - 1);
        }
        if start % step == 0 {
            assert(aligned == start);
        }
    }
    out
}

/// The bucket of the grid that contains `now`: its start and exclusive end.
pub fn bucket_bounds(now: i64, bucket_sec: i64) -> (r: (i64, i64))
    requires
        bucket_sec > 0,
        0 <= now,
        now <= i64::MAX - bucket_sec,
    ensures
        r.0 == aligned_start(now as int, bucket_sec as int),
        r.1 == r.0 + bucket_sec,
        r.0 <= now < r.1,
{
    proof {
        lemma_fundamental_div_mod(now as int, bucket_sec as int);
        lemma_mod_bound(now as int, bucket_sec as int);
        lemma_mul_is_commutative(bucket_sec as int, (now as int) / (bucket_sec as int));
    }
    let start = (now / bucket_sec) * bucket_sec;
    (start, start + bucket_sec)
}

} // verus!
