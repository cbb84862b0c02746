use eigenstream::bucket::{bucket_bounds, zero_fill, BucketPoint};

fn bp(t: i64, count: i64, sum: &str) -> BucketPoint {
    BucketPoint { t, count, sum_shares: sum.to_string() }
}

#[test]
fn zero_fill_is_total_on_aligned_window() {
    // Window [0, 900], width 300: exactly (900-0)/300 + 1 = 4 buckets.
    let out = zero_fill(Vec::new(), 0, 900, 300);
    assert_eq!(out.len(), 4);
    for (i, b) in out.iter().enumerate() {
        assert_eq!(b.t, i as i64 * 300);
        assert_eq!(b.count, 0);
        assert_eq!(b.sum_shares, "0");
    }
}

#[test]
fn zero_fill_keeps_source_buckets_and_fills_gaps() {
    let points = vec![bp(300, 2, "15"), bp(900, 1, "7")];
    let out = zero_fill(points, 0, 1200, 300);
    assert_eq!(out.len(), 5);
    assert_eq!((out[0].t, out[0].count, out[0].sum_shares.as_str()), (0, 0, "0"));
    assert_eq!((out[1].t, out[1].count, out[1].sum_shares.as_str()), (300, 2, "15"));
    assert_eq!((out[2].t, out[2].count, out[2].sum_shares.as_str()), (600, 0, "0"));
    assert_eq!((out[3].t, out[3].count, out[3].sum_shares.as_str()), (900, 1, "7"));
    assert_eq!((out[4].t, out[4].count, out[4].sum_shares.as_str()), (1200, 0, "0"));
}

#[test]
fn zero_fill_later_points_shadow_earlier_ones() {
    let points = vec![bp(300, 1, "1"), bp(300, 9, "99")];
    let out = zero_fill(points, 300, 300, 300);
    assert_eq!(out.len(), 1);
    assert_eq!((out[0].count, out[0].sum_shares.as_str()), (9, "99"));
}

#[test]
fn zero_fill_unaligned_start_snaps_to_grid() {
    let out = zero_fill(Vec::new(), 450, 900, 300);
    assert_eq!(out.len(), 3);
    assert_eq!(out[0].t, 300);
    assert_eq!(out[2].t, 900);
}

#[test]
fn zero_fill_empty_window() {
    let out = zero_fill(Vec::new(), 900, 200, 300);
    assert_eq!(out.len(), 0);
}

#[test]
fn bucket_bounds_contain_now() {
    let (start, end) = bucket_bounds(1234, 300);
    assert_eq!(start, 1200);
    assert_eq!(end, 1500);
    let (s2, e2) = bucket_bounds(0, 300);
    assert_eq!((s2, e2), (0, 300));
}
