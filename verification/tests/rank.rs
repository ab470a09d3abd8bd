use zztop::rank::{age_seconds, frecency_quarters, top_n, DAY, HOUR, WEEK};

/// The frecency score, as the program computes it in floating point.
fn frecency(rank: f64, age: u64) -> f64 {
    rank * (frecency_quarters(age) as f64 / 4.0)
}

/// An integer that orders scores as `<` does; NaN ranks last.
fn score_key(score: f64) -> u64 {
    if score.is_nan() {
        return 0;
    }
    let s = if score == 0.0 { 0.0 } else { score };
    let bits = s.to_bits();
    if bits >> 63 == 1 {
        !bits
    } else {
        bits | (1 << 63)
    }
}

/// Candidates from `(rank, time, exists)`, scored at `now`.
fn candidates(entries: &[(f64, u64, bool)], now: u64) -> Vec<(u64, bool)> {
    entries
        .iter()
        .map(|&(rank, time, exists)| (score_key(frecency(rank, age_seconds(now, time))), exists))
        .collect()
}

#[test]
fn frecency_threshold_boost_within_hour() {
    let recent = frecency(1.0, 30 * 60);
    let old = frecency(4.0, 2 * DAY);
    assert!(recent > old, "expected recent={recent} > old={old}");
}

#[test]
fn frecency_thresholds_match_zsh_z() {
    assert_eq!(frecency(10.0, 0), 40.0);
    assert_eq!(frecency(10.0, HOUR - 1), 40.0);
    assert_eq!(frecency(10.0, HOUR), 20.0);
    assert_eq!(frecency(10.0, DAY - 1), 20.0);
    assert_eq!(frecency(10.0, DAY), 5.0);
    assert_eq!(frecency(10.0, WEEK - 1), 5.0);
    assert_eq!(frecency(10.0, WEEK), 2.5);
    assert_eq!(frecency(10.0, WEEK * 1000), 2.5);
}

#[test]
fn frecency_quarters_by_age() {
    assert_eq!(frecency_quarters(0), 16);
    assert_eq!(frecency_quarters(HOUR), 8);
    assert_eq!(frecency_quarters(DAY), 2);
    assert_eq!(frecency_quarters(WEEK), 1);
    assert_eq!(frecency_quarters(u64::MAX), 1);
}

#[test]
fn age_saturates_at_zero() {
    assert_eq!(age_seconds(100, 40), 60);
    assert_eq!(age_seconds(100, 9_999_999_999), 0);
}

#[test]
fn top_n_returns_at_most_n() {
    let c = candidates(&[(1.0, 0, true), (2.0, 0, true), (3.0, 0, true)], 100);
    let top = top_n(&c, 2);
    assert_eq!(top.len(), 2);
}

#[test]
fn top_n_returns_fewer_when_input_smaller() {
    let c = candidates(&[(1.0, 0, true)], 100);
    let top = top_n(&c, 5);
    assert_eq!(top.len(), 1);
}

#[test]
fn top_n_filters_non_existent_paths() {
    let c = candidates(&[(100.0, 0, false), (1.0, 0, true)], 100);
    let top = top_n(&c, 5);
    assert_eq!(top, vec![1]);
}

#[test]
fn top_n_filters_after_sort_so_high_ranked_missing_does_not_crowd_out_real() {
    let c = candidates(&[(1000.0, 100, false), (1.0, 100, true)], 200);
    let top = top_n(&c, 1);
    assert_eq!(top, vec![1]);
}

#[test]
fn top_n_orders_by_frecency_score() {
    let now = WEEK * 2;
    let c = candidates(&[(1.0, now - 100, true), (5.0, 0, true)], now);
    let top = top_n(&c, 2);
    assert_eq!(top, vec![0, 1], "recent low-rank should outrank stale high-rank");
}

#[test]
fn top_n_handles_future_timestamps_via_saturating_sub() {
    let c = candidates(&[(1.0, 9_999_999_999, true)], 100);
    let top = top_n(&c, 5);
    assert_eq!(top.len(), 1);
}

#[test]
fn top_n_ties_keep_file_order_and_skip_missing() {
    let c = vec![(5, true), (9, false), (5, true), (7, true), (5, true), (9, true)];
    assert_eq!(top_n(&c, 3), vec![5, 3, 0]);
    assert_eq!(top_n(&c, 10), vec![5, 3, 0, 2, 4]);
    assert_eq!(top_n(&c, 0), Vec::<usize>::new());
    assert_eq!(top_n(&Vec::new(), 4), Vec::<usize>::new());
}

#[test]
fn top_n_is_deterministic_and_sized() {
    let c = candidates(&[(3.0, 0, true), (3.0, 0, false), (0.5, 50, true), (8.0, 0, true)], 10_000);
    let a = top_n(&c, 2);
    let b = top_n(&c, 2);
    assert_eq!(a, b);
    assert_eq!(a.len(), 2);
    assert_eq!(top_n(&c, 9).len(), 3);
}

#[test]
fn score_keys_order_like_scores() {
    let xs = [f64::NEG_INFINITY, -2.5, -0.0, 0.0, 1e-300, 1.0, 2.5, f64::INFINITY];
    for w in xs.windows(2) {
        assert!(score_key(w[0]) <= score_key(w[1]));
    }
    assert_eq!(score_key(-0.0), score_key(0.0));
}
