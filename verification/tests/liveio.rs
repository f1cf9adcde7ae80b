use std::collections::{HashMap, HashSet, VecDeque};

use zcode_speed_panel::attribution::{pick_attribution, pick_pid_set, should_reattribute};
use zcode_speed_panel::calibration::{
    cal_sample, cross_pid_ok, median_bpt, samples_stale, RoundDrift, CAL_QUEUE_CAP,
};
use zcode_speed_panel::live::LiveIo;
use zcode_speed_panel::pulse::{awaiting_hint, stale_stop, WINDOW_MS};
use zcode_speed_panel::stream::{
    build_rows, integrate, merge_streams, CleanParams, TickRow, FILES_LIMIT,
};
use zcode_speed_panel::strmap::StrMap;

const TICK: i64 = 700;

/// Samples of a counter that grows by `deltas`, one tick after the other.
fn series(start_ms: i64, deltas: &[f64]) -> Vec<(i64, u64)> {
    let mut out = Vec::with_capacity(deltas.len() + 1);
    let mut acc = 0u64;
    out.push((start_ms, acc));
    for (i, d) in deltas.iter().enumerate() {
        acc += *d as u64;
        out.push((start_ms + (i as i64 + 1) * TICK, acc));
    }
    out
}

fn bytes(thousandths: i128) -> f64 {
    thousandths as f64 / 1000.0
}

fn secs(ms: u128) -> f64 {
    ms as f64 / 1000.0
}

fn rate(x: f64) -> u64 {
    (x * 1000.0).round() as u64
}

fn speed(x: f64) -> u64 {
    (x * 1e6).round() as u64
}

#[test]
fn burst_tick_dropped_entirely() {
    let s = series(0, &[190_000.0, 52_000.0, 52_000.0]);
    let rows = build_rows(&s, 0, &CleanParams::windows());
    assert_eq!(rows.len(), 2);
    assert!(rows.iter().all(|r| bytes(r.bytes) < 52_000.0));
    let s = secs(integrate(&rows, i64::MIN, i64::MAX).1);
    assert!((s - 1.4).abs() < 1e-9);
}

#[test]
fn floor_capped_against_ring_poisoning() {
    let s = series(0, &[52_000.0; 4]);
    let p = CleanParams::windows();
    let rows = build_rows(&s, 50_000, &p);
    let floor = p.floor_cap_bytes as f64 + p.base_noise_bps as f64 * (TICK as f64 / 1000.0);
    assert_eq!(rows.len(), 4);
    for r in &rows {
        assert!((bytes(r.bytes) - (52_000.0 - floor)).abs() < 1e-6);
    }
}

#[test]
fn merge_streams_deducts_file_growth_once_and_counts_secs_once() {
    let a = series(0, &[52_000.0; 4]);
    let b = series(0, &[52_000.0; 4]);
    let files: Vec<(i64, u64)> =
        (0..5).map(|i| (a[0].0 + i as i64 * TICK, i as u64 * 10_000)).collect();
    let p = CleanParams::windows();
    let rows_a = build_rows(&a, 0, &p);
    let rows_b = build_rows(&b, 0, &p);
    let merged = merge_streams(&[&rows_a, &rows_b], &files);
    let floor = p.base_noise_bps as f64 * (TICK as f64 / 1000.0);
    assert_eq!(merged.len(), 4);
    for r in &merged {
        assert!((bytes(r.bytes) - (2.0 * (52_000.0 - floor) - 10_000.0)).abs() < 1e-6);
    }
    let (b_sum, ms) = integrate(&merged, i64::MIN, i64::MAX);
    let secs = secs(ms);
    assert!((secs - 2.8).abs() < 1e-9, "wall-clock duration should be counted once: {secs}");
    assert!((bytes(b_sum) - (8.0 * (52_000.0 - floor) - 40_000.0)).abs() < 1e-6);
    let s = series(0, &[20_000.0, 60_000.0, 20_000.0]);
    let flush_files =
        vec![(s[0].0, 0u64), (s[1].0, 0u64), (s[2].0, 60_000u64), (s[3].0, 60_000u64)];
    let single = merge_streams(&[&build_rows(&s, 0, &p)], &flush_files);
    assert!(single[1].bytes < 0, "flush tick should be negative: {}", single[1].bytes);
    let (b2, _) = integrate(&single, i64::MIN, i64::MAX);
    assert!((bytes(b2) - (100_000.0 - 60_000.0 - 3.0 * floor)).abs() < 1e-6);
}

#[test]
fn pick_pid_set_union_and_fallback() {
    let mut sp: StrMap<u32> = StrMap::new();
    sp.insert("a".to_string(), 1u32);
    sp.insert("b".to_string(), 2u32);
    let active: HashSet<u32> = [1u32, 2u32, 3u32].into_iter().collect();
    let inflight = vec![("b".to_string(), 5i64), ("a".to_string(), 3i64)];
    assert_eq!(pick_pid_set(&inflight, &sp, &active), Some(vec![1u32, 2u32]));
    sp.insert("c".to_string(), 1u32);
    let inflight = vec![("a".to_string(), 3i64), ("c".to_string(), 9i64)];
    assert_eq!(pick_pid_set(&inflight, &sp, &active), Some(vec![1u32]));
    let inflight = vec![("a".to_string(), 3i64), ("new".to_string(), 9i64)];
    assert_eq!(pick_pid_set(&inflight, &sp, &active), None);
    let dead: HashSet<u32> = [2u32].into_iter().collect();
    let inflight = vec![("a".to_string(), 3i64)];
    assert_eq!(pick_pid_set(&inflight, &sp, &dead), None);
    assert_eq!(pick_pid_set(&[], &sp, &active), None);
}

#[test]
fn should_reattribute_hysteresis() {
    let raws: HashMap<u32, u64> =
        [(1u32, 100_000u64), (2u32, 150_000u64), (3u32, 300_000u64)].into_iter().collect();
    assert_eq!(should_reattribute(None, Some(2), &raws), Some(2));
    assert_eq!(should_reattribute(Some(1), Some(1), &raws), Some(1));
    assert_eq!(should_reattribute(Some(1), Some(2), &raws), Some(1));
    assert_eq!(should_reattribute(Some(1), Some(3), &raws), Some(3));
    let raws0: HashMap<u32, u64> = [(9u32, 0u64), (3u32, 300_000u64)].into_iter().collect();
    assert_eq!(should_reattribute(Some(9), Some(3), &raws0), Some(3));
    assert_eq!(should_reattribute(Some(1), None, &raws), None);
}

#[test]
fn pick_attribution_dedup_on_tie() {
    let raws: HashMap<u32, u64> =
        [(1u32, 4_000_000u64), (2u32, 3_800_000u64)].into_iter().collect();
    let owned: HashSet<u32> = [1u32].into_iter().collect();
    assert_eq!(pick_attribution(None, &raws, &owned), Some(2));
    let raws: HashMap<u32, u64> = [(1u32, 4_000_000u64), (2u32, 700_000u64)].into_iter().collect();
    assert_eq!(pick_attribution(None, &raws, &owned), Some(1));
    let raws: HashMap<u32, u64> =
        [(2u32, 4_000_000u64), (1u32, 4_000_000u64)].into_iter().collect();
    assert_eq!(pick_attribution(None, &raws, &owned), Some(2));
    let no_owned: HashSet<u32> = HashSet::new();
    assert_eq!(pick_attribution(None, &raws, &no_owned), Some(1));
    let raws: HashMap<u32, u64> = [(1u32, 4_000_000u64), (2u32, 30_000u64)].into_iter().collect();
    assert_eq!(pick_attribution(None, &raws, &owned), Some(1));
}

#[test]
fn pick_attribution_relaxed_switch_when_owned() {
    let owned: HashSet<u32> = [1u32].into_iter().collect();
    let raws: HashMap<u32, u64> =
        [(2u32, 4_000_000u64), (1u32, 3_800_000u64)].into_iter().collect();
    assert_eq!(pick_attribution(Some(1), &raws, &owned), Some(2));
    let raws: HashMap<u32, u64> =
        [(2u32, 1_900_000u64), (1u32, 4_000_000u64)].into_iter().collect();
    assert_eq!(pick_attribution(Some(1), &raws, &owned), Some(1));
    let no_owned: HashSet<u32> = HashSet::new();
    let raws: HashMap<u32, u64> =
        [(2u32, 4_000_000u64), (1u32, 3_800_000u64)].into_iter().collect();
    assert_eq!(pick_attribution(Some(1), &raws, &no_owned), Some(1));
    let both_owned: HashSet<u32> = [1u32, 2u32].into_iter().collect();
    assert_eq!(pick_attribution(Some(1), &raws, &both_owned), Some(1));
}

#[test]
fn cross_pid_guard_thresholds() {
    assert!(cross_pid_ok(0, 500_000));
    assert!(cross_pid_ok(100_000, 500_000));
    assert!(!cross_pid_ok(100_001, 500_000));
    assert!(!cross_pid_ok(0, 0));
}

#[test]
fn integrate_prorates_boundary_ticks() {
    let rows = vec![TickRow { dt_ms: 1000, bytes: 1000 * 1000, end_ms: 10_000 }];
    let (b, s) = integrate(&rows, 9_500, 10_000);
    assert!((bytes(b) - 500.0).abs() < 1e-9);
    assert!((secs(s) - 0.5).abs() < 1e-9);
    let (b, _) = integrate(&rows, 10_500, 11_000);
    assert_eq!(b, 0);
}

#[test]
fn median_bpt_sliding() {
    let mut s = VecDeque::new();
    assert_eq!(median_bpt(&mut s, rate(600.0), 5), rate(600.0));
    median_bpt(&mut s, rate(800.0), 5);
    median_bpt(&mut s, rate(400.0), 5);
    assert_eq!(s.len(), 3);
    assert_eq!(median_bpt(&mut s, rate(500.0), 5), rate(600.0));
}

#[test]
fn prior_sample_prevents_single_sample_takeover() {
    let prior = CleanParams::windows().default_bpt;
    assert_eq!(prior, rate(600.0));
    let mut s = VecDeque::new();
    s.push_back(prior);
    let b1 = median_bpt(&mut s, rate(179.0), 5);
    assert_eq!(b1, prior, "single sample should not shake prior: {b1}");
    let b2 = median_bpt(&mut s, rate(552.0), 5);
    assert_eq!(b2, rate(552.0));
}

#[test]
fn awaiting_hint_window() {
    assert!(awaiting_hint(Some(1_000), None, 5_000));
    assert!(awaiting_hint(Some(1_000), None, 21_000));
    assert!(!awaiting_hint(Some(1_000), None, 21_001));
    assert!(!awaiting_hint(Some(1_000), Some(2_000), 5_000));
    assert!(!awaiting_hint(None, None, 5_000));
    assert!(!awaiting_hint(None, Some(1_000), 5_000));
}

#[test]
fn stale_stop_after_silent_window() {
    assert!(!stale_stop(Some(1_000), Some(16_000), 16_000));
    assert!(!stale_stop(Some(1_000), Some(1_000), 16_000));
    assert!(stale_stop(Some(1_000), Some(1_000), 16_001));
    assert!(!stale_stop(None, None, 100_000));
    assert!(!stale_stop(None, Some(1_000), 100_000));
    assert!(!stale_stop(Some(1_000), None, 100_000));
}

#[test]
fn round_drift_triggers_on_threefold_jump() {
    let mut d = RoundDrift::new();
    for v in [40.0, 42.0, 38.0, 41.0, 39.0] {
        assert!(
            d.observe(speed(v)).is_none(),
            "baseline accumulation phase should not trigger"
        );
    }
    let base = d.observe(speed(120.0)).expect("3x upward jump should trigger");
    assert_eq!(base, speed(40.0));
    assert!(d.observe(speed(120.0)).is_none());
}

#[test]
fn round_drift_needs_five_round_history() {
    let mut d = RoundDrift::new();
    for _ in 0..4 {
        assert!(d.observe(speed(40.0)).is_none());
    }
    assert!(d.observe(speed(4_000.0)).is_none());
    assert!(d.observe(speed(40.0)).is_some());
}

#[test]
fn round_drift_downward_jump_triggers() {
    let mut d = RoundDrift::new();
    for _ in 0..5 {
        assert!(d.observe(speed(90.0)).is_none());
    }
    assert!(d.observe(speed(30.0)).is_some());
}

#[test]
fn round_drift_moderate_change_and_window_cap() {
    let mut d = RoundDrift::new();
    for _ in 0..5 {
        assert!(d.observe(speed(40.0)).is_none());
    }
    assert!(d.observe(speed(100.0)).is_none(), "2.5x upward jump should not trigger");
    for _ in 0..5 {
        assert!(d.observe(speed(100.0)).is_none());
    }
    assert!(d.observe(speed(40.0)).is_none());
}

#[test]
fn round_drift_ignores_zero_round() {
    let mut d = RoundDrift::new();
    for v in [50.0, 0.0, 50.0, 0.0, 50.0, 0.0, 50.0] {
        assert!(d.observe(speed(v)).is_none());
    }
    assert!(d.observe(speed(50.0)).is_none());
    assert!(d.observe(speed(200.0)).is_some());
}

#[test]
fn reset_calibration_restores_prior() {
    let mut io = LiveIo::new(false);
    io.learned.cal.clear();
    io.learned.cal.extend([rate(420.0), rate(380.0), rate(455.0)]);
    io.learned.bytes_per_token = rate(420.0);
    let bpt = io.reset_calibration();
    assert_eq!(bpt, io.params.default_bpt);
    assert_eq!(io.learned.cal.len(), 1, "queue should only contain prior placeholder");
    assert_eq!(io.learned.bytes_per_token, io.params.default_bpt);
}

#[test]
fn restore_cal_filters_and_recomputes_median() {
    let mut io = LiveIo::new(false);
    let n = io.restore_cal(&[
        Some(rate(500.0)),
        Some(rate(540.0)),
        Some(rate(30.0)),
        Some(rate(99_999.0)),
        None,
    ]);
    assert_eq!(n, 2);
    assert_eq!(io.bytes_per_token(), rate(540.0));
    assert_eq!(io.restore_cal(&[]), 0);
    assert_eq!(io.bytes_per_token(), rate(540.0));
    let q0 = io.cal_state();
    assert_eq!(q0.len(), 3);
    io.restore_cal(&[
        Some(rate(450.0)),
        Some(rate(460.0)),
        Some(rate(470.0)),
        Some(rate(480.0)),
        Some(rate(490.0)),
    ]);
    assert_eq!(io.cal_state().len(), CAL_QUEUE_CAP);
    assert!(!io.cal_state().contains(&io.params.default_bpt));
    assert_eq!(io.bytes_per_token(), rate(470.0));
}

fn clean(x: f64) -> i128 {
    (x * 1000.0).round() as i128
}

fn raw(x: f64) -> u64 {
    x.round() as u64
}

#[test]
fn cal_sample_rejects_silent_pipe_calls() {
    let p = CleanParams::windows();
    let prior = p.default_bpt;
    let (ok, _) = cal_sample(887, clean(5_939.0), raw(1_048_576.0), prior, &p);
    assert!(!ok);
    let (ok, v) = cal_sample(1028, clean(526.5 * 1024.0), raw(900.0 * 1024.0), prior, &p);
    assert!(ok);
    assert!((v as f64 / 1000.0 - 524.0).abs() < 15.0);
    assert!(!cal_sample(64, clean(50_000.0), raw(80_000.0), prior, &p).0);
    let (ok, v) = cal_sample(449, clean(67.5 * 1024.0), raw(130.0 * 1024.0), prior, &p);
    assert!(ok);
    assert!((v as f64 / 1000.0 - 150.0).abs() < 5.0);
    assert!(
        !cal_sample(500, clean(500.0 * 6000.0 * 1.1), raw(500.0 * 6000.0 * 1.2), prior, &p).0
    );
}

fn mac_params() -> CleanParams {
    let w = CleanParams::windows();
    CleanParams {
        burst_tick_bytes: u64::MAX,
        base_noise_bps: 0,
        floor_cap_bytes: w.floor_cap_bytes,
        cal_min: w.cal_min,
        cal_max: 12_000_000,
        cal_min_tokens: w.cal_min_tokens,
        default_bpt: 700_000,
        detect_ms: w.detect_ms,
        cal_grace_ms: 15_000,
        cal_outlier_ratio: 3,
    }
}

#[test]
fn mac_outlier_sample_rejected() {
    let mac = mac_params();
    let (ok, v) = cal_sample(1_000, clean(650_000.0), 900_000, rate(700.0), &mac);
    assert!(ok);
    assert_eq!(v, rate(650.0));
    let (ok, v) = cal_sample(1_000, clean(186_000.0), 300_000, rate(700.0), &mac);
    assert!(!ok);
    assert_eq!(v, 0);
    assert!(!cal_sample(1_000, clean(2_500_000.0), 3_000_000, rate(700.0), &mac).0);
    let win = CleanParams::windows();
    assert!(cal_sample(1_000, clean(186_000.0), 300_000, win.default_bpt, &win).0);
}

#[test]
fn mac_grace_window_captures_delayed_disk_writes() {
    const TRUE_TPS: f64 = 50.0;
    const BPT_TRUE: f64 = 3_900.0;
    let gen_ms = 30_000i64;
    let n = (gen_ms / TICK) as usize;
    let total = TRUE_TPS * BPT_TRUE * (gen_ms as f64 / 1000.0);
    let t0 = 1_000_000i64;
    let mut deltas = vec![0.0; n];
    deltas.extend(std::iter::repeat(0.0).take(10));
    let chunk = total / 4.0;
    deltas.extend(std::iter::repeat(chunk).take(4));
    let samples = series(t0, &deltas);
    let files = samples.iter().map(|(t, _)| (*t, 0u64)).collect::<Vec<_>>();
    let rows = merge_streams(&[&build_rows(&samples, 0, &mac_params())], &files);
    let call_end = t0 + (n as i64) * TICK;
    let stream_start = call_end - gen_ms;
    let eff = (TRUE_TPS * (gen_ms as f64 / 1000.0)) as u64;

    let (no_grace, _) = integrate(&rows, stream_start, call_end);
    let no_grace = bytes(no_grace);
    assert!(
        no_grace < total * 0.5,
        "window without grace should not see most bytes: {no_grace}"
    );
    let (clean, _) = integrate(&rows, stream_start, call_end + mac_params().cal_grace_ms);
    let bpt = bytes(clean) / eff as f64;
    assert!(
        (bpt - BPT_TRUE).abs() / BPT_TRUE < 0.05,
        "grace window sample {bpt:.0} should be close to true value {BPT_TRUE:.0}"
    );
}

fn within_cal_bounds(bpt: f64) -> f64 {
    let p = CleanParams::windows();
    bpt.clamp(p.cal_min as f64 / 1000.0, p.cal_max as f64 / 1000.0)
}

#[test]
fn synthetic_call_converges_to_true_tps() {
    const TRUE_TPS: f64 = 50.0;
    const BPT_TRUE: f64 = 600.0;
    const FLUSH_RATIO: f64 = 0.5;
    const NOISE: f64 = 1_500.0;

    let gen_ms = 30_000i64;
    let n = (gen_ms / TICK) as usize;
    let stream_per_tick = TRUE_TPS * BPT_TRUE * (TICK as f64 / 1000.0);
    let mut deltas = Vec::with_capacity(n + 1);
    deltas.push(190_000.0);
    for _ in 0..n {
        deltas.push(stream_per_tick + NOISE);
    }
    let t0 = 1_000_000i64;
    let samples = series(t0, &deltas);
    let mut files = vec![(samples[0].0, 0u64)];
    for (i, d) in deltas.iter().enumerate() {
        let prev = files[i].1;
        files.push((samples[i + 1].0, prev + (*d * FLUSH_RATIO) as u64));
    }
    let rows = merge_streams(&[&build_rows(&samples, 40_000, &CleanParams::windows())], &files);
    let call_end = t0 + (deltas.len() as i64) * TICK;
    let stream_start = call_end - gen_ms;

    let (clean, cov) = integrate(&rows, stream_start, call_end);
    let cov_s = secs(cov);
    let eff = (TRUE_TPS * (gen_ms as f64 / 1000.0)) as u64;
    let bpt = within_cal_bounds(bytes(clean) / eff as f64);
    assert!(
        cov_s > (gen_ms as f64 / 1000.0) * 0.9,
        "integral should cover call interval: {cov_s}"
    );

    let (wb, ws) = integrate(&rows, call_end - WINDOW_MS, call_end);
    let pipe_bps = (bytes(wb) / secs(ws)).max(0.0);
    let shown = pipe_bps / bpt;
    assert!(
        (shown - TRUE_TPS).abs() / TRUE_TPS < 0.05,
        "post-calibration display {shown:.1} should be close to true value {TRUE_TPS}"
    );
}

#[test]
fn delayed_flush_still_converges() {
    const TRUE_TPS: f64 = 50.0;
    const BPT_TRUE: f64 = 600.0;
    let gen_ms = 30_000i64;
    let n = (gen_ms / TICK) as usize;
    let stream_per_tick = TRUE_TPS * BPT_TRUE * (TICK as f64 / 1000.0);
    let deltas: Vec<f64> =
        std::iter::once(190_000.0).chain(std::iter::repeat(stream_per_tick).take(n)).collect();
    let t0 = 1_000_000i64;
    let samples = series(t0, &deltas);
    let total_flush: u64 = (deltas.iter().sum::<f64>() * 0.5) as u64;
    let mut files = Vec::with_capacity(deltas.len() + 1);
    for (i, (t, _)) in samples.iter().enumerate() {
        let v = if i == samples.len() - 1 { total_flush } else { 0 };
        files.push((*t, v));
    }
    let rows = merge_streams(&[&build_rows(&samples, 0, &CleanParams::windows())], &files);
    let call_end = t0 + (deltas.len() as i64) * TICK;
    let (clean, _) = integrate(&rows, call_end - gen_ms, call_end);
    let eff = (TRUE_TPS * (gen_ms as f64 / 1000.0)) as u64;
    let bpt = within_cal_bounds(bytes(clean) / eff as f64);
    let (wb, ws) = integrate(&rows, call_end - WINDOW_MS, call_end);
    let shown = ((bytes(wb) / secs(ws)).max(0.0)) / bpt;
    assert!(
        (shown - TRUE_TPS).abs() / TRUE_TPS < 0.05,
        "delayed flush scenario display {shown:.1} should be close to true value {TRUE_TPS}"
    );
}

#[test]
fn saved_samples_expire_after_two_weeks() {
    let day = 86_400_000;
    assert!(!samples_stale(0, 14 * day));
    assert!(samples_stale(0, 14 * day + 1));
}

#[test]
fn the_first_samples_of_a_long_list_of_files_count() {
    let rows = [
        TickRow { dt_ms: 10, bytes: 5_000, end_ms: 10 },
        TickRow { dt_ms: 10, bytes: 5_000, end_ms: 5_000 },
    ];
    let files: Vec<(i64, u64)> = (0..FILES_LIMIT as i64 + 1_000).map(|i| (i, i as u64)).collect();
    let merged = merge_streams(&[&rows], &files);
    assert_eq!(merged[0].bytes, 5_000 - 10 * 1_000);
    assert_eq!(merged[1].bytes, 5_000);
}
