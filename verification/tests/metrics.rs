use zcode_speed_panel::aggregate::{Aggregator, SPARK_BUCKETS};
use zcode_speed_panel::call::Call;
use zcode_speed_panel::chart::{
    aggregate_chart_stats, aggregate_model_stats, clamp_chart_window, ModelUsageRow, Share,
};
use zcode_speed_panel::clock::now_ms;
use zcode_speed_panel::engine::{stats_cutoff, usage_db_path, Engine, HistoryRow, UsageRow};
use zcode_speed_panel::history::HistoryStats;
use zcode_speed_panel::inflight::{call_in_flight, inflight_from_rows};
use zcode_speed_panel::rate::Rate;

fn tps(r: Rate) -> f64 {
    if r.ms == 0 {
        0.0
    } else {
        r.tokens as f64 * 1000.0 / r.ms as f64
    }
}

fn part(s: Share) -> f64 {
    if s.whole == 0 {
        0.0
    } else {
        s.part as f64 / s.whole as f64
    }
}

#[test]
fn inflight_from_rows_gating() {
    let now = 1_000_000i64;
    let r = inflight_from_rows(&[("new".into(), now - 3_000, false)], now);
    assert_eq!(r, vec![("new".to_string(), now - 3_000)]);
    assert_eq!(
        inflight_from_rows(
            &[("a".into(), now - 60_000, false), ("a".into(), now - 30_000, true)],
            now
        ),
        Vec::new()
    );
    let r = inflight_from_rows(
        &[
            ("a".into(), now - 40_000, true),
            ("b".into(), now - 5_000, false),
            ("c".into(), now - 20_000, false),
        ],
        now,
    );
    assert_eq!(r, vec![("b".to_string(), now - 5_000), ("c".to_string(), now - 20_000)]);
    assert_eq!(inflight_from_rows(&[("z".into(), now - 601_000, false)], now), Vec::new());
    assert_eq!(inflight_from_rows(&[], now), Vec::new());
}

fn call(completed: i64, gen_ms: i64, out: u64, reason: u64, input: u64, session: &str) -> Call {
    Call {
        id: format!("{}-{}", completed, out),
        started_ms: completed - gen_ms - 1000,
        first_token_ms: Some(completed - gen_ms),
        completed_ms: completed,
        gen_ms,
        output: out,
        reasoning: reason,
        input,
        cache_creation: 0,
        cache_read: 0,
        session: session.into(),
    }
}

#[test]
fn snapshot_computes_speeds() {
    let now = now_ms();
    let mut agg = Aggregator::new();
    agg.ingest(call(now - 10_000, 10_000, 500, 40, 100, "a"));
    agg.ingest(call(now - 1_000, 8_000, 240, 60, 100, "a"));
    let s = agg.snapshot();
    assert!((tps(s.avg_tps) - 840.0 / 18.0).abs() < 1e-9);
    assert!((tps(s.current_tps) - 840.0 / 18.0).abs() < 1e-9);
    assert!(!s.is_live);
    assert_eq!(s.total_tokens, 1040);
    assert_eq!(s.output_tokens, 740);
    assert_eq!(s.reasoning_tokens, 100);
    assert_eq!(s.sessions_today, 1);
    assert_eq!(s.spark.len(), SPARK_BUCKETS);
    assert_eq!(s.live_source, "window");
    assert!((tps(s.last_call_tps) - 37.5).abs() < 1e-9);
}

#[test]
fn last_call_tps_uses_latest_completed() {
    let now = now_ms();
    let mut agg = Aggregator::new();
    agg.ingest(call(now - 1_000, 4_000, 400, 0, 0, "a"));
    agg.ingest(call(now - 30_000, 2_000, 100, 0, 0, "b"));
    agg.ingest(call(now - 20_000, 5_000, 250, 50, 0, "c"));
    let s = agg.snapshot();
    assert!((tps(s.last_call_tps) - 100.0).abs() < 1e-9);
    assert!((tps(s.avg_tps) - 800.0 / 11.0).abs() < 1e-9);
}

#[test]
fn speed_excludes_time_before_first_token() {
    let now = now_ms();
    let mut agg = Aggregator::new();
    agg.ingest(call(now - 5_000, 5_000, 500, 0, 0, "a"));
    let s1 = agg.snapshot();
    assert!((tps(s1.avg_tps) - 100.0).abs() < 1e-9);
    agg.ingest(Call {
        id: "b".into(),
        started_ms: now - 30_000,
        first_token_ms: Some(now - 6_000),
        completed_ms: now - 1_000,
        gen_ms: 5_000,
        output: 500,
        reasoning: 0,
        input: 0,
        cache_creation: 0,
        cache_read: 0,
        session: "b".into(),
    });
    let s2 = agg.snapshot();
    assert!((tps(s2.avg_tps) - 100.0).abs() < 1e-9);
}

fn mrow(
    model: &str,
    completed: i64,
    ft: Option<i64>,
    dur: Option<i64>,
    out: u64,
    reason: u64,
) -> ModelUsageRow {
    ModelUsageRow {
        model: model.into(),
        first_token_at: ft,
        completed_at: completed,
        duration_ms: dur,
        output_tokens: out,
        reasoning_tokens: reason,
    }
}

#[test]
fn model_stats_two_models_two_buckets() {
    let now = 1_700_000_005_000i64;
    let rows = vec![
        mrow("model-a", now - 5_000, Some(now - 9_000), Some(9_000), 300, 100),
        mrow("model-a", now - 15_000, Some(now - 16_000), Some(6_000), 100, 0),
        mrow("model-b", now - 5_000, None, Some(2_000), 400, 0),
        mrow("model-b", now - 25_000, Some(now - 28_000), None, 900, 300),
        mrow("model-a", now - 1_000_000, Some(now - 1_001_000), None, 999, 0),
        mrow("model-a", now + 6_000, Some(now + 5_000), None, 999, 0),
    ];
    let p = aggregate_model_stats(&rows, 15, now);
    assert_eq!(p.window_min, 15);
    assert_eq!(p.bucket_ms, 10_000);
    assert_eq!(p.now_ms, now);
    assert_eq!(p.series.len(), 2);
    assert_eq!(p.series[0].model, "model-b");
    assert_eq!(p.series[1].model, "model-a");

    let b = &p.series[0];
    assert_eq!(b.buckets.len(), 90);
    assert_eq!(b.total_calls, 2);
    assert_eq!(b.total_tokens, 1600);
    assert!((tps(b.avg_tps) - 1600.0 / 5.0).abs() < 1e-9);
    assert!((tps(b.peak_tps) - 400.0).abs() < 1e-9);
    assert!((part(b.share) - 1600.0 / 2100.0).abs() < 1e-9);
    assert!((tps(b.buckets[0].tps) - 200.0).abs() < 1e-9);
    assert_eq!(b.buckets[0].calls, 1);
    assert_eq!(b.buckets[0].tokens, 400);
    assert_eq!(b.buckets[1].calls, 0);
    assert_eq!(tps(b.buckets[1].tps), 0.0);
    assert_eq!(b.buckets[1].tokens, 0);
    assert!((tps(b.buckets[2].tps) - 400.0).abs() < 1e-9);
    assert_eq!(b.buckets[2].tokens, 1200);
    assert_eq!(b.buckets.iter().map(|x| x.calls).sum::<u64>(), 2);

    let a = &p.series[1];
    assert_eq!(a.total_calls, 2);
    assert_eq!(a.total_tokens, 500);
    assert!((tps(a.avg_tps) - 100.0).abs() < 1e-9);
    assert!((tps(a.peak_tps) - 100.0).abs() < 1e-9);
    assert!((part(a.share) - 500.0 / 2100.0).abs() < 1e-9);
    assert!((tps(a.buckets[0].tps) - 100.0).abs() < 1e-9);
    assert!((tps(a.buckets[1].tps) - 100.0).abs() < 1e-9);
    assert_eq!(a.buckets[2].calls, 0);
}

#[test]
fn model_stats_wall_clock_aligned_buckets() {
    let mk = || {
        vec![
            mrow("m", 1_700_000_002_000, Some(1_699_999_990_000), Some(12_000), 600, 0),
            mrow("m", 1_699_999_990_000, Some(1_699_999_986_000), Some(4_000), 200, 0),
        ]
    };
    let a = aggregate_model_stats(&mk(), 15, 1_700_000_003_000);
    let b = aggregate_model_stats(&mk(), 15, 1_700_000_008_000);
    assert_eq!(a.bucket_ms, 10_000);
    assert_eq!(a.series[0].buckets, b.series[0].buckets);
    assert!(tps(a.series[0].buckets[0].tps) > 0.0);
    assert!(tps(a.series[0].buckets[1].tps) > 0.0);
    assert_eq!(a.series[0].buckets[2].calls, 0);
}

#[test]
fn model_stats_window_clamp_and_gen_fallback() {
    assert_eq!(clamp_chart_window(999), 1440);
    assert_eq!(clamp_chart_window(0), 15);
    assert_eq!(clamp_chart_window(40), 60);
    assert_eq!(clamp_chart_window(400), 360);
    assert_eq!(clamp_chart_window(60), 60);
    assert_eq!(clamp_chart_window(360), 360);

    let now = 1_700_000_000_000i64;
    let rows = vec![
        mrow("m", now - 5_000, None, Some(5_000), 500, 0),
        mrow("m", now - 6_000, None, None, 100, 0),
        mrow("m", now - 7_000, Some(now - 7_000), Some(0), 100, 0),
    ];
    let p = aggregate_model_stats(&rows, 999, now);
    assert_eq!(p.window_min, 1440);
    assert_eq!(p.bucket_ms, 960_000);
    assert_eq!(p.series.len(), 1);
    let s = &p.series[0];
    assert_eq!(s.buckets.len(), 90);
    assert_eq!(s.total_calls, 3);
    assert_eq!(s.total_tokens, 700);
    assert!((tps(s.avg_tps) - 700.0 / 5.1).abs() < 1e-9);
    assert!((tps(s.buckets[0].tps) - 700.0 / 5.1).abs() < 1e-9);
    assert_eq!(tps(s.peak_tps), tps(s.buckets[0].tps));
    assert!((part(s.share) - 1.0).abs() < 1e-9);
    let p = aggregate_model_stats(&[], 15, now);
    assert!(p.series.is_empty());
}

#[test]
fn history_stats_fold_and_admission() {
    let now = 1_700_000_000_000i64;
    let day = 1_700_000_000_000i64 - now.rem_euclid(86_400_000);
    let mut h = HistoryStats::default();
    h.fold(day, Some(now - 5_000), now - 1_000, 4_000, 1_000);
    h.fold(day, Some(now - 3_000), now - 1_950, 1_050, 300);
    assert!((tps(h.max_tps()) - 300.0 * 1000.0 / 1050.0).abs() < 1e-9);
    h.fold(day, Some(now - 100), now - 76, 24, 79);
    assert!((tps(h.max_tps()) - 300.0 * 1000.0 / 1050.0).abs() < 1e-9);
    h.fold(day, Some(now - 300), now - 100, 200, 500);
    assert!((tps(h.max_tps()) - 300.0 * 1000.0 / 1050.0).abs() < 1e-9);
    h.fold(day, None, now - 60_000, 10_000, 2_000);
    assert!((tps(h.max_tps()) - 300.0 * 1000.0 / 1050.0).abs() < 1e-9);
    let total_eff = 1_000 + 300 + 79 + 500 + 2_000;
    let total_gen = 4_000 + 1_050 + 50 + 200 + 10_000;
    assert!((tps(h.avg_tps()) - total_eff as f64 / (total_gen as f64 / 1000.0)).abs() < 1e-9);
    assert_eq!(h.total_eff(), total_eff);
    assert_eq!(h.total_gen_ms(), total_gen);
    assert_eq!(h.days.len(), 1);
    assert_eq!(tps(HistoryStats::default().avg_tps()), 0.0);
    assert_eq!(tps(HistoryStats::default().max_tps()), 0.0);
}

#[test]
fn history_stats_week_window_prune() {
    let day = 86_400_000i64 * 20_000;
    let mut h = HistoryStats::default();
    h.fold(day, Some(day + 1_000), day + 3_500, 2_500, 1_000);
    h.fold(day + 86_400_000, Some(day + 86_400_001), day + 86_400_005, 4_000, 1_000);
    h.fold(day + 2 * 86_400_000, Some(day + 2 * 86_400_001), day + 2 * 86_400_005, 4_000, 1_000);
    assert_eq!(h.days.len(), 3);
    assert!((tps(h.max_tps()) - 400.0).abs() < 1e-9);
    h.prune(day + 86_400_000);
    assert_eq!(h.days.len(), 2);
    assert!((tps(h.max_tps()) - 250.0).abs() < 1e-9);
    assert!((tps(h.avg_tps()) - 250.0).abs() < 1e-9);
    assert_eq!(h.total_eff(), 2_000);
    assert_eq!(h.total_gen_ms(), 8_000);
    h.prune(day + 3 * 86_400_000);
    assert!(h.days.is_empty());
    assert_eq!(tps(h.max_tps()), 0.0);
    assert_eq!(tps(h.avg_tps()), 0.0);
}

#[test]
fn chart_stats_buckets_and_order() {
    let now = 1_700_000_005_000i64;
    let rows = vec![
        mrow("m", now - 3_000, Some(now - 15_000), Some(15_000), 1_000, 0),
        mrow("m", now - 95_000, Some(now - 99_000), Some(9_000), 3_000, 0),
        mrow("m", now - 1_200_000, Some(now - 1_204_000), None, 9_999, 0),
    ];
    let p = aggregate_chart_stats(&rows, 15, now);
    assert_eq!(p.window_min, 15);
    assert_eq!(p.bucket_ms, 10_000);
    assert_eq!(p.buckets.len(), 90);
    assert!((tps(p.buckets[89]) - 1_000.0 * 1000.0 / 12_000.0).abs() < 1e-9);
    assert!((tps(p.buckets[80]) - 750.0).abs() < 1e-9);
    assert!((tps(p.buckets[0]) - 0.0).abs() < 1e-9);
}

#[test]
fn chart_stats_window_clamp() {
    assert_eq!(clamp_chart_window(999), 1440);
    assert_eq!(clamp_chart_window(30), 15);
    assert_eq!(clamp_chart_window(90), 60);
    assert_eq!(clamp_chart_window(720), 360);
    assert_eq!(clamp_chart_window(15), 15);
    let p = aggregate_chart_stats(&[], 60, 1_700_000_000_000i64);
    assert_eq!(p.bucket_ms, 60 * 60_000 / 90);
    assert_eq!(p.buckets.len(), 90);
    assert!(p.buckets.iter().all(|v| tps(*v) == 0.0));
}

fn usage(id: &str, started: i64, completed: i64, out: i64) -> UsageRow {
    UsageRow {
        id: id.into(),
        started_at: started,
        first_token_at: Some(started + 500),
        completed_at: completed,
        duration_ms: None,
        output_tokens: Some(out),
        reasoning_tokens: None,
        input_tokens: Some(10),
        cache_creation_tokens: Some(-5),
        cache_read_tokens: Some(3),
        session_id: "s".into(),
    }
}

#[test]
fn rows_are_taken_in_once_and_other_days_start_over() {
    let day = 86_400_000i64 * 20_000;
    let mut e = Engine::new(Some("x.sqlite".to_string()));
    e.begin_poll((2024, 10, 4));
    let rows = vec![usage("1", day + 1_000, day + 4_500, 300), usage("2", day - 1, day + 100, 9)];
    let earlier = [HistoryRow {
        first_token_at: Some(day - 9_000),
        completed_at: day - 5_000,
        duration_ms: None,
        output_tokens: Some(800),
        reasoning_tokens: Some(200),
    }];
    let fresh = e.poll_with(
        &earlier,
        &[day - 86_400_000],
        &rows,
        &[day, day],
        day,
        day - 6 * 86_400_000,
    );
    assert_eq!(fresh.len(), 2);
    assert_eq!(fresh[0].gen_ms, 3_000);
    assert_eq!(fresh[0].cache_creation, 0);
    assert_eq!(fresh[0].cache_read, 3);
    // The second call was started before midnight and completed after it.
    assert_eq!(e.calls().len(), 2);
    assert_eq!(e.hist.total_eff(), 1_309);
    let again = e.poll_with(&earlier, &[day], &rows, &[day, day], day, day - 6 * 86_400_000);
    assert!(again.is_empty());
    assert_eq!(e.calls().len(), 2);
    assert_eq!(e.hist.total_eff(), 1_309);
    let s = e.snapshot_at(day + 10_000);
    assert_eq!(s.calls_today, 2);
    assert_eq!(s.output_tokens, 309);
    assert_eq!(tps(s.hist_max_tps), 250.0);
    assert_eq!(s.rollout_dir, "x.sqlite");
    e.begin_poll((2024, 10, 5));
    assert_eq!(e.calls().len(), 0);
    assert_eq!(e.hist.total_eff(), 1_309);
}

#[test]
fn poll_reads_the_clock_of_the_system() {
    let mut e = Engine::new(None);
    let today = e.start_poll();
    let now = now_ms();
    assert!(today <= now && now - today < 2 * 86_400_000);
    let rows = vec![usage("1", today + 1, today + 3_501, 300)];
    assert_eq!(e.poll(&[], &rows, today).len(), 1);
    assert_eq!(e.calls().len(), 1);
    assert_eq!(e.data_source_label(), "(~/.zcode/cli/db/db.sqlite not found)");
}

#[test]
fn charts_of_an_engine_without_rows_are_flat() {
    let e = Engine::new(None);
    let now = 1_700_000_005_000i64;
    let p = e.chart_stats(60, None, now);
    assert_eq!((p.window_min, p.bucket_ms, p.buckets.len()), (60, 40_000, 90));
    assert!(p.buckets.iter().all(|r| !r.is_positive()));
    assert!(e.model_stats(60, None, now).series.is_empty());
    let rows = [mrow("m", now - 3_000, Some(now - 7_000), None, 400, 0)];
    assert_eq!(tps(e.chart_stats(15, Some(&rows), now).buckets[89]), 100.0);
    assert_eq!(e.model_stats(15, Some(&rows), now).series[0].total_tokens, 400);
    assert_eq!(stats_cutoff(15, now), now - 900_000);
}

#[test]
fn database_stands_in_the_home_directory() {
    assert_eq!(
        usage_db_path(Some("/home/u"), '/').as_deref(),
        Some("/home/u/.zcode/cli/db/db.sqlite")
    );
    assert_eq!(
        usage_db_path(Some("C:\\Users\\u\\"), '\\').as_deref(),
        Some("C:\\Users\\u\\.zcode\\cli\\db\\db.sqlite")
    );
    assert_eq!(usage_db_path(None, '/'), None);
}

#[test]
fn messages_tell_which_sessions_are_in_progress() {
    let now = 1_000_000i64;
    let sessions = vec![
        (
            "a".to_string(),
            vec![
                (now - 100, "{\"role\":\"user\"}".to_string()),
                (
                    now - 2_000,
                    "{\"role\":\"assistant\",\"time\":{\"created\":998000}}".to_string(),
                ),
            ],
        ),
        (
            "b".to_string(),
            vec![(
                now - 3_000,
                "{\"role\":\"assistant\",\"time\":{\"created\":1,\"completed\":2}}".to_string(),
            )],
        ),
        ("c".to_string(), vec![(now - 1, "no json".to_string())]),
    ];
    let r = call_in_flight(&sessions, now);
    assert_eq!(r.len(), 1);
    assert_eq!(r[0].0, "a");
}

#[test]
fn day_of_the_calls_is_kept_until_it_ends() {
    let mut a = Aggregator::new();
    a.ingest(call(1_000, 500, 10, 0, 0, "s"));
    let today = a.today_ymd;
    if !a.rollover_if_needed() {
        assert_eq!(a.today_ymd, today);
        assert_eq!(a.calls().len(), 1);
    }
    assert!(a.rollover_to((1999, 1, 2)));
    assert!(a.calls().is_empty());
    assert!(a.rollover_if_needed());
}

#[test]
fn calls_that_end_today_count_today() {
    let day = 86_400_000i64 * 20_000;
    let cutoff = day - 6 * 86_400_000;
    let mut e = Engine::new(None);
    e.begin_poll((2024, 10, 4));
    let rows = vec![usage("x", day - 60_000, day + 1, 70), usage("y", day - 9_000, day - 1, 5)];
    let fresh = e.poll_with(&[], &[], &rows, &[day, day - 86_400_000], day, cutoff);
    assert_eq!(fresh.len(), 2);
    assert_eq!(e.calls().len(), 1);
    assert_eq!(e.calls()[0].id, "x");
    let s = e.snapshot_at(day + 10);
    assert_eq!((s.calls_today, s.output_tokens), (1, 70));
}

#[test]
fn second_poll_of_the_same_rows_is_silent() {
    let mut e = Engine::new(None);
    let today = e.start_poll();
    let rows = vec![
        usage("1", today + 1, today + 3_501, 300),
        usage("2", today - 700, today + 20, 40),
        usage("1", today + 1, today + 3_501, 300),
    ];
    assert_eq!(e.poll(&[], &rows, today).len(), 2);
    let before = e.snapshot_at(today + 4_000);
    assert!(e.poll(&[], &rows, today).is_empty());
    let after = e.snapshot_at(today + 4_000);
    assert_eq!((before.calls_today, before.output_tokens), (2, 340));
    assert_eq!(after.calls_today, before.calls_today);
    assert_eq!(after.output_tokens, before.output_tokens);
    assert_eq!(tps(after.hist_avg_tps), tps(before.hist_avg_tps));
    assert_eq!(tps(after.hist_max_tps), tps(before.hist_max_tps));
}

#[test]
fn figures_do_not_depend_on_the_order_of_the_calls() {
    let now = 1_700_000_000_000i64;
    let calls = [
        call(now - 30_000, 4_000, 200, 20, 10, "a"),
        call(now - 1_000, 2_000, 500, 0, 7, "b"),
        call(now - 90_000, 30, 9, 1, 3, "a"),
        call(now - 400_000, 8_000, 60, 6, 1, ""),
    ];
    let mut shown = Vec::new();
    for order in [[0, 1, 2, 3], [3, 2, 1, 0], [1, 3, 0, 2]] {
        let mut agg = Aggregator::new();
        for i in order {
            agg.ingest(calls[i].clone());
        }
        shown.push(agg.snapshot_at(now));
    }
    for s in &shown {
        assert_eq!(s.last_activity_ms, now - 1_000);
        assert_eq!((s.last_call_tps.tokens, s.last_call_tps.ms), (500, 2_000));
        assert_eq!((s.calls_today, s.sessions_today, s.output_tokens), (4, 2, 769));
        assert_eq!(tps(s.current_tps), tps(shown[0].current_tps));
        assert_eq!(tps(s.avg_tps), tps(shown[0].avg_tps));
        assert_eq!(tps(s.window_tps), tps(shown[0].window_tps));
        assert_eq!(s.is_estimating, shown[0].is_estimating);
        for i in 0..SPARK_BUCKETS {
            assert_eq!(tps(s.spark[i]), tps(shown[0].spark[i]));
        }
    }
}

#[test]
fn cache_reads_count_apart() {
    let now = 1_700_000_000_000i64;
    let mut plain = Aggregator::new();
    let mut reading = Aggregator::new();
    for (back, tokens) in [(30_000, 90), (2_000, 400)] {
        plain.ingest(call(now - back, 3_000, tokens, 5, 10, "a"));
        reading.ingest(Call { cache_read: 7_000, ..call(now - back, 3_000, tokens, 5, 10, "a") });
    }
    let (s, t) = (plain.snapshot_at(now), reading.snapshot_at(now));
    assert_eq!((s.cache_read_tokens, t.cache_read_tokens), (0, 14_000));
    assert_eq!(s.total_tokens, t.total_tokens);
    assert_eq!(s.input_tokens, t.input_tokens);
    assert_eq!(tps(s.avg_tps), tps(t.avg_tps));
    assert_eq!(tps(s.window_tps), tps(t.window_tps));
    assert_eq!(tps(s.current_tps), tps(t.current_tps));
}

#[test]
fn shortest_chart_is_the_curve_of_the_snapshot() {
    let now = 1_700_000_005_000i64;
    let times = [(now - 400_000, 4_000, 120), (now - 700_000, 9_000, 30), (now - 405_000, 70, 8)];
    let mut agg = Aggregator::new();
    let mut rows = Vec::new();
    for (completed, gen, tokens) in times {
        agg.ingest(call(completed, gen, tokens, 2, 1, "a"));
        rows.push(mrow("m", completed, Some(completed - gen), None, tokens, 2));
    }
    let s = agg.snapshot_at(now);
    assert!(!s.is_estimating);
    let p = aggregate_chart_stats(&rows, 15, now);
    assert_eq!(p.buckets.len(), SPARK_BUCKETS);
    for i in 0..SPARK_BUCKETS {
        assert_eq!(tps(p.buckets[i]), tps(s.spark[i]));
    }
    assert!(p.buckets.iter().any(|r| tps(*r) > 0.0));
}
