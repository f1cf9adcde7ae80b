use zcode_speed_panel::aggregate::Aggregator;
use zcode_speed_panel::calibration::{cal_sample, RoundDrift};
use zcode_speed_panel::call::Call;
use zcode_speed_panel::clock::now_ms;
use zcode_speed_panel::figures::Snapshot;
use zcode_speed_panel::live::{LiveIo, LiveNow};
use zcode_speed_panel::net::{NetInput, NetIo, NetNow};
use zcode_speed_panel::panel::{
    attach_net, blend, build_payload, prepare_live, recalibrate, settle_round, tray_status, Round,
    TaskRoom,
};
use zcode_speed_panel::probe::MAX_PROCS;
use zcode_speed_panel::pulse;
use zcode_speed_panel::pulse::per_second;
use zcode_speed_panel::rate::Rate;
use zcode_speed_panel::stream::CleanParams;

const T0: i64 = 1_700_000_000_000;
const TICK: i64 = 700;

fn call(id: &str, session: &str, first: i64, completed: i64, tokens: u64) -> Call {
    Call {
        id: id.into(),
        started_ms: first - 500,
        first_token_ms: Some(first),
        completed_ms: completed,
        gen_ms: completed - first,
        output: tokens,
        reasoning: 0,
        input: 0,
        cache_creation: 0,
        cache_read: 0,
        session: session.into(),
    }
}

/// Measures `n` ticks during which process 7 writes `per_tick` bytes in each.
fn run(io: &mut LiveIo, from: i64, n: i64, start: u64, per_tick: u64) -> (LiveNow, u64) {
    let mut bytes = start;
    let mut last = io.measure(from, &[(7, bytes)], 0);
    for i in 1..n {
        bytes += per_tick;
        last = io.measure(from + i * TICK, &[(7, bytes)], 0);
    }
    (last, bytes)
}

#[test]
fn stream_is_shown_while_a_call_is_in_progress() {
    let mut io = LiveIo::new(false);
    assert!(!io.measure(T0, &[], 0).available);
    assert!(io.refresh_due(0));
    io.refreshed(0, &[(7, true)]);
    assert!(!io.refresh_due(1_000));
    assert_eq!(io.pids(), vec![7]);
    assert!(io.ever_saw_procs());
    io.set_inflight(vec![("s".to_string(), T0)]);
    let (now, _) = run(&mut io, T0, 60, 0, 30_000);
    assert!(now.available && now.streaming && !now.awaiting);
    assert_eq!(now.n_pids, 1);
    assert_eq!(now.tasks.len(), 1);
    assert_eq!(now.tasks[0].pid, 7);
    let shown = now.tps as f64 / 1e6;
    assert!(shown > 30.0 && shown < 72.0, "{shown}");
    io.set_inflight(Vec::new());
    let unknown = io.measure(T0 + 60 * TICK, &[(7, 1_800_000)], 0);
    assert!(unknown.streaming);
    io.ingest_history(&[call("0", "s", T0 - 9_000, T0 - 5_000, 1)]);
    let idle = io.measure(T0 + 61 * TICK, &[(7, 1_830_000)], 0);
    assert!(idle.available && !idle.streaming);
    assert_eq!(idle.tps, 0);
    let gone = io.measure(T0 + 62 * TICK, &[], 0);
    assert!(!gone.available && io.ever_saw_procs());
}

#[test]
fn completed_calls_teach_the_rate_per_token() {
    let mut io = LiveIo::new(false);
    io.refreshed(0, &[(7, true)]);
    io.set_inflight(vec![("s".to_string(), T0)]);
    let (_, bytes) = run(&mut io, T0, 44, 0, 30_000);
    let end = T0 + 43 * TICK;
    io.observe(&[call("1", "s", T0, end, 2_000)]);
    io.set_inflight(Vec::new());
    assert!(io.take_calibration().is_none());
    io.measure(end + TICK, &[(7, bytes)], 0);
    let mut e = io.take_calibration();
    let mut t = end + TICK;
    while e.is_none() && t < end + 60_000 {
        t += TICK;
        io.measure(t, &[(7, bytes)], 0);
        e = io.take_calibration();
    }
    let e = e.expect("learned");
    assert_eq!((e.id.as_str(), e.eff), ("1", 2_000));
    assert!(!e.cal_skipped);
    assert_eq!(io.cal_state().len(), 2);
    assert_eq!(io.cal_state()[1], e.bpt_sample);
    let sample = e.bpt_sample as f64 / 1000.0;
    assert!(sample > 400.0 && sample < 660.0, "{sample}");
    assert!(io.take_calibration().is_none());
}

#[test]
fn sessions_are_known_from_the_calls_before() {
    let mut io = LiveIo::new(false);
    assert!(!io.history_done());
    let calls = [call("1", "a", 0, 500, 1), call("2", "b", 0, 900, 1), call("3", "c", 0, 700, 1)];
    prepare_live(&mut io, &calls, &[], vec![("x".to_string(), 1)]);
    assert!(io.history_done());
    assert_eq!(io.current_session.as_deref(), Some("b"));
    assert!(io.has_inflight());
    assert!(io.inflight_attr().is_empty());
    prepare_live(&mut io, &calls, &calls[..1], Vec::new());
    assert_eq!(io.current_session.as_deref(), Some("a"));
    assert_eq!(io.pending.len(), 1);
}

fn live(available: bool, streaming: bool, awaiting: bool, tps: u64, n_pids: usize) -> LiveNow {
    LiveNow {
        available,
        streaming,
        ramping: false,
        awaiting,
        tps,
        pipe_bps: 0,
        n_pids,
        tasks: Vec::new(),
        proc_bps: Vec::new(),
    }
}

fn figures() -> Snapshot {
    let now = now_ms();
    let mut agg = Aggregator::new();
    agg.ingest(call("1", "a", now - 9_000, now - 1_000, 400));
    agg.snapshot_at(now)
}

fn micro(r: Rate) -> u64 {
    assert_eq!(r.ms, 1_000_000_000);
    r.tokens
}

#[test]
fn measured_speed_goes_before_estimates() {
    let mut s = figures();
    blend(&mut s, &live(true, true, false, 61_500_000, 1), true, true);
    assert!(s.is_live && !s.is_estimating && !s.is_starting);
    assert_eq!(micro(s.current_tps), 61_500_000);
    assert_eq!(s.spark.last(), Some(&s.current_tps));
    assert_eq!(s.live_source, "io");
    assert_eq!(tray_status(&s), ("Generating", "Generating 61.5 t/s".to_string()));
}

#[test]
fn silent_streams_fall_back_to_the_window() {
    let mut s = figures();
    blend(&mut s, &live(true, true, false, 999_999, 1), true, true);
    assert!(s.is_live && s.is_estimating);
    assert_eq!(s.current_tps, s.window_tps);
    assert_eq!(s.live_source, "window");
    assert!(s.tasks.is_empty());
    let mut s = figures();
    blend(&mut s, &live(true, true, true, 5_000_000, 0), true, true);
    assert!(s.is_live && s.is_starting && !s.is_estimating);
    assert!(!s.current_tps.is_positive());
    let mut s = figures();
    s.window_tps = Rate::zero();
    blend(&mut s, &live(true, true, false, 999_999, 1), true, true);
    assert_eq!(micro(s.current_tps), 999_999);
}

#[test]
fn idle_is_shown_as_zero() {
    let mut s = figures();
    blend(&mut s, &live(true, false, false, 0, 0), false, true);
    assert!(!s.is_estimating && !s.current_tps.is_positive());
    assert_eq!(s.live_source, "idle");
    assert_eq!(tray_status(&s), ("Idle", "Idle".to_string()));
    let mut s = figures();
    blend(&mut s, &live(false, false, false, 0, 0), true, true);
    assert!(!s.is_live && !s.current_tps.is_positive());
    assert_eq!(s.live_source, "idle");
    let mut s = figures();
    assert!(s.is_estimating && s.current_tps.is_positive());
    blend(&mut s, &live(false, false, false, 0, 0), true, false);
    assert!(s.is_estimating && s.current_tps.is_positive());
    assert_eq!(tray_status(&s).1, "Estimating ≈50.0 t/s");
    let mut s = figures();
    s.is_estimating = false;
    blend(&mut s, &live(false, false, false, 0, 0), true, false);
    assert!(s.is_starting && !s.current_tps.is_positive());
    assert_eq!(s.live_source, "window");
}

#[test]
fn speeds_are_rounded_to_tenths() {
    let mut s = figures();
    s.is_live = true;
    let line = |s: &mut Snapshot, tokens: u64, ms: u64| {
        s.current_tps = Rate { tokens, ms };
        tray_status(s).1
    };
    assert_eq!(line(&mut s, 1, 4_000), "Generating 0.2 t/s");
    assert_eq!(line(&mut s, 3, 4_000), "Generating 0.8 t/s");
    assert_eq!(line(&mut s, 2_000, 3_000), "Generating 666.7 t/s");
    assert_eq!(line(&mut s, 5, 0), "Generating 0.0 t/s");
    assert_eq!(
        line(&mut s, u64::MAX, 1),
        "Generating 18446744073709551615000.0 t/s"
    );
}

fn quiet_net() -> NetNow {
    let mut io = NetIo::new((2026, 9, 18), None, "ok", &[], 0);
    let input = NetInput {
        ymd: (2026, 9, 18),
        day_start_ms: 0,
        ifaces: Some(vec![("e".to_string(), 1, 2)]),
        wrap: 0,
        groups: None,
        tables: None,
        scan: None,
    };
    io.tick(0, 0, input).0
}

#[test]
fn session_traffic_is_estimated_from_tokens() {
    let mut s = figures();
    s.input_tokens = 1_000;
    s.cache_creation_tokens = 50;
    s.cache_read_tokens = 250;
    s.output_tokens = 20;
    s.reasoning_tokens = 5;
    attach_net(&mut s, quiet_net());
    assert!(s.net.available && !s.net.conns_available);
    assert_eq!(s.net.sess_up_today, 4_000);
    assert_eq!(s.net.sess_down_today, 10_000);
    assert_eq!(s.net.ckpt_status, "ok");
    s.cache_read_tokens = 9_999;
    attach_net(&mut s, quiet_net());
    assert_eq!(s.net.sess_up_today, 0);
}

#[test]
fn rounds_end_when_no_call_is_in_progress() {
    let mut r = Round::new();
    let mut s = figures();
    s.is_live = true;
    s.is_estimating = false;
    s.current_tps = Rate { tokens: 1, ms: 1 };
    assert_eq!(r.step(&s, &live(true, true, false, 40_000_000, 1), true), None);
    assert_eq!(r.step(&s, &live(true, true, false, 60_000_000, 1), true), None);
    s.is_estimating = true;
    assert_eq!(r.step(&s, &live(true, true, false, 1, 1), true), None);
    s.is_live = false;
    assert_eq!(r.step(&s, &live(true, false, false, 0, 0), false), Some(50_000_000));
    assert_eq!(r.step(&s, &live(true, false, false, 0, 0), false), None);
    s.is_live = true;
    s.is_estimating = false;
    assert_eq!(r.step(&s, &live(true, true, false, 40_000_000, 2), true), None);
    assert_eq!(r.step(&s, &live(true, true, false, 40_000_000, 1), false), None);
    s.is_live = false;
    assert_eq!(r.step(&s, &live(true, true, false, 0, 0), true), None);
    assert_eq!(r.step(&s, &live(true, true, false, 0, 0), false), None);
}

#[test]
fn jumps_of_the_round_average_drop_the_rate() {
    let mut io = LiveIo::new(false);
    let mut d = RoundDrift::new();
    io.restore_cal(&[Some(300_000), Some(300_000)]);
    assert_eq!(io.bytes_per_token(), 300_000);
    for _ in 0..5 {
        assert!(settle_round(&mut io, &mut d, 40_000_000).is_none());
    }
    let c = settle_round(&mut io, &mut d, 120_000_000).expect("a jump");
    assert_eq!((c.base_avg, c.bpt_old, c.bpt_new), (40_000_000, 300_000, 600_000));
    assert_eq!(c.round_avg, 120_000_000);
    assert_eq!(io.cal_state(), vec![600_000]);
    io.restore_cal(&[Some(500_000), Some(500_000)]);
    settle_round(&mut io, &mut d, 7);
    assert_eq!(recalibrate(&mut io, &mut d), (500_000, 600_000));
    assert!(d.history.is_empty());
}

#[test]
fn room_for_tasks_comes_and_goes_after_three_steps() {
    let mut r = TaskRoom::new();
    assert!(!r.step(2) && !r.step(2));
    assert!(r.step(3) && r.roomy);
    assert!(!r.step(1) && !r.step(1) && r.roomy);
    assert!(r.step(0) && !r.roomy);
    r.step(2);
    r.step(1);
    assert!(!r.roomy);
}

#[test]
fn one_step_of_the_panel_measures_and_blends() {
    let mut io = LiveIo::new(false);
    let mut round = Round::new();
    let mut drift = RoundDrift::new();
    io.refreshed(0, &[(7, true)]);
    let now = now_ms();
    prepare_live(&mut io, &[], &[], vec![("s".to_string(), now - 60_000)]);
    run(&mut io, now - 61 * TICK, 60, 0, 30_000);
    let mut s = figures();
    s.now_ms = now;
    let step = build_payload(
        s,
        quiet_net(),
        &mut io,
        &mut round,
        &mut drift,
        &[(7, 1_800_000)],
        0,
    );
    assert!(step.live.streaming);
    assert!(step.snapshot.is_live && step.snapshot.net.available);
    assert_eq!(micro(step.snapshot.current_tps), step.live.tps);
    assert_eq!(step.snapshot.tasks.len(), 1);
    assert_eq!((round.count, round.sum, round.in_flight), (1, step.live.tps, true));
    assert!(step.learned.is_none() && step.recalibrated.is_none());
}

#[test]
fn silent_streams_stop_after_the_grace() {
    let mut io = LiveIo::new(false);
    io.refreshed(0, &[(7, true)]);
    io.set_inflight(vec![("s".to_string(), T0)]);
    let (now, bytes) = run(&mut io, T0, 30, 0, 30_000);
    assert!(now.streaming);
    let quiet = T0 + 30 * TICK;
    let soon = io.measure(quiet, &[(7, bytes)], 0);
    assert!(soon.streaming);
    let mut t = quiet;
    while t < quiet + 14_000 {
        t += TICK;
        assert!(io.measure(t, &[(7, bytes)], 0).streaming);
    }
    while t < quiet + 19_000 {
        t += TICK;
        io.measure(t, &[(7, bytes)], 0);
    }
    let stopped = io.measure(t + TICK, &[(7, bytes)], 0);
    assert!(stopped.available && !stopped.streaming);
}

#[test]
fn tasks_share_the_stream_of_all_processes() {
    let mut io = LiveIo::new(false);
    io.refreshed(0, &[(7, true), (8, true)]);
    io.set_inflight(vec![("s".to_string(), T0), ("t".to_string(), T0)]);
    let mut now = io.measure(T0, &[(7, 0), (8, 0)], 0);
    for i in 1..40u64 {
        now = io.measure(T0 + i as i64 * TICK, &[(7, i * 30_000), (8, i * 60_000)], 0);
    }
    assert!(now.streaming);
    assert_eq!(now.n_pids, 2);
    let pids: Vec<u32> = now.tasks.iter().map(|t| t.pid).collect();
    assert_eq!(pids, vec![8, 7]);
    let sum: u64 = now.tasks.iter().map(|t| t.tps).sum();
    assert!(sum <= now.tps && now.tps - sum <= 20, "{sum} {}", now.tps);
}

#[test]
fn saved_samples_come_back_after_a_restart() {
    let mut io = LiveIo::new(false);
    let saved = [500_000, 510_000, 520_000, 530_000, 540_000];
    let read: Vec<Option<u64>> = saved.iter().map(|x| Some(*x)).collect();
    assert_eq!(io.restore_cal(&read), 5);
    assert_eq!(io.cal_state(), saved.to_vec());
    assert_eq!(io.bytes_per_token(), 520_000);
}

#[test]
fn calls_read_their_own_speed() {
    let p = CleanParams::windows();
    // 2000 tokens that took 1,200,000 cleaned bytes in 20 s.
    let (ok, bpt) = cal_sample(2_000, 1_200_000_000, 1_250_000, 600_000, &p);
    assert!(ok);
    assert_eq!(bpt, 600_000);
    let pipe = per_second(1_200_000_000, 20_000);
    assert_eq!(pipe, 60_000_000);
    assert_eq!(pulse::speed(pipe, bpt), 100_000_000);
    assert_eq!(cal_sample(299, 1_200_000_000, 1_250_000, 600_000, &p), (false, 0));
}

/// Teaches that session `s` runs in process 7, and gives the time and the bytes so far.
fn taught() -> (LiveIo, i64, u64) {
    let mut io = LiveIo::new(false);
    io.refreshed(0, &[(7, true)]);
    io.set_inflight(vec![("s".to_string(), T0)]);
    let (_, bytes) = run(&mut io, T0, 44, 0, 30_000);
    let end = T0 + 43 * TICK;
    io.observe(&[call("1", "s", T0, end, 2_000)]);
    let mut t = end;
    while io.take_calibration().is_none() && t < end + 60_000 {
        t += TICK;
        io.measure(t, &[(7, bytes)], 0);
    }
    assert_eq!(io.inflight_attr(), vec![("s".to_string(), 7)]);
    (io, t, bytes)
}

#[test]
fn exit_of_the_owning_process_stops_the_stream() {
    let (mut io, mut t, mut own) = taught();
    io.refreshed(0, &[(7, true), (8, true)]);
    let mut other = 0u64;
    let mut now = io.measure(t + TICK, &[(7, own), (8, other)], 0);
    t += TICK;
    for _ in 0..40 {
        t += TICK;
        own += 30_000;
        other += 30_000;
        now = io.measure(t, &[(7, own), (8, other)], 0);
    }
    assert!(now.streaming && now.tps > 0 && !now.tasks.is_empty());
    // Process 7 exits; process 8 goes on writing.
    for _ in 0..10 {
        t += TICK;
        other += 30_000;
        let stopped = io.measure(t, &[(8, other)], 0);
        assert!(stopped.available);
        assert!(io.inflight_attr().is_empty());
        assert!(!stopped.streaming);
        assert_eq!(stopped.tps, 0);
        assert!(stopped.tasks.is_empty());
    }
    // A session of the other process is in progress as well.
    io.set_inflight(vec![("s".to_string(), T0), ("u".to_string(), t)]);
    for _ in 0..40 {
        t += TICK;
        other += 30_000;
        now = io.measure(t, &[(8, other)], 0);
    }
    assert!(now.streaming && now.tps > 0);
}

#[test]
fn restoring_nothing_leaves_the_rate() {
    let (mut io, _, _) = taught();
    let before = (io.bytes_per_token(), io.cal_state());
    assert_eq!(io.restore_cal(&[]), 0);
    assert_eq!(io.restore_cal(&[None]), 0);
    assert_eq!((io.bytes_per_token(), io.cal_state()), before);
}

#[test]
fn dropped_processes_are_not_listed() {
    let (mut io, _, _) = taught();
    io.refreshed(1, &[(8, true)]);
    assert_eq!(io.pids(), vec![8]);
    assert!(io.inflight_attr().is_empty());
}

#[test]
fn only_the_first_processes_of_a_long_list_are_measured() {
    let mut io = LiveIo::new(false);
    let mut found: Vec<(u32, bool)> = (0..MAX_PROCS as u32).map(|pid| (pid, false)).collect();
    found[3].1 = true;
    found.push((70_000, true));
    io.refreshed(0, &found);
    assert_eq!(io.pids(), vec![3]);
}
