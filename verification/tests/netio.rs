use zcode_speed_panel::ckpt::{
    apply_ckpt_obs, ckpt_rows, name_of_path, parse_ckpt_state, scan_ckpt_states, CkptEvent,
    CkptKind, CkptState,
};
use zcode_speed_panel::clock::ymd_str;
use zcode_speed_panel::net::{sess_bytes_est, wrap_delta, NetInput, NetIo};
use zcode_speed_panel::procs::proc_label;
use zcode_speed_panel::rate::Rate;
use zcode_speed_panel::strmap::StrMap;

#[test]
fn sess_est_scales_with_tokens() {
    let (up, down) = sess_bytes_est(1000, 2000);
    assert!((up as f64 - 5000.0).abs() < 1e-6);
    assert!((down as f64 - 800_000.0).abs() < 1e-6);
}

#[test]
fn parse_ckpt_state_fields() {
    let json = r#"{
            "workspacePath": "C:\\Users\\moqiq\\PycharmProjects\\primer_re",
            "lastCompressedSize": {
                "encryptedSizeBytes": 574522944,
                "workspaceSizeBytes": 100,
                "manifestHash": "abc123",
                "recordedAt": 1788290688837
            },
            "lastAcceptedManifestHash": "abc123",
            "activeUpload": null
        }"#;
    let s = parse_ckpt_state(json).expect("should parse successfully");
    assert_eq!(s.workspace, "primer_re");
    assert_eq!(s.artifact_bytes, 574522944);
    assert_eq!(s.artifact_hash.as_deref(), Some("abc123"));
    assert_eq!(s.accepted_hash.as_deref(), Some("abc123"));
    assert!(!s.uploading);
    assert_eq!(s.recorded_at, Some(1788290688837));
    assert!(parse_ckpt_state("{").is_none());
    assert!(parse_ckpt_state(r#"{"workspacePath":"x"}"#).is_none());
    let json2 = r#"{
            "workspacePath": "/tmp/w",
            "lastCompressedSize": {"encryptedSizeBytes": 5, "manifestHash": "h1"},
            "lastAcceptedManifestHash": "",
            "activeUpload": {"encryptedArtifactPath": "x.enc"}
        }"#;
    let s2 = parse_ckpt_state(json2).expect("should parse successfully");
    assert!(s2.uploading);
    assert_eq!(s2.accepted_hash, None);
}

fn state(acc: Option<&str>, bytes: u64, rec: i64, up: bool) -> CkptState {
    CkptState {
        workspace: "ws".into(),
        artifact_bytes: bytes,
        artifact_hash: Some("h".into()),
        accepted_hash: acc.map(String::from),
        uploading: up,
        recorded_at: Some(rec),
    }
}

#[test]
fn apply_ckpt_obs_counts_acceptance_diffs() {
    let day_start = 1_000_000i64;
    let mk = state;
    let mut states: StrMap<CkptState> = StrMap::new();
    let ev = apply_ckpt_obs(
        &mut states,
        &[("a".into(), mk(None, 100, day_start - 10, false))],
        day_start,
        false,
    );
    assert!(ev.is_empty());
    let ev = apply_ckpt_obs(
        &mut states,
        &[("a".into(), mk(Some("h"), 100, day_start + 5, false))],
        day_start,
        false,
    );
    assert_eq!(
        ev,
        vec![CkptEvent {
            kind: CkptKind::Accepted,
            workspace: "ws".into(),
            bytes: 100,
            recorded_ms: day_start + 5
        }]
    );
    let ev = apply_ckpt_obs(
        &mut states,
        &[("a".into(), mk(Some("h"), 100, day_start + 5, false))],
        day_start,
        false,
    );
    assert!(ev.is_empty());
    let ev = apply_ckpt_obs(
        &mut states,
        &[("a".into(), mk(Some("h2"), 250, day_start + 9, false))],
        day_start,
        false,
    );
    assert_eq!(ev.len(), 1);
    assert_eq!(ev[0].bytes, 250);
    let ev = apply_ckpt_obs(
        &mut states,
        &[("a".into(), mk(Some("h2"), 250, day_start + 9, true))],
        day_start,
        false,
    );
    assert_eq!(
        ev,
        vec![CkptEvent {
            kind: CkptKind::UploadStart,
            workspace: "ws".into(),
            bytes: 250,
            recorded_ms: 0
        }]
    );
    let ev = apply_ckpt_obs(
        &mut states,
        &[("a".into(), mk(Some("h2"), 250, day_start + 9, false))],
        day_start,
        false,
    );
    assert_eq!(
        ev,
        vec![CkptEvent {
            kind: CkptKind::UploadEnd,
            workspace: "ws".into(),
            bytes: 0,
            recorded_ms: 0
        }]
    );
    let mut states2: StrMap<CkptState> = StrMap::new();
    let ev = apply_ckpt_obs(
        &mut states2,
        &[("b".into(), mk(Some("old"), 999, day_start - 1, false))],
        day_start,
        false,
    );
    assert!(ev.is_empty());
    let mut states3: StrMap<CkptState> = StrMap::new();
    let ev = apply_ckpt_obs(
        &mut states3,
        &[("c".into(), mk(Some("n"), 42, day_start + 1, false))],
        day_start,
        true,
    );
    assert_eq!(
        ev,
        vec![CkptEvent {
            kind: CkptKind::Accepted,
            workspace: "ws".into(),
            bytes: 42,
            recorded_ms: day_start + 1
        }]
    );
    let mut states4: StrMap<CkptState> = StrMap::new();
    let ev = apply_ckpt_obs(
        &mut states4,
        &[("d".into(), mk(Some("n"), 42, day_start + 1, false))],
        day_start,
        false,
    );
    assert!(ev.is_empty());
}

#[test]
fn wrap_delta_handles_32bit_wrap_and_resets() {
    const W: u64 = 1 << 32;
    assert_eq!(wrap_delta(500, 100, W), 400);
    assert_eq!(wrap_delta(196, 4_294_967_296 - 300, W), 496);
    assert_eq!(wrap_delta(100, 500, 0), 0);
    assert_eq!(wrap_delta(900, 500, 0), 400);
    assert_eq!(wrap_delta(1000, 1_000_000, W), 0);
}

#[test]
fn wrap_delta_takes_large_steps_for_none() {
    assert_eq!(wrap_delta(0x8000_0000, 0, 0), 0);
    assert_eq!(wrap_delta(0x7fff_ffff, 0, 0), 0x7fff_ffff);
    assert_eq!(wrap_delta(5, 5, 1 << 32), 0);
    assert_eq!(wrap_delta(0, 1 << 32, 1 << 32), 0);
}

#[test]
fn proc_label_by_command_line() {
    assert_eq!(
        proc_label(r#""C:\...\zcode.exe" "C:\...\zcode.cjs" app-server"#),
        "CLI session process"
    );
    assert_eq!(
        proc_label(r#""C:\...\ZCode.exe" --type=renderer --field-trial-handle=x"#),
        "Renderer process"
    );
    assert_eq!(proc_label(r#""C:\...\ZCode.exe" --type=gpu-process"#), "GPU process");
    assert_eq!(
        proc_label(r#""C:\...\ZCode.exe" --type=utility --utility-sub-type=net"#),
        "Utility process"
    );
    assert_eq!(
        proc_label(r#""C:\...\ZCode.exe" --type=crashpad-handler"#),
        "Crash reporter process"
    );
    assert_eq!(proc_label(r#""C:\...\ZCode.exe" --js-flags=..."#), "Main process");
}

#[test]
fn ckpt_rows_sorted_all_workspaces() {
    let mut st: StrMap<CkptState> = StrMap::new();
    let mk = |ws: &str, bytes: u64, rec: i64, acc: bool, up: bool| {
        (
            ws.to_string(),
            CkptState {
                workspace: ws.into(),
                artifact_bytes: bytes,
                artifact_hash: Some("h".into()),
                accepted_hash: if acc { Some("h".to_string()) } else { None },
                uploading: up,
                recorded_at: Some(rec),
            },
        )
    };
    for (k, v) in [
        mk("old-acc", 100, 1, true, false),
        mk("new-acc", 200, 9, true, false),
        mk("pending", 300, 5, false, false),
        mk("flying", 400, 3, false, true),
    ] {
        st.insert(k, v);
    }
    let rows = ckpt_rows(&st);
    assert_eq!(
        rows.iter().map(|r| r.workspace.as_str()).collect::<Vec<_>>(),
        vec!["flying", "pending", "new-acc", "old-acc"]
    );
    let mut big: StrMap<CkptState> = StrMap::new();
    for i in 0..20 {
        let (k, v) = mk(&format!("ws{i}"), 1, i, true, false);
        big.insert(k, v);
    }
    assert_eq!(ckpt_rows(&big).len(), 20);
    assert!(ckpt_rows(&StrMap::new()).is_empty());
}

#[test]
fn broken_state_files_are_passed_over() {
    let files = vec![
        ("one".to_string(), "{".to_string()),
        (
            "two".to_string(),
            r#"{"workspacePath":"/w/two/","lastCompressedSize":{}}"#.to_string(),
        ),
        ("three".to_string(), r#"{"workspacePath":"/w/three"}"#.to_string()),
    ];
    let obs = scan_ckpt_states(&files);
    assert_eq!(obs.len(), 1);
    assert_eq!(obs[0].0, "two");
    assert_eq!(obs[0].1.workspace, "two");
    assert_eq!(obs[0].1.artifact_bytes, 0);
    assert_eq!(name_of_path("///"), "///");
    assert_eq!(name_of_path("a\\b/c"), "c");
}

const DAY: (i32, u32, u32) = (2026, 9, 18);

fn input(ymd: (i32, u32, u32), ifaces: Option<Vec<(String, u64, u64)>>) -> NetInput {
    NetInput {
        ymd,
        day_start_ms: 0,
        ifaces,
        wrap: 0,
        groups: None,
        tables: None,
        scan: None,
    }
}

fn eth(up: u64, down: u64) -> Option<Vec<(String, u64, u64)>> {
    Some(vec![("eth".to_string(), up, down)])
}

#[test]
fn traffic_is_counted_per_interface_and_per_day() {
    let mut io = NetIo::new(DAY, None, "missing", &[], 0);
    let (now, _) = io.tick(1_000, 0, input(DAY, eth(5_000, 9_000)));
    assert!(now.available);
    assert_eq!((now.up_today, now.down_today), (0, 0));
    assert_eq!(now.ckpt_status, "missing");
    let mut both = eth(5_300, 9_100).unwrap();
    both.push(("wifi".to_string(), 70_000, 70_000));
    let (now, text) = io.tick(2_000, 1_000, input(DAY, Some(both)));
    assert_eq!((now.up_today, now.down_today), (300, 100));
    assert_eq!(now.up_bps, Rate { tokens: 300, ms: 1_000 });
    assert_eq!(now.down_bps, Rate { tokens: 100, ms: 1_000 });
    assert!(text.is_some());
    let (now, text) = io.tick(3_000, 2_000, input(DAY, None));
    assert!(!now.available);
    assert_eq!((now.up_today, now.down_today), (300, 100));
    assert!(text.is_none());
    let (now, _) = io.tick(4_000, 3_000, input((2026, 9, 19), eth(5_350, 9_100)));
    assert_eq!((now.up_today, now.down_today), (50, 0));
}

#[test]
fn totals_are_saved_at_intervals_and_found_again_the_same_day() {
    let accepted = vec![("h1".to_string(), state(Some("m"), 1_572_864, 77, false))];
    let mut io = NetIo::new(DAY, None, "ok", &accepted, 50);
    assert_eq!((io.ckpt_today_bytes, io.ckpt_today_count), (1_572_864, 1));
    let log = io.take_events();
    assert_eq!(log.len(), 1);
    assert_eq!(log[0].kind, CkptKind::Accepted);
    assert_eq!((log[0].tenths_mb, log[0].backfill), (15, true));
    assert_eq!(log[0].workspace, "ws");
    assert!(io.take_events().is_empty());
    io.tick(1_000, 0, input(DAY, eth(0, 0)));
    let (_, text) = io.tick(2_000, 20_000, input(DAY, eth(10, 20)));
    assert!(text.is_none());
    let (_, text) = io.tick(3_000, 40_000, input(DAY, eth(30, 50)));
    let text = text.expect("due");
    let again = NetIo::new(DAY, Some(&text), "ok", &accepted, 50);
    assert_eq!((again.up_today, again.down_today), (30, 50));
    assert_eq!((again.ckpt_today_bytes, again.ckpt_today_count), (1_572_864, 1));
    assert_eq!(again.today_uploads, io.today_uploads);
    let other = NetIo::new((2026, 9, 19), Some(&text), "ok", &[], 50);
    assert_eq!((other.up_today, other.ckpt_today_count), (0, 0));
    let broken = NetIo::new(DAY, Some("{"), "ok", &[], 50);
    assert_eq!(broken.up_today, 0);
    let forced = io.save_forced(40_001);
    assert_eq!(NetIo::new(DAY, Some(&forced), "ok", &[], 50).down_today, 50);
}

#[test]
fn snapshots_are_looked_at_every_two_seconds() {
    let mut io = NetIo::new(DAY, None, "ok", &[], 0);
    assert!(io.scan_due(0));
    let mut a = input(DAY, None);
    a.scan = Some(("ok".to_string(), vec![("h".to_string(), state(None, 9, 5, true))]));
    let (now, _) = io.tick(0, 0, a);
    assert!(now.ckpt_uploading);
    assert_eq!(now.ckpt_list.len(), 1);
    assert!(!io.scan_due(2_000));
    assert!(io.scan_due(2_001));
    let mut b = input(DAY, None);
    b.scan = Some(("blocked".to_string(), vec![("h".to_string(), state(Some("x"), 9, 5, false))]));
    let (now, _) = io.tick(2_001, 2_001, b);
    assert!(!now.ckpt_uploading);
    assert_eq!(now.ckpt_status, "blocked");
    assert_eq!((now.ckpt_today_bytes, now.ckpt_today_count), (9, 1));
    assert_eq!(now.ckpt_today_list[0].recorded_ms, 5);
    let kinds: Vec<CkptKind> = io.take_events().iter().map(|e| e.kind).collect();
    assert_eq!(kinds, vec![CkptKind::Accepted, CkptKind::UploadEnd]);
}

#[test]
fn only_the_newest_hundred_uploads_are_listed() {
    let mut io = NetIo::new(DAY, None, "ok", &[], 0);
    for i in 0..120u64 {
        let mut a = input(DAY, None);
        let hash = format!("m{i}");
        let st = state(Some(&hash), i, i as i64, false);
        a.scan = Some(("ok".to_string(), vec![("h".to_string(), st)]));
        io.tick(i as i64, i * 3_000, a);
    }
    assert_eq!(io.ckpt_today_count, 119);
    assert_eq!(io.today_uploads.len(), 100);
    assert_eq!(io.today_uploads[0].bytes, 20);
    assert_eq!(io.today_uploads[99].bytes, 119);
}

fn tcp4(rows: &[(u32, [u8; 4], u16, u32)]) -> Vec<u8> {
    let mut v = (rows.len() as u32).to_le_bytes().to_vec();
    for (st, ip, port, pid) in rows {
        v.extend(st.to_le_bytes());
        v.extend([127, 0, 0, 1]);
        v.extend(80u32.to_le_bytes());
        v.extend(ip);
        v.extend((port.to_be() as u32).to_le_bytes());
        v.extend(pid.to_le_bytes());
    }
    v
}

#[test]
fn connections_carry_the_kind_of_their_process() {
    let mut io = NetIo::new(DAY, None, "ok", &[], 0);
    assert!(io.procs_due(0));
    let mut a = input(DAY, None);
    a.groups = Some((
        vec![(7, "CLI session process".to_string())],
        vec![(7, "Main process".to_string()), (8, "GPU process".to_string())],
    ));
    let table = tcp4(&[
        (5, [1, 2, 3, 4], 443, 8),
        (5, [9, 9, 9, 9], 443, 7),
        (5, [9, 9, 9, 9], 443, 7),
        (2, [5, 5, 5, 5], 443, 7),
        (5, [6, 6, 6, 6], 443, 99),
    ]);
    a.tables = Some((table, vec![0, 0, 0, 0]));
    let (now, _) = io.tick(0, 0, a);
    assert!(now.conns_available);
    assert_eq!((now.cli_conns, now.app_conns), (1, 1));
    assert_eq!(now.cli_conn_list[0].remote, "9.9.9.9:443");
    assert_eq!(now.cli_conn_list[0].proc, "CLI session process");
    assert_eq!(now.app_conn_list[0].remote, "1.2.3.4:443");
    assert_eq!(now.app_conn_list[0].proc, "GPU process");
    assert!(!io.procs_due(5_000));
    assert!(io.procs_due(5_001));
}

#[test]
fn dates_are_written_with_leading_zeros() {
    assert_eq!(ymd_str((2026, 9, 8)), "2026-09-08");
    assert_eq!(ymd_str((33, 12, 31)), "0033-12-31");
}

#[test]
fn uploads_are_listed_newest_first() {
    let mut st: StrMap<CkptState> = StrMap::new();
    for (name, accepted, time) in [("a", Some("h".to_string()), 9), ("b", None, 3)] {
        st.insert(
            name.to_string(),
            CkptState {
                workspace: name.into(),
                artifact_bytes: 1,
                artifact_hash: None,
                accepted_hash: accepted,
                uploading: true,
                recorded_at: Some(time),
            },
        );
    }
    let rows = ckpt_rows(&st);
    let names: Vec<&str> = rows.iter().map(|r| r.workspace.as_str()).collect();
    assert_eq!(names, vec!["a", "b"]);
    let taken = |name: &str, accepted: Option<&str>, time: i64| CkptState {
        workspace: name.into(),
        artifact_bytes: 1,
        artifact_hash: Some("h".into()),
        accepted_hash: accepted.map(|h| h.to_string()),
        uploading: true,
        recorded_at: Some(time),
    };
    let mut st: StrMap<CkptState> = StrMap::new();
    st.insert("c".to_string(), taken("c", None, 3));
    st.insert("d".to_string(), taken("d", Some("h"), 9));
    let rows = ckpt_rows(&st);
    assert!(rows[0].accepted && !rows[1].accepted);
    assert_eq!(rows[0].workspace, "d");
}
