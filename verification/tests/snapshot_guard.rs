use zcode_speed_panel::ckpt::CkptState;
use zcode_speed_panel::figures::CkptStat;
use zcode_speed_panel::guard::{
    accrue_rounds, is_artifact, lock_command, lock_failure, merge_history, parse_state_summary,
    parse_whoami_sid, summarize_scans, valid_hash_name, ApplyPlan, GuardAction, GuardEvent,
    GuardFile, LockArg, LockKind, ScanSummary, SnapshotGuard, StateSummary,
};

#[test]
fn state_summary_parse_and_aggregate() {
    let ok = parse_state_summary(
        r#"{"workspacePath":"/Users/x/proj","failureCount":3,
                "lastCompressedSize":{"encryptedSizeBytes":100,"workspaceSizeBytes":200}}"#,
    )
    .expect("should parse successfully");
    assert_eq!(ok.failure_count, 3);
    assert_eq!(parse_state_summary(r#"{"workspacePath":"x"}"#).unwrap().failure_count, 0);
    assert!(parse_state_summary("{oops").is_none());
    assert!(parse_state_summary("[]").is_none());

    let scans = vec![
        (Some(ok), vec![100, 50]),
        (None, vec![549_000_000]),
        (Some(StateSummary { failure_count: 7 }), vec![]),
    ];
    let s = summarize_scans(&scans);
    assert_eq!(s.workspace_count, 3);
    assert_eq!(s.artifact_count, 3);
    assert_eq!(s.artifact_bytes, 549_000_150);
    assert_eq!(s.failure_count, 10);
    assert_eq!(summarize_scans(&[]), ScanSummary::default());
}

#[test]
fn accrue_rounds_counts_real_delta_only() {
    assert_eq!(accrue_rounds(5, 100, 120), (25, 120));
    assert_eq!(accrue_rounds(5, 200, 50), (5, 50));
    assert_eq!(accrue_rounds(0, 456, 470), (14, 470));
    assert_eq!(accrue_rounds(0, 0, 0), (0, 0));
}

fn row(ws: &str, ms: i64, bytes: u64) -> CkptStat {
    CkptStat {
        workspace: ws.into(),
        bytes,
        recorded_ms: ms,
        accepted: true,
        uploading: false,
        hash: None,
    }
}

#[test]
fn merge_history_replaces_same_workspace_keeps_rest() {
    let old = vec![row("a", 100, 10), row("b", 200, 20), row("c", 300, 30)];
    let new = vec![row("b", 900, 99), row("d", 800, 40)];
    let merged = merge_history(old, new);
    let names: Vec<&str> = merged.iter().map(|r| r.workspace.as_str()).collect();
    assert_eq!(names, vec!["b", "d", "c", "a"]);
    assert_eq!(merged[0].bytes, 99);
    let many = (0..600).map(|i| row(&format!("w{i}"), i, 1)).collect();
    assert_eq!(merge_history(Vec::new(), many).len(), 500);
    assert_eq!(merge_history(Vec::new(), Vec::new()), Vec::new());
}

#[test]
fn valid_hash_name_rejects_traversal() {
    assert!(valid_hash_name("ab12cd34"));
    assert!(valid_hash_name("A-b_C9"));
    assert!(!valid_hash_name(""));
    assert!(!valid_hash_name(".."));
    assert!(!valid_hash_name("a/b"));
    assert!(!valid_hash_name("a\\b"));
    assert!(!valid_hash_name("/etc"));
    assert!(!valid_hash_name(".hidden"));
    assert!(!valid_hash_name("a b"));
    assert!(!valid_hash_name("哈希"));
    assert!(!valid_hash_name(&"x".repeat(129)));
    assert!(valid_hash_name(&"x".repeat(128)));
}

#[test]
fn parse_whoami_sid_finds_sid_field() {
    let sid = "S-1-5-21-2444046543-1064250523-2101273865-1001";
    assert_eq!(
        parse_whoami_sid(&format!("\"superdesktop\\moqiq\",\"{sid}\"\r\n")),
        Some(sid.to_string())
    );
    assert_eq!(parse_whoami_sid(&format!("\"x\",\"{sid}\",\"7\"\n")), Some(sid.to_string()));
    assert_eq!(parse_whoami_sid(&format!("header noise\n{sid}\n")), Some(sid.to_string()));
    assert_eq!(parse_whoami_sid(""), None);
    assert_eq!(parse_whoami_sid("\"only user\",\"no sid here\""), None);
    assert_eq!(parse_whoami_sid("\"S-1-5 x\""), None);
}

fn guard() -> SnapshotGuard {
    SnapshotGuard::new(true, GuardFile::default(), Vec::new())
}

#[test]
fn rounds_are_counted_across_a_restart() {
    let mut g = guard();
    let (st, save) = g.tick(100, 5_000, 0, Some(true), None);
    assert!(save);
    assert_eq!((st.locked_since_ms, st.blocked_rounds), (Some(5_000), 0));
    let (st, save) = g.tick(104, 6_000, 700, Some(true), None);
    assert!(save);
    assert_eq!(st.blocked_rounds, 4);
    let (_, save) = g.tick(104, 7_000, 1_400, Some(true), None);
    assert!(!save);
    let mut again = SnapshotGuard::new(true, g.file, Vec::new());
    assert_eq!(again.last_calls_seen(), 104);
    let (st, _) = again.tick(110, 8_000, 0, Some(true), None);
    assert_eq!(st.blocked_rounds, 10);
    let (st, save) = again.tick(2, 9_000, 700, Some(true), None);
    assert!(save);
    assert_eq!(st.blocked_rounds, 10);
    let (st, _) = again.tick(3, 9_500, 1_400, Some(true), None);
    assert_eq!(st.blocked_rounds, 11);
    let (st, save) = again.tick(3, 9_900, 2_100, Some(false), None);
    assert!(save);
    assert!(!st.locked);
    assert_eq!((st.locked_since_ms, st.blocked_rounds), (None, 0));
    assert_eq!(again.file, GuardFile::default());
    let (st, save) = again.tick(9, 9_999, 2_200, None, None);
    assert!(!save && !st.locked && st.supported);
}

#[test]
fn directory_is_scanned_every_five_seconds() {
    let mut g = guard();
    assert!(g.scan_due(0));
    let scans = vec![(Some(StateSummary { failure_count: 2 }), vec![10, 20])];
    let (st, _) = g.tick(0, 0, 0, Some(false), Some(&scans));
    assert_eq!((st.artifact_count, st.artifact_bytes), (2, 30));
    assert_eq!((st.workspace_count, st.failure_count), (1, 2));
    assert!(!g.scan_due(5_000));
    let (st, _) = g.tick(0, 0, 5_000, Some(false), Some(&[]));
    assert_eq!(st.artifact_count, 2);
    assert!(g.scan_due(5_001));
    let (st, _) = g.tick(0, 0, 5_001, Some(false), Some(&[]));
    assert_eq!(st.artifact_count, 0);
}

fn plan(keep_files: bool) -> ApplyPlan {
    ApplyPlan { has_dir: true, calls_today: 50, now_ms: 777, mono_ms: 9, keep_files }
}

fn obs() -> Vec<(String, CkptState)> {
    vec![(
        "hash1".to_string(),
        CkptState {
            workspace: "proj".into(),
            artifact_bytes: 12,
            artifact_hash: None,
            accepted_hash: Some("m".into()),
            uploading: false,
            recorded_at: Some(33),
        },
    )]
}

#[test]
fn clearing_archives_first_and_locks_the_empty_directory() {
    let mut g = guard();
    let p = plan(false);
    assert!(matches!(g.apply(&p, GuardEvent::Begin), GuardAction::Probe));
    assert!(matches!(g.apply(&p, GuardEvent::Probed(true)), GuardAction::Unlock));
    assert!(matches!(g.apply(&p, GuardEvent::Unlocked(None)), GuardAction::ReadStates));
    assert!(matches!(
        g.apply(&p, GuardEvent::StatesRead(obs())),
        GuardAction::SaveHistory(777)
    ));
    assert_eq!(g.history.len(), 1);
    assert_eq!(g.history[0].workspace, "proj");
    assert_eq!(g.history[0].hash.as_deref(), Some("hash1"));
    assert!(matches!(g.apply(&p, GuardEvent::HistorySaved), GuardAction::Clear));
    assert!(matches!(g.apply(&p, GuardEvent::Cleared(None)), GuardAction::Create));
    assert!(matches!(g.apply(&p, GuardEvent::Created(None)), GuardAction::Lock(false)));
    assert!(matches!(g.apply(&p, GuardEvent::Locked(None)), GuardAction::Verify));
    assert_eq!(g.file, GuardFile::default());
    assert!(matches!(g.apply(&p, GuardEvent::Verified(true)), GuardAction::Save));
    assert_eq!(g.file.locked_since_ms, Some(777));
    assert_eq!((g.file.calls_baseline, g.file.calls_seen), (Some(50), 50));
    match g.apply(&p, GuardEvent::Saved) {
        GuardAction::Finish(st) => {
            assert!(st.locked);
            assert_eq!(st.history.len(), 1);
        }
        _ => panic!("not finished"),
    }
}

#[test]
fn keeping_files_locks_everything_in_place() {
    let mut g = guard();
    let p = plan(true);
    assert!(matches!(g.apply(&p, GuardEvent::Probed(false)), GuardAction::Create));
    assert!(matches!(g.apply(&p, GuardEvent::Unlocked(None)), GuardAction::Create));
    assert!(matches!(g.apply(&p, GuardEvent::Created(None)), GuardAction::Lock(true)));
    assert!(matches!(g.apply(&p, GuardEvent::Verified(true)), GuardAction::Scan));
    let scans = vec![(None, vec![1, 2, 3])];
    assert!(matches!(g.apply(&p, GuardEvent::Scanned(scans)), GuardAction::Save));
    assert_eq!(g.scan.artifact_count, 3);
    assert!(g.history.is_empty());
}

fn failure(a: GuardAction) -> String {
    match a {
        GuardAction::Fail(e) => e,
        _ => panic!("no failure"),
    }
}

#[test]
fn failures_of_locking_are_told() {
    let mut g = guard();
    let p = plan(false);
    let why = || Some("denied".to_string());
    assert_eq!(failure(g.apply(&p, GuardEvent::Unlocked(why()))), "denied");
    assert_eq!(
        failure(g.apply(&p, GuardEvent::Cleared(why()))),
        "Failed to clear checkpoints: denied"
    );
    assert_eq!(
        failure(g.apply(&p, GuardEvent::Created(why()))),
        "Failed to recreate checkpoints directory: denied"
    );
    assert_eq!(failure(g.apply(&p, GuardEvent::Locked(why()))), "denied");
    assert_eq!(
        failure(g.apply(&p, GuardEvent::Verified(false))),
        "Lock did not take effect (write probe still succeeded); please check directory permissions"
    );
    assert_eq!(g.file, GuardFile::default());
    let nowhere = ApplyPlan { has_dir: false, ..p };
    assert_eq!(failure(g.apply(&nowhere, GuardEvent::Begin)), "Cannot locate user directory");
    assert_eq!(failure(g.release(false, 1, GuardEvent::Begin)), "Cannot locate user directory");
    let mut other = SnapshotGuard::new(false, GuardFile::default(), Vec::new());
    let text = "File lock is only supported on macOS / Windows";
    assert_eq!(failure(other.apply(&p, GuardEvent::Begin)), text);
    assert_eq!(failure(other.release(true, 1, GuardEvent::Begin)), text);
}

#[test]
fn nothing_to_archive_is_cleared_at_once() {
    let mut g = guard();
    let p = plan(false);
    assert!(matches!(g.apply(&p, GuardEvent::StatesRead(Vec::new())), GuardAction::Clear));
    g.history = vec![row("old", 1, 1)];
    assert!(matches!(
        g.apply(&p, GuardEvent::StatesRead(Vec::new())),
        GuardAction::SaveHistory(777)
    ));
    assert_eq!(g.history.len(), 1);
}

#[test]
fn release_unlocks_and_forgets_the_count() {
    let file = GuardFile {
        locked_since_ms: Some(1),
        calls_baseline: Some(2),
        blocked_rounds: 3,
        calls_seen: 4,
    };
    let mut g = SnapshotGuard::new(true, file, Vec::new());
    assert!(matches!(g.release(true, 60, GuardEvent::Begin), GuardAction::Probe));
    assert!(matches!(g.release(true, 60, GuardEvent::Probed(true)), GuardAction::Unlock));
    assert_eq!(g.file, file);
    assert!(matches!(g.release(true, 60, GuardEvent::Unlocked(None)), GuardAction::Save));
    assert_eq!(g.file, GuardFile::default());
    assert_eq!(g.last_calls_seen(), 60);
    assert!(matches!(g.release(true, 60, GuardEvent::Saved), GuardAction::Verify));
    match g.release(true, 60, GuardEvent::Verified(false)) {
        GuardAction::Finish(st) => assert!(!st.locked),
        _ => panic!("not finished"),
    }
    let text = Some("denied".to_string());
    assert_eq!(failure(g.release(true, 60, GuardEvent::Unlocked(text))), "denied");
}

fn words(args: &[LockArg]) -> Vec<String> {
    args.iter()
        .map(|a| match a {
            LockArg::Word(w) => w.clone(),
            LockArg::Directory => "DIR".to_string(),
        })
        .collect()
}

#[test]
fn commands_that_lock_are_those_of_the_system() {
    let (program, args) = lock_command(LockKind::Flag, true, true, "");
    assert_eq!(program, "chflags");
    assert_eq!(words(&args), vec!["-R", "uchg", "DIR"]);
    let (_, args) = lock_command(LockKind::Flag, false, false, "");
    assert_eq!(words(&args), vec!["nouchg", "DIR"]);
    let (program, args) = lock_command(LockKind::AccessList, true, false, "S-1-5");
    assert_eq!(program, "icacls");
    assert_eq!(words(&args), vec!["DIR", "/deny", "*S-1-5:(OI)(CI)(WD,AD)"]);
    let (_, args) = lock_command(LockKind::AccessList, false, true, "S-1-5");
    assert_eq!(words(&args), vec!["DIR", "/remove:d", "*S-1-5"]);
    assert_eq!(
        lock_failure(LockKind::Flag, true, true, Some(-7)),
        "chflags -R uchg did not succeed (exit Some(-7))"
    );
    assert_eq!(
        lock_failure(LockKind::AccessList, false, false, None),
        "icacls /remove:d did not succeed (exit None)"
    );
}

#[test]
fn snapshots_are_told_by_their_names() {
    assert!(is_artifact("a.tar.gz.enc"));
    assert!(!is_artifact("a.tar.gz"));
    assert!(!is_artifact("enc"));
}

#[test]
fn the_oldest_rows_leave_the_archive() {
    let many: Vec<_> = (0..600).map(|i| row(&format!("w{i}"), i, 1)).collect();
    let kept = merge_history(many, Vec::new());
    assert_eq!(kept.len(), 500);
    assert_eq!((kept[0].recorded_ms, kept[499].recorded_ms), (599, 100));
    let few: Vec<_> = (0..7).map(|i| row(&format!("w{i}"), i, 1)).collect();
    assert_eq!(merge_history(few, Vec::new()).len(), 7);
}
