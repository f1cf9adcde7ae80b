use zcode_speed_panel::clock::{
    day_start_from, hist_window_cutoff, local_day_start_ms, local_midnight_utc_ms, now_ms, today,
    today_start_from, today_start_ms, window_start_from,
};
use zcode_speed_panel::export::{export_name, link_allowed, MAX_TEXT};
use zcode_speed_panel::journal::{rotated_log_expired, Journal, DEBUG_LOG_MAX};
use zcode_speed_panel::json;
use zcode_speed_panel::json::Json;
use zcode_speed_panel::order::sort;
use zcode_speed_panel::procs::{
    any_zcode_args, argv_has_cli_marker, discover_cli_pids, discover_marked_pids, exe_is_zcode,
    io_write_bytes, open_proc, process_command_line, tracked_files_total, zcode_pid_groups,
    CmdStage, CmdStep, ProcEntry,
};
use zcode_speed_panel::tables::{ifaces_by_name, net_ifaces, zcode_conns};
use zcode_speed_panel::text::{contains, equal_ignoring_ascii_case, precedes};
use zcode_speed_panel::window::{
    below_margin, clamp_to_screen, pet_box, place_save_due, wanted_position, window_plan,
    FloatStyle, Mode, Places, PlanSize, Screen,
};

#[test]
fn forms_and_looks_are_found_by_their_names() {
    for m in [Mode::Full, Mode::Float] {
        assert_eq!(Mode::parse(m.as_str()), m);
        assert_eq!(m.other().other(), m);
    }
    for s in [FloatStyle::Gauge, FloatStyle::Pill, FloatStyle::Pet] {
        assert_eq!(FloatStyle::parse(s.as_str()), s);
    }
    assert_eq!(Mode::parse(" float\n"), Mode::Float);
    assert_eq!(Mode::parse("x"), Mode::Full);
    assert_eq!(FloatStyle::parse(""), FloatStyle::Gauge);
}

#[test]
fn plans_tell_how_the_window_is_set_up() {
    let full = window_plan(Mode::Full, FloatStyle::Pet, true);
    assert_eq!(full.size, PlanSize::Fixed(1000, 800));
    assert_eq!(full.min_size, Some((720, 520)));
    assert!(full.decorations && full.resizable && full.shadow && full.in_dock);
    assert!(!full.always_on_top && !full.skip_taskbar);
    assert!(!window_plan(Mode::Full, FloatStyle::Pet, false).decorations);
    let pill = window_plan(Mode::Float, FloatStyle::Pill, true);
    assert_eq!(pill.size, PlanSize::Fixed(172, 72));
    assert!(pill.always_on_top && pill.skip_taskbar && !pill.decorations && !pill.in_dock);
    assert_eq!(window_plan(Mode::Float, FloatStyle::Gauge, true).size, PlanSize::Fixed(148, 118));
    assert_eq!(window_plan(Mode::Float, FloatStyle::Pet, true).size, PlanSize::Pet);
    assert_eq!(pet_box(None, false), (200_000, 256_000));
    assert_eq!(pet_box(Some(5), true), (100_000, 252_000));
    assert_eq!(pet_box(Some(999_999), false), (480_000, 536_000));
}

const SCREEN: Screen = Screen { x: -100, y: 0, width: 1000, height: 600 };

#[test]
fn windows_are_moved_onto_the_screen() {
    assert_eq!(clamp_to_screen(50, 60, 200, 100, Some(SCREEN)), (50, 60));
    assert_eq!(clamp_to_screen(-900, -3, 200, 100, Some(SCREEN)), (-100, 0));
    assert_eq!(clamp_to_screen(5_000, 5_000, 200, 100, Some(SCREEN)), (700, 500));
    assert_eq!(clamp_to_screen(5_000, 5_000, 2_000, 100, Some(SCREEN)), (-100, 500));
    assert_eq!(clamp_to_screen(5_000, 5_000, 200, 100, None), (5_000, 5_000));
    let far = Screen { x: i32::MAX, y: i32::MIN, width: u32::MAX, height: u32::MAX };
    assert_eq!(clamp_to_screen(0, i32::MAX, 1, 1, Some(far)), (i32::MAX, i32::MAX - 1));
    assert_eq!(
        below_margin(&SCREEN, 28),
        Screen { x: -100, y: 28, width: 1000, height: 572 }
    );
    assert_eq!(below_margin(&SCREEN, 900).height, 0);
}

#[test]
fn each_form_keeps_its_place() {
    let mut p = Places { full: None, float: None };
    let at = |p: &Places, m: Mode| wanted_position(m, p, (100, 100), (1000, 800), (148, 118));
    assert_eq!(at(&p, Mode::Full), None);
    assert_eq!(at(&p, Mode::Float), Some((526, 441)));
    p.remember(Mode::Float, (3, 4));
    assert_eq!(at(&p, Mode::Float), Some((3, 4)));
    assert_eq!(at(&p, Mode::Full), None);
    p.remember(Mode::Full, (5, 6));
    assert_eq!(at(&p, Mode::Full), Some((5, 6)));
    assert_eq!(at(&p, Mode::Float), Some((3, 4)));
    let mut last = None;
    assert!(place_save_due(&mut last, 10));
    assert!(!place_save_due(&mut last, 2_010));
    assert!(place_save_due(&mut last, 2_011));
    assert_eq!(last, Some(2_011));
}

#[test]
fn reports_stay_in_their_directory() {
    assert_eq!(export_name("re port/../x.txt", 5), Ok("re_port_.._x.txt".to_string()));
    assert_eq!(export_name("..", 5), Err("Invalid file name".to_string()));
    assert_eq!(export_name("", 5), Err("Invalid file name".to_string()));
    assert_eq!(export_name("a", MAX_TEXT + 1), Err("Content too large".to_string()));
    assert!(export_name("a", MAX_TEXT).is_ok());
    assert_eq!(link_allowed("https://example.org"), Ok(()));
    assert_eq!(
        link_allowed("file:///etc"),
        Err("Only https links are supported".to_string())
    );
}

#[test]
fn log_is_rotated_and_beats() {
    let mut j = Journal::new(DEBUG_LOG_MAX - 1, 0);
    assert!(!j.line(10));
    assert_eq!(j.written, DEBUG_LOG_MAX + 10);
    assert!(j.line(4));
    assert_eq!(j.written, 5);
    assert!(!j.state_due(false, 30_000));
    assert!(j.state_due(true, 100));
    assert!(!j.state_due(false, 30_100));
    assert!(j.state_due(false, 30_101));
    let week = 7 * 86_400_000;
    assert!(rotated_log_expired("speed-panel-debug.jsonl.1", week + 1));
    assert!(!rotated_log_expired("speed-panel-debug.jsonl.1", week));
    assert!(!rotated_log_expired("speed-panel-debug.jsonl", week + 1));
}

#[test]
fn json_is_read_as_it_was_written() {
    let j = Json::Object(vec![
        ("n".to_string(), Json::signed(-4)),
        ("big".to_string(), Json::unsigned(u64::MAX)),
        ("l".to_string(), Json::List(vec![Json::Null, Json::Bool(true)])),
        ("t".to_string(), Json::Text("a\"\n".to_string())),
        ("n".to_string(), Json::signed(9)),
    ]);
    let text = json::write(&j);
    let back = json::read(&text).expect("json");
    assert_eq!(back.get_signed("n"), Some(-4));
    assert_eq!(back.get_unsigned("big"), u64::MAX);
    assert_eq!(back.get_signed("big"), None);
    assert_eq!(back.get_text("t"), Some("a\"\n"));
    assert_eq!(back.get_list("l").map(|l| l.len()), Some(2));
    assert!(back.get("missing").is_none());
    assert!(json::read("{\"a\":1").is_none());
    assert!(matches!(json::read("1.5"), Some(Json::Num(None, None))));
}

#[test]
fn sorting_keeps_equals_in_their_order() {
    assert_eq!(sort(vec![3u64, 1, 2, 1]), vec![1, 1, 2, 3]);
    assert!(precedes(&['a'], &['a', 'b']));
    assert!(!precedes(&['b'], &['a', 'b']));
}

#[test]
fn text_is_searched_and_compared() {
    assert!(contains("abc", "bc") && contains("abc", "") && !contains("abc", "cb"));
    assert!(equal_ignoring_ascii_case("ZCode.EXE", "zcode.exe"));
    assert!(!equal_ignoring_ascii_case("zcode.exes", "zcode.exe"));
}

fn entry(pid: u32, name: &str, cmd: Option<&str>) -> ProcEntry {
    let mut exe: Vec<u16> = name.encode_utf16().collect();
    exe.extend([0, 0x41]);
    ProcEntry { pid, exe, cmd: cmd.map(String::from) }
}

#[test]
fn processes_of_the_application_are_told_apart() {
    let list = vec![
        entry(1, "zcode.exe", Some("node zcode.cjs app-server")),
        entry(2, "ZCode.exe", Some("ZCode.exe --type=renderer")),
        entry(3, "ZCODE.EXE", None),
        entry(4, "other.exe", Some("zcode.cjs")),
    ];
    assert_eq!(discover_cli_pids(&list), vec![1]);
    let (cli, app) = zcode_pid_groups(&list);
    assert_eq!(cli, vec![(1, "CLI session process".to_string())]);
    assert_eq!(app[0], (2, "Renderer process".to_string()));
    assert!(app.iter().all(|(pid, _)| *pid != 4));
}

#[test]
fn packed_arguments_are_searched() {
    let pack = |args: &[&str]| {
        let mut v = (args.len() as i32).to_le_bytes().to_vec();
        for a in args {
            v.extend(a.as_bytes());
            v.push(0);
        }
        v
    };
    let cli = pack(&["/usr/bin/node", "/x/zcode-cli/run"]);
    let app = pack(&["/Applications/ZCode.app/Contents/MacOS/ZCode"]);
    let other = pack(&["/bin/ls"]);
    assert!(argv_has_cli_marker(&cli) == !discover_marked_pids(&[(5, cli.clone())]).is_empty());
    assert!(any_zcode_args(&[(9, app.clone())]));
    assert!(!any_zcode_args(&[(0, app)]));
    assert!(!any_zcode_args(&[(9, other.clone())]));
    assert!(discover_marked_pids(&[(9, other)]).is_empty());
    assert!(!argv_has_cli_marker(&[1, 0]));
}

#[test]
fn processes_are_told_from_their_successors() {
    let h = open_proc(4, Some(77)).expect("open");
    assert_eq!(io_write_bytes(&h, Some((77, 5))), Some(5));
    assert_eq!(io_write_bytes(&h, Some((78, 5))), None);
    assert_eq!(io_write_bytes(&h, None), None);
    assert!(open_proc(4, None).is_none());
    assert_eq!(tracked_files_total(&[3, 4, u64::MAX]), u64::MAX);
    assert_eq!(tracked_files_total(&[]), 0);
}

#[test]
fn command_lines_are_read_step_by_step() {
    let mut info = vec![0u8; 48];
    info[8..16].copy_from_slice(&0x1000u64.to_le_bytes());
    match process_command_line(CmdStage::BasicInfo, &info) {
        CmdStep::Read(stage, address, len) => {
            assert_eq!((stage, address, len), (CmdStage::ParametersPointer, 0x1020, 8));
        }
        _ => panic!("no read"),
    }
    assert!(matches!(process_command_line(CmdStage::BasicInfo, &[0; 8]), CmdStep::Fail));
    let text: Vec<u8> = "zc ä".encode_utf16().flat_map(|u| u.to_le_bytes()).collect();
    match process_command_line(CmdStage::Line, &text) {
        CmdStep::Done(s) => assert_eq!(s, "zc ä"),
        _ => panic!("no text"),
    }
}

#[test]
fn interfaces_with_the_same_name_count_once() {
    let list = vec![
        ("en0".to_string(), 1, 2),
        ("en1".to_string(), 3, 4),
        ("en0".to_string(), 9, 9),
    ];
    assert_eq!(ifaces_by_name(&list).len(), 2);
    assert!(net_ifaces(&[]).is_empty());
    assert!(net_ifaces(&[1, 0, 0, 0]).is_empty());
    assert!(zcode_conns(None, &Default::default(), &Default::default()).is_none());
}

#[test]
fn days_begin_at_local_midnight() {
    let now = now_ms();
    let start = local_day_start_ms(now);
    assert!(start <= now && now - start <= 90_000_000);
    assert_eq!(start % 1_000, 0);
    assert_eq!(local_midnight_utc_ms(), start);
    assert_eq!(today_start_ms(), start);
    let week = hist_window_cutoff(start);
    assert!(start - week >= 6 * 86_400_000 - 7_200_000);
    assert!(start - week <= 6 * 86_400_000 + 7_200_000);
    let (y, m, d) = today();
    assert!(y >= 2024 && (1..=12).contains(&m) && (1..=31).contains(&d));
    assert_eq!(day_start_from(86_400_005, None), 86_400_000);
    assert_eq!(day_start_from(-5, None), -86_400_000);
    assert_eq!(day_start_from(5, Some(1)), 1);
    assert_eq!(window_start_from(7 * 86_400_000, None), 86_400_000);
    assert_eq!(today_start_from(86_400_007, None), 7);
}

#[test]
fn names_are_read_as_utf16() {
    let line = |units: &[u16]| {
        let bytes: Vec<u8> = units.iter().flat_map(|u| u.to_le_bytes()).collect();
        match process_command_line(CmdStage::Line, &bytes) {
            CmdStep::Done(s) => s,
            _ => panic!("no text"),
        }
    };
    assert_eq!(line(&[0x61, 0xd83d, 0xde00, 0x62]), "a\u{1f600}b");
    assert_eq!(line(&[0xd83d, 0x61]), "\u{fffd}a");
    assert_eq!(line(&[0xde00, 0xd83d]), "\u{fffd}\u{fffd}");
    assert_eq!(line(&[0xd83d, 0xd83d, 0xde00]), "\u{fffd}\u{1f600}");
    let spelt = |s: &str| exe_is_zcode(&s.encode_utf16().collect::<Vec<u16>>());
    assert!(spelt("zcode.exe") && spelt("ZCODE.EXE") && spelt("zCoDe.ExE\0x"));
    assert!(!spelt("zcode.ex") && !spelt("zcode.exe ") && !spelt("zcode:exe") && !spelt(""));
    assert!(!exe_is_zcode(&[0xd83d, 0xde00]));
}
