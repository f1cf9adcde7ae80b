use zcode_speed_panel::updater::{
    download_total, download_verdict, is_newer, latest_url, parse_version, pick_asset, platform,
    read_release, truncate_chars, update_event, CheckOutcome, DownloadStep, InstallStep, Release,
    UpdateMem,
};

#[test]
fn version_parsing() {
    assert_eq!(parse_version("v0.3.1"), Some((0, 3, 1)));
    assert_eq!(parse_version("0.3.1"), Some((0, 3, 1)));
    assert_eq!(parse_version("V1.2.3"), Some((1, 2, 3)));
    assert_eq!(parse_version("v0.3.1-rc.1"), Some((0, 3, 1)));
    assert_eq!(parse_version("v0.3.1+build.2"), Some((0, 3, 1)));
    assert_eq!(parse_version("v10.0.0"), Some((10, 0, 0)));
    assert_eq!(parse_version("abc"), None);
    assert_eq!(parse_version("1.2.3.4"), None);
    assert_eq!(parse_version(""), None);
}

#[test]
fn version_ordering() {
    assert!(is_newer("v0.3.0", "0.2.1"));
    assert!(is_newer("v0.2.2", "v0.2.1"));
    assert!(is_newer("v1.0.0", "v0.99.99"));
    assert!(!is_newer("v0.2.1", "0.2.1"));
    assert!(!is_newer("v0.2.0", "v0.2.1"));
    assert!(!is_newer("garbage", "0.2.1"));
    assert!(!is_newer("0.2.1", "garbage"));
}

#[test]
fn asset_picking() {
    let assets = vec![
        "zcode-speed-panel_0.3.0_x64-setup.exe".to_string(),
        "zcode-speed-panel_0.3.0_x64-portable.exe".to_string(),
        "zcode-speed-panel_0.3.0_x64.dmg".to_string(),
        "zcode-speed-panel_0.3.0_aarch64.dmg".to_string(),
    ];
    assert_eq!(pick_asset(&assets, "win-x64"), Some(0));
    assert_eq!(pick_asset(&assets, "mac-x64"), Some(2));
    assert_eq!(pick_asset(&assets, "mac-aarch64"), Some(3));
    assert_eq!(pick_asset(&assets, "unsupported"), None);
    let only_arm = vec!["zcode-speed-panel_0.3.0_aarch64.dmg".to_string()];
    assert_eq!(pick_asset(&only_arm, "mac-x64"), None);
    assert_eq!(pick_asset(&only_arm, "mac-aarch64"), Some(0));
}

#[test]
fn versions_may_be_short_or_odd() {
    assert_eq!(parse_version(" v2 "), Some((2, 0, 0)));
    assert_eq!(parse_version("1.5"), Some((1, 5, 0)));
    assert_eq!(parse_version("1..2"), None);
    assert_eq!(parse_version("1.2.x"), None);
    assert_eq!(parse_version("18446744073709551615.0.0"), Some((u64::MAX, 0, 0)));
    assert_eq!(parse_version("18446744073709551616.0.0"), None);
}

#[test]
fn installers_are_made_for_three_systems() {
    assert_eq!(platform("windows", "x86_64"), "win-x64");
    assert_eq!(platform("macos", "aarch64"), "mac-aarch64");
    assert_eq!(platform("macos", "x86_64"), "mac-x64");
    assert_eq!(platform("windows", "aarch64"), "unsupported");
    assert_eq!(platform("linux", "x86_64"), "unsupported");
    assert_eq!(
        latest_url(),
        "https://api.github.com/repos/Masterchiefm/zcode-speed-panel/releases/latest"
    );
}

const ANSWER: &str = r#"{
    "tag_name": " v0.4.0 ",
    "html_url": "https://example.org/r",
    "body": "\nnotes\n",
    "assets": [
        {"size": 1},
        {"name": "p_0.4.0_x64.dmg", "size": 7, "browser_download_url": "https://example.org/d"},
        {"name": "p_0.4.0_aarch64.dmg"}
    ]
}"#;

#[test]
fn answers_of_the_server_tell_of_a_release() {
    let r = read_release(ANSWER, "mac-x64").expect("a release");
    assert_eq!(r.tag, "v0.4.0");
    assert_eq!(r.version, "0.4.0");
    assert_eq!(r.url, "https://example.org/r");
    assert_eq!(r.notes, "notes");
    assert_eq!(r.asset_name, "p_0.4.0_x64.dmg");
    assert_eq!(r.asset_url, "https://example.org/d");
    assert_eq!(r.asset_size, 7);
    assert!(read_release(ANSWER, "mac-aarch64").is_none());
    assert!(read_release(ANSWER, "win-x64").is_none());
    assert!(read_release("{}", "mac-x64").is_none());
    assert!(read_release("busy", "mac-x64").is_none());
}

#[test]
fn downloads_have_to_be_complete() {
    assert_eq!(download_total(Some("120"), 5), 120);
    assert_eq!(download_total(Some("0"), 5), 5);
    assert_eq!(download_total(Some("x"), 5), 5);
    assert_eq!(download_total(None, 5), 5);
    assert_eq!(download_verdict(120, 120), Ok(()));
    assert_eq!(download_verdict(120, 0), Ok(()));
    assert_eq!(download_verdict(0, 0), Err("Downloaded content is empty".to_string()));
    assert_eq!(
        download_verdict(7, 120),
        Err("Download incomplete (7/120 bytes)".to_string())
    );
}

fn release(tag: &str) -> Release {
    Release {
        tag: tag.into(),
        version: tag.trim_start_matches('v').into(),
        url: "u".into(),
        notes: "n".repeat(401),
        asset_name: "a".into(),
        asset_url: "d".into(),
        asset_size: 9,
    }
}

#[test]
fn notes_are_shortened() {
    assert_eq!(truncate_chars("abc", 3), "abc");
    assert_eq!(truncate_chars("äöü", 2), "äö…");
    let r = release("v2.0.0");
    let e = update_event("available", "1.0.0", Some(&r));
    assert_eq!((e.state, e.current_version.as_str()), ("available", "1.0.0"));
    assert_eq!((e.new_version.as_str(), e.total_bytes), ("2.0.0", 9));
    assert_eq!(e.notes.chars().count(), 401);
    assert!(e.notes.ends_with('…'));
    let e = update_event("error", "1.0.0", None);
    assert_eq!((e.new_version.as_str(), e.total_bytes), ("", 0));
}

#[test]
fn one_check_at_a_time_and_only_newer_releases_count() {
    let mut u = UpdateMem::new();
    assert!(u.check_due(86_400_000));
    assert!(u.begin_check().is_ok());
    match u.begin_check() {
        Err(CheckOutcome::Failed { message }) => {
            assert_eq!(message, "A check is already in progress")
        }
        _ => panic!("two checks"),
    }
    let (out, announce) = u.end_check("1.0.0", None, 5);
    assert!(!announce);
    match out {
        CheckOutcome::Failed { message } => {
            assert_eq!(message, "Network error or Release info unavailable")
        }
        _ => panic!("no failure"),
    }
    assert_eq!(u.last_check_ms, 0);
    u.begin_check().unwrap();
    let (out, announce) = u.end_check("1.0.0", Some(&release("v1.0.0")), 100);
    assert!(!announce && matches!(out, CheckOutcome::UpToDate { .. }));
    assert!(u.latest.is_none());
    assert_eq!(u.last_check_ms, 100);
    assert!(!u.check_due(86_400_099));
    assert!(u.check_due(86_400_100));
    let (out, announce) = u.end_check("1.0.0", Some(&release("v1.1.0")), 200);
    assert!(announce && matches!(out, CheckOutcome::Available { .. }));
    assert_eq!(u.latest.as_ref().map(|r| r.tag.as_str()), Some("v1.1.0"));
}

#[test]
fn stale_downloads_are_never_installed() {
    let mut u = UpdateMem::new();
    assert_eq!(u.request_install(), InstallStep::NoUpdate);
    u.end_check("1.0.0", Some(&release("v1.1.0")), 1);
    assert_eq!(u.request_download("v1.1.0"), DownloadStep::Start);
    assert_eq!(u.request_download("v1.1.0"), DownloadStep::Busy);
    assert_eq!(u.request_install(), InstallStep::Download);
    assert!(u.download_done("v1.1.0", "/tmp/f"));
    assert_eq!(u.request_download("v1.1.0"), DownloadStep::Ready);
    let (rel, path) = u.to_launch().expect("ready");
    assert_eq!((rel.tag.as_str(), path.as_str()), ("v1.1.0", "/tmp/f"));
    assert_eq!(u.request_install(), InstallStep::Launch);
    u.end_check("1.0.0", Some(&release("v1.2.0")), 2);
    assert!(u.to_launch().is_none());
    assert_eq!(u.request_install(), InstallStep::Download);
    assert_eq!(u.request_download("v1.2.0"), DownloadStep::Start);
    assert!(u.download_failed());
    assert!(!u.download_failed());
}
