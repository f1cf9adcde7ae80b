use zcode_speed_panel::autostart::{
    current_mode, follow_requested, plist, registered_command, run_command, set_mode, xml_escape,
    zcode_running, AutostartMode, Registration, FOLLOW_ARG,
};
use zcode_speed_panel::procs::ProcEntry;

#[test]
fn parse_roundtrip() {
    for m in [AutostartMode::Off, AutostartMode::Boot, AutostartMode::Follow] {
        assert_eq!(AutostartMode::parse(m.as_str()), m);
    }
    assert_eq!(AutostartMode::parse("garbage"), AutostartMode::Off);
}

#[test]
fn registered_commands_show_their_mode() {
    let exe = "C:\\Program Files\\panel.exe";
    assert_eq!(current_mode(None), AutostartMode::Off);
    let boot = run_command(exe, false);
    assert_eq!(boot, "\"C:\\Program Files\\panel.exe\"");
    assert_eq!(current_mode(Some(&boot)), AutostartMode::Boot);
    let follow = run_command(exe, true);
    assert_eq!(follow, "\"C:\\Program Files\\panel.exe\" --zcode-follow");
    assert_eq!(current_mode(Some(&follow)), AutostartMode::Follow);
}

#[test]
fn agents_show_their_mode() {
    let exe = "/Applications/A & B <x>.app/panel";
    let boot = plist(exe, false);
    assert!(boot.starts_with("<?xml version=\"1.0\" encoding=\"UTF-8\"?>\n<!DOCTYPE plist"));
    assert!(boot.contains(
        "<array><string>/Applications/A &amp; B &lt;x&gt;.app/panel</string></array>"
    ));
    assert!(boot.ends_with("<key>RunAtLoad</key><true/></dict></plist>\n"));
    assert_eq!(
        registered_command(&boot),
        "com.zcode.speedpanel.autostart /Applications/A &amp; B &lt;x&gt;.app/panel"
    );
    assert_eq!(current_mode(Some(&registered_command(&boot))), AutostartMode::Boot);
    let follow = plist(exe, true);
    assert!(follow.contains("</string><string>--zcode-follow</string></array>"));
    assert_eq!(current_mode(Some(&registered_command(&follow))), AutostartMode::Follow);
    assert_eq!(registered_command("no agent"), "");
    assert_eq!(xml_escape("a<b>&amp;"), "a&lt;b&gt;&amp;amp;");
}

#[test]
fn modes_are_registered_as_the_system_wants_it() {
    assert!(matches!(set_mode(AutostartMode::Off, "x", false), Registration::Remove));
    match set_mode(AutostartMode::Follow, "x", false) {
        Registration::Command(c) => assert_eq!(c, "\"x\" --zcode-follow"),
        _ => panic!("no command"),
    }
    match set_mode(AutostartMode::Boot, "x", true) {
        Registration::Agent(c) => assert_eq!(c, plist("x", false)),
        _ => panic!("no agent"),
    }
}

#[test]
fn panel_waits_when_it_is_told_to() {
    assert!(follow_requested(&["panel".to_string(), FOLLOW_ARG.to_string()]));
    assert!(!follow_requested(&["panel".to_string(), "--zcode-follow=1".to_string()]));
    let entry = |name: &str| ProcEntry {
        pid: 4,
        exe: name.encode_utf16().collect(),
        cmd: None,
    };
    assert!(zcode_running(&[entry("explorer.exe"), entry("ZCode.EXE")]));
    assert!(!zcode_running(&[entry("explorer.exe")]));
    assert!(!zcode_running(&[]));
}

#[test]
fn escapes_in_the_path_do_not_change_the_mode() {
    for exe in ["/A & B/<panel>", "/x/--zcode&-follow", "/--zcode-follo&amp;w"] {
        for follow in [false, true] {
            let shown = registered_command(&plist(exe, follow));
            let mode = current_mode(Some(shown.as_str()));
            assert_eq!(mode.as_str(), if follow { "follow" } else { "boot" });
        }
    }
}
