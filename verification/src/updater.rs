//! Updates of the panel itself: which release is newer, which file installs it here, and how
//! checking, downloading and installing follow each other.

use vstd::prelude::*;

use crate::json;
use crate::json::{Json, JsonView};
use crate::text;

verus! {

/// Where releases are published.
pub const REPO: &'static str = "Masterchiefm/zcode-speed-panel";

/// How long after a successful check the next one is due.
pub const CHECK_EVERY_MS: i64 = 86_400_000;

/// How many characters of the notes of a release are shown.
pub const NOTES_CAP: usize = 400;

/// The number of a segment of a version; a missing segment is zero.
pub open spec fn segment(segs: Seq<Seq<char>>, i: int) -> Option<u64> {
    if i < segs.len() {
        text::u64_read(segs[i])
    } else {
        Some(0)
    }
}

/// The three numbers of a version, without what stands before or behind them.
pub open spec fn version_of(tag: Seq<char>) -> Option<(u64, u64, u64)> {
    let bare = text::without_v(text::trimmed(tag));
    let segs = text::pieces(text::pieces(bare, seq!['-', '+'])[0], seq!['.']);
    if segs.len() > 3 {
        None
    } else {
        match (segment(segs, 0), segment(segs, 1), segment(segs, 2)) {
            (Some(a), Some(b), Some(c)) => Some((a, b, c)),
            _ => None,
        }
    }
}

fn read_segment(segs: &Vec<Vec<char>>, i: usize) -> (r: Option<u64>)
    ensures
        r == segment(text::piece_views(segs@), i as int),
{
    if i < segs.len() {
        text::parse_u64(&segs[i])
    } else {
        Some(0)
    }
}

/// The three numbers of a version: with or without a `v` before it, and without what follows
/// a dash or a plus. Nothing if a segment is no number, or there are more than three.
pub fn parse_version(tag: &str) -> (r: Option<(u64, u64, u64)>)
    ensures
        r == version_of(tag@),
{
    let cs = text::chars_of(tag);
    let trimmed = text::trim(&cs);
    let bare = text::drop_v(&trimmed);
    let mut ends: Vec<char> = Vec::new();
    ends.push('-');
    ends.push('+');
    assert(ends@ =~= seq!['-', '+']);
    let parts = text::split(&bare, &ends);
    let mut dots: Vec<char> = Vec::new();
    dots.push('.');
    assert(dots@ =~= seq!['.']);
    let segs = text::split(&parts[0], &dots);
    assert(text::piece_views(parts@)[0] == parts@[0]@);
    if segs.len() > 3 {
        return None;
    }
    match (read_segment(&segs, 0), read_segment(&segs, 1), read_segment(&segs, 2)) {
        (Some(a), Some(b), Some(c)) => Some((a, b, c)),
        _ => None,
    }
}

/// One version comes after another.
pub open spec fn later(a: (u64, u64, u64), b: (u64, u64, u64)) -> bool {
    a.0 > b.0 || (a.0 == b.0 && (a.1 > b.1 || (a.1 == b.1 && a.2 > b.2)))
}

/// One release is newer than another. What cannot be read is neither.
pub open spec fn newer(candidate: Seq<char>, current: Seq<char>) -> bool {
    match (version_of(candidate), version_of(current)) {
        (Some(a), Some(b)) => later(a, b),
        _ => false,
    }
}

/// Whether one release is newer than another.
pub fn is_newer(candidate: &str, current: &str) -> (r: bool)
    ensures
        r == newer(candidate@, current@),
{
    match (parse_version(candidate), parse_version(current)) {
        (Some(a), Some(b)) => a.0 > b.0 || (a.0 == b.0 && (a.1 > b.1 || (a.1 == b.1 && a.2 > b.2))),
        _ => false,
    }
}

/// Being newer is an order, and a release that cannot be read takes no part in it.
pub proof fn law_newer_is_an_order(a: Seq<char>, b: Seq<char>, c: Seq<char>)
    ensures
        !newer(a, a),
        newer(a, b) ==> !newer(b, a),
        newer(a, b) && newer(b, c) ==> newer(a, c),
        version_of(a) is None ==> !newer(a, b) && !newer(b, a),
        version_of(a) is Some && version_of(b) is Some && version_of(a) != version_of(b) ==> newer(
            a,
            b,
        ) || newer(b, a),
{
}

/// The kind of system that installers are made for.
pub open spec fn platform_of(os: Seq<char>, arch: Seq<char>) -> Seq<char> {
    if os == "windows"@ && arch == "x86_64"@ {
        "win-x64"@
    } else if os == "macos"@ && arch == "aarch64"@ {
        "mac-aarch64"@
    } else if os == "macos"@ && arch == "x86_64"@ {
        "mac-x64"@
    } else {
        "unsupported"@
    }
}

/// The kind of system that installers are made for, by operating system and processor.
pub fn platform(os: &str, arch: &str) -> (r: &'static str)
    ensures
        r@ == platform_of(os@, arch@),
{
    let x64 = text::same(arch, "x86_64");
    let arm = text::same(arch, "aarch64");
    if text::same(os, "windows") && x64 {
        "win-x64"
    } else if text::same(os, "macos") && arm {
        "mac-aarch64"
    } else if text::same(os, "macos") && x64 {
        "mac-x64"
    } else {
        "unsupported"
    }
}

/// How the name of an installer ends.
pub open spec fn installer_suffix(platform: Seq<char>) -> Option<Seq<char>> {
    if platform == "win-x64"@ {
        Some("_x64-setup.exe"@)
    } else if platform == "mac-x64"@ {
        Some("_x64.dmg"@)
    } else if platform == "mac-aarch64"@ {
        Some("_aarch64.dmg"@)
    } else {
        None
    }
}

/// The names as their characters.
pub open spec fn names_view(names: Seq<String>) -> Seq<Seq<char>> {
    names.map_values(|s: String| s@)
}

/// The first name that ends so.
pub open spec fn first_with_suffix(names: Seq<Seq<char>>, suffix: Seq<char>, from: int) -> Option<
    int,
>
    decreases names.len() - from,
{
    if from >= names.len() {
        None
    } else if text::has_suffix(names[from], suffix) {
        Some(from)
    } else {
        first_with_suffix(names, suffix, from + 1)
    }
}

/// Which of the files installs the panel.
pub open spec fn picked(names: Seq<Seq<char>>, platform: Seq<char>) -> Option<int> {
    match installer_suffix(platform) {
        Some(s) => first_with_suffix(names, s, 0),
        None => None,
    }
}

/// Which of the files installs the panel on this kind of system, by its name.
pub fn pick_asset(assets: &[String], platform: &str) -> (r: Option<usize>)
    ensures
        match r {
            Some(i) => i < assets@.len() && picked(names_view(assets@), platform@) == Some(
                i as int,
            ),
            None => picked(names_view(assets@), platform@) is None,
        },
{
    let suffix = if text::same(platform, "win-x64") {
        "_x64-setup.exe"
    } else if text::same(platform, "mac-x64") {
        "_x64.dmg"
    } else if text::same(platform, "mac-aarch64") {
        "_aarch64.dmg"
    } else {
        return None;
    };
    let ghost nv = names_view(assets@);
    for i in 0..assets.len()
        invariant
            nv == names_view(assets@),
            first_with_suffix(nv, suffix@, 0) == first_with_suffix(nv, suffix@, i as int),
            installer_suffix(platform@) == Some(suffix@),
    {
        if text::ends_with(assets[i].as_str(), suffix) {
            return Some(i);
        }
    }
    None
}

/// A release, with the file that installs it here.
#[derive(Debug)]
pub struct Release {
    /// The tag.
    pub tag: String,
    /// The version, without a `v` before it.
    pub version: String,
    /// The page of the release.
    pub url: String,
    /// What has changed.
    pub notes: String,
    /// The name of the file.
    pub asset_name: String,
    /// Where the file is.
    pub asset_url: String,
    /// Its bytes; zero if that is not known.
    pub asset_size: u64,
}

/// A [`Release`] with texts as their characters.
pub struct ReleaseView {
    pub tag: Seq<char>,
    pub version: Seq<char>,
    pub url: Seq<char>,
    pub notes: Seq<char>,
    pub asset_name: Seq<char>,
    pub asset_url: Seq<char>,
    pub asset_size: u64,
}

impl View for Release {
    type V = ReleaseView;

    open spec fn view(&self) -> ReleaseView {
        ReleaseView {
            tag: self.tag@,
            version: self.version@,
            url: self.url@,
            notes: self.notes@,
            asset_name: self.asset_name@,
            asset_url: self.asset_url@,
            asset_size: self.asset_size,
        }
    }
}

impl Clone for Release {
    fn clone(&self) -> (r: Self)
        ensures
            r@ == self@,
    {
        Release {
            tag: self.tag.clone(),
            version: self.version.clone(),
            url: self.url.clone(),
            notes: self.notes.clone(),
            asset_name: self.asset_name.clone(),
            asset_url: self.asset_url.clone(),
            asset_size: self.asset_size,
        }
    }
}

/// The files that have a name.
pub open spec fn named_assets(list: Seq<JsonView>) -> Seq<JsonView>
    decreases list.len(),
{
    if list.len() == 0 {
        Seq::empty()
    } else if list.last().member_text("name"@) is Some {
        named_assets(list.drop_last()).push(list.last())
    } else {
        named_assets(list.drop_last())
    }
}

/// The names of files.
pub open spec fn asset_names(assets: Seq<JsonView>) -> Seq<Seq<char>> {
    assets.map_values(|a: JsonView| a.member_text("name"@).unwrap())
}

/// The release that is told of; nothing if something is missing, such as a file that
/// installs it here.
pub open spec fn release_of(v: JsonView, platform: Seq<char>) -> Option<ReleaseView> {
    match (v.member_text("tag_name"@), v.member_text("html_url"@), v.member_list("assets"@)) {
        (Some(tag_name), Some(url), Some(list)) => {
            let tag = text::trimmed(tag_name);
            let assets = named_assets(list);
            match picked(asset_names(assets), platform) {
                Some(i) => match assets[i].member_text("browser_download_url"@) {
                    Some(asset_url) => Some(
                        ReleaseView {
                            tag,
                            version: text::without_v(tag),
                            url,
                            notes: match v.member_text("body"@) {
                                Some(s) => text::trimmed(s),
                                None => Seq::empty(),
                            },
                            asset_name: asset_names(assets)[i],
                            asset_url,
                            asset_size: assets[i].member_unsigned("size"@),
                        },
                    ),
                    None => None,
                },
                None => None,
            }
        },
        _ => None,
    }
}

fn trimmed_text(s: &str) -> (r: String)
    ensures
        r@ == text::trimmed(s@),
{
    let cs = text::chars_of(s);
    let t = text::trim(&cs);
    text::string_of(&t)
}

/// The release that is told of.
pub fn release_from(v: &Json, platform: &str) -> (r: Option<Release>)
    ensures
        match r {
            Some(rel) => release_of(v@, platform@) == Some(rel@),
            None => release_of(v@, platform@) is None,
        },
{
    let tag = match v.get_text("tag_name") {
        Some(s) => trimmed_text(s),
        None => {
            return None;
        },
    };
    let url = match v.get_text("html_url") {
        Some(s) => s.to_owned(),
        None => {
            return None;
        },
    };
    let notes = match v.get_text("body") {
        Some(s) => trimmed_text(s),
        None => String::new(),
    };
    let list = match v.get_list("assets") {
        Some(l) => l,
        None => {
            return None;
        },
    };
    let ghost lv = json::list_view(list@);
    let mut names: Vec<String> = Vec::new();
    let mut places: Vec<usize> = Vec::new();
    proof {
        json::lemma_list_view(list@);
        assert(lv.take(0) =~= Seq::empty());
        assert(names_view(names@) =~= asset_names(named_assets(lv.take(0))));
    }
    for i in 0..list.len()
        invariant
            lv == json::list_view(list@),
            lv.len() == list@.len(),
            forall|k: int| 0 <= k < list@.len() ==> #[trigger] lv[k] == list@[k]@,
            names_view(names@) == asset_names(named_assets(lv.take(i as int))),
            names@.len() == places@.len(),
            forall|k: int|
                0 <= k < places@.len() ==> #[trigger] places@[k] < list@.len() && named_assets(
                    lv.take(i as int),
                )[k] == lv[places@[k] as int],
    {
        assert(lv.take(i + 1).drop_last() =~= lv.take(i as int));
        assert(lv[i as int] == list@[i as int]@);
        let ghost n0 = names_view(names@);
        let ghost a0 = named_assets(lv.take(i as int));
        assert(a0.len() == names@.len()) by {
            assert(n0.len() == asset_names(a0).len());
        }
        match list[i].get_text("name") {
            Some(n) => {
                names.push(n.to_owned());
                places.push(i);
                assert(names_view(names@) =~= n0.push(n@));
                assert(asset_names(a0.push(lv[i as int])) =~= asset_names(a0).push(n@));
            },
            None => {},
        }
    }
    assert(lv.take(lv.len() as int) =~= lv);
    let ghost assets = named_assets(lv);
    let idx: usize = match pick_asset(&names, platform) {
        Some(i) => i,
        None => {
            return None;
        },
    };
    let asset: &Json = &list[places[idx]];
    assert(asset@ == assets[idx as int]);
    let asset_url = match asset.get_text("browser_download_url") {
        Some(s) => s.to_owned(),
        None => {
            return None;
        },
    };
    let tag_chars = text::chars_of(tag.as_str());
    let bare = text::drop_v(&tag_chars);
    assert(names_view(names@)[idx as int] == names@[idx as int]@);
    Some(
        Release {
            version: text::string_of(&bare),
            asset_url,
            asset_size: asset.get_unsigned("size"),
            asset_name: names[idx].clone(),
            tag,
            url,
            notes,
        },
    )
}

/// The release that an answer of the server tells of.
pub fn read_release(answer: &str, platform: &str) -> (r: Option<Release>)
    ensures
        match r {
            Some(rel) => json::parsed(answer@) matches Some(v) && release_of(v, platform@) == Some(
                rel@,
            ),
            None => match json::parsed(answer@) {
                Some(v) => release_of(v, platform@) is None,
                None => true,
            },
        },
{
    match json::read(answer) {
        Some(v) => release_from(&v, platform),
        None => None,
    }
}

/// How many bytes a download is to have: as the header says, if it says so, else as the
/// release says.
pub open spec fn bytes_expected(header: Option<Seq<char>>, asset_size: u64) -> u64 {
    match header {
        Some(s) => match text::u64_read(s) {
            Some(t) if t > 0 => t,
            _ => asset_size,
        },
        None => asset_size,
    }
}

/// How many bytes a download is to have.
pub fn download_total(header: Option<&str>, asset_size: u64) -> (r: u64)
    ensures
        r == bytes_expected(
            match header {
                Some(s) => Some(s@),
                None => None,
            },
            asset_size,
        ),
{
    match header {
        Some(s) => {
            let cs = text::chars_of(s);
            match text::parse_u64(&cs) {
                Some(t) => if t > 0 {
                    t
                } else {
                    asset_size
                },
                None => asset_size,
            }
        },
        None => asset_size,
    }
}

/// Why a download is not complete; nothing if it is.
pub open spec fn download_fault(written: u64, total: u64) -> Option<Seq<char>> {
    if written == 0 {
        Some("Downloaded content is empty"@)
    } else if total > 0 && written != total {
        Some(
            "Download incomplete ("@ + text::decimal(written as nat) + "/"@ + text::decimal(
                total as nat,
            ) + " bytes)"@,
        )
    } else {
        None
    }
}

/// Whether a download is complete; else, why not.
pub fn download_verdict(written: u64, total: u64) -> (r: Result<(), String>)
    ensures
        match r {
            Ok(_) => download_fault(written, total) is None,
            Err(e) => download_fault(written, total) == Some(e@),
        },
{
    if written == 0 {
        Err("Downloaded content is empty".to_owned())
    } else if total > 0 && written != total {
        let mut s = "Download incomplete (".to_owned();
        text::push_decimal(&mut s, written);
        text::push_text(&mut s, "/");
        text::push_decimal(&mut s, total);
        text::push_text(&mut s, " bytes)");
        Err(s)
    } else {
        Ok(())
    }
}

/// The first characters of a text, with a mark where some are left out.
pub open spec fn shortened(s: Seq<char>, n: nat) -> Seq<char> {
    if s.len() <= n {
        s
    } else {
        s.take(n as int).push('\u{2026}')
    }
}

/// The first characters of a text, with a mark where some are left out.
pub fn truncate_chars(s: &str, n: usize) -> (r: String)
    ensures
        r@ == shortened(s@, n as nat),
{
    let cs = text::chars_of(s);
    if cs.len() <= n {
        text::string_of(&cs)
    } else {
        let front = text::part(&cs, 0, n);
        let mut t = text::string_of(&front);
        t.push('\u{2026}');
        assert(t@ =~= shortened(s@, n as nat));
        t
    }
}

/// What the panel shows of an update.
#[derive(Debug)]
pub struct UpdateEvent {
    /// `available`, `downloading`, `ready`, `launching` or `error`.
    pub state: &'static str,
    pub current_version: String,
    pub new_version: String,
    pub release_url: String,
    pub notes: String,
    pub downloaded_bytes: u64,
    pub total_bytes: u64,
    pub message: String,
}

/// What the panel shows of a release.
pub fn update_event(state: &'static str, current: &str, rel: Option<&Release>) -> (r: UpdateEvent)
    ensures
        r.state@ == state@,
        r.current_version@ == current@,
        r.downloaded_bytes == 0,
        r.message@.len() == 0,
        match rel {
            Some(x) => {
                &&& r.new_version@ == x.version@
                &&& r.release_url@ == x.url@
                &&& r.notes@ == shortened(x.notes@, NOTES_CAP as nat)
                &&& r.total_bytes == x.asset_size
            },
            None => {
                &&& r.new_version@.len() == 0
                &&& r.release_url@.len() == 0
                &&& r.notes@.len() == 0
                &&& r.total_bytes == 0
            },
        },
{
    match rel {
        Some(x) => UpdateEvent {
            state,
            current_version: current.to_owned(),
            new_version: x.version.clone(),
            release_url: x.url.clone(),
            notes: truncate_chars(x.notes.as_str(), NOTES_CAP),
            downloaded_bytes: 0,
            total_bytes: x.asset_size,
            message: String::new(),
        },
        None => UpdateEvent {
            state,
            current_version: current.to_owned(),
            new_version: String::new(),
            release_url: String::new(),
            notes: String::new(),
            downloaded_bytes: 0,
            total_bytes: 0,
            message: String::new(),
        },
    }
}

/// Where the latest release is asked for.
pub fn latest_url() -> (r: String)
    ensures
        r@ == "https://api.github.com/repos/"@ + REPO@ + "/releases/latest"@,
{
    let mut s = "https://api.github.com/repos/".to_owned();
    text::push_text(&mut s, REPO);
    text::push_text(&mut s, "/releases/latest");
    s
}

/// How far an update has come.
pub struct UpdateMem {
    /// When the latest release was last learned.
    pub last_check_ms: i64,
    /// A check is under way.
    pub checking: bool,
    /// A download is under way.
    pub downloading: bool,
    /// The release to update to.
    pub latest: Option<Release>,
    /// The tag and the file of the release that was downloaded.
    pub downloaded: Option<(String, String)>,
    /// Installing starts once the download is complete.
    pub install_when_ready: bool,
}

/// An [`UpdateMem`] with texts as their characters.
pub struct UpdateView {
    pub last_check_ms: i64,
    pub checking: bool,
    pub downloading: bool,
    pub latest: Option<ReleaseView>,
    pub downloaded: Option<(Seq<char>, Seq<char>)>,
    pub install_when_ready: bool,
}

/// A release that may be missing, with texts as their characters.
pub open spec fn opt_release(r: Option<Release>) -> Option<ReleaseView> {
    match r {
        Some(x) => Some(x@),
        None => None,
    }
}

impl View for UpdateMem {
    type V = UpdateView;

    open spec fn view(&self) -> UpdateView {
        UpdateView {
            last_check_ms: self.last_check_ms,
            checking: self.checking,
            downloading: self.downloading,
            latest: opt_release(self.latest),
            downloaded: match self.downloaded {
                Some((t, p)) => Some((t@, p@)),
                None => None,
            },
            install_when_ready: self.install_when_ready,
        }
    }
}

/// What a check has found.
#[derive(Debug)]
pub enum CheckOutcome {
    /// There is nothing newer.
    UpToDate { current: String },
    /// There is a newer release.
    Available { current: String, new_version: String },
    /// Nothing could be found out.
    Failed { message: String },
}

/// What is to be done about a download.
#[derive(Clone, Copy, Debug, PartialEq, Eq, Structural)]
pub enum DownloadStep {
    /// The release was downloaded before.
    Ready,
    /// A download is under way.
    Busy,
    /// A download begins.
    Start,
}

/// What is to be done about a request to install.
#[derive(Clone, Copy, Debug, PartialEq, Eq, Structural)]
pub enum InstallStep {
    /// There is no update.
    NoUpdate,
    /// The release was downloaded; installing begins.
    Launch,
    /// Installing begins once the download, which is to be seen to, is complete.
    Download,
}

impl UpdateView {
    /// The release to update to was downloaded.
    pub open spec fn is_ready(self) -> bool {
        match (self.latest, self.downloaded) {
            (Some(rel), Some((tag, _))) => tag == rel.tag,
            _ => false,
        }
    }

    /// A release was downloaded.
    pub open spec fn has(self, tag: Seq<char>) -> bool {
        match self.downloaded {
            Some((t, _)) => t == tag,
            None => false,
        }
    }
}

/// After a check. Only a check that learned of a release counts as one, and only a newer
/// release is taken up.
pub open spec fn checked(
    u: UpdateView,
    current: Seq<char>,
    fetched: Option<ReleaseView>,
    now: i64,
) -> UpdateView {
    match fetched {
        None => UpdateView { checking: false, ..u },
        Some(rel) => UpdateView {
            checking: false,
            last_check_ms: now,
            latest: if newer(rel.tag, current) {
                Some(rel)
            } else {
                u.latest
            },
            ..u
        },
    }
}

/// What is to be done about the download of a release.
pub open spec fn download_step(u: UpdateView, tag: Seq<char>) -> DownloadStep {
    if u.has(tag) {
        DownloadStep::Ready
    } else if u.downloading {
        DownloadStep::Busy
    } else {
        DownloadStep::Start
    }
}

impl UpdateMem {
    /// Nothing has happened yet.
    pub fn new() -> (r: Self)
        ensures
            r@ == (UpdateView {
                last_check_ms: 0,
                checking: false,
                downloading: false,
                latest: None,
                downloaded: None,
                install_when_ready: false,
            }),
    {
        UpdateMem {
            last_check_ms: 0,
            checking: false,
            downloading: false,
            latest: None,
            downloaded: None,
            install_when_ready: false,
        }
    }

    /// Begins a check, unless one is under way.
    pub fn begin_check(&mut self) -> (r: Result<(), CheckOutcome>)
        ensures
            final(self)@ == (UpdateView { checking: true, ..old(self)@ }),
            match r {
                Ok(_) => !old(self).checking,
                Err(CheckOutcome::Failed { message }) => old(self).checking && message@
                    == "A check is already in progress"@,
                Err(_) => false,
            },
    {
        if self.checking {
            return Err(
                CheckOutcome::Failed { message: "A check is already in progress".to_owned() },
            );
        }
        self.checking = true;
        Ok(())
    }

    /// Ends a check with what was learned: the outcome, and whether the release is to be
    /// announced and downloaded.
    pub fn end_check(&mut self, current: &str, fetched: Option<&Release>, now_ms: i64) -> (r: (
        CheckOutcome,
        bool,
    ))
        ensures
            final(self)@ == checked(
                old(self)@,
                current@,
                match fetched {
                    Some(x) => Some(x@),
                    None => None,
                },
                now_ms,
            ),
            match (r.0, fetched) {
                (CheckOutcome::Failed { message }, None) => !r.1 && message@
                    == "Network error or Release info unavailable"@,
                (CheckOutcome::Available { current: c, new_version }, Some(rel)) => r.1 && newer(
                    rel.tag@,
                    current@,
                ) && c@ == current@ && new_version@ == rel.version@,
                (CheckOutcome::UpToDate { current: c }, Some(rel)) => !r.1 && !newer(
                    rel.tag@,
                    current@,
                ) && c@ == current@,
                _ => false,
            },
    {
        self.checking = false;
        match fetched {
            None => (
                CheckOutcome::Failed {
                    message: "Network error or Release info unavailable".to_owned(),
                },
                false,
            ),
            Some(rel) => {
                self.last_check_ms = now_ms;
                if is_newer(rel.tag.as_str(), current) {
                    self.latest = Some(rel.clone());
                    (
                        CheckOutcome::Available {
                            current: current.to_owned(),
                            new_version: rel.version.clone(),
                        },
                        true,
                    )
                } else {
                    (CheckOutcome::UpToDate { current: current.to_owned() }, false)
                }
            },
        }
    }

    /// Whether the next check is due.
    pub fn check_due(&self, now_ms: i64) -> (r: bool)
        ensures
            r == (now_ms - self@.last_check_ms >= CHECK_EVERY_MS),
            r == is_check_due(self@, now_ms as int),
    {
        now_ms as i128 - self.last_check_ms as i128 >= CHECK_EVERY_MS as i128
    }

    fn holds(&self, tag: &str) -> (r: bool)
        ensures
            r == self@.has(tag@),
    {
        match &self.downloaded {
            Some((t, _)) => text::same(t.as_str(), tag),
            None => false,
        }
    }

    /// What is to be done about the download of a release; one that is to begin is under way
    /// from now on.
    pub fn request_download(&mut self, tag: &str) -> (r: DownloadStep)
        ensures
            r == download_step(old(self)@, tag@),
            final(self)@ == (UpdateView {
                downloading: old(self).downloading || r == DownloadStep::Start,
                ..old(self)@
            }),
            final(self)@ == asked_for(old(self)@, tag@),
    {
        if self.holds(tag) {
            DownloadStep::Ready
        } else if self.downloading {
            DownloadStep::Busy
        } else {
            self.downloading = true;
            DownloadStep::Start
        }
    }

    /// A download is complete; whether installing is waited for.
    pub fn download_done(&mut self, tag: &str, path: &str) -> (r: bool)
        ensures
            r == old(self).install_when_ready,
            final(self)@ == (UpdateView {
                downloading: false,
                downloaded: Some((tag@, path@)),
                ..old(self)@
            }),
            final(self)@ == downloaded_as(old(self)@, tag@, path@),
    {
        self.downloading = false;
        self.downloaded = Some((tag.to_owned(), path.to_owned()));
        self.install_when_ready
    }

    /// A download has failed; whether installing was waited for. It is not waited for any
    /// longer.
    pub fn download_failed(&mut self) -> (r: bool)
        ensures
            r == old(self).install_when_ready,
            final(self)@ == (UpdateView {
                downloading: false,
                install_when_ready: false,
                ..old(self)@
            }),
            final(self)@ == not_downloaded(old(self)@),
    {
        self.downloading = false;
        let wait = self.install_when_ready;
        self.install_when_ready = false;
        wait
    }

    /// What is to be done about a request to install.
    pub fn request_install(&mut self) -> (r: InstallStep)
        ensures
            r == (if old(self)@.latest is None {
                InstallStep::NoUpdate
            } else if old(self)@.is_ready() {
                InstallStep::Launch
            } else {
                InstallStep::Download
            }),
            final(self)@ == (UpdateView {
                install_when_ready: old(self).install_when_ready || r == InstallStep::Download,
                ..old(self)@
            }),
            (r, final(self)@) == install_asked(old(self)@),
    {
        let ready = match &self.latest {
            None => {
                return InstallStep::NoUpdate;
            },
            Some(rel) => self.holds(rel.tag.as_str()),
        };
        if ready {
            InstallStep::Launch
        } else {
            self.install_when_ready = true;
            InstallStep::Download
        }
    }

    /// The release to install and its file, if it was downloaded.
    pub fn to_launch(&self) -> (r: Option<(Release, String)>)
        ensures
            match r {
                Some((rel, path)) => self@.is_ready() && self@.latest == Some(rel@)
                    && self@.downloaded == Some((rel.tag@, path@)),
                None => !self@.is_ready(),
            },
    {
        match (&self.latest, &self.downloaded) {
            (Some(rel), Some((tag, path))) => if text::same(tag.as_str(), rel.tag.as_str()) {
                Some((rel.clone(), path.clone()))
            } else {
                None
            },
            _ => None,
        }
    }
}

/// There is at most one download at a time, and none of a release that was downloaded.
pub proof fn law_one_download_at_a_time(u: UpdateView, tag: Seq<char>)
    ensures
        download_step(u, tag) == DownloadStep::Start ==> !u.downloading && !u.has(tag),
        u.downloading && !u.has(tag) ==> download_step(u, tag) == DownloadStep::Busy,
{
}

/// A file that was downloaded for another release than the one to update to is never
/// installed: a newer release found meanwhile has to be downloaded first.
pub proof fn law_no_stale_file_is_installed(
    u: UpdateView,
    current: Seq<char>,
    found: ReleaseView,
    now: i64,
)
    requires
        newer(found.tag, current),
        !u.has(found.tag),
    ensures
        !checked(u, current, Some(found), now).is_ready(),
        download_step(checked(u, current, Some(found), now), found.tag) != DownloadStep::Ready,
{
}

/// A check that learned nothing changes nothing, so that the next one is due as before; and
/// what a check takes up is newer than what is installed.
pub proof fn law_checks_never_go_back(
    u: UpdateView,
    current: Seq<char>,
    fetched: Option<ReleaseView>,
    now: i64,
)
    ensures
        fetched is None ==> checked(u, current, fetched, now) == (UpdateView {
            checking: false,
            ..u
        }),
        checked(u, current, fetched, now).latest != u.latest ==> (checked(
            u,
            current,
            fetched,
            now,
        ).latest matches Some(rel) && newer(rel.tag, current)),
{
}

/// Releases compare by their three numbers, the first that differs deciding.
pub proof fn law_newer_goes_by_the_numbers(a: Seq<char>, b: Seq<char>)
    requires
        version_of(a) is Some,
        version_of(b) is Some,
    ensures
        ({
            let x = version_of(a)->0;
            let y = version_of(b)->0;
            &&& x.0 != y.0 ==> newer(a, b) == (x.0 > y.0)
            &&& x.0 == y.0 && x.1 != y.1 ==> newer(a, b) == (x.1 > y.1)
            &&& x.0 == y.0 && x.1 == y.1 ==> newer(a, b) == (x.2 > y.2)
        }),
{
}

proof fn lemma_first_with_suffix(names: Seq<Seq<char>>, suffix: Seq<char>, from: int)
    requires
        0 <= from,
    ensures
        match first_with_suffix(names, suffix, from) {
            Some(i) => from <= i < names.len() && text::has_suffix(names[i], suffix) && forall|j: int|
                from <= j < i ==> !text::has_suffix(#[trigger] names[j], suffix),
            None => forall|j: int|
                from <= j < names.len() ==> !text::has_suffix(#[trigger] names[j], suffix),
        },
    decreases names.len() - from,
{
    if from < names.len() && !text::has_suffix(names[from], suffix) {
        lemma_first_with_suffix(names, suffix, from + 1);
    }
}

/// The file that is picked is the first that is an installer for the system; none is picked only
/// where there is none.
pub proof fn law_picked_file_is_an_installer(names: Seq<Seq<char>>, platform: Seq<char>)
    requires
        platform == "win-x64"@ || platform == "mac-x64"@ || platform == "mac-aarch64"@,
    ensures
        ({
            let suffix = if platform == "win-x64"@ {
                "_x64-setup.exe"@
            } else if platform == "mac-x64"@ {
                "_x64.dmg"@
            } else {
                "_aarch64.dmg"@
            };
            match picked(names, platform) {
                Some(i) => 0 <= i < names.len() && text::has_suffix(names[i], suffix)
                    && forall|j: int|
                    0 <= j < i ==> !text::has_suffix(#[trigger] names[j], suffix),
                None => forall|j: int|
                    0 <= j < names.len() ==> !text::has_suffix(#[trigger] names[j], suffix),
            }
        }),
{
    reveal_strlit("win-x64");
    reveal_strlit("mac-x64");
    reveal_strlit("mac-aarch64");
    assert("win-x64"@[0] == 'w' && "mac-x64"@[0] == 'm' && "mac-aarch64"@[0] == 'm');
    assert("mac-x64"@.len() != "mac-aarch64"@.len());
    lemma_first_with_suffix(names, "_x64-setup.exe"@, 0);
    lemma_first_with_suffix(names, "_x64.dmg"@, 0);
    lemma_first_with_suffix(names, "_aarch64.dmg"@, 0);
}

/// A download is complete exactly where something was written and, if it is known how much is
/// to be, just that.
pub proof fn law_complete_downloads_have_all_bytes(written: u64, total: u64)
    ensures
        download_fault(written, total) is None <==> written > 0 && (total == 0 || written == total),
{
}

/// A release is known by its three numbers, with a `v` before them or without.
pub proof fn law_version_is_read(a: u64, b: u64, c: u64)
    ensures
        ({
            let bare = text::decimal(a as nat).push('.') + text::decimal(b as nat).push('.')
                + text::decimal(c as nat);
            &&& version_of(bare) == Some((a, b, c))
            &&& version_of(seq!['v'] + bare) == Some((a, b, c))
        }),
{
    let x = text::decimal(a as nat);
    let y = text::decimal(b as nat);
    let z = text::decimal(c as nat);
    let bare = x.push('.') + y.push('.') + z;
    let marks = seq!['-', '+'];
    let dots = seq!['.'];
    text::law_numbers_are_read_back(a, 0);
    text::law_numbers_are_read_back(b, 0);
    text::law_numbers_are_read_back(c, 0);
    text::lemma_decimal_digits(a as nat);
    text::lemma_decimal_digits(b as nat);
    text::lemma_decimal_digits(c as nat);
    assert forall|i: int| 0 <= i < bare.len() implies !marks.contains(#[trigger] bare[i]) by {
        if i < x.len() {
            assert(bare[i] == x[i]);
        } else if x.len() < i < x.len() + 1 + y.len() {
            assert(bare[i] == y[i - x.len() - 1]);
        } else if i > x.len() + 1 + y.len() {
            assert(bare[i] == z[i - x.len() - y.len() - 2]);
        }
    }
    text::lemma_one_piece(bare, marks);
    assert(text::pieces(bare, marks)[0] == bare);
    assert(dots[0] == '.');
    assert(dots.contains('.'));
    assert forall|i: int| 0 <= i < x.len() implies !dots.contains(#[trigger] x[i]) by {}
    assert forall|i: int| 0 <= i < y.len() implies !dots.contains(#[trigger] y[i]) by {}
    assert forall|i: int| 0 <= i < z.len() implies !dots.contains(#[trigger] z[i]) by {}
    text::lemma_one_piece(x, dots);
    text::lemma_piece_behind(x, '.', y, dots);
    text::lemma_piece_behind(x.push('.') + y, '.', z, dots);
    assert(bare =~= (x.push('.') + y).push('.') + z);
    let segs = text::pieces(bare, dots);
    assert(segs.len() == 3 && segs[0] == x && segs[1] == y && segs[2] == z);
    let v = seq!['v'] + bare;
    assert(bare[0] == x[0]);
    assert(bare.last() == z.last());
    assert(z[z.len() - 1] == z.last());
    assert(v.last() == bare.last());
    text::lemma_trimmed_same(bare);
    text::lemma_trimmed_same(v);
    assert(text::without_v(bare) == bare);
    assert(v.skip(1) =~= bare);
    reveal_with_fuel(text::strip_front, 2);
    assert(text::without_v(v) == bare);
}

/// The latest release is to be asked for.
pub open spec fn is_check_due(u: UpdateView, now: int) -> bool {
    now - u.last_check_ms >= CHECK_EVERY_MS
}

/// Releases are asked for once a day, counted from when one was last learned.
pub proof fn law_releases_are_asked_for_daily(
    u: UpdateView,
    current: Seq<char>,
    fetched: Option<ReleaseView>,
    now: i64,
    later: int,
)
    ensures
        is_check_due(u, later) == (later - u.last_check_ms >= 86_400_000),
        fetched is Some ==> is_check_due(checked(u, current, fetched, now), later) == (later - now
            >= 86_400_000),
        fetched is None ==> is_check_due(checked(u, current, fetched, now), later) == is_check_due(
            u,
            later,
        ),
{
}

/// A newer release replaces the one that was known; one that is not newer changes nothing but the
/// time of the check.
pub proof fn law_newer_release_is_offered(
    u: UpdateView,
    current: Seq<char>,
    rel: ReleaseView,
    now: i64,
)
    ensures
        ({
            let a = checked(u, current, Some(rel), now);
            &&& newer(rel.tag, current) ==> a.latest == Some(rel)
            &&& !newer(rel.tag, current) ==> a.latest == u.latest
            &&& a.downloaded == u.downloaded && a.downloading == u.downloading
                && a.install_when_ready == u.install_when_ready
            &&& !a.checking
        }),
{
}

/// Long notes are cut, and show that they are.
pub proof fn law_long_notes_are_cut(s: Seq<char>, n: nat)
    ensures
        s.len() <= n ==> shortened(s, n) == s,
        s.len() > n ==> shortened(s, n).len() == n + 1 && shortened(s, n).take(n as int) == s.take(
            n as int,
        ) && shortened(s, n).last() == '\u{2026}',
{
    if s.len() > n {
        assert(shortened(s, n).take(n as int) =~= s.take(n as int));
    }
}

/// What is kept once a download was asked for.
pub open spec fn asked_for(u: UpdateView, tag: Seq<char>) -> UpdateView {
    UpdateView {
        downloading: u.downloading || download_step(u, tag) == DownloadStep::Start,
        ..u
    }
}

/// What is kept once a release was downloaded.
pub open spec fn downloaded_as(u: UpdateView, tag: Seq<char>, path: Seq<char>) -> UpdateView {
    UpdateView { downloading: false, downloaded: Some((tag, path)), ..u }
}

/// What is kept once a download has failed.
pub open spec fn not_downloaded(u: UpdateView) -> UpdateView {
    UpdateView { downloading: false, install_when_ready: false, ..u }
}

/// What follows where installing is asked for, and what is kept.
pub open spec fn install_asked(u: UpdateView) -> (InstallStep, UpdateView) {
    let step = if u.latest is None {
        InstallStep::NoUpdate
    } else if u.is_ready() {
        InstallStep::Launch
    } else {
        InstallStep::Download
    };
    (
        step,
        UpdateView { install_when_ready: u.install_when_ready || step == InstallStep::Download, ..u },
    )
}

/// A download that was asked for begins once, and until it is over no other does. Once it is done
/// it is ready, and another can begin; where it has failed, it can begin again, and nothing is
/// installed for it.
pub proof fn law_download_goes_its_way(
    u: UpdateView,
    tag: Seq<char>,
    other: Seq<char>,
    path: Seq<char>,
)
    requires
        !u.downloading,
        !u.has(tag),
        other != tag,
    ensures
        download_step(u, tag) == DownloadStep::Start,
        download_step(asked_for(u, tag), tag) == DownloadStep::Busy,
        !u.has(other) ==> download_step(asked_for(u, tag), other) == DownloadStep::Busy,
        download_step(downloaded_as(asked_for(u, tag), tag, path), tag) == DownloadStep::Ready,
        download_step(downloaded_as(asked_for(u, tag), tag, path), other) == DownloadStep::Start,
        download_step(not_downloaded(asked_for(u, tag)), tag) == DownloadStep::Start,
        !not_downloaded(asked_for(u, tag)).install_when_ready,
{
}

/// Installing is offered for a newer release only. It waits for the download where that is not
/// there, and begins with it; where it is there, it begins at once.
pub proof fn law_install_follows_the_download(u: UpdateView, path: Seq<char>)
    ensures
        u.latest is None ==> install_asked(u).0 == InstallStep::NoUpdate && install_asked(u).1 == u,
        u.latest is Some ==> {
            let tag = u.latest->0.tag;
            let wait = install_asked(u).1;
            let done = downloaded_as(wait, tag, path);
            &&& !u.has(tag) ==> install_asked(u).0 == InstallStep::Download
                && wait.install_when_ready
            &&& u.has(tag) ==> install_asked(u).0 == InstallStep::Launch && wait == u
            &&& !u.has(tag) ==> done.install_when_ready
            &&& install_asked(done).0 == InstallStep::Launch
            &&& done.downloaded == Some((tag, path))
        },
{
}

proof fn lemma_named_is_filter(list: Seq<JsonView>)
    ensures
        named_assets(list) == list.filter(|a: JsonView| a.member_text("name"@) is Some),
    decreases list.len(),
{
    reveal(Seq::filter);
    if list.len() > 0 {
        lemma_named_is_filter(list.drop_last());
    } else {
        assert(list.filter(|a: JsonView| a.member_text("name"@) is Some) =~= list);
    }
}

/// What is offered of a release is its first file that is an installer for the system, under the
/// address that is given for it.
pub proof fn law_release_offers_the_installer(v: JsonView, platform: Seq<char>)
    requires
        platform == "win-x64"@ || platform == "mac-x64"@ || platform == "mac-aarch64"@,
        v.member_list("assets"@) is Some,
    ensures
        ({
            let suffix = if platform == "win-x64"@ {
                "_x64-setup.exe"@
            } else if platform == "mac-x64"@ {
                "_x64.dmg"@
            } else {
                "_aarch64.dmg"@
            };
            let files = v.member_list("assets"@)->0.filter(
                |a: JsonView| a.member_text("name"@) is Some,
            );
            release_of(v, platform) is Some ==> {
                let r = release_of(v, platform)->0;
                &&& text::has_suffix(r.asset_name, suffix)
                &&& exists|i: int|
                    0 <= i < files.len() && (#[trigger] files[i]).member_text("name"@) == Some(
                        r.asset_name,
                    ) && files[i].member_text("browser_download_url"@) == Some(r.asset_url)
                        && files[i].member_unsigned("size"@) == r.asset_size && forall|j: int|
                        0 <= j < i ==> !text::has_suffix(
                            (#[trigger] files[j]).member_text("name"@)->0,
                            suffix,
                        )
                &&& v.member_text("html_url"@) == Some(r.url)
                &&& v.member_text("tag_name"@) is Some && r.tag == text::trimmed(
                    v.member_text("tag_name"@)->0,
                )
            }
        }),
{
    let list = v.member_list("assets"@)->0;
    lemma_named_is_filter(list);
    let files = named_assets(list);
    let names = asset_names(files);
    law_picked_file_is_an_installer(names, platform);
    if release_of(v, platform) is Some {
        let i = picked(names, platform)->0;
        list.lemma_filter_pred(|a: JsonView| a.member_text("name"@) is Some, i);
        assert(names[i] == files[i].member_text("name"@)->0);
        let suffix = if platform == "win-x64"@ {
            "_x64-setup.exe"@
        } else if platform == "mac-x64"@ {
            "_x64.dmg"@
        } else {
            "_aarch64.dmg"@
        };
        assert forall|j: int| 0 <= j < i implies !text::has_suffix(
            (#[trigger] files[j]).member_text("name"@)->0,
            suffix,
        ) by {
            assert(names[j] == files[j].member_text("name"@)->0);
        }
    }
}

} // verus!
