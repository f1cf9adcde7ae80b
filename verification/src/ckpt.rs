//! Snapshots of workspaces: what their state files say, and what has happened between two
//! looks at them.

use vstd::prelude::*;

use crate::figures;
use crate::figures::{CkptStat, CkptView};
use crate::json;
use crate::json::{Json, JsonView};
use crate::order;
use crate::order::{Ordered, Ranked};
use crate::strmap::StrMap;
use crate::text;

verus! {

/// What the state file of a workspace says.
#[derive(Debug, PartialEq, Eq)]
pub struct CkptState {
    /// Name of the workspace.
    pub workspace: String,
    /// Bytes of the latest snapshot.
    pub artifact_bytes: u64,
    /// Manifest of the latest snapshot.
    pub artifact_hash: Option<String>,
    /// Manifest that the server has accepted.
    pub accepted_hash: Option<String>,
    /// A snapshot is being uploaded.
    pub uploading: bool,
    /// When the latest snapshot was recorded.
    pub recorded_at: Option<i64>,
}

/// A [`CkptState`] with texts as their characters.
pub struct StateView {
    pub workspace: Seq<char>,
    pub artifact_bytes: u64,
    pub artifact_hash: Option<Seq<char>>,
    pub accepted_hash: Option<Seq<char>>,
    pub uploading: bool,
    pub recorded_at: Option<i64>,
}

impl View for CkptState {
    type V = StateView;

    open spec fn view(&self) -> StateView {
        StateView {
            workspace: self.workspace@,
            artifact_bytes: self.artifact_bytes,
            artifact_hash: figures::opt_text(self.artifact_hash),
            accepted_hash: figures::opt_text(self.accepted_hash),
            uploading: self.uploading,
            recorded_at: self.recorded_at,
        }
    }
}

impl Clone for CkptState {
    fn clone(&self) -> (r: Self)
        ensures
            r@ == self@,
    {
        CkptState {
            workspace: self.workspace.clone(),
            artifact_bytes: self.artifact_bytes,
            artifact_hash: figures::copy_opt(&self.artifact_hash),
            accepted_hash: figures::copy_opt(&self.accepted_hash),
            uploading: self.uploading,
            recorded_at: self.recorded_at,
        }
    }
}

/// The separators of paths.
pub open spec fn path_seps() -> Seq<char> {
    seq!['\\', '/']
}

/// The last piece that is not empty.
pub open spec fn last_filled(pieces: Seq<Seq<char>>) -> Option<Seq<char>>
    decreases pieces.len(),
{
    if pieces.len() == 0 {
        None
    } else if pieces.last().len() > 0 {
        Some(pieces.last())
    } else {
        last_filled(pieces.drop_last())
    }
}

/// The last name of a path; the path itself if it has none.
pub open spec fn last_name(path: Seq<char>) -> Seq<char> {
    match last_filled(text::pieces(path, path_seps())) {
        Some(s) => s,
        None => path,
    }
}

/// The last name of a path; the path itself if it has none.
pub fn name_of_path(path: &str) -> (r: String)
    ensures
        r@ == last_name(path@),
{
    let cs = text::chars_of(path);
    let mut seps: Vec<char> = Vec::new();
    seps.push('\\');
    seps.push('/');
    assert(seps@ =~= path_seps());
    let ps = text::split(&cs, &seps);
    let ghost pv = text::piece_views(ps@);
    let mut i: usize = ps.len();
    assert(pv.take(pv.len() as int) =~= pv);
    while i > 0
        invariant
            i <= ps@.len(),
            pv == text::piece_views(ps@),
            pv == text::pieces(path@, path_seps()),
            last_filled(pv) == last_filled(pv.take(i as int)),
        decreases i,
    {
        assert(pv.take(i as int).drop_last() =~= pv.take(i - 1));
        if ps[i - 1].len() > 0 {
            return text::string_of(&ps[i - 1]);
        }
        i = i - 1;
    }
    text::string_of(&cs)
}

/// A text that is not empty.
pub open spec fn filled(s: Option<Seq<char>>) -> Option<Seq<char>> {
    match s {
        Some(t) if t.len() > 0 => Some(t),
        _ => None,
    }
}

/// What a state file says; nothing if it does not speak of a snapshot.
pub open spec fn state_of(v: JsonView) -> Option<StateView> {
    match v.member("lastCompressedSize"@) {
        None => None,
        Some(lc) => Some(
            StateView {
                workspace: match v.member_text("workspacePath"@) {
                    Some(p) => last_name(p),
                    None => Seq::empty(),
                },
                artifact_bytes: lc.member_unsigned("encryptedSizeBytes"@),
                artifact_hash: lc.member_text("manifestHash"@),
                accepted_hash: filled(v.member_text("lastAcceptedManifestHash"@)),
                uploading: match v.member("activeUpload"@) {
                    Some(x) => x !is Null,
                    None => false,
                },
                recorded_at: lc.member_signed("recordedAt"@),
            },
        ),
    }
}

fn owned(s: Option<&str>) -> (r: Option<String>)
    ensures
        figures::opt_text(r) == (match s {
            Some(t) => Some(t@),
            None => None,
        }),
{
    match s {
        Some(t) => Some(t.to_owned()),
        None => None,
    }
}

/// What a state file says.
pub fn read_state(j: &Json) -> (r: Option<CkptState>)
    ensures
        match r {
            Some(s) => state_of(j@) == Some(s@),
            None => state_of(j@) is None,
        },
{
    match j.get("lastCompressedSize") {
        None => None,
        Some(lc) => {
            let workspace = match j.get_text("workspacePath") {
                Some(p) => name_of_path(p),
                None => String::new(),
            };
            let accepted_hash = match j.get_text("lastAcceptedManifestHash") {
                Some(s) => {
                    let cs = text::chars_of(s);
                    if cs.len() > 0 {
                        Some(s.to_owned())
                    } else {
                        None
                    }
                },
                None => None,
            };
            let uploading = match j.get("activeUpload") {
                Some(Json::Null) => false,
                Some(_) => true,
                None => false,
            };
            Some(
                CkptState {
                    workspace,
                    artifact_bytes: lc.get_unsigned("encryptedSizeBytes"),
                    artifact_hash: owned(lc.get_text("manifestHash")),
                    accepted_hash,
                    uploading,
                    recorded_at: lc.get_signed("recordedAt"),
                },
            )
        },
    }
}

/// What the text of a state file says.
pub open spec fn state_in_text(s: Seq<char>) -> Option<StateView> {
    match json::parsed(s) {
        Some(v) => state_of(v),
        None => None,
    }
}

/// What the text of a state file says; nothing if it is broken or does not speak of a
/// snapshot.
pub fn parse_ckpt_state(s: &str) -> (r: Option<CkptState>)
    ensures
        match r {
            Some(st) => state_in_text(s@) == Some(st@),
            None => state_in_text(s@) is None,
        },
{
    match json::read(s) {
        Some(j) => read_state(&j),
        None => None,
    }
}

/// What the files of several workspaces say: those that can be understood, with the name of
/// their directory.
pub open spec fn states_in_texts(files: Seq<(String, String)>) -> Seq<(Seq<char>, StateView)>
    decreases files.len(),
{
    if files.len() == 0 {
        Seq::empty()
    } else {
        let front = states_in_texts(files.drop_last());
        match state_in_text(files.last().1@) {
            Some(s) => front.push((files.last().0@, s)),
            None => front,
        }
    }
}

/// Observations without their representation.
pub open spec fn obs_view(obs: Seq<(String, CkptState)>) -> Seq<(Seq<char>, StateView)> {
    obs.map_values(|o: (String, CkptState)| (o.0@, o.1@))
}

/// Reads the state files of several workspaces, each given by the name of its directory and
/// its text.
pub fn scan_ckpt_states(files: &[(String, String)]) -> (r: Vec<(String, CkptState)>)
    ensures
        obs_view(r@) == states_in_texts(files@),
{
    let mut out: Vec<(String, CkptState)> = Vec::new();
    assert(obs_view(out@) =~= states_in_texts(files@.take(0))) by {
        assert(files@.take(0) =~= Seq::empty());
    }
    for i in 0..files.len()
        invariant
            obs_view(out@) == states_in_texts(files@.take(i as int)),
    {
        assert(files@.take(i + 1).drop_last() =~= files@.take(i as int));
        let ghost before = obs_view(out@);
        match parse_ckpt_state(files[i].1.as_str()) {
            Some(st) => {
                let ghost sv = st@;
                out.push((files[i].0.clone(), st));
                assert(obs_view(out@) =~= before.push((files@[i as int].0@, sv)));
            },
            None => {},
        }
    }
    assert(files@.take(files@.len() as int) =~= files@);
    out
}

/// What can happen to a snapshot.
#[derive(Clone, Copy, Debug, PartialEq, Eq, Structural)]
pub enum CkptKind {
    /// The server has accepted it.
    Accepted,
    /// Its upload has begun.
    UploadStart,
    /// Its upload has ended, one way or the other.
    UploadEnd,
}

/// Something that happened between two looks.
#[derive(Debug, PartialEq, Eq)]
pub struct CkptEvent {
    /// What happened.
    pub kind: CkptKind,
    /// In which workspace.
    pub workspace: String,
    /// Bytes of the snapshot; zero at the end of an upload.
    pub bytes: u64,
    /// When an accepted snapshot was recorded; else zero.
    pub recorded_ms: i64,
}

/// A [`CkptEvent`] with texts as their characters.
pub struct EventView {
    pub kind: CkptKind,
    pub workspace: Seq<char>,
    pub bytes: u64,
    pub recorded_ms: i64,
}

impl View for CkptEvent {
    type V = EventView;

    open spec fn view(&self) -> EventView {
        EventView {
            kind: self.kind,
            workspace: self.workspace@,
            bytes: self.bytes,
            recorded_ms: self.recorded_ms,
        }
    }
}

/// Events without their representation.
pub open spec fn events_view(events: Seq<CkptEvent>) -> Seq<EventView> {
    events.map_values(|e: CkptEvent| e@)
}

/// The table of states without its representation.
pub open spec fn table(m: Map<Seq<char>, CkptState>) -> Map<Seq<char>, StateView> {
    m.map_values(|s: CkptState| s@)
}

/// The server has accepted a snapshot, and that was recorded not before today.
pub open spec fn accepted_today(s: StateView, day_start: i64) -> bool {
    &&& s.accepted_hash is Some
    &&& match s.recorded_at {
        Some(t) => t >= day_start,
        None => true,
    }
}

/// The event of an accepted snapshot.
pub open spec fn acceptance(s: StateView) -> EventView {
    EventView {
        kind: CkptKind::Accepted,
        workspace: s.workspace,
        bytes: s.artifact_bytes,
        recorded_ms: match s.recorded_at {
            Some(t) => t,
            None => 0,
        },
    }
}

/// What happened to a workspace between two looks. Of a workspace seen for the first time
/// only an acceptance of today counts, and only if first sights count.
pub open spec fn events_between(
    old: Option<StateView>,
    new: StateView,
    day_start: i64,
    count_first: bool,
) -> Seq<EventView> {
    match old {
        None => if count_first && accepted_today(new, day_start) {
            seq![acceptance(new)]
        } else {
            Seq::empty()
        },
        Some(o) => {
            let first: Seq<EventView> = if o.accepted_hash != new.accepted_hash && accepted_today(
                new,
                day_start,
            ) {
                seq![acceptance(new)]
            } else {
                Seq::empty()
            };
            if !o.uploading && new.uploading {
                first.push(
                    EventView {
                        kind: CkptKind::UploadStart,
                        workspace: new.workspace,
                        bytes: new.artifact_bytes,
                        recorded_ms: 0,
                    },
                )
            } else if o.uploading && !new.uploading {
                first.push(
                    EventView {
                        kind: CkptKind::UploadEnd,
                        workspace: new.workspace,
                        bytes: 0,
                        recorded_ms: 0,
                    },
                )
            } else {
                first
            }
        },
    }
}

/// The state of a workspace in a table.
pub open spec fn state_at(m: Map<Seq<char>, StateView>, key: Seq<char>) -> Option<StateView> {
    if m.contains_key(key) {
        Some(m[key])
    } else {
        None
    }
}

/// The table and the events after a look.
pub open spec fn after_look(
    m: Map<Seq<char>, StateView>,
    obs: Seq<(Seq<char>, StateView)>,
    day_start: i64,
    count_first: bool,
) -> (Map<Seq<char>, StateView>, Seq<EventView>)
    decreases obs.len(),
{
    if obs.len() == 0 {
        (m, Seq::empty())
    } else {
        let (table, events) = after_look(m, obs.drop_last(), day_start, count_first);
        let (key, new) = obs.last();
        (
            table.insert(key, new),
            events + events_between(state_at(table, key), new, day_start, count_first),
        )
    }
}

fn same_opt(a: &Option<String>, b: &Option<String>) -> (r: bool)
    ensures
        r == (figures::opt_text(*a) == figures::opt_text(*b)),
{
    match (a, b) {
        (Some(x), Some(y)) => text::same(x.as_str(), y.as_str()),
        (None, None) => true,
        _ => false,
    }
}

fn is_accepted_today(s: &CkptState, day_start_ms: i64) -> (r: bool)
    ensures
        r == accepted_today(s@, day_start_ms),
{
    s.accepted_hash.is_some() && match s.recorded_at {
        Some(t) => t >= day_start_ms,
        None => true,
    }
}

fn accepted_event(s: &CkptState) -> (r: CkptEvent)
    ensures
        r@ == acceptance(s@),
{
    CkptEvent {
        kind: CkptKind::Accepted,
        workspace: s.workspace.clone(),
        bytes: s.artifact_bytes,
        recorded_ms: match s.recorded_at {
            Some(t) => t,
            None => 0,
        },
    }
}

fn compare_states(
    old: Option<&CkptState>,
    new: &CkptState,
    day_start_ms: i64,
    count: bool,
) -> (r: Vec<CkptEvent>)
    ensures
        events_view(r@) == events_between(
            match old {
                Some(o) => Some(o@),
                None => None,
            },
            new@,
            day_start_ms,
            count,
        ),
{
    let mut events: Vec<CkptEvent> = Vec::new();
    let today = is_accepted_today(new, day_start_ms);
    match old {
        None => {
            if count && today {
                events.push(accepted_event(new));
                assert(events_view(events@) =~= seq![acceptance(new@)]);
            } else {
                assert(events_view(events@) =~= Seq::empty());
            }
        },
        Some(o) => {
            if !same_opt(&o.accepted_hash, &new.accepted_hash) && today {
                events.push(accepted_event(new));
                assert(events_view(events@) =~= seq![acceptance(new@)]);
            } else {
                assert(events_view(events@) =~= Seq::empty());
            }
            let ghost first = events_view(events@);
            if !o.uploading && new.uploading {
                let e = CkptEvent {
                    kind: CkptKind::UploadStart,
                    workspace: new.workspace.clone(),
                    bytes: new.artifact_bytes,
                    recorded_ms: 0,
                };
                let ghost ev = e@;
                events.push(e);
                assert(events_view(events@) =~= first.push(ev));
            } else if o.uploading && !new.uploading {
                let e = CkptEvent {
                    kind: CkptKind::UploadEnd,
                    workspace: new.workspace.clone(),
                    bytes: 0,
                    recorded_ms: 0,
                };
                let ghost ev = e@;
                events.push(e);
                assert(events_view(events@) =~= first.push(ev));
            }
        },
    }
    events
}

/// Takes a look: brings the table up to date, and gives what has happened since the last
/// look.
pub fn apply_ckpt_obs(
    states: &mut StrMap<CkptState>,
    obs: &[(String, CkptState)],
    day_start_ms: i64,
    count: bool,
) -> (r: Vec<CkptEvent>)
    requires
        old(states).wf(),
    ensures
        final(states).wf(),
        (table(final(states)@), events_view(r@)) == after_look(
            table(old(states)@),
            obs_view(obs@),
            day_start_ms,
            count,
        ),
{
    let mut events: Vec<CkptEvent> = Vec::new();
    let ghost ov = obs_view(obs@);
    let ghost t0 = table(states@);
    proof {
        assert(ov.take(0) =~= Seq::empty());
        assert(events_view(events@) =~= Seq::empty());
    }
    for i in 0..obs.len()
        invariant
            states.wf(),
            ov == obs_view(obs@),
            (table(states@), events_view(events@)) == after_look(
                t0,
                ov.take(i as int),
                day_start_ms,
                count,
            ),
    {
        let ghost e0 = events_view(events@);
        let ghost m0 = table(states@);
        assert(ov.take(i + 1).drop_last() =~= ov.take(i as int));
        let new: &CkptState = &obs[i].1;
        let mut fresh = match states.get(obs[i].0.as_str()) {
            Some(o) => compare_states(Some(o), new, day_start_ms, count),
            None => compare_states(None, new, day_start_ms, count),
        };
        let ghost fv = events_view(fresh@);
        assert(fv == events_between(state_at(m0, ov[i as int].0), new@, day_start_ms, count));
        events.append(&mut fresh);
        assert(events_view(events@) =~= e0 + fv);
        states.insert(obs[i].0.clone(), new.clone());
        assert(table(states@) =~= m0.insert(ov[i as int].0, ov[i as int].1));
    }
    assert(ov.take(ov.len() as int) =~= ov);
    events
}

/// Uploads first, then what waits to be accepted, then what is accepted; of each the latest
/// first.
pub open spec fn row_before(a: CkptView, b: CkptView) -> bool {
    if a.uploading != b.uploading {
        a.uploading
    } else if !a.uploading && a.accepted != b.accepted {
        b.accepted
    } else {
        a.recorded_ms > b.recorded_ms
    }
}

impl Ordered for CkptStat {
    open spec fn before(self, other: Self) -> bool {
        row_before(self@, other@)
    }

    proof fn strict_weak(a: Self, b: Self, c: Self) {
    }
}

impl Ranked for CkptStat {
    fn is_before(&self, other: &Self) -> (r: bool) {
        if self.uploading != other.uploading {
            self.uploading
        } else if !self.uploading && self.accepted != other.accepted {
            other.accepted
        } else {
            self.recorded_ms > other.recorded_ms
        }
    }
}

impl Ordered for CkptView {
    open spec fn before(self, other: Self) -> bool {
        row_before(self, other)
    }

    proof fn strict_weak(a: Self, b: Self, c: Self) {
    }
}

/// The row of a workspace.
pub open spec fn row_of(key: Seq<char>, s: StateView) -> CkptView {
    CkptView {
        workspace: if s.workspace.len() == 0 {
            "?"@
        } else {
            s.workspace
        },
        bytes: s.artifact_bytes,
        recorded_ms: match s.recorded_at {
            Some(t) => t,
            None => 0,
        },
        accepted: s.accepted_hash is Some,
        uploading: s.uploading,
        hash: Some(key),
    }
}

/// The rows of a table, in the order of its entries.
pub open spec fn rows_of(entries: Seq<(String, CkptState)>) -> Seq<CkptView> {
    entries.map_values(|e: (String, CkptState)| row_of(e.0@, e.1@))
}

/// A name, or a question mark where it is empty.
pub fn or_question_mark(s: &String) -> (r: String)
    ensures
        r@ == (if s@.len() == 0 {
            "?"@
        } else {
            s@
        }),
{
    let cs = text::chars_of(s.as_str());
    if cs.len() == 0 {
        "?".to_owned()
    } else {
        s.clone()
    }
}

/// A row for every workspace: uploads first, then what waits to be accepted, then what is
/// accepted; of each the latest first.
pub fn ckpt_rows(states: &StrMap<CkptState>) -> (r: Vec<CkptStat>)
    ensures
        figures::ckpts_view(r@) == order::ranked(rows_of(states.entries@)),
{
    let mut rows: Vec<CkptStat> = Vec::new();
    let ghost goal = rows_of(states.entries@);
    for i in 0..states.entries.len()
        invariant
            goal == rows_of(states.entries@),
            figures::ckpts_view(rows@) == goal.take(i as int),
    {
        let ghost before = figures::ckpts_view(rows@);
        let s: &CkptState = &states.entries[i].1;
        let row = CkptStat {
            workspace: or_question_mark(&s.workspace),
            bytes: s.artifact_bytes,
            recorded_ms: match s.recorded_at {
                Some(t) => t,
                None => 0,
            },
            accepted: s.accepted_hash.is_some(),
            uploading: s.uploading,
            hash: Some(states.entries[i].0.clone()),
        };
        let ghost rv = row@;
        rows.push(row);
        assert(figures::ckpts_view(rows@) =~= before.push(rv));
        assert(goal.take(i + 1) =~= goal.take(i as int).push(goal[i as int]));
    }
    assert(goal.take(goal.len() as int) =~= goal);
    proof {
        order::lemma_ranked_map(rows@, |c: CkptStat| c@);
    }
    order::sort(rows)
}

/// Some workspace of the table is uploading.
pub open spec fn any_uploading(entries: Seq<(String, CkptState)>) -> bool {
    exists|i: int| 0 <= i < entries.len() && (#[trigger] entries[i]).1.uploading
}

/// Whether some workspace is uploading.
pub fn is_any_uploading(states: &StrMap<CkptState>) -> (r: bool)
    ensures
        r == any_uploading(states.entries@),
{
    for i in 0..states.entries.len()
        invariant
            forall|k: int| 0 <= k < i ==> !(#[trigger] states.entries@[k]).1.uploading,
    {
        if states.entries[i].1.uploading {
            assert(states.entries@[i as int].1.uploading);
            return true;
        }
    }
    false
}

/// Looking again without any change tells nothing new, whatever day it is.
pub proof fn law_second_look_is_silent(
    m: Map<Seq<char>, StateView>,
    obs: Seq<(Seq<char>, StateView)>,
    day_start: i64,
    count_first: bool,
)
    requires
        forall|i: int|
            0 <= i < obs.len() ==> m.contains_key((#[trigger] obs[i]).0) && m[obs[i].0] == obs[i].1,
    ensures
        after_look(m, obs, day_start, count_first).0 == m,
        after_look(m, obs, day_start, count_first).1 == Seq::<EventView>::empty(),
    decreases obs.len(),
{
    if obs.len() > 0 {
        let d = obs.drop_last();
        assert forall|i: int| 0 <= i < d.len() implies m.contains_key((#[trigger] d[i]).0)
            && m[d[i].0] == d[i].1 by {
            assert(obs[i] == d[i]);
        }
        law_second_look_is_silent(m, d, day_start, count_first);
        assert(obs[obs.len() - 1] == obs.last());
        assert(m.insert(obs.last().0, obs.last().1) =~= m);
        assert(events_between(Some(obs.last().1), obs.last().1, day_start, count_first)
            =~= Seq::<EventView>::empty());
    }
}

/// A snapshot counts on the day on which it was recorded: none that was recorded before
/// today is ever counted as accepted.
pub proof fn law_older_acceptance_never_counts(
    old: Option<StateView>,
    new: StateView,
    day_start: i64,
    count_first: bool,
    i: int,
)
    requires
        new.recorded_at matches Some(t) && t < day_start,
        0 <= i < events_between(old, new, day_start, count_first).len(),
    ensures
        events_between(old, new, day_start, count_first)[i].kind != CkptKind::Accepted,
{
}

/// A workspace that is seen for the first time after the start of the day brings nothing in
/// unless first sights count.
pub proof fn law_first_sight_is_a_baseline(new: StateView, day_start: i64)
    ensures
        events_between(None, new, day_start, false) == Seq::<EventView>::empty(),
{
}

/// A snapshot that was accepted since the last look is told once, with its workspace and its
/// size, if it was not recorded before today; so is the first sight of one, where first sights
/// count.
pub proof fn law_new_acceptance_is_told(
    old: Option<StateView>,
    new: StateView,
    day_start: i64,
    count_first: bool,
)
    requires
        new.accepted_hash is Some,
        new.recorded_at is None || new.recorded_at->0 >= day_start,
        match old {
            Some(o) => o.accepted_hash != new.accepted_hash,
            None => count_first,
        },
    ensures
        ({
            let events = events_between(old, new, day_start, count_first);
            &&& events.len() > 0
            &&& events[0].kind == CkptKind::Accepted
            &&& events[0].workspace == new.workspace
            &&& events[0].bytes == new.artifact_bytes
            &&& new.recorded_at matches Some(t) ==> events[0].recorded_ms == t
            &&& forall|i: int| 0 < i < events.len() ==> (#[trigger] events[i]).kind
                != CkptKind::Accepted
        }),
{
}

/// An upload that began or ended since the last look is told, and no other is; an acceptance is
/// told only where what is accepted has changed.
pub proof fn law_uploads_are_told(o: StateView, new: StateView, day_start: i64, count_first: bool)
    ensures
        ({
            let events = events_between(Some(o), new, day_start, count_first);
            &&& !o.uploading && new.uploading ==> events.len() > 0 && events.last().kind
                == CkptKind::UploadStart && events.last().workspace == new.workspace
                && events.last().bytes == new.artifact_bytes
            &&& o.uploading && !new.uploading ==> events.len() > 0 && events.last().kind
                == CkptKind::UploadEnd && events.last().workspace == new.workspace
            &&& o.uploading == new.uploading ==> forall|i: int|
                0 <= i < events.len() ==> (#[trigger] events[i]).kind == CkptKind::Accepted
            &&& o.accepted_hash == new.accepted_hash ==> forall|i: int|
                0 <= i < events.len() ==> (#[trigger] events[i]).kind != CkptKind::Accepted
        }),
{
}

/// The list of snapshots shows what is being uploaded first, then what waits, then what is
/// accepted, and of each the latest first; every workspace stands in it.
pub proof fn law_snapshots_are_listed_by_state(entries: Seq<(String, CkptState)>, i: int, j: int)
    requires
        0 <= i < j < order::ranked(rows_of(entries)).len(),
    ensures
        ({
            let r = order::ranked(rows_of(entries));
            &&& r.len() == entries.len()
            &&& r[j].uploading ==> r[i].uploading
            &&& !r[i].uploading && r[i].accepted ==> r[j].accepted
            &&& r[i].uploading && r[j].uploading ==> r[i].recorded_ms >= r[j].recorded_ms
            &&& !r[i].uploading && !r[j].uploading && r[i].accepted == r[j].accepted
                ==> r[i].recorded_ms >= r[j].recorded_ms
        }),
{
    let r = order::ranked(rows_of(entries));
    order::law_ranked_is_sorted_permutation(rows_of(entries));
    assert(!r[j].before(r[i]));
}

/// The name of a path is what stands behind its last separator, with a separator behind it or not.
pub proof fn law_name_is_the_last_part(dir: Seq<char>, sep: char, name: Seq<char>)
    requires
        sep == '/' || sep == '\\',
        name.len() > 0,
        forall|i: int| 0 <= i < name.len() ==> #[trigger] name[i] != '/' && name[i] != '\\',
    ensures
        last_name(dir.push(sep) + name) == name,
        last_name((dir.push(sep) + name).push(sep)) == name,
        last_name(name) == name,
{
    let seps = path_seps();
    assert(seps[0] == '\\' && seps[1] == '/');
    assert(seps.contains(sep));
    assert forall|i: int| 0 <= i < name.len() implies !seps.contains(#[trigger] name[i]) by {}
    text::lemma_piece_behind(dir, sep, name, seps);
    let path = dir.push(sep) + name;
    let one = text::pieces(path, seps);
    assert(one.last() == name);
    text::lemma_piece_behind(path, sep, Seq::empty(), seps);
    assert(path.push(sep) + Seq::<char>::empty() =~= path.push(sep));
    let two = text::pieces(path.push(sep), seps);
    assert(two.drop_last() =~= one);
    assert(two.last().len() == 0);
    reveal_with_fuel(last_filled, 2);
    text::lemma_one_piece(name, seps);
    assert(seq![name].last() == name);
}

/// Of each workspace the state is kept in which it was last found; what was not looked at stays.
pub proof fn law_last_state_is_kept(
    m: Map<Seq<char>, StateView>,
    obs: Seq<(Seq<char>, StateView)>,
    day_start: i64,
    count_first: bool,
    key: Seq<char>,
)
    ensures
        ({
            let after = after_look(m, obs, day_start, count_first).0;
            &&& (forall|i: int| 0 <= i < obs.len() ==> (#[trigger] obs[i]).0 != key) ==> (
            after.contains_key(key) <==> m.contains_key(key)) && (m.contains_key(key) ==> after[key]
                == m[key])
            &&& forall|i: int|
                0 <= i < obs.len() && (#[trigger] obs[i]).0 == key && (forall|j: int|
                    i < j < obs.len() ==> (#[trigger] obs[j]).0 != key) ==> after.contains_key(key)
                    && after[key] == obs[i].1
        }),
    decreases obs.len(),
{
    if obs.len() > 0 {
        let d = obs.drop_last();
        law_last_state_is_kept(m, d, day_start, count_first, key);
        let after = after_look(m, obs, day_start, count_first).0;
        let n = obs.len() - 1;
        assert(obs[n] == obs.last());
        if forall|i: int| 0 <= i < obs.len() ==> (#[trigger] obs[i]).0 != key {
            assert(forall|i: int| 0 <= i < d.len() ==> (#[trigger] d[i]).0 == obs[i].0);
        }
        assert forall|i: int|
            0 <= i < obs.len() && (#[trigger] obs[i]).0 == key && (forall|j: int|
                i < j < obs.len() ==> (#[trigger] obs[j]).0 != key) implies after.contains_key(key)
            && after[key] == obs[i].1 by {
            if i < n {
                assert(obs[n].0 != key);
                assert(d[i].0 == key);
                assert forall|j: int| i < j < d.len() implies (#[trigger] d[j]).0 != key by {
                    assert(obs[j].0 != key);
                }
            }
        }
    }
}

/// What happens in one look after another is told in that order.
pub proof fn law_looks_tell_in_order(
    m: Map<Seq<char>, StateView>,
    obs: Seq<(Seq<char>, StateView)>,
    more: Seq<(Seq<char>, StateView)>,
    day_start: i64,
    count_first: bool,
)
    ensures
        ({
            let one = after_look(m, obs, day_start, count_first);
            let two = after_look(one.0, more, day_start, count_first);
            after_look(m, obs + more, day_start, count_first) == (two.0, one.1 + two.1)
        }),
    decreases more.len(),
{
    let one = after_look(m, obs, day_start, count_first);
    if more.len() > 0 {
        law_looks_tell_in_order(m, obs, more.drop_last(), day_start, count_first);
        assert((obs + more).drop_last() =~= obs + more.drop_last());
        let front = after_look(one.0, more.drop_last(), day_start, count_first);
        let e = events_between(
            state_at(front.0, more.last().0),
            more.last().1,
            day_start,
            count_first,
        );
        assert(one.1 + front.1 + e =~= one.1 + (front.1 + e));
    } else {
        assert(obs + more =~= obs);
        assert(one.1 + Seq::<EventView>::empty() =~= one.1);
    }
}

} // verus!
