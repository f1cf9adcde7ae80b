//! Network traffic: of the machine, of today, and of the application.

use std::collections::{HashMap, VecDeque};

use vstd::prelude::*;

use crate::calibration;
use crate::ckpt;
use crate::ckpt::{CkptEvent, CkptKind, CkptState, EventView, StateView};
use crate::clock;
use crate::figures;
use crate::figures::{CkptStat, CkptView, ConnStat, ConnView};
use crate::json;
use crate::json::{Json, JsonView};
use crate::order;
use crate::rate;
use crate::rate::Rate;
use crate::stream;
use crate::strmap;
use crate::strmap::StrMap;
use crate::tables;
use crate::tables::{Conn, Iface};
use crate::text;

verus! {

broadcast use vstd::std_specs::hash::group_hash_axioms;

/// The span over which traffic is averaged.
pub const NET_WINDOW_MS: i64 = 1_000;

/// How many samples of traffic are kept.
pub const NET_RING_CAP: usize = 400;

/// How often the processes of the application are listed, the snapshots looked at, and the
/// totals saved.
pub const PROC_REFRESH_MS: u64 = 5_000;

pub const CKPT_SCAN_MS: u64 = 2_000;

pub const NET_SAVE_MS: u64 = 30_000;

/// How many of the snapshots accepted today are listed.
pub const UPLOADS_CAP: usize = 100;

/// Estimated bytes of a request per token of the prompt that is not cached.
pub const SESS_UP_BPT: u64 = 5;

/// Estimated bytes of an answer per token.
pub const SESS_DOWN_BPT: u64 = 400;

/// An increment of a counter that is at least this is none.
pub const MAX_INCREMENT: u64 = 0x8000_0000;

/// The estimated bytes of requests and of answers, by tokens of the prompt that were not
/// cached and by tokens of the answer.
pub fn sess_bytes_est(uncached_input_tokens: u64, output_tokens: u64) -> (r: (u64, u64))
    ensures
        r.0 == rate::clip(uncached_input_tokens * SESS_UP_BPT),
        r.1 == rate::clip(output_tokens * SESS_DOWN_BPT),
{
    (
        rate::clipped(uncached_input_tokens as u128 * 5),
        rate::clipped(output_tokens as u128 * 400),
    )
}

/// How far a counter has moved on: modulo `wrap` where it wraps around, and not at all where
/// it was set back or moved so far that it must have been replaced.
pub open spec fn increment(new: u64, old: u64, wrap: u64) -> u64 {
    let d = if wrap > 0 {
        (new - old) % (wrap as int)
    } else {
        stream::grown(old, new) as int
    };
    if d >= MAX_INCREMENT {
        0
    } else {
        d as u64
    }
}

/// How far a counter has moved on.
pub fn wrap_delta(new: u64, old: u64, wrap: u64) -> (r: u64)
    ensures
        r == increment(new, old, wrap),
{
    let d: u64 = if wrap > 0 {
        if new >= old {
            (new - old) % wrap
        } else {
            let m: u64 = (old - new) % wrap;
            proof {
                let a = old - new;
                let w = wrap as int;
                let q = a / w;
                vstd::arithmetic::div_mod::lemma_fundamental_div_mod(a, w);
                if m == 0 {
                    assert(-a == (-q) * w) by (nonlinear_arith)
                        requires
                            a == w * q,
                    ;
                    vstd::arithmetic::div_mod::lemma_fundamental_div_mod_converse(-a, w, -q, 0);
                } else {
                    assert(-a == (-q - 1) * w + (w - m)) by (nonlinear_arith)
                        requires
                            a == w * q + m,
                    ;
                    vstd::arithmetic::div_mod::lemma_fundamental_div_mod_converse(
                        -a,
                        w,
                        -q - 1,
                        w - m,
                    );
                }
            }
            if m == 0 {
                0
            } else {
                wrap - m
            }
        }
    } else if new >= old {
        new - old
    } else {
        0
    };
    if d >= MAX_INCREMENT {
        0
    } else {
        d
    }
}

/// Something that happened, for the log.
#[derive(Debug)]
pub struct NetEvent {
    /// What happened.
    pub kind: CkptKind,
    /// In which workspace.
    pub workspace: String,
    /// Tenths of a megabyte.
    pub tenths_mb: u64,
    /// It was found on the first look of the day.
    pub backfill: bool,
}

/// A [`NetEvent`] with texts as their characters.
pub struct NetEventView {
    pub kind: CkptKind,
    pub workspace: Seq<char>,
    pub tenths_mb: u64,
    pub backfill: bool,
}

impl View for NetEvent {
    type V = NetEventView;

    open spec fn view(&self) -> NetEventView {
        NetEventView {
            kind: self.kind,
            workspace: self.workspace@,
            tenths_mb: self.tenths_mb,
            backfill: self.backfill,
        }
    }
}

/// Bytes in tenths of a megabyte, rounded to the nearest.
pub open spec fn tenths_of_mb(bytes: u64) -> u64 {
    ((bytes * 20 + 0x10_0000) / 0x20_0000) as u64
}

fn to_tenths_mb(bytes: u64) -> (r: u64)
    ensures
        r == tenths_of_mb(bytes),
{
    ((bytes as u128 * 20 + 0x10_0000) / 0x20_0000) as u64
}

/// A name, or a question mark where it is empty.
pub open spec fn named(s: Seq<char>) -> Seq<char> {
    if s.len() == 0 {
        "?"@
    } else {
        s
    }
}

/// The traffic of the network as it is kept.
pub struct NetIo {
    /// When, and the bytes sent and received until then.
    pub ring: VecDeque<(i64, u64, u64)>,
    /// The latest counters of each interface.
    pub ifaces: StrMap<(u64, u64)>,
    /// Bytes sent since the start.
    pub acc_up: u64,
    /// Bytes received since the start.
    pub acc_down: u64,
    /// Today.
    pub today_ymd: (i32, u32, u32),
    /// Bytes sent today.
    pub up_today: u64,
    /// Bytes received today.
    pub down_today: u64,
    /// Bytes of the snapshots that were accepted today.
    pub ckpt_today_bytes: u64,
    /// Number of the snapshots that were accepted today.
    pub ckpt_today_count: u32,
    /// The snapshots that were accepted today.
    pub today_uploads: Vec<CkptStat>,
    /// The session processes, with their kind.
    pub cli_pids: HashMap<u32, String>,
    /// The other processes of the application, with their kind.
    pub app_pids: HashMap<u32, String>,
    /// When processes were last listed.
    pub proc_refresh: Option<u64>,
    /// When snapshots were last looked at.
    pub ckpt_scan: Option<u64>,
    /// The state of each workspace.
    pub ckpt_states: StrMap<CkptState>,
    /// Whether the directory of the snapshots can be read.
    pub ckpt_status: String,
    /// A snapshot is being uploaded.
    pub ckpt_uploading: bool,
    /// When the totals were last saved.
    pub last_save: Option<u64>,
    /// The totals have changed since.
    pub dirty: bool,
    /// What happened, for the log.
    pub pending_events: VecDeque<NetEvent>,
}

/// The totals of a day.
#[verifier::ext_equal]
pub struct DayTotals {
    pub up: u64,
    pub down: u64,
    pub ckpt_bytes: u64,
    pub ckpt_count: u32,
    pub uploads: Seq<CkptView>,
}

/// No traffic yet.
pub open spec fn no_totals() -> DayTotals {
    DayTotals { up: 0, down: 0, ckpt_bytes: 0, ckpt_count: 0, uploads: Seq::empty() }
}

/// What a snapshot that was accepted today is listed as.
pub open spec fn upload_row(e: EventView) -> CkptView {
    CkptView {
        workspace: e.workspace,
        bytes: e.bytes,
        recorded_ms: e.recorded_ms,
        accepted: true,
        uploading: false,
        hash: None,
    }
}

/// The totals after something happened to a snapshot: an accepted one counts.
pub open spec fn with_event(t: DayTotals, e: EventView) -> DayTotals {
    if e.kind == CkptKind::Accepted {
        DayTotals {
            ckpt_bytes: rate::clip(t.ckpt_bytes + e.bytes),
            ckpt_count: if t.ckpt_count < u32::MAX {
                (t.ckpt_count + 1) as u32
            } else {
                t.ckpt_count
            },
            uploads: calibration::newest(t.uploads.push(upload_row(e)), UPLOADS_CAP as nat),
            ..t
        }
    } else {
        t
    }
}

/// The totals after several things happened.
pub open spec fn with_events(t: DayTotals, events: Seq<EventView>) -> DayTotals
    decreases events.len(),
{
    if events.len() == 0 {
        t
    } else {
        with_event(with_events(t, events.drop_last()), events.last())
    }
}

/// An accepted snapshot is among the events.
pub open spec fn any_accepted(events: Seq<EventView>) -> bool {
    exists|i: int| 0 <= i < events.len() && (#[trigger] events[i]).kind == CkptKind::Accepted
}

/// The events as they are logged.
pub open spec fn log_of(events: Seq<EventView>, backfill: bool) -> Seq<NetEventView> {
    events.map_values(
        |e: EventView|
            NetEventView {
                kind: e.kind,
                workspace: named(e.workspace),
                tenths_mb: tenths_of_mb(e.bytes),
                backfill,
            },
    )
}

/// The log without its representation.
pub open spec fn log_view(log: Seq<NetEvent>) -> Seq<NetEventView> {
    log.map_values(|e: NetEvent| e@)
}

/// What the interfaces have sent since their latest counters. One that was not known yet
/// tells nothing.
pub open spec fn sent_since(rows: Seq<Iface>, known: Map<Seq<char>, (u64, u64)>, wrap: u64) -> int
    decreases rows.len(),
{
    if rows.len() == 0 {
        0
    } else {
        let r = rows.last();
        sent_since(rows.drop_last(), known, wrap) + (if known.contains_key(r.0) {
            increment(r.1, known[r.0].0, wrap) as int
        } else {
            0
        })
    }
}

/// What the interfaces have received since their latest counters.
pub open spec fn received_since(
    rows: Seq<Iface>,
    known: Map<Seq<char>, (u64, u64)>,
    wrap: u64,
) -> int
    decreases rows.len(),
{
    if rows.len() == 0 {
        0
    } else {
        let r = rows.last();
        received_since(rows.drop_last(), known, wrap) + (if known.contains_key(r.0) {
            increment(r.2, known[r.0].1, wrap) as int
        } else {
            0
        })
    }
}

/// The counters of the interfaces.
pub open spec fn counters_of(rows: Seq<Iface>) -> Map<Seq<char>, (u64, u64)>
    decreases rows.len(),
{
    if rows.len() == 0 {
        Map::empty()
    } else {
        counters_of(rows.drop_last()).insert(rows.last().0, (rows.last().1, rows.last().2))
    }
}

/// The first sample from a time on.
pub open spec fn first_from(ring: Seq<(i64, u64, u64)>, from: int) -> Option<(i64, u64, u64)>
    decreases ring.len(),
{
    if ring.len() == 0 {
        None
    } else if ring[0].0 >= from {
        Some(ring[0])
    } else {
        first_from(ring.skip(1), from)
    }
}

/// The rates of sending and receiving over the span before now.
pub open spec fn speeds_of(ring: Seq<(i64, u64, u64)>, now: i64) -> (Rate, Rate) {
    if ring.len() == 0 || ring.last().0 <= ring[0].0 {
        (Rate::none(), Rate::none())
    } else {
        let z = ring.last();
        let a = match first_from(ring, now - NET_WINDOW_MS) {
            Some(s) => s,
            None => (ring[0].0, z.1, z.2),
        };
        let ms = rate::clip(stream::most(z.0 - a.0, 1));
        (
            Rate { tokens: stream::grown(a.1, z.1) as u64, ms },
            Rate { tokens: stream::grown(a.2, z.2) as u64, ms },
        )
    }
}

/// Everything that is kept, without its representation.
#[verifier::ext_equal]
pub struct NetModel {
    pub ring: Seq<(i64, u64, u64)>,
    pub ifaces: Map<Seq<char>, (u64, u64)>,
    pub acc_up: u64,
    pub acc_down: u64,
    pub ymd: (i32, u32, u32),
    pub totals: DayTotals,
    pub cli: Map<u32, Seq<char>>,
    pub app: Map<u32, Seq<char>>,
    pub proc_refresh: Option<u64>,
    pub ckpt_scan: Option<u64>,
    pub states: Map<Seq<char>, StateView>,
    pub status: Seq<char>,
    pub uploading: bool,
    pub last_save: Option<u64>,
    pub dirty: bool,
    pub log: Seq<NetEventView>,
}

/// The kinds of processes, without their representation.
pub open spec fn labels(m: Map<u32, String>) -> Map<u32, Seq<char>> {
    m.map_values(|s: String| s@)
}

/// The kinds of processes of a list; the last entry of a process counts.
pub open spec fn label_map(list: Seq<(u32, String)>) -> Map<u32, Seq<char>>
    decreases list.len(),
{
    if list.len() == 0 {
        Map::empty()
    } else {
        label_map(list.drop_last()).insert(list.last().0, list.last().1@)
    }
}

/// Something done at intervals is due: it was never done, or long enough ago.
pub open spec fn due(last: Option<u64>, now: u64, every: u64) -> bool {
    match last {
        Some(t) => now - t > every,
        None => true,
    }
}

fn is_due(last: Option<u64>, now: u64, every: u64) -> (r: bool)
    ensures
        r == due(last, now, every),
{
    match last {
        Some(t) => now > t && now - t > every,
        None => true,
    }
}

/// A workspace is uploading.
pub open spec fn some_upload(states: Map<Seq<char>, StateView>) -> bool {
    exists|k: Seq<char>| #[trigger] states.contains_key(k) && states[k].uploading
}

/// Another day than before starts with no totals.
pub open spec fn rolled(m: NetModel, ymd: (i32, u32, u32)) -> NetModel {
    if ymd != m.ymd {
        NetModel { ymd, totals: no_totals(), dirty: true, ..m }
    } else {
        m
    }
}

/// After the counters of the interfaces were read.
pub open spec fn counted(m: NetModel, rows: Seq<Iface>, wrap: u64, now: i64) -> NetModel {
    let up = rate::clip(sent_since(rows, m.ifaces, wrap));
    let down = rate::clip(received_since(rows, m.ifaces, wrap));
    let acc_up = rate::clip(m.acc_up + up);
    let acc_down = rate::clip(m.acc_down + down);
    NetModel {
        ifaces: counters_of(rows),
        acc_up,
        acc_down,
        totals: DayTotals {
            up: rate::clip(m.totals.up + up),
            down: rate::clip(m.totals.down + down),
            ..m.totals
        },
        dirty: m.dirty || up > 0 || down > 0,
        ring: calibration::newest(m.ring.push((now, acc_up, acc_down)), NET_RING_CAP as nat),
        ..m
    }
}

/// After something happened to snapshots.
pub open spec fn heard(m: NetModel, events: Seq<EventView>, backfill: bool) -> NetModel {
    NetModel {
        totals: with_events(m.totals, events),
        dirty: m.dirty || any_accepted(events),
        log: m.log + log_of(events, backfill),
        ..m
    }
}

/// After a look at the snapshots. Acceptances seen for the first time count on the first
/// look of a day.
pub open spec fn looked(
    m: NetModel,
    status: Seq<char>,
    obs: Seq<(Seq<char>, StateView)>,
    day_start: i64,
    first: bool,
) -> NetModel {
    let (states, events) = ckpt::after_look(m.states, obs, day_start, first);
    heard(NetModel { states, status, ..m }, events, first)
}

/// After the totals were saved, if there was something to save and it was due.
pub open spec fn saved(m: NetModel, force: bool, mono: u64) -> NetModel {
    if saves(m, force, mono) {
        NetModel { last_save: Some(mono), dirty: false, ..m }
    } else {
        m
    }
}

/// There is something to save, and it is due.
pub open spec fn saves(m: NetModel, force: bool, mono: u64) -> bool {
    m.dirty && (force || due(m.last_save, mono, NET_SAVE_MS))
}

/// The record of a snapshot that was accepted today.
pub open spec fn upload_record(u: CkptView) -> JsonView {
    JsonView::Object(
        Map::<Seq<char>, JsonView>::empty().insert("at"@, signed_json(u.recorded_ms)).insert(
            "bytes"@,
            unsigned_json(u.bytes),
        ).insert("ws"@, JsonView::Text(u.workspace)),
    )
}

/// An unsigned integer as a JSON value.
pub open spec fn unsigned_json(u: u64) -> JsonView {
    JsonView::Num(
        Some(u),
        if u <= i64::MAX {
            Some(u as i64)
        } else {
            None
        },
    )
}

/// A signed integer as a JSON value.
pub open spec fn signed_json(i: i64) -> JsonView {
    JsonView::Num(
        if i >= 0 {
            Some(i as u64)
        } else {
            None
        },
        Some(i),
    )
}

/// The record of the totals of a day.
pub open spec fn day_record(ymd: (i32, u32, u32), t: DayTotals) -> JsonView {
    JsonView::Object(
        Map::<Seq<char>, JsonView>::empty().insert(
            "uploads"@,
            JsonView::List(t.uploads.map_values(|u: CkptView| upload_record(u))),
        ).insert("ckpt_count"@, unsigned_json(t.ckpt_count as u64)).insert(
            "ckpt"@,
            unsigned_json(t.ckpt_bytes),
        ).insert("down"@, unsigned_json(t.down)).insert("up"@, unsigned_json(t.up)).insert(
            "day"@,
            JsonView::Text(clock::date_text(ymd)),
        ),
    )
}

/// The snapshot that a record tells of.
pub open spec fn upload_from(v: JsonView) -> CkptView {
    CkptView {
        workspace: match v.member_text("ws"@) {
            Some(s) => s,
            None => "?"@,
        },
        bytes: v.member_unsigned("bytes"@),
        recorded_ms: match v.member_signed("at"@) {
            Some(t) => t,
            None => 0,
        },
        accepted: true,
        uploading: false,
        hash: None,
    }
}

/// The totals that a record tells of; nothing if it is the record of another day.
pub open spec fn totals_from(v: JsonView, ymd: (i32, u32, u32)) -> Option<DayTotals> {
    let day = match v.member_text("day"@) {
        Some(s) => s,
        None => Seq::empty(),
    };
    if day != clock::date_text(ymd) {
        None
    } else {
        Some(
            DayTotals {
                up: v.member_unsigned("up"@),
                down: v.member_unsigned("down"@),
                ckpt_bytes: v.member_unsigned("ckpt"@),
                ckpt_count: v.member_unsigned("ckpt_count"@) as u32,
                uploads: match v.member_list("uploads"@) {
                    Some(list) => first_uploads(list),
                    None => Seq::empty(),
                },
            },
        )
    }
}

/// The first snapshots of a list, as many as are kept.
pub open spec fn first_uploads(list: Seq<JsonView>) -> Seq<CkptView> {
    let n = if list.len() <= UPLOADS_CAP {
        list.len() as int
    } else {
        UPLOADS_CAP as int
    };
    list.take(n).map_values(|v: JsonView| upload_from(v))
}

/// The totals in the text of a record, if it can be read and is of the day.
pub open spec fn totals_in(s: Option<Seq<char>>, ymd: (i32, u32, u32)) -> Option<DayTotals> {
    match s {
        Some(t) => match json::parsed(t) {
            Some(v) => totals_from(v, ymd),
            None => None,
        },
        None => None,
    }
}

/// Before anything was measured.
pub open spec fn fresh(ymd: (i32, u32, u32), totals: DayTotals) -> NetModel {
    NetModel {
        ring: Seq::empty(),
        ifaces: Map::empty(),
        acc_up: 0,
        acc_down: 0,
        ymd,
        totals,
        cli: Map::empty(),
        app: Map::empty(),
        proc_refresh: None,
        ckpt_scan: None,
        states: Map::empty(),
        status: Seq::empty(),
        uploading: false,
        last_save: None,
        dirty: false,
        log: Seq::empty(),
    }
}

/// What is kept at the start: the saved totals, if they are of today. Snapshots that were
/// accepted today while nobody looked count unless the totals of today were saved before.
pub open spec fn started(
    ymd: (i32, u32, u32),
    record: Option<Seq<char>>,
    status: Seq<char>,
    obs: Seq<(Seq<char>, StateView)>,
    day_start: i64,
) -> NetModel {
    match totals_in(record, ymd) {
        Some(t) => looked(fresh(ymd, t), status, obs, day_start, false),
        None => looked(fresh(ymd, no_totals()), status, obs, day_start, true),
    }
}

/// What was read from the system for one step.
#[derive(Debug)]
pub struct NetInput {
    /// Today.
    pub ymd: (i32, u32, u32),
    /// When today began.
    pub day_start_ms: i64,
    /// The counters of the interfaces, if they can be read.
    pub ifaces: Option<Vec<(String, u64, u64)>>,
    /// Where counters wrap around; zero if they do not.
    pub wrap: u64,
    /// The session processes and the other processes of the application, if they were listed.
    pub groups: Option<(Vec<(u32, String)>, Vec<(u32, String)>)>,
    /// The tables of connections, if there are such.
    pub tables: Option<(Vec<u8>, Vec<u8>)>,
    /// Whether the directory of the snapshots can be read, and the state of each workspace,
    /// if they were looked at.
    pub scan: Option<(String, Vec<(String, CkptState)>)>,
}

/// After the processes were listed.
pub open spec fn grouped(
    m: NetModel,
    groups: Option<(Vec<(u32, String)>, Vec<(u32, String)>)>,
    mono: u64,
) -> NetModel {
    match groups {
        Some((cli, app)) if due(m.proc_refresh, mono, PROC_REFRESH_MS) => NetModel {
            proc_refresh: Some(mono),
            cli: label_map(cli@),
            app: label_map(app@),
            ..m
        },
        _ => m,
    }
}

/// After a look at the snapshots, if it was due.
pub open spec fn scanned(
    m: NetModel,
    scan: Option<(String, Vec<(String, CkptState)>)>,
    day_start: i64,
    mono: u64,
) -> NetModel {
    match scan {
        Some((status, obs)) if due(m.ckpt_scan, mono, CKPT_SCAN_MS) => {
            let l = looked(m, status@, ckpt::obs_view(obs@), day_start, false);
            NetModel { ckpt_scan: Some(mono), uploading: some_upload(l.states), ..l }
        },
        _ => m,
    }
}

/// What is kept after one step, before saving.
pub open spec fn stepped(m: NetModel, input: NetInput, now: i64, mono: u64) -> NetModel {
    let a = rolled(m, input.ymd);
    let b = match input.ifaces {
        Some(rows) => counted(a, tables::ifaces_view(rows@), input.wrap, now),
        None => a,
    };
    scanned(grouped(b, input.groups, mono), input.scan, input.day_start_ms, mono)
}

/// Connections with the kinds of their processes.
pub open spec fn labelled(conns: Seq<Conn>, kinds: Map<u32, Seq<char>>) -> Seq<ConnView> {
    conns.map_values(
        |c: Conn|
            ConnView {
                remote: c.0,
                pid: c.1,
                proc: if kinds.contains_key(c.1) {
                    kinds[c.1]
                } else {
                    Seq::empty()
                },
            },
    )
}

/// The connections of session processes.
pub open spec fn cli_conns_of(
    tcp: Option<(Vec<u8>, Vec<u8>)>,
    cli: Map<u32, Seq<char>>,
) -> Seq<ConnView> {
    match tcp {
        Some((v4, v6)) => labelled(
            tables::tidy(
                tables::conns_in_group(
                    tables::established(v4@, v6@),
                    cli.dom(),
                    Set::empty(),
                ),
            ),
            cli,
        ),
        None => Seq::empty(),
    }
}

/// The connections of the other processes of the application.
pub open spec fn app_conns_of(
    tcp: Option<(Vec<u8>, Vec<u8>)>,
    cli: Map<u32, Seq<char>>,
    app: Map<u32, Seq<char>>,
) -> Seq<ConnView> {
    match tcp {
        Some((v4, v6)) => labelled(
            tables::tidy(
                tables::conns_in_group(tables::established(v4@, v6@), app.dom(), cli.dom()),
            ),
            app,
        ),
        None => Seq::empty(),
    }
}

/// A length as a count.
pub open spec fn count32(n: nat) -> u32 {
    if n <= u32::MAX {
        n as u32
    } else {
        u32::MAX
    }
}

fn to_count(n: usize) -> (r: u32)
    ensures
        r == count32(n as nat),
{
    if n <= 0xffff_ffff {
        n as u32
    } else {
        0xffff_ffff
    }
}

/// The state of the network at a moment.
#[derive(Debug)]
pub struct NetNow {
    /// The counters of the interfaces can be read.
    pub available: bool,
    /// Bytes sent over a time.
    pub up_bps: Rate,
    /// Bytes received over a time.
    pub down_bps: Rate,
    /// Bytes sent today.
    pub up_today: u64,
    /// Bytes received today.
    pub down_today: u64,
    /// Connections can be told by their process.
    pub conns_available: bool,
    /// Connections of session processes.
    pub cli_conns: u32,
    /// Connections of other processes of the application.
    pub app_conns: u32,
    /// Connections of session processes.
    pub cli_conn_list: Vec<ConnStat>,
    /// Connections of other processes of the application.
    pub app_conn_list: Vec<ConnStat>,
    /// Whether the directory of the snapshots can be read.
    pub ckpt_status: String,
    /// A snapshot is being uploaded.
    pub ckpt_uploading: bool,
    /// Bytes of the snapshots that were accepted today.
    pub ckpt_today_bytes: u64,
    /// Number of the snapshots that were accepted today.
    pub ckpt_today_count: u32,
    /// The snapshots that were accepted today.
    pub ckpt_today_list: Vec<CkptStat>,
    /// The latest snapshot of each workspace.
    pub ckpt_list: Vec<CkptStat>,
}

impl NetNow {
    /// What is told of the network after a step that ended with `m`, whose table of
    /// workspaces has these entries.
    pub open spec fn tells(
        &self,
        m: NetModel,
        entries: Seq<(String, CkptState)>,
        input: NetInput,
        now: i64,
    ) -> bool {
        let cli = cli_conns_of(input.tables, m.cli);
        let app = app_conns_of(input.tables, m.cli, m.app);
        &&& self.available == input.ifaces is Some
        &&& (self.up_bps, self.down_bps) == speeds_of(m.ring, now)
        &&& self.up_today == m.totals.up
        &&& self.down_today == m.totals.down
        &&& self.conns_available == input.tables is Some
        &&& self.cli_conns == count32(cli.len())
        &&& self.app_conns == count32(app.len())
        &&& figures::conns_view(self.cli_conn_list@) == cli
        &&& figures::conns_view(self.app_conn_list@) == app
        &&& self.ckpt_status@ == m.status
        &&& self.ckpt_uploading == m.uploading
        &&& self.ckpt_today_bytes == m.totals.ckpt_bytes
        &&& self.ckpt_today_count == m.totals.ckpt_count
        &&& figures::ckpts_view(self.ckpt_today_list@) == m.totals.uploads
        &&& figures::ckpts_view(self.ckpt_list@) == order::ranked(ckpt::rows_of(entries))
    }
}

/// The snapshots of today are listed as accepted.
pub open spec fn plain_uploads(rows: Seq<CkptView>) -> bool {
    forall|i: int|
        0 <= i < rows.len() ==> {
            &&& (#[trigger] rows[i]).accepted
            &&& !rows[i].uploading
            &&& rows[i].hash is None
        }
}

impl NetIo {
    /// The totals of today.
    pub open spec fn totals(&self) -> DayTotals {
        DayTotals {
            up: self.up_today,
            down: self.down_today,
            ckpt_bytes: self.ckpt_today_bytes,
            ckpt_count: self.ckpt_today_count,
            uploads: figures::ckpts_view(self.today_uploads@),
        }
    }

    /// Everything that is kept.
    pub open spec fn model(&self) -> NetModel {
        NetModel {
            ring: self.ring@,
            ifaces: self.ifaces@,
            acc_up: self.acc_up,
            acc_down: self.acc_down,
            ymd: self.today_ymd,
            totals: self.totals(),
            cli: labels(self.cli_pids@),
            app: labels(self.app_pids@),
            proc_refresh: self.proc_refresh,
            ckpt_scan: self.ckpt_scan,
            states: ckpt::table(self.ckpt_states@),
            status: self.ckpt_status@,
            uploading: self.ckpt_uploading,
            last_save: self.last_save,
            dirty: self.dirty,
            log: log_view(self.pending_events@),
        }
    }

    /// Interfaces and workspaces are listed once each, and lists are not too long.
    pub open spec fn wf(&self) -> bool {
        &&& self.ifaces.wf()
        &&& self.ckpt_states.wf()
        &&& self.ring@.len() <= NET_RING_CAP
        &&& self.today_uploads@.len() <= UPLOADS_CAP
        &&& plain_uploads(self.totals().uploads)
    }

    /// The start: with the totals that were saved, if they are of today, and a first look at
    /// the snapshots.
    pub fn new(
        ymd: (i32, u32, u32),
        record: Option<&str>,
        status: &str,
        obs: &[(String, CkptState)],
        day_start_ms: i64,
    ) -> (r: Self)
        ensures
            r.wf(),
            r.model() == started(
                ymd,
                match record {
                    Some(s) => Some(s@),
                    None => None,
                },
                status@,
                ckpt::obs_view(obs@),
                day_start_ms,
            ),
    {
        let mut io = NetIo {
            ring: VecDeque::new(),
            ifaces: StrMap::new(),
            acc_up: 0,
            acc_down: 0,
            today_ymd: ymd,
            up_today: 0,
            down_today: 0,
            ckpt_today_bytes: 0,
            ckpt_today_count: 0,
            today_uploads: Vec::new(),
            cli_pids: HashMap::new(),
            app_pids: HashMap::new(),
            proc_refresh: None,
            ckpt_scan: None,
            ckpt_states: StrMap::new(),
            ckpt_status: String::new(),
            ckpt_uploading: false,
            last_save: None,
            dirty: false,
            pending_events: VecDeque::new(),
        };
        proof {
            assert(io.model() =~= fresh(ymd, no_totals()));
        }
        let fresh_day = io.load_persisted(record);
        io.look(status, obs, day_start_ms, fresh_day);
        io
    }

    /// Takes over the totals that were saved, if they are of today; whether there are none.
    fn load_persisted(&mut self, record: Option<&str>) -> (r: bool)
        requires
            old(self).wf(),
        ensures
            final(self).wf(),
            ({
                let found = totals_in(
                    match record {
                        Some(s) => Some(s@),
                        None => None,
                    },
                    old(self).today_ymd,
                );
                &&& r == found is None
                &&& final(self).model() == (match found {
                    Some(totals) => NetModel { totals, ..old(self).model() },
                    None => old(self).model(),
                })
            }),
    {
        let text = match record {
            Some(s) => s,
            None => {
                return true;
            },
        };
        let v = match json::read(text) {
            Some(v) => v,
            None => {
                return true;
            },
        };
        let today = clock::ymd_str(self.today_ymd);
        let same_day = match v.get_text("day") {
            Some(day) => text::same(day, today.as_str()),
            None => {
                let none = String::new();
                text::same(none.as_str(), today.as_str())
            },
        };
        if !same_day {
            return true;
        }
        self.up_today = v.get_unsigned("up");
        self.down_today = v.get_unsigned("down");
        self.ckpt_today_bytes = v.get_unsigned("ckpt");
        self.ckpt_today_count = #[verifier::truncate]
        (v.get_unsigned("ckpt_count") as u32);
        self.today_uploads = match v.get_list("uploads") {
            Some(list) => read_uploads(list),
            None => Vec::new(),
        };
        proof {
            let t = totals_from(v@, self.today_ymd).unwrap();
            assert(self.totals() =~= t);
            assert(self.model() =~= (NetModel { totals: t, ..old(self).model() }));
        }
        false
    }

    /// Another day than before starts with no totals.
    fn roll_day(&mut self, ymd: (i32, u32, u32))
        requires
            old(self).wf(),
        ensures
            final(self).wf(),
            final(self).model() == rolled(old(self).model(), ymd),
            final(self).ckpt_states == old(self).ckpt_states,
    {
        if ymd.0 != self.today_ymd.0 || ymd.1 != self.today_ymd.1 || ymd.2 != self.today_ymd.2 {
            self.today_ymd = ymd;
            self.up_today = 0;
            self.down_today = 0;
            self.ckpt_today_bytes = 0;
            self.ckpt_today_count = 0;
            self.today_uploads.clear();
            self.dirty = true;
            assert(self.totals().uploads =~= Seq::empty());
        }
        assert(self.model() =~= rolled(old(self).model(), ymd));
    }

    /// Takes in the counters of the interfaces.
    fn count_traffic(&mut self, rows: &[(String, u64, u64)], wrap: u64, now_ms: i64)
        requires
            old(self).wf(),
        ensures
            final(self).wf(),
            final(self).model() == counted(
                old(self).model(),
                tables::ifaces_view(rows@),
                wrap,
                now_ms,
            ),
            final(self).ckpt_states == old(self).ckpt_states,
    {
        let (up, down) = traffic_since(rows, &self.ifaces, wrap);
        self.ifaces = counters_map(rows);
        self.acc_up = self.acc_up.saturating_add(up);
        self.acc_down = self.acc_down.saturating_add(down);
        if up > 0 || down > 0 {
            self.up_today = self.up_today.saturating_add(up);
            self.down_today = self.down_today.saturating_add(down);
            self.dirty = true;
        }
        self.ring.push_back((now_ms, self.acc_up, self.acc_down));
        calibration::keep_newest(&mut self.ring, NET_RING_CAP);
        assert(self.model() =~= counted(
            old(self).model(),
            tables::ifaces_view(rows@),
            wrap,
            now_ms,
        ));
    }

    /// Takes in what happened to snapshots.
    fn handle_ckpt_events(&mut self, events: &[CkptEvent], backfill: bool)
        requires
            old(self).wf(),
        ensures
            final(self).wf(),
            final(self).model() == heard(
                old(self).model(),
                ckpt::events_view(events@),
                backfill,
            ),
            final(self).ckpt_states == old(self).ckpt_states,
    {
        let ghost ev = ckpt::events_view(events@);
        let ghost m0 = self.model();
        proof {
            assert(ev.take(0) =~= Seq::empty());
            assert(self.model() =~= heard(m0, ev.take(0), backfill));
        }
        for i in 0..events.len()
            invariant
                self.wf(),
                ev == ckpt::events_view(events@),
                self.model() == heard(m0, ev.take(i as int), backfill),
                self.ckpt_states == old(self).ckpt_states,
        {
            let e: &CkptEvent = &events[i];
            let ghost m = self.model();
            proof {
                assert(ev[i as int] == e@);
                assert(ev.take(i + 1).drop_last() =~= ev.take(i as int));
                lemma_any_accepted_step(ev, i as int);
            }
            if e.kind == CkptKind::Accepted {
                self.ckpt_today_bytes = self.ckpt_today_bytes.saturating_add(e.bytes);
                if self.ckpt_today_count < 0xffff_ffff {
                    self.ckpt_today_count = self.ckpt_today_count + 1;
                }
                let row = CkptStat {
                    workspace: e.workspace.clone(),
                    bytes: e.bytes,
                    recorded_ms: e.recorded_ms,
                    accepted: true,
                    uploading: false,
                    hash: None,
                };
                push_upload(&mut self.today_uploads, row);
                self.dirty = true;
            }
            let entry = NetEvent {
                kind: e.kind,
                workspace: ckpt::or_question_mark(&e.workspace),
                tenths_mb: to_tenths_mb(e.bytes),
                backfill,
            };
            let ghost nv = entry@;
            self.pending_events.push_back(entry);
            proof {
                assert(log_view(self.pending_events@) =~= m.log.push(nv));
                assert(m0.log + log_of(ev.take(i + 1), backfill) =~= (m0.log + log_of(
                    ev.take(i as int),
                    backfill,
                )).push(nv));
                assert(self.model() =~= heard(m0, ev.take(i + 1), backfill));
            }
        }
        assert(ev.take(ev.len() as int) =~= ev);
    }

    /// Looks at the snapshots.
    fn look(&mut self, status: &str, obs: &[(String, CkptState)], day_start_ms: i64, first: bool)
        requires
            old(self).wf(),
        ensures
            final(self).wf(),
            final(self).model() == looked(
                old(self).model(),
                status@,
                ckpt::obs_view(obs@),
                day_start_ms,
                first,
            ),
    {
        let ghost m0 = self.model();
        self.ckpt_status = status.to_owned();
        let events = ckpt::apply_ckpt_obs(&mut self.ckpt_states, obs, day_start_ms, first);
        proof {
            let (states, ev) = ckpt::after_look(
                m0.states,
                ckpt::obs_view(obs@),
                day_start_ms,
                first,
            );
            assert(self.model() =~= (NetModel { states, status: status@, ..m0 }));
        }
        self.handle_ckpt_events(&events, first);
    }

    /// The text to save, if there is something to save and it is due.
    fn save(&mut self, force: bool, mono_ms: u64) -> (r: Option<String>)
        requires
            old(self).wf(),
        ensures
            final(self).wf(),
            final(self).model() == saved(old(self).model(), force, mono_ms),
            final(self).ckpt_states == old(self).ckpt_states,
            match r {
                Some(s) => saves(old(self).model(), force, mono_ms) && json::parsed(s@) == Some(
                    day_record(old(self).today_ymd, old(self).totals()),
                ),
                None => !saves(old(self).model(), force, mono_ms),
            },
    {
        if !self.dirty || !(force || is_due(self.last_save, mono_ms, NET_SAVE_MS)) {
            assert(self.model() =~= saved(old(self).model(), force, mono_ms));
            return None;
        }
        self.last_save = Some(mono_ms);
        self.dirty = false;
        assert(self.model() =~= saved(old(self).model(), force, mono_ms));
        let record = self.record();
        proof {
            lemma_record_readable(self.today_ymd, self.totals());
        }
        Some(json::write(&record))
    }

    /// The record of the totals of the day.
    fn record(&self) -> (r: Json)
        ensures
            r@ == day_record(self.today_ymd, self.totals()),
            json::whole_numbers(r),
    {
        let mut members: Vec<(String, Json)> = Vec::new();
        members.push(("day".to_owned(), Json::Text(clock::ymd_str(self.today_ymd))));
        members.push(("up".to_owned(), Json::unsigned(self.up_today)));
        members.push(("down".to_owned(), Json::unsigned(self.down_today)));
        members.push(("ckpt".to_owned(), Json::unsigned(self.ckpt_today_bytes)));
        members.push(("ckpt_count".to_owned(), Json::unsigned(self.ckpt_today_count as u64)));
        members.push(("uploads".to_owned(), Json::List(write_uploads(&self.today_uploads))));
        proof {
            let s = members@;
            lemma_members6(s);
        }
        Json::Object(members)
    }

    /// Takes what happened, for the log.
    pub fn take_events(&mut self) -> (r: VecDeque<NetEvent>)
        requires
            old(self).wf(),
        ensures
            final(self).wf(),
            log_view(r@) == old(self).model().log,
            final(self).model() == (NetModel { log: Seq::empty(), ..old(self).model() }),
    {
        let mut out: VecDeque<NetEvent> = VecDeque::new();
        std::mem::swap(&mut out, &mut self.pending_events);
        assert(self.model() =~= (NetModel { log: Seq::empty(), ..old(self).model() }));
        out
    }

    /// The text to save before the end, whether the totals have changed or not.
    pub fn save_forced(&mut self, mono_ms: u64) -> (r: String)
        requires
            old(self).wf(),
        ensures
            final(self).wf(),
            final(self).model() == (NetModel {
                last_save: Some(mono_ms),
                dirty: false,
                ..old(self).model()
            }),
            json::parsed(r@) == Some(day_record(old(self).today_ymd, old(self).totals())),
    {
        self.dirty = true;
        match self.save(true, mono_ms) {
            Some(s) => s,
            None => String::new(),
        }
    }

    /// Whether it is time to list the processes.
    pub fn procs_due(&self, mono_ms: u64) -> (r: bool)
        ensures
            r == due(self.proc_refresh, mono_ms, PROC_REFRESH_MS),
    {
        is_due(self.proc_refresh, mono_ms, PROC_REFRESH_MS)
    }

    /// Whether it is time to look at the snapshots.
    pub fn scan_due(&self, mono_ms: u64) -> (r: bool)
        ensures
            r == due(self.ckpt_scan, mono_ms, CKPT_SCAN_MS),
    {
        is_due(self.ckpt_scan, mono_ms, CKPT_SCAN_MS)
    }

    /// One step: what is told of the network, and the text to save, if one is due.
    pub fn tick(&mut self, now_ms: i64, mono_ms: u64, input: NetInput) -> (r: (
        NetNow,
        Option<String>,
    ))
        requires
            old(self).wf(),
        ensures
            final(self).wf(),
            ({
                let m = stepped(old(self).model(), input, now_ms, mono_ms);
                &&& final(self).model() == saved(m, false, mono_ms)
                &&& r.0.tells(m, final(self).ckpt_states.entries@, input, now_ms)
                &&& match r.1 {
                    Some(s) => saves(m, false, mono_ms) && json::parsed(s@) == Some(
                        day_record(m.ymd, m.totals),
                    ),
                    None => !saves(m, false, mono_ms),
                }
            }),
    {
        self.roll_day(input.ymd);
        let available = match &input.ifaces {
            Some(rows) => {
                self.count_traffic(rows, input.wrap, now_ms);
                true
            },
            None => false,
        };
        let (up_bps, down_bps) = speeds(&self.ring, now_ms);
        self.group(&input.groups, mono_ms);
        let (conns_available, cli_conn_list, app_conn_list) = match &input.tables {
            Some((v4, v6)) => {
                match tables::zcode_conns(
                    Some((v4.as_slice(), v6.as_slice())),
                    &self.cli_pids,
                    &self.app_pids,
                ) {
                    Some((cli, app)) => {
                        (true, label(&cli, &self.cli_pids), label(&app, &self.app_pids))
                    },
                    None => (true, Vec::new(), Vec::new()),
                }
            },
            None => (false, Vec::new(), Vec::new()),
        };
        proof {
            assert(labels(self.cli_pids@).dom() =~= self.cli_pids@.dom());
            assert(labels(self.app_pids@).dom() =~= self.app_pids@.dom());
            assert(figures::conns_view(cli_conn_list@) =~= cli_conns_of(
                input.tables,
                self.model().cli,
            ));
            assert(figures::conns_view(app_conn_list@) =~= app_conns_of(
                input.tables,
                self.model().cli,
                self.model().app,
            ));
        }
        self.scan(&input.scan, input.day_start_ms, mono_ms);
        let text = self.save(false, mono_ms);
        let now = NetNow {
            available,
            up_bps,
            down_bps,
            up_today: self.up_today,
            down_today: self.down_today,
            conns_available,
            cli_conns: to_count(cli_conn_list.len()),
            app_conns: to_count(app_conn_list.len()),
            cli_conn_list,
            app_conn_list,
            ckpt_status: self.ckpt_status.clone(),
            ckpt_uploading: self.ckpt_uploading,
            ckpt_today_bytes: self.ckpt_today_bytes,
            ckpt_today_count: self.ckpt_today_count,
            ckpt_today_list: figures::copy_ckpts(&self.today_uploads),
            ckpt_list: ckpt::ckpt_rows(&self.ckpt_states),
        };
        (now, text)
    }

    /// Takes in the processes, if it is time.
    fn group(
        &mut self,
        groups: &Option<(Vec<(u32, String)>, Vec<(u32, String)>)>,
        mono_ms: u64,
    )
        requires
            old(self).wf(),
        ensures
            final(self).wf(),
            final(self).model() == grouped(old(self).model(), *groups, mono_ms),
            final(self).ckpt_states == old(self).ckpt_states,
    {
        match groups {
            Some((cli, app)) => {
                if is_due(self.proc_refresh, mono_ms, PROC_REFRESH_MS) {
                    self.proc_refresh = Some(mono_ms);
                    self.cli_pids = to_label_map(cli);
                    self.app_pids = to_label_map(app);
                }
            },
            None => {},
        }
        assert(self.model() =~= grouped(old(self).model(), *groups, mono_ms));
    }

    /// Looks at the snapshots, if it is time.
    fn scan(
        &mut self,
        scan: &Option<(String, Vec<(String, CkptState)>)>,
        day_start_ms: i64,
        mono_ms: u64,
    )
        requires
            old(self).wf(),
        ensures
            final(self).wf(),
            final(self).model() == scanned(old(self).model(), *scan, day_start_ms, mono_ms),
    {
        match scan {
            Some((status, obs)) => {
                if is_due(self.ckpt_scan, mono_ms, CKPT_SCAN_MS) {
                    self.look(status.as_str(), obs, day_start_ms, false);
                    self.ckpt_scan = Some(mono_ms);
                    self.ckpt_uploading = ckpt::is_any_uploading(&self.ckpt_states);
                    proof {
                        lemma_some_upload(&self.ckpt_states);
                    }
                }
            },
            None => {},
        }
        assert(self.model() =~= scanned(old(self).model(), *scan, day_start_ms, mono_ms));
    }
}

proof fn lemma_some_upload(states: &StrMap<CkptState>)
    requires
        states.wf(),
    ensures
        ckpt::any_uploading(states.entries@) == some_upload(ckpt::table(states@)),
{
    let s = states.entries@;
    let t = ckpt::table(states@);
    strmap::lemma_map_of(s);
    if ckpt::any_uploading(s) {
        let i = choose|i: int| 0 <= i < s.len() && (#[trigger] s[i]).1.uploading;
        assert(t.contains_key(s[i].0@) && t[s[i].0@].uploading);
    }
    if some_upload(t) {
        let k = choose|k: Seq<char>| #[trigger] t.contains_key(k) && t[k].uploading;
        let i = choose|i: int| 0 <= i < s.len() && (#[trigger] s[i]).0@ == k;
        assert(s[i].1.uploading);
    }
}

/// The newest rows stay.
fn push_upload(rows: &mut Vec<CkptStat>, row: CkptStat)
    requires
        old(rows)@.len() <= UPLOADS_CAP,
        plain_uploads(figures::ckpts_view(old(rows)@)),
        row.accepted,
        !row.uploading,
        row.hash is None,
    ensures
        final(rows)@.len() <= UPLOADS_CAP,
        plain_uploads(figures::ckpts_view(final(rows)@)),
        figures::ckpts_view(final(rows)@) == calibration::newest(
            figures::ckpts_view(old(rows)@).push(row@),
            UPLOADS_CAP as nat,
        ),
{
    let ghost u0 = figures::ckpts_view(rows@);
    let ghost rv = row@;
    rows.push(row);
    let ghost long = figures::ckpts_view(rows@);
    assert(long =~= u0.push(rv));
    if rows.len() > UPLOADS_CAP {
        let _ = rows.remove(0);
        assert(figures::ckpts_view(rows@) =~= long.skip(1));
    }
}

fn to_label_map(list: &Vec<(u32, String)>) -> (r: HashMap<u32, String>)
    ensures
        labels(r@) == label_map(list@),
{
    let mut map: HashMap<u32, String> = HashMap::new();
    assert(labels(map@) =~= label_map(list@.take(0)));
    for i in 0..list.len()
        invariant
            labels(map@) == label_map(list@.take(i as int)),
    {
        assert(list@.take(i + 1).drop_last() =~= list@.take(i as int));
        let ghost before = labels(map@);
        map.insert(list[i].0, list[i].1.clone());
        assert(labels(map@) =~= before.insert(list@[i as int].0, list@[i as int].1@));
    }
    assert(list@.take(list@.len() as int) =~= list@);
    map
}

fn label(conns: &Vec<(String, u32)>, kinds: &HashMap<u32, String>) -> (r: Vec<ConnStat>)
    ensures
        figures::conns_view(r@) == labelled(tables::conns_of(conns@), labels(kinds@)),
{
    let mut out: Vec<ConnStat> = Vec::new();
    let ghost goal = labelled(tables::conns_of(conns@), labels(kinds@));
    for i in 0..conns.len()
        invariant
            goal == labelled(tables::conns_of(conns@), labels(kinds@)),
            figures::conns_view(out@) == goal.take(i as int),
    {
        let ghost before = figures::conns_view(out@);
        let pid: u32 = conns[i].1;
        let proc = match kinds.get(&pid) {
            Some(s) => s.clone(),
            None => String::new(),
        };
        let row = ConnStat { remote: conns[i].0.clone(), pid, proc };
        let ghost rv = row@;
        out.push(row);
        proof {
            assert(rv.proc =~= goal[i as int].proc);
            assert(figures::conns_view(out@) =~= before.push(rv));
            assert(goal.take(i + 1) =~= goal.take(i as int).push(goal[i as int]));
        }
    }
    assert(goal.take(goal.len() as int) =~= goal);
    out
}

fn read_uploads(list: &Vec<Json>) -> (r: Vec<CkptStat>)
    ensures
        figures::ckpts_view(r@) == first_uploads(json::list_view(list@)),
        r@.len() <= UPLOADS_CAP,
        plain_uploads(figures::ckpts_view(r@)),
{
    let mut out: Vec<CkptStat> = Vec::new();
    let ghost lv = json::list_view(list@);
    let ghost goal = first_uploads(lv);
    proof {
        json::lemma_list_view(list@);
    }
    let n: usize = if list.len() <= UPLOADS_CAP {
        list.len()
    } else {
        UPLOADS_CAP
    };
    for i in 0..n
        invariant
            n <= list@.len(),
            n <= UPLOADS_CAP,
            n == goal.len(),
            lv == json::list_view(list@),
            goal == first_uploads(lv),
            lv.len() == list@.len(),
            forall|k: int| 0 <= k < list@.len() ==> #[trigger] lv[k] == list@[k]@,
            figures::ckpts_view(out@) == goal.take(i as int),
            out@.len() == i,
    {
        let ghost before = figures::ckpts_view(out@);
        let u: &Json = &list[i];
        assert(lv[i as int] == u@);
        let row = CkptStat {
            workspace: match u.get_text("ws") {
                Some(s) => s.to_owned(),
                None => "?".to_owned(),
            },
            bytes: u.get_unsigned("bytes"),
            recorded_ms: match u.get_signed("at") {
                Some(t) => t,
                None => 0,
            },
            accepted: true,
            uploading: false,
            hash: None,
        };
        let ghost rv = row@;
        out.push(row);
        proof {
            assert(goal[i as int] == upload_from(lv[i as int]));
            assert(figures::ckpts_view(out@) =~= before.push(rv));
            assert(goal.take(i + 1) =~= goal.take(i as int).push(goal[i as int]));
        }
    }
    assert(goal.take(goal.len() as int) =~= goal);
    out
}

fn write_uploads(rows: &Vec<CkptStat>) -> (r: Vec<Json>)
    ensures
        json::list_view(r@) == figures::ckpts_view(rows@).map_values(
            |u: CkptView| upload_record(u),
        ),
        json::whole_list(r@),
{
    let mut out: Vec<Json> = Vec::new();
    let ghost goal = figures::ckpts_view(rows@).map_values(|u: CkptView| upload_record(u));
    for i in 0..rows.len()
        invariant
            goal == figures::ckpts_view(rows@).map_values(|u: CkptView| upload_record(u)),
            json::list_view(out@) == goal.take(i as int),
            json::whole_list(out@),
    {
        let ghost before = out@;
        let mut members: Vec<(String, Json)> = Vec::new();
        members.push(("ws".to_owned(), Json::Text(rows[i].workspace.clone())));
        members.push(("bytes".to_owned(), Json::unsigned(rows[i].bytes)));
        members.push(("at".to_owned(), Json::signed(rows[i].recorded_ms)));
        proof {
            lemma_members3(members@);
        }
        let j = Json::Object(members);
        proof {
            assert(j@ == upload_record(rows@[i as int]@));
            assert(json::whole_numbers(j));
        }
        out.push(j);
        proof {
            assert(out@.drop_last() =~= before);
            assert(goal.take(i + 1) =~= goal.take(i as int).push(goal[i as int]));
        }
    }
    assert(goal.take(goal.len() as int) =~= goal);
    out
}

proof fn lemma_members3(s: Seq<(String, Json)>)
    requires
        s.len() == 3,
    ensures
        json::object_view(s) == Map::<Seq<char>, JsonView>::empty().insert(
            s[2].0@,
            s[2].1@,
        ).insert(s[1].0@, s[1].1@).insert(s[0].0@, s[0].1@),
        json::whole_members(s) == (json::whole_numbers(s[0].1) && json::whole_numbers(s[1].1)
            && json::whole_numbers(s[2].1)),
{
    let a = s.skip(1);
    let b = a.skip(1);
    let c = b.skip(1);
    assert(c =~= Seq::empty());
    assert(json::object_view(c) =~= Map::empty());
    assert(json::object_view(b) == json::object_view(c).insert(s[2].0@, s[2].1@));
    assert(json::object_view(a) == json::object_view(b).insert(s[1].0@, s[1].1@));
    assert(json::whole_members(c));
    assert(json::whole_members(b) == json::whole_numbers(s[2].1));
    assert(json::whole_members(a) == (json::whole_members(b) && json::whole_numbers(s[1].1)));
}

proof fn lemma_members6(s: Seq<(String, Json)>)
    requires
        s.len() == 6,
    ensures
        json::object_view(s) == Map::<Seq<char>, JsonView>::empty().insert(
            s[5].0@,
            s[5].1@,
        ).insert(s[4].0@, s[4].1@).insert(s[3].0@, s[3].1@).insert(s[2].0@, s[2].1@).insert(
            s[1].0@,
            s[1].1@,
        ).insert(s[0].0@, s[0].1@),
        json::whole_members(s) == (json::whole_numbers(s[0].1) && json::whole_numbers(s[1].1)
            && json::whole_numbers(s[2].1) && json::whole_numbers(s[3].1)
            && json::whole_numbers(s[4].1) && json::whole_numbers(s[5].1)),
{
    let a = s.skip(1);
    let b = a.skip(1);
    let c = b.skip(1);
    lemma_members3(c);
    assert(json::object_view(b) == json::object_view(c).insert(s[2].0@, s[2].1@));
    assert(json::object_view(a) == json::object_view(b).insert(s[1].0@, s[1].1@));
    assert(json::whole_members(b) == (json::whole_members(c) && json::whole_numbers(s[2].1)));
    assert(json::whole_members(a) == (json::whole_members(b) && json::whole_numbers(s[1].1)));
}

proof fn lemma_record_readable(ymd: (i32, u32, u32), t: DayTotals)
    ensures
        json::readable(day_record(ymd, t)),
{
    reveal_with_fuel(json::nested_below, 5);
    assert forall|u: CkptView| json::nested_below(#[trigger] upload_record(u), 98) by {
    }
}

proof fn lemma_any_accepted_step(ev: Seq<EventView>, i: int)
    requires
        0 <= i < ev.len(),
    ensures
        any_accepted(ev.take(i + 1)) == (any_accepted(ev.take(i)) || ev[i].kind
            == CkptKind::Accepted),
{
    let a = ev.take(i);
    let b = ev.take(i + 1);
    if any_accepted(a) {
        let k = choose|k: int| 0 <= k < a.len() && (#[trigger] a[k]).kind == CkptKind::Accepted;
        assert(b[k].kind == CkptKind::Accepted);
    }
    if ev[i].kind == CkptKind::Accepted {
        assert(b[i].kind == CkptKind::Accepted);
    }
    if any_accepted(b) && ev[i].kind != CkptKind::Accepted {
        let k = choose|k: int| 0 <= k < b.len() && (#[trigger] b[k]).kind == CkptKind::Accepted;
        assert(a[k].kind == CkptKind::Accepted);
    }
}

proof fn lemma_since_nonneg(rows: Seq<Iface>, known: Map<Seq<char>, (u64, u64)>, wrap: u64)
    ensures
        sent_since(rows, known, wrap) >= 0,
        received_since(rows, known, wrap) >= 0,
    decreases rows.len(),
{
    if rows.len() > 0 {
        lemma_since_nonneg(rows.drop_last(), known, wrap);
    }
}

fn traffic_since(rows: &[(String, u64, u64)], known: &StrMap<(u64, u64)>, wrap: u64) -> (r: (
    u64,
    u64,
))
    requires
        known.wf(),
    ensures
        r.0 == rate::clip(sent_since(tables::ifaces_view(rows@), known@, wrap)),
        r.1 == rate::clip(received_since(tables::ifaces_view(rows@), known@, wrap)),
{
    let mut up: u64 = 0;
    let mut down: u64 = 0;
    let ghost rv = tables::ifaces_view(rows@);
    assert(rv.take(0) =~= Seq::empty());
    for i in 0..rows.len()
        invariant
            known.wf(),
            rv == tables::ifaces_view(rows@),
            up == rate::clip(sent_since(rv.take(i as int), known@, wrap)),
            down == rate::clip(received_since(rv.take(i as int), known@, wrap)),
    {
        proof {
            assert(rv.take(i + 1).drop_last() =~= rv.take(i as int));
            lemma_since_nonneg(rv.take(i as int), known@, wrap);
        }
        match known.get(rows[i].0.as_str()) {
            Some(c) => {
                up = up.saturating_add(wrap_delta(rows[i].1, c.0, wrap));
                down = down.saturating_add(wrap_delta(rows[i].2, c.1, wrap));
            },
            None => {},
        }
    }
    assert(rv.take(rv.len() as int) =~= rv);
    (up, down)
}

fn counters_map(rows: &[(String, u64, u64)]) -> (r: StrMap<(u64, u64)>)
    ensures
        r.wf(),
        r@ == counters_of(tables::ifaces_view(rows@)),
{
    let mut map: StrMap<(u64, u64)> = StrMap::new();
    let ghost rv = tables::ifaces_view(rows@);
    assert(rv.take(0) =~= Seq::empty());
    for i in 0..rows.len()
        invariant
            map.wf(),
            rv == tables::ifaces_view(rows@),
            map@ == counters_of(rv.take(i as int)),
    {
        assert(rv.take(i + 1).drop_last() =~= rv.take(i as int));
        map.insert(rows[i].0.clone(), (rows[i].1, rows[i].2));
    }
    assert(rv.take(rv.len() as int) =~= rv);
    map
}

fn speeds(ring: &VecDeque<(i64, u64, u64)>, now_ms: i64) -> (r: (Rate, Rate))
    ensures
        r == speeds_of(ring@, now_ms),
{
    let n: usize = ring.len();
    if n == 0 {
        return (Rate::zero(), Rate::zero());
    }
    let z = ring[n - 1];
    let first = ring[0];
    if z.0 <= first.0 {
        return (Rate::zero(), Rate::zero());
    }
    let from: i128 = now_ms as i128 - NET_WINDOW_MS as i128;
    let mut base: (i64, u64, u64) = (first.0, z.1, z.2);
    let mut i: usize = 0;
    assert(ring@.skip(0) =~= ring@);
    while i < n && (ring[i].0 as i128) < from
        invariant
            i <= n,
            n == ring@.len(),
            first_from(ring@, from as int) == first_from(ring@.skip(i as int), from as int),
        decreases n - i,
    {
        assert(ring@.skip(i as int).skip(1) =~= ring@.skip(i + 1));
        i = i + 1;
    }
    if i < n {
        base = ring[i];
    }
    let gap: i128 = z.0 as i128 - base.0 as i128;
    let ms: u64 = if gap >= 1 {
        gap as u64
    } else {
        1
    };
    let up: u64 = if z.1 >= base.1 {
        z.1 - base.1
    } else {
        0
    };
    let down: u64 = if z.2 >= base.2 {
        z.2 - base.2
    } else {
        0
    };
    (Rate { tokens: up, ms }, Rate { tokens: down, ms })
}

/// An increment that does not reach half the range is found again, wherever the counter
/// wraps around, and none is ever taken to be larger.
pub proof fn law_increment_survives_a_wrap(old: u64, by: u64)
    requires
        old < 0x1_0000_0000,
        by < MAX_INCREMENT,
    ensures
        increment(((old + by) % 0x1_0000_0000) as u64, old, 0x1_0000_0000) == by,
        forall|a: u64, b: u64, wrap: u64| #[trigger] increment(a, b, wrap) < MAX_INCREMENT,
{
}

/// A counter that was set back and does not wrap around adds nothing.
pub proof fn law_reset_adds_nothing(new: u64, old: u64)
    requires
        new <= old,
    ensures
        increment(new, old, 0) == 0,
{
}

/// Interfaces that were not known before add nothing.
pub proof fn law_unseen_interfaces_add_nothing(
    rows: Seq<Iface>,
    known: Map<Seq<char>, (u64, u64)>,
    wrap: u64,
)
    requires
        forall|i: int| 0 <= i < rows.len() ==> !known.contains_key((#[trigger] rows[i]).0),
    ensures
        sent_since(rows, known, wrap) == 0,
        received_since(rows, known, wrap) == 0,
    decreases rows.len(),
{
    if rows.len() > 0 {
        let d = rows.drop_last();
        assert forall|i: int| 0 <= i < d.len() implies !known.contains_key((#[trigger] d[i]).0) by {
            assert(d[i] == rows[i]);
        }
        law_unseen_interfaces_add_nothing(d, known, wrap);
        assert(!known.contains_key(rows[rows.len() - 1].0));
    }
}

proof fn lemma_events_grow(t: DayTotals, events: Seq<EventView>)
    ensures
        with_events(t, events).up == t.up,
        with_events(t, events).down == t.down,
        with_events(t, events).ckpt_bytes >= t.ckpt_bytes,
        with_events(t, events).ckpt_count >= t.ckpt_count,
    decreases events.len(),
{
    if events.len() > 0 {
        lemma_events_grow(t, events.drop_last());
    }
}

proof fn lemma_first_from(ring: Seq<(i64, u64, u64)>, from: int, k: int)
    requires
        0 <= k < ring.len(),
        ring[k].0 >= from,
        forall|i: int| 0 <= i < k ==> (#[trigger] ring[i]).0 < from,
    ensures
        first_from(ring, from) == Some(ring[k]),
    decreases k,
{
    if k > 0 {
        assert(ring[0].0 < from);
        let rest = ring.skip(1);
        assert forall|i: int| 0 <= i < k - 1 implies (#[trigger] rest[i]).0 < from by {
            assert(rest[i] == ring[i + 1]);
        }
        lemma_first_from(rest, from, k - 1);
    }
}

proof fn lemma_first_from_is_there(ring: Seq<(i64, u64, u64)>, from: int)
    ensures
        match first_from(ring, from) {
            Some(s) => exists|i: int| 0 <= i < ring.len() && #[trigger] ring[i] == s && s.0 >= from,
            None => forall|i: int| 0 <= i < ring.len() ==> (#[trigger] ring[i]).0 < from,
        },
    decreases ring.len(),
{
    if ring.len() > 0 && ring[0].0 < from {
        let rest = ring.skip(1);
        lemma_first_from_is_there(rest, from);
        match first_from(rest, from) {
            Some(s) => {
                let i = choose|i: int|
                    0 <= i < rest.len() && #[trigger] rest[i] == s && s.0 >= from;
                assert(ring[i + 1] == s);
            },
            None => {
                assert forall|i: int| 0 <= i < ring.len() implies (#[trigger] ring[i]).0 < from by {
                    if i > 0 {
                        assert(rest[i - 1] == ring[i]);
                    }
                }
            },
        }
    } else if ring.len() > 0 {
        assert(ring[0].0 >= from);
    }
}

/// The speed of the network tells of the last second: what the totals grew from the earliest
/// sample that is not older to the newest, over the time between these two.
pub proof fn law_network_speed_is_of_the_last_second(
    r: NetNow,
    m: NetModel,
    entries: Seq<(String, CkptState)>,
    input: NetInput,
    now: i64,
    k: int,
)
    requires
        r.tells(m, entries, input, now),
        0 <= k < m.ring.len(),
        m.ring[k].0 >= now - 1_000,
        forall|i: int| 0 <= i < k ==> (#[trigger] m.ring[i]).0 < now - 1_000,
        m.ring[0].0 < m.ring.last().0,
        m.ring[k].1 <= m.ring.last().1,
        m.ring[k].2 <= m.ring.last().2,
    ensures
        r.up_bps.tokens == m.ring.last().1 - m.ring[k].1,
        r.down_bps.tokens == m.ring.last().2 - m.ring[k].2,
        m.ring[k].0 < m.ring.last().0 ==> r.up_bps.ms == m.ring.last().0 - m.ring[k].0,
        m.ring[k].0 >= m.ring.last().0 ==> r.up_bps.ms == 1,
        r.down_bps.ms == r.up_bps.ms,
{
    lemma_first_from(m.ring, now - 1_000, k);
}

/// Where the totals have not moved in the last second, the speed is zero, whatever moved before.
pub proof fn law_still_network_shows_no_speed(
    r: NetNow,
    m: NetModel,
    entries: Seq<(String, CkptState)>,
    input: NetInput,
    now: i64,
)
    requires
        r.tells(m, entries, input, now),
        forall|i: int|
            0 <= i < m.ring.len() && (#[trigger] m.ring[i]).0 >= now - 1_000 ==> m.ring[i].1
                == m.ring.last().1 && m.ring[i].2 == m.ring.last().2,
    ensures
        r.up_bps.tokens == 0,
        r.down_bps.tokens == 0,
{
    lemma_first_from_is_there(m.ring, now - 1_000);
    match first_from(m.ring, now - 1_000) {
        Some(s) => {
            let i = choose|i: int|
                0 <= i < m.ring.len() && #[trigger] m.ring[i] == s && s.0 >= now - 1_000;
            assert(m.ring[i].1 == m.ring.last().1);
        },
        None => {},
    }
}

/// Samples that are older than a second have no part in the speed: without them it is the same.
pub proof fn law_older_samples_do_not_matter(
    r: NetNow,
    m: NetModel,
    s: NetNow,
    n: NetModel,
    entries: Seq<(String, CkptState)>,
    input: NetInput,
    now: i64,
    k: int,
)
    requires
        r.tells(m, entries, input, now),
        s.tells(n, entries, input, now),
        0 <= k < m.ring.len(),
        n.ring == m.ring.skip(k),
        forall|i: int| 0 <= i < k ==> (#[trigger] m.ring[i]).0 < now - 1_000,
        m.ring.last().0 >= now - 1_000,
        m.ring[0].0 < m.ring.last().0,
        n.ring[0].0 < n.ring.last().0,
    ensures
        r.up_bps == s.up_bps,
        r.down_bps == s.down_bps,
{
    let from = now - 1_000;
    lemma_first_from_is_there(m.ring, from);
    assert(m.ring[m.ring.len() - 1] == m.ring.last());
    lemma_first_from_skips(m.ring, from, k);
    assert(n.ring.last() == m.ring.last());
}

proof fn lemma_first_from_skips(ring: Seq<(i64, u64, u64)>, from: int, k: int)
    requires
        0 <= k <= ring.len(),
        forall|i: int| 0 <= i < k ==> (#[trigger] ring[i]).0 < from,
    ensures
        first_from(ring, from) == first_from(ring.skip(k), from),
    decreases k,
{
    if k > 0 {
        assert(ring[0].0 < from);
        let rest = ring.skip(1);
        assert forall|i: int| 0 <= i < k - 1 implies (#[trigger] rest[i]).0 < from by {
            assert(rest[i] == ring[i + 1]);
        }
        lemma_first_from_skips(rest, from, k - 1);
        assert(rest.skip(k - 1) =~= ring.skip(k));
    } else {
        assert(ring.skip(0) =~= ring);
    }
}

/// What a counter that does not wrap around moved on, if that can be: a counter that was set
/// back or that jumped by two gigabytes or more has not moved.
pub open spec fn moved_on(new: u64, old: u64) -> int {
    if old <= new < old + 0x8000_0000 {
        new - old
    } else {
        0
    }
}

proof fn lemma_since_is_sum(rows: Seq<Iface>, known: Map<Seq<char>, (u64, u64)>)
    ensures
        sent_since(rows, known, 0) == rows.fold_left(
            0int,
            |a: int, r: Iface|
                a + (if known.contains_key(r.0) {
                    moved_on(r.1, known[r.0].0)
                } else {
                    0
                }),
        ),
        received_since(rows, known, 0) == rows.fold_left(
            0int,
            |a: int, r: Iface|
                a + (if known.contains_key(r.0) {
                    moved_on(r.2, known[r.0].1)
                } else {
                    0
                }),
        ),
    decreases rows.len(),
{
    if rows.len() > 0 {
        lemma_since_is_sum(rows.drop_last(), known);
    }
}

proof fn lemma_counters_of(rows: Seq<Iface>, i: int)
    requires
        0 <= i < rows.len(),
        forall|j: int| i < j < rows.len() ==> (#[trigger] rows[j]).0 != rows[i].0,
    ensures
        counters_of(rows).contains_key(rows[i].0),
        counters_of(rows)[rows[i].0] == (rows[i].1, rows[i].2),
    decreases rows.len(),
{
    if i < rows.len() - 1 {
        let d = rows.drop_last();
        assert(d[i] == rows[i]);
        assert forall|j: int| i < j < d.len() implies (#[trigger] d[j]).0 != d[i].0 by {
            assert(rows[j] == d[j]);
        }
        lemma_counters_of(d, i);
        assert(rows[rows.len() - 1].0 != rows[i].0);
    }
}

/// What the interfaces moved on since they were last read is added to the totals of the day and
/// to those that the speed is told from, once for each interface that was known; the newest
/// sample stands last, the four hundred newest are kept, and the counters are those that were
/// read. Where the interfaces cannot be read, none of this changes.
pub proof fn law_traffic_is_what_the_counters_moved(
    m: NetModel,
    input: NetInput,
    now: i64,
    mono: u64,
    i: int,
)
    requires
        input.wrap == 0,
    ensures
        ({
            let a = stepped(m, input, now, mono);
            let before = if input.ymd == m.ymd {
                m.totals
            } else {
                no_totals()
            };
            match input.ifaces {
                Some(list) => {
                    let rows = tables::ifaces_view(list@);
                    let up = rate::clip(
                        rows.fold_left(
                            0int,
                            |a: int, r: Iface|
                                a + (if m.ifaces.contains_key(r.0) {
                                    moved_on(r.1, m.ifaces[r.0].0)
                                } else {
                                    0
                                }),
                        ),
                    );
                    let down = rate::clip(
                        rows.fold_left(
                            0int,
                            |a: int, r: Iface|
                                a + (if m.ifaces.contains_key(r.0) {
                                    moved_on(r.2, m.ifaces[r.0].1)
                                } else {
                                    0
                                }),
                        ),
                    );
                    &&& a.totals.up == rate::clip(before.up + up)
                    &&& a.totals.down == rate::clip(before.down + down)
                    &&& a.ring.last() == (
                        now,
                        rate::clip(m.acc_up + up),
                        rate::clip(m.acc_down + down),
                    )
                    &&& a.acc_up == a.ring.last().1 && a.acc_down == a.ring.last().2
                    &&& m.ring.len() < 400 ==> a.ring.drop_last() == m.ring
                    &&& m.ring.len() >= 400 ==> a.ring.drop_last() == m.ring.skip(
                        m.ring.len() - 399,
                    )
                    &&& 0 <= i < rows.len() && (forall|j: int|
                        i < j < rows.len() ==> (#[trigger] rows[j]).0 != rows[i].0)
                        ==> a.ifaces.contains_key(rows[i].0) && a.ifaces[rows[i].0] == (
                        rows[i].1,
                        rows[i].2,
                    )
                },
                None => {
                    &&& a.totals.up == before.up && a.totals.down == before.down
                    &&& a.ring == m.ring && a.ifaces == m.ifaces
                    &&& a.acc_up == m.acc_up && a.acc_down == m.acc_down
                },
            }
        }),
{
    let a = stepped(m, input, now, mono);
    let b = rolled(m, input.ymd);
    let c = match input.ifaces {
        Some(list) => {
            let rows = tables::ifaces_view(list@);
            lemma_since_is_sum(rows, m.ifaces);
            let c = counted(b, rows, input.wrap, now);
            let all = m.ring.push((now, c.acc_up, c.acc_down));
            assert(all.drop_last() =~= m.ring);
            if m.ring.len() >= 400 {
                assert(c.ring.drop_last() =~= m.ring.skip(m.ring.len() - 399));
            }
            if 0 <= i < rows.len() && (forall|j: int|
                i < j < rows.len() ==> (#[trigger] rows[j]).0 != rows[i].0) {
                lemma_counters_of(rows, i);
            }
            c
        },
        None => b,
    };
    let g = grouped(c, input.groups, mono);
    match input.scan {
        Some((status, obs)) => {
            let events = ckpt::after_look(
                g.states,
                ckpt::obs_view(obs@),
                input.day_start_ms,
                false,
            ).1;
            lemma_events_grow(g.totals, events);
        },
        None => {},
    }
}

/// Each snapshot that is accepted adds its size and one to the totals of the day and stands last
/// in their list; nothing else that happens to snapshots does.
pub proof fn law_accepted_snapshots_are_counted(t: DayTotals, events: Seq<EventView>, e: EventView)
    ensures
        ({
            let a = with_events(t, events);
            let b = with_events(t, events.push(e));
            &&& e.kind == CkptKind::Accepted && a.ckpt_bytes + e.bytes <= u64::MAX && a.ckpt_count
                < u32::MAX ==> b.ckpt_bytes == a.ckpt_bytes + e.bytes && b.ckpt_count
                == a.ckpt_count + 1 && b.uploads.last().bytes == e.bytes
                && b.uploads.last().recorded_ms == e.recorded_ms && (if a.uploads.len() < 100 {
                b.uploads.drop_last() == a.uploads
            } else {
                b.uploads.drop_last() == a.uploads.skip(a.uploads.len() - 99)
            })
            &&& e.kind != CkptKind::Accepted ==> b == a
            &&& with_events(t, Seq::empty()) == t
        }),
{
    assert(events.push(e).drop_last() =~= events);
    let a = with_events(t, events);
    let all = a.uploads.push(upload_row(e));
    let kept = calibration::newest(all, 100);
    if a.uploads.len() < 100 {
        assert(kept.drop_last() =~= a.uploads);
    } else {
        assert(kept.drop_last() =~= a.uploads.skip(a.uploads.len() - 99));
    }
}

/// Totals that have changed are saved at once when that is asked for, else when they never were or
/// more than half a minute ago; totals that have not changed are not.
pub proof fn law_when_totals_are_saved(m: NetModel, force: bool, mono: u64)
    ensures
        !m.dirty ==> !saves(m, force, mono),
        m.dirty && force ==> saves(m, force, mono),
        m.dirty && !force ==> match m.last_save {
            Some(t) => saves(m, force, mono) == (mono - t > 30_000),
            None => saves(m, force, mono),
        },
        saves(m, force, mono) ==> !saves(saved(m, force, mono), force, mono),
{
}

/// Processes are listed anew after five seconds, and snapshots are looked at after two; before that
/// nothing changes.
pub proof fn law_when_lists_are_renewed(
    m: NetModel,
    groups: Option<(Vec<(u32, String)>, Vec<(u32, String)>)>,
    scan: Option<(String, Vec<(String, CkptState)>)>,
    day_start: i64,
    mono: u64,
    t: u64,
)
    ensures
        m.proc_refresh == Some(t) && mono - t <= 5_000 ==> grouped(m, groups, mono) == m,
        (m.proc_refresh == Some(t) && mono - t > 5_000 || m.proc_refresh is None) && groups is Some
            ==> grouped(m, groups, mono).proc_refresh == Some(mono),
        m.ckpt_scan == Some(t) && mono - t <= 2_000 ==> scanned(m, scan, day_start, mono) == m,
        (m.ckpt_scan == Some(t) && mono - t > 2_000 || m.ckpt_scan is None) && scan is Some
            ==> scanned(m, scan, day_start, mono).ckpt_scan == Some(mono),
{
}

/// Sizes are told to the nearest tenth of a megabyte.
pub proof fn law_megabytes_are_rounded(bytes: u64)
    ensures
        -0x10_0000 <= 2 * (tenths_of_mb(bytes) * 0x10_0000 - 10 * bytes) <= 0x10_0000,
{
}

/// The interfaces that are remembered are those that were last read.
pub proof fn law_read_interfaces_are_known(rows: Seq<Iface>, name: Seq<char>)
    ensures
        counters_of(rows).contains_key(name) <==> exists|i: int|
            0 <= i < rows.len() && (#[trigger] rows[i]).0 == name,
    decreases rows.len(),
{
    if rows.len() > 0 {
        let d = rows.drop_last();
        let n = rows.len() - 1;
        law_read_interfaces_are_known(d, name);
        assert(rows[n] == rows.last());
        if counters_of(d).contains_key(name) {
            let i = choose|i: int| 0 <= i < d.len() && (#[trigger] d[i]).0 == name;
            assert(rows[i].0 == name);
        } else if rows.last().0 != name {
            assert forall|i: int| 0 <= i < rows.len() implies (#[trigger] rows[i]).0 != name by {
                if i < n {
                    assert(d[i].0 != name);
                }
            }
        }
    }
}

/// An interface is remembered with the last counters that were read of it.
pub proof fn law_latest_counters_are_kept(rows: Seq<Iface>, i: int)
    requires
        0 <= i < rows.len(),
        forall|j: int| i < j < rows.len() ==> (#[trigger] rows[j]).0 != rows[i].0,
    ensures
        counters_of(rows).contains_key(rows[i].0),
        counters_of(rows)[rows[i].0] == (rows[i].1, rows[i].2),
    decreases rows.len(),
{
    let d = rows.drop_last();
    let n = rows.len() - 1;
    if i < n {
        assert(rows[n].0 != rows[i].0);
        assert(d[i] == rows[i]);
        assert forall|j: int| i < j < d.len() implies (#[trigger] d[j]).0 != d[i].0 by {
            assert(rows[j].0 != rows[i].0);
        }
        law_latest_counters_are_kept(d, i);
    }
}

/// Within a day the totals only grow.
pub proof fn law_totals_grow_within_a_day(m: NetModel, input: NetInput, now: i64, mono: u64)
    requires
        input.ymd == m.ymd,
    ensures
        ({
            let after = stepped(m, input, now, mono).totals;
            &&& after.up >= m.totals.up
            &&& after.down >= m.totals.down
            &&& after.ckpt_bytes >= m.totals.ckpt_bytes
            &&& after.ckpt_count >= m.totals.ckpt_count
        }),
{
    let b = match input.ifaces {
        Some(rows) => {
            let rv = tables::ifaces_view(rows@);
            lemma_since_nonneg(rv, m.ifaces, input.wrap);
            counted(m, rv, input.wrap, now)
        },
        None => m,
    };
    let c = grouped(b, input.groups, mono);
    match input.scan {
        Some((status, obs)) => {
            let events = ckpt::after_look(
                c.states,
                ckpt::obs_view(obs@),
                input.day_start_ms,
                false,
            ).1;
            lemma_events_grow(c.totals, events);
        },
        None => {},
    }
}

/// A new day begins with nothing: what is counted then is what the step itself brings.
pub proof fn law_new_day_starts_from_zero(m: NetModel, input: NetInput, now: i64, mono: u64)
    requires
        input.ymd != m.ymd,
    ensures
        ({
            let blank = NetModel { totals: no_totals(), ymd: input.ymd, ..m };
            stepped(m, input, now, mono).totals == stepped(blank, input, now, mono).totals
        }),
{
}

/// The totals that were saved are found again on the same day, and on no other whose date
/// reads differently.
pub proof fn law_saved_totals_are_found_again(
    ymd: (i32, u32, u32),
    other: (i32, u32, u32),
    t: DayTotals,
)
    requires
        t.uploads.len() <= UPLOADS_CAP,
        plain_uploads(t.uploads),
        clock::date_text(other) != clock::date_text(ymd),
    ensures
        totals_from(day_record(ymd, t), ymd) == Some(t),
        totals_from(day_record(ymd, t), other) is None,
{
    lemma_record_members(ymd, t);
    let list = t.uploads.map_values(|u: CkptView| upload_record(u));
    assert(first_uploads(list) =~= t.uploads) by {
        assert forall|i: int| 0 <= i < t.uploads.len() implies #[trigger] upload_from(list[i])
            == t.uploads[i] by {
            lemma_upload_found_again(t.uploads[i]);
        }
    }
}

proof fn lemma_record_keys_differ()
    ensures
        "up"@ != "day"@,
        "down"@ != "day"@,
        "down"@ != "up"@,
        "ckpt"@ != "day"@,
        "ckpt"@ != "up"@,
        "ckpt"@ != "down"@,
        "ckpt_count"@ != "day"@,
        "ckpt_count"@ != "up"@,
        "ckpt_count"@ != "down"@,
        "ckpt_count"@ != "ckpt"@,
        "uploads"@ != "day"@,
        "uploads"@ != "up"@,
        "uploads"@ != "down"@,
        "uploads"@ != "ckpt"@,
        "uploads"@ != "ckpt_count"@,
{
    reveal_strlit("day");
    reveal_strlit("up");
    reveal_strlit("down");
    reveal_strlit("ckpt");
    reveal_strlit("ckpt_count");
    reveal_strlit("uploads");
    assert("day"@.len() == 3 && "up"@.len() == 2 && "down"@.len() == 4 && "ckpt"@.len() == 4
        && "ckpt_count"@.len() == 10 && "uploads"@.len() == 7);
    assert("down"@[0] != "ckpt"@[0]);
}

proof fn lemma_record_members(ymd: (i32, u32, u32), t: DayTotals)
    ensures
        ({
            let v = day_record(ymd, t);
            &&& v.member("day"@) == Some(JsonView::Text(clock::date_text(ymd)))
            &&& v.member("up"@) == Some(unsigned_json(t.up))
            &&& v.member("down"@) == Some(unsigned_json(t.down))
            &&& v.member("ckpt"@) == Some(unsigned_json(t.ckpt_bytes))
            &&& v.member("ckpt_count"@) == Some(unsigned_json(t.ckpt_count as u64))
            &&& v.member("uploads"@) == Some(
                JsonView::List(t.uploads.map_values(|u: CkptView| upload_record(u))),
            )
        }),
{
    lemma_record_keys_differ();
}

proof fn lemma_upload_found_again(u: CkptView)
    requires
        u.accepted,
        !u.uploading,
        u.hash is None,
    ensures
        upload_from(upload_record(u)) == u,
{
    reveal_strlit("ws");
    reveal_strlit("bytes");
    reveal_strlit("at");
    assert("ws"@[0] != "at"@[0]);
    let v = upload_record(u);
    assert(v.member("ws"@) == Some(JsonView::Text(u.workspace)));
    assert(v.member("bytes"@) == Some(unsigned_json(u.bytes)));
    assert(v.member("at"@) == Some(signed_json(u.recorded_ms)));
}

/// A counter that grew by two gigabytes or more is taken to have been reset; the last four hundred
/// samples are kept.
pub proof fn law_limits_of_the_counters(old: u64, by: u64, m: NetModel, rows: Seq<Iface>, now: i64)
    requires
        old + by <= u64::MAX,
    ensures
        increment((old + by) as u64, old, 0) == (if by < 2 * 0x4000_0000 {
            by
        } else {
            0
        }),
        ({
            let r = counted(m, rows, 0, now).ring;
            &&& r.last() == (now, counted(m, rows, 0, now).acc_up, counted(m, rows, 0, now).acc_down)
            &&& r.len() == (if m.ring.len() < 400 {
                m.ring.len() + 1
            } else {
                400
            })
            &&& m.ring.len() < 400 ==> r.drop_last() == m.ring
        }),
{
    let c = counted(m, rows, 0, now);
    let all = m.ring.push((now, c.acc_up, c.acc_down));
    if m.ring.len() < 400 {
        assert(all.drop_last() =~= m.ring);
    }
}

} // verus!
