//! The live measurement: which processes are measured, what was learned from calls, and
//! what the speed is now.

use std::collections::{HashSet, VecDeque};

use vstd::prelude::*;

use crate::attribution;
use crate::breakdown;
use crate::breakdown::{TaskLive, TaskView};
use crate::calibration;
use crate::call::{Call, CallView};
use crate::pulse;
use crate::pulse::{Anchor, Pulse};
use crate::order;
use crate::probe;
use crate::probe::{Proc, ProcRing, Samples};
use crate::rate;
use crate::settle;
use crate::settle::{CalEvent, Learned, Learning};
use crate::stream;
use crate::stream::{CleanParams, TickRow};
use crate::strmap;
use crate::strmap::StrMap;

verus! {

broadcast use vstd::std_specs::hash::group_hash_axioms;

/// How often the list of processes is renewed.
pub const REFRESH_EVERY_MS: u64 = 30_000;

/// How often it is renewed while a process may be missing from it.
pub const QUICK_REFRESH_MS: u64 = 2_000;

/// How many completed calls wait at most.
pub const PENDING_CAP: usize = 8;

/// How many sessions are attributed at most.
pub const SESSION_CAP: usize = 200;

/// The speed at a moment.
#[derive(Debug)]
pub struct LiveNow {
    /// Processes are measured.
    pub available: bool,
    /// Something is being generated.
    pub streaming: bool,
    /// The span of the average is not full yet.
    pub ramping: bool,
    /// A call has started and nothing has streamed yet.
    pub awaiting: bool,
    /// Millionths of a token per second.
    pub tps: u64,
    /// Thousandths of a byte per second.
    pub pipe_bps: u64,
    /// How many processes contribute at a streaming rate.
    pub n_pids: usize,
    /// What each process contributes, the fastest first.
    pub tasks: Vec<TaskLive>,
    /// The rate of each measured process in the detection window, in tenths of a kilobyte
    /// per second.
    pub proc_bps: Vec<(u32, i64)>,
}

/// A [`LiveNow`] without its representation.
#[verifier::ext_equal]
pub struct LiveNowView {
    pub available: bool,
    pub streaming: bool,
    pub ramping: bool,
    pub awaiting: bool,
    pub tps: u64,
    pub pipe_bps: u64,
    pub n_pids: nat,
    pub tasks: Seq<TaskView>,
    pub proc_bps: Seq<(u32, i64)>,
}

impl View for LiveNow {
    type V = LiveNowView;

    open spec fn view(&self) -> LiveNowView {
        LiveNowView {
            available: self.available,
            streaming: self.streaming,
            ramping: self.ramping,
            awaiting: self.awaiting,
            tps: self.tps,
            pipe_bps: self.pipe_bps,
            n_pids: self.n_pids as nat,
            tasks: breakdown::tasks_view(self.tasks@),
            proc_bps: self.proc_bps@,
        }
    }
}

/// The live measurement.
pub struct LiveIo {
    /// The measured processes.
    pub procs: Vec<ProcRing>,
    /// When the list of processes was last renewed, on a clock that never goes back.
    pub last_refresh: Option<u64>,
    /// The size of the tracked files over time.
    pub files_hist: VecDeque<(i64, u64)>,
    /// Completed calls that have not been learned from yet.
    pub pending: VecDeque<Call>,
    /// How counters are cleaned.
    pub params: CleanParams,
    /// What was learned from completed calls.
    pub learned: Learning,
    /// Since when something has been streaming.
    pub anchor: Anchor,
    /// The session of the latest completed call.
    pub current_session: Option<String>,
    /// The calls of before the start have been taken in.
    pub history_done: bool,
    /// The sessions in progress, with the start of their call.
    pub inflight: Vec<(String, i64)>,
    /// The processes that sessions in progress were known to have at the last measurement,
    /// whether or not these have exited since.
    pub owners: StrMap<u32>,
    /// A process has been measured at some time.
    pub ever_saw_procs: bool,
}

/// A [`LiveIo`] without its representation.
#[verifier::ext_equal]
pub struct LiveState {
    pub procs: Seq<Proc>,
    pub last_refresh: Option<u64>,
    pub files: Samples,
    pub pending: Seq<CallView>,
    pub params: CleanParams,
    pub learned: Learned,
    pub anchor: Anchor,
    pub current: Option<Seq<char>>,
    pub history_done: bool,
    pub inflight: Seq<(String, i64)>,
    pub owners: Map<Seq<char>, u32>,
    pub ever_saw: bool,
}

impl View for LiveIo {
    type V = LiveState;

    open spec fn view(&self) -> LiveState {
        LiveState {
            procs: probe::procs_view(self.procs@),
            last_refresh: self.last_refresh,
            files: self.files_hist@,
            pending: settle::calls_view(self.pending@),
            params: self.params,
            learned: self.learned@,
            anchor: self.anchor,
            current: match self.current_session {
                Some(s) => Some(s@),
                None => None,
            },
            history_done: self.history_done,
            inflight: self.inflight@,
            owners: self.owners@,
            ever_saw: self.ever_saw_procs,
        }
    }
}

/// The session of the call that was completed last; of several, that of the last one.
pub open spec fn latest_session(calls: Seq<CallView>) -> Option<(i64, Seq<char>)>
    decreases calls.len(),
{
    if calls.len() == 0 {
        None
    } else {
        match latest_session(calls.drop_last()) {
            Some(best) if best.0 > calls.last().completed_ms => Some(best),
            _ => Some((calls.last().completed_ms, calls.last().session)),
        }
    }
}

/// A sample of the rate per token that may be restored.
pub open spec fn restorable(v: Option<u64>, p: CleanParams) -> bool {
    v matches Some(x) && p.cal_min <= x <= p.cal_max
}

/// The samples of a list that may be restored.
pub open spec fn restored(samples: Seq<Option<u64>>, p: CleanParams) -> Seq<u64>
    decreases samples.len(),
{
    if samples.len() == 0 {
        Seq::empty()
    } else {
        let front = restored(samples.drop_last(), p);
        if restorable(samples.last(), p) {
            front.push(samples.last()->0)
        } else {
            front
        }
    }
}

/// The sessions in progress that have a process that is measured, with that process.
pub open spec fn attributed_sessions(
    inflight: Seq<(String, i64)>,
    map: Map<Seq<char>, u32>,
    procs: Seq<Proc>,
) -> Seq<(Seq<char>, u32)>
    decreases inflight.len(),
{
    if inflight.len() == 0 {
        Seq::empty()
    } else {
        let front = attributed_sessions(inflight.drop_last(), map, procs);
        let s = inflight.last().0@;
        match settle::stream_pid(map, s, procs) {
            Some(pid) => front.push((s, pid)),
            None => front,
        }
    }
}

/// A session in progress has no process yet.
pub open spec fn unattributed(inflight: Seq<(String, i64)>, map: Map<Seq<char>, u32>) -> bool {
    exists|i: int| 0 <= i < inflight.len() && !map.contains_key((#[trigger] inflight[i]).0@)
}

/// The list of processes is to be renewed: after the long interval; or after the short
/// one, while there is no process, or a session in progress has none, or several sessions
/// are in progress.
pub open spec fn due(st: LiveState, now: u64) -> bool {
    match st.last_refresh {
        None => true,
        Some(t) => {
            ||| now - t > REFRESH_EVERY_MS
            ||| now - t > QUICK_REFRESH_MS && (st.procs.len() == 0 || unattributed(
                st.inflight,
                st.learned.session_pid,
            ) || st.inflight.len() >= 2)
        },
    }
}

/// The attributions that survive: those to processes that are measured; none if there are
/// too many.
pub open spec fn surviving(map: Map<Seq<char>, u32>, procs: Seq<Proc>) -> Map<Seq<char>, u32> {
    let alive = strmap::kept(map, probe::pid_set(procs));
    if alive.len() > SESSION_CAP {
        Map::empty()
    } else {
        alive
    }
}

/// A session is in progress.
pub open spec fn in_progress(inflight: Seq<(String, i64)>, session: Seq<char>) -> bool {
    exists|i: int| 0 <= i < inflight.len() && (#[trigger] inflight[i]).0@ == session
}

/// The processes that the sessions in progress are known to have: the one that is attributed
/// now, else the one that was known before.
pub open spec fn remembered(
    inflight: Seq<(String, i64)>,
    map: Map<Seq<char>, u32>,
    before: Map<Seq<char>, u32>,
) -> Map<Seq<char>, u32> {
    Map::new(
        |s: Seq<char>| in_progress(inflight, s) && (map.contains_key(s) || before.contains_key(s)),
        |s: Seq<char>|
            if map.contains_key(s) {
                map[s]
            } else {
                before[s]
            },
    )
}

/// The processes that the sessions in progress are known to have.
pub open spec fn owners_of(st: LiveState) -> Map<Seq<char>, u32> {
    remembered(st.inflight, st.learned.session_pid, st.owners)
}

/// The processes of all sessions in progress, as they were known before, have exited: each
/// session has one, and none of these has a counter any more.
pub open spec fn owners_gone(st: LiveState, now: i64, counters: Seq<(u32, u64)>) -> bool {
    pulse::all_gone(st.inflight, owners_of(st), probe::after_sampling(st.procs, now, counters))
}

fn remember(inflight: &[(String, i64)], map: &StrMap<u32>, before: &StrMap<u32>) -> (r: StrMap<u32>)
    requires
        map.wf(),
        before.wf(),
    ensures
        r.wf(),
        r@ == remembered(inflight@, map@, before@),
{
    let mut out: StrMap<u32> = StrMap::new();
    assert(out@ =~= remembered(inflight@.take(0), map@, before@));
    for i in 0..inflight.len()
        invariant
            map.wf(),
            before.wf(),
            out.wf(),
            out@ == remembered(inflight@.take(i as int), map@, before@),
    {
        let ghost front = inflight@.take(i as int);
        let ghost all = inflight@.take(i + 1);
        let session = inflight[i].0.as_str();
        proof {
            assert forall|s: Seq<char>| #[trigger] in_progress(all, s) <==> in_progress(front, s)
                || s == session@ by {
                if in_progress(front, s) {
                    let k = choose|k: int| 0 <= k < front.len() && (#[trigger] front[k]).0@ == s;
                    assert(all[k].0@ == s);
                }
                if in_progress(all, s) {
                    let k = choose|k: int| 0 <= k < all.len() && (#[trigger] all[k]).0@ == s;
                    if k < i {
                        assert(front[k].0@ == s);
                    }
                }
                assert(all[i as int].0@ == session@);
            }
        }
        let known: Option<u32> = match map.get(session) {
            Some(pid) => Some(*pid),
            None => match before.get(session) {
                Some(pid) => Some(*pid),
                None => None,
            },
        };
        if let Some(pid) = known {
            out.insert(inflight[i].0.clone(), pid);
        }
        assert(out@ =~= remembered(all, map@, before@));
    }
    assert(inflight@.take(inflight@.len() as int) =~= inflight@);
    out
}

/// A quotient rounded to the nearest whole number, halves away from zero.
pub open spec fn rounded(num: int, den: int) -> int {
    if num >= 0 {
        (2 * num + den) / (2 * den)
    } else {
        -((2 * -num + den) / (2 * den))
    }
}

/// The rate of a stream over an interval, in tenths of a kilobyte per second.
pub open spec fn tenths_kb(rows: Seq<TickRow>, from: int, to: int) -> i64 {
    if stream::covered(rows, from, to) > 0 {
        rate::clip_signed(
            rounded(
                10 * stream::carried(rows, from, to),
                1024 * stream::covered(rows, from, to),
            ),
        )
    } else {
        0
    }
}

/// The state once every process has been sampled and the calls that are due have been
/// learned from.
pub open spec fn taken_in(st: LiveState, now: i64, counters: Seq<(u32, u64)>, total: u64) -> LiveState {
    let procs = probe::after_sampling(st.procs, now, counters);
    let files = calibration::newest(st.files.push((now, total)), probe::RING_CAP as nat);
    let (learned, pending) = settle::settled(
        Learned { session_pid: surviving(st.learned.session_pid, procs), ..st.learned },
        st.pending,
        now,
        procs,
        files,
        st.inflight,
        st.params,
    );
    LiveState { procs, files, pending, learned, owners: owners_of(st), ..st }
}

/// The processes that are displayed.
pub open spec fn displayed(st: LiveState) -> Seq<Proc> {
    probe::chosen(
        st.procs,
        attribution::display_set(st.inflight, st.learned.session_pid, probe::pid_set(st.procs)),
    )
}

/// The pulse of the single stream of the displayed processes.
pub open spec fn pulse_of(st: LiveState, gone: bool, now: i64) -> Pulse {
    let rows = probe::one_stream(displayed(st), st.files, st.params);
    let hot_now = pulse::hot(rows, now - st.params.detect_ms, now as int);
    pulse::pulse_at(
        st.anchor,
        rows,
        pulse::is_open(
            gone,
            st.inflight.len() > 0,
            st.current is Some,
            hot_now,
        ),
        hot_now,
        pulse::latest_start(st.inflight),
        now,
    )
}

/// What is shown once the state has been taken in. `gone` tells that the processes of all
/// sessions in progress have exited.
pub open spec fn shown(st: LiveState, gone: bool, now: i64) -> LiveNowView {
    let g = pulse_of(st, gone, now);
    let procs = displayed(st);
    let rows = probe::one_stream(procs, st.files, st.params);
    let f = breakdown::frame_of(
        procs,
        rows,
        st.files,
        pulse::span_start(g.active_since, now),
        now as int,
        st.learned.bpt,
        st.params,
    );
    let detailed = g.streaming && !g.awaiting;
    LiveNowView {
        available: st.procs.len() > 0,
        streaming: g.streaming,
        ramping: g.ramping,
        awaiting: g.awaiting,
        tps: if g.streaming {
            pulse::speed_at(g.pipe_bps, st.learned.bpt)
        } else {
            0
        },
        pipe_bps: g.pipe_bps,
        n_pids: if detailed {
            breakdown::streaming_count(procs, f, st.params)
        } else {
            0
        },
        tasks: if detailed {
            order::ranked(
                breakdown::tasks_of(procs, f, st.inflight, st.learned.session_pid, st.params),
            )
        } else {
            Seq::empty()
        },
        proc_bps: Seq::new(
            st.procs.len(),
            |i: int|
                (
                    st.procs[i].0,
                    tenths_kb(
                        probe::rows_of(st.procs[i].1, st.params),
                        now - st.params.detect_ms,
                        now as int,
                    ),
                ),
        ),
    }
}

/// The state after a measurement.
pub open spec fn after_measure(
    st: LiveState,
    now: i64,
    counters: Seq<(u32, u64)>,
    total: u64,
) -> LiveState {
    let mid = taken_in(st, now, counters, total);
    let g = pulse_of(mid, owners_gone(st, now, counters), now);
    LiveState {
        anchor: Anchor {
            active_since: g.active_since,
            last_stream_ms: g.last_stream_ms,
            streaming: g.streaming,
        },
        ..mid
    }
}

fn alive_set(procs: &[ProcRing]) -> (r: HashSet<u32>)
    ensures
        r@ == probe::pid_set(probe::procs_view(procs@)),
{
    let mut set: HashSet<u32> = HashSet::new();
    let ghost pv = probe::procs_view(procs@);
    for i in 0..procs.len()
        invariant
            pv == probe::procs_view(procs@),
            forall|pid: u32| #[trigger]
                set@.contains(pid) <==> exists|k: int| 0 <= k < i && (#[trigger] pv[k]).0 == pid,
    {
        let ghost before = set@;
        let _ = set.insert(procs[i].pid);
        assert forall|pid: u32| #[trigger] set@.contains(pid) <==> exists|k: int|
            0 <= k < i + 1 && (#[trigger] pv[k]).0 == pid by {
            assert(pv[i as int].0 == procs@[i as int].pid);
            if before.contains(pid) {
                let k = choose|k: int| 0 <= k < i && (#[trigger] pv[k]).0 == pid;
                assert(pv[k].0 == pid);
            }
        }
    }
    assert(set@ =~= probe::pid_set(pv));
    set
}

fn rounded_quotient(num: i128, den: i128) -> (r: i128)
    requires
        den > 0,
        den <= 0x1000_0000_0000_0000_0000_0000_0000,
        stream::size(num as int) <= 0x1000_0000_0000_0000_0000_0000_0000_0000,
    ensures
        r == rounded(num as int, den as int),
{
    if num >= 0 {
        (2 * num + den) / (2 * den)
    } else {
        -((2 * (-num) + den) / (2 * den))
    }
}

fn proc_rate(rows: &[TickRow], from_ms: i64, to_ms: i64) -> (r: i64)
    requires
        stream::all_light(rows@),
        rows@.len() <= probe::RING_CAP,
    ensures
        r == tenths_kb(rows@, from_ms as int, to_ms as int),
{
    proof {
        stream::lemma_light_weight(rows@);
        assert(rows@.len() * stream::TICK_LIMIT <= 0x200 * stream::TICK_LIMIT) by (nonlinear_arith)
            requires
                rows@.len() <= 0x200,
                stream::TICK_LIMIT >= 0,
        ;
        pulse::lemma_covered_small(rows@, from_ms as int, to_ms as int);
    }
    let (b, ms) = stream::integrate(rows, from_ms, to_ms);
    if ms > 0 {
        rate::clipped_signed(rounded_quotient(10 * b, 1024 * ms as i128))
    } else {
        0
    }
}

impl LiveIo {
    /// Everything is within its bounds.
    pub open spec fn wf(&self) -> bool {
        &&& probe::procs_wf(self@.procs)
        &&& self.files_hist@.len() <= probe::RING_CAP
        &&& stream::clocked(self.files_hist@)
        &&& self.params.wf()
        &&& self.learned.wf()
        &&& self.pending@.len() <= PENDING_CAP
        &&& self.owners.wf()
    }

    /// Nothing measured and nothing learned yet: the rate per token is that of the platform.
    pub fn new(on_macos: bool) -> (r: Self)
        ensures
            r.wf(),
            r@ == (LiveState {
                procs: Seq::empty(),
                last_refresh: None,
                files: Seq::empty(),
                pending: Seq::empty(),
                params: if on_macos {
                    CleanParams::macos_params()
                } else {
                    CleanParams::windows_params()
                },
                learned: Learned {
                    session_pid: Map::empty(),
                    attributed: Map::empty(),
                    cal: seq![r.params.default_bpt],
                    bpt: r.params.default_bpt,
                    event: None,
                },
                anchor: Anchor { active_since: None, last_stream_ms: None, streaming: false },
                current: None,
                history_done: false,
                inflight: Seq::empty(),
                owners: Map::empty(),
                ever_saw: false,
            }),
    {
        let params = CleanParams::platform(on_macos);
        let mut cal: VecDeque<u64> = VecDeque::new();
        cal.push_back(params.default_bpt);
        let r = LiveIo {
            procs: Vec::new(),
            last_refresh: None,
            files_hist: VecDeque::new(),
            pending: VecDeque::new(),
            params,
            learned: Learning {
                session_pid: StrMap::new(),
                attributed: StrMap::new(),
                cal,
                bytes_per_token: params.default_bpt,
                pending_cal: None,
            },
            anchor: Anchor { active_since: None, last_stream_ms: None, streaming: false },
            current_session: None,
            history_done: false,
            inflight: Vec::new(),
            owners: StrMap::new(),
            ever_saw_procs: false,
        };
        assert(r@.procs =~= Seq::empty());
        assert(r@.pending =~= Seq::empty());
        assert(r@.learned.cal =~= seq![r.params.default_bpt]);
        proof {
            calibration::lemma_median_of_one(r.params.default_bpt);
        }
        r
    }

    /// Takes in the calls of before the start: the latest one tells the current session.
    pub fn ingest_history(&mut self, calls: &[Call])
        requires
            old(self).wf(),
        ensures
            final(self).wf(),
            final(self)@ == (LiveState {
                current: match latest_session(settle::calls_view(calls@)) {
                    Some(best) => Some(best.1),
                    None => old(self)@.current,
                },
                history_done: true,
                ..old(self)@
            }),
    {
        let mut best: Option<usize> = None;
        let ghost cv = settle::calls_view(calls@);
        assert(cv.take(0) =~= Seq::empty());
        for i in 0..calls.len()
            invariant
                cv == settle::calls_view(calls@),
                match best {
                    Some(b) => b < i && latest_session(cv.take(i as int)) == Some(
                        (cv[b as int].completed_ms, cv[b as int].session),
                    ),
                    None => latest_session(cv.take(i as int)) is None,
                },
        {
            assert(cv.take(i + 1).drop_last() =~= cv.take(i as int));
            best =
            match best {
                Some(b) => if calls[b].completed_ms > calls[i].completed_ms {
                    Some(b)
                } else {
                    Some(i)
                },
                None => Some(i),
            };
        }
        assert(cv.take(cv.len() as int) =~= cv);
        match best {
            Some(b) => {
                self.current_session = Some(calls[b].session.clone());
            },
            None => {},
        }
        self.history_done = true;
    }

    /// Whether the calls of before the start have been taken in.
    pub fn history_done(&self) -> (r: bool)
        ensures
            r == self@.history_done,
    {
        self.history_done
    }

    /// Takes in newly completed calls: they wait to be learned from, the oldest giving way,
    /// and the last one tells the current session.
    pub fn observe(&mut self, new_calls: &[Call])
        requires
            old(self).wf(),
        ensures
            final(self).wf(),
            final(self)@ == (LiveState {
                pending: calibration::newest(
                    old(self)@.pending + settle::calls_view(new_calls@),
                    PENDING_CAP as nat,
                ),
                current: if new_calls@.len() > 0 {
                    Some(new_calls@.last()@.session)
                } else {
                    old(self)@.current
                },
                ..old(self)@
            }),
    {
        settle::enqueue(&mut self.pending, new_calls);
        if new_calls.len() > 0 {
            self.current_session = Some(new_calls[new_calls.len() - 1].session.clone());
        }
        let ghost all = self.pending@;
        calibration::keep_newest(&mut self.pending, PENDING_CAP);
        assert(settle::calls_view(self.pending@) =~= calibration::newest(
            settle::calls_view(all),
            PENDING_CAP as nat,
        ));
    }

    /// Sets the sessions in progress.
    pub fn set_inflight(&mut self, inflight: Vec<(String, i64)>)
        requires
            old(self).wf(),
        ensures
            final(self).wf(),
            final(self)@ == (LiveState { inflight: inflight@, ..old(self)@ }),
    {
        self.inflight = inflight;
    }

    /// Whether a session is in progress.
    pub fn has_inflight(&self) -> (r: bool)
        ensures
            r == (self@.inflight.len() > 0),
    {
        self.inflight.len() > 0
    }

    /// The sessions in progress that have a process that is measured, with that process.
    pub fn inflight_attr(&self) -> (r: Vec<(String, u32)>)
        requires
            self.wf(),
        ensures
            r@.map_values(|e: (String, u32)| (e.0@, e.1)) == attributed_sessions(
                self@.inflight,
                self@.learned.session_pid,
                self@.procs,
            ),
    {
        let mut out: Vec<(String, u32)> = Vec::new();
        let ghost fl = self.inflight@;
        let ghost map = self.learned.session_pid@;
        let ghost pv = self@.procs;
        let ghost f = |e: (String, u32)| (e.0@, e.1);
        assert(fl.take(0) =~= Seq::empty());
        assert(out@.map_values(f) =~= Seq::empty());
        for i in 0..self.inflight.len()
            invariant
                self.wf(),
                fl == self.inflight@,
                map == self.learned.session_pid@,
                pv == self@.procs,
                f == (|e: (String, u32)| (e.0@, e.1)),
                out@.map_values(f) == attributed_sessions(fl.take(i as int), map, pv),
        {
            assert(fl.take(i + 1).drop_last() =~= fl.take(i as int));
            let ghost before = out@.map_values(f);
            let session = self.inflight[i].0.as_str();
            match settle::measured_pid(&self.learned.session_pid, session, &self.procs) {
                Some(pid) => {
                    out.push((self.inflight[i].0.clone(), pid));
                    assert(out@.map_values(f) =~= before.push((fl[i as int].0@, pid)));
                },
                None => {},
            }
        }
        assert(fl.take(fl.len() as int) =~= fl);
        out
    }

    /// The present rate per token, in thousandths of a byte.
    pub fn bytes_per_token(&self) -> (r: u64)
        ensures
            r == self@.learned.bpt,
    {
        self.learned.bytes_per_token
    }

    /// Whether a process has been measured at some time.
    pub fn ever_saw_procs(&self) -> (r: bool)
        ensures
            r == self@.ever_saw,
    {
        self.ever_saw_procs
    }

    /// Takes out what the latest call showed.
    pub fn take_calibration(&mut self) -> (r: Option<CalEvent>)
        requires
            old(self).wf(),
        ensures
            final(self).wf(),
            match r {
                Some(e) => old(self)@.learned.event == Some(e@),
                None => old(self)@.learned.event is None,
            },
            final(self)@ == (LiveState {
                learned: Learned { event: None, ..old(self)@.learned },
                ..old(self)@
            }),
    {
        self.learned.pending_cal.take()
    }

    /// Forgets the learned rate per token, and gives that of the platform, which holds again.
    pub fn reset_calibration(&mut self) -> (r: u64)
        requires
            old(self).wf(),
        ensures
            final(self).wf(),
            r == old(self)@.params.default_bpt,
            final(self)@ == (LiveState {
                learned: Learned { cal: seq![r], bpt: r, ..old(self)@.learned },
                ..old(self)@
            }),
    {
        self.learned.cal.clear();
        self.learned.cal.push_back(self.params.default_bpt);
        self.learned.bytes_per_token = self.params.default_bpt;
        assert(self.learned.cal@ =~= seq![self.params.default_bpt]);
        proof {
            calibration::lemma_median_of_one(self.params.default_bpt);
        }
        self.learned.bytes_per_token
    }

    /// The samples of the rate per token, in thousandths of a byte.
    pub fn cal_state(&self) -> (r: Vec<u64>)
        ensures
            r@ == self@.learned.cal,
    {
        calibration::listed(&self.learned.cal)
    }

    /// Takes in samples of the rate per token that were saved; what is no number or out of
    /// bounds is left out. Gives how many were taken in; where none was, nothing changes.
    pub fn restore_cal(&mut self, samples: &[Option<u64>]) -> (r: usize)
        requires
            old(self).wf(),
        ensures
            final(self).wf(),
            r == restored(samples@, old(self)@.params).len(),
            r == 0 ==> final(self)@ == old(self)@,
            final(self)@ == ({
                let cal = calibration::newest(
                    old(self)@.learned.cal + restored(samples@, old(self)@.params),
                    calibration::CAL_QUEUE_CAP as nat,
                );
                LiveState {
                    learned: Learned {
                        cal,
                        bpt: calibration::upper_median(cal),
                        ..old(self)@.learned
                    },
                    ..old(self)@
                }
            }),
    {
        let ghost before = self.learned.cal@;
        let ghost p = self.params;
        let mut n: usize = 0;
        assert(samples@.take(0) =~= Seq::empty());
        assert(before + restored(samples@.take(0), p) =~= before);
        for i in 0..samples.len()
            invariant
                p == self.params,
                p.wf(),
                self.learned.cal@ == before + restored(samples@.take(i as int), p),
                forall|k: int|
                    0 <= k < self.learned.cal@.len() ==> #[trigger] self.learned.cal@[k] > 0,
                n == restored(samples@.take(i as int), p).len(),
                n <= i,
                self@ == (LiveState {
                    learned: Learned { cal: self.learned.cal@, ..old(self)@.learned },
                    ..old(self)@
                }),
                old(self).wf(),
                probe::procs_wf(self@.procs),
                self.files_hist@.len() <= probe::RING_CAP,
                stream::clocked(self.files_hist@),
                self.learned.session_pid.wf(),
                self.learned.attributed.wf(),
                self.learned.bytes_per_token > 0,
                self.learned.cal@.len() > 0,
                self.pending@.len() <= PENDING_CAP,
                self.owners.wf(),
        {
            assert(samples@.take(i + 1).drop_last() =~= samples@.take(i as int));
            match samples[i] {
                Some(v) => {
                    if v >= self.params.cal_min && v <= self.params.cal_max {
                        let ghost c0 = self.learned.cal@;
                        self.learned.cal.push_back(v);
                        n = n + 1;
                        assert(self.learned.cal@ =~= before + restored(samples@.take(i + 1), p));
                    }
                },
                None => {},
            }
        }
        assert(samples@.take(samples@.len() as int) =~= samples@);
        let ghost all = self.learned.cal@;
        calibration::keep_newest(&mut self.learned.cal, calibration::CAL_QUEUE_CAP);
        proof {
            let kept = self.learned.cal@;
            assert forall|k: int| 0 <= k < kept.len() implies #[trigger] kept[k] > 0 by {
                assert(kept[k] == all[k + all.len() - kept.len()]);
            }
            calibration::law_median_is_a_sample(kept);
            let k = choose|k: int|
                0 <= k < kept.len() && kept[k] == calibration::upper_median(kept);
            assert(kept[k] > 0);
        }
        self.learned.bytes_per_token = calibration::median_of(&self.learned.cal);
        assert(n == 0 ==> self@.learned.cal =~= before);
        n
    }

    /// Whether the list of processes is to be renewed. The time is that of a clock that never
    /// goes back.
    pub fn refresh_due(&self, mono_ms: u64) -> (r: bool)
        requires
            self.wf(),
        ensures
            r == due(self@, mono_ms),
    {
        match self.last_refresh {
            None => true,
            Some(t) => {
                let passed: u64 = if mono_ms >= t {
                    mono_ms - t
                } else {
                    0
                };
                if passed > REFRESH_EVERY_MS {
                    return true;
                }
                if passed <= QUICK_REFRESH_MS {
                    return false;
                }
                if self.procs.len() == 0 || self.inflight.len() >= 2 {
                    return true;
                }
                for i in 0..self.inflight.len()
                    invariant
                        self.wf(),
                        forall|k: int|
                            0 <= k < i ==> self.learned.session_pid@.contains_key(
                                (#[trigger] self.inflight@[k]).0@,
                            ),
                        QUICK_REFRESH_MS < mono_ms - t <= REFRESH_EVERY_MS,
                        self.last_refresh == Some(t),
                        self.procs@.len() > 0,
                        self.inflight@.len() < 2,
                {
                    if !self.learned.session_pid.contains_key(self.inflight[i].0.as_str()) {
                        assert(!self.learned.session_pid@.contains_key(
                            self.inflight@[i as int].0@,
                        ));
                        return true;
                    }
                }
                false
            },
        }
    }

    /// Takes over a list of processes, each with whether it could be opened.
    pub fn refreshed(&mut self, mono_ms: u64, found: &[(u32, bool)])
        requires
            old(self).wf(),
        ensures
            final(self).wf(),
            final(self)@ == ({
                let procs = probe::after_refresh(old(self)@.procs, found@);
                LiveState {
                    procs,
                    last_refresh: Some(mono_ms),
                    ever_saw: old(self)@.ever_saw || procs.len() > 0,
                    ..old(self)@
                }
            }),
    {
        self.last_refresh = Some(mono_ms);
        probe::refresh(&mut self.procs, found);
        if self.procs.len() > 0 {
            self.ever_saw_procs = true;
        }
    }

    /// The numbers of the measured processes.
    pub fn pids(&self) -> (r: Vec<u32>)
        ensures
            r@ == self@.procs.map_values(|p: Proc| p.0),
    {
        let mut v: Vec<u32> = Vec::new();
        for i in 0..self.procs.len()
            invariant
                v@.len() == i,
                forall|k: int| 0 <= k < i ==> #[trigger] v@[k] == self.procs@[k].pid,
        {
            v.push(self.procs[i].pid);
        }
        assert(v@ =~= self@.procs.map_values(|p: Proc| p.0));
        v
    }

    /// Samples the processes and the tracked files, and learns from the calls that are due.
    fn take_in(&mut self, now_ms: i64, counters: &[(u32, u64)], files_total: u64) -> (r: (
        Vec<Vec<TickRow>>,
        Vec<(i64, u64)>,
        bool,
    ))
        requires
            old(self).wf(),
            stream::on_clock(now_ms as int),
        ensures
            final(self).wf(),
            final(self)@ == taken_in(old(self)@, now_ms, counters@, files_total),
            probe::rows_views(r.0@) == probe::rows_table(final(self)@.procs, final(self)@.params),
            r.0@.len() == final(self)@.procs.len(),
            forall|i: int|
                0 <= i < r.0@.len() ==> stream::all_light((#[trigger] r.0@[i])@) && r.0@[i]@.len()
                    <= probe::RING_CAP,
            r.1@ == final(self)@.files,
            r.2 == owners_gone(old(self)@, now_ms, counters@),
    {
        probe::sample(&mut self.procs, now_ms, counters);
        self.owners = remember(&self.inflight, &self.learned.session_pid, &self.owners);
        let gone = pulse::is_all_gone(&self.inflight, &self.owners, &self.procs);
        let alive = alive_set(&self.procs);
        self.learned.session_pid.keep_values(&alive);
        if self.learned.session_pid.len() > SESSION_CAP {
            self.learned.session_pid.clear();
        }
        let ghost f0 = self.files_hist@.push((now_ms, files_total));
        self.files_hist.push_back((now_ms, files_total));
        calibration::keep_newest(&mut self.files_hist, probe::RING_CAP);
        proof {
            let f1 = self.files_hist@;
            assert forall|i: int| 0 <= i < f1.len() implies stream::on_clock(
                (#[trigger] f1[i]).0 as int,
            ) by {
                let k = i + f0.len() - f1.len();
                assert(f1[i] == f0[k]);
                if k < f0.len() - 1 {
                    assert(old(self).files_hist@[k] == f0[k]);
                }
            }
        }
        let files = probe::samples_of(&self.files_hist);
        let rows = probe::clean_all(&self.procs, &self.params);
        settle::settle(
            &mut self.learned,
            &mut self.pending,
            now_ms,
            &self.procs,
            &rows,
            &files,
            &self.inflight,
            &self.params,
        );
        (rows, files, gone)
    }

    /// Measures: takes a sample of the counter of each process (a process without one is
    /// gone) and of the size of the tracked files, learns from the calls that are due, and
    /// gives the speed now.
    pub fn measure(
        &mut self,
        now_ms: i64,
        counters: &[(u32, u64)],
        files_total: u64,
    ) -> (r: LiveNow)
        requires
            old(self).wf(),
            stream::on_clock(now_ms as int),
        ensures
            final(self).wf(),
            final(self)@ == after_measure(old(self)@, now_ms, counters@, files_total),
            r@ == shown(
                taken_in(old(self)@, now_ms, counters@, files_total),
                owners_gone(old(self)@, now_ms, counters@),
                now_ms,
            ),
            owners_gone(old(self)@, now_ms, counters@) ==> !r.streaming && r.tps == 0
                && r.tasks@.len() == 0,
            !r.streaming ==> r.tps == 0,
            r.streaming && r.tps < u64::MAX ==> r.tps * final(self).learned.bytes_per_token
                <= r.pipe_bps * 1_000_000 < (r.tps + 1) * final(self).learned.bytes_per_token,
    {
        let (rows, files, gone) = self.take_in(now_ms, counters, files_total);
        let ghost mid = self@;
        let alive = alive_set(&self.procs);
        let set = attribution::pick_pid_set(&self.inflight, &self.learned.session_pid, &alive);
        proof {
            attribution::law_display_set_is_the_union(
                mid.inflight,
                mid.learned.session_pid,
                probe::pid_set(mid.procs),
            );
        }
        let places = match &set {
            Some(v) => probe::choose_procs(&self.procs, Some(v.as_slice())),
            None => probe::choose_procs(&self.procs, None),
        };
        proof {
            assert(probe::at_places(mid.procs, places@) == displayed(mid));
            probe::lemma_rows_at(mid.procs, rows@, places@, mid.params);
        }
        let merged = probe::merge_places(&rows, &places, &files);
        assert(merged@ == probe::one_stream(displayed(mid), mid.files, mid.params));
        let g = pulse::take_pulse(
            self.anchor,
            &merged,
            &self.inflight,
            gone,
            self.current_session.is_some(),
            now_ms,
            &self.params,
        );
        assert(g == pulse_of(mid, gone, now_ms));
        self.anchor =
        Anchor {
            active_since: g.active_since,
            last_stream_ms: g.last_stream_ms,
            streaming: g.streaming,
        };
        let (tasks, n_pids) = if g.streaming && !g.awaiting {
            breakdown::break_down(
                &self.procs,
                &rows,
                &places,
                &merged,
                &files,
                &self.inflight,
                &self.learned.session_pid,
                pulse::span_from(g.active_since, now_ms),
                now_ms,
                self.learned.bytes_per_token,
                &self.params,
            )
        } else {
            (Vec::new(), 0)
        };
        let mut proc_bps: Vec<(u32, i64)> = Vec::new();
        for i in 0..self.procs.len()
            invariant
                self@.procs == mid.procs,
                self.params == mid.params,
                self.params.wf(),
                stream::on_clock(now_ms as int),
                probe::rows_views(rows@) == probe::rows_table(mid.procs, mid.params),
                rows@.len() == mid.procs.len(),
                forall|k: int|
                    0 <= k < rows@.len() ==> stream::all_light((#[trigger] rows@[k])@)
                        && rows@[k]@.len() <= probe::RING_CAP,
                proc_bps@.len() == i,
                forall|k: int|
                    0 <= k < i ==> #[trigger] proc_bps@[k] == (
                        mid.procs[k].0,
                        tenths_kb(
                            probe::rows_of(mid.procs[k].1, mid.params),
                            now_ms - mid.params.detect_ms,
                            now_ms as int,
                        ),
                    ),
        {
            proof {
                assert(probe::rows_views(rows@)[i as int] == probe::rows_table(
                    mid.procs,
                    mid.params,
                )[i as int]);
                assert(self@.procs[i as int].0 == self.procs@[i as int].pid);
            }
            let v: i64 = proc_rate(&rows[i], now_ms - self.params.detect_ms, now_ms);
            proc_bps.push((self.procs[i].pid, v));
        }
        let r = LiveNow {
            available: self.procs.len() > 0,
            streaming: g.streaming,
            ramping: g.ramping,
            awaiting: g.awaiting,
            tps: if g.streaming {
                pulse::speed(g.pipe_bps, self.learned.bytes_per_token)
            } else {
                0
            },
            pipe_bps: g.pipe_bps,
            n_pids,
            tasks,
            proc_bps,
        };
        proof {
            lemma_quotient(r.pipe_bps * 1_000_000, self.learned.bytes_per_token as int);
            let goal = shown(mid, gone, now_ms);
            assert(r@.proc_bps =~= goal.proc_bps);
            assert(r@.tasks =~= goal.tasks);
        }
        r
    }
}

proof fn lemma_quotient(n: int, d: int)
    requires
        n >= 0,
        d > 0,
    ensures
        0 <= n / d,
        (n / d) * d <= n < (n / d + 1) * d,
{
    assert(0 <= n / d && (n / d) * d <= n < (n / d + 1) * d) by (nonlinear_arith)
        requires
            n >= 0,
            d > 0,
    ;
}

/// The speed that is shown is the byte rate that is shown, over the rate per token that is
/// learned by then; what does not stream has no speed.
pub proof fn law_speed_is_byte_rate_over_learned_rate(
    st: LiveState,
    now: i64,
    counters: Seq<(u32, u64)>,
    total: u64,
)
    requires
        after_measure(st, now, counters, total).learned.bpt > 0,
    ensures
        ({
            let r = shown(
                taken_in(st, now, counters, total),
                owners_gone(st, now, counters),
                now,
            );
            let bpt = after_measure(st, now, counters, total).learned.bpt;
            &&& !r.streaming ==> r.tps == 0
            &&& r.streaming && r.tps < u64::MAX ==> r.tps * bpt <= r.pipe_bps * 1_000_000 < (r.tps
                + 1) * bpt
        }),
{
    let mid = taken_in(st, now, counters, total);
    let r = shown(mid, owners_gone(st, now, counters), now);
    lemma_quotient(r.pipe_bps * 1_000_000, mid.learned.bpt as int);
}

/// Of two states that differ in the learned rate alone, the one with half the rate per token
/// shows twice the speed, up to rounding, and all else of the stream the same.
pub proof fn law_half_the_rate_is_twice_the_speed(st: LiveState, half: u64, gone: bool, now: i64)
    requires
        half > 0,
        2 * half <= u64::MAX,
    ensures
        ({
            let a = shown(
                LiveState {
                    learned: Learned { bpt: (2 * half) as u64, ..st.learned },
                    ..st
                },
                gone,
                now,
            );
            let b = shown(
                LiveState { learned: Learned { bpt: half, ..st.learned }, ..st },
                gone,
                now,
            );
            &&& a.streaming == b.streaming && a.pipe_bps == b.pipe_bps
            &&& b.tps < u64::MAX ==> 2 * a.tps <= b.tps <= 2 * a.tps + 1
        }),
{
    let pipe = pulse_of(st, gone, now).pipe_bps * 1_000_000;
    let h = half as int;
    let x = pipe / (2 * h);
    let y = pipe / h;
    lemma_quotient(pipe, 2 * h);
    lemma_quotient(pipe, h);
    assert(2 * x <= y <= 2 * x + 1) by (nonlinear_arith)
        requires
            h > 0,
            x * (2 * h) <= pipe < (x + 1) * (2 * h),
            y * h <= pipe < (y + 1) * h,
    ;
}

/// A steady stream shows its own rate: where the stream of the displayed processes carries so
/// many thousandths of a byte in every millisecond, the byte rate is a thousand times as many
/// in a second, whenever something of it lies in the last half minute of the stretch, and the
/// speed is that over the learned rate per token.
pub proof fn law_steady_stream_shows_its_rate(
    st: LiveState,
    now: i64,
    counters: Seq<(u32, u64)>,
    total: u64,
    k: int,
)
    requires
        0 <= 1000 * k <= u64::MAX,
        after_measure(st, now, counters, total).learned.bpt > 0,
        ({
            let mid = taken_in(st, now, counters, total);
            let rows = probe::one_stream(displayed(mid), mid.files, mid.params);
            &&& stream::all_timed(rows)
            &&& stream::steady(rows, k)
            &&& after_measure(st, now, counters, total).anchor.active_since matches Some(a)
                && stream::covered(
                rows,
                if a >= now - 30_000 {
                    a as int
                } else {
                    now - 30_000
                },
                now as int,
            ) > 0
        }),
    ensures
        ({
            let r = shown(
                taken_in(st, now, counters, total),
                owners_gone(st, now, counters),
                now,
            );
            let bpt = after_measure(st, now, counters, total).learned.bpt;
            &&& r.pipe_bps == 1000 * k
            &&& r.streaming && r.tps < u64::MAX ==> r.tps * bpt <= 1_000_000_000 * k < (r.tps + 1)
                * bpt
        }),
{
    let mid = taken_in(st, now, counters, total);
    let rows = probe::one_stream(displayed(mid), mid.files, mid.params);
    let a = after_measure(st, now, counters, total).anchor.active_since->0;
    let from = if a >= now - 30_000 {
        a as int
    } else {
        now - 30_000
    };
    stream::law_steady_stream_carries_its_rate(rows, k, from, now as int);
    let c = stream::covered(rows, from, now as int);
    assert(((k * c) * 1000) / c == 1000 * k) by (nonlinear_arith)
        requires
            c > 0,
    ;
    law_speed_is_byte_rate_over_learned_rate(st, now, counters, total);
}

/// Bytes stream where more than four thousand of them flow in a second.
pub proof fn law_streaming_starts_at_the_threshold(
    rows: Seq<TickRow>,
    k: int,
    from: int,
    to: int,
)
    requires
        stream::all_timed(rows),
        stream::steady(rows, k),
        stream::covered(rows, from, to) > 0,
    ensures
        pulse::hot(rows, from, to) == (k > 4_000),
{
    stream::law_steady_stream_carries_its_rate(rows, k, from, to);
    let c = stream::covered(rows, from, to);
    assert((k * c > 4_000 * c) == (k > 4_000)) by (nonlinear_arith)
        requires
            c > 0,
    ;
}

/// A measurement learns from the call that is due: the call leaves the queue, and what it
/// showed is the latest event.
pub proof fn law_measurement_learns_from_the_due_call(
    st: LiveState,
    now: i64,
    counters: Seq<(u32, u64)>,
    total: u64,
    c: CallView,
)
    requires
        st.pending == seq![c],
        now - c.completed_ms <= 120_000,
        now - c.completed_ms >= st.params.cal_grace_ms || st.params.cal_grace_ms <= 0,
    ensures
        ({
            let after = after_measure(st, now, counters, total);
            &&& after.pending.len() == 0
            &&& after.learned.event matches Some(e) && e.id == c.id && e.bpt_now
                == after.learned.bpt
        }),
{
    let procs = probe::after_sampling(st.procs, now, counters);
    let files = calibration::newest(st.files.push((now, total)), probe::RING_CAP as nat);
    let learned = Learned {
        session_pid: surviving(st.learned.session_pid, procs),
        ..st.learned
    };
    settle::law_due_calls_are_learned_from_once(
        learned,
        c,
        now,
        procs,
        files,
        st.inflight,
        st.params,
    );
    assert(seq![c].skip(1) =~= Seq::empty());
    reveal_with_fuel(settle::settled, 2);
}

proof fn lemma_sampled_have_counters(procs: Seq<Proc>, now: i64, counters: Seq<(u32, u64)>, pid: u32)
    requires
        probe::counter_of(counters, pid) is None,
    ensures
        !probe::has_pid(probe::after_sampling(procs, now, counters), pid),
    decreases procs.len(),
{
    if procs.len() > 0 {
        let front = probe::after_sampling(procs.drop_last(), now, counters);
        lemma_sampled_have_counters(procs.drop_last(), now, counters, pid);
        let all = probe::after_sampling(procs, now, counters);
        if probe::has_pid(all, pid) {
            let i = choose|i: int| 0 <= i < all.len() && (#[trigger] all[i]).0 == pid;
            if i < front.len() {
                assert(front[i].0 == pid);
            }
        }
    }
}

/// Once the processes that all sessions in progress are known to have had have exited, generation
/// has stopped, whatever other processes write: nothing is shown. The processes stay known as
/// long as the sessions are in progress, the same ones where no call is waiting to be learned
/// from, so that it stays stopped.
pub proof fn law_exit_of_owners_stops(
    st: LiveState,
    now: i64,
    counters: Seq<(u32, u64)>,
    total: u64,
)
    requires
        st.inflight.len() > 0,
        forall|i: int|
            0 <= i < st.inflight.len() ==> owners_of(st).contains_key(
                (#[trigger] st.inflight[i]).0@,
            ) && probe::counter_of(counters, owners_of(st)[st.inflight[i].0@]) is None,
    ensures
        owners_gone(st, now, counters),
        ({
            let r = shown(
                taken_in(st, now, counters, total),
                owners_gone(st, now, counters),
                now,
            );
            &&& !r.streaming && !r.ramping && !r.awaiting
            &&& r.tps == 0 && r.pipe_bps == 0 && r.n_pids == 0 && r.tasks.len() == 0
        }),
        ({
            let later = owners_of(after_measure(st, now, counters, total));
            &&& forall|i: int|
                0 <= i < st.inflight.len() ==> later.contains_key((#[trigger] st.inflight[i]).0@)
            &&& st.pending.len() == 0 ==> later == owners_of(st)
        }),
{
    let map = st.learned.session_pid;
    let known = owners_of(st);
    let procs = probe::after_sampling(st.procs, now, counters);
    let after = after_measure(st, now, counters, total);
    assert forall|i: int| 0 <= i < st.inflight.len() implies known.contains_key(
        (#[trigger] st.inflight[i]).0@,
    ) && !probe::has_pid(procs, known[st.inflight[i].0@]) && in_progress(
        st.inflight,
        st.inflight[i].0@,
    ) by {
        lemma_sampled_have_counters(st.procs, now, counters, known[st.inflight[i].0@]);
    }
    assert(after.owners == known);
    if st.pending.len() == 0 {
        assert(after.learned.session_pid == surviving(map, procs));
        assert forall|s: Seq<char>| in_progress(st.inflight, s) implies !#[trigger] surviving(
            map,
            procs,
        ).contains_key(s) by {
            let i = choose|i: int| 0 <= i < st.inflight.len() && (#[trigger] st.inflight[i]).0@ == s;
            assert(known.contains_key(st.inflight[i].0@));
        }
        assert(owners_of(after) =~= known);
    }
}

/// A session in progress that has a process is known to have it, and stays so when the process
/// exits: what is known is carried over from one measurement to the next.
pub proof fn law_owners_are_remembered(
    st: LiveState,
    now: i64,
    counters: Seq<(u32, u64)>,
    total: u64,
    session: Seq<char>,
)
    requires
        in_progress(st.inflight, session),
    ensures
        st.learned.session_pid.contains_key(session) ==> owners_of(st).contains_key(session)
            && owners_of(st)[session] == st.learned.session_pid[session],
        owners_of(st).contains_key(session) ==> owners_of(
            after_measure(st, now, counters, total),
        ).contains_key(session),
{
}

proof fn lemma_all_restored(saved: Seq<u64>, p: CleanParams)
    requires
        forall|i: int| 0 <= i < saved.len() ==> p.cal_min <= #[trigger] saved[i] <= p.cal_max,
    ensures
        restored(saved.map_values(|x: u64| Some(x)), p) == saved,
    decreases saved.len(),
{
    let some = saved.map_values(|x: u64| Some(x));
    if saved.len() > 0 {
        let d = saved.drop_last();
        assert forall|i: int| 0 <= i < d.len() implies p.cal_min <= #[trigger] d[i] <= p.cal_max by {
            assert(d[i] == saved[i]);
        }
        lemma_all_restored(d, p);
        assert(some.drop_last() =~= d.map_values(|x: u64| Some(x)));
        assert(saved[saved.len() - 1] == saved.last());
        assert(d.push(saved.last()) =~= saved);
    } else {
        assert(restored(some, p) =~= saved);
    }
}

/// Samples that were saved and are taken in after a restart are the newest of the queue, so
/// a full queue comes back as it was.
pub proof fn law_saved_samples_come_back(before: Seq<u64>, saved: Seq<u64>, p: CleanParams)
    requires
        saved.len() <= calibration::CAL_QUEUE_CAP,
        forall|i: int| 0 <= i < saved.len() ==> p.cal_min <= #[trigger] saved[i] <= p.cal_max,
    ensures
        ({
            let cal = calibration::newest(
                before + restored(saved.map_values(|x: u64| Some(x)), p),
                calibration::CAL_QUEUE_CAP as nat,
            );
            &&& calibration::newest(cal, saved.len()) == saved
            &&& saved.len() == calibration::CAL_QUEUE_CAP ==> cal == saved
        }),
{
    lemma_all_restored(saved, p);
    let cal = calibration::newest(before + saved, calibration::CAL_QUEUE_CAP as nat);
    assert(calibration::newest(cal, saved.len()) =~= saved);
}

/// The list of processes is renewed when it never was, and after half a minute; after two seconds
/// already while no process is measured, while several sessions are in progress, or while one of
/// them has no process; never before that.
pub proof fn law_when_the_list_is_renewed(st: LiveState, now: u64, t: u64)
    ensures
        st.last_refresh is None ==> due(st, now),
        st.last_refresh == Some(t) && now - t > 30_000 ==> due(st, now),
        st.last_refresh == Some(t) && now - t <= 2_000 ==> !due(st, now),
        st.last_refresh == Some(t) && 2_000 < now - t <= 30_000 ==> due(st, now) == (st.procs.len()
            == 0 || st.inflight.len() >= 2 || exists|i: int|
            0 <= i < st.inflight.len() && !st.learned.session_pid.contains_key(
                (#[trigger] st.inflight[i]).0@,
            )),
{
}

/// The session that is taken to be current is that of the call that was completed last.
pub proof fn law_current_session_is_of_the_last_call(calls: Seq<CallView>)
    ensures
        match latest_session(calls) {
            Some((t, s)) => (exists|i: int|
                0 <= i < calls.len() && (#[trigger] calls[i]).completed_ms == t && calls[i].session
                    == s && forall|j: int|
                    i < j < calls.len() ==> (#[trigger] calls[j]).completed_ms < t) && forall|i: int|
                0 <= i < calls.len() ==> (#[trigger] calls[i]).completed_ms <= t,
            None => calls.len() == 0,
        },
    decreases calls.len(),
{
    if calls.len() > 0 {
        let d = calls.drop_last();
        let last = calls.last();
        law_current_session_is_of_the_last_call(d);
        let (t, s) = latest_session(calls)->0;
        assert(calls[calls.len() - 1] == last);
        if latest_session(d) is Some && (latest_session(d)->0).0 > last.completed_ms {
            let i = choose|i: int|
                0 <= i < d.len() && (#[trigger] d[i]).completed_ms == t && d[i].session == s && forall|j: int|
                    i < j < d.len() ==> (#[trigger] d[j]).completed_ms < t;
            assert(calls[i].completed_ms == t && calls[i].session == s);
            assert forall|j: int| i < j < calls.len() implies (#[trigger] calls[j]).completed_ms
                < t by {
                if j < d.len() {
                    assert(d[j].completed_ms < t);
                }
            }
        }
        assert forall|i: int| 0 <= i < calls.len() implies (#[trigger] calls[i]).completed_ms
            <= t by {
            if i < d.len() {
                assert(d[i].completed_ms == calls[i].completed_ms);
            }
        }
    }
}

/// Of saved samples, those come back that a sample can be, in their order.
pub proof fn law_which_samples_come_back(samples: Seq<Option<u64>>, p: CleanParams)
    ensures
        restored(samples, p) == samples.filter(
            |v: Option<u64>| v is Some && p.cal_min <= v->0 <= p.cal_max,
        ).map_values(|v: Option<u64>| v->0),
    decreases samples.len(),
{
    reveal(Seq::filter);
    let keep = |v: Option<u64>| v is Some && p.cal_min <= v->0 <= p.cal_max;
    let f = |v: Option<u64>| v->0;
    if samples.len() > 0 {
        let d = samples.drop_last();
        law_which_samples_come_back(d, p);
        if keep(samples.last()) {
            assert(samples.filter(keep).map_values(f) =~= d.filter(keep).map_values(f).push(
                samples.last()->0,
            ));
        }
    } else {
        assert(samples.filter(keep).map_values(f) =~= Seq::empty());
    }
}

/// A quotient is rounded to the nearest whole number, and from the middle away from zero.
pub proof fn law_quotient_is_rounded(num: int, den: int)
    requires
        den > 0,
    ensures
        -den <= 2 * (rounded(num, den) * den - num) <= den,
        2 * (rounded(num, den) * den - num) == den ==> num >= 0,
        2 * (rounded(num, den) * den - num) == -den ==> num < 0,
{
    let a = if num >= 0 {
        num
    } else {
        -num
    };
    let q = (2 * a + den) / (2 * den);
    let m = (2 * a + den) % (2 * den);
    assert(2 * a + den == 2 * (q * den) + m && 0 <= m < 2 * den) by (nonlinear_arith)
        requires
            den > 0,
            q == (2 * a + den) / (2 * den),
            m == (2 * a + den) % (2 * den),
    ;
    assert((-q) * den == -(q * den)) by (nonlinear_arith);
}

/// A process that writes at a steady rate is shown with that rate, in tenths of a kilobyte per
/// second.
pub proof fn law_process_rate_is_shown(rows: Seq<TickRow>, k: int, from: int, to: int)
    requires
        stream::all_timed(rows),
        stream::steady(rows, k),
        stream::covered(rows, from, to) > 0,
        -0x1_0000_0000_0000 <= k <= 0x1_0000_0000_0000,
    ensures
        -1024 <= 2 * (tenths_kb(rows, from, to) * 1024 - 10 * k) <= 1024,
{
    let c = stream::covered(rows, from, to);
    stream::law_steady_stream_carries_its_rate(rows, k, from, to);
    let num = 10 * stream::carried(rows, from, to);
    let den = 1024 * c;
    let r = rounded(num, den);
    law_quotient_is_rounded(num, den);
    assert(-1024 <= 2 * (r * 1024 - 10 * k) <= 1024) by (nonlinear_arith)
        requires
            -den <= 2 * (r * den - num) <= den,
            num == 10 * (k * c),
            den == 1024 * c,
            c > 0,
    ;
}

/// A measurement keeps the newest sizes of the files, that of now last, forgets the sessions whose
/// process is gone, and keeps what it was told of sessions in progress.
pub proof fn law_measurement_takes_in(
    st: LiveState,
    now: i64,
    counters: Seq<(u32, u64)>,
    total: u64,
)
    ensures
        ({
            let a = after_measure(st, now, counters, total);
            &&& a.files.len() > 0 && a.files.last() == (now, total)
            &&& st.files.len() < 260 ==> a.files == st.files.push((now, total))
            &&& st.files.len() >= 260 ==> a.files.len() == 260
            &&& a.procs == probe::after_sampling(st.procs, now, counters)
            &&& a.inflight == st.inflight && a.params == st.params && a.current == st.current
            &&& st.pending.len() == 0 ==> forall|s: Seq<char>| #[trigger]
                a.learned.session_pid.contains_key(s) ==> st.learned.session_pid.contains_key(s)
                    && a.learned.session_pid[s] == st.learned.session_pid[s] && probe::has_pid(
                    a.procs,
                    a.learned.session_pid[s],
                )
        }),
{
    assert(st.files.push((now, total)).last() == (now, total));
}

/// Tasks are shown only while something streams; otherwise, and while a call is awaited, there are
/// none. Every measured process is listed with its rate.
pub proof fn law_tasks_are_those_of_a_stream(
    st: LiveState,
    now: i64,
    counters: Seq<(u32, u64)>,
    total: u64,
    gone: bool,
)
    ensures
        ({
            let mid = taken_in(st, now, counters, total);
            let r = shown(mid, gone, now);
            &&& !r.streaming || r.awaiting ==> r.tasks.len() == 0 && r.n_pids == 0
            &&& r.available == (mid.procs.len() > 0)
            &&& r.proc_bps.len() == mid.procs.len()
            &&& forall|i: int| 0 <= i < mid.procs.len() ==> (#[trigger] r.proc_bps[i]).0
                == mid.procs[i].0
        }),
{
}

/// A session is forgotten when its process is gone; when more than two hundred are left, all are.
pub proof fn law_which_sessions_survive(
    map: Map<Seq<char>, u32>,
    procs: Seq<Proc>,
    session: Seq<char>,
)
    ensures
        strmap::kept(map, probe::pid_set(procs)).len() <= 200 ==> (surviving(
            map,
            procs,
        ).contains_key(session) <==> map.contains_key(session) && probe::has_pid(
            procs,
            map[session],
        )),
        surviving(map, procs).contains_key(session) ==> surviving(map, procs)[session]
            == map[session],
        strmap::kept(map, probe::pid_set(procs)).len() > 200 ==> !surviving(
            map,
            procs,
        ).contains_key(session),
{
}

/// The sessions in progress that have a process are those whose process was learned and is
/// measured.
pub proof fn law_which_sessions_have_a_process(
    inflight: Seq<(String, i64)>,
    map: Map<Seq<char>, u32>,
    procs: Seq<Proc>,
)
    ensures
        attributed_sessions(inflight, map, procs) == inflight.filter(
            |e: (String, i64)|
                map.contains_key(e.0@) && exists|i: int|
                    0 <= i < procs.len() && (#[trigger] procs[i]).0 == map[e.0@],
        ).map_values(|e: (String, i64)| (e.0@, map[e.0@])),
    decreases inflight.len(),
{
    reveal(Seq::filter);
    let keep = |e: (String, i64)|
        map.contains_key(e.0@) && exists|i: int|
            0 <= i < procs.len() && (#[trigger] procs[i]).0 == map[e.0@];
    let f = |e: (String, i64)| (e.0@, map[e.0@]);
    if inflight.len() > 0 {
        let d = inflight.drop_last();
        let last = inflight.last();
        law_which_sessions_have_a_process(d, map, procs);
        assert(keep(last) == (settle::stream_pid(map, last.0@, procs) is Some));
        if keep(last) {
            assert(inflight.filter(keep).map_values(f) =~= d.filter(keep).map_values(f).push(
                f(last),
            ));
        }
    } else {
        assert(inflight.filter(keep).map_values(f) =~= Seq::empty());
    }
}

/// Streaming is detected in the window of the system, and only there: while nothing is known of any
/// session, something streams just where the stream carries more than four thousand bytes a second
/// in it.
pub proof fn law_streaming_is_detected_in_its_window(st: LiveState, now: i64)
    requires
        st.inflight.len() == 0,
        st.current is None,
    ensures
        ({
            let rows = probe::one_stream(displayed(st), st.files, st.params);
            let ms = stream::covered(rows, now - st.params.detect_ms, now as int);
            let bytes = stream::carried(rows, now - st.params.detect_ms, now as int);
            &&& shown(st, false, now).streaming == (ms > 0 && bytes > 4_000 * ms)
            &&& !shown(st, true, now).streaming
        }),
{
}

} // verus!
