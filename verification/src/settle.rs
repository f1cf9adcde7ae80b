//! What is learned from calls when they are complete: which process their session writes
//! through, and how many bytes a token takes.

use std::collections::{HashMap, HashSet, VecDeque};

use vstd::prelude::*;

use crate::attribution;
use crate::calibration;
use crate::call::{Call, CallView};
use crate::probe;
use crate::probe::{Proc, ProcRing, Samples};
use crate::rate;
use crate::rate::Rate;
use crate::stream;
use crate::stream::{CleanParams, TickRow};
use crate::strmap::StrMap;
use crate::text;

verus! {

broadcast use vstd::std_specs::hash::group_hash_axioms;

/// A call that ended longer ago than this teaches nothing any more.
pub const STALE_CALL_MS: i64 = 120_000;

/// No call is looked at for longer than this before its end.
pub const MAX_LOOKBACK_MS: i64 = 300_000;

/// A session is attributed only if more than this was written during its call.
pub const ATTRIBUTION_MIN_BYTES: u64 = 20_000;

/// How many attributed calls are remembered.
pub const ATTRIBUTED_CAP: usize = 4_000;

/// What a completed call showed, for the log.
#[derive(Debug)]
pub struct CalEvent {
    /// The call.
    pub id: String,
    /// Its session.
    pub session: String,
    /// When it was complete.
    pub completed_ms: i64,
    /// Its speed as recorded.
    pub true_tps: Rate,
    /// How long it generated.
    pub gen_ms: i64,
    /// Its tokens.
    pub eff: u64,
    /// Bytes that all processes wrote during the call.
    pub raw_bytes: u64,
    /// What the cleaned stream carried during the call, in thousandths of a byte.
    pub clean_bytes: i128,
    /// The rate per token that was taken as a sample, in thousandths of a byte; zero if none.
    pub bpt_sample: u64,
    /// The rate per token afterwards, in thousandths of a byte.
    pub bpt_now: u64,
    /// The call did not calibrate.
    pub cal_skipped: bool,
    /// The process whose stream was used; none if all were.
    pub attr_pid: Option<u32>,
    /// The process that wrote most.
    pub top_pid: Option<u32>,
    /// Bytes that the other processes wrote.
    pub others_bytes: u64,
}

/// A [`CalEvent`] with texts as their characters.
pub struct CalEventView {
    pub id: Seq<char>,
    pub session: Seq<char>,
    pub completed_ms: i64,
    pub true_tps: Rate,
    pub gen_ms: i64,
    pub eff: u64,
    pub raw_bytes: u64,
    pub clean_bytes: int,
    pub bpt_sample: u64,
    pub bpt_now: u64,
    pub cal_skipped: bool,
    pub attr_pid: Option<u32>,
    pub top_pid: Option<u32>,
    pub others_bytes: u64,
}

impl View for CalEvent {
    type V = CalEventView;

    open spec fn view(&self) -> CalEventView {
        CalEventView {
            id: self.id@,
            session: self.session@,
            completed_ms: self.completed_ms,
            true_tps: self.true_tps,
            gen_ms: self.gen_ms,
            eff: self.eff,
            raw_bytes: self.raw_bytes,
            clean_bytes: self.clean_bytes as int,
            bpt_sample: self.bpt_sample,
            bpt_now: self.bpt_now,
            cal_skipped: self.cal_skipped,
            attr_pid: self.attr_pid,
            top_pid: self.top_pid,
            others_bytes: self.others_bytes,
        }
    }
}

/// What has been learned so far.
#[verifier::ext_equal]
pub struct Learned {
    /// The process of each session.
    pub session_pid: Map<Seq<char>, u32>,
    /// The calls that were used to attribute their session.
    pub attributed: Map<Seq<char>, ()>,
    /// The samples of the rate per token.
    pub cal: Seq<u64>,
    /// The rate per token.
    pub bpt: u64,
    /// What the latest call showed.
    pub event: Option<CalEventView>,
}

/// What has been learned so far.
pub struct Learning {
    pub session_pid: StrMap<u32>,
    pub attributed: StrMap<()>,
    pub cal: VecDeque<u64>,
    pub bytes_per_token: u64,
    pub pending_cal: Option<CalEvent>,
}

impl View for Learning {
    type V = Learned;

    open spec fn view(&self) -> Learned {
        Learned {
            session_pid: self.session_pid@,
            attributed: self.attributed@,
            cal: self.cal@,
            bpt: self.bytes_per_token,
            event: match self.pending_cal {
                Some(e) => Some(e@),
                None => None,
            },
        }
    }
}

impl Learning {
    /// There is a sample, at most as many as are kept, none of them is zero, and the rate per
    /// token is their median.
    pub open spec fn wf(&self) -> bool {
        &&& self.session_pid.wf()
        &&& self.attributed.wf()
        &&& 0 < self.cal@.len() <= calibration::CAL_QUEUE_CAP
        &&& forall|i: int| 0 <= i < self.cal@.len() ==> #[trigger] self.cal@[i] > 0
        &&& self.bytes_per_token > 0
        &&& self.bytes_per_token == calibration::upper_median(self.cal@)
    }
}

/// From when on the bytes of a call are counted.
pub open spec fn window_start(c: CallView) -> i64 {
    rate::clip_signed(
        stream::most(c.completed_ms - stream::least(c.gen_ms as int, MAX_LOOKBACK_MS as int), 0),
    )
}

/// Until when the bytes of a call are counted.
pub open spec fn window_end(c: CallView, p: CleanParams) -> i64 {
    rate::clip_signed(c.completed_ms + p.cal_grace_ms)
}

/// What a counter grew between samples that touch `from..=to`.
pub open spec fn raw_sum(s: Samples, from: i64, to: i64) -> nat
    decreases s.len(),
{
    if s.len() < 2 {
        0
    } else {
        let a = s[s.len() - 2];
        let b = s.last();
        raw_sum(s.drop_last(), from, to) + (if b.0 >= from && a.0 <= to {
            stream::grown(a.1, b.1)
        } else {
            0
        })
    }
}

/// The bytes that each process wrote in `from..=to`.
pub open spec fn raw_map(procs: Seq<Proc>, from: i64, to: i64) -> Map<u32, u64>
    decreases procs.len(),
{
    if procs.len() == 0 {
        Map::empty()
    } else {
        raw_map(procs.drop_last(), from, to).insert(
            procs.last().0,
            rate::clip(raw_sum(procs.last().1, from, to) as int),
        )
    }
}

/// The bytes that all processes wrote in `from..=to`.
pub open spec fn raw_total(procs: Seq<Proc>, from: i64, to: i64) -> u64
    decreases procs.len(),
{
    if procs.len() == 0 {
        0
    } else {
        rate::clip(
            raw_total(procs.drop_last(), from, to) + rate::clip(
                raw_sum(procs.last().1, from, to) as int,
            ),
        )
    }
}

/// The processes of the other sessions in progress.
pub open spec fn owned_by_others(
    inflight: Seq<(String, i64)>,
    session: Seq<char>,
    map: Map<Seq<char>, u32>,
) -> Set<u32>
    decreases inflight.len(),
{
    if inflight.len() == 0 {
        Set::empty()
    } else {
        let front = owned_by_others(inflight.drop_last(), session, map);
        let s = inflight.last().0@;
        if s != session && map.contains_key(s) {
            front.insert(map[s])
        } else {
            front
        }
    }
}

/// After the attribution of a call: once per call, and only where enough was written.
pub open spec fn attribute(
    st: Learned,
    c: CallView,
    procs: Seq<Proc>,
    inflight: Seq<(String, i64)>,
    p: CleanParams,
) -> Learned {
    let from = window_start(c);
    let to = window_end(c, p);
    if st.attributed.contains_key(c.id) {
        st
    } else {
        let more = st.attributed.insert(c.id, ());
        let attributed = if more.len() > ATTRIBUTED_CAP {
            Map::empty()
        } else {
            more
        };
        let cur = if st.session_pid.contains_key(c.session) {
            Some(st.session_pid[c.session])
        } else {
            None
        };
        let session_pid = if raw_total(procs, from, to) > ATTRIBUTION_MIN_BYTES {
            match attribution::attribution(
                cur,
                raw_map(procs, from, to),
                owned_by_others(inflight, c.session, st.session_pid),
            ) {
                Some(pid) => st.session_pid.insert(c.session, pid),
                None => st.session_pid,
            }
        } else {
            st.session_pid
        };
        Learned { session_pid, attributed, ..st }
    }
}

/// The process whose stream stands for a call: that of its session, if it is measured.
pub open spec fn stream_pid(map: Map<Seq<char>, u32>, session: Seq<char>, procs: Seq<Proc>) -> Option<
    u32,
> {
    if map.contains_key(session) && probe::has_pid(procs, map[session]) {
        Some(map[session])
    } else {
        None
    }
}

/// The stream that stands for a call: that of one process, or that of all.
pub open spec fn call_stream(
    pid: Option<u32>,
    procs: Seq<Proc>,
    files: Samples,
    p: CleanParams,
) -> Seq<TickRow> {
    probe::one_stream(
        probe::chosen(
            procs,
            match pid {
                Some(x) => Some(seq![x]),
                None => None,
            },
        ),
        files,
        p,
    )
}

/// After the calibration by a call whose session has been attributed.
pub open spec fn calibrate(
    st: Learned,
    c: CallView,
    procs: Seq<Proc>,
    files: Samples,
    p: CleanParams,
) -> Learned {
    let from = window_start(c);
    let to = window_end(c, p);
    let raw = raw_map(procs, from, to);
    let all = raw_total(procs, from, to);
    let pid = stream_pid(st.session_pid, c.session, procs);
    let clean = stream::carried(call_stream(pid, procs, files, p), from as int, to as int);
    let top = attribution::leader(raw, None);
    let own = match pid {
        Some(x) => attribution::bytes_of(raw, x),
        None => all,
    };
    let reference = match pid {
        Some(x) => own,
        None => match top {
            Some(t) => attribution::bytes_of(raw, t),
            None => 0,
        },
    };
    let others = rate::clip(all - reference);
    let (ok, sample) = calibration::sampled(c.eff(), clean, own, st.bpt, p);
    let taken = ok && reference > 0 && others * 5 <= reference;
    let cal = if taken {
        calibration::newest(st.cal.push(sample), calibration::CAL_QUEUE_CAP as nat)
    } else {
        st.cal
    };
    let bpt = if taken {
        calibration::upper_median(cal)
    } else {
        st.bpt
    };
    Learned {
        cal,
        bpt,
        event: Some(
            CalEventView {
                id: c.id,
                session: c.session,
                completed_ms: c.completed_ms,
                true_tps: Rate { tokens: c.eff(), ms: c.gen() },
                gen_ms: c.gen_ms,
                eff: c.eff(),
                raw_bytes: all,
                clean_bytes: clean,
                bpt_sample: if taken {
                    sample
                } else {
                    0
                },
                bpt_now: bpt,
                cal_skipped: !taken,
                attr_pid: pid,
                top_pid: top,
                others_bytes: others,
            },
        ),
        ..st
    }
}

/// What is learned from the calls of a queue, and the calls that stay in it: calls that
/// are too old teach nothing, and a call whose bytes may still arrive stops the queue.
pub open spec fn settled(
    st: Learned,
    pending: Seq<CallView>,
    now: i64,
    procs: Seq<Proc>,
    files: Samples,
    inflight: Seq<(String, i64)>,
    p: CleanParams,
) -> (Learned, Seq<CallView>)
    decreases pending.len(),
{
    if pending.len() == 0 {
        (st, pending)
    } else {
        let c = pending[0];
        if now - c.completed_ms > STALE_CALL_MS {
            settled(st, pending.skip(1), now, procs, files, inflight, p)
        } else if p.cal_grace_ms > 0 && now - c.completed_ms < p.cal_grace_ms {
            (st, pending)
        } else {
            settled(
                calibrate(attribute(st, c, procs, inflight, p), c, procs, files, p),
                pending.skip(1),
                now,
                procs,
                files,
                inflight,
                p,
            )
        }
    }
}

fn written(samples: &VecDeque<(i64, u64)>, from: i64, to: i64) -> (r: u64)
    ensures
        r == rate::clip(raw_sum(samples@, from, to) as int),
{
    let mut acc: u64 = 0;
    let n: usize = samples.len();
    let mut i: usize = 1;
    if n >= 1 {
        assert(samples@.take(1).len() < 2);
        while i < n
            invariant
                1 <= i <= n,
                n == samples@.len(),
                acc == rate::clip(raw_sum(samples@.take(i as int), from, to) as int),
            decreases n - i,
        {
            let a = samples[i - 1];
            let b = samples[i];
            assert(samples@.take(i + 1).drop_last() =~= samples@.take(i as int));
            if b.0 >= from && a.0 <= to {
                if b.1 >= a.1 {
                    acc = acc.saturating_add(b.1 - a.1);
                }
            }
            i = i + 1;
        }
        assert(samples@.take(n as int) =~= samples@);
    }
    acc
}

fn tally(procs: &[ProcRing], from: i64, to: i64) -> (r: (HashMap<u32, u64>, u64))
    ensures
        r.0@ == raw_map(probe::procs_view(procs@), from, to),
        r.1 == raw_total(probe::procs_view(procs@), from, to),
{
    let mut by_pid: HashMap<u32, u64> = HashMap::new();
    let mut all: u64 = 0;
    let ghost pv = probe::procs_view(procs@);
    assert(pv.take(0) =~= Seq::empty());
    for i in 0..procs.len()
        invariant
            pv == probe::procs_view(procs@),
            by_pid@ == raw_map(pv.take(i as int), from, to),
            all == raw_total(pv.take(i as int), from, to),
    {
        assert(pv.take(i + 1).drop_last() =~= pv.take(i as int));
        let w: u64 = written(&procs[i].samples, from, to);
        let _ = by_pid.insert(procs[i].pid, w);
        all = all.saturating_add(w);
    }
    assert(pv.take(pv.len() as int) =~= pv);
    (by_pid, all)
}

/// The process of a session, if it is measured.
pub fn measured_pid(map: &StrMap<u32>, session: &str, procs: &[ProcRing]) -> (r: Option<u32>)
    requires
        map.wf(),
    ensures
        r == stream_pid(map@, session@, probe::procs_view(procs@)),
{
    match map.get(session) {
        Some(pid) => if probe::is_measured(procs, *pid) {
            Some(*pid)
        } else {
            None
        },
        None => None,
    }
}

fn taken_by_others(inflight: &[(String, i64)], session: &str, map: &StrMap<u32>) -> (r: HashSet<u32>)
    requires
        map.wf(),
    ensures
        r@ == owned_by_others(inflight@, session@, map@),
{
    let mut set: HashSet<u32> = HashSet::new();
    assert(inflight@.take(0) =~= Seq::empty());
    for i in 0..inflight.len()
        invariant
            map.wf(),
            set@ == owned_by_others(inflight@.take(i as int), session@, map@),
    {
        assert(inflight@.take(i + 1).drop_last() =~= inflight@.take(i as int));
        if !text::same(inflight[i].0.as_str(), session) {
            match map.get(inflight[i].0.as_str()) {
                Some(pid) => {
                    let _ = set.insert(*pid);
                },
                None => {},
            }
        }
    }
    assert(inflight@.take(inflight@.len() as int) =~= inflight@);
    set
}

fn start_of(c: &Call) -> (r: i64)
    ensures
        r == window_start(c@),
{
    let gen: i64 = if c.gen_ms <= MAX_LOOKBACK_MS {
        c.gen_ms
    } else {
        MAX_LOOKBACK_MS
    };
    let t: i128 = c.completed_ms as i128 - gen as i128;
    rate::clipped_signed(
        if t >= 0 {
            t
        } else {
            0
        },
    )
}

fn end_of(c: &Call, p: &CleanParams) -> (r: i64)
    ensures
        r == window_end(c@, *p),
{
    rate::clipped_signed(c.completed_ms as i128 + p.cal_grace_ms as i128)
}

impl Learning {
    /// Attributes the session of a call, once per call.
    fn attribute_call(
        &mut self,
        c: &Call,
        procs: &[ProcRing],
        inflight: &[(String, i64)],
        p: &CleanParams,
    )
        requires
            old(self).wf(),
        ensures
            final(self).wf(),
            final(self)@ == attribute(
                old(self)@,
                c@,
                probe::procs_view(procs@),
                inflight@,
                *p,
            ),
    {
        if self.attributed.contains_key(c.id.as_str()) {
            return;
        }
        let (raw, all) = tally(procs, start_of(c), end_of(c, p));
        self.attributed.insert(c.id.clone(), ());
        if self.attributed.len() > ATTRIBUTED_CAP {
            self.attributed.clear();
        }
        if all > ATTRIBUTION_MIN_BYTES {
            let owned = taken_by_others(inflight, c.session.as_str(), &self.session_pid);
            let cur = match self.session_pid.get(c.session.as_str()) {
                Some(pid) => Some(*pid),
                None => None,
            };
            match attribution::pick_attribution(cur, &raw, &owned) {
                Some(pid) => {
                    self.session_pid.insert(c.session.clone(), pid);
                },
                None => {},
            }
        }
    }

    /// Takes a call whose session has been attributed as a sample of the rate per token.
    fn calibrate_call(
        &mut self,
        c: &Call,
        procs: &[ProcRing],
        rows: &[Vec<TickRow>],
        files: &[(i64, u64)],
        p: &CleanParams,
    )
        requires
            old(self).wf(),
            p.wf(),
            probe::procs_wf(probe::procs_view(procs@)),
            probe::rows_views(rows@) == probe::rows_table(probe::procs_view(procs@), *p),
            forall|i: int|
                0 <= i < rows@.len() ==> stream::all_light((#[trigger] rows@[i])@)
                    && rows@[i]@.len() <= probe::RING_CAP,
            files@.len() <= stream::FILES_LIMIT,
        ensures
            final(self).wf(),
            final(self)@ == calibrate(old(self)@, c@, probe::procs_view(procs@), files@, *p),
    {
        let ghost pv = probe::procs_view(procs@);
        let from: i64 = start_of(c);
        let to: i64 = end_of(c, p);
        let (raw, all) = tally(procs, from, to);
        let pid: Option<u32> = measured_pid(&self.session_pid, c.session.as_str(), procs);
        let mut only: Vec<u32> = Vec::new();
        let places = match pid {
            Some(x) => {
                only.push(x);
                assert(only@ =~= seq![x]);
                probe::choose_procs(procs, Some(only.as_slice()))
            },
            None => probe::choose_procs(procs, None),
        };
        proof {
            assert(probe::rows_views(rows@).len() == rows@.len());
            probe::lemma_rows_at(pv, rows@, places@, *p);
        }
        let merged = probe::merge_places(rows, &places, files);
        let (clean, _) = stream::integrate(&merged, from, to);
        let top = attribution::top_writer(&raw, None);
        let own: u64 = match pid {
            Some(x) => match raw.get(&x) {
                Some(b) => *b,
                None => 0,
            },
            None => all,
        };
        let reference: u64 = match pid {
            Some(_) => own,
            None => match top {
                Some(t) => match raw.get(&t) {
                    Some(b) => *b,
                    None => 0,
                },
                None => 0,
            },
        };
        let others: u64 = if all >= reference {
            all - reference
        } else {
            0
        };
        let eff: u64 = c.effective_out();
        let (ok, sample) = calibration::cal_sample(eff, clean, own, self.bytes_per_token, p);
        let taken = ok && calibration::cross_pid_ok(others, reference);
        if taken {
            let ghost before = self.cal@;
            proof {
                // An admitted sample is at least the least rate, so it is not zero.
                assert((clean as int) / (eff as int) >= 1) by (nonlinear_arith)
                    requires
                        clean >= p.cal_min * eff,
                        p.cal_min >= 1,
                        eff >= 1,
                ;
                assert(sample > 0);
            }
            self.bytes_per_token =
            calibration::median_bpt(&mut self.cal, sample, calibration::CAL_QUEUE_CAP);
            proof {
                let grown = before.push(sample);
                assert forall|i: int| 0 <= i < self.cal@.len() implies #[trigger] self.cal@[i]
                    > 0 by {
                    let k = i + grown.len() - self.cal@.len();
                    assert(self.cal@[i] == grown[k]);
                    if k < before.len() {
                        assert(before[k] > 0);
                    }
                }
                calibration::law_median_is_a_sample(self.cal@);
                let k = choose|k: int|
                    0 <= k < self.cal@.len() && self.cal@[k] == calibration::upper_median(
                        self.cal@,
                    );
                assert(self.cal@[k] > 0);
            }
        }
        self.pending_cal = Some(
            CalEvent {
                id: c.id.clone(),
                session: c.session.clone(),
                completed_ms: c.completed_ms,
                true_tps: Rate { tokens: eff, ms: c.generation() },
                gen_ms: c.gen_ms,
                eff,
                raw_bytes: all,
                clean_bytes: clean,
                bpt_sample: if taken {
                    sample
                } else {
                    0
                },
                bpt_now: self.bytes_per_token,
                cal_skipped: !taken,
                attr_pid: pid,
                top_pid: top,
                others_bytes: others,
            },
        );
    }
}

/// The calls of a queue.
pub open spec fn calls_view(calls: Seq<Call>) -> Seq<CallView> {
    Seq::new(calls.len(), |i: int| calls[i]@)
}

/// Appends copies of calls to a queue.
pub fn enqueue(pending: &mut VecDeque<Call>, calls: &[Call])
    ensures
        calls_view(final(pending)@) == calls_view(old(pending)@) + calls_view(calls@),
{
    let ghost before = calls_view(pending@);
    let ghost cv = calls_view(calls@);
    assert(before + cv.take(0) =~= before);
    for i in 0..calls.len()
        invariant
            cv == calls_view(calls@),
            calls_view(pending@) == before + cv.take(i as int),
    {
        let ghost p0 = calls_view(pending@);
        pending.push_back(calls[i].clone());
        assert(calls_view(pending@) =~= p0.push(cv[i as int]));
        assert(cv.take(i + 1) =~= cv.take(i as int).push(cv[i as int]));
    }
    assert(cv.take(cv.len() as int) =~= cv);
}

/// Learns from the calls at the front of the queue, as far as they are due.
pub fn settle(
    st: &mut Learning,
    pending: &mut VecDeque<Call>,
    now_ms: i64,
    procs: &[ProcRing],
    rows: &[Vec<TickRow>],
    files: &[(i64, u64)],
    inflight: &[(String, i64)],
    p: &CleanParams,
)
    requires
        old(st).wf(),
        p.wf(),
        probe::procs_wf(probe::procs_view(procs@)),
        probe::rows_views(rows@) == probe::rows_table(probe::procs_view(procs@), *p),
        forall|i: int|
            0 <= i < rows@.len() ==> stream::all_light((#[trigger] rows@[i])@) && rows@[i]@.len()
                <= probe::RING_CAP,
        files@.len() <= stream::FILES_LIMIT,
    ensures
        final(st).wf(),
        (final(st)@, calls_view(final(pending)@)) == settled(
            old(st)@,
            calls_view(old(pending)@),
            now_ms,
            probe::procs_view(procs@),
            files@,
            inflight@,
            *p,
        ),
        final(pending)@.len() <= old(pending)@.len(),
{
    let ghost pv = probe::procs_view(procs@);
    let ghost goal = settled(
        st@,
        calls_view(pending@),
        now_ms,
        pv,
        files@,
        inflight@,
        *p,
    );
    let ghost n0 = pending@.len();
    let mut go = true;
    while go && pending.len() > 0
        invariant
            st.wf(),
            p.wf(),
            pv == probe::procs_view(procs@),
            probe::procs_wf(pv),
            probe::rows_views(rows@) == probe::rows_table(pv, *p),
            forall|i: int|
                0 <= i < rows@.len() ==> stream::all_light((#[trigger] rows@[i])@)
                    && rows@[i]@.len() <= probe::RING_CAP,
            files@.len() <= stream::FILES_LIMIT,
            go ==> goal == settled(
                st@,
                calls_view(pending@),
                now_ms,
                pv,
                files@,
                inflight@,
                *p,
            ),
            !go ==> goal == (st@, calls_view(pending@)),
            pending@.len() <= n0,
        decreases pending@.len() + (if go { 1int } else { 0 }),
    {
        let ghost queue = calls_view(pending@);
        let age: i128 = now_ms as i128 - pending[0].completed_ms as i128;
        assert(queue[0] == pending@[0]@);
        if age > STALE_CALL_MS as i128 {
            let _ = pending.pop_front();
            assert(calls_view(pending@) =~= queue.skip(1));
        } else if p.cal_grace_ms > 0 && age < p.cal_grace_ms as i128 {
            go = false;
        } else {
            let c: Call = pending[0].clone();
            st.attribute_call(&c, procs, inflight, p);
            st.calibrate_call(&c, procs, rows, files, p);
            let _ = pending.pop_front();
            assert(calls_view(pending@) =~= queue.skip(1));
        }
    }
}

/// A call that is reported as taken is the newest sample afterwards, whatever the queue held
/// before: its rate is its cleaned bytes over its tokens, at most the four newest of the old
/// samples stand before it, and the rate per token is the middle one of them all. A call that
/// is reported as skipped changes neither the samples nor the rate.
pub proof fn law_taken_call_is_the_newest_sample(
    st: Learned,
    c: CallView,
    procs: Seq<Proc>,
    files: Samples,
    p: CleanParams,
)
    requires
        st.cal.len() <= 5,
        p.wf(),
    ensures
        ({
            let r = calibrate(st, c, procs, files, p);
            &&& r.session_pid == st.session_pid
            &&& r.event is Some
            &&& {
                let e = r.event->0;
                &&& e.id == c.id && e.session == c.session && e.completed_ms == c.completed_ms
                &&& e.bpt_now == r.bpt
                &&& e.cal_skipped ==> r.cal == st.cal && r.bpt == st.bpt && e.bpt_sample == 0
                &&& !e.cal_skipped ==> {
                    let n = r.cal.len();
                    &&& n == if st.cal.len() < 5 {
                        st.cal.len() + 1
                    } else {
                        5
                    }
                    &&& r.cal.last() == e.bpt_sample
                    &&& forall|i: int|
                        0 <= i < n - 1 ==> #[trigger] r.cal[i] == st.cal[st.cal.len() - (n - 1) + i]
                    &&& r.cal.contains(r.bpt)
                    &&& 2 * r.cal.filter(|x: u64| x < r.bpt).len() <= n
                    &&& 2 * r.cal.filter(|x: u64| x > r.bpt).len() < n
                    &&& e.eff > 0
                    &&& e.bpt_sample < u64::MAX ==> e.bpt_sample * e.eff <= e.clean_bytes < (
                    e.bpt_sample + 1) * e.eff
                }
            }
        }),
{
    let r = calibrate(st, c, procs, files, p);
    let e = r.event->0;
    if !e.cal_skipped {
        let grown = st.cal.push(e.bpt_sample);
        assert(r.cal.last() == grown.last());
        assert forall|i: int| 0 <= i < r.cal.len() - 1 implies #[trigger] r.cal[i]
            == st.cal[st.cal.len() - (r.cal.len() - 1) + i] by {
            assert(r.cal[i] == grown[grown.len() - r.cal.len() + i]);
        }
        calibration::law_median_is_in_the_middle(r.cal);
        let clean = e.clean_bytes;
        let eff = e.eff as int;
        let q = clean / eff;
        assert(q * eff <= clean < (q + 1) * eff) by (nonlinear_arith)
            requires
                eff > 0,
                q == clean / eff,
        ;
        assert(q >= 0) by (nonlinear_arith)
            requires
                eff > 0,
                clean > 0,
                q == clean / eff,
        ;
    }
}

/// The latest call was taken, with a rate of `x`.
pub open spec fn took(next: Learned, x: u64) -> bool {
    next.event matches Some(e) && !e.cal_skipped && e.bpt_sample == x
}

/// Three calls in a row with the same rate set the rate per token, whatever was learned before:
/// after a change of the model the old samples do not linger. Between the calls the samples
/// stay as they are; sessions may be attributed meanwhile.
pub proof fn law_three_like_calls_set_the_rate(
    a: Learned,
    b: Learned,
    c: Learned,
    calls: (CallView, CallView, CallView),
    procs: (Seq<Proc>, Seq<Proc>, Seq<Proc>),
    files: (Samples, Samples, Samples),
    p: CleanParams,
    x: u64,
)
    requires
        a.cal.len() <= 5,
        p.wf(),
        took(calibrate(a, calls.0, procs.0, files.0, p), x),
        b.cal == calibrate(a, calls.0, procs.0, files.0, p).cal,
        took(calibrate(b, calls.1, procs.1, files.1, p), x),
        c.cal == calibrate(b, calls.1, procs.1, files.1, p).cal,
        took(calibrate(c, calls.2, procs.2, files.2, p), x),
    ensures
        calibrate(c, calls.2, procs.2, files.2, p).bpt == x,
{
    let r = calibrate(c, calls.2, procs.2, files.2, p);
    law_taken_call_is_the_newest_sample(a, calls.0, procs.0, files.0, p);
    law_taken_call_is_the_newest_sample(b, calls.1, procs.1, files.1, p);
    law_taken_call_is_the_newest_sample(c, calls.2, procs.2, files.2, p);
    let n = r.cal.len() as int;
    assert(c.cal.last() == x && b.cal.last() == x);
    assert(r.cal[n - 1] == x);
    assert(r.cal[n - 2] == c.cal[c.cal.len() - 1]);
    assert(c.cal[c.cal.len() - 2] == b.cal[b.cal.len() - 1]);
    assert(r.cal[n - 3] == c.cal[c.cal.len() - 2]);
    let same = |y: u64| y == x;
    let d = r.cal.drop_last();
    let e = d.drop_last();
    assert(r.cal.filter(same).len() >= 3) by {
        assert(e.last() == x && d.last() == x);
        reveal(Seq::filter);
        assert(e.filter(same).len() >= 1);
        assert(d.filter(same).len() >= 2);
    }
    calibration::law_majority_is_the_median(r.cal, x);
}

proof fn lemma_written_of_all(procs: Seq<Proc>, from: i64, to: i64, pid: u32)
    ensures
        attribution::bytes_of(raw_map(procs, from, to), pid) <= raw_total(procs, from, to),
    decreases procs.len(),
{
    if procs.len() > 0 {
        lemma_written_of_all(procs.drop_last(), from, to, pid);
    }
}

/// Which calls teach: those with enough tokens, whose cleaned bytes are at least a fifth of
/// what was written and within the bounds for as many tokens, while other processes wrote at
/// most a sixth of all. A call with too few tokens, or with bytes beyond the bounds, or beside
/// which other processes wrote more than that, does not. No jump is asked about where outliers
/// are admitted.
pub proof fn law_which_calls_teach(
    st: Learned,
    c: CallView,
    procs: Seq<Proc>,
    files: Samples,
    p: CleanParams,
)
    requires
        p.wf(),
    ensures
        ({
            let e = calibrate(st, c, procs, files, p).event->0;
            &&& e.eff == rate::clip(c.output + c.reasoning)
            &&& e.eff < p.cal_min_tokens ==> e.cal_skipped
            &&& e.clean_bytes < p.cal_min * e.eff ==> e.cal_skipped
            &&& e.clean_bytes > p.cal_max * e.eff ==> e.cal_skipped
            &&& e.others_bytes * 6 > e.raw_bytes ==> e.cal_skipped
            &&& p.cal_outlier_ratio == 0 && e.eff >= p.cal_min_tokens && e.raw_bytes > 0
                && e.clean_bytes * 5 >= e.raw_bytes * 1000 && p.cal_min * e.eff <= e.clean_bytes
                <= p.cal_max * e.eff && e.others_bytes * 6 <= e.raw_bytes ==> !e.cal_skipped
        }),
{
    let from = window_start(c);
    let to = window_end(c, p);
    let raw = raw_map(procs, from, to);
    let pid = stream_pid(st.session_pid, c.session, procs);
    match pid {
        Some(x) => lemma_written_of_all(procs, from, to, x),
        None => match attribution::leader(raw, None) {
            Some(t) => lemma_written_of_all(procs, from, to, t),
            None => {},
        },
    }
    let e = calibrate(st, c, procs, files, p).event->0;
    assert(p.cal_min * e.eff > 0 || e.eff == 0) by (nonlinear_arith)
        requires
            p.cal_min > 0,
            e.eff >= 0,
    ;
}

/// A call waits until its bytes have arrived, then it is learned from once and leaves the queue,
/// and one that is too old leaves it without a trace.
pub proof fn law_due_calls_are_learned_from_once(
    st: Learned,
    c: CallView,
    now: i64,
    procs: Seq<Proc>,
    files: Samples,
    inflight: Seq<(String, i64)>,
    p: CleanParams,
)
    ensures
        ({
            let age = now - c.completed_ms;
            let r = settled(st, seq![c], now, procs, files, inflight, p);
            &&& age > 120_000 ==> r == (st, Seq::<CallView>::empty())
            &&& age <= 120_000 && age < p.cal_grace_ms && p.cal_grace_ms > 0 ==> r == (
                st,
                seq![c],
            )
            &&& age <= 120_000 && (age >= p.cal_grace_ms || p.cal_grace_ms <= 0) ==> {
                &&& r.1.len() == 0
                &&& r.0.event matches Some(e) && e.id == c.id
                &&& r.0.attributed.contains_key(c.id) || r.0.attributed.len() == 0
            }
        }),
{
    assert(seq![c].skip(1) =~= Seq::empty());
    reveal_with_fuel(settled, 2);
}

/// What a call carried is taken from its stream: from when it began to generate, but at most five
/// minutes back, until the grace period after its end. A steady stream without gaps carries its
/// rate for just as long.
pub proof fn law_call_is_measured_while_it_generates(
    st: Learned,
    c: CallView,
    procs: Seq<Proc>,
    files: Samples,
    p: CleanParams,
    k: int,
)
    requires
        0 <= c.gen_ms,
        300_000 <= c.completed_ms,
        0 <= p.cal_grace_ms,
        c.completed_ms + p.cal_grace_ms <= i64::MAX,
        ({
            let rows = call_stream(stream_pid(st.session_pid, c.session, procs), procs, files, p);
            &&& rows.len() > 0
            &&& stream::all_timed(rows)
            &&& stream::steady(rows, k)
            &&& forall|i: int|
                #![trigger rows[i]]
                0 < i < rows.len() ==> rows[i].end_ms - rows[i].dt_ms == rows[i - 1].end_ms
            &&& rows[0].end_ms - rows[0].dt_ms <= c.completed_ms - 300_000
            &&& rows.last().end_ms >= c.completed_ms + p.cal_grace_ms
        }),
    ensures
        ({
            let e = calibrate(st, c, procs, files, p).event->0;
            let ms = if c.gen_ms <= 300_000 {
                c.gen_ms as int
            } else {
                300_000
            };
            &&& e.clean_bytes == k * (ms + p.cal_grace_ms)
            &&& e.true_tps.tokens == e.eff
            &&& e.true_tps.ms == if c.gen_ms >= 50 {
                c.gen_ms as int
            } else {
                50
            }
        }),
{
    let rows = call_stream(stream_pid(st.session_pid, c.session, procs), procs, files, p);
    let from = window_start(c) as int;
    let to = window_end(c, p) as int;
    stream::law_steady_stream_carries_its_rate(rows, k, from, to);
    stream::law_ticks_without_gaps_cover(rows, from, to);
}

/// A call whose rate lies too far from the learned one, as far as that is watched, teaches nothing.
pub proof fn law_outliers_teach_nothing(
    st: Learned,
    c: CallView,
    procs: Seq<Proc>,
    files: Samples,
    p: CleanParams,
)
    requires
        p.cal_outlier_ratio > 0,
        st.bpt > 0,
    ensures
        ({
            let e = calibrate(st, c, procs, files, p).event->0;
            &&& e.clean_bytes * p.cal_outlier_ratio < st.bpt * e.eff ==> e.cal_skipped
            &&& e.clean_bytes > (st.bpt * e.eff) * p.cal_outlier_ratio ==> e.cal_skipped
        }),
{
}

/// The calls that wait are learned from one after the other, the oldest first; what is not due yet
/// waits on, and so does all that stands behind it.
pub proof fn law_calls_are_learned_from_in_order(
    st: Learned,
    c: CallView,
    rest: Seq<CallView>,
    now: i64,
    procs: Seq<Proc>,
    files: Samples,
    inflight: Seq<(String, i64)>,
    p: CleanParams,
)
    ensures
        ({
            let one = settled(st, seq![c], now, procs, files, inflight, p);
            let all = settled(st, seq![c] + rest, now, procs, files, inflight, p);
            &&& one.1.len() == 0 ==> all == settled(one.0, rest, now, procs, files, inflight, p)
            &&& one.1.len() > 0 ==> all == (st, seq![c] + rest)
        }),
{
    reveal_with_fuel(settled, 2);
    assert((seq![c] + rest).skip(1) =~= rest);
    assert(seq![c].skip(1) =~= Seq::empty());
}

/// When a call shows the process of its session: only the first time that it is looked at, and only
/// where more than twenty thousand bytes were written meanwhile.
pub proof fn law_which_calls_attribute(
    st: Learned,
    c: CallView,
    procs: Seq<Proc>,
    inflight: Seq<(String, i64)>,
    p: CleanParams,
)
    ensures
        ({
            let r = attribute(st, c, procs, inflight, p);
            let raw = raw_map(procs, window_start(c), window_end(c, p));
            &&& st.attributed.contains_key(c.id) ==> r == st
            &&& raw_total(procs, window_start(c), window_end(c, p)) <= 20_000 ==> r.session_pid
                == st.session_pid
            &&& r.cal == st.cal && r.bpt == st.bpt && r.event == st.event
            &&& !st.attributed.contains_key(c.id) && st.attributed.insert(c.id, ()).len() <= 4_000
                ==> r.attributed == st.attributed.insert(c.id, ())
            &&& !st.attributed.contains_key(c.id) && st.attributed.insert(c.id, ()).len() > 4_000
                ==> r.attributed == Map::<Seq<char>, ()>::empty()
            &&& forall|s: Seq<char>|
                s != c.session ==> (#[trigger] r.session_pid.contains_key(s)
                    <==> st.session_pid.contains_key(s))
            &&& forall|s: Seq<char>|
                s != c.session && st.session_pid.contains_key(s) ==> #[trigger] r.session_pid[s]
                    == st.session_pid[s]
            &&& r.session_pid.contains_key(c.session) && (!st.session_pid.contains_key(c.session)
                || st.session_pid[c.session] != r.session_pid[c.session]) ==> raw.contains_key(
                r.session_pid[c.session],
            )
        }),
{
    let raw = raw_map(procs, window_start(c), window_end(c, p));
    let cur = if st.session_pid.contains_key(c.session) {
        Some(st.session_pid[c.session])
    } else {
        None
    };
    attribution::law_attribution_is_listed(
        cur,
        raw,
        owned_by_others(inflight, c.session, st.session_pid),
    );
}

/// The processes that are left to others are those of the other sessions in progress.
pub proof fn law_others_keep_their_processes(
    inflight: Seq<(String, i64)>,
    session: Seq<char>,
    map: Map<Seq<char>, u32>,
    pid: u32,
)
    ensures
        owned_by_others(inflight, session, map).contains(pid) <==> exists|i: int|
            0 <= i < inflight.len() && (#[trigger] inflight[i]).0@ != session && map.contains_key(
                inflight[i].0@,
            ) && map[inflight[i].0@] == pid,
    decreases inflight.len(),
{
    if inflight.len() > 0 {
        let d = inflight.drop_last();
        law_others_keep_their_processes(d, session, map, pid);
        assert(inflight[inflight.len() - 1] == inflight.last());
        if owned_by_others(d, session, map).contains(pid) {
            let i = choose|i: int|
                0 <= i < d.len() && (#[trigger] d[i]).0@ != session && map.contains_key(d[i].0@)
                    && map[d[i].0@] == pid;
            assert(inflight[i] == d[i]);
        }
        if exists|i: int|
            0 <= i < inflight.len() && (#[trigger] inflight[i]).0@ != session && map.contains_key(
                inflight[i].0@,
            ) && map[inflight[i].0@] == pid {
            let i = choose|i: int|
                0 <= i < inflight.len() && (#[trigger] inflight[i]).0@ != session
                    && map.contains_key(inflight[i].0@) && map[inflight[i].0@] == pid;
            if i < d.len() {
                assert(d[i] == inflight[i]);
            }
        }
    }
}

/// What a process wrote during a time, all of whose samples lie in it, is what its counter grew by.
pub proof fn law_written_is_growth(s: Samples, from: i64, to: i64)
    requires
        s.len() > 0,
        forall|i: int| 0 <= i < s.len() ==> from <= (#[trigger] s[i]).0 <= to,
        forall|i: int| #![trigger s[i]] 0 < i < s.len() ==> s[i - 1].1 <= s[i].1,
    ensures
        raw_sum(s, from, to) == s.last().1 - s[0].1,
    decreases s.len(),
{
    if s.len() > 1 {
        let d = s.drop_last();
        assert forall|i: int| 0 <= i < d.len() implies from <= (#[trigger] d[i]).0 <= to by {
            assert(d[i] == s[i]);
        }
        assert forall|i: int|
            #![trigger d[i]]
            0 < i < d.len() implies d[i - 1].1 <= d[i].1 by {
            assert(s[i - 1].1 <= s[i].1);
        }
        law_written_is_growth(d, from, to);
        assert(s[s.len() - 1].1 >= s[s.len() - 2].1);
        assert(s[s.len() - 1].0 >= from && s[s.len() - 2].0 <= to);
    }
}

/// After calls are learned from, the event is that of the last of them, if there was one.
pub proof fn lemma_settled_event(
    st: Learned,
    pending: Seq<CallView>,
    now: i64,
    procs: Seq<Proc>,
    files: Samples,
    inflight: Seq<(String, i64)>,
    p: CleanParams,
)
    ensures
        ({
            let r = settled(st, pending, now, procs, files, inflight, p).0;
            ||| r.event == st.event && r.bpt == st.bpt && r.cal == st.cal
            ||| r.event is Some && r.event->0.bpt_now == r.bpt
        }),
    decreases pending.len(),
{
    if pending.len() > 0 {
        let c = pending[0];
        let next = calibrate(attribute(st, c, procs, inflight, p), c, procs, files, p);
        lemma_settled_event(st, pending.skip(1), now, procs, files, inflight, p);
        lemma_settled_event(next, pending.skip(1), now, procs, files, inflight, p);
    }
}

/// What a process wrote between two samples counts for a time that touches the time between these,
/// whole; and each two samples count for themselves.
pub proof fn law_written_counts_where_it_touches(s: Samples, x: (i64, u64), from: i64, to: i64)
    requires
        s.len() > 0,
    ensures
        ({
            let a = s.last();
            let more = raw_sum(s.push(x), from, to) - raw_sum(s, from, to);
            &&& a.0 <= to && from <= x.0 && a.1 <= x.1 ==> more == x.1 - a.1
            &&& a.0 > to || from > x.0 || a.1 > x.1 ==> more == 0
        }),
{
    let all = s.push(x);
    assert(all.drop_last() =~= s);
    assert(all[all.len() - 2] == s.last());
}

/// What all processes wrote is what each did, as long as that can be counted; what each did is
/// kept under its number.
pub proof fn law_all_written_is_what_each_wrote(
    procs: Seq<Proc>,
    x: Proc,
    from: i64,
    to: i64,
)
    requires
        !probe::has_pid(procs, x.0),
        raw_total(procs, from, to) + raw_sum(x.1, from, to) <= u64::MAX,
    ensures
        raw_total(procs.push(x), from, to) == raw_total(procs, from, to) + raw_sum(x.1, from, to),
        raw_map(procs.push(x), from, to)[x.0] == raw_sum(x.1, from, to),
        raw_map(procs.push(x), from, to).contains_key(x.0),
        forall|pid: u32|
            pid != x.0 ==> (#[trigger] raw_map(procs.push(x), from, to).contains_key(pid)
                <==> raw_map(procs, from, to).contains_key(pid)),
        raw_total(Seq::empty(), from, to) == 0,
{
    assert(procs.push(x).drop_last() =~= procs);
}

} // verus!
