//! Whether something is being generated, and how fast.

use vstd::prelude::*;

use crate::calibration;
use crate::probe;
use crate::probe::{Proc, ProcRing};
use crate::rate;
use crate::stream;
use crate::stream::{CleanParams, TickRow};
use crate::strmap::StrMap;

verus! {

/// The span over which the speed is averaged.
pub const WINDOW_MS: i64 = 30_000;

/// Bytes per second from which on a stream counts as streaming.
pub const STREAMING_BPS: i64 = 4_000;

/// A stream that stays below the threshold for longer than this has stopped.
pub const SILENT_STOP_MS: i64 = 15_000;

/// How long after its start a call may be without a byte before it counts as silent.
pub const TTFT_HINT_MS: i64 = 20_000;

/// A call has started, nothing has streamed yet, and that is still to be expected.
pub open spec fn hint_due(started: Option<i64>, anchor: Option<i64>, now: i64) -> bool {
    match (started, anchor) {
        (Some(s), None) => now - s <= TTFT_HINT_MS,
        _ => false,
    }
}

/// Whether a call has started of which nothing has streamed yet, for so short a time that
/// this is still to be expected.
pub fn awaiting_hint(
    inflight_started: Option<i64>,
    anchor: Option<i64>,
    now_ms: i64,
) -> (r: bool)
    ensures
        r == hint_due(inflight_started, anchor, now_ms),
{
    match (inflight_started, anchor) {
        (Some(started), None) => now_ms as i128 - started as i128 <= TTFT_HINT_MS as i128,
        _ => false,
    }
}

/// Something has streamed, but not for longer than the grace.
pub open spec fn gone_silent(anchor: Option<i64>, last: Option<i64>, now: i64) -> bool {
    &&& anchor is Some
    &&& last matches Some(t) && now - t > SILENT_STOP_MS
}

/// Whether the stream has stopped although its call has not been completed: it streamed,
/// but not for longer than the grace.
pub fn stale_stop(anchor: Option<i64>, last_stream_ms: Option<i64>, now_ms: i64) -> (r: bool)
    ensures
        r == gone_silent(anchor, last_stream_ms, now_ms),
{
    match (anchor, last_stream_ms) {
        (Some(_), Some(t)) => now_ms as i128 - t as i128 > SILENT_STOP_MS as i128,
        _ => false,
    }
}

/// The rate over an interval reaches the streaming threshold.
pub open spec fn hot(rows: Seq<TickRow>, from: int, to: int) -> bool {
    &&& stream::covered(rows, from, to) > 0
    &&& stream::carried(rows, from, to) > STREAMING_BPS * stream::covered(rows, from, to)
}

/// Whether the rate over an interval reaches the streaming threshold.
pub fn is_hot(rows: &[TickRow], from_ms: i64, to_ms: i64) -> (r: bool)
    requires
        stream::all_timed(rows@),
        stream::weight(rows@) <= stream::STREAM_LIMIT,
        rows@.len() <= stream::TICKS_LIMIT,
    ensures
        r == hot(rows@, from_ms as int, to_ms as int),
{
    proof {
        lemma_covered_small(rows@, from_ms as int, to_ms as int);
    }
    let (b, ms) = stream::integrate(rows, from_ms, to_ms);
    ms > 0 && b > STREAMING_BPS as i128 * ms as i128
}

/// A stream that is not too long covers a time that fits.
pub proof fn lemma_covered_small(rows: Seq<TickRow>, from: int, to: int)
    requires
        stream::all_timed(rows),
        rows.len() <= stream::TICKS_LIMIT,
    ensures
        0 <= stream::covered(rows, from, to) <= 0x80_0000_0000_0000_0000_0000,
{
    stream::lemma_carried_bound(rows, from, to);
    assert(rows.len() * (2 * stream::CLOCK_LIMIT) <= 0x200_0000 * 0x40_0000_0000_0000)
        by (nonlinear_arith)
        requires
            0 <= rows.len() <= 0x200_0000,
            stream::CLOCK_LIMIT == 0x20_0000_0000_0000,
    ;
}

/// The rate over an interval, in thousandths of a byte per second; never negative.
pub open spec fn rate_over(rows: Seq<TickRow>, from: int, to: int) -> u64 {
    if stream::covered(rows, from, to) > 0 {
        rate::clip(
            (stream::carried(rows, from, to) * 1000) / stream::covered(rows, from, to),
        )
    } else {
        0
    }
}

/// Bytes over a time, in thousandths of a byte per second.
pub fn per_second(bytes: i128, ms: u128) -> (r: u64)
    requires
        0 < ms <= 0x80_0000_0000_0000_0000_0000,
        stream::size(bytes as int) <= stream::STREAM_LIMIT,
    ensures
        r == rate::clip((bytes * 1000) / (ms as int)),
{
    if bytes < 0 {
        proof {
            assert((bytes * 1000) / (ms as int) < 0) by (nonlinear_arith)
                requires
                    bytes < 0,
                    ms > 0,
            ;
        }
        return 0;
    }
    rate::clipped(bytes as u128 * 1000 / ms)
}

fn average(rows: &[TickRow], from_ms: i64, to_ms: i64) -> (r: u64)
    requires
        stream::all_timed(rows@),
        stream::weight(rows@) <= stream::STREAM_LIMIT,
        rows@.len() <= stream::TICKS_LIMIT,
    ensures
        r == rate_over(rows@, from_ms as int, to_ms as int),
{
    proof {
        lemma_covered_small(rows@, from_ms as int, to_ms as int);
    }
    let (b, ms) = stream::integrate(rows, from_ms, to_ms);
    if ms > 0 {
        per_second(b, ms)
    } else {
        0
    }
}

/// Tokens per second, in millionths, at a byte rate and a rate per token.
pub open spec fn speed_at(pipe: u64, bpt: u64) -> u64 {
    rate::clip((pipe * 1_000_000) / (bpt as int))
}

/// Tokens per second, in millionths, at a byte rate and a rate per token.
pub fn speed(pipe: u64, bpt: u64) -> (r: u64)
    requires
        bpt > 0,
    ensures
        r == speed_at(pipe, bpt),
{
    rate::clipped(pipe as u128 * 1_000_000 / bpt as u128)
}

/// Every session in progress has a process, and none of these is measured any more.
pub open spec fn all_gone(
    inflight: Seq<(String, i64)>,
    map: Map<Seq<char>, u32>,
    procs: Seq<Proc>,
) -> bool {
    &&& inflight.len() > 0
    &&& forall|i: int|
        0 <= i < inflight.len() ==> map.contains_key((#[trigger] inflight[i]).0@)
            && !probe::has_pid(procs, map[inflight[i].0@])
}

/// Whether every session in progress has a process, and none of these is measured any more.
pub fn is_all_gone(inflight: &[(String, i64)], map: &StrMap<u32>, procs: &[ProcRing]) -> (r: bool)
    requires
        map.wf(),
    ensures
        r == all_gone(inflight@, map@, probe::procs_view(procs@)),
{
    for i in 0..inflight.len()
        invariant
            map.wf(),
            forall|k: int|
                0 <= k < i ==> map@.contains_key((#[trigger] inflight@[k]).0@) && !probe::has_pid(
                    probe::procs_view(procs@),
                    map@[inflight@[k].0@],
                ),
    {
        let alive = match map.get(inflight[i].0.as_str()) {
            Some(pid) => probe::is_measured(procs, *pid),
            None => true,
        };
        if alive {
            assert(!map@.contains_key(inflight@[i as int].0@) || probe::has_pid(
                probe::procs_view(procs@),
                map@[inflight@[i as int].0@],
            ));
            return false;
        }
    }
    inflight.len() > 0
}

/// The latest start of a session in progress.
pub open spec fn latest_start(inflight: Seq<(String, i64)>) -> Option<i64>
    decreases inflight.len(),
{
    if inflight.len() == 0 {
        None
    } else {
        match latest_start(inflight.drop_last()) {
            Some(t) if t >= inflight.last().1 => Some(t),
            _ => Some(inflight.last().1),
        }
    }
}

fn last_started(inflight: &[(String, i64)]) -> (r: Option<i64>)
    ensures
        r == latest_start(inflight@),
{
    let mut best: Option<i64> = None;
    assert(inflight@.take(0) =~= Seq::empty());
    for i in 0..inflight.len()
        invariant
            best == latest_start(inflight@.take(i as int)),
    {
        assert(inflight@.take(i + 1).drop_last() =~= inflight@.take(i as int));
        let t: i64 = inflight[i].1;
        best =
        match best {
            Some(b) if b >= t => Some(b),
            _ => Some(t),
        };
    }
    assert(inflight@.take(inflight@.len() as int) =~= inflight@);
    best
}

/// Since when something has been streaming.
#[derive(Clone, Copy, Debug, PartialEq, Eq, Structural)]
pub struct Anchor {
    /// When the present stretch of streaming began.
    pub active_since: Option<i64>,
    /// When the streaming threshold was last reached.
    pub last_stream_ms: Option<i64>,
    /// Something was being generated.
    pub streaming: bool,
}

/// Whether something is being generated at a moment, and how fast.
#[derive(Clone, Copy, Debug, PartialEq, Eq, Structural)]
pub struct Pulse {
    /// When the present stretch of streaming began.
    pub active_since: Option<i64>,
    /// When the streaming threshold was last reached.
    pub last_stream_ms: Option<i64>,
    /// Something is being generated.
    pub streaming: bool,
    /// The span of the average is not full yet.
    pub ramping: bool,
    /// A call has started and nothing has streamed yet.
    pub awaiting: bool,
    /// The byte rate, in thousandths of a byte per second.
    pub pipe_bps: u64,
}

/// The start of the span that is averaged.
pub open spec fn span_start(active_since: Option<i64>, now: i64) -> int {
    match active_since {
        Some(a) => stream::most(a as int, now - WINDOW_MS),
        None => now as int,
    }
}

/// The start of the span that is averaged.
pub fn span_from(active_since: Option<i64>, now_ms: i64) -> (r: i64)
    requires
        stream::on_clock(now_ms as int),
    ensures
        r == span_start(active_since, now_ms),
{
    match active_since {
        Some(a) => if a >= now_ms - WINDOW_MS {
            a
        } else {
            now_ms - WINDOW_MS
        },
        None => now_ms,
    }
}

/// Generation can be seen: not all processes of sessions in progress are gone, and a session is
/// in progress or, as long as no session is known, bytes stream.
pub open spec fn is_open(gone: bool, busy: bool, known: bool, hot_now: bool) -> bool {
    !gone && (busy || (!known && hot_now))
}

/// The pulse at a moment, after what it was before.
///
/// Where no call is open, all anchors are forgotten. Else a stretch of streaming begins
/// when the threshold is reached and nothing streamed before, and the speed is that of the
/// stream since then, over at most the span.
pub open spec fn pulse_at(
    prev: Anchor,
    rows: Seq<TickRow>,
    open: bool,
    hot_now: bool,
    started: Option<i64>,
    now: i64,
) -> Pulse {
    let since = if !open {
        None
    } else if hot_now && (!prev.streaming || prev.active_since is None) {
        Some(now)
    } else {
        prev.active_since
    };
    let last = if !open {
        None
    } else if hot_now {
        Some(now)
    } else {
        prev.last_stream_ms
    };
    let streaming = open && !gone_silent(since, last, now);
    Pulse {
        active_since: since,
        last_stream_ms: last,
        streaming,
        ramping: streaming && (match since {
            Some(a) => now - a < WINDOW_MS,
            None => true,
        }),
        awaiting: streaming && hint_due(started, since, now),
        pipe_bps: if open && since is Some {
            rate_over(rows, span_start(since, now), now as int)
        } else {
            0
        },
    }
}

/// Decides whether something is being generated, and at which byte rate. `gone` tells whether
/// the processes of all sessions in progress have exited.
pub fn take_pulse(
    prev: Anchor,
    rows: &[TickRow],
    inflight: &[(String, i64)],
    gone: bool,
    known_session: bool,
    now_ms: i64,
    p: &CleanParams,
) -> (r: Pulse)
    requires
        p.wf(),
        stream::on_clock(now_ms as int),
        stream::all_timed(rows@),
        stream::weight(rows@) <= stream::STREAM_LIMIT,
        rows@.len() <= stream::TICKS_LIMIT,
    ensures
        r == pulse_at(
            prev,
            rows@,
            is_open(
                gone,
                inflight@.len() > 0,
                known_session,
                hot(rows@, now_ms - p.detect_ms, now_ms as int),
            ),
            hot(rows@, now_ms - p.detect_ms, now_ms as int),
            latest_start(inflight@),
            now_ms,
        ),
{
    let hot_now = is_hot(rows, now_ms - p.detect_ms, now_ms);
    let open = !gone && (inflight.len() > 0 || (!known_session && hot_now));
    let mut since: Option<i64> = prev.active_since;
    let mut last: Option<i64> = prev.last_stream_ms;
    if open {
        if hot_now {
            if !prev.streaming || since.is_none() {
                since = Some(now_ms);
            }
            last = Some(now_ms);
        }
    } else {
        since = None;
        last = None;
    }
    let pipe_bps: u64 = if open && since.is_some() {
        average(rows, span_from(since, now_ms), now_ms)
    } else {
        0
    };
    let streaming = open && !stale_stop(since, last, now_ms);
    let ramping = streaming && (match since {
        Some(a) => (now_ms as i128 - a as i128) < WINDOW_MS as i128,
        None => true,
    });
    let awaiting = streaming && awaiting_hint(last_started(inflight), since, now_ms);
    Pulse { active_since: since, last_stream_ms: last, streaming, ramping, awaiting, pipe_bps }
}

/// Where no call is open, nothing is shown and the stretch is forgotten: a call that has ended
/// reads zero at once.
pub proof fn law_closed_is_silent(
    prev: Anchor,
    rows: Seq<TickRow>,
    hot_now: bool,
    started: Option<i64>,
    now: i64,
)
    ensures
        ({
            let g = pulse_at(prev, rows, false, hot_now, started, now);
            &&& !g.streaming && !g.ramping && !g.awaiting
            &&& g.pipe_bps == 0
            &&& g.active_since is None && g.last_stream_ms is None
        }),
{
}

/// While a call is open and bytes flow at the threshold, generation has not stopped; the
/// first such moment after a silence begins a new stretch, so the silence does not dilute
/// the speed.
pub proof fn law_flow_keeps_streaming(
    prev: Anchor,
    rows: Seq<TickRow>,
    started: Option<i64>,
    now: i64,
)
    ensures
        ({
            let g = pulse_at(prev, rows, true, true, started, now);
            &&& g.streaming && !g.awaiting
            &&& g.last_stream_ms == Some(now)
            &&& !prev.streaming ==> g.active_since == Some(now)
        }),
{
}

/// While a call is open and less than the threshold flows, generation goes on for as long as
/// the grace, and then has stopped.
pub proof fn law_silence_stops(
    prev: Anchor,
    rows: Seq<TickRow>,
    started: Option<i64>,
    last: i64,
    now: i64,
)
    requires
        prev.active_since is Some,
        prev.last_stream_ms == Some(last),
    ensures
        pulse_at(prev, rows, true, false, started, now).streaming == (now - last
            <= SILENT_STOP_MS),
{
}

/// Once all processes of the sessions in progress have exited, nothing is shown, whatever the
/// counters still say.
pub proof fn law_gone_processes_are_silent(
    prev: Anchor,
    rows: Seq<TickRow>,
    busy: bool,
    known: bool,
    hot_now: bool,
    started: Option<i64>,
    now: i64,
)
    ensures
        ({
            let g = pulse_at(prev, rows, is_open(true, busy, known, hot_now), hot_now, started, now);
            !g.streaming && g.pipe_bps == 0
        }),
{
}

/// A call reads its own speed: its cleaned bytes over a time, at the rate per token that was
/// learned from them, show as its tokens over that time. Whatever cleaning takes off is taken
/// off the bytes that are shown and off those that are learned from, so it cancels; what is
/// left is the rounding of the rate per token, of the byte rate and of the speed.
pub proof fn law_call_reads_its_own_speed(
    eff: u64,
    clean: int,
    raw: u64,
    bpt_now: u64,
    p: CleanParams,
    ms: int,
)
    requires
        p.wf(),
        calibration::admits(eff, clean, raw, bpt_now, p),
        ms > 0,
    ensures
        ({
            let pipe = rate::clip((clean * 1000) / ms);
            let shown = speed_at(pipe, calibration::sampled(eff, clean, raw, bpt_now, p).1);
            &&& shown * (clean - eff) * ms <= 1_000_000_000 * eff * clean
            &&& pipe < u64::MAX && shown < u64::MAX ==> ((shown + 1) * clean + 1_000_000 * eff) * ms
                >= 1_000_000_000 * eff * clean
        }),
{
    let e = eff as int;
    let b = clean / e;
    let q = (clean * 1000) / ms;
    let pipe = rate::clip(q) as int;
    let s = (pipe * 1_000_000) / b;
    let shown = rate::clip(s) as int;
    assert(1 <= b <= p.cal_max) by (nonlinear_arith)
        requires
            e > 0,
            p.cal_min > 0,
            clean >= p.cal_min * e,
            clean <= p.cal_max * e,
            b == clean / e,
    ;
    assert(b * e <= clean < (b + 1) * e) by (nonlinear_arith)
        requires
            e > 0,
            b == clean / e,
    ;
    assert(0 <= q && q * ms <= clean * 1000 < (q + 1) * ms) by (nonlinear_arith)
        requires
            ms > 0,
            clean > 0,
            q == (clean * 1000) / ms,
    ;
    assert(0 <= s && s * b <= pipe * 1_000_000 < (s + 1) * b) by (nonlinear_arith)
        requires
            b >= 1,
            pipe >= 0,
            s == (pipe * 1_000_000) / b,
    ;
    assert((b + 1) * e == b * e + e) by (nonlinear_arith);
    assert(shown * (clean - e) * ms <= 1_000_000_000 * e * clean) by {
        assert(shown * (clean - e) <= s * (b * e)) by (nonlinear_arith)
            requires
                0 <= shown <= s,
                clean - e <= b * e,
                b >= 1,
                e > 0,
        ;
        assert(s * (b * e) == (s * b) * e) by (nonlinear_arith);
        assert((s * b) * e <= (q * 1_000_000) * e) by (nonlinear_arith)
            requires
                s * b <= pipe * 1_000_000,
                pipe <= q,
                e > 0,
        ;
        assert(shown * (clean - e) * ms <= ((q * 1_000_000) * e) * ms) by (nonlinear_arith)
            requires
                shown * (clean - e) <= (q * 1_000_000) * e,
                ms > 0,
        ;
        assert(((q * 1_000_000) * e) * ms == (1_000_000 * e) * (q * ms)) by (nonlinear_arith);
        assert((1_000_000 * e) * (q * ms) <= (1_000_000 * e) * (clean * 1000)) by (nonlinear_arith)
            requires
                q * ms <= clean * 1000,
                e > 0,
        ;
        assert((1_000_000 * e) * (clean * 1000) == 1_000_000_000 * e * clean) by (nonlinear_arith);
    }
    if pipe < u64::MAX && shown < u64::MAX {
        assert((s + 1) * clean >= (s + 1) * (b * e)) by (nonlinear_arith)
            requires
                s >= 0,
                clean >= b * e,
        ;
        assert((s + 1) * (b * e) == ((s + 1) * b) * e) by (nonlinear_arith);
        assert(((s + 1) * b) * e >= (q * 1_000_000) * e) by (nonlinear_arith)
            requires
                (s + 1) * b > q * 1_000_000,
                e > 0,
        ;
        assert(((s + 1) * clean + 1_000_000 * e) * ms >= ((q + 1) * 1_000_000 * e) * ms)
            by (nonlinear_arith)
            requires
                (s + 1) * clean >= (q * 1_000_000) * e,
                ms > 0,
        ;
        assert(((q + 1) * 1_000_000 * e) * ms == (1_000_000 * e) * ((q + 1) * ms))
            by (nonlinear_arith);
        assert((1_000_000 * e) * ((q + 1) * ms) >= (1_000_000 * e) * (clean * 1000))
            by (nonlinear_arith)
            requires
                (q + 1) * ms > clean * 1000,
                e > 0,
        ;
        assert((1_000_000 * e) * (clean * 1000) == 1_000_000_000 * e * clean) by (nonlinear_arith);
    }
}

/// The latest start is one of those of the sessions in progress, and none is later.
pub proof fn law_latest_start_is_the_last(inflight: Seq<(String, i64)>)
    ensures
        match latest_start(inflight) {
            Some(t) => (exists|i: int| 0 <= i < inflight.len() && (#[trigger] inflight[i]).1 == t)
                && forall|i: int| 0 <= i < inflight.len() ==> (#[trigger] inflight[i]).1 <= t,
            None => inflight.len() == 0,
        },
    decreases inflight.len(),
{
    if inflight.len() > 0 {
        let d = inflight.drop_last();
        law_latest_start_is_the_last(d);
        assert(inflight[inflight.len() - 1] == inflight.last());
        let t = latest_start(inflight)->0;
        if t != inflight.last().1 {
            let i = choose|i: int| 0 <= i < d.len() && (#[trigger] d[i]).1 == t;
            assert(inflight[i].1 == t);
        }
        assert forall|i: int| 0 <= i < inflight.len() implies (#[trigger] inflight[i]).1 <= t by {
            if i < d.len() {
                assert(d[i].1 == inflight[i].1);
            }
        }
    }
}

/// A call is awaited while it is open, nothing of it has streamed, and it began at most twenty
/// seconds ago.
pub proof fn law_calls_are_awaited_for_a_while(
    prev: Anchor,
    rows: Seq<TickRow>,
    started: i64,
    now: i64,
)
    requires
        prev.active_since is None,
        prev.last_stream_ms is None,
    ensures
        pulse_at(prev, rows, true, false, Some(started), now).awaiting == (now - started <= 20_000),
        !pulse_at(prev, rows, true, true, Some(started), now).awaiting,
        pulse_at(prev, rows, true, false, Some(started), now).streaming,
        pulse_at(prev, rows, true, false, Some(started), now).pipe_bps == 0,
{
}

/// Streaming lasts until nothing has streamed for more than fifteen seconds, the span of the
/// average fills in thirty, and a stretch that goes on keeps its beginning.
pub proof fn law_stretch_of_streaming(
    prev: Anchor,
    rows: Seq<TickRow>,
    hot_now: bool,
    started: Option<i64>,
    now: i64,
)
    ensures
        ({
            let g = pulse_at(prev, rows, true, hot_now, started, now);
            &&& prev.streaming && prev.active_since is Some ==> g.active_since == prev.active_since
            &&& !hot_now ==> g.active_since == prev.active_since && g.last_stream_ms
                == prev.last_stream_ms
            &&& match (g.active_since, g.last_stream_ms) {
                (Some(a), Some(t)) => g.streaming == (now - t <= 15_000),
                _ => g.streaming,
            }
            &&& match g.active_since {
                Some(a) => g.ramping == (g.streaming && now - a < 30_000),
                None => g.ramping == g.streaming,
            }
        }),
{
}

/// A measurement counts while a session is in progress and its process is there; without one, only
/// for as long as no session has been known, and while something streams.
pub proof fn law_when_a_measurement_counts(gone: bool, busy: bool, known: bool, hot_now: bool)
    ensures
        gone ==> !is_open(gone, busy, known, hot_now),
        !gone && busy ==> is_open(gone, busy, known, hot_now),
        !gone && !busy && known ==> !is_open(gone, busy, known, hot_now),
        !gone && !busy && !known ==> is_open(gone, busy, known, hot_now) == hot_now,
{
}

/// The byte rate is that of the present stretch of streaming, or of its last thirty seconds: what
/// was carried in that span over how long it has ticks.
pub proof fn law_rate_is_of_the_present_stretch(
    prev: Anchor,
    rows: Seq<TickRow>,
    hot_now: bool,
    started: Option<i64>,
    now: i64,
)
    ensures
        ({
            let g = pulse_at(prev, rows, true, hot_now, started, now);
            match g.active_since {
                Some(a) => {
                    let from = if a >= now - 30_000 {
                        a as int
                    } else {
                        now - 30_000
                    };
                    let ms = stream::covered(rows, from, now as int);
                    let bytes = stream::carried(rows, from, now as int);
                    &&& ms <= 0 || bytes <= 0 ==> g.pipe_bps == 0
                    &&& ms > 0 && bytes > 0 && g.pipe_bps < u64::MAX ==> g.pipe_bps * ms <= 1000
                        * bytes < (g.pipe_bps + 1) * ms
                },
                None => g.pipe_bps == 0,
            }
        }),
{
    let g = pulse_at(prev, rows, true, hot_now, started, now);
    if g.active_since is Some {
        let from = span_start(g.active_since, now);
        let ms = stream::covered(rows, from, now as int);
        let bytes = stream::carried(rows, from, now as int);
        if ms > 0 {
            let q = (bytes * 1000) / ms;
            assert(q * ms <= bytes * 1000 < (q + 1) * ms) by (nonlinear_arith)
                requires
                    ms > 0,
                    q == (bytes * 1000) / ms,
            ;
            assert(bytes <= 0 ==> q <= 0) by (nonlinear_arith)
                requires
                    ms > 0,
                    q * ms <= bytes * 1000,
            ;
            assert(bytes > 0 ==> q >= 0) by (nonlinear_arith)
                requires
                    ms > 0,
                    bytes * 1000 < (q + 1) * ms,
            ;
        }
    }
}

} // verus!
