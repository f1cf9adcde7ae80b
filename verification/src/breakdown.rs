//! What each process contributes to the speed.

use vstd::prelude::*;

use crate::order;
use crate::order::{Ordered, Ranked};
use crate::probe;
use crate::probe::{Proc, ProcRing, Samples};
use crate::pulse;
use crate::rate;
use crate::stream;
use crate::stream::{CleanParams, TickRow};
use crate::strmap::StrMap;

verus! {

/// The speed of one process, which may serve several sessions.
#[derive(Debug)]
pub struct TaskLive {
    /// The process.
    pub pid: u32,
    /// The first session in progress that it serves.
    pub session: Option<String>,
    /// How many sessions in progress it serves.
    pub n_sessions: usize,
    /// Its speed, in millionths of a token per second.
    pub tps: u64,
    /// It is streaming.
    pub streaming: bool,
}

/// A [`TaskLive`] with texts as their characters.
pub struct TaskView {
    pub pid: u32,
    pub session: Option<Seq<char>>,
    pub n_sessions: nat,
    pub tps: u64,
    pub streaming: bool,
}

impl View for TaskLive {
    type V = TaskView;

    open spec fn view(&self) -> TaskView {
        TaskView {
            pid: self.pid,
            session: match self.session {
                Some(s) => Some(s@),
                None => None,
            },
            n_sessions: self.n_sessions as nat,
            tps: self.tps,
            streaming: self.streaming,
        }
    }
}

/// The fastest first.
impl Ordered for TaskLive {
    open spec fn before(self, other: Self) -> bool {
        self.tps > other.tps
    }

    proof fn strict_weak(a: Self, b: Self, c: Self) {
    }
}

impl Ranked for TaskLive {
    fn is_before(&self, other: &Self) -> (r: bool) {
        self.tps > other.tps
    }
}

impl Ordered for TaskView {
    open spec fn before(self, other: Self) -> bool {
        self.tps > other.tps
    }

    proof fn strict_weak(a: Self, b: Self, c: Self) {
    }
}

impl Clone for TaskLive {
    fn clone(&self) -> (r: Self)
        ensures
            r@ == self@,
    {
        TaskLive {
            pid: self.pid,
            session: match &self.session {
                Some(s) => Some(s.clone()),
                None => None,
            },
            n_sessions: self.n_sessions,
            tps: self.tps,
            streaming: self.streaming,
        }
    }
}

/// What the tasks are, without their representation.
pub open spec fn tasks_view(tasks: Seq<TaskLive>) -> Seq<TaskView> {
    tasks.map_values(|t: TaskLive| t@)
}

/// The sessions in progress that a process serves.
pub open spec fn served(
    inflight: Seq<(String, i64)>,
    map: Map<Seq<char>, u32>,
    pid: u32,
) -> Seq<Seq<char>>
    decreases inflight.len(),
{
    if inflight.len() == 0 {
        Seq::empty()
    } else {
        let front = served(inflight.drop_last(), map, pid);
        let s = inflight.last().0@;
        if map.contains_key(s) && map[s] == pid {
            front.push(s)
        } else {
            front
        }
    }
}

/// What a process contributed in `from..to`, in thousandths of a byte.
pub open spec fn contribution(proc: Proc, from: int, to: int, p: CleanParams) -> int {
    stream::carried(probe::rows_of(proc.1, p), from, to)
}

/// The sum of all positive contributions.
pub open spec fn positive_sum(procs: Seq<Proc>, from: int, to: int, p: CleanParams) -> int
    decreases procs.len(),
{
    if procs.len() == 0 {
        0
    } else {
        positive_sum(procs.drop_last(), from, to, p) + stream::most(
            contribution(procs.last(), from, to, p),
            0,
        )
    }
}

/// What is left of `b` out of `sum` after its share of the growth of the files has been taken
/// off. Of nothing, nothing is left.
pub open spec fn net_of(b: int, growth: int, sum: int) -> int {
    if b > 0 && growth < sum {
        (b * (sum - growth)) / sum
    } else {
        0
    }
}

/// The speed of a process that contributed `b` of `sum`, after its share of the growth of
/// the files has been taken off, over a time. A process that contributed nothing has none.
pub open spec fn task_speed(b: int, growth: int, sum: int, wall: int, bpt: u64) -> u64 {
    if wall > 0 && b > 0 && growth < sum {
        pulse::speed_at(rate::clip((net_of(b, growth, sum) * 1000) / wall), bpt)
    } else {
        0
    }
}

/// The sum of what is left of all contributions.
pub open spec fn net_sum(
    procs: Seq<Proc>,
    from: int,
    to: int,
    p: CleanParams,
    growth: int,
    sum: int,
) -> int
    decreases procs.len(),
{
    if procs.len() == 0 {
        0
    } else {
        net_sum(procs.drop_last(), from, to, p, growth, sum) + net_of(
            contribution(procs.last(), from, to, p),
            growth,
            sum,
        )
    }
}

/// What is common to the tasks of a moment.
pub struct Frame {
    /// Start of the span that is averaged.
    pub from: int,
    /// Now.
    pub now: int,
    /// For how long the single stream has ticks in the span.
    pub wall: int,
    /// What the files grew in the span, in thousandths of a byte.
    pub growth: int,
    /// The sum of all positive contributions.
    pub sum: int,
    /// The rate per token.
    pub bpt: u64,
}

/// The task of a process.
pub open spec fn task_of(
    proc: Proc,
    f: Frame,
    inflight: Seq<(String, i64)>,
    map: Map<Seq<char>, u32>,
    p: CleanParams,
) -> TaskView {
    let serves = served(inflight, map, proc.0);
    TaskView {
        pid: proc.0,
        session: if serves.len() > 0 {
            Some(serves[0])
        } else {
            None
        },
        n_sessions: serves.len(),
        tps: task_speed(contribution(proc, f.from, f.now, p), f.growth, f.sum, f.wall, f.bpt),
        streaming: pulse::hot(probe::rows_of(proc.1, p), f.now - p.detect_ms, f.now),
    }
}

/// The tasks of all displayed processes that stream or serve a session.
pub open spec fn tasks_of(
    procs: Seq<Proc>,
    f: Frame,
    inflight: Seq<(String, i64)>,
    map: Map<Seq<char>, u32>,
    p: CleanParams,
) -> Seq<TaskView>
    decreases procs.len(),
{
    if procs.len() == 0 {
        Seq::empty()
    } else {
        let front = tasks_of(procs.drop_last(), f, inflight, map, p);
        let t = task_of(procs.last(), f, inflight, map, p);
        if t.streaming || t.session is Some {
            front.push(t)
        } else {
            front
        }
    }
}

/// How many processes contributed at a streaming rate.
pub open spec fn streaming_count(procs: Seq<Proc>, f: Frame, p: CleanParams) -> nat
    decreases procs.len(),
{
    if procs.len() == 0 {
        0
    } else {
        streaming_count(procs.drop_last(), f, p) + (if contribution(procs.last(), f.from, f.now, p)
            > pulse::STREAMING_BPS * f.wall {
            1nat
        } else {
            0
        })
    }
}

/// The frame of a moment.
pub open spec fn frame_of(
    procs: Seq<Proc>,
    rows: Seq<TickRow>,
    files: Samples,
    from: int,
    now: int,
    bpt: u64,
    p: CleanParams,
) -> Frame {
    Frame {
        from,
        now,
        wall: stream::covered(rows, from, now),
        growth: stream::carried(stream::file_ticks(files), from, now),
        sum: positive_sum(procs, from, now, p),
        bpt,
    }
}

fn sessions_on(inflight: &[(String, i64)], map: &StrMap<u32>, pid: u32) -> (r: (
    Option<String>,
    usize,
))
    requires
        map.wf(),
    ensures
        r.1 == served(inflight@, map@, pid).len(),
        match r.0 {
            Some(s) => r.1 > 0 && s@ == served(inflight@, map@, pid)[0],
            None => r.1 == 0,
        },
{
    let mut first: Option<String> = None;
    let mut n: usize = 0;
    assert(inflight@.take(0) =~= Seq::empty());
    for i in 0..inflight.len()
        invariant
            map.wf(),
            n <= i,
            n == served(inflight@.take(i as int), map@, pid).len(),
            match first {
                Some(s) => n > 0 && s@ == served(inflight@.take(i as int), map@, pid)[0],
                None => n == 0,
            },
    {
        assert(inflight@.take(i + 1).drop_last() =~= inflight@.take(i as int));
        let here = match map.get(inflight[i].0.as_str()) {
            Some(x) => *x == pid,
            None => false,
        };
        if here {
            n = n + 1;
            if first.is_none() {
                first = Some(inflight[i].0.clone());
            }
        }
    }
    assert(inflight@.take(inflight@.len() as int) =~= inflight@);
    (first, n)
}

fn speed_of_task(b: i128, growth: i128, sum: i128, wall: u128, bpt: u64) -> (r: u64)
    requires
        b <= sum || b <= 0,
        0 <= sum <= 0x1000_0000_0000_0000_0000_0000_0000_0000,
        stream::size(b as int) <= stream::STREAM_LIMIT,
        0 <= growth,
        wall <= 0x80_0000_0000_0000_0000_0000,
        bpt > 0,
    ensures
        r == task_speed(b as int, growth as int, sum as int, wall as int, bpt),
{
    if wall > 0 && b > 0 && growth < sum {
        let net: u128 = rate::mul_div(b as u128, (sum - growth) as u128, sum as u128);
        pulse::speed(pulse::per_second(net as i128, wall), bpt)
    } else {
        0
    }
}

/// One process of the breakdown as it is computed.
#[derive(Clone, Copy)]
struct Part {
    place: usize,
    bytes: i128,
}

proof fn lemma_contribution(proc: Proc, from: int, to: int, p: CleanParams, rows: Seq<TickRow>)
    requires
        rows == probe::rows_of(proc.1, p),
        stream::all_light(rows),
        rows.len() <= probe::RING_CAP,
    ensures
        stream::weight(rows) <= stream::STREAM_LIMIT,
        stream::size(contribution(proc, from, to, p)) <= 0x200 * stream::TICK_LIMIT,
{
    stream::lemma_light_weight(rows);
    stream::lemma_carried_bound(rows, from, to);
    assert(rows.len() * stream::TICK_LIMIT <= 0x200 * stream::TICK_LIMIT) by (nonlinear_arith)
        requires
            rows.len() <= 0x200,
            stream::TICK_LIMIT >= 0,
    ;
}

proof fn lemma_positive_sum(procs: Seq<Proc>, from: int, to: int, p: CleanParams, i: int)
    requires
        0 <= i < procs.len(),
    ensures
        contribution(procs[i], from, to, p) <= positive_sum(procs, from, to, p),
        0 <= positive_sum(procs, from, to, p),
    decreases procs.len(),
{
    if procs.len() > 1 {
        if i < procs.len() - 1 {
            lemma_positive_sum(procs.drop_last(), from, to, p, i);
        } else {
            lemma_positive_sum(procs.drop_last(), from, to, p, 0);
        }
    } else {
        assert(positive_sum(procs.drop_last(), from, to, p) == 0);
    }
}

/// The tasks of the displayed processes, the fastest first, and how many of the processes
/// contributed at a streaming rate.
pub fn break_down(
    procs: &[ProcRing],
    rows: &[Vec<TickRow>],
    places: &[usize],
    merged: &[TickRow],
    files: &[(i64, u64)],
    inflight: &[(String, i64)],
    map: &StrMap<u32>,
    from_ms: i64,
    now_ms: i64,
    bpt: u64,
    p: &CleanParams,
) -> (r: (Vec<TaskLive>, usize))
    requires
        probe::procs_wf(probe::procs_view(procs@)),
        probe::rows_views(rows@) == probe::rows_table(probe::procs_view(procs@), *p),
        rows@.len() == procs@.len(),
        forall|i: int|
            0 <= i < rows@.len() ==> stream::all_light((#[trigger] rows@[i])@) && rows@[i]@.len()
                <= probe::RING_CAP,
        forall|i: int| 0 <= i < places@.len() ==> (#[trigger] places@[i]) < procs@.len(),
        places@.len() <= probe::MAX_PROCS,
        stream::all_timed(merged@),
        stream::weight(merged@) <= stream::STREAM_LIMIT,
        merged@.len() <= stream::TICKS_LIMIT,
        stream::clocked(files@),
        files@.len() <= stream::FILES_LIMIT,
        map.wf(),
        p.wf(),
        stream::on_clock(now_ms as int),
        bpt > 0,
    ensures
        ({
            let shown = probe::at_places(probe::procs_view(procs@), places@);
            let f = frame_of(shown, merged@, files@, from_ms as int, now_ms as int, bpt, *p);
            &&& tasks_view(r.0@) == order::ranked(tasks_of(shown, f, inflight@, map@, *p))
            &&& r.1 == streaming_count(shown, f, *p)
        }),
{
    let ghost pv = probe::procs_view(procs@);
    let ghost shown = probe::at_places(pv, places@);
    let ghost f = frame_of(shown, merged@, files@, from_ms as int, now_ms as int, bpt, *p);
    let (_, wall) = stream::integrate(merged, from_ms, now_ms);
    let file_rows = stream::file_growth_rows(files);
    proof {
        pulse::lemma_covered_small(merged@, from_ms as int, now_ms as int);
        stream::lemma_light_weight(file_rows@);
        assert(file_rows@.len() * stream::TICK_LIMIT <= 0x1000 * stream::TICK_LIMIT)
            by (nonlinear_arith)
            requires
                file_rows@.len() <= 0x1000,
                stream::TICK_LIMIT >= 0,
        ;
        lemma_carried_positive(file_rows@, from_ms as int, now_ms as int);
    }
    let (growth, _) = stream::integrate(&file_rows, from_ms, now_ms);
    let mut parts: Vec<Part> = Vec::new();
    let mut sum: i128 = 0;
    let mut count: usize = 0;
    let limit: i128 = pulse::STREAMING_BPS as i128 * wall as i128;
    assert(shown.take(0) =~= Seq::empty());
    for i in 0..places.len()
        invariant
            pv == probe::procs_view(procs@),
            shown == probe::at_places(pv, places@),
            probe::procs_wf(pv),
            probe::rows_views(rows@) == probe::rows_table(pv, *p),
            rows@.len() == procs@.len(),
            forall|i: int|
                0 <= i < rows@.len() ==> stream::all_light((#[trigger] rows@[i])@)
                    && rows@[i]@.len() <= probe::RING_CAP,
            forall|i: int| 0 <= i < places@.len() ==> (#[trigger] places@[i]) < procs@.len(),
            places@.len() <= probe::MAX_PROCS,
            f.from == from_ms,
            f.now == now_ms,
            limit == pulse::STREAMING_BPS * f.wall,
            parts@.len() == i,
            forall|k: int|
                0 <= k < i ==> (#[trigger] parts@[k]).place == places@[k] && parts@[k].bytes
                    == contribution(shown[k], from_ms as int, now_ms as int, *p) && stream::size(
                    parts@[k].bytes as int,
                ) <= stream::STREAM_LIMIT,
            sum == positive_sum(shown.take(i as int), from_ms as int, now_ms as int, *p),
            0 <= sum <= i * (0x200 * stream::TICK_LIMIT),
            count == streaming_count(shown.take(i as int), f, *p),
            count <= i,
    {
        let place: usize = places[i];
        proof {
            assert(shown.take(i + 1).drop_last() =~= shown.take(i as int));
            assert(shown[i as int] == pv[place as int]);
            assert(probe::rows_views(rows@)[place as int] == probe::rows_table(
                pv,
                *p,
            )[place as int]);
            lemma_contribution(
                shown[i as int],
                from_ms as int,
                now_ms as int,
                *p,
                rows@[place as int]@,
            );
            assert(i * (0x200 * stream::TICK_LIMIT) <= 0x1_0000 * (0x200 * stream::TICK_LIMIT))
                by (nonlinear_arith)
                requires
                    i <= 0x1_0000,
                    stream::TICK_LIMIT >= 0,
            ;
            assert(i * (0x200 * stream::TICK_LIMIT) + 0x200 * stream::TICK_LIMIT == (i + 1) * (0x200
                * stream::TICK_LIMIT)) by (nonlinear_arith);
        }
        let (b, _) = stream::integrate(&rows[place], from_ms, now_ms);
        if b > 0 {
            sum = sum + b;
        }
        if b > limit {
            count = count + 1;
        }
        parts.push(Part { place, bytes: b });
    }
    assert(shown.take(places@.len() as int) =~= shown);
    proof {
        assert(places@.len() * (0x200 * stream::TICK_LIMIT) <= 0x1_0000 * (0x200
            * stream::TICK_LIMIT)) by (nonlinear_arith)
            requires
                places@.len() <= 0x1_0000,
                stream::TICK_LIMIT >= 0,
        ;
    }
    let mut tasks: Vec<TaskLive> = Vec::new();
    assert(tasks_view(tasks@) =~= tasks_of(shown.take(0), f, inflight@, map@, *p)) by {
        assert(shown.take(0) =~= Seq::empty());
    }
    for i in 0..parts.len()
        invariant
            pv == probe::procs_view(procs@),
            shown == probe::at_places(pv, places@),
            probe::procs_wf(pv),
            probe::rows_views(rows@) == probe::rows_table(pv, *p),
            rows@.len() == procs@.len(),
            forall|i: int|
                0 <= i < rows@.len() ==> stream::all_light((#[trigger] rows@[i])@)
                    && rows@[i]@.len() <= probe::RING_CAP,
            forall|i: int| 0 <= i < places@.len() ==> (#[trigger] places@[i]) < procs@.len(),
            parts@.len() == places@.len(),
            forall|k: int|
                0 <= k < parts@.len() ==> (#[trigger] parts@[k]).place == places@[k]
                    && parts@[k].bytes == contribution(
                    shown[k],
                    from_ms as int,
                    now_ms as int,
                    *p,
                ) && stream::size(parts@[k].bytes as int) <= stream::STREAM_LIMIT,
            f == frame_of(shown, merged@, files@, from_ms as int, now_ms as int, bpt, *p),
            f.sum == sum,
            f.growth == growth,
            f.wall == wall,
            0 <= growth,
            0 <= sum <= 0x1000_0000_0000_0000_0000_0000_0000_0000,
            wall <= 0x80_0000_0000_0000_0000_0000,
            map.wf(),
            p.wf(),
            stream::on_clock(now_ms as int),
            bpt > 0,
            tasks_view(tasks@) == tasks_of(shown.take(i as int), f, inflight@, map@, *p),
    {
        let part: Part = parts[i];
        let place: usize = part.place;
        proof {
            assert(shown.take(i + 1).drop_last() =~= shown.take(i as int));
            assert(shown[i as int] == pv[place as int]);
            assert(probe::rows_views(rows@)[place as int] == probe::rows_table(
                pv,
                *p,
            )[place as int]);
            lemma_contribution(
                shown[i as int],
                from_ms as int,
                now_ms as int,
                *p,
                rows@[place as int]@,
            );
            lemma_positive_sum(shown, from_ms as int, now_ms as int, *p, i as int);
        }
        let pid: u32 = procs[place].pid;
        let (session, n_sessions) = sessions_on(inflight, map, pid);
        let streaming = pulse::is_hot(&rows[place], now_ms - p.detect_ms, now_ms);
        let tps: u64 = speed_of_task(part.bytes, growth, sum, wall, bpt);
        if streaming || session.is_some() {
            let ghost before = tasks_view(tasks@);
            let task = TaskLive { pid, session, n_sessions, tps, streaming };
            let ghost one = task@;
            tasks.push(task);
            assert(one == task_of(shown[i as int], f, inflight@, map@, *p));
            assert(tasks_view(tasks@) =~= before.push(one));
        }
    }
    assert(shown.take(shown.len() as int) =~= shown);
    proof {
        order::lemma_ranked_map(tasks@, |t: TaskLive| t@);
    }
    (order::sort(tasks), count)
}

proof fn lemma_carried_positive(rows: Seq<TickRow>, from: int, to: int)
    requires
        stream::all_timed(rows),
        forall|i: int| 0 <= i < rows.len() ==> (#[trigger] rows[i]).bytes >= 0,
    ensures
        stream::carried(rows, from, to) >= 0,
    decreases rows.len(),
{
    if rows.len() > 0 {
        lemma_carried_positive(rows.drop_last(), from, to);
        let r = rows.last();
        assert(rows[rows.len() - 1] == r);
        let ov = stream::overlap(r, from, to);
        assert(stream::share(r, from, to) >= 0) by (nonlinear_arith)
            requires
                stream::share(r, from, to) == (r.bytes * ov) / (r.dt_ms as int),
                r.bytes >= 0,
                ov >= 0,
                r.dt_ms > 0,
        ;
    }
}

proof fn lemma_net_sum(
    procs: Seq<Proc>,
    from: int,
    to: int,
    p: CleanParams,
    growth: int,
    sum: int,
)
    requires
        0 <= growth < sum,
    ensures
        net_sum(procs, from, to, p, growth, sum) * sum <= positive_sum(procs, from, to, p) * (sum
            - growth) <= (net_sum(procs, from, to, p, growth, sum) + procs.len()) * sum,
    decreases procs.len(),
{
    if procs.len() > 0 {
        let d = procs.drop_last();
        lemma_net_sum(d, from, to, p, growth, sum);
        let k = sum - growth;
        let b = contribution(procs.last(), from, to, p);
        let x = stream::most(b, 0);
        let n = net_of(b, growth, sum);
        if b > 0 {
            assert(n * sum <= b * k <= (n + 1) * sum) by (nonlinear_arith)
                requires
                    sum > 0,
                    n == (b * k) / sum,
            ;
        } else {
            assert(n * sum == 0 && x * k == 0) by (nonlinear_arith)
                requires
                    n == 0,
                    x == 0,
            ;
            assert((n + 1) * sum == sum) by (nonlinear_arith)
                requires
                    n == 0,
            ;
        }
        let ns = net_sum(d, from, to, p, growth, sum);
        let ps = positive_sum(d, from, to, p);
        assert((ns + n) * sum == ns * sum + n * sum) by (nonlinear_arith);
        assert((ps + x) * k == ps * k + x * k) by (nonlinear_arith);
        assert((ns + n + d.len() + 1) * sum == (ns + d.len()) * sum + (n + 1) * sum)
            by (nonlinear_arith);
    }
}

/// The rows of the breakdown share out what all processes contributed: together they have
/// that, less the growth of the files, up to one thousandth of a byte for each process.
pub proof fn law_tasks_share_the_stream(
    procs: Seq<Proc>,
    from: int,
    to: int,
    p: CleanParams,
    growth: int,
)
    requires
        0 <= growth < positive_sum(procs, from, to, p),
    ensures
        ({
            let sum = positive_sum(procs, from, to, p);
            let net = net_sum(procs, from, to, p, growth, sum);
            net <= sum - growth <= net + procs.len()
        }),
{
    let sum = positive_sum(procs, from, to, p);
    let net = net_sum(procs, from, to, p, growth, sum);
    lemma_net_sum(procs, from, to, p, growth, sum);
    assert(net <= sum - growth <= net + procs.len()) by (nonlinear_arith)
        requires
            sum > 0,
            net * sum <= sum * (sum - growth) <= (net + procs.len()) * sum,
    ;
}

/// A process that shares no growth of files has the speed of its own bytes: what it contributed
/// over the time, over the rate per token. One that contributed nothing has no speed.
pub proof fn law_task_has_the_speed_of_its_bytes(b: int, sum: int, wall: int, bpt: u64)
    requires
        0 < b <= sum,
        wall > 0,
        bpt > 0,
        (b * 1000) / wall <= u64::MAX,
    ensures
        ({
            let pipe = (b * 1000) / wall;
            let t = task_speed(b, 0, sum, wall, bpt);
            t < u64::MAX ==> t * bpt <= pipe * 1_000_000 < (t + 1) * bpt
        }),
        task_speed(0, 0, sum, wall, bpt) == 0,
{
    assert((b * sum) / sum == b) by (nonlinear_arith)
        requires
            sum > 0,
    ;
    assert(b * (sum - 0) == b * sum);
    let pipe = (b * 1000) / wall;
    assert(pipe >= 0) by (nonlinear_arith)
        requires
            b > 0,
            wall > 0,
            pipe == (b * 1000) / wall,
    ;
    let n = pipe * 1_000_000;
    let d = bpt as int;
    assert(0 <= n / d && (n / d) * d <= n < (n / d + 1) * d) by (nonlinear_arith)
        requires
            n >= 0,
            d > 0,
    ;
}

/// Of two processes, the one that contributed more is not slower.
pub proof fn law_more_bytes_are_no_slower(
    a: int,
    b: int,
    growth: int,
    sum: int,
    wall: int,
    bpt: u64,
)
    requires
        a <= b <= sum,
        0 <= growth,
        bpt > 0,
    ensures
        task_speed(a, growth, sum, wall, bpt) <= task_speed(b, growth, sum, wall, bpt),
{
    if wall > 0 && a > 0 && growth < sum {
        let k = sum - growth;
        let x = (a * k) / sum;
        let y = (b * k) / sum;
        assert(0 <= x <= y) by (nonlinear_arith)
            requires
                0 < a <= b,
                k > 0,
                sum > 0,
                x == (a * k) / sum,
                y == (b * k) / sum,
        ;
        let v = (x * 1000) / wall;
        let w = (y * 1000) / wall;
        assert(0 <= v <= w) by (nonlinear_arith)
            requires
                0 <= x <= y,
                wall > 0,
                v == (x * 1000) / wall,
                w == (y * 1000) / wall,
        ;
        let v = rate::clip(v) as int;
        let w = rate::clip(w) as int;
        let d = bpt as int;
        assert((v * 1_000_000) / d <= (w * 1_000_000) / d) by (nonlinear_arith)
            requires
                0 <= v <= w,
                d > 0,
        ;
    }
}

proof fn lemma_tasks_of(
    procs: Seq<Proc>,
    f: Frame,
    inflight: Seq<(String, i64)>,
    map: Map<Seq<char>, u32>,
    p: CleanParams,
    i: int,
)
    requires
        0 <= i < procs.len(),
        ({
            let t = task_of(procs[i], f, inflight, map, p);
            t.streaming || t.session is Some
        }),
    ensures
        tasks_of(procs, f, inflight, map, p).contains(task_of(procs[i], f, inflight, map, p)),
    decreases procs.len(),
{
    let front = tasks_of(procs.drop_last(), f, inflight, map, p);
    let all = tasks_of(procs, f, inflight, map, p);
    let t = task_of(procs[i], f, inflight, map, p);
    if i < procs.len() - 1 {
        assert(procs.drop_last()[i] == procs[i]);
        lemma_tasks_of(procs.drop_last(), f, inflight, map, p, i);
        let k = choose|k: int| 0 <= k < front.len() && front[k] == t;
        assert(all[k] == t);
    } else {
        assert(all[front.len() as int] == t);
    }
}

proof fn lemma_served(
    inflight: Seq<(String, i64)>,
    map: Map<Seq<char>, u32>,
    pid: u32,
    k: int,
)
    requires
        0 <= k < inflight.len(),
        map.contains_key(inflight[k].0@),
        map[inflight[k].0@] == pid,
        forall|j: int|
            0 <= j < k ==> !(map.contains_key((#[trigger] inflight[j]).0@) && map[inflight[j].0@]
                == pid),
    ensures
        served(inflight, map, pid).len() > 0,
        served(inflight, map, pid)[0] == inflight[k].0@,
    decreases inflight.len(),
{
    let d = inflight.drop_last();
    if k < d.len() {
        assert(d[k] == inflight[k]);
        assert forall|j: int| 0 <= j < k implies !(map.contains_key((#[trigger] d[j]).0@)
            && map[d[j].0@] == pid) by {
            assert(d[j] == inflight[j]);
        }
        lemma_served(d, map, pid, k);
    } else {
        lemma_serves_none(d, map, pid);
    }
}

proof fn lemma_serves_none(inflight: Seq<(String, i64)>, map: Map<Seq<char>, u32>, pid: u32)
    requires
        forall|j: int|
            0 <= j < inflight.len() ==> !(map.contains_key((#[trigger] inflight[j]).0@)
                && map[inflight[j].0@] == pid),
    ensures
        served(inflight, map, pid).len() == 0,
    decreases inflight.len(),
{
    if inflight.len() > 0 {
        let d = inflight.drop_last();
        assert forall|j: int| 0 <= j < d.len() implies !(map.contains_key((#[trigger] d[j]).0@)
            && map[d[j].0@] == pid) by {
            assert(d[j] == inflight[j]);
        }
        lemma_serves_none(d, map, pid);
        assert(inflight[inflight.len() - 1] == inflight.last());
    }
}

/// Every displayed process that a session in progress is attributed to has a task, under the
/// first such session, and the tasks stand in the order of their speeds, the fastest first.
pub proof fn law_sessions_have_their_tasks(
    procs: Seq<Proc>,
    f: Frame,
    inflight: Seq<(String, i64)>,
    map: Map<Seq<char>, u32>,
    p: CleanParams,
    i: int,
    k: int,
)
    requires
        0 <= i < procs.len(),
        0 <= k < inflight.len(),
        map.contains_key(inflight[k].0@),
        map[inflight[k].0@] == procs[i].0,
        forall|j: int|
            0 <= j < k ==> !(map.contains_key((#[trigger] inflight[j]).0@) && map[inflight[j].0@]
                == procs[i].0),
    ensures
        ({
            let shown = order::ranked(tasks_of(procs, f, inflight, map, p));
            &&& exists|n: int|
                0 <= n < shown.len() && (#[trigger] shown[n]).pid == procs[i].0 && shown[n].session
                    == Some(inflight[k].0@)
            &&& forall|m: int, n: int|
                0 <= m < n < shown.len() ==> (#[trigger] shown[m]).tps >= (#[trigger] shown[n]).tps
        }),
{
    broadcast use vstd::seq_lib::group_to_multiset_ensures;

    let all = tasks_of(procs, f, inflight, map, p);
    let shown = order::ranked(all);
    lemma_served(inflight, map, procs[i].0, k);
    lemma_tasks_of(procs, f, inflight, map, p, i);
    order::law_ranked_is_sorted_permutation(all);
    let t = task_of(procs[i], f, inflight, map, p);
    assert(all.to_multiset().count(t) > 0);
    assert(shown.contains(t));
    let n = choose|n: int| 0 <= n < shown.len() && shown[n] == t;
    assert(shown[n].pid == procs[i].0);
    assert forall|m: int, n: int| 0 <= m < n < shown.len() implies (#[trigger] shown[m]).tps >= (
    #[trigger] shown[n]).tps by {
        assert(!shown[n].before(shown[m]));
    }
}

/// A process is a task where it streams or serves a session in progress; the tasks come in the
/// order of the processes.
pub proof fn law_which_processes_are_tasks(
    procs: Seq<Proc>,
    f: Frame,
    inflight: Seq<(String, i64)>,
    map: Map<Seq<char>, u32>,
    p: CleanParams,
)
    ensures
        tasks_of(procs, f, inflight, map, p) == procs.filter(
            |q: Proc|
                pulse::hot(probe::rows_of(q.1, p), f.now - p.detect_ms, f.now) || exists|i: int|
                    0 <= i < inflight.len() && map.contains_key((#[trigger] inflight[i]).0@)
                        && map[inflight[i].0@] == q.0,
        ).map_values(|q: Proc| task_of(q, f, inflight, map, p)),
    decreases procs.len(),
{
    reveal(Seq::filter);
    let keep = |q: Proc|
        pulse::hot(probe::rows_of(q.1, p), f.now - p.detect_ms, f.now) || exists|i: int|
            0 <= i < inflight.len() && map.contains_key((#[trigger] inflight[i]).0@)
                && map[inflight[i].0@] == q.0;
    let g = |q: Proc| task_of(q, f, inflight, map, p);
    if procs.len() > 0 {
        let d = procs.drop_last();
        let last = procs.last();
        law_which_processes_are_tasks(d, f, inflight, map, p);
        law_task_serves_its_sessions(last, f, inflight, map, p);
        let t = g(last);
        let mine = inflight.filter(
            |e: (String, i64)| map.contains_key(e.0@) && map[e.0@] == last.0,
        );
        if exists|i: int|
            0 <= i < inflight.len() && map.contains_key((#[trigger] inflight[i]).0@)
                && map[inflight[i].0@] == last.0 {
            let i = choose|i: int|
                0 <= i < inflight.len() && map.contains_key((#[trigger] inflight[i]).0@)
                    && map[inflight[i].0@] == last.0;
            inflight.lemma_filter_contains(
                |e: (String, i64)| map.contains_key(e.0@) && map[e.0@] == last.0,
                i,
            );
            assert(mine.len() > 0);
        } else if mine.len() > 0 {
            inflight.lemma_filter_pred(
                |e: (String, i64)| map.contains_key(e.0@) && map[e.0@] == last.0,
                0,
            );
            assert(mine.contains(mine[0]));
            inflight.lemma_filter_contains_rev(
                |e: (String, i64)| map.contains_key(e.0@) && map[e.0@] == last.0,
                mine[0],
            );
            let i = choose|i: int| 0 <= i < inflight.len() && inflight[i] == mine[0];
            assert(map.contains_key(inflight[i].0@));
        }
        if keep(last) {
            assert(procs.filter(keep).map_values(g) =~= d.filter(keep).map_values(g).push(t));
        }
    } else {
        assert(procs.filter(keep).map_values(g) =~= Seq::empty());
    }
}

proof fn lemma_served_is_filter(
    inflight: Seq<(String, i64)>,
    map: Map<Seq<char>, u32>,
    pid: u32,
)
    ensures
        served(inflight, map, pid) == inflight.filter(
            |e: (String, i64)| map.contains_key(e.0@) && map[e.0@] == pid,
        ).map_values(|e: (String, i64)| e.0@),
    decreases inflight.len(),
{
    reveal(Seq::filter);
    let keep = |e: (String, i64)| map.contains_key(e.0@) && map[e.0@] == pid;
    let g = |e: (String, i64)| e.0@;
    if inflight.len() > 0 {
        let d = inflight.drop_last();
        lemma_served_is_filter(d, map, pid);
        if keep(inflight.last()) {
            assert(inflight.filter(keep).map_values(g) =~= d.filter(keep).map_values(g).push(
                inflight.last().0@,
            ));
        }
    } else {
        assert(inflight.filter(keep).map_values(g) =~= Seq::empty());
    }
}

/// A task serves the sessions in progress that its process has, and shows the first of them.
pub proof fn law_task_serves_its_sessions(
    proc: Proc,
    f: Frame,
    inflight: Seq<(String, i64)>,
    map: Map<Seq<char>, u32>,
    p: CleanParams,
)
    ensures
        ({
            let t = task_of(proc, f, inflight, map, p);
            let mine = inflight.filter(
                |e: (String, i64)| map.contains_key(e.0@) && map[e.0@] == proc.0,
            );
            &&& t.pid == proc.0
            &&& t.n_sessions == mine.len()
            &&& mine.len() > 0 ==> t.session == Some(mine[0].0@)
            &&& mine.len() == 0 ==> t.session is None
            &&& t.streaming == pulse::hot(probe::rows_of(proc.1, p), f.now - p.detect_ms, f.now)
        }),
{
    let pid = proc.0;
    lemma_served_is_filter(inflight, map, pid);
    assert((|e: (String, i64)| map.contains_key(e.0@) && map[e.0@] == pid) =~= (|e: (String, i64)|
        map.contains_key(e.0@) && map[e.0@] == proc.0));
}

/// The processes that contribute are those that carried more than four thousand bytes a second.
pub proof fn law_contributing_processes_are_counted(procs: Seq<Proc>, f: Frame, p: CleanParams)
    ensures
        streaming_count(procs, f, p) == procs.filter(
            |q: Proc|
                stream::carried(probe::rows_of(q.1, p), f.from, f.now) > 4_000 * f.wall,
        ).len(),
    decreases procs.len(),
{
    reveal(Seq::filter);
    if procs.len() > 0 {
        law_contributing_processes_are_counted(procs.drop_last(), f, p);
    }
}

/// What all processes carried is the sum of what each did, where one that carried less than nothing
/// does not count.
pub proof fn law_contributions_add_up(procs: Seq<Proc>, from: int, to: int, p: CleanParams)
    ensures
        positive_sum(procs, from, to, p) == procs.fold_left(
            0int,
            |a: int, q: Proc|
                a + (if stream::carried(probe::rows_of(q.1, p), from, to) > 0 {
                    stream::carried(probe::rows_of(q.1, p), from, to)
                } else {
                    0
                }),
        ),
    decreases procs.len(),
{
    if procs.len() > 0 {
        law_contributions_add_up(procs.drop_last(), from, to, p);
    }
}

/// Bytes that went to files are taken off each task in proportion to its own.
pub proof fn law_file_bytes_are_taken_off(b: int, growth: int, sum: int)
    requires
        0 < b <= sum,
        0 <= growth,
    ensures
        growth < sum ==> net_of(b, growth, sum) * sum <= b * (sum - growth) < (net_of(b, growth, sum)
            + 1) * sum,
        growth >= sum ==> net_of(b, growth, sum) == 0,
        growth == 0 ==> net_of(b, growth, sum) == b,
{
    let x = b * (sum - growth);
    let q = x / sum;
    assert(q * sum <= x < (q + 1) * sum) by (nonlinear_arith)
        requires
            sum > 0,
            q == x / sum,
    ;
    if growth == 0 {
        assert(x == b * sum);
        assert(q == b) by (nonlinear_arith)
            requires
                x == b * sum,
                sum > 0,
                q * sum <= x < (q + 1) * sum,
        ;
    }
}

} // verus!
