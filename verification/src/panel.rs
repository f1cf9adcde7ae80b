//! What the panel shows: the figures of the day, with the live measurement and the network
//! put in.

use vstd::prelude::*;

use crate::breakdown;
use crate::breakdown::{TaskLive, TaskView};
use crate::calibration;
use crate::calibration::RoundDrift;
use crate::call::{Call, CallView};
use crate::figures;
use crate::figures::{NetFigures, NetView, Snapshot, TaskStat, TaskStatView};
use crate::live;
use crate::live::{LiveIo, LiveNow, LiveNowView, LiveState};
use crate::net;
use crate::net::NetNow;
use crate::rate;
use crate::rate::Rate;
use crate::settle;
use crate::settle::{CalEvent, Learned};
use crate::stream;
use crate::text;

verus! {

/// Below this many millionths of a token per second nothing is taken to be measured.
pub const MEASURED_FROM: u64 = 1_000_000;

/// How many steps in a row it takes to make room for more tasks, or to take it back.
pub const TASK_STREAK: u32 = 3;

/// From how many on there are several tasks.
pub const SEVERAL_TASKS: usize = 2;

/// A speed in millionths of a token per second.
pub open spec fn micro_rate(tps: u64) -> Rate {
    Rate { tokens: tps, ms: 1_000_000_000 }
}

fn to_micro_rate(tps: u64) -> (r: Rate)
    ensures
        r == micro_rate(tps),
{
    Rate { tokens: tps, ms: 1_000_000_000 }
}

/// What is shown of a task.
pub open spec fn task_row(t: TaskView) -> TaskStatView {
    TaskStatView {
        pid: t.pid,
        session: match t.session {
            Some(s) => s,
            None => Seq::empty(),
        },
        n_sessions: net::count32(t.n_sessions),
        tps: micro_rate(t.tps),
        streaming: t.streaming,
    }
}

/// What is shown of tasks.
pub open spec fn task_rows(tasks: Seq<TaskView>) -> Seq<TaskStatView> {
    tasks.map_values(|t: TaskView| task_row(t))
}

/// Rows of tasks with texts as their characters.
pub open spec fn rows_view(rows: Seq<TaskStat>) -> Seq<TaskStatView> {
    rows.map_values(|t: TaskStat| t@)
}

/// The part of the figures that the live measurement bears on.
#[verifier::ext_equal]
pub struct Shown {
    pub current: Rate,
    pub is_live: bool,
    pub is_estimating: bool,
    pub ramping: bool,
    pub is_starting: bool,
    pub source: Seq<char>,
    pub spark: Seq<Rate>,
    pub tasks: Seq<TaskStatView>,
}

/// The part of the figures that the live measurement bears on.
pub open spec fn shown_of(s: Snapshot) -> Shown {
    Shown {
        current: s.current_tps,
        is_live: s.is_live,
        is_estimating: s.is_estimating,
        ramping: s.ramping,
        is_starting: s.is_starting,
        source: s.live_source@,
        spark: s.spark@,
        tasks: rows_view(s.tasks@),
    }
}

/// The rest of the figures is the same.
pub open spec fn same_rest(a: Snapshot, b: Snapshot) -> bool {
    &&& a.avg_tps == b.avg_tps
    &&& a.total_tokens == b.total_tokens
    &&& a.output_tokens == b.output_tokens
    &&& a.reasoning_tokens == b.reasoning_tokens
    &&& a.input_tokens == b.input_tokens
    &&& a.cache_creation_tokens == b.cache_creation_tokens
    &&& a.cache_read_tokens == b.cache_read_tokens
    &&& a.calls_today == b.calls_today
    &&& a.sessions_today == b.sessions_today
    &&& a.window_tps == b.window_tps
    &&& a.last_call_tps == b.last_call_tps
    &&& a.hist_max_tps == b.hist_max_tps
    &&& a.hist_avg_tps == b.hist_avg_tps
    &&& a.last_activity_ms == b.last_activity_ms
    &&& a.now_ms == b.now_ms
    &&& a.rollout_dir == b.rollout_dir
}

/// The newest value replaced.
pub open spec fn with_newest(spark: Seq<Rate>, r: Rate) -> Seq<Rate> {
    if spark.len() == 0 {
        spark
    } else {
        spark.update(spark.len() - 1, r)
    }
}

/// The figures once the live measurement is put in. While something streams, the measured
/// speed is shown; if nothing can be measured of it, the speed of the calls before, marked as
/// an estimate. Where nothing streams the speed is zero.
pub open spec fn blended(
    s: Shown,
    window: Rate,
    live: LiveNowView,
    in_flight: bool,
    ever_saw: bool,
) -> Shown {
    let t = Shown { tasks: task_rows(live.tasks), ..s };
    if live.available {
        if live.streaming {
            let b = Shown { is_live: true, ramping: live.ramping, is_starting: live.awaiting, ..t };
            if live.awaiting {
                Shown {
                    is_estimating: false,
                    source: "io"@,
                    current: Rate::none(),
                    spark: with_newest(s.spark, Rate::none()),
                    ..b
                }
            } else if live.tps < MEASURED_FROM && window.positive() {
                Shown {
                    is_estimating: true,
                    source: "window"@,
                    current: window,
                    spark: with_newest(s.spark, window),
                    tasks: Seq::empty(),
                    ..b
                }
            } else {
                Shown {
                    is_estimating: false,
                    source: "io"@,
                    current: micro_rate(live.tps),
                    spark: with_newest(s.spark, micro_rate(live.tps)),
                    ..b
                }
            }
        } else {
            Shown {
                is_estimating: false,
                ramping: false,
                current: Rate::none(),
                source: "idle"@,
                spark: with_newest(s.spark, Rate::none()),
                ..t
            }
        }
    } else if in_flight && !ever_saw {
        if s.is_estimating && s.current.positive() {
            t
        } else {
            Shown {
                is_estimating: false,
                is_starting: true,
                current: Rate::none(),
                source: "window"@,
                spark: with_newest(s.spark, Rate::none()),
                ..t
            }
        }
    } else {
        Shown {
            is_live: false,
            is_estimating: false,
            ramping: false,
            current: Rate::none(),
            source: "idle"@,
            spark: with_newest(s.spark, Rate::none()),
            ..t
        }
    }
}

fn to_rows(tasks: &Vec<TaskLive>) -> (r: Vec<TaskStat>)
    ensures
        rows_view(r@) == task_rows(breakdown::tasks_view(tasks@)),
{
    let mut out: Vec<TaskStat> = Vec::new();
    let ghost goal = task_rows(breakdown::tasks_view(tasks@));
    for i in 0..tasks.len()
        invariant
            goal == task_rows(breakdown::tasks_view(tasks@)),
            rows_view(out@) == goal.take(i as int),
    {
        let ghost before = rows_view(out@);
        let t: &TaskLive = &tasks[i];
        let row = TaskStat {
            pid: t.pid,
            session: match &t.session {
                Some(s) => s.clone(),
                None => String::new(),
            },
            n_sessions: if t.n_sessions <= 0xffff_ffff {
                t.n_sessions as u32
            } else {
                0xffff_ffff
            },
            tps: to_micro_rate(t.tps),
            streaming: t.streaming,
        };
        let ghost rv = row@;
        out.push(row);
        proof {
            assert(rv.session =~= goal[i as int].session);
            assert(rows_view(out@) =~= before.push(rv));
            assert(goal.take(i + 1) =~= goal.take(i as int).push(goal[i as int]));
        }
    }
    assert(goal.take(goal.len() as int) =~= goal);
    out
}

fn set_newest(spark: &mut Vec<Rate>, r: Rate)
    ensures
        final(spark)@ == with_newest(old(spark)@, r),
{
    let n: usize = spark.len();
    if n > 0 {
        spark.set(n - 1, r);
    }
}

/// Puts the live measurement into the figures.
pub fn blend(s: &mut Snapshot, live_now: &LiveNow, in_flight: bool, ever_saw: bool)
    ensures
        shown_of(*final(s)) == blended(
            shown_of(*old(s)),
            old(s).window_tps,
            live_now@,
            in_flight,
            ever_saw,
        ),
        same_rest(*final(s), *old(s)),
        final(s).net == old(s).net,
{
    s.tasks = to_rows(&live_now.tasks);
    if live_now.available {
        if live_now.streaming {
            s.is_live = true;
            s.is_estimating = false;
            s.ramping = live_now.ramping;
            s.is_starting = live_now.awaiting;
            s.live_source = "io".to_owned();
            if live_now.awaiting {
                s.current_tps = Rate::zero();
            } else if live_now.tps < MEASURED_FROM && s.window_tps.is_positive() {
                s.current_tps = s.window_tps;
                s.is_estimating = true;
                s.live_source = "window".to_owned();
                s.tasks.clear();
                assert(rows_view(s.tasks@) =~= Seq::empty());
            } else {
                s.current_tps = to_micro_rate(live_now.tps);
            }
            set_newest(&mut s.spark, s.current_tps);
        } else {
            s.is_estimating = false;
            s.ramping = false;
            s.current_tps = Rate::zero();
            s.live_source = "idle".to_owned();
            set_newest(&mut s.spark, Rate::zero());
        }
    } else if in_flight && !ever_saw {
        if !(s.is_estimating && s.current_tps.is_positive()) {
            s.is_estimating = false;
            s.is_starting = true;
            s.current_tps = Rate::zero();
            s.live_source = "window".to_owned();
            set_newest(&mut s.spark, Rate::zero());
        }
    } else {
        s.is_live = false;
        s.is_estimating = false;
        s.ramping = false;
        s.current_tps = Rate::zero();
        s.live_source = "idle".to_owned();
        set_newest(&mut s.spark, Rate::zero());
    }
    assert(shown_of(*s) =~= blended(
        shown_of(*old(s)),
        old(s).window_tps,
        live_now@,
        in_flight,
        ever_saw,
    ));
}

/// What is shown is measured whenever it can be: a stream with a speed is shown at that speed
/// and never as an estimate.
pub proof fn law_measured_speed_is_shown(
    s: Shown,
    window: Rate,
    live: LiveNowView,
    in_flight: bool,
    ever_saw: bool,
)
    requires
        live.available,
        live.streaming,
        !live.awaiting,
        live.tps >= MEASURED_FROM,
    ensures
        ({
            let r = blended(s, window, live, in_flight, ever_saw);
            &&& r.current == micro_rate(live.tps)
            &&& r.is_live && !r.is_estimating
            &&& r.source == "io"@
        }),
{
}

/// While processes are measured, a speed that was not measured is marked as an estimate.
pub proof fn law_estimates_are_marked(
    s: Shown,
    window: Rate,
    live: LiveNowView,
    in_flight: bool,
    ever_saw: bool,
)
    requires
        live.available,
    ensures
        ({
            let r = blended(s, window, live, in_flight, ever_saw);
            r.current.positive() ==> r.is_estimating || r.current == micro_rate(live.tps)
        }),
{
}

/// Where nothing streams, and where the measured processes are gone, the speed is zero and
/// nothing is estimated; the newest value of the curve says the same as the speed.
pub proof fn law_idle_is_zero(
    s: Shown,
    window: Rate,
    live: LiveNowView,
    in_flight: bool,
    ever_saw: bool,
)
    ensures
        ({
            let r = blended(s, window, live, in_flight, ever_saw);
            let idle = (live.available && !live.streaming) || (!live.available && (!in_flight
                || ever_saw));
            &&& idle ==> r.current == Rate::none() && !r.is_estimating && r.source == "idle"@
            &&& s.spark.len() > 0 && (live.available || idle) ==> r.spark.last() == r.current
            &&& r.spark.len() == s.spark.len()
        }),
{
}

/// Tokens of prompts that were not in the cache.
pub open spec fn uncached(s: Snapshot) -> u64 {
    rate::clip(
        rate::clip(s.input_tokens + s.cache_creation_tokens) - s.cache_read_tokens,
    )
}

/// What is shown of the network.
pub open spec fn net_shown(s: Snapshot, now: NetNow) -> NetView {
    NetView {
        available: now.available,
        up_bps: now.up_bps,
        down_bps: now.down_bps,
        up_today: now.up_today,
        down_today: now.down_today,
        sess_up_today: rate::clip(uncached(s) * net::SESS_UP_BPT),
        sess_down_today: rate::clip(
            rate::clip(s.output_tokens + s.reasoning_tokens) * net::SESS_DOWN_BPT,
        ),
        ckpt_today: now.ckpt_today_bytes,
        ckpt_today_count: now.ckpt_today_count,
        ckpt_today_list: figures::ckpts_view(now.ckpt_today_list@),
        ckpt_uploading: now.ckpt_uploading,
        ckpt_status: now.ckpt_status@,
        ckpt_list: figures::ckpts_view(now.ckpt_list@),
        conns_available: now.conns_available,
        cli_conns: now.cli_conns,
        app_conns: now.app_conns,
        cli_conn_list: figures::conns_view(now.cli_conn_list@),
        app_conn_list: figures::conns_view(now.app_conn_list@),
    }
}

/// Puts the state of the network into the figures.
pub fn attach_net(s: &mut Snapshot, now: NetNow)
    ensures
        final(s).net@ == net_shown(*old(s), now),
        shown_of(*final(s)) == shown_of(*old(s)),
        same_rest(*final(s), *old(s)),
{
    let prompt: u64 = s.input_tokens.saturating_add(s.cache_creation_tokens).saturating_sub(
        s.cache_read_tokens,
    );
    let answer: u64 = s.output_tokens.saturating_add(s.reasoning_tokens);
    let (sess_up, sess_down) = net::sess_bytes_est(prompt, answer);
    s.net = NetFigures {
        available: now.available,
        up_bps: now.up_bps,
        down_bps: now.down_bps,
        up_today: now.up_today,
        down_today: now.down_today,
        sess_up_today: sess_up,
        sess_down_today: sess_down,
        ckpt_today: now.ckpt_today_bytes,
        ckpt_today_count: now.ckpt_today_count,
        ckpt_today_list: now.ckpt_today_list,
        ckpt_uploading: now.ckpt_uploading,
        ckpt_status: now.ckpt_status,
        ckpt_list: now.ckpt_list,
        conns_available: now.conns_available,
        cli_conns: now.cli_conns,
        app_conns: now.app_conns,
        cli_conn_list: now.cli_conn_list,
        app_conn_list: now.app_conn_list,
    };
    assert(s.net@ =~= net_shown(*old(s), now));
}

/// The speeds of a round: from when a call is in progress until none is.
#[derive(Clone, Copy, Debug, PartialEq, Eq, Structural)]
pub struct Round {
    /// The sum of the measured speeds, in millionths of a token per second.
    pub sum: u64,
    /// How many speeds were measured.
    pub count: u32,
    /// Other than one process contributed to one of them.
    pub mixed: bool,
    /// A call is in progress.
    pub in_flight: bool,
}

impl Round {
    /// Nothing measured yet.
    pub open spec fn blank(in_flight: bool) -> Round {
        Round { sum: 0, count: 0, mixed: false, in_flight }
    }
}

/// A round with one more measurement. A speed that is estimated or zero does not count.
pub open spec fn round_with(r: Round, s: Shown, n_pids: nat, live_tps: u64) -> Round {
    if s.is_live && !s.is_estimating && s.current.positive() && r.count < u32::MAX {
        Round {
            sum: rate::clip(r.sum + live_tps),
            count: (r.count + 1) as u32,
            mixed: r.mixed || n_pids != 1,
            ..r
        }
    } else {
        r
    }
}

/// The average speed of a round that ends now. A round without a measurement has none, nor
/// has one to which several processes contributed, for then the speed depends on how many
/// tasks there are.
pub open spec fn round_end(r: Round, in_flight: bool) -> Option<u64> {
    if r.in_flight && !in_flight && r.count > 0 && !r.mixed {
        Some((r.sum / (r.count as u64)) as u64)
    } else {
        None
    }
}

/// The round after a step.
pub open spec fn round_after(r: Round, in_flight: bool) -> Round {
    if r.in_flight && !in_flight {
        Round::blank(false)
    } else {
        Round { in_flight, ..r }
    }
}

impl Round {
    /// Before the first round.
    pub fn new() -> (r: Self)
        ensures
            r == Round::blank(false),
    {
        Round { sum: 0, count: 0, mixed: false, in_flight: false }
    }

    /// One step: the average speed of the round that ends with it, if one does.
    pub fn step(&mut self, s: &Snapshot, live_now: &LiveNow, in_flight: bool) -> (r: Option<u64>)
        ensures
            ({
                let m = round_with(
                    *old(self),
                    shown_of(*s),
                    live_now.n_pids as nat,
                    live_now.tps,
                );
                r == round_end(m, in_flight) && *final(self) == round_after(m, in_flight)
            }),
    {
        if s.is_live && !s.is_estimating && s.current_tps.is_positive() && self.count
            < 0xffff_ffff {
            self.sum = self.sum.saturating_add(live_now.tps);
            self.count = self.count + 1;
            if live_now.n_pids != 1 {
                self.mixed = true;
            }
        }
        let ended = self.in_flight && !in_flight;
        if !ended {
            self.in_flight = in_flight;
            return None;
        }
        let avg = if self.count > 0 && !self.mixed {
            Some(self.sum / self.count as u64)
        } else {
            None
        };
        self.sum = 0;
        self.count = 0;
        self.mixed = false;
        self.in_flight = false;
        avg
    }
}

/// A rate per token that was dropped: the average speed of the round and of the rounds before
/// it, and the rate before and after.
#[derive(Clone, Copy, Debug, PartialEq, Eq, Structural)]
pub struct Recalibrated {
    pub round_avg: u64,
    pub base_avg: u64,
    pub bpt_old: u64,
    pub bpt_new: u64,
}

/// Takes the average speed of a round into account. If it jumps against the rounds before,
/// the rate per token is dropped and learned anew.
pub fn settle_round(live: &mut LiveIo, drift: &mut RoundDrift, avg: u64) -> (r: Option<
    Recalibrated,
>)
    requires
        old(live).wf(),
        old(drift).wf(),
    ensures
        final(live).wf(),
        final(drift).wf(),
        final(drift)@ == calibration::after_round(old(drift)@, avg),
        if avg > 0 && calibration::is_jump(old(drift)@, avg) {
            let bpt = old(live)@.params.default_bpt;
            &&& r == Some(
                Recalibrated {
                    round_avg: avg,
                    base_avg: (calibration::total(old(drift)@)
                        / calibration::DRIFT_ROUNDS as int) as u64,
                    bpt_old: old(live)@.learned.bpt,
                    bpt_new: bpt,
                },
            )
            &&& final(live)@ == (LiveState {
                learned: Learned { cal: seq![bpt], bpt, ..old(live)@.learned },
                ..old(live)@
            })
        } else {
            r is None && *final(live) == *old(live)
        },
{
    match drift.observe(avg) {
        Some(base_avg) => {
            let bpt_old: u64 = live.bytes_per_token();
            let bpt_new: u64 = live.reset_calibration();
            Some(Recalibrated { round_avg: avg, base_avg, bpt_old, bpt_new })
        },
        None => None,
    }
}

/// Drops the rate per token, to be learned anew, and the rounds before: the rate before and
/// after.
pub fn recalibrate(live: &mut LiveIo, drift: &mut RoundDrift) -> (r: (u64, u64))
    requires
        old(live).wf(),
        old(drift).wf(),
    ensures
        final(live).wf(),
        final(drift).wf(),
        final(drift)@ == Seq::<u64>::empty(),
        r == (old(live)@.learned.bpt, old(live)@.params.default_bpt),
        final(live)@ == (LiveState {
            learned: Learned { cal: seq![r.1], bpt: r.1, ..old(live)@.learned },
            ..old(live)@
        }),
{
    let bpt_old: u64 = live.bytes_per_token();
    let bpt_new: u64 = live.reset_calibration();
    drift.reset();
    (bpt_old, bpt_new)
}

/// The average speed of a round lies within the bounds of its speeds.
pub proof fn law_round_average_is_between(r: Round, low: u64, high: u64)
    requires
        r.count > 0,
        low * r.count <= r.sum <= high * r.count,
        r.in_flight,
        !r.mixed,
    ensures
        round_end(r, false) matches Some(avg) && low <= avg <= high,
{
    let n = r.count as int;
    let s = r.sum as int;
    assert(low <= s / n <= high) by (nonlinear_arith)
        requires
            n > 0,
            low * n <= s <= high * n,
    ;
}

/// How many steps in a row there were several tasks, and whether there is room for them.
#[derive(Clone, Copy, Debug, PartialEq, Eq, Structural)]
pub struct TaskRoom {
    /// Counts up while there are several tasks, and down while there are not.
    pub streak: u32,
    /// There is room for several.
    pub roomy: bool,
}

/// The room after a step. It is made after enough steps with several tasks, and taken back
/// after as many without.
pub open spec fn room_after(r: TaskRoom, several: bool) -> TaskRoom {
    let streak = if several {
        if r.streak < TASK_STREAK {
            (r.streak + 1) as u32
        } else {
            TASK_STREAK
        }
    } else if r.streak > 0 {
        (r.streak - 1) as u32
    } else {
        0
    };
    TaskRoom {
        streak,
        roomy: if streak >= TASK_STREAK {
            true
        } else if streak == 0 {
            false
        } else {
            r.roomy
        },
    }
}

impl TaskRoom {
    /// No tasks yet.
    pub fn new() -> (r: Self)
        ensures
            r == (TaskRoom { streak: 0, roomy: false }),
    {
        TaskRoom { streak: 0, roomy: false }
    }

    /// One step with so many tasks: whether the room changes.
    pub fn step(&mut self, tasks: usize) -> (r: bool)
        ensures
            *final(self) == room_after(*old(self), tasks >= SEVERAL_TASKS),
            r == (final(self).roomy != old(self).roomy),
    {
        let before = self.roomy;
        if tasks >= SEVERAL_TASKS {
            self.streak = if self.streak < TASK_STREAK {
                self.streak + 1
            } else {
                TASK_STREAK
            };
        } else if self.streak > 0 {
            self.streak = self.streak - 1;
        }
        if self.streak >= TASK_STREAK {
            self.roomy = true;
        } else if self.streak == 0 {
            self.roomy = false;
        }
        self.roomy != before
    }
}

/// Room is made by three steps in a row with several tasks and by no fewer, and taken back by
/// three in a row without and by no fewer.
pub proof fn law_room_changes_after_three_steps(r: TaskRoom, several: bool)
    requires
        r.streak <= TASK_STREAK,
    ensures
        ({
            let one = room_after(r, several);
            let two = room_after(one, several);
            let three = room_after(two, several);
            &&& three.roomy == several
            &&& (r == TaskRoom { streak: 0, roomy: false } && several) ==> !one.roomy && !two.roomy
            &&& (r == TaskRoom { streak: TASK_STREAK, roomy: true } && !several) ==> one.roomy
                && two.roomy
        }),
{
}

/// A speed in tenths, rounded to the nearest, and to an even number of tenths where two are as
/// near.
pub open spec fn tenths(r: Rate) -> nat {
    if r.ms == 0 {
        0
    } else {
        let n = r.tokens * 10_000;
        let d = r.ms as int;
        let q = n / d;
        let m = n % d;
        (if 2 * m > d || (2 * m == d && q % 2 == 1) {
            q + 1
        } else {
            q
        }) as nat
    }
}

/// A speed as text, with one digit behind the point.
pub open spec fn speed_text(r: Rate) -> Seq<char> {
    text::decimal(tenths(r) / 10) + seq!['.'] + text::decimal(tenths(r) % 10)
}

fn push_speed(s: &mut String, r: &Rate)
    ensures
        final(s)@ == old(s)@ + speed_text(*r),
{
    let t: u128 = if r.ms == 0 {
        0
    } else {
        let n: u128 = r.tokens as u128 * 10_000;
        let d: u128 = r.ms as u128;
        let q: u128 = n / d;
        let m: u128 = n % d;
        proof {
            assert(q <= n) by (nonlinear_arith)
                requires
                    q == n / d,
                    d >= 1,
            ;
        }
        if 2 * m > d || (2 * m == d && q % 2 == 1) {
            q + 1
        } else {
            q
        }
    };
    let ghost s0 = s@;
    push_wide(s, t / 10);
    s.push('.');
    push_wide(s, t % 10);
    assert(s@ =~= s0 + speed_text(*r));
}

fn push_wide(s: &mut String, n: u128)
    ensures
        final(s)@ == old(s)@ + text::decimal(n as nat),
    decreases n,
{
    if n <= 0xffff_ffff_ffff_ffff {
        text::push_decimal(s, n as u64);
    } else {
        let ghost s0 = s@;
        push_wide(s, n / 10);
        text::push_decimal(s, (n % 10) as u64);
        proof {
            let d = (n % 10) as nat;
            assert(text::decimal(d) =~= seq![text::digit(d)]);
            assert(s@ =~= s0 + text::decimal(n as nat));
        }
    }
}

/// The word that says what goes on.
pub open spec fn state_word(s: Shown) -> Seq<char> {
    if s.is_live || s.is_starting {
        "Generating"@
    } else if s.is_estimating {
        "Estimating"@
    } else {
        "Idle"@
    }
}

/// The line that says what goes on, and how fast.
pub open spec fn state_line(s: Shown) -> Seq<char> {
    if s.is_live || s.is_starting {
        "Generating "@ + speed_text(s.current) + " t/s"@
    } else if s.is_estimating {
        "Estimating \u{2248}"@ + speed_text(s.current) + " t/s"@
    } else {
        "Idle"@
    }
}

/// The word and the line that say what goes on.
pub fn tray_status(s: &Snapshot) -> (r: (&'static str, String))
    ensures
        r.0@ == state_word(shown_of(*s)),
        r.1@ == state_line(shown_of(*s)),
{
    if s.is_live || s.is_starting {
        let mut t = "Generating ".to_owned();
        push_speed(&mut t, &s.current_tps);
        text::push_text(&mut t, " t/s");
        ("Generating", t)
    } else if s.is_estimating {
        let mut t = "Estimating \u{2248}".to_owned();
        push_speed(&mut t, &s.current_tps);
        text::push_text(&mut t, " t/s");
        ("Estimating", t)
    } else {
        ("Idle", "Idle".to_owned())
    }
}

/// The live measurement once it knows the calls of a poll and the sessions in progress.
pub open spec fn prepared(
    st: LiveState,
    day_calls: Seq<CallView>,
    new_calls: Seq<CallView>,
    in_flight: Seq<(String, i64)>,
) -> LiveState {
    let known = if st.history_done {
        st
    } else {
        LiveState {
            current: match live::latest_session(day_calls) {
                Some(best) => Some(best.1),
                None => st.current,
            },
            history_done: true,
            ..st
        }
    };
    LiveState {
        pending: calibration::newest(known.pending + new_calls, live::PENDING_CAP as nat),
        current: if new_calls.len() > 0 {
            Some(new_calls.last().session)
        } else {
            known.current
        },
        inflight: in_flight,
        ..known
    }
}

/// Hands the calls of a poll and the sessions in progress to the live measurement.
pub fn prepare_live(
    live: &mut LiveIo,
    day_calls: &[Call],
    new_calls: &[Call],
    in_flight: Vec<(String, i64)>,
)
    requires
        old(live).wf(),
    ensures
        final(live).wf(),
        final(live)@ == prepared(
            old(live)@,
            settle::calls_view(day_calls@),
            settle::calls_view(new_calls@),
            in_flight@,
        ),
{
    if !live.history_done() {
        live.ingest_history(day_calls);
    }
    live.observe(new_calls);
    live.set_inflight(in_flight);
}

/// What one step of the panel gives.
#[derive(Debug)]
pub struct PanelStep {
    /// What is shown.
    pub snapshot: Snapshot,
    /// The live measurement.
    pub live: LiveNow,
    /// What was learned from a call.
    pub learned: Option<CalEvent>,
    /// The rate per token, if it was dropped.
    pub recalibrated: Option<Recalibrated>,
}

/// The round once a step is counted in.
pub open spec fn round_counted(r: Round, shown: Shown, live: LiveNowView) -> Round {
    round_with(r, shown, live.n_pids, live.tps)
}

/// The rate per token is dropped at the end of a round.
pub open spec fn drops_rate(r: Round, drift: Seq<u64>, in_flight: bool) -> bool {
    match round_end(r, in_flight) {
        Some(avg) => avg > 0 && calibration::is_jump(drift, avg),
        None => false,
    }
}

/// A step of the panel: from what was measured, recorded and learned before to what is shown, and
/// to what is kept.
pub open spec fn step_made(
    snapshot: Snapshot,
    net_now: NetNow,
    before: LiveState,
    round: Round,
    drift: Seq<u64>,
    counters: Seq<(u32, u64)>,
    files_total: u64,
    after: LiveState,
    after_round: Round,
    after_drift: Seq<u64>,
    r: PanelStep,
) -> bool {
    let now = snapshot.now_ms;
    let in_flight = before.inflight.len() > 0;
    let m = live::after_measure(before, now, counters, files_total);
    let told = live::shown(
        live::taken_in(before, now, counters, files_total),
        live::owners_gone(before, now, counters),
        now,
    );
    let shown = blended(
        shown_of(snapshot),
        snapshot.window_tps,
        told,
        in_flight,
        m.ever_saw,
    );
    let counted = round_counted(round, shown, told);
    let learned = Learned { event: None, ..m.learned };
    let bpt = m.params.default_bpt;
    let drop = drops_rate(counted, drift, in_flight);
    &&& r.live@ == told
    &&& shown_of(r.snapshot) == shown
    &&& r.snapshot.net@ == net_shown(snapshot, net_now)
    &&& same_rest(r.snapshot, snapshot)
    &&& match r.learned {
        Some(e) => m.learned.event == Some(e@),
        None => m.learned.event is None,
    }
    &&& after_round == round_after(counted, in_flight)
    &&& after_drift == (match round_end(counted, in_flight) {
        Some(avg) => calibration::after_round(drift, avg),
        None => drift,
    })
    &&& after == (LiveState {
        learned: if drop {
            Learned { cal: seq![bpt], bpt, ..learned }
        } else {
            learned
        },
        ..m
    })
    &&& match r.recalibrated {
        Some(c) => {
            &&& drop && round_end(counted, in_flight) == Some(c.round_avg)
            &&& c.base_avg == (calibration::total(drift)
                / calibration::DRIFT_ROUNDS as int) as u64
            &&& c.bpt_old == m.learned.bpt && c.bpt_new == bpt
        },
        None => !drop,
    }
}

/// One step of the panel: measures, puts the measurement and the network into the figures of
/// the day, and looks after the rate per token at the end of a round.
pub fn build_payload(
    snapshot: Snapshot,
    net_now: NetNow,
    live: &mut LiveIo,
    round: &mut Round,
    drift: &mut RoundDrift,
    counters: &[(u32, u64)],
    files_total: u64,
) -> (r: PanelStep)
    requires
        old(live).wf(),
        old(drift).wf(),
        stream::on_clock(snapshot.now_ms as int),
    ensures
        final(live).wf(),
        final(drift).wf(),
        step_made(
            snapshot,
            net_now,
            old(live)@,
            *old(round),
            old(drift)@,
            counters@,
            files_total,
            final(live)@,
            *final(round),
            final(drift)@,
            r,
        ),
{
    let mut snapshot = snapshot;
    let now_ms: i64 = snapshot.now_ms;
    attach_net(&mut snapshot, net_now);
    let in_flight = live.has_inflight();
    let live_now = live.measure(now_ms, counters, files_total);
    let learned = live.take_calibration();
    blend(&mut snapshot, &live_now, in_flight, live.ever_saw_procs());
    let recalibrated = match round.step(&snapshot, &live_now, in_flight) {
        Some(avg) => settle_round(live, drift, avg),
        None => None,
    };
    PanelStep { snapshot, live: live_now, learned, recalibrated }
}

/// A round adds up the speeds that were measured and counts them, and nothing else; when the last
/// call in progress ends, its average is their sum over their number, if one process alone
/// contributed to each of them.
pub proof fn law_round_averages_what_was_measured(
    r: Round,
    s: Shown,
    n_pids: nat,
    tps: u64,
    in_flight: bool,
)
    requires
        r.count < u32::MAX,
        r.sum + tps <= u64::MAX,
    ensures
        ({
            let m = round_with(r, s, n_pids, tps);
            let counts = s.is_live && !s.is_estimating && s.current.tokens > 0 && s.current.ms > 0;
            &&& counts ==> m.sum == r.sum + tps && m.count == r.count + 1 && m.mixed == (r.mixed
                || n_pids != 1)
            &&& !counts ==> m == r
            &&& round_end(m, in_flight) is Some <==> r.in_flight && !in_flight && m.count > 0
                && !m.mixed
            &&& round_end(m, in_flight) matches Some(avg) ==> avg * m.count <= m.sum < (avg + 1)
                * m.count
            &&& round_after(m, in_flight).in_flight == in_flight
            &&& r.in_flight && !in_flight ==> round_after(m, in_flight).count == 0 && round_after(
                m,
                in_flight,
            ).sum == 0
        }),
{
    let m = round_with(r, s, n_pids, tps);
    if m.count > 0 {
        let n = m.count as int;
        let t = m.sum as int;
        assert((t / n) * n <= t < (t / n + 1) * n) by (nonlinear_arith)
            requires
                n > 0,
                t >= 0,
        ;
        assert(0 <= t / n <= t) by (nonlinear_arith)
            requires
                n > 0,
                t >= 0,
        ;
    }
}

/// The traffic of sessions is estimated from their tokens: five bytes for each token of a prompt
/// that was not in the cache, and four hundred for each of an answer.
pub proof fn law_session_traffic_goes_by_tokens(s: Snapshot, now: NetNow)
    requires
        s.input_tokens + s.cache_creation_tokens <= u64::MAX,
        s.output_tokens + s.reasoning_tokens <= u64::MAX,
    ensures
        ({
            let n = net_shown(s, now);
            let prompt = s.input_tokens + s.cache_creation_tokens - s.cache_read_tokens;
            &&& prompt >= 0 && 5 * prompt <= u64::MAX ==> n.sess_up_today == 5 * prompt
            &&& prompt < 0 ==> n.sess_up_today == 0
            &&& 400 * (s.output_tokens + s.reasoning_tokens) <= u64::MAX ==> n.sess_down_today
                == 400 * (s.output_tokens + s.reasoning_tokens)
            &&& n.up_bps == now.up_bps && n.down_bps == now.down_bps
            &&& n.up_today == now.up_today && n.down_today == now.down_today
        }),
{
}

/// While a call has started and nothing has streamed yet, that is said and no speed is shown;
/// once it streams, and less than one token per second can be measured of it, the speed of the
/// calls before is shown and marked as an estimate.
pub proof fn law_unmeasured_streams_show_the_calls_before(
    s: Shown,
    window: Rate,
    live: LiveNowView,
    in_flight: bool,
    ever_saw: bool,
)
    requires
        live.available,
        live.streaming,
    ensures
        ({
            let r = blended(s, window, live, in_flight, ever_saw);
            &&& r.is_live && r.ramping == live.ramping && r.is_starting == live.awaiting
            &&& live.awaiting ==> r.current == Rate::none() && !r.is_estimating
            &&& !live.awaiting && live.tps < 1_000_000 && window.tokens > 0 && window.ms > 0
                ==> r.current == window && r.is_estimating && r.source == "window"@
                && r.tasks.len() == 0
            &&& !live.awaiting && live.tps >= 1_000_000 ==> r.current == (Rate {
                tokens: live.tps,
                ms: 1_000_000_000,
            }) && !r.is_estimating && r.source == "io"@ && r.tasks.len() == live.tasks.len()
        }),
{
}

/// The curve ends with the speed that is shown, and nothing else of it changes.
pub proof fn law_curve_ends_with_the_speed(
    s: Shown,
    window: Rate,
    live: LiveNowView,
    in_flight: bool,
    ever_saw: bool,
)
    requires
        s.spark.len() > 0,
    ensures
        ({
            let b = blended(s, window, live, in_flight, ever_saw);
            &&& b.spark.len() == s.spark.len()
            &&& forall|i: int| 0 <= i < s.spark.len() - 1 ==> #[trigger] b.spark[i] == s.spark[i]
            &&& live.available || !in_flight || ever_saw || !s.is_estimating
                ==> b.spark.last() == b.current
        }),
{
}

/// Each task is shown as it was measured, but for a stream whose speed is an estimate.
pub proof fn law_tasks_are_shown(
    s: Shown,
    window: Rate,
    live: LiveNowView,
    in_flight: bool,
    ever_saw: bool,
    i: int,
)
    requires
        0 <= i < live.tasks.len(),
    ensures
        ({
            let b = blended(s, window, live, in_flight, ever_saw);
            let t = live.tasks[i];
            &&& live.available && b.is_estimating ==> b.tasks.len() == 0
            &&& !(live.available && b.is_estimating) ==> {
                &&& b.tasks.len() == live.tasks.len()
                &&& b.tasks[i].pid == t.pid
                &&& b.tasks[i].streaming == t.streaming
                &&& b.tasks[i].tps == (Rate { tokens: t.tps, ms: 1_000_000_000 })
                &&& t.session matches Some(x) ==> b.tasks[i].session == x
            }
        }),
{
}

/// A speed is written to the nearest tenth of a token per second, and of two that are equally near
/// to the even one.
pub proof fn law_speed_is_rounded(r: Rate)
    requires
        r.ms > 0,
    ensures
        ({
            let t = tenths(r) as int;
            let n = r.tokens * 10_000;
            let d = r.ms as int;
            &&& -d <= 2 * (t * d - n) <= d
            &&& 2 * (t * d - n) == d || 2 * (t * d - n) == -d ==> t % 2 == 0
        }),
{
    let n = r.tokens * 10_000;
    let d = r.ms as int;
    let q = n / d;
    let m = n % d;
    assert(n == q * d + m && 0 <= m < d && q >= 0) by (nonlinear_arith)
        requires
            d > 0,
            n >= 0,
            q == n / d,
            m == n % d,
    ;
    assert((q + 1) * d == q * d + d) by (nonlinear_arith);
}

/// The calls to learn from are the last eight that came in, and the session of the last one is
/// the current one.
pub proof fn law_last_calls_wait(
    st: LiveState,
    day_calls: Seq<CallView>,
    new_calls: Seq<CallView>,
    in_flight: Seq<(String, i64)>,
)
    ensures
        ({
            let p = prepared(st, day_calls, new_calls, in_flight);
            let all = st.pending + new_calls;
            &&& all.len() <= 8 ==> p.pending == all
            &&& all.len() > 8 ==> p.pending == all.skip(all.len() - 8)
            &&& new_calls.len() > 0 ==> p.current == Some(new_calls.last().session)
            &&& new_calls.len() == 0 && st.history_done ==> p.current == st.current
            &&& p.inflight == in_flight
            &&& p.learned == st.learned
        }),
{
}

/// Room for several tasks is made at the third look in a row that finds them, and given up at the
/// third that does not.
pub proof fn law_three_looks_make_room(r: TaskRoom)
    ensures
        r.streak == 0 && !r.roomy ==> {
            let one = room_after(r, true);
            let two = room_after(one, true);
            let three = room_after(two, true);
            &&& !one.roomy && !two.roomy && three.roomy
            &&& room_after(three, true) == three
            &&& room_after(three, false).roomy && room_after(room_after(three, false), false).roomy
            &&& !room_after(room_after(room_after(three, false), false), false).roomy
        },
{
}

/// What the panel shows is what it has measured: the speed of a stream is its bytes per second over
/// the bytes per token that were learned, and what it learned from is the call that was due. What
/// was added up of the calls of the day, and what was counted of the network, is shown as it was.
pub proof fn law_panel_shows_what_was_measured(
    snapshot: Snapshot,
    net_now: NetNow,
    before: LiveState,
    round: Round,
    drift: Seq<u64>,
    counters: Seq<(u32, u64)>,
    total: u64,
    after: LiveState,
    after_round: Round,
    after_drift: Seq<u64>,
    r: PanelStep,
)
    requires
        step_made(
            snapshot,
            net_now,
            before,
            round,
            drift,
            counters,
            total,
            after,
            after_round,
            after_drift,
            r,
        ),
        after.learned.bpt > 0,
    ensures
        r.live.available && r.live.streaming && !r.live.awaiting && r.live.tps >= 1_000_000 ==> {
            &&& r.snapshot.current_tps == (Rate { tokens: r.live.tps, ms: 1_000_000_000 })
            &&& r.snapshot.is_live && !r.snapshot.is_estimating
        },
        r.live.available && !r.live.streaming ==> r.snapshot.current_tps == Rate::none(),
        r.recalibrated is None && r.live.streaming && r.live.tps < u64::MAX ==> r.live.tps
            * after.learned.bpt <= r.live.pipe_bps * 1_000_000 < (r.live.tps + 1)
            * after.learned.bpt,
        r.recalibrated is None && r.learned is Some ==> r.learned->0.bpt_now == after.learned.bpt
            || r.learned->0@ == before.learned.event->0,
        r.recalibrated is Some ==> after.learned.bpt == before.params.default_bpt,
        after.learned.event is None,
        r.snapshot.avg_tps == snapshot.avg_tps && r.snapshot.total_tokens == snapshot.total_tokens
            && r.snapshot.calls_today == snapshot.calls_today && r.snapshot.window_tps
            == snapshot.window_tps && r.snapshot.hist_max_tps == snapshot.hist_max_tps,
        r.snapshot.net@.up_today == net_now.up_today && r.snapshot.net@.down_today
            == net_now.down_today && r.snapshot.net@.up_bps == net_now.up_bps
            && r.snapshot.net@.down_bps == net_now.down_bps,
        after_round.in_flight == (before.inflight.len() > 0),
{
    let now = snapshot.now_ms;
    let m = live::after_measure(before, now, counters, total);
    let told = live::shown(
        live::taken_in(before, now, counters, total),
        live::owners_gone(before, now, counters),
        now,
    );
    assert(r.live@ == told);
    assert(shown_of(r.snapshot).current == r.snapshot.current_tps);
    if r.recalibrated is None {
        live::law_speed_is_byte_rate_over_learned_rate(before, now, counters, total);
    }
    settle::lemma_settled_event(
        Learned {
            session_pid: live::surviving(
                before.learned.session_pid,
                crate::probe::after_sampling(before.procs, now, counters),
            ),
            ..before.learned
        },
        before.pending,
        now,
        crate::probe::after_sampling(before.procs, now, counters),
        m.files,
        before.inflight,
        before.params,
    );
}

/// What was counted of snapshots and connections is shown as it was.
pub proof fn law_network_is_shown_as_counted(s: Snapshot, now: NetNow)
    ensures
        ({
            let n = net_shown(s, now);
            &&& n.available == now.available && n.conns_available == now.conns_available
            &&& n.ckpt_today == now.ckpt_today_bytes && n.ckpt_today_count == now.ckpt_today_count
            &&& n.ckpt_uploading == now.ckpt_uploading && n.ckpt_status == now.ckpt_status@
            &&& n.cli_conns == now.cli_conns && n.app_conns == now.app_conns
            &&& n.ckpt_list == figures::ckpts_view(now.ckpt_list@) && n.ckpt_today_list
                == figures::ckpts_view(now.ckpt_today_list@)
            &&& n.cli_conn_list == figures::conns_view(now.cli_conn_list@) && n.app_conn_list
                == figures::conns_view(now.app_conn_list@)
        }),
{
}

} // verus!
