//! The figures of today, computed from its calls.

use vstd::prelude::*;

use crate::calibration;
use crate::call::{Call, CallView};
use crate::clock;
use crate::figures::{NetFigures, NetView, Snapshot};
use crate::order;
use crate::order::{Ordered, Ranked};
use crate::rate;
use crate::rate::Rate;
use crate::settle;
use crate::stream;
use crate::strmap::StrMap;
use crate::text;

verus! {

/// The span of the recent speed.
pub const LIVE_WINDOW_MS: i64 = 600_000;

/// Bounds and default of how long after its predecessor a call is taken to be generating.
pub const ESTIMATE_MIN_MS: i64 = 20_000;

pub const ESTIMATE_MAX_MS: i64 = 240_000;

pub const ESTIMATE_DEFAULT_MS: i64 = 60_000;

/// Number and width of the buckets of the recent speed.
pub const SPARK_BUCKETS: usize = 90;

pub const SPARK_BUCKET_MS: i64 = 10_000;

/// Gaps between calls that are at least this long are breaks.
pub const GAP_LIMIT_MS: i64 = 600_000;

/// How many of the latest gaps count.
pub const GAP_WINDOW: usize = 10;

/// From how many gaps on they are used.
pub const GAP_MIN: usize = 3;

impl Ordered for i64 {
    open spec fn before(self, other: Self) -> bool {
        self < other
    }

    proof fn strict_weak(a: Self, b: Self, c: Self) {
    }
}

impl Ranked for i64 {
    fn is_before(&self, other: &Self) -> (r: bool) {
        *self < *other
    }
}

/// The sum of a quantity over calls.
pub open spec fn sum_of(calls: Seq<CallView>, f: spec_fn(CallView) -> int) -> int
    decreases calls.len(),
{
    if calls.len() == 0 {
        0
    } else {
        sum_of(calls.drop_last(), f) + f(calls.last())
    }
}

/// The tokens of the calls that satisfy a condition.
pub open spec fn eff_where(calls: Seq<CallView>, cond: spec_fn(CallView) -> bool) -> int {
    sum_of(
        calls,
        |c: CallView|
            if cond(c) {
                c.eff() as int
            } else {
                0
            },
    )
}

/// The generation time of the calls that satisfy a condition.
pub open spec fn gen_where(calls: Seq<CallView>, cond: spec_fn(CallView) -> bool) -> int {
    sum_of(
        calls,
        |c: CallView|
            if cond(c) {
                c.gen() as int
            } else {
                0
            },
    )
}

/// The speed of the calls that satisfy a condition: their tokens over their generation
/// time; none if there is no such call.
pub open spec fn speed_where(calls: Seq<CallView>, cond: spec_fn(CallView) -> bool) -> Rate {
    Rate { tokens: rate::clip(eff_where(calls, cond)), ms: rate::clip(gen_where(calls, cond)) }
}

/// The call that was completed last, not before the epoch; of several, the last one.
pub open spec fn latest(calls: Seq<CallView>) -> Option<CallView>
    decreases calls.len(),
{
    if calls.len() == 0 {
        None
    } else {
        let front = latest(calls.drop_last());
        let c = calls.last();
        let bar = match front {
            Some(b) => b.completed_ms as int,
            None => 0,
        };
        if c.completed_ms >= bar {
            Some(c)
        } else {
            front
        }
    }
}

/// The sessions of calls, without the empty one.
pub open spec fn sessions_of(calls: Seq<CallView>) -> Map<Seq<char>, ()>
    decreases calls.len(),
{
    if calls.len() == 0 {
        Map::empty()
    } else {
        let front = sessions_of(calls.drop_last());
        if calls.last().session.len() > 0 {
            front.insert(calls.last().session, ())
        } else {
            front
        }
    }
}

/// A call is within the span of the recent speed.
pub open spec fn recent(now: i64) -> spec_fn(CallView) -> bool {
    |c: CallView| c.completed_ms >= now - LIVE_WINDOW_MS
}

/// A call was completed in a bucket of the recent speed: so many buckets before that of now.
/// Buckets are aligned to the clock.
pub open spec fn in_bucket(now: i64, back: int) -> spec_fn(CallView) -> bool {
    |c: CallView| now as int / SPARK_BUCKET_MS as int - c.completed_ms as int / SPARK_BUCKET_MS as int
        == back
}

/// The times at which calls were completed, ascending.
pub open spec fn completions(calls: Seq<CallView>) -> Seq<i64> {
    order::ranked(calls.map_values(|c: CallView| c.completed_ms))
}

/// The gaps between successive times, without those of no length and without breaks.
pub open spec fn gaps(times: Seq<i64>) -> Seq<i64>
    decreases times.len(),
{
    if times.len() < 2 {
        Seq::empty()
    } else {
        let front = gaps(times.drop_last());
        let g = times.last() - times[times.len() - 2];
        if 0 < g < GAP_LIMIT_MS {
            front.push(g as i64)
        } else {
            front
        }
    }
}

/// How long after its predecessor a call is taken to be generating: the median of the
/// latest gaps between calls, within bounds.
pub open spec fn grace(calls: Seq<CallView>) -> int {
    let g = gaps(completions(calls));
    if g.len() >= GAP_MIN {
        let tail = calibration::newest(g, GAP_WINDOW as nat);
        stream::least(
            stream::most(
                order::ranked(tail)[tail.len() as int / 2] as int,
                ESTIMATE_MIN_MS as int,
            ),
            ESTIMATE_MAX_MS as int,
        )
    } else {
        ESTIMATE_DEFAULT_MS as int
    }
}

/// A call is taken to be generating: the latest one was completed not long ago.
pub open spec fn estimating(calls: Seq<CallView>, now: i64) -> bool {
    &&& latest(calls) matches Some(c) && c.completed_ms > 0 && now - c.completed_ms <= grace(calls)
    &&& gen_where(calls, recent(now)) > 0
}

/// The recent speed by bucket, the newest last. While a call is taken to be generating, an
/// empty newest bucket shows the recent speed.
pub open spec fn spark_of(calls: Seq<CallView>, now: i64) -> Seq<Rate> {
    Seq::new(
        SPARK_BUCKETS as nat,
        |i: int|
            {
                let r = speed_where(calls, in_bucket(now, SPARK_BUCKETS - 1 - i));
                if i == SPARK_BUCKETS - 1 && estimating(calls, now) && !r.positive() {
                    speed_where(calls, recent(now))
                } else {
                    r
                }
            },
    )
}

/// The calls of today.
pub struct Aggregator {
    /// The calls.
    pub calls: Vec<Call>,
    /// Today.
    pub today_ymd: (i32, u32, u32),
}

/// Every call counts.
pub open spec fn any_call() -> spec_fn(CallView) -> bool {
    |c: CallView| true
}

/// The figures of calls at a moment.
pub open spec fn figures_match(s: Snapshot, calls: Seq<CallView>, now: i64) -> bool {
    &&& s.current_tps == (if estimating(calls, now) {
        speed_where(calls, recent(now))
    } else {
        Rate::none()
    })
    &&& s.avg_tps == (Rate {
        tokens: rate::clip(
            rate::clip(sum_of(calls, |c: CallView| c.output as int)) + rate::clip(
                sum_of(calls, |c: CallView| c.reasoning as int),
            ),
        ),
        ms: rate::clip(gen_where(calls, any_call())),
    })
    &&& s.output_tokens == rate::clip(sum_of(calls, |c: CallView| c.output as int))
    &&& s.reasoning_tokens == rate::clip(sum_of(calls, |c: CallView| c.reasoning as int))
    &&& s.input_tokens == rate::clip(sum_of(calls, |c: CallView| c.input as int))
    &&& s.cache_creation_tokens == rate::clip(sum_of(calls, |c: CallView| c.cache_creation as int))
    &&& s.cache_read_tokens == rate::clip(sum_of(calls, |c: CallView| c.cache_read as int))
    &&& s.total_tokens == rate::clip(
        s.output_tokens + s.reasoning_tokens + s.input_tokens + s.cache_creation_tokens,
    )
    &&& s.calls_today == calls.len()
    &&& s.sessions_today == sessions_of(calls).len()
    &&& s.is_estimating == estimating(calls, now)
    &&& s.window_tps == speed_where(calls, recent(now))
    &&& s.last_call_tps == (match latest(calls) {
        Some(c) => Rate { tokens: c.eff(), ms: c.gen() },
        None => Rate::none(),
    })
    &&& s.last_activity_ms == (match latest(calls) {
        Some(c) => c.completed_ms,
        None => 0,
    })
    &&& s.spark@ == spark_of(calls, now)
    &&& s.live_source@ == (if estimating(calls, now) {
        "window"@
    } else {
        "idle"@
    })
    &&& s.now_ms == now
}

/// What only the live measurement, the history and the network fill in.
pub open spec fn rest_blank(s: Snapshot) -> bool {
    &&& !s.is_live && !s.ramping && !s.is_starting
    &&& s.hist_max_tps == Rate::none() && s.hist_avg_tps == Rate::none()
    &&& s.rollout_dir@ == Seq::<char>::empty()
    &&& s.tasks@.len() == 0
    &&& s.net@ == NetView::none()
}

proof fn lemma_sum_nonneg(calls: Seq<CallView>, f: spec_fn(CallView) -> int)
    requires
        forall|c: CallView| #[trigger] f(c) >= 0,
    ensures
        sum_of(calls, f) >= 0,
    decreases calls.len(),
{
    if calls.len() > 0 {
        lemma_sum_nonneg(calls.drop_last(), f);
    }
}

/// Sums over the calls so far.
#[derive(Clone, Copy)]
struct Totals {
    output: u64,
    reasoning: u64,
    input: u64,
    cache_creation: u64,
    cache_read: u64,
    gen: u64,
    recent_eff: u64,
    recent_gen: u64,
}

spec fn totals_of(calls: Seq<CallView>, now: i64) -> Totals {
    Totals {
        output: rate::clip(sum_of(calls, |c: CallView| c.output as int)),
        reasoning: rate::clip(sum_of(calls, |c: CallView| c.reasoning as int)),
        input: rate::clip(sum_of(calls, |c: CallView| c.input as int)),
        cache_creation: rate::clip(sum_of(calls, |c: CallView| c.cache_creation as int)),
        cache_read: rate::clip(sum_of(calls, |c: CallView| c.cache_read as int)),
        gen: rate::clip(gen_where(calls, any_call())),
        recent_eff: rate::clip(eff_where(calls, recent(now))),
        recent_gen: rate::clip(gen_where(calls, recent(now))),
    }
}

proof fn lemma_totals_step(calls: Seq<CallView>, now: i64, i: int)
    requires
        0 <= i < calls.len(),
    ensures
        ({
            let a = totals_of(calls.take(i), now);
            let b = totals_of(calls.take(i + 1), now);
            let c = calls[i];
            let here = c.completed_ms >= now - LIVE_WINDOW_MS;
            &&& b.output == rate::clip(a.output + c.output)
            &&& b.reasoning == rate::clip(a.reasoning + c.reasoning)
            &&& b.input == rate::clip(a.input + c.input)
            &&& b.cache_creation == rate::clip(a.cache_creation + c.cache_creation)
            &&& b.cache_read == rate::clip(a.cache_read + c.cache_read)
            &&& b.gen == rate::clip(a.gen + c.gen())
            &&& b.recent_eff == (if here {
                rate::clip(a.recent_eff + c.eff())
            } else {
                a.recent_eff
            })
            &&& b.recent_gen == (if here {
                rate::clip(a.recent_gen + c.gen())
            } else {
                a.recent_gen
            })
        }),
{
    let d = calls.take(i);
    assert(calls.take(i + 1).drop_last() =~= d);
    lemma_sum_nonneg(d, |c: CallView| c.output as int);
    lemma_sum_nonneg(d, |c: CallView| c.reasoning as int);
    lemma_sum_nonneg(d, |c: CallView| c.input as int);
    lemma_sum_nonneg(d, |c: CallView| c.cache_creation as int);
    lemma_sum_nonneg(d, |c: CallView| c.cache_read as int);
    lemma_where_nonneg(d, any_call());
    lemma_where_nonneg(d, recent(now));
}

proof fn lemma_where_nonneg(calls: Seq<CallView>, cond: spec_fn(CallView) -> bool)
    ensures
        eff_where(calls, cond) >= 0,
        gen_where(calls, cond) >= 0,
{
    lemma_sum_nonneg(
        calls,
        |c: CallView|
            if cond(c) {
                c.eff() as int
            } else {
                0
            },
    );
    lemma_sum_nonneg(
        calls,
        |c: CallView|
            if cond(c) {
                c.gen() as int
            } else {
                0
            },
    );
}

proof fn lemma_gen_positive(calls: Seq<CallView>, cond: spec_fn(CallView) -> bool)
    ensures
        (rate::clip(gen_where(calls, cond)) > 0) == (gen_where(calls, cond) > 0),
{
    lemma_where_nonneg(calls, cond);
}

fn total_up(calls: &[Call], now: i64) -> (r: Totals)
    ensures
        r == totals_of(settle::calls_view(calls@), now),
{
    let ghost cv = settle::calls_view(calls@);
    let mut t = Totals {
        output: 0,
        reasoning: 0,
        input: 0,
        cache_creation: 0,
        cache_read: 0,
        gen: 0,
        recent_eff: 0,
        recent_gen: 0,
    };
    assert(t == totals_of(cv.take(0), now)) by {
        assert(cv.take(0) =~= Seq::empty());
    }
    for i in 0..calls.len()
        invariant
            cv == settle::calls_view(calls@),
            t == totals_of(cv.take(i as int), now),
    {
        let c: &Call = &calls[i];
        proof {
            lemma_totals_step(cv, now, i as int);
            assert(cv[i as int] == c@);
        }
        let here = c.completed_ms as i128 >= now as i128 - LIVE_WINDOW_MS as i128;
        t =
        Totals {
            output: t.output.saturating_add(c.output),
            reasoning: t.reasoning.saturating_add(c.reasoning),
            input: t.input.saturating_add(c.input),
            cache_creation: t.cache_creation.saturating_add(c.cache_creation),
            cache_read: t.cache_read.saturating_add(c.cache_read),
            gen: t.gen.saturating_add(c.generation()),
            recent_eff: if here {
                t.recent_eff.saturating_add(c.effective_out())
            } else {
                t.recent_eff
            },
            recent_gen: if here {
                t.recent_gen.saturating_add(c.generation())
            } else {
                t.recent_gen
            },
        };
    }
    assert(cv.take(cv.len() as int) =~= cv);
    t
}

fn find_latest(calls: &[Call]) -> (r: Option<usize>)
    ensures
        match r {
            Some(i) => i < calls@.len() && latest(settle::calls_view(calls@)) == Some(
                calls@[i as int]@,
            ),
            None => latest(settle::calls_view(calls@)) is None,
        },
{
    let ghost cv = settle::calls_view(calls@);
    let mut best: Option<usize> = None;
    assert(cv.take(0) =~= Seq::empty());
    for i in 0..calls.len()
        invariant
            cv == settle::calls_view(calls@),
            match best {
                Some(b) => b < i && latest(cv.take(i as int)) == Some(calls@[b as int]@),
                None => latest(cv.take(i as int)) is None,
            },
    {
        assert(cv.take(i + 1).drop_last() =~= cv.take(i as int));
        let bar: i64 = match best {
            Some(b) => calls[b].completed_ms,
            None => 0,
        };
        if calls[i].completed_ms >= bar {
            best = Some(i);
        }
    }
    assert(cv.take(cv.len() as int) =~= cv);
    best
}

fn count_sessions(calls: &[Call]) -> (r: usize)
    ensures
        r == sessions_of(settle::calls_view(calls@)).len(),
{
    let ghost cv = settle::calls_view(calls@);
    let mut set: StrMap<()> = StrMap::new();
    assert(cv.take(0) =~= Seq::empty());
    for i in 0..calls.len()
        invariant
            cv == settle::calls_view(calls@),
            set.wf(),
            set@ == sessions_of(cv.take(i as int)),
    {
        assert(cv.take(i + 1).drop_last() =~= cv.take(i as int));
        if text::chars_of(calls[i].session.as_str()).len() > 0 {
            set.insert(calls[i].session.clone(), ());
        }
    }
    assert(cv.take(cv.len() as int) =~= cv);
    set.len()
}

fn estimate_grace(calls: &[Call]) -> (r: i64)
    ensures
        r == grace(settle::calls_view(calls@)),
{
    let ghost cv = settle::calls_view(calls@);
    let mut times: Vec<i64> = Vec::new();
    for i in 0..calls.len()
        invariant
            cv == settle::calls_view(calls@),
            times@.len() == i,
            forall|k: int| 0 <= k < i ==> #[trigger] times@[k] == cv[k].completed_ms,
    {
        times.push(calls[i].completed_ms);
    }
    assert(times@ =~= cv.map_values(|c: CallView| c.completed_ms));
    let sorted = order::sort(times);
    let mut found: Vec<i64> = Vec::new();
    let n: usize = sorted.len();
    if n >= 2 {
        let mut i: usize = 1;
        assert(gaps(sorted@.take(1)) =~= Seq::empty());
        while i < n
            invariant
                1 <= i <= n,
                n == sorted@.len(),
                found@ == gaps(sorted@.take(i as int)),
            decreases n - i,
        {
            assert(sorted@.take(i + 1).drop_last() =~= sorted@.take(i as int));
            let g: i128 = sorted[i] as i128 - sorted[i - 1] as i128;
            if g > 0 && g < GAP_LIMIT_MS as i128 {
                found.push(g as i64);
            }
            i = i + 1;
        }
        assert(sorted@.take(n as int) =~= sorted@);
    }
    let m: usize = found.len();
    if m < GAP_MIN {
        return ESTIMATE_DEFAULT_MS;
    }
    let start: usize = if m > GAP_WINDOW {
        m - GAP_WINDOW
    } else {
        0
    };
    let tail = found.split_off(start);
    assert(tail@ =~= calibration::newest(gaps(completions(cv)), GAP_WINDOW as nat));
    let k: usize = tail.len();
    proof {
        order::law_ranked_is_sorted_permutation(tail@);
    }
    let ranked = order::sort(tail);
    let mid: i64 = ranked[k / 2];
    if mid < ESTIMATE_MIN_MS {
        ESTIMATE_MIN_MS
    } else if mid > ESTIMATE_MAX_MS {
        ESTIMATE_MAX_MS
    } else {
        mid
    }
}

/// The speed of each bucket, the newest last.
fn bucket_speeds(calls: &[Call], now: i64) -> (r: Vec<Rate>)
    ensures
        r@.len() == SPARK_BUCKETS,
        forall|i: int|
            0 <= i < SPARK_BUCKETS ==> #[trigger] r@[i] == speed_where(
                settle::calls_view(calls@),
                in_bucket(now, SPARK_BUCKETS - 1 - i),
            ),
{
    let ghost cv = settle::calls_view(calls@);
    let mut acc: Vec<Rate> = Vec::new();
    for i in 0..SPARK_BUCKETS
        invariant
            acc@.len() == i,
            forall|k: int| 0 <= k < i ==> #[trigger] acc@[k] == Rate::none(),
    {
        acc.push(Rate::zero());
    }
    let now_slot: i64 = clock::floor_div(now, SPARK_BUCKET_MS);
    assert(cv.take(0) =~= Seq::empty());
    for i in 0..calls.len()
        invariant
            cv == settle::calls_view(calls@),
            now_slot == now as int / SPARK_BUCKET_MS as int,
            acc@.len() == SPARK_BUCKETS,
            forall|k: int|
                0 <= k < SPARK_BUCKETS ==> #[trigger] acc@[k] == speed_where(
                    cv.take(i as int),
                    in_bucket(now, SPARK_BUCKETS - 1 - k),
                ),
    {
        let ghost before = acc@;
        let c: &Call = &calls[i];
        proof {
            assert(cv.take(i + 1).drop_last() =~= cv.take(i as int));
            assert(cv[i as int] == c@);
        }
        let back: i128 = now_slot as i128 - clock::floor_div(c.completed_ms, SPARK_BUCKET_MS) as i128;
        if back >= 0 && back < SPARK_BUCKETS as i128 {
            let at: usize = SPARK_BUCKETS - 1 - back as usize;
            let cur: Rate = acc[at];
            acc.set(
                at,
                Rate {
                    tokens: cur.tokens.saturating_add(c.effective_out()),
                    ms: cur.ms.saturating_add(c.generation()),
                },
            );
        }
        proof {
            assert forall|k: int| 0 <= k < SPARK_BUCKETS implies #[trigger] acc@[k] == speed_where(
                cv.take(i + 1),
                in_bucket(now, SPARK_BUCKETS - 1 - k),
            ) by {
                let cond = in_bucket(now, SPARK_BUCKETS - 1 - k);
                assert(before[k] == speed_where(cv.take(i as int), cond));
                lemma_where_nonneg(cv.take(i as int), cond);
            }
        }
    }
    assert(cv.take(cv.len() as int) =~= cv);
    acc
}

impl Aggregator {
    /// No calls yet today.
    pub fn new() -> (r: Self)
        ensures
            r.calls@.len() == 0,
            clock::is_date(r.today_ymd),
    {
        Aggregator { calls: Vec::new(), today_ymd: clock::local_today() }
    }

    /// Takes in a call.
    pub fn ingest(&mut self, call: Call)
        ensures
            final(self).calls@ == old(self).calls@.push(call),
            final(self).today_ymd == old(self).today_ymd,
    {
        self.calls.push(call);
    }

    /// Starts over if the date is another one. Gives whether it is.
    pub fn rollover_to(&mut self, ymd: (i32, u32, u32)) -> (r: bool)
        ensures
            r == (ymd != old(self).today_ymd),
            final(self).today_ymd == ymd,
            final(self).calls@ == (if r {
                Seq::<Call>::empty()
            } else {
                old(self).calls@
            }),
    {
        if ymd.0 != self.today_ymd.0 || ymd.1 != self.today_ymd.1 || ymd.2 != self.today_ymd.2 {
            self.today_ymd = ymd;
            self.calls.clear();
            true
        } else {
            false
        }
    }

    /// Starts over if it is another day than before. Gives whether it is. The date afterwards
    /// is that of the calendar, whatever stood there before.
    pub fn rollover_if_needed(&mut self) -> (r: bool)
        ensures
            clock::is_date(final(self).today_ymd),
            r == (final(self).today_ymd != old(self).today_ymd),
            final(self).calls@ == (if r {
                Seq::<Call>::empty()
            } else {
                old(self).calls@
            }),
    {
        self.rollover_to(clock::local_today())
    }

    /// The calls.
    pub fn calls(&self) -> (r: &[Call])
        ensures
            r@ == self.calls@,
    {
        self.calls.as_slice()
    }

    /// The figures of today at a moment.
    pub fn snapshot_at(&self, now: i64) -> (r: Snapshot)
        ensures
            figures_match(r, settle::calls_view(self.calls@), now),
            rest_blank(r),
    {
        let ghost cv = settle::calls_view(self.calls@);
        let t = total_up(&self.calls, now);
        let last = find_latest(&self.calls);
        let grace_ms: i64 = estimate_grace(&self.calls);
        let sessions: usize = count_sessions(&self.calls);
        proof {
            lemma_gen_positive(cv, recent(now));
        }
        let recent_speed = Rate { tokens: t.recent_eff, ms: t.recent_gen };
        let (last_completed, last_call_tps): (i64, Rate) = match last {
            Some(i) => (
                self.calls[i].completed_ms,
                Rate { tokens: self.calls[i].effective_out(), ms: self.calls[i].generation() },
            ),
            None => (0, Rate::zero()),
        };
        let is_estimating = last_completed > 0 && now as i128 - last_completed as i128
            <= grace_ms as i128 && t.recent_gen > 0;
        assert(is_estimating == estimating(cv, now));
        let mut spark = bucket_speeds(&self.calls, now);
        if is_estimating {
            let newest: Rate = spark[SPARK_BUCKETS - 1];
            if !newest.is_positive() {
                spark.set(SPARK_BUCKETS - 1, recent_speed);
            }
        }
        assert(spark@ =~= spark_of(cv, now));
        let all_tokens: u64 = t.output.saturating_add(t.reasoning).saturating_add(
            t.input,
        ).saturating_add(t.cache_creation);
        Snapshot {
            current_tps: if is_estimating {
                recent_speed
            } else {
                Rate::zero()
            },
            avg_tps: Rate { tokens: t.output.saturating_add(t.reasoning), ms: t.gen },
            total_tokens: all_tokens,
            output_tokens: t.output,
            reasoning_tokens: t.reasoning,
            input_tokens: t.input,
            cache_creation_tokens: t.cache_creation,
            cache_read_tokens: t.cache_read,
            calls_today: self.calls.len() as u64,
            sessions_today: sessions as u64,
            is_live: false,
            is_estimating,
            ramping: false,
            is_starting: false,
            window_tps: recent_speed,
            last_call_tps,
            hist_max_tps: Rate::zero(),
            hist_avg_tps: Rate::zero(),
            live_source: if is_estimating {
                "window".to_owned()
            } else {
                "idle".to_owned()
            },
            last_activity_ms: last_completed,
            now_ms: now,
            rollout_dir: String::new(),
            spark,
            tasks: Vec::new(),
            net: NetFigures::none(),
        }
    }

    /// The figures of today now.
    pub fn snapshot(&self) -> (r: Snapshot)
        ensures
            figures_match(r, settle::calls_view(self.calls@), r.now_ms),
            rest_blank(r),
            0 <= r.now_ms <= stream::CLOCK_LIMIT,
    {
        self.snapshot_at(clock::now_ms())
    }
}

/// The latest call is the one with the latest end, wherever it stands in the list.
pub proof fn law_latest_is_the_last_completed(calls: Seq<CallView>)
    ensures
        match latest(calls) {
            Some(c) => calls.contains(c) && c.completed_ms >= 0 && forall|i: int|
                0 <= i < calls.len() ==> (#[trigger] calls[i]).completed_ms <= c.completed_ms,
            None => forall|i: int|
                0 <= i < calls.len() ==> (#[trigger] calls[i]).completed_ms < 0,
        },
    decreases calls.len(),
{
    if calls.len() > 0 {
        let d = calls.drop_last();
        law_latest_is_the_last_completed(d);
        assert forall|i: int| 0 <= i < calls.len() - 1 implies calls[i] == #[trigger] d[i] by {}
        match latest(d) {
            Some(c) => {
                let k = choose|k: int| 0 <= k < d.len() && d[k] == c;
                assert(calls[k] == c);
            },
            None => {},
        }
        assert(calls[calls.len() - 1] == calls.last());
        assert forall|i: int| 0 <= i < calls.len() implies match latest(calls) {
            Some(c) => (#[trigger] calls[i]).completed_ms <= c.completed_ms,
            None => calls[i].completed_ms < 0,
        } by {
            if i < d.len() {
                assert(d[i] == calls[i]);
            }
        }
    }
}

/// The latest call is what the figures show of it, wherever it stands in the list.
pub proof fn law_latest_call_is_shown(s: Snapshot, calls: Seq<CallView>, now: i64, k: int)
    requires
        figures_match(s, calls, now),
        0 <= k < calls.len(),
        calls[k].completed_ms >= 0,
        forall|i: int|
            0 <= i < calls.len() && i != k ==> (#[trigger] calls[i]).completed_ms
                < calls[k].completed_ms,
    ensures
        s.last_activity_ms == calls[k].completed_ms,
        s.last_call_tps == (Rate { tokens: calls[k].eff(), ms: calls[k].gen() }),
{
    law_latest_is_the_last_completed(calls);
    let c = latest(calls)->0;
    let i = choose|i: int| 0 <= i < calls.len() && calls[i] == c;
    assert(calls[i].completed_ms == c.completed_ms);
}

proof fn lemma_sum_without(calls: Seq<CallView>, f: spec_fn(CallView) -> int, k: int)
    requires
        0 <= k < calls.len(),
    ensures
        sum_of(calls, f) == sum_of(calls.remove(k), f) + f(calls[k]),
    decreases calls.len(),
{
    let d = calls.drop_last();
    if k == calls.len() - 1 {
        assert(calls.remove(k) =~= d);
    } else {
        lemma_sum_without(d, f, k);
        assert(calls.remove(k).drop_last() =~= d.remove(k));
        assert(calls.remove(k).last() == calls.last());
        assert(d[k] == calls[k]);
    }
}

/// Taking the last of some calls out of a rearrangement of them rearranges the others.
proof fn lemma_rearranged(a: Seq<CallView>, b: Seq<CallView>) -> (k: int)
    requires
        a.to_multiset() == b.to_multiset(),
        a.len() > 0,
    ensures
        a.len() == b.len(),
        0 <= k < b.len(),
        b[k] == a.last(),
        a.drop_last().to_multiset() == b.remove(k).to_multiset(),
{
    broadcast use vstd::seq_lib::group_to_multiset_ensures;

    assert(a.contains(a.last())) by {
        assert(a[a.len() - 1] == a.last());
    }
    vstd::seq_lib::to_multiset_len(a);
    vstd::seq_lib::to_multiset_len(b);
    assert(b.to_multiset().count(a.last()) > 0);
    let k = choose|k: int| 0 <= k < b.len() && b[k] == a.last();
    assert(a.remove(a.len() - 1) =~= a.drop_last());
    assert(a.drop_last().to_multiset() == a.to_multiset().remove(a.last()));
    k
}

proof fn lemma_sum_rearranged(
    a: Seq<CallView>,
    b: Seq<CallView>,
    f: spec_fn(CallView) -> int,
)
    requires
        a.to_multiset() == b.to_multiset(),
    ensures
        sum_of(a, f) == sum_of(b, f),
    decreases a.len(),
{
    broadcast use vstd::seq_lib::group_to_multiset_ensures;

    vstd::seq_lib::to_multiset_len(a);
    vstd::seq_lib::to_multiset_len(b);
    if a.len() > 0 {
        let k = lemma_rearranged(a, b);
        lemma_sum_rearranged(a.drop_last(), b.remove(k), f);
        lemma_sum_without(b, f, k);
    }
}

proof fn lemma_speed_rearranged(
    a: Seq<CallView>,
    b: Seq<CallView>,
    cond: spec_fn(CallView) -> bool,
)
    requires
        a.to_multiset() == b.to_multiset(),
    ensures
        eff_where(a, cond) == eff_where(b, cond),
        gen_where(a, cond) == gen_where(b, cond),
{
    lemma_sum_rearranged(
        a,
        b,
        |c: CallView|
            if cond(c) {
                c.eff() as int
            } else {
                0
            },
    );
    lemma_sum_rearranged(
        a,
        b,
        |c: CallView|
            if cond(c) {
                c.gen() as int
            } else {
                0
            },
    );
}

proof fn lemma_times_rearranged(a: Seq<CallView>, b: Seq<CallView>)
    requires
        a.to_multiset() == b.to_multiset(),
    ensures
        a.map_values(|c: CallView| c.completed_ms).to_multiset() == b.map_values(
            |c: CallView| c.completed_ms,
        ).to_multiset(),
    decreases a.len(),
{
    broadcast use vstd::seq_lib::group_to_multiset_ensures;

    let f = |c: CallView| c.completed_ms;
    vstd::seq_lib::to_multiset_len(a);
    vstd::seq_lib::to_multiset_len(b);
    if a.len() > 0 {
        let k = lemma_rearranged(a, b);
        lemma_times_rearranged(a.drop_last(), b.remove(k));
        let x = a.map_values(f);
        let y = b.map_values(f);
        assert(x.drop_last() =~= a.drop_last().map_values(f));
        assert(y.remove(k) =~= b.remove(k).map_values(f));
        assert(x =~= x.drop_last().push(x.last()));
        assert(y.remove(k).insert(k, y[k]) =~= y);
        vstd::seq_lib::to_multiset_insert(y.remove(k), k, y[k]);
    } else {
        assert(a =~= b);
    }
}

proof fn lemma_completions_rearranged(a: Seq<CallView>, b: Seq<CallView>)
    requires
        a.to_multiset() == b.to_multiset(),
    ensures
        completions(a) == completions(b),
{
    let f = |c: CallView| c.completed_ms;
    lemma_times_rearranged(a, b);
    order::law_ranked_is_sorted_permutation(a.map_values(f));
    order::law_ranked_is_sorted_permutation(b.map_values(f));
    let x = completions(a);
    let y = completions(b);
    let leq = |s: i64, t: i64| s <= t;
    assert forall|i: int, j: int| 0 <= i < j < x.len() implies #[trigger] leq(x[i], x[j]) by {
        assert(!x[j].before(x[i]));
    }
    assert forall|i: int, j: int| 0 <= i < j < y.len() implies #[trigger] leq(y[i], y[j]) by {
        assert(!y[j].before(y[i]));
    }
    vstd::seq_lib::lemma_sorted_unique(x, y, leq);
}

proof fn lemma_sessions(calls: Seq<CallView>, name: Seq<char>)
    ensures
        sessions_of(calls).contains_key(name) <==> name.len() > 0 && exists|i: int|
            0 <= i < calls.len() && (#[trigger] calls[i]).session == name,
    decreases calls.len(),
{
    if calls.len() > 0 {
        let d = calls.drop_last();
        lemma_sessions(d, name);
        assert(calls[calls.len() - 1] == calls.last());
        if exists|i: int| 0 <= i < d.len() && (#[trigger] d[i]).session == name {
            let i = choose|i: int| 0 <= i < d.len() && (#[trigger] d[i]).session == name;
            assert(calls[i].session == name);
        }
        if exists|i: int| 0 <= i < calls.len() && (#[trigger] calls[i]).session == name {
            let i = choose|i: int| 0 <= i < calls.len() && (#[trigger] calls[i]).session == name;
            if i < d.len() {
                assert(d[i].session == name);
            }
        }
    }
}

proof fn lemma_session_moves(a: Seq<CallView>, b: Seq<CallView>, name: Seq<char>)
    requires
        a.to_multiset() == b.to_multiset(),
        sessions_of(a).contains_key(name),
    ensures
        sessions_of(b).contains_key(name),
{
    broadcast use vstd::seq_lib::group_to_multiset_ensures;

    lemma_sessions(a, name);
    lemma_sessions(b, name);
    let i = choose|i: int| 0 <= i < a.len() && (#[trigger] a[i]).session == name;
    assert(a.contains(a[i]));
    assert(a.to_multiset().count(a[i]) > 0);
    assert(b.contains(a[i]));
    let j = choose|j: int| 0 <= j < b.len() && b[j] == a[i];
    assert(b[j].session == name);
}

proof fn lemma_sessions_rearranged(a: Seq<CallView>, b: Seq<CallView>)
    requires
        a.to_multiset() == b.to_multiset(),
    ensures
        sessions_of(a) == sessions_of(b),
{
    assert forall|name: Seq<char>| sessions_of(a).contains_key(name) == #[trigger] sessions_of(
        b,
    ).contains_key(name) by {
        if sessions_of(a).contains_key(name) {
            lemma_session_moves(a, b, name);
        }
        if sessions_of(b).contains_key(name) {
            lemma_session_moves(b, a, name);
        }
    }
    assert(sessions_of(a) =~= sessions_of(b));
}

/// Calls that were completed at the same time as the latest one have its tokens and its
/// generation time. So it is where no two calls were completed at the same time.
pub open spec fn latest_is_clear(calls: Seq<CallView>) -> bool {
    latest(calls) matches Some(c) ==> forall|i: int|
        0 <= i < calls.len() && (#[trigger] calls[i]).completed_ms == c.completed_ms
            ==> calls[i].eff() == c.eff() && calls[i].gen() == c.gen()
}

/// Where no two calls were completed at the same time, it is clear which one is the latest.
pub proof fn law_distinct_times_tell_the_latest(calls: Seq<CallView>)
    requires
        forall|i: int, j: int|
            0 <= i < j < calls.len() ==> (#[trigger] calls[i]).completed_ms != (
            #[trigger] calls[j]).completed_ms,
    ensures
        latest_is_clear(calls),
{
    law_latest_is_the_last_completed(calls);
    if latest(calls) is Some {
        let c = latest(calls)->0;
        let k = choose|k: int| 0 <= k < calls.len() && calls[k] == c;
        assert forall|i: int|
            0 <= i < calls.len() && (#[trigger] calls[i]).completed_ms
                == c.completed_ms implies calls[i].eff() == c.eff() && calls[i].gen() == c.gen() by {
            assert(calls[k].completed_ms == c.completed_ms);
        }
    }
}

proof fn lemma_latest_rearranged(a: Seq<CallView>, b: Seq<CallView>)
    requires
        a.to_multiset() == b.to_multiset(),
        latest_is_clear(a),
    ensures
        match latest(a) {
            Some(c) => latest(b) matches Some(d) && d.completed_ms == c.completed_ms && d.eff()
                == c.eff() && d.gen() == c.gen(),
            None => latest(b) is None,
        },
{
    broadcast use vstd::seq_lib::group_to_multiset_ensures;

    law_latest_is_the_last_completed(a);
    law_latest_is_the_last_completed(b);
    if latest(a) is Some {
        let c = latest(a)->0;
        assert(a.to_multiset().count(c) > 0);
        assert(b.contains(c));
        let j = choose|j: int| 0 <= j < b.len() && b[j] == c;
        assert(b[j].completed_ms >= 0);
    }
    if latest(b) is Some {
        let d = latest(b)->0;
        assert(b.to_multiset().count(d) > 0);
        assert(a.contains(d));
        let i = choose|i: int| 0 <= i < a.len() && a[i] == d;
        assert(a[i].completed_ms >= 0);
    }
}

/// The figures do not depend on the order in which the calls were read: what matches some
/// calls matches every rearrangement of them. It has to be clear which call is the latest: of
/// several that were completed at once, the figures show the last one read.
pub proof fn law_order_of_calls_does_not_matter(
    s: Snapshot,
    a: Seq<CallView>,
    b: Seq<CallView>,
    now: i64,
)
    requires
        a.to_multiset() == b.to_multiset(),
        latest_is_clear(a),
    ensures
        figures_match(s, a, now) == figures_match(s, b, now),
{
    broadcast use vstd::seq_lib::group_to_multiset_ensures;

    vstd::seq_lib::to_multiset_len(a);
    vstd::seq_lib::to_multiset_len(b);
    lemma_sum_rearranged(a, b, |c: CallView| c.output as int);
    lemma_sum_rearranged(a, b, |c: CallView| c.reasoning as int);
    lemma_sum_rearranged(a, b, |c: CallView| c.input as int);
    lemma_sum_rearranged(a, b, |c: CallView| c.cache_creation as int);
    lemma_sum_rearranged(a, b, |c: CallView| c.cache_read as int);
    lemma_speed_rearranged(a, b, any_call());
    lemma_speed_rearranged(a, b, recent(now));
    lemma_sessions_rearranged(a, b);
    lemma_completions_rearranged(a, b);
    lemma_latest_rearranged(a, b);
    assert(estimating(a, now) == estimating(b, now));
    assert(spark_of(a, now) =~= spark_of(b, now)) by {
        assert forall|i: int| 0 <= i < SPARK_BUCKETS implies #[trigger] spark_of(a, now)[i]
            == spark_of(b, now)[i] by {
            lemma_speed_rearranged(a, b, in_bucket(now, SPARK_BUCKETS - 1 - i));
        }
    }
}

/// Two snapshots show the same, in every field.
pub open spec fn same_shown(s: Snapshot, t: Snapshot) -> bool {
    &&& s.current_tps == t.current_tps && s.avg_tps == t.avg_tps
    &&& s.window_tps == t.window_tps && s.last_call_tps == t.last_call_tps
    &&& s.hist_max_tps == t.hist_max_tps && s.hist_avg_tps == t.hist_avg_tps
    &&& s.total_tokens == t.total_tokens && s.output_tokens == t.output_tokens
    &&& s.reasoning_tokens == t.reasoning_tokens && s.input_tokens == t.input_tokens
    &&& s.cache_creation_tokens == t.cache_creation_tokens
    &&& s.cache_read_tokens == t.cache_read_tokens
    &&& s.calls_today == t.calls_today && s.sessions_today == t.sessions_today
    &&& s.is_live == t.is_live && s.is_estimating == t.is_estimating
    &&& s.ramping == t.ramping && s.is_starting == t.is_starting
    &&& s.live_source@ == t.live_source@ && s.rollout_dir@ == t.rollout_dir@
    &&& s.last_activity_ms == t.last_activity_ms && s.now_ms == t.now_ms
    &&& s.spark@ == t.spark@ && s.tasks@ == t.tasks@ && s.net@ == t.net@
}

/// Two snapshots at the same moment, of the same calls in whatever order, show the same.
pub proof fn law_snapshots_of_the_same_calls_agree(
    s: Snapshot,
    t: Snapshot,
    a: Seq<CallView>,
    b: Seq<CallView>,
    now: i64,
)
    requires
        a.to_multiset() == b.to_multiset(),
        latest_is_clear(a),
        figures_match(s, a, now) && rest_blank(s),
        figures_match(t, b, now) && rest_blank(t),
    ensures
        same_shown(s, t),
{
    law_order_of_calls_does_not_matter(t, a, b, now);
    assert(s.tasks@ =~= t.tasks@);
}

/// The call with other tokens read from the prompt cache.
pub open spec fn with_cache_reads(c: CallView, n: u64) -> CallView {
    CallView { cache_read: n, ..c }
}

/// Calls that differ in nothing but the tokens that were read from the prompt cache.
pub open spec fn same_but_cache_reads(a: Seq<CallView>, b: Seq<CallView>) -> bool {
    &&& a.len() == b.len()
    &&& forall|i: int|
        0 <= i < a.len() ==> #[trigger] a[i] == with_cache_reads(b[i], a[i].cache_read)
}

proof fn lemma_alike_front(a: Seq<CallView>, b: Seq<CallView>)
    requires
        same_but_cache_reads(a, b),
        a.len() > 0,
    ensures
        same_but_cache_reads(a.drop_last(), b.drop_last()),
        a.last() == with_cache_reads(b.last(), a.last().cache_read),
{
    assert(a[a.len() - 1] == a.last());
    assert forall|i: int| 0 <= i < a.len() - 1 implies #[trigger] a.drop_last()[i]
        == with_cache_reads(b.drop_last()[i], a.drop_last()[i].cache_read) by {
        assert(a[i] == a.drop_last()[i]);
    }
}

proof fn lemma_sum_alike(a: Seq<CallView>, b: Seq<CallView>, f: spec_fn(CallView) -> int)
    requires
        same_but_cache_reads(a, b),
        forall|c: CallView, n: u64| f(#[trigger] with_cache_reads(c, n)) == f(c),
    ensures
        sum_of(a, f) == sum_of(b, f),
    decreases a.len(),
{
    if a.len() > 0 {
        lemma_alike_front(a, b);
        lemma_sum_alike(a.drop_last(), b.drop_last(), f);
    }
}

proof fn lemma_speed_alike(a: Seq<CallView>, b: Seq<CallView>, cond: spec_fn(CallView) -> bool)
    requires
        same_but_cache_reads(a, b),
        forall|c: CallView, n: u64| cond(#[trigger] with_cache_reads(c, n)) == cond(c),
    ensures
        eff_where(a, cond) == eff_where(b, cond),
        gen_where(a, cond) == gen_where(b, cond),
{
    lemma_sum_alike(
        a,
        b,
        |c: CallView|
            if cond(c) {
                c.eff() as int
            } else {
                0
            },
    );
    lemma_sum_alike(
        a,
        b,
        |c: CallView|
            if cond(c) {
                c.gen() as int
            } else {
                0
            },
    );
}

proof fn lemma_latest_alike(a: Seq<CallView>, b: Seq<CallView>)
    requires
        same_but_cache_reads(a, b),
    ensures
        sessions_of(a) == sessions_of(b),
        match latest(a) {
            Some(c) => latest(b) matches Some(d) && d.completed_ms == c.completed_ms && d.eff()
                == c.eff() && d.gen() == c.gen(),
            None => latest(b) is None,
        },
    decreases a.len(),
{
    if a.len() > 0 {
        lemma_alike_front(a, b);
        lemma_latest_alike(a.drop_last(), b.drop_last());
    }
}

/// Tokens that were read from the prompt cache enter no figure but their own.
pub proof fn law_cache_reads_count_apart(
    s: Snapshot,
    t: Snapshot,
    a: Seq<CallView>,
    b: Seq<CallView>,
    now: i64,
)
    requires
        same_but_cache_reads(a, b),
        figures_match(s, a, now) && rest_blank(s),
        figures_match(t, b, now) && rest_blank(t),
    ensures
        same_shown(Snapshot { cache_read_tokens: t.cache_read_tokens, ..s }, t),
{
    lemma_sum_alike(a, b, |c: CallView| c.output as int);
    lemma_sum_alike(a, b, |c: CallView| c.reasoning as int);
    lemma_sum_alike(a, b, |c: CallView| c.input as int);
    lemma_sum_alike(a, b, |c: CallView| c.cache_creation as int);
    lemma_speed_alike(a, b, any_call());
    lemma_speed_alike(a, b, recent(now));
    lemma_latest_alike(a, b);
    let f = |c: CallView| c.completed_ms;
    assert(a.map_values(f) =~= b.map_values(f));
    assert(estimating(a, now) == estimating(b, now));
    assert(spark_of(a, now) =~= spark_of(b, now)) by {
        assert forall|i: int| 0 <= i < SPARK_BUCKETS implies #[trigger] spark_of(a, now)[i]
            == spark_of(b, now)[i] by {
            lemma_speed_alike(a, b, in_bucket(now, SPARK_BUCKETS - 1 - i));
        }
    }
    assert(s.tasks@ =~= t.tasks@);
}

/// The gaps between successive times, without those of no length and without breaks of ten
/// minutes.
pub open spec fn working_gaps(t: Seq<i64>) -> Seq<int> {
    Seq::new((t.len() - 1) as nat, |i: int| t[i + 1] - t[i]).filter(|x: int| 0 < x < 600_000)
}

proof fn lemma_working_gaps(t: Seq<i64>)
    requires
        t.len() > 0,
    ensures
        working_gaps(t).len() == gaps(t).len(),
        forall|i: int| 0 <= i < gaps(t).len() ==> #[trigger] gaps(t)[i] == working_gaps(t)[i],
    decreases t.len(),
{
    reveal(Seq::filter);
    if t.len() >= 2 {
        let d = t.drop_last();
        let all = Seq::new((t.len() - 1) as nat, |i: int| t[i + 1] - t[i]);
        lemma_working_gaps(d);
        assert(all.drop_last() =~= Seq::new((d.len() - 1) as nat, |i: int| d[i + 1] - d[i]));
    }
}

proof fn lemma_same_matches(
    s: Seq<i64>,
    t: Seq<int>,
    p: spec_fn(i64) -> bool,
    q: spec_fn(int) -> bool,
)
    requires
        s.len() == t.len(),
        forall|i: int| 0 <= i < s.len() ==> #[trigger] s[i] == t[i],
        forall|x: i64| #[trigger] p(x) == q(x as int),
    ensures
        s.filter(p).len() == t.filter(q).len(),
    decreases s.len(),
{
    reveal(Seq::filter);
    if s.len() > 0 {
        let d = s.drop_last();
        let e = t.drop_last();
        assert forall|i: int| 0 <= i < d.len() implies #[trigger] d[i] == e[i] by {
            assert(s[i] == t[i]);
        }
        lemma_same_matches(d, e, p, q);
        assert(s[s.len() - 1] == t[t.len() - 1]);
        assert(p(s.last()) == q(s.last() as int));
    }
}

proof fn lemma_fewer_match(s: Seq<i64>, p: spec_fn(i64) -> bool, q: spec_fn(i64) -> bool)
    requires
        forall|x: i64| #[trigger] p(x) ==> q(x),
    ensures
        s.filter(p).len() <= s.filter(q).len(),
    decreases s.len(),
{
    reveal(Seq::filter);
    if s.len() > 0 {
        lemma_fewer_match(s.drop_last(), p, q);
    }
}

proof fn lemma_generated(calls: Seq<CallView>, cond: spec_fn(CallView) -> bool)
    ensures
        gen_where(calls, cond) > 0 <==> exists|i: int|
            0 <= i < calls.len() && cond(#[trigger] calls[i]),
    decreases calls.len(),
{
    if calls.len() > 0 {
        let d = calls.drop_last();
        lemma_generated(d, cond);
        lemma_where_nonneg(d, cond);
        assert(calls[calls.len() - 1] == calls.last());
        if exists|i: int| 0 <= i < d.len() && cond(#[trigger] d[i]) {
            let i = choose|i: int| 0 <= i < d.len() && cond(#[trigger] d[i]);
            assert(cond(calls[i]));
        }
        if exists|i: int| 0 <= i < calls.len() && cond(#[trigger] calls[i]) {
            let i = choose|i: int| 0 <= i < calls.len() && cond(#[trigger] calls[i]);
            if i < d.len() {
                assert(cond(d[i]));
            }
        }
    }
}

/// The times are those at which the calls were completed, ascending.
pub open spec fn times_of(t: Seq<i64>, calls: Seq<CallView>) -> bool {
    &&& forall|i: int, j: int| 0 <= i < j < t.len() ==> #[trigger] t[i] <= #[trigger] t[j]
    &&& t.to_multiset() == calls.map_values(|c: CallView| c.completed_ms).to_multiset()
}

proof fn lemma_times_of(t: Seq<i64>, calls: Seq<CallView>)
    requires
        times_of(t, calls),
    ensures
        completions(calls) == t,
        t.len() == calls.len(),
        t.len() > 0 && t.last() >= 0 ==> latest(calls) is Some && latest(calls)->0.completed_ms
            == t.last(),
        t.len() > 0 && t.last() < 0 ==> latest(calls) is None,
{
    let f = |c: CallView| c.completed_ms;
    let m = calls.map_values(f);
    order::law_ranked_is_sorted_permutation(m);
    let x = completions(calls);
    let leq = |s: i64, t: i64| s <= t;
    assert forall|i: int, j: int| 0 <= i < j < x.len() implies #[trigger] leq(x[i], x[j]) by {
        assert(!x[j].before(x[i]));
    }
    assert forall|i: int, j: int| 0 <= i < j < t.len() implies #[trigger] leq(t[i], t[j]) by {
        assert(t[i] <= t[j]);
    }
    vstd::seq_lib::lemma_sorted_unique(x, t, leq);
    law_latest_is_the_last_completed(calls);
    if t.len() > 0 {
        order::lemma_ranked_members(m, t.len() - 1);
        let k = choose|k: int| 0 <= k < m.len() && m[k] == t.last();
        assert(calls[k].completed_ms == t.last());
        match latest(calls) {
            Some(c) => {
                broadcast use vstd::seq_lib::group_to_multiset_ensures;

                let i = choose|i: int| 0 <= i < calls.len() && calls[i] == c;
                assert(m[i] == c.completed_ms);
                assert(m.contains(m[i]));
                assert(m.to_multiset().count(m[i]) > 0);
                assert(t.contains(m[i]));
                let j = choose|j: int| 0 <= j < t.len() && t[j] == m[i];
                if j < t.len() - 1 {
                    assert(t[j] <= t[t.len() - 1]);
                }
            },
            None => {},
        }
    }
}

/// While a call is taken to be generating, the speed is that of the last ten minutes; else
/// there is none. For how long that is after the last completion goes by the gaps between
/// completions: where more than half of the latest ten are at least so long, for at least so
/// long, and where more than half are at most so long, for no longer; never for less than
/// twenty seconds or for more than four minutes, and for a minute while there are fewer than
/// three gaps.
pub proof fn law_estimate_goes_by_the_middle_gap(
    s: Snapshot,
    calls: Seq<CallView>,
    now: i64,
    t: Seq<i64>,
    d: int,
)
    requires
        figures_match(s, calls, now),
        times_of(t, calls),
        t.len() > 0,
    ensures
        ({
            let all = working_gaps(t);
            let g = if all.len() <= 10 {
                all
            } else {
                all.skip(all.len() - 10)
            };
            let age = now - t.last();
            &&& s.is_estimating ==> s.current_tps == s.window_tps && s.live_source@ == "window"@
            &&& !s.is_estimating ==> s.current_tps == Rate::none() && s.live_source@ == "idle"@
            &&& s.is_estimating ==> t.last() > 0 && age <= 240_000
            &&& t.last() > 0 && age <= 20_000 ==> s.is_estimating
            &&& all.len() < 3 ==> (s.is_estimating <==> t.last() > 0 && age <= 60_000)
            &&& all.len() >= 3 && 20_000 <= d <= 240_000 && 2 * g.filter(|x: int| x >= d).len()
                > g.len() && t.last() > 0 && age <= d ==> s.is_estimating
            &&& all.len() >= 3 && 20_000 <= d <= 240_000 && 2 * g.filter(|x: int| x <= d).len()
                > g.len() && age > d ==> !s.is_estimating
        }),
{
    lemma_times_of(t, calls);
    lemma_working_gaps(t);
    lemma_generated(calls, recent(now));
    let age = now - t.last();
    if t.last() > 0 && age <= 600_000 {
        let c = latest(calls)->0;
        law_latest_is_the_last_completed(calls);
        let i = choose|i: int| 0 <= i < calls.len() && calls[i] == c;
        assert(recent(now)(calls[i]));
    }
    let all = working_gaps(t);
    let g = if all.len() <= 10 {
        all
    } else {
        all.skip(all.len() - 10)
    };
    if all.len() >= 3 {
        let tail = calibration::newest(gaps(t), GAP_WINDOW as nat);
        let n = tail.len() as int;
        assert forall|i: int| 0 <= i < tail.len() implies #[trigger] tail[i] == g[i] by {
            assert(tail[i] == gaps(t)[i + gaps(t).len() - tail.len()]);
        }
        let m = order::ranked(tail)[n / 2];
        order::law_place_in_the_ranking(tail, n / 2);
        assert((|y: i64| order::Ordered::before(y, order::ranked(tail)[n / 2])) =~= (|y: i64| y < m));
        assert((|y: i64| order::Ordered::before(order::ranked(tail)[n / 2], y)) =~= (|y: i64| y > m));
        let ge = |x: i64| x >= d;
        let le = |x: i64| x <= d;
        lemma_same_matches(tail, g, ge, |x: int| x >= d);
        lemma_same_matches(tail, g, le, |x: int| x <= d);
        if m < d {
            lemma_fewer_match(tail, ge, |y: i64| y > m);
        }
        if m > d {
            lemma_fewer_match(tail, le, |y: i64| y < m);
        }
    }
}

proof fn lemma_sum_is_fold(calls: Seq<CallView>, f: spec_fn(CallView) -> int)
    ensures
        sum_of(calls, f) == calls.fold_left(0int, |a: int, c: CallView| a + f(c)),
    decreases calls.len(),
{
    if calls.len() > 0 {
        lemma_sum_is_fold(calls.drop_last(), f);
    }
}

proof fn lemma_sum_of_some(
    calls: Seq<CallView>,
    f: spec_fn(CallView) -> int,
    cond: spec_fn(CallView) -> bool,
)
    ensures
        sum_of(
            calls,
            |c: CallView|
                if cond(c) {
                    f(c)
                } else {
                    0
                },
        ) == sum_of(calls.filter(cond), f),
    decreases calls.len(),
{
    reveal(Seq::filter);
    if calls.len() > 0 {
        let d = calls.drop_last();
        lemma_sum_of_some(d, f, cond);
        if cond(calls.last()) {
            assert(d.filter(cond).push(calls.last()).drop_last() =~= d.filter(cond));
        }
    }
}

/// The tokens of calls added up.
pub open spec fn tokens_added(calls: Seq<CallView>) -> int {
    calls.fold_left(
        0int,
        |a: int, c: CallView|
            a + (if c.output + c.reasoning <= u64::MAX {
                c.output + c.reasoning
            } else {
                u64::MAX as int
            }),
    )
}

/// The times for which calls generated added up, at least fifty milliseconds for each.
pub open spec fn time_added(calls: Seq<CallView>) -> int {
    calls.fold_left(
        0int,
        |a: int, c: CallView|
            a + (if c.gen_ms >= 50 {
                c.gen_ms as int
            } else {
                50
            }),
    )
}

proof fn lemma_speed_of_some(calls: Seq<CallView>, cond: spec_fn(CallView) -> bool)
    ensures
        eff_where(calls, cond) == tokens_added(calls.filter(cond)),
        gen_where(calls, cond) == time_added(calls.filter(cond)),
{
    let f = |c: CallView| c.eff() as int;
    let g = |c: CallView| c.gen() as int;
    lemma_sum_of_some(calls, f, cond);
    lemma_sum_of_some(calls, g, cond);
    let some = calls.filter(cond);
    lemma_sum_is_fold(some, f);
    lemma_sum_is_fold(some, g);
    assert((|c: CallView|
        if cond(c) {
            f(c)
        } else {
            0
        }) =~= (|c: CallView|
        if cond(c) {
            c.eff() as int
        } else {
            0
        }));
    assert((|c: CallView|
        if cond(c) {
            g(c)
        } else {
            0
        }) =~= (|c: CallView|
        if cond(c) {
            c.gen() as int
        } else {
            0
        }));
    assert((|a: int, c: CallView| a + f(c)) =~= (|a: int, c: CallView|
        a + (if c.output + c.reasoning <= u64::MAX {
            c.output + c.reasoning
        } else {
            u64::MAX as int
        })));
    assert((|a: int, c: CallView| a + g(c)) =~= (|a: int, c: CallView|
        a + (if c.gen_ms >= 50 {
            c.gen_ms as int
        } else {
            50
        })));
}

/// The figures are sums over the calls: each total is that of its own tokens, the average is
/// all tokens over all generation time, the recent speed that of the calls that were completed
/// in the last ten minutes, and each value of the curve that of the calls of its ten seconds,
/// but for an empty newest one while a call is taken to be generating.
pub proof fn law_figures_are_sums(s: Snapshot, calls: Seq<CallView>, now: i64)
    requires
        figures_match(s, calls, now),
    ensures
        s.calls_today == calls.len(),
        s.output_tokens == rate::clip(
            calls.fold_left(0int, |a: int, c: CallView| a + c.output),
        ),
        s.reasoning_tokens == rate::clip(
            calls.fold_left(0int, |a: int, c: CallView| a + c.reasoning),
        ),
        s.input_tokens == rate::clip(calls.fold_left(0int, |a: int, c: CallView| a + c.input)),
        s.cache_creation_tokens == rate::clip(
            calls.fold_left(0int, |a: int, c: CallView| a + c.cache_creation),
        ),
        s.cache_read_tokens == rate::clip(
            calls.fold_left(0int, |a: int, c: CallView| a + c.cache_read),
        ),
        s.total_tokens == rate::clip(
            s.output_tokens + s.reasoning_tokens + s.input_tokens + s.cache_creation_tokens,
        ),
        s.avg_tps == (Rate {
            tokens: rate::clip(s.output_tokens + s.reasoning_tokens),
            ms: rate::clip(time_added(calls)),
        }),
        ({
            let recently = calls.filter(|c: CallView| c.completed_ms >= now - 600_000);
            s.window_tps == (Rate {
                tokens: rate::clip(tokens_added(recently)),
                ms: rate::clip(time_added(recently)),
            })
        }),
        s.spark@.len() == 90,
        forall|i: int|
            0 <= i < 90 && (i < 89 || !s.is_estimating) ==> {
                let then = calls.filter(
                    |c: CallView| now as int / 10_000 - c.completed_ms as int / 10_000 == 89 - i,
                );
                #[trigger] s.spark@[i] == (Rate {
                    tokens: rate::clip(tokens_added(then)),
                    ms: rate::clip(time_added(then)),
                })
            },
{
    lemma_sum_is_fold(calls, |c: CallView| c.output as int);
    lemma_sum_is_fold(calls, |c: CallView| c.reasoning as int);
    lemma_sum_is_fold(calls, |c: CallView| c.input as int);
    lemma_sum_is_fold(calls, |c: CallView| c.cache_creation as int);
    lemma_sum_is_fold(calls, |c: CallView| c.cache_read as int);
    assert(({
        let f = |c: CallView| c.output as int;
        |a: int, c: CallView| a + f(c)
    }) =~= (|a: int, c: CallView| a + c.output));
    assert(({
        let f = |c: CallView| c.reasoning as int;
        |a: int, c: CallView| a + f(c)
    }) =~= (|a: int, c: CallView| a + c.reasoning));
    assert(({
        let f = |c: CallView| c.input as int;
        |a: int, c: CallView| a + f(c)
    }) =~= (|a: int, c: CallView| a + c.input));
    assert(({
        let f = |c: CallView| c.cache_creation as int;
        |a: int, c: CallView| a + f(c)
    }) =~= (|a: int, c: CallView| a + c.cache_creation));
    assert(({
        let f = |c: CallView| c.cache_read as int;
        |a: int, c: CallView| a + f(c)
    }) =~= (|a: int, c: CallView| a + c.cache_read));
    lemma_speed_of_some(calls, any_call());
    lemma_all_match(calls, any_call());
    lemma_speed_of_some(calls, recent(now));
    assert(recent(now) =~= (|c: CallView| c.completed_ms >= now - 600_000));
    assert forall|i: int| 0 <= i < 90 && (i < 89 || !s.is_estimating) implies {
        let then = calls.filter(
            |c: CallView| now as int / 10_000 - c.completed_ms as int / 10_000 == 89 - i,
        );
        #[trigger] s.spark@[i] == (Rate {
            tokens: rate::clip(tokens_added(then)),
            ms: rate::clip(time_added(then)),
        })
    } by {
        lemma_speed_of_some(calls, in_bucket(now, 89 - i));
        assert(in_bucket(now, 89 - i) =~= (|c: CallView|
            now as int / 10_000 - c.completed_ms as int / 10_000 == 89 - i));
        assert(spark_of(calls, now)[i] == s.spark@[i]);
    }
}

proof fn lemma_all_match(calls: Seq<CallView>, cond: spec_fn(CallView) -> bool)
    requires
        forall|c: CallView| #[trigger] cond(c),
    ensures
        calls.filter(cond) == calls,
    decreases calls.len(),
{
    reveal(Seq::filter);
    if calls.len() > 0 {
        lemma_all_match(calls.drop_last(), cond);
        assert(calls.drop_last().push(calls.last()) =~= calls);
    }
}

/// The sessions of today are those that the calls name, each once; a call without a session
/// counts for none.
pub proof fn law_sessions_count_once(s: Snapshot, calls: Seq<CallView>, now: i64)
    requires
        figures_match(s, calls, now),
    ensures
        s.sessions_today == calls.map_values(|c: CallView| c.session).to_set().remove(
            Seq::<char>::empty(),
        ).len(),
{
    let names = calls.map_values(|c: CallView| c.session);
    assert forall|k: Seq<char>| #[trigger] sessions_of(calls).dom().contains(k)
        == names.to_set().remove(Seq::<char>::empty()).contains(k) by {
        lemma_sessions(calls, k);
        if k.len() == 0 {
            assert(k =~= Seq::<char>::empty());
        }
        if names.contains(k) {
            let i = choose|i: int| 0 <= i < names.len() && names[i] == k;
            assert(calls[i].session == k);
        }
        if exists|i: int| 0 <= i < calls.len() && (#[trigger] calls[i]).session == k {
            let i = choose|i: int| 0 <= i < calls.len() && (#[trigger] calls[i]).session == k;
            assert(names[i] == k);
        }
    }
    assert(sessions_of(calls).dom() =~= names.to_set().remove(Seq::<char>::empty()));
}

/// The buckets of the recent speed are fixed to the clock: as time passes they move along
/// as a whole, and while the clock stays within one bucket they do not change.
pub proof fn law_spark_moves_with_the_clock(calls: Seq<CallView>, now: i64, later: i64, back: int)
    ensures
        speed_where(
            calls,
            in_bucket(later, back + later as int / SPARK_BUCKET_MS as int - now as int
                / SPARK_BUCKET_MS as int),
        ) == speed_where(calls, in_bucket(now, back)),
{
    let a = in_bucket(later, back + later as int / SPARK_BUCKET_MS as int - now as int
        / SPARK_BUCKET_MS as int);
    let b = in_bucket(now, back);
    assert(a =~= b);
}

/// While a call is taken to be generating, the speed shown is that of the last ten minutes, and
/// so is the end of the curve where nothing was completed in its ten seconds; otherwise no speed
/// is shown.
pub proof fn law_estimate_is_the_recent_speed(s: Snapshot, calls: Seq<CallView>, now: i64)
    requires
        figures_match(s, calls, now),
    ensures
        s.is_estimating ==> s.current_tps == s.window_tps,
        !s.is_estimating ==> s.current_tps == Rate::none(),
        s.is_estimating ==> {
            let then = calls.filter(
                |c: CallView| now as int / 10_000 == c.completed_ms as int / 10_000,
            );
            s.spark@[89] == (if tokens_added(then) > 0 {
                Rate { tokens: rate::clip(tokens_added(then)), ms: rate::clip(time_added(then)) }
            } else {
                s.window_tps
            })
        },
{
    lemma_speed_of_some(calls, in_bucket(now, 0));
    assert(in_bucket(now, 0) =~= (|c: CallView|
        now as int / 10_000 == c.completed_ms as int / 10_000));
    let then = calls.filter(in_bucket(now, 0));
    lemma_added_nonneg(then);
}

proof fn lemma_added_nonneg(calls: Seq<CallView>)
    ensures
        tokens_added(calls) >= 0,
        time_added(calls) >= 50 * calls.len(),
    decreases calls.len(),
{
    if calls.len() > 0 {
        lemma_added_nonneg(calls.drop_last());
    } else {
        assert(calls =~= Seq::empty());
    }
}

} // verus!
