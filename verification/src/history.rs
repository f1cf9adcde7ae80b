//! Speeds of the last days.

use vstd::prelude::*;

use crate::call::MIN_DUR_MS;
use crate::rate;
use crate::rate::Rate;

verus! {

/// The shortest generation that can set a record.
pub const HIST_MAX_MIN_GEN_MS: i64 = 1_000;

/// The fewest tokens that can set a record.
pub const HIST_MAX_MIN_EFF: u64 = 300;

/// The calls of one local day.
#[derive(Clone, Copy, Debug, PartialEq, Eq, Structural)]
pub struct HistDay {
    /// When the day began.
    pub day_start: i64,
    /// Tokens of the calls.
    pub total_eff: u64,
    /// Milliseconds that they generated.
    pub total_gen_ms: u64,
    /// The fastest call that can set a record.
    pub max_tps: Rate,
}

/// The calls of the last days, by local day.
#[derive(Debug)]
pub struct HistoryStats {
    /// The days.
    pub days: Vec<HistDay>,
}

/// A day without calls.
pub open spec fn empty_day(day_start: i64) -> HistDay {
    HistDay { day_start, total_eff: 0, total_gen_ms: 0, max_tps: Rate::none() }
}

/// A call can set a record: its first token was really recorded, and it was neither too
/// short nor too small, for the times of such calls are too coarse.
pub open spec fn can_set_record(ft: Option<i64>, completed: i64, gen_ms: i64, eff: u64) -> bool {
    &&& ft matches Some(f) && completed > f
    &&& gen_ms >= HIST_MAX_MIN_GEN_MS
    &&& eff >= HIST_MAX_MIN_EFF
}

/// A day with one more call.
pub open spec fn with_call(
    day: HistDay,
    ft: Option<i64>,
    completed: i64,
    gen_ms: i64,
    eff: u64,
) -> HistDay {
    let speed = Rate { tokens: eff, ms: gen_ms as u64 };
    HistDay {
        day_start: day.day_start,
        total_eff: rate::clip(day.total_eff + eff),
        total_gen_ms: rate::clip(
            day.total_gen_ms + (if gen_ms >= MIN_DUR_MS {
                gen_ms
            } else {
                MIN_DUR_MS
            }),
        ),
        max_tps: if can_set_record(ft, completed, gen_ms, eff) && speed.faster(day.max_tps) {
            speed
        } else {
            day.max_tps
        },
    }
}

/// The place of a day.
pub open spec fn place_of(days: Seq<HistDay>, day_start: i64) -> Option<int>
    decreases days.len(),
{
    if days.len() == 0 {
        None
    } else {
        match place_of(days.drop_last(), day_start) {
            Some(i) => Some(i),
            None => if days.last().day_start == day_start {
                Some(days.len() - 1)
            } else {
                None
            },
        }
    }
}

/// The days with one more call, which goes to its day.
pub open spec fn folded(
    days: Seq<HistDay>,
    day_start: i64,
    ft: Option<i64>,
    completed: i64,
    gen_ms: i64,
    eff: u64,
) -> Seq<HistDay> {
    match place_of(days, day_start) {
        Some(i) => days.update(i, with_call(days[i], ft, completed, gen_ms, eff)),
        None => days.push(with_call(empty_day(day_start), ft, completed, gen_ms, eff)),
    }
}

/// The tokens of all days.
pub open spec fn eff_sum(days: Seq<HistDay>) -> int
    decreases days.len(),
{
    if days.len() == 0 {
        0
    } else {
        eff_sum(days.drop_last()) + days.last().total_eff
    }
}

/// The milliseconds of all days.
pub open spec fn gen_sum(days: Seq<HistDay>) -> int
    decreases days.len(),
{
    if days.len() == 0 {
        0
    } else {
        gen_sum(days.drop_last()) + days.last().total_gen_ms
    }
}

/// The fastest call of all days.
pub open spec fn fastest(days: Seq<HistDay>) -> Rate
    decreases days.len(),
{
    if days.len() == 0 {
        Rate::none()
    } else {
        let front = fastest(days.drop_last());
        if days.last().max_tps.faster(front) {
            days.last().max_tps
        } else {
            front
        }
    }
}

/// The days from a time on.
pub open spec fn days_from(days: Seq<HistDay>, cutoff: i64) -> Seq<HistDay> {
    days.filter(|d: HistDay| d.day_start >= cutoff)
}

proof fn lemma_sums_nonneg(days: Seq<HistDay>)
    ensures
        eff_sum(days) >= 0,
        gen_sum(days) >= 0,
    decreases days.len(),
{
    if days.len() > 0 {
        lemma_sums_nonneg(days.drop_last());
    }
}

proof fn lemma_place(days: Seq<HistDay>, day_start: i64)
    ensures
        match place_of(days, day_start) {
            Some(i) => 0 <= i < days.len() && days[i].day_start == day_start,
            None => forall|k: int|
                0 <= k < days.len() ==> (#[trigger] days[k]).day_start != day_start,
        },
    decreases days.len(),
{
    if days.len() > 0 {
        lemma_place(days.drop_last(), day_start);
        assert forall|k: int|
            place_of(days, day_start) is None && 0 <= k < days.len() implies (
        #[trigger] days[k]).day_start != day_start by {
            if k < days.len() - 1 {
                assert(days.drop_last()[k] == days[k]);
            }
        }
    }
}

impl Default for HistoryStats {
    fn default() -> (r: Self)
        ensures
            r.days@ == Seq::<HistDay>::empty(),
    {
        HistoryStats { days: Vec::new() }
    }
}

impl HistoryStats {
    /// No calls.
    pub fn new() -> (r: Self)
        ensures
            r.days@ == Seq::<HistDay>::empty(),
    {
        HistoryStats { days: Vec::new() }
    }

    /// Drops the days before a time.
    pub fn prune(&mut self, cutoff_day_start: i64)
        ensures
            final(self).days@ == days_from(old(self).days@, cutoff_day_start),
    {
        let ghost all = self.days@;
        let mut kept: Vec<HistDay> = Vec::new();
        proof {
            reveal(Seq::filter);
            assert(all.take(0) =~= Seq::empty());
        }
        for i in 0..self.days.len()
            invariant
                all == self.days@,
                kept@ == days_from(all.take(i as int), cutoff_day_start),
        {
            proof {
                reveal(Seq::filter);
                assert(all.take(i + 1).drop_last() =~= all.take(i as int));
            }
            let d: HistDay = self.days[i];
            if d.day_start >= cutoff_day_start {
                kept.push(d);
            }
        }
        assert(all.take(all.len() as int) =~= all);
        self.days = kept;
    }

    /// Takes in a call of the day that began then.
    pub fn fold(
        &mut self,
        day_start: i64,
        ft: Option<i64>,
        completed_ms: i64,
        gen_ms: i64,
        eff: u64,
    )
        ensures
            final(self).days@ == folded(
                old(self).days@,
                day_start,
                ft,
                completed_ms,
                gen_ms,
                eff,
            ),
    {
        let n: usize = self.days.len();
        let mut at: usize = n;
        let ghost all = self.days@;
        for i in 0..n
            invariant
                all == self.days@,
                n == all.len(),
                match place_of(all.take(i as int), day_start) {
                    Some(k) => at == k && at < i,
                    None => at == n,
                },
        {
            assert(all.take(i + 1).drop_last() =~= all.take(i as int));
            if at == n && self.days[i].day_start == day_start {
                at = i;
            }
        }
        assert(all.take(n as int) =~= all);
        let base: HistDay = if at < n {
            self.days[at]
        } else {
            HistDay { day_start, total_eff: 0, total_gen_ms: 0, max_tps: Rate::zero() }
        };
        let real_ft = match ft {
            Some(f) => completed_ms > f,
            None => false,
        };
        let mut best: Rate = base.max_tps;
        if real_ft && gen_ms >= HIST_MAX_MIN_GEN_MS && eff >= HIST_MAX_MIN_EFF {
            let speed = Rate { tokens: eff, ms: gen_ms as u64 };
            if speed.is_faster(&base.max_tps) {
                best = speed;
            }
        }
        let took: u64 = if gen_ms >= MIN_DUR_MS {
            gen_ms as u64
        } else {
            MIN_DUR_MS as u64
        };
        let day = HistDay {
            day_start: base.day_start,
            total_eff: base.total_eff.saturating_add(eff),
            total_gen_ms: base.total_gen_ms.saturating_add(took),
            max_tps: best,
        };
        if at < n {
            self.days.set(at, day);
        } else {
            self.days.push(day);
        }
    }

    /// The tokens of all days.
    pub fn total_eff(&self) -> (r: u64)
        ensures
            r == rate::clip(eff_sum(self.days@)),
    {
        let ghost all = self.days@;
        let mut sum: u64 = 0;
        assert(all.take(0) =~= Seq::empty());
        for i in 0..self.days.len()
            invariant
                all == self.days@,
                sum == rate::clip(eff_sum(all.take(i as int))),
        {
            proof {
                assert(all.take(i + 1).drop_last() =~= all.take(i as int));
                lemma_sums_nonneg(all.take(i as int));
            }
            sum = sum.saturating_add(self.days[i].total_eff);
        }
        assert(all.take(all.len() as int) =~= all);
        sum
    }

    /// The milliseconds of all days.
    pub fn total_gen_ms(&self) -> (r: u64)
        ensures
            r == rate::clip(gen_sum(self.days@)),
    {
        let ghost all = self.days@;
        let mut sum: u64 = 0;
        assert(all.take(0) =~= Seq::empty());
        for i in 0..self.days.len()
            invariant
                all == self.days@,
                sum == rate::clip(gen_sum(all.take(i as int))),
        {
            proof {
                assert(all.take(i + 1).drop_last() =~= all.take(i as int));
                lemma_sums_nonneg(all.take(i as int));
            }
            sum = sum.saturating_add(self.days[i].total_gen_ms);
        }
        assert(all.take(all.len() as int) =~= all);
        sum
    }

    /// The average speed: all tokens over all milliseconds.
    pub fn avg_tps(&self) -> (r: Rate)
        ensures
            r == (Rate {
                tokens: rate::clip(eff_sum(self.days@)),
                ms: rate::clip(gen_sum(self.days@)),
            }),
    {
        Rate { tokens: self.total_eff(), ms: self.total_gen_ms() }
    }

    /// The fastest call.
    pub fn max_tps(&self) -> (r: Rate)
        ensures
            r == fastest(self.days@),
    {
        let ghost all = self.days@;
        let mut best: Rate = Rate::zero();
        assert(all.take(0) =~= Seq::empty());
        for i in 0..self.days.len()
            invariant
                all == self.days@,
                best == fastest(all.take(i as int)),
        {
            assert(all.take(i + 1).drop_last() =~= all.take(i as int));
            if self.days[i].max_tps.is_faster(&best) {
                best = self.days[i].max_tps;
            }
        }
        assert(all.take(all.len() as int) =~= all);
        best
    }
}

proof fn lemma_eff_update(days: Seq<HistDay>, i: int, d: HistDay)
    requires
        0 <= i < days.len(),
    ensures
        eff_sum(days.update(i, d)) == eff_sum(days) - days[i].total_eff + d.total_eff,
        gen_sum(days.update(i, d)) == gen_sum(days) - days[i].total_gen_ms + d.total_gen_ms,
    decreases days.len(),
{
    if i == days.len() - 1 {
        assert(days.update(i, d).drop_last() =~= days.drop_last());
    } else {
        lemma_eff_update(days.drop_last(), i, d);
        assert(days.update(i, d).drop_last() =~= days.drop_last().update(i, d));
    }
}

/// Taking in a call adds its tokens and its time to the totals, whatever day it belongs to.
pub proof fn law_fold_adds_to_the_totals(
    days: Seq<HistDay>,
    day_start: i64,
    ft: Option<i64>,
    completed: i64,
    gen_ms: i64,
    eff: u64,
)
    requires
        eff_sum(days) + eff <= u64::MAX,
        gen_sum(days) + (if gen_ms >= MIN_DUR_MS {
            gen_ms
        } else {
            MIN_DUR_MS
        }) <= u64::MAX,
    ensures
        ({
            let after = folded(days, day_start, ft, completed, gen_ms, eff);
            &&& eff_sum(after) == eff_sum(days) + eff
            &&& gen_sum(after) == gen_sum(days) + (if gen_ms >= MIN_DUR_MS {
                gen_ms
            } else {
                MIN_DUR_MS
            })
        }),
{
    lemma_place(days, day_start);
    lemma_sums_nonneg(days);
    match place_of(days, day_start) {
        Some(i) => {
            lemma_member_sums(days, i);
            lemma_eff_update(days, i, with_call(days[i], ft, completed, gen_ms, eff));
        },
        None => {
            let d = with_call(empty_day(day_start), ft, completed, gen_ms, eff);
            assert(days.push(d).drop_last() =~= days);
        },
    }
}

proof fn lemma_member_sums(days: Seq<HistDay>, i: int)
    requires
        0 <= i < days.len(),
    ensures
        days[i].total_eff <= eff_sum(days),
        days[i].total_gen_ms <= gen_sum(days),
    decreases days.len(),
{
    lemma_sums_nonneg(days.drop_last());
    if i < days.len() - 1 {
        lemma_member_sums(days.drop_last(), i);
    }
}

/// The record is the speed of a call of one of the days, and no day has a faster one.
pub proof fn law_record_is_the_fastest(days: Seq<HistDay>)
    ensures
        forall|i: int| 0 <= i < days.len() ==> !(#[trigger] days[i]).max_tps.faster(fastest(days)),
        fastest(days) == Rate::none() || exists|i: int|
            0 <= i < days.len() && (#[trigger] days[i]).max_tps == fastest(days),
    decreases days.len(),
{
    if days.len() > 0 {
        let d = days.drop_last();
        law_record_is_the_fastest(d);
        let last = days.last().max_tps;
        let front = fastest(d);
        assert forall|i: int| 0 <= i < days.len() implies !(#[trigger] days[i]).max_tps.faster(
            fastest(days),
        ) by {
            rate::law_faster_is_an_order(last, front, front);
            if i < d.len() {
                assert(d[i] == days[i]);
                rate::law_faster_is_an_order(days[i].max_tps, front, last);
                rate::law_faster_is_an_order(last, front, last);
            }
        }
        if fastest(days) == last {
            assert(days[days.len() - 1].max_tps == last);
        } else if front != Rate::none() {
            let i = choose|i: int| 0 <= i < d.len() && (#[trigger] d[i]).max_tps == front;
            assert(days[i].max_tps == front);
        }
    }
}

/// A day that has left the window leaves no trace: pruning keeps exactly the days from the
/// cutoff on, so a record of a dropped day is gone with it.
pub proof fn law_prune_keeps_the_window(days: Seq<HistDay>, cutoff: i64)
    ensures
        forall|d: HistDay| #[trigger]
            days_from(days, cutoff).contains(d) <==> days.contains(d) && d.day_start >= cutoff,
{
    assert forall|d: HistDay| #[trigger] days_from(days, cutoff).contains(d) <==> days.contains(d)
        && d.day_start >= cutoff by {
        lemma_days_from(days, cutoff, d);
    }
}

proof fn lemma_days_from(days: Seq<HistDay>, cutoff: i64, d: HistDay)
    ensures
        days_from(days, cutoff).contains(d) <==> days.contains(d) && d.day_start >= cutoff,
    decreases days.len(),
{
    reveal(Seq::filter);
    if days.len() > 0 {
        let rest = days.drop_last();
        lemma_days_from(rest, cutoff, d);
        let f = days_from(days, cutoff);
        let g = days_from(rest, cutoff);
        if f.contains(d) {
            let i = choose|i: int| 0 <= i < f.len() && f[i] == d;
            if i < g.len() {
                assert(g[i] == d);
                let k = choose|k: int| 0 <= k < rest.len() && rest[k] == d;
                assert(days[k] == d);
            } else {
                assert(days[days.len() - 1] == d);
            }
        }
        if days.contains(d) && d.day_start >= cutoff {
            let k = choose|k: int| 0 <= k < days.len() && days[k] == d;
            if k < rest.len() {
                assert(rest[k] == d);
                let i = choose|i: int| 0 <= i < g.len() && g[i] == d;
                assert(f[i] == d);
            } else {
                assert(f[f.len() - 1] == d);
            }
        }
    }
}

/// Where no day is before the cutoff, none is dropped.
pub proof fn lemma_days_stay(days: Seq<HistDay>, cutoff: i64)
    requires
        forall|i: int| 0 <= i < days.len() ==> (#[trigger] days[i]).day_start >= cutoff,
    ensures
        days_from(days, cutoff) == days,
    decreases days.len(),
{
    reveal(Seq::filter);
    if days.len() > 0 {
        let d = days.drop_last();
        assert forall|i: int| 0 <= i < d.len() implies (#[trigger] d[i]).day_start >= cutoff by {
            assert(d[i] == days[i]);
        }
        lemma_days_stay(d, cutoff);
        assert(days[days.len() - 1] == days.last());
        assert(d.push(days.last()) =~= days);
    } else {
        assert(days_from(days, cutoff) =~= days);
    }
}

/// The days that are left are from the cutoff on.
pub proof fn lemma_days_left(days: Seq<HistDay>, cutoff: i64)
    ensures
        forall|i: int|
            0 <= i < days_from(days, cutoff).len() ==> (#[trigger] days_from(
                days,
                cutoff,
            )[i]).day_start >= cutoff,
{
    let left = days_from(days, cutoff);
    law_prune_keeps_the_window(days, cutoff);
    assert forall|i: int| 0 <= i < left.len() implies (#[trigger] left[i]).day_start >= cutoff by {
        assert(left.contains(left[i]));
    }
}

/// A call of a day from the cutoff on brings no day before it.
pub proof fn lemma_folded_days(
    days: Seq<HistDay>,
    day_start: i64,
    ft: Option<i64>,
    completed: i64,
    gen_ms: i64,
    eff: u64,
    cutoff: i64,
)
    requires
        day_start >= cutoff,
        forall|i: int| 0 <= i < days.len() ==> (#[trigger] days[i]).day_start >= cutoff,
    ensures
        forall|i: int|
            0 <= i < folded(days, day_start, ft, completed, gen_ms, eff).len() ==> (
            #[trigger] folded(days, day_start, ft, completed, gen_ms, eff)[i]).day_start >= cutoff,
{
    lemma_place(days, day_start);
}

/// Which calls set a record: one whose first token was recorded, that generated for at least a
/// second and has at least three hundred tokens, if it is faster than every one before. No other
/// call changes the record.
pub proof fn law_which_calls_set_the_record(
    days: Seq<HistDay>,
    day_start: i64,
    ft: Option<i64>,
    completed: i64,
    gen_ms: i64,
    eff: u64,
)
    ensures
        ({
            let after = fastest(folded(days, day_start, ft, completed, gen_ms, eff));
            let fit = (ft matches Some(f) && completed > f) && gen_ms >= 1_000 && eff >= 300;
            let speed = Rate { tokens: eff, ms: gen_ms as u64 };
            &&& fit && speed.faster(fastest(days)) ==> !speed.faster(after) && !after.faster(speed)
            &&& !fit ==> !after.faster(fastest(days)) && !fastest(days).faster(after)
            &&& fit ==> !speed.faster(after)
            &&& !fastest(days).faster(after)
        }),
{
    let all = folded(days, day_start, ft, completed, gen_ms, eff);
    let before = fastest(days);
    let after = fastest(all);
    let speed = Rate { tokens: eff, ms: gen_ms as u64 };
    lemma_place(days, day_start);
    law_record_is_the_fastest(days);
    law_record_is_the_fastest(all);
    let at = match place_of(days, day_start) {
        Some(i) => i,
        None => days.len() as int,
    };
    let base = if at < days.len() {
        days[at].max_tps
    } else {
        Rate::none()
    };
    let mine = all[at].max_tps;
    rate::law_faster_is_an_order(mine, base, speed);
    rate::law_faster_is_an_order(speed, speed, speed);
    // Nothing of before is faster than what is there now.
    if before != Rate::none() {
        let i = choose|i: int| 0 <= i < days.len() && (#[trigger] days[i]).max_tps == before;
        if i != at {
            assert(all[i] == days[i]);
            assert(!all[i].max_tps.faster(after));
        } else {
            assert(!all[at].max_tps.faster(after));
            rate::law_faster_is_an_order(base, mine, after);
        }
    }
    assert(!before.faster(after));
    assert(!all[at].max_tps.faster(after));
    let fit = (ft matches Some(f) && completed > f) && gen_ms >= 1_000 && eff >= 300;
    if fit {
        rate::law_faster_is_an_order(speed, mine, after);
    }
    if after != Rate::none() {
        let i = choose|i: int| 0 <= i < all.len() && (#[trigger] all[i]).max_tps == after;
        if i != at {
            assert(all[i] == days[i]);
            assert(!days[i].max_tps.faster(before));
        } else if at < days.len() {
            assert(!days[at].max_tps.faster(before));
        }
    }
    rate::law_faster_is_an_order(after, before, speed);
    rate::law_faster_is_an_order(speed, before, after);
    rate::law_faster_is_an_order(after, speed, before);
}

/// A call counts for the day on which it was completed: the totals of that day grow by its tokens
/// and its time, the day is begun if it was not there, and no other day changes.
pub proof fn law_call_goes_to_its_day(
    days: Seq<HistDay>,
    day_start: i64,
    ft: Option<i64>,
    completed: i64,
    gen_ms: i64,
    eff: u64,
    i: int,
)
    requires
        0 <= i < days.len(),
        forall|a: int, b: int|
            0 <= a < b < days.len() ==> (#[trigger] days[a]).day_start != (
            #[trigger] days[b]).day_start,
    ensures
        ({
            let after = folded(days, day_start, ft, completed, gen_ms, eff);
            let time = if gen_ms >= 50 {
                gen_ms
            } else {
                50
            };
            &&& days[i].day_start != day_start ==> after[i] == days[i]
            &&& days[i].day_start == day_start ==> after.len() == days.len() && after[i].day_start
                == day_start && after[i].total_eff == rate::clip(days[i].total_eff + eff)
                && after[i].total_gen_ms == rate::clip(days[i].total_gen_ms + time)
            &&& (forall|a: int| 0 <= a < days.len() ==> (#[trigger] days[a]).day_start != day_start)
                ==> after.len() == days.len() + 1 && after.last().day_start == day_start
                && after.last().total_eff == eff && after.last().total_gen_ms == time
        }),
{
    lemma_place(days, day_start);
}

/// The totals of the history are those of its days together.
pub proof fn law_days_add_up(days: Seq<HistDay>)
    ensures
        eff_sum(days) == days.fold_left(0int, |a: int, d: HistDay| a + d.total_eff),
        gen_sum(days) == days.fold_left(0int, |a: int, d: HistDay| a + d.total_gen_ms),
    decreases days.len(),
{
    if days.len() > 0 {
        law_days_add_up(days.drop_last());
    }
}

} // verus!
