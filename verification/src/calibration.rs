//! Calibration of the number of bytes that a token takes, and detection of a jump in
//! speed that makes the calibration stale.

use std::collections::VecDeque;

use vstd::prelude::*;

use crate::order;
use crate::rate;
use crate::stream;
use crate::stream::CleanParams;

verus! {

/// How many calibration samples are kept.
pub const CAL_QUEUE_CAP: usize = 5;

/// How many rounds the baseline of the drift detection spans.
pub const DRIFT_ROUNDS: usize = 5;

/// Speeds a factor of this apart, in either direction, are a jump.
pub const DRIFT_RATIO: u64 = 3;

/// The last `cap` elements, or all where there are no more.
pub open spec fn newest<T>(s: Seq<T>, cap: nat) -> Seq<T> {
    if s.len() <= cap {
        s
    } else {
        s.skip(s.len() - cap)
    }
}

/// The middle element in order; the upper one of an even number.
pub open spec fn upper_median(s: Seq<u64>) -> u64 {
    order::ranked(s)[s.len() as int / 2]
}

/// Drops from the front what exceeds `cap`.
pub fn keep_newest<T>(q: &mut VecDeque<T>, cap: usize)
    ensures
        final(q)@ == newest(old(q)@, cap as nat),
{
    let ghost all = q@;
    assert(all.skip(0) =~= all);
    while q.len() > cap
        invariant
            q@.len() <= all.len(),
            q@ == all.skip(all.len() - q@.len()),
            all.len() > cap ==> q@.len() >= cap,
            all.len() <= cap ==> q@ == all,
        decreases q@.len(),
    {
        let ghost before = q@;
        let _ = q.pop_front();
        assert(before.subrange(1, before.len() as int) =~= all.skip(all.len() - before.len() + 1));
    }
}

/// A copy of a queue in a vector.
pub fn listed(q: &VecDeque<u64>) -> (r: Vec<u64>)
    ensures
        r@ == q@,
{
    let mut v: Vec<u64> = Vec::new();
    for i in 0..q.len()
        invariant
            v@ == q@.take(i as int),
    {
        v.push(q[i]);
        assert(q@.take(i + 1) =~= q@.take(i as int).push(q@[i as int]));
    }
    assert(q@.take(q@.len() as int) =~= q@);
    v
}

/// The middle element of a queue; the upper one of an even number.
pub fn median_of(q: &VecDeque<u64>) -> (r: u64)
    requires
        q@.len() > 0,
    ensures
        r == upper_median(q@),
{
    let v = listed(q);
    proof {
        order::law_ranked_is_sorted_permutation(q@);
    }
    let n: usize = v.len();
    let sorted = order::sort(v);
    sorted[n / 2]
}

/// Takes a sample into the sliding window of at most `cap` samples, and gives the median
/// of the window.
pub fn median_bpt(samples: &mut VecDeque<u64>, sample: u64, cap: usize) -> (r: u64)
    requires
        cap > 0,
    ensures
        final(samples)@ == newest(old(samples)@.push(sample), cap as nat),
        r == upper_median(final(samples)@),
{
    samples.push_back(sample);
    keep_newest(samples, cap);
    median_of(samples)
}

/// A call calibrates: it has enough tokens, the cleaned stream holds at least a fifth of
/// the raw bytes, and its rate per token is within the bounds and, where outliers are
/// rejected, close enough to the current rate. `clean` is in thousandths of a byte.
pub open spec fn admits(eff: u64, clean: int, raw: u64, bpt_now: u64, p: CleanParams) -> bool {
    &&& eff >= p.cal_min_tokens
    &&& clean > 0
    &&& raw > 0
    &&& clean * 5 >= raw * 1000
    &&& clean >= p.cal_min * eff
    &&& clean <= p.cal_max * eff
    &&& !outlier(eff, clean, bpt_now, p)
}

/// The rate per token deviates too much from the current one.
pub open spec fn outlier(eff: u64, clean: int, bpt_now: u64, p: CleanParams) -> bool {
    &&& p.cal_outlier_ratio > 0
    &&& bpt_now > 0
    &&& clean * p.cal_outlier_ratio < bpt_now * eff || clean > (bpt_now * eff) * p.cal_outlier_ratio
}

/// What calibration sees of a call: whether it is admitted, and its rate per token.
pub open spec fn sampled(eff: u64, clean: int, raw: u64, bpt_now: u64, p: CleanParams) -> (
    bool,
    u64,
) {
    if eff < p.cal_min_tokens || clean <= 0 || raw == 0 {
        (false, 0)
    } else if admits(eff, clean, raw, bpt_now, p) {
        (true, rate::clip(clean / eff as int))
    } else if clean * 5 >= raw * 1000 && p.cal_min * eff <= clean <= p.cal_max * eff {
        (false, 0)
    } else {
        (false, rate::clip(clean / eff as int))
    }
}

/// Whether a call calibrates, and the rate per token that it has: the bytes of the cleaned
/// stream over its tokens. A rejected outlier is reported as zero. `clean_bytes` and the
/// rates are in thousandths of a byte.
pub fn cal_sample(eff: u64, clean_bytes: i128, raw_bytes: u64, bpt_now: u64, p: &CleanParams) -> (r: (
    bool,
    u64,
))
    requires
        p.wf(),
        stream::size(clean_bytes as int) <= stream::STREAM_LIMIT,
    ensures
        r == sampled(eff, clean_bytes as int, raw_bytes, bpt_now, *p),
{
    if eff < p.cal_min_tokens || clean_bytes <= 0 || raw_bytes == 0 {
        return (false, 0);
    }
    let clean: u128 = clean_bytes as u128;
    let tokens: u128 = eff as u128;
    proof {
        assert forall|x: u64, y: u64| #[trigger] (x * y) <= 0xffff_ffff_ffff_ffff
            * 0xffff_ffff_ffff_ffff by {
            assert(x * y <= 0xffff_ffff_ffff_ffff * 0xffff_ffff_ffff_ffff) by (nonlinear_arith)
                requires
                    0 <= x <= 0xffff_ffff_ffff_ffff,
                    0 <= y <= 0xffff_ffff_ffff_ffff,
            ;
        }
        assert(p.cal_min * eff >= 0 && p.cal_max * eff >= 0 && bpt_now * eff >= 0)
            by (nonlinear_arith)
            requires
                p.cal_min >= 0,
                p.cal_max >= 0,
                bpt_now >= 0,
                eff >= 0,
        ;
    }
    let ratio: u64 = rate::clipped(clean / tokens);
    let low: u128 = p.cal_min as u128 * tokens;
    let high: u128 = p.cal_max as u128 * tokens;
    let in_range = clean * 5 >= raw_bytes as u128 * 1000 && clean >= low && clean <= high;
    if in_range && p.cal_outlier_ratio > 0 && bpt_now > 0 {
        let now: u128 = bpt_now as u128 * tokens;
        let k: u128 = p.cal_outlier_ratio as u128;
        proof {
            assert(clean * k <= 0x1_0000_0000_0000_0000_0000_0000_0000 * 255) by (nonlinear_arith)
                requires
                    0 <= clean <= 0x1_0000_0000_0000_0000_0000_0000_0000,
                    0 <= k <= 255,
            ;
            // `clean > now * k` without the product, which need not fit.
            assert((clean > now * k) == (((clean - 1) / k as int) >= now)) by (nonlinear_arith)
                requires
                    clean > 0,
                    k > 0,
                    now >= 0,
            ;
        }
        if clean * k < now || (clean - 1) / k >= now {
            return (false, 0);
        }
    }
    (in_range, ratio)
}

/// Other processes wrote at most a fifth of what the process of the call wrote, and that
/// process wrote something: only then are the bytes of the call its own.
pub fn cross_pid_ok(others_raw: u64, attr_raw: u64) -> (r: bool)
    ensures
        r == (attr_raw > 0 && others_raw * 5 <= attr_raw),
{
    attr_raw > 0 && others_raw as u128 * 5 <= attr_raw as u128
}

/// Watches the average speed of rounds, in millionths of a token per second, for a jump
/// against the rounds before.
#[derive(Debug)]
pub struct RoundDrift {
    pub history: VecDeque<u64>,
}

/// The sum of all elements.
pub open spec fn total(s: Seq<u64>) -> int
    decreases s.len(),
{
    if s.len() == 0 {
        0
    } else {
        total(s.drop_last()) + s.last()
    }
}

impl View for RoundDrift {
    type V = Seq<u64>;

    open spec fn view(&self) -> Seq<u64> {
        self.history@
    }
}

/// A round of average speed `avg` is a jump against a full baseline.
pub open spec fn is_jump(history: Seq<u64>, avg: u64) -> bool {
    &&& history.len() == DRIFT_ROUNDS
    &&& avg * DRIFT_ROUNDS >= DRIFT_RATIO * total(history) || total(history) >= DRIFT_RATIO * avg
        * DRIFT_ROUNDS
}

/// The rounds that are kept after a round of average speed `avg`.
pub open spec fn after_round(history: Seq<u64>, avg: u64) -> Seq<u64> {
    if avg == 0 {
        history
    } else if is_jump(history, avg) {
        Seq::empty()
    } else {
        newest(history.push(avg), DRIFT_ROUNDS as nat)
    }
}

impl RoundDrift {
    /// At most the baseline is kept, and no round without speed.
    pub open spec fn wf(&self) -> bool {
        &&& self@.len() <= DRIFT_ROUNDS
        &&& forall|i: int| 0 <= i < self@.len() ==> #[trigger] self@[i] > 0
    }

    /// No rounds yet.
    pub fn new() -> (r: Self)
        ensures
            r.wf(),
            r@ == Seq::<u64>::empty(),
    {
        RoundDrift { history: VecDeque::new() }
    }

    /// Takes a round into account. A jump gives the average of the baseline and empties it,
    /// so that one jump triggers once; a round without speed changes nothing.
    pub fn observe(&mut self, round_avg: u64) -> (r: Option<u64>)
        requires
            old(self).wf(),
        ensures
            final(self).wf(),
            final(self)@ == after_round(old(self)@, round_avg),
            r == (if round_avg > 0 && is_jump(old(self)@, round_avg) {
                Some((total(old(self)@) / DRIFT_ROUNDS as int) as u64)
            } else {
                None
            }),
    {
        if round_avg == 0 {
            return None;
        }
        if self.history.len() == DRIFT_ROUNDS {
            let mut sum: u128 = 0;
            for i in 0..self.history.len()
                invariant
                    self.history@.len() == DRIFT_ROUNDS,
                    sum == total(self.history@.take(i as int)),
                    sum <= i * u64::MAX,
            {
                assert(self.history@.take(i + 1).drop_last() =~= self.history@.take(i as int));
                sum = sum + self.history[i] as u128;
            }
            assert(self.history@.take(DRIFT_ROUNDS as int) =~= self.history@);
            let avg: u128 = round_avg as u128;
            if avg * 5 >= 3 * sum || sum >= 3 * avg * 5 {
                self.history.clear();
                return Some((sum / 5) as u64);
            }
        }
        let ghost before = self.history@;
        self.history.push_back(round_avg);
        keep_newest(&mut self.history, DRIFT_ROUNDS);
        None
    }

    /// Forgets all rounds.
    pub fn reset(&mut self)
        ensures
            final(self).wf(),
            final(self)@ == Seq::<u64>::empty(),
    {
        self.history.clear();
    }
}

/// After a jump the same speed is the new normal: it triggers nothing before a full new
/// baseline has been seen. Rounds without speed neither trigger nor count.
pub proof fn law_jump_triggers_once(history: Seq<u64>, avg: u64, next: u64)
    requires
        avg > 0,
        is_jump(history, avg),
    ensures
        !is_jump(after_round(history, avg), next),
        after_round(after_round(history, avg), 0) == after_round(history, avg),
{
}

/// A single sample cannot move the rate away from the prior: the median of the prior and
/// one lower sample is the prior.
pub proof fn law_prior_outweighs_one_low_sample(prior: u64, sample: u64)
    requires
        sample <= prior,
    ensures
        upper_median(newest(seq![prior].push(sample), CAL_QUEUE_CAP as nat)) == prior,
{
    let s = seq![prior].push(sample);
    assert(s.drop_last() =~= seq![prior]);
    assert(seq![prior].drop_last() =~= Seq::empty());
    assert(order::ranked(Seq::<u64>::empty()) =~= Seq::empty());
    assert(order::ranked(seq![prior]) =~= seq![prior]) by {
        assert(order::placed(Seq::<u64>::empty(), prior) =~= seq![prior]);
    }
    assert(order::ranked(s) == order::placed(seq![prior], sample));
    if sample < prior {
        assert(order::placed(seq![prior].drop_last(), sample) =~= seq![sample]);
        assert(order::placed(seq![prior], sample) =~= seq![sample, prior]);
    } else {
        assert(order::placed(seq![prior], sample) =~= seq![prior, sample]);
    }
}

/// The median of a single sample.
pub proof fn lemma_median_of_one(x: u64)
    ensures
        upper_median(seq![x]) == x,
{
    assert(seq![x].drop_last() =~= Seq::empty());
    assert(order::placed(order::ranked(Seq::<u64>::empty()), x) =~= seq![x]);
}

/// The median is one of the samples, so it stays within their bounds.
pub proof fn law_median_is_a_sample(s: Seq<u64>)
    requires
        s.len() > 0,
    ensures
        s.contains(upper_median(s)),
{
    order::law_ranked_is_sorted_permutation(s);
    order::lemma_ranked_members(s, s.len() as int / 2);
}

/// The median stands in the middle: it is one of the samples, at most half of them are smaller,
/// and fewer than half are larger.
pub proof fn law_median_is_in_the_middle(s: Seq<u64>)
    requires
        s.len() > 0,
    ensures
        s.contains(upper_median(s)),
        2 * s.filter(|x: u64| x < upper_median(s)).len() <= s.len(),
        2 * s.filter(|x: u64| x > upper_median(s)).len() < s.len(),
{
    let m = s.len() as int / 2;
    let x = upper_median(s);
    order::law_place_in_the_ranking(s, m);
    assert((|y: u64| order::Ordered::before(y, order::ranked(s)[m])) =~= (|y: u64| y < x));
    assert((|y: u64| order::Ordered::before(order::ranked(s)[m], y)) =~= (|y: u64| y > x));
}

/// What more than half of the samples are is their median.
pub proof fn law_majority_is_the_median(s: Seq<u64>, x: u64)
    requires
        2 * s.filter(|y: u64| y == x).len() > s.len(),
    ensures
        upper_median(s) == x,
{
    let m = upper_median(s);
    let same = |y: u64| y == x;
    let less = |y: u64| y < m;
    let more = |y: u64| y > m;
    law_median_is_in_the_middle(s);
    if x < m {
        lemma_fewer_match(s, same, less);
    } else if x > m {
        lemma_fewer_match(s, same, more);
    }
}

proof fn lemma_fewer_match(s: Seq<u64>, p: spec_fn(u64) -> bool, q: spec_fn(u64) -> bool)
    requires
        forall|x: u64| #[trigger] p(x) ==> q(x),
    ensures
        s.filter(p).len() <= s.filter(q).len(),
    decreases s.len(),
{
    reveal(Seq::filter);
    if s.len() > 0 {
        lemma_fewer_match(s.drop_last(), p, q);
    }
}

/// For how long saved samples are good.
pub const CAL_STALE_MS: i64 = 1_209_600_000;

/// Samples that were saved at a time are too old to be used.
pub open spec fn too_old(updated: int, now: int) -> bool {
    now - updated > CAL_STALE_MS
}

/// Whether saved samples are too old to be used.
pub fn samples_stale(updated_ms: i64, now_ms: i64) -> (r: bool)
    ensures
        r == (now_ms - updated_ms > CAL_STALE_MS),
        r == too_old(updated_ms as int, now_ms as int),
{
    now_ms as i128 - updated_ms as i128 > CAL_STALE_MS as i128
}

/// A call with too few tokens teaches nothing, whatever its bytes say.
pub proof fn law_small_calls_teach_nothing(
    eff: u64,
    clean: int,
    raw: u64,
    bpt_now: u64,
    p: CleanParams,
)
    requires
        eff < p.cal_min_tokens,
    ensures
        sampled(eff, clean, raw, bpt_now, p) == (false, 0u64),
{
}

/// A round is a jump against five rounds of one speed where it is at least three times as fast or
/// at least three times as slow, and against fewer rounds it is none. A round that is no jump
/// joins the newest four.
pub proof fn law_jump_is_threefold(history: Seq<u64>, x: u64, avg: u64)
    requires
        avg > 0,
    ensures
        history.len() == 5 && (forall|i: int| 0 <= i < 5 ==> #[trigger] history[i] == x)
            ==> is_jump(history, avg) == (avg >= 3 * x || x >= 3 * avg),
        history.len() != 5 ==> !is_jump(history, avg),
        history.len() < 5 ==> after_round(history, avg) == history.push(avg),
        history.len() == 5 && !is_jump(history, avg) ==> after_round(history, avg) == history.skip(
            1,
        ).push(avg),
{
    if history.len() == 5 {
        let a = history.drop_last();
        let b = a.drop_last();
        let c = b.drop_last();
        let d = c.drop_last();
        assert(total(history) == history[0] + history[1] + history[2] + history[3] + history[4])
            by {
            assert(d.drop_last().len() == 0);
            assert(total(d.drop_last()) == 0);
            assert(total(d) == d.last());
            assert(total(c) == total(d) + c.last());
            assert(total(b) == total(c) + b.last());
            assert(total(a) == total(b) + a.last());
        }
        assert(history.push(avg).skip(1) =~= history.skip(1).push(avg));
    }
}

proof fn lemma_total_is_fold(s: Seq<u64>)
    ensures
        total(s) == s.fold_left(0int, |a: int, x: u64| a + x),
    decreases s.len(),
{
    if s.len() > 0 {
        lemma_total_is_fold(s.drop_last());
    }
}

/// A jump is a round that is at least three times as fast as the average of the five before it, or
/// at most a third of it.
pub proof fn law_jump_goes_by_the_average(history: Seq<u64>, avg: u64)
    ensures
        ({
            let sum = history.fold_left(0int, |a: int, x: u64| a + x);
            is_jump(history, avg) <==> history.len() == 5 && (5 * avg >= 3 * sum || sum >= 3 * (5
                * avg))
        }),
{
    lemma_total_is_fold(history);
}

/// The newest of a list are its last ones, in their order.
pub proof fn law_newest_are_the_last<T>(s: Seq<T>, cap: nat)
    ensures
        newest(s, cap).len() == if s.len() <= cap {
            s.len()
        } else {
            cap
        },
        forall|i: int|
            0 <= i < newest(s, cap).len() ==> #[trigger] newest(s, cap)[i] == s[s.len() - newest(
                s,
                cap,
            ).len() + i],
{
}

/// Saved samples are used for two weeks.
pub proof fn law_samples_last_two_weeks(updated: int, now: int)
    ensures
        too_old(updated, now) == (now - updated > 14 * 86_400_000),
{
}

/// Which samples are taken, and their value: a call with enough tokens, of whose bytes at least a
/// fifth are left when it is cleaned, gives the bytes per token that lie between the bounds, if that
/// is not too far from what was learned before.
pub proof fn law_which_samples_are_taken(
    eff: u64,
    clean: int,
    raw: u64,
    bpt_now: u64,
    p: CleanParams,
)
    requires
        p.wf(),
    ensures
        ({
            let r = sampled(eff, clean, raw, bpt_now, p);
            let far = p.cal_outlier_ratio > 0 && bpt_now > 0 && (p.cal_outlier_ratio * clean < bpt_now
                * eff || clean > p.cal_outlier_ratio * (bpt_now * eff));
            &&& r.0 <==> eff >= p.cal_min_tokens && raw > 0 && clean > 0 && 5 * clean >= 1000 * raw
                && clean >= eff * p.cal_min && clean <= eff * p.cal_max && !far
            &&& r.0 && r.1 < u64::MAX ==> r.1 * eff <= clean < (r.1 + 1) * eff
        }),
{
    assert(eff * p.cal_min == p.cal_min * eff) by (nonlinear_arith);
    assert(eff * p.cal_max == p.cal_max * eff) by (nonlinear_arith);
    assert(p.cal_outlier_ratio * clean == clean * p.cal_outlier_ratio) by (nonlinear_arith);
    assert(p.cal_outlier_ratio * (bpt_now * eff) == (bpt_now * eff) * p.cal_outlier_ratio)
        by (nonlinear_arith);
    if eff > 0 {
        let q = clean / eff as int;
        assert(q * eff <= clean < (q + 1) * eff) by (nonlinear_arith)
            requires
                eff > 0,
                q == clean / eff as int,
        ;
        assert(clean > 0 ==> q >= 0) by (nonlinear_arith)
            requires
                eff > 0,
                clean < (q + 1) * eff,
        ;
    }
}

} // verus!
