//! Speed over time, of all models together and of each model.

use vstd::prelude::*;

use crate::aggregate;
use crate::call;
use crate::call::CallView;
use crate::clock;
use crate::order;
use crate::order::{Ordered, Ranked};
use crate::rate;
use crate::rate::Rate;
use crate::text;

verus! {

/// Number of buckets of a chart.
pub const CHART_BUCKETS: usize = 90;

/// A completed call as the chart sees it.
#[derive(Debug)]
pub struct ModelUsageRow {
    /// The model that was called.
    pub model: String,
    /// When the first token came, if that was recorded.
    pub first_token_at: Option<i64>,
    /// When the call was complete.
    pub completed_at: i64,
    /// How long the call took, if that was recorded.
    pub duration_ms: Option<i64>,
    /// Tokens of the answer.
    pub output_tokens: u64,
    /// Tokens of reasoning.
    pub reasoning_tokens: u64,
}

/// A [`ModelUsageRow`] with texts as their characters.
pub struct UsageView {
    pub model: Seq<char>,
    pub first_token_at: Option<i64>,
    pub completed_at: i64,
    pub duration_ms: Option<i64>,
    pub output_tokens: u64,
    pub reasoning_tokens: u64,
}

impl View for ModelUsageRow {
    type V = UsageView;

    open spec fn view(&self) -> UsageView {
        UsageView {
            model: self.model@,
            first_token_at: self.first_token_at,
            completed_at: self.completed_at,
            duration_ms: self.duration_ms,
            output_tokens: self.output_tokens,
            reasoning_tokens: self.reasoning_tokens,
        }
    }
}

impl UsageView {
    /// Streamed tokens of the call.
    pub open spec fn eff(self) -> u64 {
        rate::clip(self.output_tokens + self.reasoning_tokens)
    }

    /// How long the call generated.
    pub open spec fn gen(self) -> u64 {
        call::generation_time(self.first_token_at, self.completed_at, self.duration_ms) as u64
    }

    /// How many buckets before that of now the call was completed. Buckets are aligned to the
    /// clock.
    pub open spec fn slot(self, now: i64, width: i64) -> int {
        now as int / width as int - self.completed_at as int / width as int
    }
}

impl ModelUsageRow {
    fn tokens(&self) -> (r: u64)
        ensures
            r == self@.eff(),
    {
        self.output_tokens.saturating_add(self.reasoning_tokens)
    }

    fn generated_ms(&self) -> (r: u64)
        ensures
            r == self@.gen(),
            r > 0,
    {
        call::gen_ms_from(self.first_token_at, self.completed_at, self.duration_ms) as u64
    }
}

/// The rows with texts as their characters.
pub open spec fn usage_view(rows: Seq<ModelUsageRow>) -> Seq<UsageView> {
    rows.map_values(|r: ModelUsageRow| r@)
}

/// The sum of a quantity over the rows that satisfy a condition.
pub open spec fn sum_where(
    rows: Seq<UsageView>,
    f: spec_fn(UsageView) -> int,
    cond: spec_fn(UsageView) -> bool,
) -> int
    decreases rows.len(),
{
    if rows.len() == 0 {
        0
    } else {
        sum_where(rows.drop_last(), f, cond) + (if cond(rows.last()) {
            f(rows.last())
        } else {
            0
        })
    }
}

/// The tokens of a row.
pub open spec fn tokens_of() -> spec_fn(UsageView) -> int {
    |r: UsageView| r.eff() as int
}

/// The generation time of a row.
pub open spec fn time_of() -> spec_fn(UsageView) -> int {
    |r: UsageView| r.gen() as int
}

/// One for each row.
pub open spec fn count_of() -> spec_fn(UsageView) -> int {
    |r: UsageView| 1int
}

/// Tokens, generation time and number of calls.
#[derive(Clone, Copy, Debug, PartialEq, Eq, Structural)]
pub struct Cell {
    /// Tokens.
    pub eff: u64,
    /// Milliseconds that were generated.
    pub gen_ms: u64,
    /// Calls.
    pub calls: u64,
}

/// What the rows that satisfy a condition add up to.
pub open spec fn cell_where(rows: Seq<UsageView>, cond: spec_fn(UsageView) -> bool) -> Cell {
    Cell {
        eff: rate::clip(sum_where(rows, tokens_of(), cond)),
        gen_ms: rate::clip(sum_where(rows, time_of(), cond)),
        calls: rate::clip(sum_where(rows, count_of(), cond)),
    }
}

impl Cell {
    /// The speed: tokens over generation time.
    pub open spec fn speed(self) -> Rate {
        Rate { tokens: self.eff, ms: self.gen_ms }
    }

    fn zero() -> (r: Cell)
        ensures
            r == (Cell { eff: 0, gen_ms: 0, calls: 0 }),
    {
        Cell { eff: 0, gen_ms: 0, calls: 0 }
    }

    fn plus(&self, eff: u64, gen_ms: u64) -> (r: Cell)
        ensures
            r == (Cell {
                eff: rate::clip(self.eff + eff),
                gen_ms: rate::clip(self.gen_ms + gen_ms),
                calls: rate::clip(self.calls + 1),
            }),
    {
        Cell {
            eff: self.eff.saturating_add(eff),
            gen_ms: self.gen_ms.saturating_add(gen_ms),
            calls: self.calls.saturating_add(1),
        }
    }

    fn tps(&self) -> (r: Rate)
        ensures
            r == self.speed(),
    {
        Rate { tokens: self.eff, ms: self.gen_ms }
    }
}

/// A row lies so many buckets back.
pub open spec fn at_slot(now: i64, width: i64, k: int) -> spec_fn(UsageView) -> bool {
    |r: UsageView| r.slot(now, width) == k
}

/// A row lies in the chart.
pub open spec fn in_chart(now: i64, width: i64) -> spec_fn(UsageView) -> bool {
    |r: UsageView| 0 <= r.slot(now, width) < CHART_BUCKETS
}

/// A row of a model lies so many buckets back.
pub open spec fn model_at_slot(model: Seq<char>, now: i64, width: i64, k: int) -> spec_fn(
    UsageView,
) -> bool {
    |r: UsageView| r.model == model && r.slot(now, width) == k
}

/// A row of a model lies in the chart.
pub open spec fn model_in_chart(model: Seq<char>, now: i64, width: i64) -> spec_fn(UsageView) -> bool {
    |r: UsageView| r.model == model && 0 <= r.slot(now, width) < CHART_BUCKETS
}

/// The window, in minutes, that is nearest to a wish.
pub open spec fn nearest_window(wish: int) -> i64 {
    if wish <= 37 {
        15
    } else if wish <= 210 {
        60
    } else if wish <= 900 {
        360
    } else {
        1440
    }
}

/// The window, in minutes, that is nearest to a wish: a quarter of an hour, one hour, six
/// hours or a day.
pub fn clamp_chart_window(window_min: i64) -> (r: i64)
    ensures
        r == nearest_window(window_min as int),
{
    if window_min <= 37 {
        15
    } else if window_min <= 210 {
        60
    } else if window_min <= 900 {
        360
    } else {
        1440
    }
}

/// Distance of two numbers.
pub open spec fn distance(a: int, b: int) -> int {
    if a >= b {
        a - b
    } else {
        b - a
    }
}

/// The window that is taken is one that can be chosen, none is nearer to the wish, and of
/// two that are equally near it is the shorter one.
pub proof fn law_window_is_the_nearest(wish: int)
    ensures
        ({
            let w = nearest_window(wish) as int;
            &&& w == 15 || w == 60 || w == 360 || w == 1440
            &&& forall|c: int|
                #![trigger distance(c, wish)]
                (c == 15 || c == 60 || c == 360 || c == 1440) ==> distance(w, wish) <= distance(
                    c,
                    wish,
                ) && (c < w ==> distance(w, wish) < distance(c, wish))
        }),
{
}

/// The width of a bucket.
pub open spec fn bucket_width(window_min: i64) -> i64 {
    (window_min * 60_000 / CHART_BUCKETS as int) as i64
}

fn width_of(window_min: i64) -> (r: i64)
    requires
        window_min == 15 || window_min == 60 || window_min == 360 || window_min == 1440,
    ensures
        r == bucket_width(window_min),
        r > 1,
{
    window_min * 60_000 / 90
}

/// The speed over time, all models together.
#[derive(Debug)]
pub struct ChartStatsPayload {
    /// Length of the window in minutes.
    pub window_min: i64,
    /// Width of a bucket.
    pub bucket_ms: i64,
    /// Now.
    pub now_ms: i64,
    /// The speed of each bucket, the oldest first.
    pub buckets: Vec<Rate>,
}

/// The speed of each bucket, the oldest first.
pub open spec fn chart_of(rows: Seq<UsageView>, now: i64, width: i64) -> Seq<Rate> {
    Seq::new(
        CHART_BUCKETS as nat,
        |i: int| cell_where(rows, at_slot(now, width, CHART_BUCKETS - 1 - i)).speed(),
    )
}

proof fn lemma_sum_nonneg(
    rows: Seq<UsageView>,
    f: spec_fn(UsageView) -> int,
    cond: spec_fn(UsageView) -> bool,
)
    requires
        forall|r: UsageView| #[trigger] f(r) >= 0,
    ensures
        sum_where(rows, f, cond) >= 0,
    decreases rows.len(),
{
    if rows.len() > 0 {
        lemma_sum_nonneg(rows.drop_last(), f, cond);
    }
}

proof fn lemma_cell_step(rows: Seq<UsageView>, cond: spec_fn(UsageView) -> bool, i: int)
    requires
        0 <= i < rows.len(),
    ensures
        ({
            let a = cell_where(rows.take(i), cond);
            let b = cell_where(rows.take(i + 1), cond);
            let r = rows[i];
            b == if cond(r) {
                Cell {
                    eff: rate::clip(a.eff + r.eff()),
                    gen_ms: rate::clip(a.gen_ms + r.gen()),
                    calls: rate::clip(a.calls + 1),
                }
            } else {
                a
            }
        }),
{
    assert(rows.take(i + 1).drop_last() =~= rows.take(i));
    lemma_sum_nonneg(rows.take(i), tokens_of(), cond);
    lemma_sum_nonneg(rows.take(i), time_of(), cond);
    lemma_sum_nonneg(rows.take(i), count_of(), cond);
}

fn slot_of(r: &ModelUsageRow, now_slot: i64, now_ms: i64, width: i64) -> (s: i128)
    requires
        width > 1,
        now_slot == now_ms as int / width as int,
    ensures
        s == r@.slot(now_ms, width),
{
    now_slot as i128 - clock::floor_div(r.completed_at, width) as i128
}

/// A row of empty cells.
fn blank_cells() -> (r: Vec<Cell>)
    ensures
        r@.len() == CHART_BUCKETS,
        forall|k: int| 0 <= k < CHART_BUCKETS ==> #[trigger] r@[k] == (Cell { eff: 0, gen_ms: 0, calls: 0 }),
{
    let mut v: Vec<Cell> = Vec::new();
    for i in 0..CHART_BUCKETS
        invariant
            v@.len() == i,
            forall|k: int| 0 <= k < i ==> #[trigger] v@[k] == (Cell { eff: 0, gen_ms: 0, calls: 0 }),
    {
        v.push(Cell::zero());
    }
    v
}

/// The speed over time, all models together: of the calls that were completed in the window
/// nearest to the wished one, by bucket.
pub fn aggregate_chart_stats(rows: &[ModelUsageRow], window_min: i64, now_ms: i64) -> (r:
    ChartStatsPayload)
    ensures
        r.window_min == nearest_window(window_min as int),
        r.bucket_ms == bucket_width(r.window_min),
        r.now_ms == now_ms,
        r.buckets@ == chart_of(usage_view(rows@), now_ms, r.bucket_ms),
{
    let window: i64 = clamp_chart_window(window_min);
    let width: i64 = width_of(window);
    let ghost rv = usage_view(rows@);
    let now_slot: i64 = clock::floor_div(now_ms, width);
    let mut acc = blank_cells();
    assert(rv.take(0) =~= Seq::empty());
    for i in 0..rows.len()
        invariant
            rv == usage_view(rows@),
            width > 1,
            now_slot == now_ms as int / width as int,
            acc@.len() == CHART_BUCKETS,
            forall|k: int|
                0 <= k < CHART_BUCKETS ==> #[trigger] acc@[k] == cell_where(
                    rv.take(i as int),
                    at_slot(now_ms, width, CHART_BUCKETS - 1 - k),
                ),
    {
        let ghost before = acc@;
        let row: &ModelUsageRow = &rows[i];
        let slot: i128 = slot_of(row, now_slot, now_ms, width);
        if slot >= 0 && slot < CHART_BUCKETS as i128 {
            let at: usize = CHART_BUCKETS - 1 - slot as usize;
            let cell: Cell = acc[at];
            acc.set(at, cell.plus(row.tokens(), row.generated_ms()));
        }
        proof {
            assert forall|k: int| 0 <= k < CHART_BUCKETS implies #[trigger] acc@[k] == cell_where(
                rv.take(i + 1),
                at_slot(now_ms, width, CHART_BUCKETS - 1 - k),
            ) by {
                assert(before[k] == cell_where(
                    rv.take(i as int),
                    at_slot(now_ms, width, CHART_BUCKETS - 1 - k),
                ));
                lemma_cell_step(rv, at_slot(now_ms, width, CHART_BUCKETS - 1 - k), i as int);
                assert(rv[i as int] == row@);
            }
        }
    }
    assert(rv.take(rv.len() as int) =~= rv);
    let mut buckets: Vec<Rate> = Vec::new();
    for k in 0..CHART_BUCKETS
        invariant
            acc@.len() == CHART_BUCKETS,
            buckets@.len() == k,
            forall|j: int| 0 <= j < k ==> #[trigger] buckets@[j] == acc@[j].speed(),
    {
        buckets.push(acc[k].tps());
    }
    assert(buckets@ =~= chart_of(rv, now_ms, width));
    ChartStatsPayload { window_min: window, bucket_ms: width, now_ms, buckets }
}

/// The chart that is shown where the calls cannot be read.
pub fn empty_chart_stats(window_min: i64, now_ms: i64) -> (r: ChartStatsPayload)
    ensures
        r.window_min == nearest_window(window_min as int),
        r.bucket_ms == bucket_width(r.window_min),
        r.now_ms == now_ms,
        r.buckets@.len() == CHART_BUCKETS,
        forall|k: int| 0 <= k < CHART_BUCKETS ==> !(#[trigger] r.buckets@[k]).positive(),
{
    let none: Vec<ModelUsageRow> = Vec::new();
    let r = aggregate_chart_stats(&none, window_min, now_ms);
    assert(usage_view(none@) =~= Seq::empty());
    r
}

/// What a model did in one bucket.
#[derive(Clone, Copy, Debug, PartialEq, Eq, Structural)]
pub struct ModelBucket {
    /// The speed.
    pub tps: Rate,
    /// Calls.
    pub calls: u64,
    /// Tokens.
    pub tokens: u64,
}

/// A part of a whole.
#[derive(Clone, Copy, Debug, PartialEq, Eq, Structural)]
pub struct Share {
    /// The part.
    pub part: u64,
    /// The whole.
    pub whole: u64,
}

/// The speed of a model over time.
#[derive(Debug)]
pub struct ModelSeries {
    /// The model.
    pub model: String,
    /// Each bucket, the newest first.
    pub buckets: Vec<ModelBucket>,
    /// Calls in the window.
    pub total_calls: u64,
    /// Tokens in the window.
    pub total_tokens: u64,
    /// The average speed in the window.
    pub avg_tps: Rate,
    /// The speed of the fastest bucket.
    pub peak_tps: Rate,
    /// The part of the tokens of all models.
    pub share: Share,
}

/// A [`ModelSeries`] without its representation.
#[verifier::ext_equal]
pub struct SeriesView {
    pub model: Seq<char>,
    pub buckets: Seq<ModelBucket>,
    pub total_calls: u64,
    pub total_tokens: u64,
    pub avg_tps: Rate,
    pub peak_tps: Rate,
    pub share: Share,
}

impl View for ModelSeries {
    type V = SeriesView;

    open spec fn view(&self) -> SeriesView {
        SeriesView {
            model: self.model@,
            buckets: self.buckets@,
            total_calls: self.total_calls,
            total_tokens: self.total_tokens,
            avg_tps: self.avg_tps,
            peak_tps: self.peak_tps,
            share: self.share,
        }
    }
}

/// The series comes first: more tokens, or the same number and the name earlier in the
/// alphabet.
pub open spec fn series_before(
    tokens: u64,
    model: Seq<char>,
    other_tokens: u64,
    other_model: Seq<char>,
) -> bool {
    tokens > other_tokens || (tokens == other_tokens && text::lex_before(model, other_model))
}

proof fn lemma_series_order(
    a: (u64, Seq<char>),
    b: (u64, Seq<char>),
    c: (u64, Seq<char>),
)
    ensures
        !series_before(a.0, a.1, a.0, a.1),
        series_before(a.0, a.1, b.0, b.1) && series_before(b.0, b.1, c.0, c.1) ==> series_before(
            a.0,
            a.1,
            c.0,
            c.1,
        ),
        !series_before(a.0, a.1, b.0, b.1) && !series_before(b.0, b.1, c.0, c.1) ==> !series_before(
            a.0,
            a.1,
            c.0,
            c.1,
        ),
{
    text::lemma_lex_order(a.1, b.1, c.1);
    text::lemma_lex_order(c.1, b.1, a.1);
    text::lemma_lex_order(a.1, c.1, b.1);
}

impl Ordered for ModelSeries {
    open spec fn before(self, other: Self) -> bool {
        series_before(self.total_tokens, self.model@, other.total_tokens, other.model@)
    }

    proof fn strict_weak(a: Self, b: Self, c: Self) {
        lemma_series_order(
            (a.total_tokens, a.model@),
            (b.total_tokens, b.model@),
            (c.total_tokens, c.model@),
        );
    }
}

impl Ranked for ModelSeries {
    fn is_before(&self, other: &Self) -> (r: bool) {
        if self.total_tokens != other.total_tokens {
            return self.total_tokens > other.total_tokens;
        }
        let x = text::chars_of(self.model.as_str());
        let y = text::chars_of(other.model.as_str());
        text::precedes(&x, &y)
    }
}

impl Ordered for SeriesView {
    open spec fn before(self, other: Self) -> bool {
        series_before(self.total_tokens, self.model, other.total_tokens, other.model)
    }

    proof fn strict_weak(a: Self, b: Self, c: Self) {
        lemma_series_order(
            (a.total_tokens, a.model),
            (b.total_tokens, b.model),
            (c.total_tokens, c.model),
        );
    }
}

/// The speed of each model over time.
#[derive(Debug)]
pub struct ModelStatsPayload {
    /// Length of the window in minutes.
    pub window_min: i64,
    /// Width of a bucket.
    pub bucket_ms: i64,
    /// Now.
    pub now_ms: i64,
    /// The models, that with the most tokens first.
    pub series: Vec<ModelSeries>,
}

/// The series without their representation.
pub open spec fn series_view(series: Seq<ModelSeries>) -> Seq<SeriesView> {
    series.map_values(|m: ModelSeries| m@)
}

/// The models of the rows that lie in the chart, in the order in which they first occur.
pub open spec fn models_seen(rows: Seq<UsageView>, now: i64, width: i64) -> Seq<Seq<char>>
    decreases rows.len(),
{
    if rows.len() == 0 {
        Seq::empty()
    } else {
        let front = models_seen(rows.drop_last(), now, width);
        if in_chart(now, width)(rows.last()) && !front.contains(rows.last().model) {
            front.push(rows.last().model)
        } else {
            front
        }
    }
}

/// The fastest of some speeds.
pub open spec fn peak_of(buckets: Seq<ModelBucket>) -> Rate
    decreases buckets.len(),
{
    if buckets.len() == 0 {
        Rate::none()
    } else {
        let front = peak_of(buckets.drop_last());
        if buckets.last().tps.faster(front) {
            buckets.last().tps
        } else {
            front
        }
    }
}

/// The buckets of a model, the newest first.
pub open spec fn model_buckets(
    rows: Seq<UsageView>,
    model: Seq<char>,
    now: i64,
    width: i64,
) -> Seq<ModelBucket> {
    Seq::new(
        CHART_BUCKETS as nat,
        |k: int|
            {
                let c = cell_where(rows, model_at_slot(model, now, width, k));
                ModelBucket { tps: c.speed(), calls: c.calls, tokens: c.eff }
            },
    )
}

/// The series of a model.
pub open spec fn series_of(
    rows: Seq<UsageView>,
    model: Seq<char>,
    now: i64,
    width: i64,
) -> SeriesView {
    let all = cell_where(rows, model_in_chart(model, now, width));
    let buckets = model_buckets(rows, model, now, width);
    SeriesView {
        model,
        buckets,
        total_calls: all.calls,
        total_tokens: all.eff,
        avg_tps: all.speed(),
        peak_tps: peak_of(buckets),
        share: Share { part: all.eff, whole: cell_where(rows, in_chart(now, width)).eff },
    }
}

/// The series of all models that have a call in the chart, that with the most tokens first.
pub open spec fn all_series(rows: Seq<UsageView>, now: i64, width: i64) -> Seq<SeriesView> {
    order::ranked(
        models_seen(rows, now, width).map_values(|m: Seq<char>| series_of(rows, m, now, width)),
    )
}

/// A model as its rows are added up.
struct ModelAcc {
    model: String,
    cells: Vec<Cell>,
    total: Cell,
}

/// The accumulator holds what the rows of its model add up to.
spec fn acc_holds(a: ModelAcc, rows: Seq<UsageView>, now: i64, width: i64) -> bool {
    &&& a.cells@.len() == CHART_BUCKETS
    &&& forall|k: int|
        0 <= k < CHART_BUCKETS ==> #[trigger] a.cells@[k] == cell_where(
            rows,
            model_at_slot(a.model@, now, width, k),
        )
    &&& a.total == cell_where(rows, model_in_chart(a.model@, now, width))
}

spec fn acc_models(accs: Seq<ModelAcc>) -> Seq<Seq<char>> {
    accs.map_values(|a: ModelAcc| a.model@)
}

proof fn lemma_unseen_model(rows: Seq<UsageView>, model: Seq<char>, now: i64, width: i64, k: int)
    requires
        !models_seen(rows, now, width).contains(model),
        0 <= k < CHART_BUCKETS,
    ensures
        cell_where(rows, model_at_slot(model, now, width, k)) == (Cell {
            eff: 0,
            gen_ms: 0,
            calls: 0,
        }),
        cell_where(rows, model_in_chart(model, now, width)) == (Cell { eff: 0, gen_ms: 0, calls: 0 }),
    decreases rows.len(),
{
    if rows.len() > 0 {
        let d = rows.drop_last();
        let front = models_seen(d, now, width);
        let all = models_seen(rows, now, width);
        if front.contains(model) {
            let i = choose|i: int| 0 <= i < front.len() && front[i] == model;
            assert(all[i] == model);
        }
        if in_chart(now, width)(rows.last()) && rows.last().model == model {
            if !front.contains(model) {
                assert(all[all.len() - 1] == model);
            }
        }
        lemma_unseen_model(d, model, now, width, k);
        assert(rows.take(rows.len() as int) =~= rows);
        assert(rows.take(rows.len() - 1) =~= d);
        lemma_cell_step(rows, model_at_slot(model, now, width, k), rows.len() - 1);
        lemma_cell_step(rows, model_in_chart(model, now, width), rows.len() - 1);
    }
}

fn find_model(accs: &[ModelAcc], model: &str) -> (r: Option<usize>)
    ensures
        match r {
            Some(i) => i < accs@.len() && accs@[i as int].model@ == model@,
            None => !acc_models(accs@).contains(model@),
        },
{
    for i in 0..accs.len()
        invariant
            forall|k: int| 0 <= k < i ==> (#[trigger] accs@[k]).model@ != model@,
    {
        if text::same(accs[i].model.as_str(), model) {
            return Some(i);
        }
    }
    assert forall|k: int| 0 <= k < acc_models(accs@).len() implies acc_models(accs@)[k] != model@ by {
        assert(accs@[k].model@ != model@);
    }
    None
}

fn add_to_cells(cells: &mut Vec<Cell>, at: usize, eff: u64, gen: u64)
    requires
        at < old(cells)@.len(),
    ensures
        final(cells)@ == old(cells)@.update(
            at as int,
            Cell {
                eff: rate::clip(old(cells)@[at as int].eff + eff),
                gen_ms: rate::clip(old(cells)@[at as int].gen_ms + gen),
                calls: rate::clip(old(cells)@[at as int].calls + 1),
            },
        ),
{
    let cell: Cell = cells[at];
    cells.set(at, cell.plus(eff, gen));
}

/// Adds a row to the accumulator of its model.
fn add_row(
    accs: &mut Vec<ModelAcc>,
    row: &ModelUsageRow,
    slot: usize,
    Ghost(rv): Ghost<Seq<UsageView>>,
    Ghost(i): Ghost<int>,
    now: i64,
    width: i64,
)
    requires
        0 <= i < rv.len(),
        rv[i] == row@,
        slot < CHART_BUCKETS,
        slot == row@.slot(now, width),
        acc_models(old(accs)@) == models_seen(rv.take(i), now, width),
        acc_models(old(accs)@).no_duplicates(),
        forall|k: int|
            0 <= k < old(accs)@.len() ==> acc_holds(#[trigger] old(accs)@[k], rv.take(i), now, width),
    ensures
        acc_models(final(accs)@) == models_seen(rv.take(i + 1), now, width),
        acc_models(final(accs)@).no_duplicates(),
        forall|k: int|
            0 <= k < final(accs)@.len() ==> acc_holds(
                #[trigger] final(accs)@[k],
                rv.take(i + 1),
                now,
                width,
            ),
{
    let eff: u64 = row.tokens();
    let gen: u64 = row.generated_ms();
    let ghost done = rv.take(i);
    let ghost more = rv.take(i + 1);
    let ghost names = acc_models(accs@);
    let ghost before = accs@;
    proof {
        assert(more.drop_last() =~= done);
        assert(in_chart(now, width)(row@));
    }
    match find_model(accs, row.model.as_str()) {
        Some(at) => {
            let mut cells: Vec<Cell> = Vec::new();
            for k in 0..CHART_BUCKETS
                invariant
                    at < accs@.len(),
                    accs@ == before,
                    before[at as int].cells@.len() == CHART_BUCKETS,
                    cells@ == before[at as int].cells@.take(k as int),
            {
                cells.push(accs[at].cells[k]);
                assert(before[at as int].cells@.take(k + 1) =~= before[at as int].cells@.take(
                    k as int,
                ).push(before[at as int].cells@[k as int]));
            }
            assert(cells@ =~= before[at as int].cells@);
            add_to_cells(&mut cells, slot, eff, gen);
            let total: Cell = accs[at].total.plus(eff, gen);
            let model: String = accs[at].model.clone();
            accs.set(at, ModelAcc { model, cells, total });
            proof {
                assert(acc_models(accs@) =~= names);
                assert(names[at as int] == row@.model);
                assert(names.contains(row@.model));
                assert forall|k: int| 0 <= k < accs@.len() implies acc_holds(
                    #[trigger] accs@[k],
                    more,
                    now,
                    width,
                ) by {
                    lemma_acc_step(before[k], accs@[k], rv, i, now, width, names, k, at as int);
                }
            }
        },
        None => {
            let mut cells = blank_cells();
            add_to_cells(&mut cells, slot, eff, gen);
            let total: Cell = Cell::zero().plus(eff, gen);
            let acc = ModelAcc { model: row.model.clone(), cells, total };
            let ghost one = acc;
            accs.push(acc);
            proof {
                assert(acc_models(accs@) =~= names.push(row@.model));
                assert forall|k: int| 0 <= k < accs@.len() implies acc_holds(
                    #[trigger] accs@[k],
                    more,
                    now,
                    width,
                ) by {
                    if k < before.len() {
                        assert(names[k] != row@.model) by {
                            if names[k] == row@.model {
                                assert(names.contains(row@.model));
                            }
                        }
                        lemma_acc_step(
                            before[k],
                            accs@[k],
                            rv,
                            i,
                            now,
                            width,
                            names,
                            k,
                            before.len() as int,
                        );
                    } else {
                        assert forall|j: int| 0 <= j < CHART_BUCKETS implies #[trigger] one.cells@[j]
                            == cell_where(more, model_at_slot(one.model@, now, width, j)) by {
                            lemma_unseen_model(done, row@.model, now, width, j);
                            lemma_cell_step(rv, model_at_slot(row@.model, now, width, j), i);
                        }
                        lemma_unseen_model(done, row@.model, now, width, 0);
                        lemma_cell_step(rv, model_in_chart(row@.model, now, width), i);
                    }
                }
            }
        },
    }
}

/// One more row changes only the accumulator of its model, and there only its bucket.
proof fn lemma_acc_step(
    a: ModelAcc,
    b: ModelAcc,
    rv: Seq<UsageView>,
    i: int,
    now: i64,
    width: i64,
    names: Seq<Seq<char>>,
    k: int,
    at: int,
)
    requires
        0 <= i < rv.len(),
        0 <= k < names.len(),
        0 <= at <= names.len(),
        names.no_duplicates(),
        names[k] == a.model@,
        at < names.len() ==> names[at] == rv[i].model,
        at == names.len() ==> !names.contains(rv[i].model),
        acc_holds(a, rv.take(i), now, width),
        0 <= rv[i].slot(now, width) < CHART_BUCKETS,
        k != at ==> b == a,
        k == at ==> b.model@ == a.model@ && b.cells@ == a.cells@.update(
            rv[i].slot(now, width),
            Cell {
                eff: rate::clip(a.cells@[rv[i].slot(now, width)].eff + rv[i].eff()),
                gen_ms: rate::clip(a.cells@[rv[i].slot(now, width)].gen_ms + rv[i].gen()),
                calls: rate::clip(a.cells@[rv[i].slot(now, width)].calls + 1),
            },
        ) && b.total == (Cell {
            eff: rate::clip(a.total.eff + rv[i].eff()),
            gen_ms: rate::clip(a.total.gen_ms + rv[i].gen()),
            calls: rate::clip(a.total.calls + 1),
        }),
    ensures
        acc_holds(b, rv.take(i + 1), now, width),
{
    assert(names.contains(names[k]));
    assert(k != at ==> a.model@ != rv[i].model);
    assert forall|j: int| 0 <= j < CHART_BUCKETS implies #[trigger] b.cells@[j] == cell_where(
        rv.take(i + 1),
        model_at_slot(b.model@, now, width, j),
    ) by {
        assert(a.cells@[j] == cell_where(rv.take(i), model_at_slot(a.model@, now, width, j)));
        lemma_cell_step(rv, model_at_slot(a.model@, now, width, j), i);
    }
    lemma_cell_step(rv, model_in_chart(a.model@, now, width), i);
}

fn finish_series(acc: &ModelAcc, whole: u64) -> (r: ModelSeries)
    requires
        acc.cells@.len() == CHART_BUCKETS,
    ensures
        r@ == ({
            let buckets = Seq::new(
                CHART_BUCKETS as nat,
                |k: int|
                    ModelBucket {
                        tps: acc.cells@[k].speed(),
                        calls: acc.cells@[k].calls,
                        tokens: acc.cells@[k].eff,
                    },
            );
            SeriesView {
                model: acc.model@,
                buckets,
                total_calls: acc.total.calls,
                total_tokens: acc.total.eff,
                avg_tps: acc.total.speed(),
                peak_tps: peak_of(buckets),
                share: Share { part: acc.total.eff, whole },
            }
        }),
{
    let mut buckets: Vec<ModelBucket> = Vec::new();
    let mut peak: Rate = Rate::zero();
    let ghost goal = Seq::new(
        CHART_BUCKETS as nat,
        |k: int|
            ModelBucket {
                tps: acc.cells@[k].speed(),
                calls: acc.cells@[k].calls,
                tokens: acc.cells@[k].eff,
            },
    );
    for k in 0..CHART_BUCKETS
        invariant
            acc.cells@.len() == CHART_BUCKETS,
            goal == Seq::new(
                CHART_BUCKETS as nat,
                |k: int|
                    ModelBucket {
                        tps: acc.cells@[k].speed(),
                        calls: acc.cells@[k].calls,
                        tokens: acc.cells@[k].eff,
                    },
            ),
            buckets@ == goal.take(k as int),
            peak == peak_of(goal.take(k as int)),
    {
        let cell: Cell = acc.cells[k];
        let b = ModelBucket { tps: cell.tps(), calls: cell.calls, tokens: cell.eff };
        assert(goal.take(k + 1) =~= goal.take(k as int).push(b));
        assert(goal.take(k + 1).drop_last() =~= goal.take(k as int));
        if b.tps.is_faster(&peak) {
            peak = b.tps;
        }
        buckets.push(b);
    }
    assert(goal.take(CHART_BUCKETS as int) =~= goal);
    ModelSeries {
        model: acc.model.clone(),
        buckets,
        total_calls: acc.total.calls,
        total_tokens: acc.total.eff,
        avg_tps: acc.total.tps(),
        peak_tps: peak,
        share: Share { part: acc.total.eff, whole },
    }
}

/// The speed of each model over time: of the calls that were completed in the window
/// nearest to the wished one, by model and bucket.
pub fn aggregate_model_stats(rows: &[ModelUsageRow], window_min: i64, now_ms: i64) -> (r:
    ModelStatsPayload)
    ensures
        r.window_min == nearest_window(window_min as int),
        r.bucket_ms == bucket_width(r.window_min),
        r.now_ms == now_ms,
        series_view(r.series@) == all_series(usage_view(rows@), now_ms, r.bucket_ms),
{
    let window: i64 = clamp_chart_window(window_min);
    let width: i64 = width_of(window);
    let ghost rv = usage_view(rows@);
    let now_slot: i64 = clock::floor_div(now_ms, width);
    let mut accs: Vec<ModelAcc> = Vec::new();
    let mut whole = Cell::zero();
    proof {
        assert(rv.take(0) =~= Seq::empty());
        assert(acc_models(accs@) =~= models_seen(rv.take(0), now_ms, width));
    }
    for i in 0..rows.len()
        invariant
            rv == usage_view(rows@),
            width > 1,
            now_slot == now_ms as int / width as int,
            acc_models(accs@) == models_seen(rv.take(i as int), now_ms, width),
            acc_models(accs@).no_duplicates(),
            forall|k: int|
                0 <= k < accs@.len() ==> acc_holds(
                    #[trigger] accs@[k],
                    rv.take(i as int),
                    now_ms,
                    width,
                ),
            whole == cell_where(rv.take(i as int), in_chart(now_ms, width)),
    {
        let row: &ModelUsageRow = &rows[i];
        let slot: i128 = slot_of(row, now_slot, now_ms, width);
        proof {
            assert(rv[i as int] == row@);
            lemma_cell_step(rv, in_chart(now_ms, width), i as int);
        }
        if slot >= 0 && slot < CHART_BUCKETS as i128 {
            add_row(&mut accs, row, slot as usize, Ghost(rv), Ghost(i as int), now_ms, width);
            whole = whole.plus(row.tokens(), row.generated_ms());
        } else {
            proof {
                assert(rv.take(i + 1).drop_last() =~= rv.take(i as int));
                assert forall|k: int| 0 <= k < accs@.len() implies acc_holds(
                    #[trigger] accs@[k],
                    rv.take(i + 1),
                    now_ms,
                    width,
                ) by {
                    let a = accs@[k];
                    assert(acc_holds(a, rv.take(i as int), now_ms, width));
                    assert forall|j: int| 0 <= j < CHART_BUCKETS implies #[trigger] a.cells@[j]
                        == cell_where(rv.take(i + 1), model_at_slot(a.model@, now_ms, width, j)) by {
                        lemma_cell_step(rv, model_at_slot(a.model@, now_ms, width, j), i as int);
                    }
                    lemma_cell_step(rv, model_in_chart(a.model@, now_ms, width), i as int);
                }
            }
        }
    }
    assert(rv.take(rv.len() as int) =~= rv);
    let mut series: Vec<ModelSeries> = Vec::new();
    let ghost names = models_seen(rv, now_ms, width);
    let ghost goal = names.map_values(|m: Seq<char>| series_of(rv, m, now_ms, width));
    for i in 0..accs.len()
        invariant
            acc_models(accs@) == names,
            goal == names.map_values(|m: Seq<char>| series_of(rv, m, now_ms, width)),
            forall|k: int| 0 <= k < accs@.len() ==> acc_holds(#[trigger] accs@[k], rv, now_ms, width),
            whole == cell_where(rv, in_chart(now_ms, width)),
            series_view(series@) == goal.take(i as int),
    {
        let ghost before = series_view(series@);
        assert(acc_holds(accs@[i as int], rv, now_ms, width));
        let one = finish_series(&accs[i], whole.eff);
        proof {
            assert(names[i as int] == accs@[i as int].model@);
            assert(one@.buckets =~= model_buckets(rv, names[i as int], now_ms, width));
            assert(one@ =~= series_of(rv, names[i as int], now_ms, width));
        }
        let ghost v = one@;
        series.push(one);
        assert(series_view(series@) =~= before.push(v));
        assert(goal.take(i + 1) =~= goal.take(i as int).push(goal[i as int]));
    }
    assert(goal.take(goal.len() as int) =~= goal);
    proof {
        order::lemma_ranked_map(series@, |m: ModelSeries| m@);
    }
    ModelStatsPayload { window_min: window, bucket_ms: width, now_ms, series: order::sort(series) }
}

/// The series that are shown where the calls cannot be read: none.
pub fn empty_model_stats(window_min: i64, now_ms: i64) -> (r: ModelStatsPayload)
    ensures
        r.window_min == nearest_window(window_min as int),
        r.bucket_ms == bucket_width(r.window_min),
        r.now_ms == now_ms,
        r.series@.len() == 0,
{
    let window: i64 = clamp_chart_window(window_min);
    ModelStatsPayload { window_min: window, bucket_ms: width_of(window), now_ms, series: Vec::new() }
}

/// The charts are fixed to the clock: two queries within the same bucket of the clock give
/// the same buckets, so that a curve only moves along and never deforms.
pub proof fn law_charts_are_fixed_to_the_clock(
    rows: Seq<UsageView>,
    model: Seq<char>,
    now: i64,
    later: i64,
    width: i64,
)
    requires
        now as int / width as int == later as int / width as int,
    ensures
        chart_of(rows, now, width) == chart_of(rows, later, width),
        model_buckets(rows, model, now, width) == model_buckets(rows, model, later, width),
        all_series(rows, now, width) == all_series(rows, later, width),
{
    assert forall|k: int| at_slot(now, width, k) == #[trigger] at_slot(later, width, k) by {
        assert(at_slot(now, width, k) =~= at_slot(later, width, k));
    }
    assert forall|m: Seq<char>, k: int|
        model_at_slot(m, now, width, k) == #[trigger] model_at_slot(m, later, width, k) by {
        assert(model_at_slot(m, now, width, k) =~= model_at_slot(m, later, width, k));
    }
    assert forall|m: Seq<char>| model_in_chart(m, now, width) == #[trigger] model_in_chart(
        m,
        later,
        width,
    ) by {
        assert(model_in_chart(m, now, width) =~= model_in_chart(m, later, width));
    }
    assert(in_chart(now, width) =~= in_chart(later, width));
    assert(chart_of(rows, now, width) =~= chart_of(rows, later, width));
    assert forall|m: Seq<char>| model_buckets(rows, m, now, width) == #[trigger] model_buckets(
        rows,
        m,
        later,
        width,
    ) by {
        assert(model_buckets(rows, m, now, width) =~= model_buckets(rows, m, later, width));
    }
    lemma_models_seen_same(rows, now, later, width);
    let names = models_seen(rows, now, width);
    assert(names.map_values(|m: Seq<char>| series_of(rows, m, now, width)) =~= names.map_values(
        |m: Seq<char>| series_of(rows, m, later, width),
    ));
}

proof fn lemma_models_seen_same(rows: Seq<UsageView>, now: i64, later: i64, width: i64)
    requires
        now as int / width as int == later as int / width as int,
    ensures
        models_seen(rows, now, width) == models_seen(rows, later, width),
    decreases rows.len(),
{
    if rows.len() > 0 {
        lemma_models_seen_same(rows.drop_last(), now, later, width);
    }
}

/// The rows are those of the calls: each was completed when the call was, with its tokens and
/// its generation time.
pub open spec fn rows_of_calls(rows: Seq<UsageView>, calls: Seq<CallView>) -> bool {
    &&& rows.len() == calls.len()
    &&& forall|i: int|
        0 <= i < rows.len() ==> {
            &&& (#[trigger] rows[i]).completed_at == calls[i].completed_ms
            &&& rows[i].output_tokens == calls[i].output
            &&& rows[i].reasoning_tokens == calls[i].reasoning
            &&& call::generation_time(
                rows[i].first_token_at,
                rows[i].completed_at,
                rows[i].duration_ms,
            ) == calls[i].gen_ms
        }
}

proof fn lemma_bucket_of_calls(rows: Seq<UsageView>, calls: Seq<CallView>, now: i64, back: int)
    requires
        rows_of_calls(rows, calls),
    ensures
        ({
            let slot = at_slot(now, aggregate::SPARK_BUCKET_MS, back);
            let bucket = aggregate::in_bucket(now, back);
            &&& sum_where(rows, tokens_of(), slot) == aggregate::eff_where(calls, bucket)
            &&& sum_where(rows, time_of(), slot) == aggregate::gen_where(calls, bucket)
        }),
    decreases rows.len(),
{
    if rows.len() > 0 {
        let d = rows.drop_last();
        let e = calls.drop_last();
        assert forall|i: int| 0 <= i < d.len() implies {
            &&& (#[trigger] d[i]).completed_at == e[i].completed_ms
            &&& d[i].output_tokens == e[i].output
            &&& d[i].reasoning_tokens == e[i].reasoning
            &&& call::generation_time(d[i].first_token_at, d[i].completed_at, d[i].duration_ms)
                == e[i].gen_ms
        } by {
            assert(d[i] == rows[i]);
        }
        lemma_bucket_of_calls(d, e, now, back);
        assert(rows[rows.len() - 1] == rows.last());
    }
}

/// The chart of the shortest window is the curve of the figures: every bucket but the newest is
/// the same, and the newest is too while no call is taken to be generating.
pub proof fn law_shortest_chart_is_the_curve(rows: Seq<UsageView>, calls: Seq<CallView>, now: i64)
    requires
        rows_of_calls(rows, calls),
    ensures
        ({
            let chart = chart_of(rows, now, bucket_width(nearest_window(15)));
            let curve = aggregate::spark_of(calls, now);
            &&& chart.len() == curve.len()
            &&& forall|i: int| 0 <= i < chart.len() - 1 ==> #[trigger] chart[i] == curve[i]
            &&& !aggregate::estimating(calls, now) ==> chart == curve
        }),
{
    let chart = chart_of(rows, now, bucket_width(nearest_window(15)));
    let curve = aggregate::spark_of(calls, now);
    assert(bucket_width(nearest_window(15)) == aggregate::SPARK_BUCKET_MS);
    assert forall|i: int|
        0 <= i < chart.len() && (i < chart.len() - 1 || !aggregate::estimating(
            calls,
            now,
        )) implies #[trigger] chart[i] == curve[i] by {
        lemma_bucket_of_calls(rows, calls, now, CHART_BUCKETS - 1 - i);
    }
    if !aggregate::estimating(calls, now) {
        assert(chart =~= curve);
    }
}

/// The sum of a quantity of the rows of a model over its first `n` buckets.
pub open spec fn sum_over_slots(
    rows: Seq<UsageView>,
    f: spec_fn(UsageView) -> int,
    model: Seq<char>,
    now: i64,
    width: i64,
    n: nat,
) -> int
    decreases n,
{
    if n == 0 {
        0
    } else {
        sum_over_slots(rows, f, model, now, width, (n - 1) as nat) + sum_where(
            rows,
            f,
            model_at_slot(model, now, width, n - 1),
        )
    }
}

proof fn lemma_slots_step(
    rows: Seq<UsageView>,
    f: spec_fn(UsageView) -> int,
    model: Seq<char>,
    now: i64,
    width: i64,
    n: nat,
)
    requires
        rows.len() > 0,
    ensures
        sum_over_slots(rows, f, model, now, width, n) == sum_over_slots(
            rows.drop_last(),
            f,
            model,
            now,
            width,
            n,
        ) + (if rows.last().model == model && 0 <= rows.last().slot(now, width) < n {
            f(rows.last())
        } else {
            0
        }),
    decreases n,
{
    if n > 0 {
        lemma_slots_step(rows, f, model, now, width, (n - 1) as nat);
    }
}

/// Nothing in the window is lost or counted twice: the buckets of a model add up to its
/// total, for tokens, for generation time and for calls alike.
pub proof fn law_buckets_add_up(
    rows: Seq<UsageView>,
    f: spec_fn(UsageView) -> int,
    model: Seq<char>,
    now: i64,
    width: i64,
)
    ensures
        sum_over_slots(rows, f, model, now, width, CHART_BUCKETS as nat) == sum_where(
            rows,
            f,
            model_in_chart(model, now, width),
        ),
    decreases rows.len(),
{
    if rows.len() > 0 {
        law_buckets_add_up(rows.drop_last(), f, model, now, width);
        lemma_slots_step(rows, f, model, now, width, CHART_BUCKETS as nat);
    } else {
        lemma_no_rows(f, model, now, width, CHART_BUCKETS as nat, rows);
    }
}

proof fn lemma_no_rows(
    f: spec_fn(UsageView) -> int,
    model: Seq<char>,
    now: i64,
    width: i64,
    n: nat,
    rows: Seq<UsageView>,
)
    requires
        rows.len() == 0,
    ensures
        sum_over_slots(rows, f, model, now, width, n) == 0,
    decreases n,
{
    if n > 0 {
        lemma_no_rows(f, model, now, width, (n - 1) as nat, rows);
    }
}

/// The sum of a quantity over models, of the rows that lie so many buckets back.
pub open spec fn sum_over_models(
    rows: Seq<UsageView>,
    f: spec_fn(UsageView) -> int,
    models: Seq<Seq<char>>,
    now: i64,
    width: i64,
    k: int,
) -> int
    decreases models.len(),
{
    if models.len() == 0 {
        0
    } else {
        sum_over_models(rows, f, models.drop_last(), now, width, k) + sum_where(
            rows,
            f,
            model_at_slot(models.last(), now, width, k),
        )
    }
}

proof fn lemma_models_step(
    rows: Seq<UsageView>,
    f: spec_fn(UsageView) -> int,
    models: Seq<Seq<char>>,
    now: i64,
    width: i64,
    k: int,
)
    requires
        rows.len() > 0,
        models.no_duplicates(),
    ensures
        sum_over_models(rows, f, models, now, width, k) == sum_over_models(
            rows.drop_last(),
            f,
            models,
            now,
            width,
            k,
        ) + (if models.contains(rows.last().model) && rows.last().slot(now, width) == k {
            f(rows.last())
        } else {
            0
        }),
    decreases models.len(),
{
    if models.len() > 0 {
        let front = models.drop_last();
        let m = rows.last().model;
        lemma_models_step(rows, f, front, now, width, k);
        assert(models.contains(m) <==> front.contains(m) || models.last() == m) by {
            if models.contains(m) {
                let i = choose|i: int| 0 <= i < models.len() && models[i] == m;
                if i < front.len() {
                    assert(front[i] == m);
                }
            }
            if front.contains(m) {
                let i = choose|i: int| 0 <= i < front.len() && front[i] == m;
                assert(models[i] == m);
            }
            assert(models[models.len() - 1] == models.last());
        }
        if front.contains(m) {
            let i = choose|i: int| 0 <= i < front.len() && front[i] == m;
            assert(models[i] != models[models.len() - 1]);
        }
    }
}

proof fn lemma_models_of_no_rows(
    rows: Seq<UsageView>,
    f: spec_fn(UsageView) -> int,
    models: Seq<Seq<char>>,
    now: i64,
    width: i64,
    k: int,
)
    requires
        rows.len() == 0,
    ensures
        sum_over_models(rows, f, models, now, width, k) == 0,
    decreases models.len(),
{
    if models.len() > 0 {
        lemma_models_of_no_rows(rows, f, models.drop_last(), now, width, k);
    }
}

/// The two views agree: in every bucket, what the models have add up to what the common
/// curve has. `models` are any models, each once, among which are all that occur in the
/// bucket.
pub proof fn law_models_add_up_to_the_curve(
    rows: Seq<UsageView>,
    f: spec_fn(UsageView) -> int,
    models: Seq<Seq<char>>,
    now: i64,
    width: i64,
    k: int,
)
    requires
        models.no_duplicates(),
        forall|i: int|
            0 <= i < rows.len() && (#[trigger] rows[i]).slot(now, width) == k ==> models.contains(
                rows[i].model,
            ),
    ensures
        sum_over_models(rows, f, models, now, width, k) == sum_where(
            rows,
            f,
            at_slot(now, width, k),
        ),
    decreases rows.len(),
{
    if rows.len() > 0 {
        let d = rows.drop_last();
        assert forall|i: int|
            0 <= i < d.len() && (#[trigger] d[i]).slot(now, width) == k implies models.contains(
            d[i].model,
        ) by {
            assert(rows[i] == d[i]);
        }
        law_models_add_up_to_the_curve(d, f, models, now, width, k);
        lemma_models_step(rows, f, models, now, width, k);
        assert(rows[rows.len() - 1] == rows.last());
    } else {
        lemma_models_of_no_rows(rows, f, models, now, width, k);
    }
}

proof fn lemma_sum_is_fold(
    rows: Seq<UsageView>,
    f: spec_fn(UsageView) -> int,
    cond: spec_fn(UsageView) -> bool,
)
    ensures
        sum_where(rows, f, cond) == rows.filter(cond).fold_left(
            0int,
            |a: int, r: UsageView| a + f(r),
        ),
    decreases rows.len(),
{
    reveal(Seq::filter);
    if rows.len() > 0 {
        let d = rows.drop_last();
        lemma_sum_is_fold(d, f, cond);
        if cond(rows.last()) {
            assert(d.filter(cond).push(rows.last()).drop_last() =~= d.filter(cond));
        }
    } else {
        assert(rows.filter(cond) =~= rows);
    }
}

/// The tokens of rows added up.
pub open spec fn tokens_added(rows: Seq<UsageView>) -> int {
    rows.fold_left(
        0int,
        |a: int, r: UsageView|
            a + (if r.output_tokens + r.reasoning_tokens <= u64::MAX {
                r.output_tokens + r.reasoning_tokens
            } else {
                u64::MAX as int
            }),
    )
}

/// The times for which the calls of rows generated added up.
pub open spec fn time_added(rows: Seq<UsageView>) -> int {
    rows.fold_left(
        0int,
        |a: int, r: UsageView|
            a + call::generation_time(r.first_token_at, r.completed_at, r.duration_ms) as u64,
    )
}

proof fn lemma_cell_is_sum(rows: Seq<UsageView>, cond: spec_fn(UsageView) -> bool)
    ensures
        cell_where(rows, cond).eff == rate::clip(tokens_added(rows.filter(cond))),
        cell_where(rows, cond).gen_ms == rate::clip(time_added(rows.filter(cond))),
        cell_where(rows, cond).calls == rate::clip(rows.filter(cond).len() as int),
{
    lemma_sum_is_fold(rows, tokens_of(), cond);
    lemma_sum_is_fold(rows, time_of(), cond);
    lemma_sum_is_count(rows, cond);
    let f = tokens_of();
    let g = time_of();
    assert((|a: int, r: UsageView| a + f(r)) =~= (|a: int, r: UsageView|
        a + (if r.output_tokens + r.reasoning_tokens <= u64::MAX {
            r.output_tokens + r.reasoning_tokens
        } else {
            u64::MAX as int
        })));
    assert((|a: int, r: UsageView| a + g(r)) =~= (|a: int, r: UsageView|
        a + call::generation_time(r.first_token_at, r.completed_at, r.duration_ms) as u64));
}

proof fn lemma_sum_is_count(rows: Seq<UsageView>, cond: spec_fn(UsageView) -> bool)
    ensures
        sum_where(rows, count_of(), cond) == rows.filter(cond).len(),
    decreases rows.len(),
{
    reveal(Seq::filter);
    if rows.len() > 0 {
        lemma_sum_is_count(rows.drop_last(), cond);
    }
}

/// Each bucket of the chart holds the calls that were completed in its time, the newest bucket
/// standing last: its speed is their tokens over their generation time.
pub proof fn law_chart_buckets_are_sums(rows: Seq<UsageView>, now: i64, width: i64, i: int)
    requires
        0 <= i < 90,
        width > 0,
    ensures
        chart_of(rows, now, width).len() == 90,
        ({
            let then = rows.filter(
                |r: UsageView|
                    now as int / width as int - r.completed_at as int / width as int == 89 - i,
            );
            chart_of(rows, now, width)[i] == (Rate {
                tokens: rate::clip(tokens_added(then)),
                ms: rate::clip(time_added(then)),
            })
        }),
{
    let cond = at_slot(now, width, 89 - i);
    lemma_cell_is_sum(rows, cond);
    assert(cond =~= (|r: UsageView|
        now as int / width as int - r.completed_at as int / width as int == 89 - i));
}

proof fn lemma_models_seen(rows: Seq<UsageView>, now: i64, width: i64, model: Seq<char>)
    ensures
        models_seen(rows, now, width).contains(model) <==> exists|i: int|
            0 <= i < rows.len() && (#[trigger] rows[i]).model == model && in_chart(now, width)(
                rows[i],
            ),
    decreases rows.len(),
{
    if rows.len() > 0 {
        let d = rows.drop_last();
        let front = models_seen(d, now, width);
        let all = models_seen(rows, now, width);
        lemma_models_seen(d, now, width, model);
        assert(rows[rows.len() - 1] == rows.last());
        if front.contains(model) {
            let k = choose|k: int| 0 <= k < front.len() && front[k] == model;
            assert(all[k] == model);
            let i = choose|i: int|
                0 <= i < d.len() && (#[trigger] d[i]).model == model && in_chart(now, width)(d[i]);
            assert(rows[i] == d[i]);
        }
        if all.contains(model) && !front.contains(model) {
            let k = choose|k: int| 0 <= k < all.len() && all[k] == model;
            if k < front.len() {
                assert(front[k] == model);
            }
        }
        if exists|i: int|
            0 <= i < rows.len() && (#[trigger] rows[i]).model == model && in_chart(now, width)(
                rows[i],
            ) {
            let i = choose|i: int|
                0 <= i < rows.len() && (#[trigger] rows[i]).model == model && in_chart(now, width)(
                    rows[i],
                );
            if i < d.len() {
                assert(d[i] == rows[i]);
            } else if !front.contains(model) {
                assert(all[front.len() as int] == model);
            }
        }
    }
}

proof fn lemma_peak(buckets: Seq<ModelBucket>)
    ensures
        forall|i: int| 0 <= i < buckets.len() ==> !(#[trigger] buckets[i]).tps.faster(
            peak_of(buckets),
        ),
        peak_of(buckets) == Rate::none() || exists|i: int|
            0 <= i < buckets.len() && (#[trigger] buckets[i]).tps == peak_of(buckets),
    decreases buckets.len(),
{
    if buckets.len() > 0 {
        let d = buckets.drop_last();
        lemma_peak(d);
        let last = buckets.last().tps;
        let front = peak_of(d);
        assert forall|i: int| 0 <= i < buckets.len() implies !(#[trigger] buckets[i]).tps.faster(
            peak_of(buckets),
        ) by {
            rate::law_faster_is_an_order(last, front, front);
            if i < d.len() {
                assert(d[i] == buckets[i]);
                rate::law_faster_is_an_order(buckets[i].tps, front, last);
                rate::law_faster_is_an_order(last, front, last);
            }
        }
        if peak_of(buckets) == last {
            assert(buckets[buckets.len() - 1].tps == last);
        } else if front != Rate::none() {
            let i = choose|i: int| 0 <= i < d.len() && (#[trigger] d[i]).tps == front;
            assert(buckets[i].tps == front);
        }
    }
}

proof fn lemma_models_once(rows: Seq<UsageView>, now: i64, width: i64)
    ensures
        models_seen(rows, now, width).no_duplicates(),
    decreases rows.len(),
{
    if rows.len() > 0 {
        lemma_models_once(rows.drop_last(), now, width);
    }
}

/// Each model that has a call in the chart has one series, and no other has one.
pub proof fn law_series_are_of_the_models(
    rows: Seq<UsageView>,
    now: i64,
    width: i64,
    model: Seq<char>,
)
    ensures
        (exists|n: int|
            0 <= n < all_series(rows, now, width).len() && (#[trigger] all_series(
                rows,
                now,
                width,
            )[n]).model == model) <==> exists|n: int|
            0 <= n < rows.len() && (#[trigger] rows[n]).model == model && 0 <= (now as int
                / width as int - rows[n].completed_at as int / width as int) < 90,
        forall|i: int, j: int|
            0 <= i < j < all_series(rows, now, width).len() ==> (#[trigger] all_series(
                rows,
                now,
                width,
            )[i]).model != (#[trigger] all_series(rows, now, width)[j]).model,
{
    broadcast use vstd::seq_lib::group_to_multiset_ensures;

    let seen = models_seen(rows, now, width);
    let g = |m: Seq<char>| series_of(rows, m, now, width);
    let list = seen.map_values(g);
    let r = all_series(rows, now, width);
    order::law_ranked_is_sorted_permutation(list);
    lemma_models_seen(rows, now, width, model);
    if seen.contains(model) {
        let n = choose|n: int| 0 <= n < seen.len() && seen[n] == model;
        assert(list[n] == g(model));
        assert(list.contains(g(model)));
        assert(list.to_multiset().count(g(model)) > 0);
        assert(r.contains(g(model)));
        let m = choose|m: int| 0 <= m < r.len() && r[m] == g(model);
        assert(r[m].model == model);
    }
    if exists|n: int| 0 <= n < r.len() && (#[trigger] r[n]).model == model {
        let n = choose|n: int| 0 <= n < r.len() && (#[trigger] r[n]).model == model;
        order::lemma_ranked_members(list, n);
        let m = choose|m: int| 0 <= m < list.len() && list[m] == r[n];
        assert(seen[m] == model);
    }
    lemma_models_once(rows, now, width);
    assert(list.no_duplicates()) by {
        assert forall|i: int, j: int| 0 <= i < list.len() && 0 <= j < list.len() && i != j implies list[i]
            != list[j] by {
            assert(list[i].model == seen[i] && list[j].model == seen[j]);
        }
    }
    list.lemma_multiset_has_no_duplicates();
    r.lemma_multiset_has_no_duplicates_conv();
    assert forall|i: int, j: int| 0 <= i < j < r.len() implies (#[trigger] r[i]).model != (
    #[trigger] r[j]).model by {
        order::lemma_ranked_members(list, i);
        order::lemma_ranked_members(list, j);
        assert(r[i] == g(r[i].model));
        assert(r[j] == g(r[j].model));
    }
}

/// The model with more tokens comes first; of two with the same number, that which comes first
/// in the alphabet.
pub proof fn law_series_go_by_tokens(rows: Seq<UsageView>, now: i64, width: i64, i: int, j: int)
    requires
        0 <= i < j < all_series(rows, now, width).len(),
    ensures
        ({
            let a = all_series(rows, now, width)[i];
            let b = all_series(rows, now, width)[j];
            a.total_tokens > b.total_tokens || a.total_tokens == b.total_tokens && !text::lex_before(
                b.model,
                a.model,
            )
        }),
{
    let seen = models_seen(rows, now, width);
    let list = seen.map_values(|m: Seq<char>| series_of(rows, m, now, width));
    order::law_ranked_is_sorted_permutation(list);
    let r = all_series(rows, now, width);
    assert(!r[j].before(r[i]));
}

/// What a series says is what the calls of its model add up to: their number, their tokens,
/// their speed, and their part of all tokens in the chart. Each bucket says so of the calls of
/// its time, the newest first, and no bucket is faster than the peak.
pub proof fn law_series_tell_of_their_models(
    rows: Seq<UsageView>,
    now: i64,
    width: i64,
    i: int,
    k: int,
)
    requires
        0 <= i < all_series(rows, now, width).len(),
        0 <= k < 90,
    ensures
        ({
            let s = all_series(rows, now, width)[i];
            let all = rows.filter(
                |r: UsageView|
                    0 <= (now as int / width as int - r.completed_at as int / width as int) < 90,
            );
            let own = rows.filter(
                |r: UsageView|
                    r.model == s.model && 0 <= (now as int / width as int - r.completed_at as int
                        / width as int) < 90,
            );
            let then = rows.filter(
                |r: UsageView|
                    r.model == s.model && now as int / width as int - r.completed_at as int
                        / width as int == k,
            );
            &&& s.total_calls == rate::clip(own.len() as int)
            &&& s.total_tokens == rate::clip(tokens_added(own))
            &&& s.avg_tps == (Rate {
                tokens: rate::clip(tokens_added(own)),
                ms: rate::clip(time_added(own)),
            })
            &&& s.share == (Share {
                part: rate::clip(tokens_added(own)),
                whole: rate::clip(tokens_added(all)),
            })
            &&& s.buckets.len() == 90
            &&& s.buckets[k].calls == rate::clip(then.len() as int)
            &&& s.buckets[k].tokens == rate::clip(tokens_added(then))
            &&& s.buckets[k].tps == (Rate {
                tokens: rate::clip(tokens_added(then)),
                ms: rate::clip(time_added(then)),
            })
            &&& !s.buckets[k].tps.faster(s.peak_tps)
            &&& s.peak_tps == Rate::none() || exists|n: int|
                0 <= n < 90 && (#[trigger] s.buckets[n]).tps == s.peak_tps
        }),
{
    let seen = models_seen(rows, now, width);
    let g = |m: Seq<char>| series_of(rows, m, now, width);
    let list = seen.map_values(g);
    let s = all_series(rows, now, width)[i];
    order::lemma_ranked_members(list, i);
    let m = choose|m: int| 0 <= m < list.len() && list[m] == s;
    assert(s == g(seen[m]));
    lemma_peak(s.buckets);
    let a = in_chart(now, width);
    let b = model_in_chart(s.model, now, width);
    let c = model_at_slot(s.model, now, width, k);
    lemma_cell_is_sum(rows, a);
    lemma_cell_is_sum(rows, b);
    lemma_cell_is_sum(rows, c);
    assert(a =~= (|r: UsageView|
        0 <= (now as int / width as int - r.completed_at as int / width as int) < 90));
    assert(b =~= (|r: UsageView|
        r.model == s.model && 0 <= (now as int / width as int - r.completed_at as int
            / width as int) < 90));
    assert(c =~= (|r: UsageView|
        r.model == s.model && now as int / width as int - r.completed_at as int / width as int
            == k));
}

/// The buckets of a chart fill its window.
pub proof fn law_buckets_fill_the_window(wish: int)
    ensures
        bucket_width(nearest_window(wish)) * 90 == nearest_window(wish) * 60_000,
{
}

} // verus!
