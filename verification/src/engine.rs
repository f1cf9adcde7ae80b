//! The calls of the usage database, taken in as they are completed.

use vstd::prelude::*;

use crate::aggregate;
use crate::aggregate::Aggregator;
use crate::call;
use crate::call::{Call, CallView};
use crate::chart;
use crate::chart::{ChartStatsPayload, ModelStatsPayload, ModelUsageRow};
use crate::clock;
use crate::figures::{NetView, Snapshot};
use crate::history;
use crate::history::{HistDay, HistoryStats};
use crate::inflight;
use crate::rate;
use crate::rate::Rate;
use crate::settle;
use crate::stream;
use crate::strmap::StrMap;
use crate::text;

verus! {

/// A completed call as the usage database records it. Counts may be missing there, or
/// negative.
#[derive(Debug)]
pub struct UsageRow {
    pub id: String,
    pub started_at: i64,
    pub first_token_at: Option<i64>,
    pub completed_at: i64,
    pub duration_ms: Option<i64>,
    pub output_tokens: Option<i64>,
    pub reasoning_tokens: Option<i64>,
    pub input_tokens: Option<i64>,
    pub cache_creation_tokens: Option<i64>,
    pub cache_read_tokens: Option<i64>,
    pub session_id: String,
}

/// A completed call of an earlier day.
#[derive(Clone, Copy, Debug)]
pub struct HistoryRow {
    pub first_token_at: Option<i64>,
    pub completed_at: i64,
    pub duration_ms: Option<i64>,
    pub output_tokens: Option<i64>,
    pub reasoning_tokens: Option<i64>,
}

/// A recorded count; what is missing or negative is zero.
pub open spec fn count(v: Option<i64>) -> u64 {
    match v {
        Some(x) if x > 0 => x as u64,
        _ => 0,
    }
}

/// A recorded count; what is missing or negative is zero.
pub fn count_of(v: Option<i64>) -> (r: u64)
    ensures
        r == count(v),
        r <= i64::MAX,
{
    match v {
        Some(x) if x > 0 => x as u64,
        _ => 0,
    }
}

/// The call that a row records.
pub open spec fn call_of(r: UsageRow) -> CallView {
    CallView {
        id: r.id@,
        started_ms: r.started_at,
        first_token_ms: r.first_token_at,
        completed_ms: r.completed_at,
        gen_ms: call::generation_time(r.first_token_at, r.completed_at, r.duration_ms),
        output: count(r.output_tokens),
        reasoning: count(r.reasoning_tokens),
        input: count(r.input_tokens),
        cache_creation: count(r.cache_creation_tokens),
        cache_read: count(r.cache_read_tokens),
        session: r.session_id@,
    }
}

/// The call that a row records.
pub fn to_call(r: &UsageRow) -> (c: Call)
    ensures
        c@ == call_of(*r),
{
    Call {
        id: r.id.clone(),
        started_ms: r.started_at,
        first_token_ms: r.first_token_at,
        completed_ms: r.completed_at,
        gen_ms: call::gen_ms_from(r.first_token_at, r.completed_at, r.duration_ms),
        output: count_of(r.output_tokens),
        reasoning: count_of(r.reasoning_tokens),
        input: count_of(r.input_tokens),
        cache_creation: count_of(r.cache_creation_tokens),
        cache_read: count_of(r.cache_read_tokens),
        session: r.session_id.clone(),
    }
}

/// What has been taken in.
#[verifier::ext_equal]
pub struct Books {
    /// The calls of today.
    pub calls: Seq<CallView>,
    /// The keys of all rows taken in today.
    pub ingested: Map<Seq<char>, ()>,
    /// The days of the history.
    pub days: Seq<HistDay>,
    /// The calls that were new.
    pub fresh: Seq<CallView>,
}

/// After a row whose day began then: a row that is known changes nothing; a new one is a
/// call of today, is new, and counts in the history of its day.
pub open spec fn booked(b: Books, r: UsageRow, day: i64) -> Books {
    if b.ingested.contains_key(r.id@) {
        b
    } else {
        let c = call_of(r);
        Books {
            calls: b.calls.push(c),
            ingested: b.ingested.insert(r.id@, ()),
            days: history::folded(
                b.days,
                day,
                c.first_token_ms,
                c.completed_ms,
                c.gen_ms,
                c.eff(),
            ),
            fresh: b.fresh.push(c),
        }
    }
}

/// After several rows.
pub open spec fn all_booked(b: Books, rows: Seq<UsageRow>, days: Seq<i64>) -> Books
    decreases rows.len(),
{
    if rows.len() == 0 {
        b
    } else {
        booked(
            all_booked(b, rows.drop_last(), days.drop_last()),
            rows.last(),
            days.last(),
        )
    }
}

/// The calls that were completed from a time on.
pub open spec fn completed_from(calls: Seq<CallView>, from: i64) -> Seq<CallView>
    decreases calls.len(),
{
    if calls.len() == 0 {
        Seq::empty()
    } else {
        let front = completed_from(calls.drop_last(), from);
        if calls.last().completed_ms >= from {
            front.push(calls.last())
        } else {
            front
        }
    }
}

/// What is left when a poll is over: the calls that were completed today, and nothing new.
pub open spec fn retained(b: Books, today_start: i64) -> Books {
    Books { calls: completed_from(b.calls, today_start), fresh: Seq::empty(), ..b }
}

/// The history after rows of earlier days.
pub open spec fn with_history(days: Seq<HistDay>, rows: Seq<HistoryRow>, starts: Seq<i64>) -> Seq<
    HistDay,
>
    decreases rows.len(),
{
    if rows.len() == 0 {
        days
    } else {
        let r = rows.last();
        history::folded(
            with_history(days, rows.drop_last(), starts.drop_last()),
            starts.last(),
            r.first_token_at,
            r.completed_at,
            call::generation_time(r.first_token_at, r.completed_at, r.duration_ms),
            rate::clip(count(r.output_tokens) + count(r.reasoning_tokens)),
        )
    }
}

/// After a poll: the history gets the calls of earlier days if it has not got them yet, and
/// loses the days before the cutoff; then the rows of today are taken in.
pub open spec fn after_poll(
    b: Books,
    loaded: bool,
    earlier: Seq<HistoryRow>,
    starts: Seq<i64>,
    rows: Seq<UsageRow>,
    days: Seq<i64>,
    cutoff: i64,
) -> Books {
    let past = if loaded {
        b.days
    } else {
        with_history(b.days, earlier, starts)
    };
    all_booked(Books { days: history::days_from(past, cutoff), ..b }, rows, days)
}

/// Takes in the usage database.
pub struct Engine {
    /// The calls of today.
    pub agg: Aggregator,
    /// The keys of all rows taken in today.
    pub ingested: StrMap<()>,
    /// The last days.
    pub hist: HistoryStats,
    /// The calls of earlier days have been taken in.
    pub hist_loaded: bool,
    /// Where the database is.
    pub db_path: Option<String>,
    /// The start of the local day at the latest poll that was begun now.
    pub day: Option<i64>,
    /// The start of a day, and that of the history on this day.
    pub window: Option<(i64, i64)>,
}

/// Starts of the local day that are less than this apart are of the same day.
pub const SAME_DAY_MS: i64 = 600_000;

/// What beginning a poll now does: where the start of the day is that of the latest one, nothing
/// changes; else the date is that of the day whose start is given, and on another date than
/// before the calls of today and the keys that were taken in start over.
pub open spec fn started(e: Engine, f: Engine, start: i64) -> bool {
    &&& f.day == Some(start)
    &&& f.window == e.window
    &&& f.hist_loaded == e.hist_loaded
    &&& match e.day {
        Some(q) if -SAME_DAY_MS < start - q < SAME_DAY_MS => f.agg.today_ymd == e.agg.today_ymd
            && f.books() == e.books(),
        _ => {
            &&& exists|now: int|
                clock::clock_shows(now) && #[trigger] clock::starts_day(start as int, now) && (
                clock::in_calendar(now) ==> clock::dated(f.agg.today_ymd, start as int, now))
            &&& f.books() == (if f.agg.today_ymd != e.agg.today_ymd {
                Books { calls: Seq::empty(), ingested: Map::empty(), ..e.books() }
            } else {
                e.books()
            })
        },
    }
}

/// What a poll does, with the starts of the days of its rows and that of the history.
pub open spec fn polled_with(
    e: Engine,
    f: Engine,
    earlier: Seq<HistoryRow>,
    rows: Seq<UsageRow>,
    today_start: i64,
    fresh: Seq<CallView>,
    starts: Seq<i64>,
    days: Seq<i64>,
    cutoff: i64,
) -> bool {
    let b = after_poll(e.books(), e.hist_loaded, earlier, starts, rows, days, cutoff);
    &&& starts.len() == earlier.len()
    &&& days.len() == rows.len()
    &&& forall|i: int|
        0 <= i < days.len() ==> clock::starts_day(
            #[trigger] days[i] as int,
            rows[i].completed_at as int,
        )
    &&& clock::starts_window(cutoff as int, today_start as int)
    &&& match e.window {
        Some((day, start)) if day == today_start => cutoff == start,
        _ => true,
    }
    &&& f.window == Some((today_start, cutoff))
    &&& fresh == b.fresh
    &&& f.books() == retained(b, today_start)
}

/// What a poll does. The start of the history is the same for every poll of the same day.
pub open spec fn polled(
    e: Engine,
    f: Engine,
    earlier: Seq<HistoryRow>,
    rows: Seq<UsageRow>,
    today_start: i64,
    fresh: Seq<CallView>,
) -> bool {
    &&& f.hist_loaded
    &&& f.day == e.day
    &&& f.agg.today_ymd == e.agg.today_ymd
    &&& exists|starts: Seq<i64>, days: Seq<i64>, cutoff: i64| #[trigger]
        polled_with(e, f, earlier, rows, today_start, fresh, starts, days, cutoff)
}

/// A path and a name within it.
pub open spec fn path_join(base: Seq<char>, name: Seq<char>, sep: char) -> Seq<char> {
    if base.len() == 0 || base.last() == sep || base.last() == '/' {
        base + name
    } else {
        base.push(sep) + name
    }
}

/// A path and a name within it.
pub fn joined_path(base: &str, name: &str, sep: char) -> (r: String)
    ensures
        r@ == path_join(base@, name@, sep),
{
    let cs = text::chars_of(base);
    let mut s = text::string_of(&cs);
    let n: usize = cs.len();
    if !(n == 0 || cs[n - 1] == sep || cs[n - 1] == '/') {
        s.push(sep);
    }
    text::push_text(&mut s, name);
    s
}

/// Where the usage database of a home directory is.
pub open spec fn db_path_of(home: Seq<char>, sep: char) -> Seq<char> {
    path_join(
        path_join(path_join(path_join(home, ".zcode"@, sep), "cli"@, sep), "db"@, sep),
        "db.sqlite"@,
        sep,
    )
}

/// Where the usage database is, given the home directory and the separator of paths.
pub fn usage_db_path(home: Option<&str>, sep: char) -> (r: Option<String>)
    ensures
        match r {
            Some(p) => home matches Some(h) && p@ == db_path_of(h@, sep),
            None => home is None,
        },
{
    match home {
        Some(h) => {
            let a = joined_path(h, ".zcode", sep);
            let b = joined_path(a.as_str(), "cli", sep);
            let c = joined_path(b.as_str(), "db", sep);
            Some(joined_path(c.as_str(), "db.sqlite", sep))
        },
        None => None,
    }
}

impl Engine {
    /// The keys are listed once each; the day that was begun has a date, and the start of the
    /// history is that of its day.
    pub open spec fn wf(&self) -> bool {
        &&& self.ingested.wf()
        &&& self.day is Some ==> clock::is_date(self.agg.today_ymd)
        &&& self.window matches Some(w) ==> clock::starts_window(w.1 as int, w.0 as int)
    }

    /// What has been taken in, with nothing new.
    pub open spec fn books(&self) -> Books {
        Books {
            calls: settle::calls_view(self.agg.calls@),
            ingested: self.ingested@,
            days: self.hist.days@,
            fresh: Seq::empty(),
        }
    }

    /// Nothing taken in yet.
    pub fn new(db_path: Option<String>) -> (r: Self)
        ensures
            r.wf(),
            r.books() == (Books {
                calls: Seq::empty(),
                ingested: Map::empty(),
                days: Seq::empty(),
                fresh: Seq::empty(),
            }),
            !r.hist_loaded,
            r.db_path == db_path,
            r.day is None,
            r.window is None,
    {
        let r = Engine {
            agg: Aggregator::new(),
            ingested: StrMap::new(),
            hist: HistoryStats::new(),
            hist_loaded: false,
            db_path,
            day: None,
            window: None,
        };
        assert(r.books().calls =~= Seq::empty());
        r
    }

    /// Where the calls come from, for display.
    pub fn data_source_label(&self) -> (r: String)
        ensures
            r@ == (match self.db_path {
                Some(p) => p@,
                None => "(~/.zcode/cli/db/db.sqlite not found)"@,
            }),
    {
        match &self.db_path {
            Some(p) => p.clone(),
            None => "(~/.zcode/cli/db/db.sqlite not found)".to_owned(),
        }
    }

    /// Begins a poll on a date: on another date than before, the calls of today and the keys
    /// that were taken in start over.
    pub fn begin_poll(&mut self, ymd: (i32, u32, u32))
        requires
            old(self).wf(),
        ensures
            final(self).wf(),
            final(self).agg.today_ymd == ymd,
            final(self).books() == (if ymd != old(self).agg.today_ymd {
                Books { calls: Seq::empty(), ingested: Map::empty(), ..old(self).books() }
            } else {
                old(self).books()
            }),
            final(self).hist_loaded == old(self).hist_loaded,
            final(self).db_path == old(self).db_path,
            final(self).day is None,
            final(self).window == old(self).window,
    {
        if self.agg.rollover_to(ymd) {
            self.ingested.clear();
        }
        self.day = None;
        assert(self.agg.calls@.len() == 0 ==> self.books().calls =~= Seq::empty());
    }

    /// Begins a poll now, on the date of today, and gives the start of the local day. The date is
    /// that of the day whose start is given, and stays as long as the day has the same start.
    pub fn start_poll(&mut self) -> (r: i64)
        requires
            old(self).wf(),
        ensures
            final(self).wf(),
            stream::on_clock(r as int),
            exists|now: int|
                clock::clock_shows(now) && #[trigger] clock::starts_day(r as int, now),
            clock::is_date(final(self).agg.today_ymd),
            final(self).books() == (if final(self).agg.today_ymd != old(self).agg.today_ymd {
                Books { calls: Seq::empty(), ingested: Map::empty(), ..old(self).books() }
            } else {
                old(self).books()
            }),
            final(self).hist_loaded == old(self).hist_loaded,
            final(self).db_path == old(self).db_path,
            started(*old(self), *final(self), r),
    {
        let (ymd, start) = clock::date_and_start();
        let same = match self.day {
            Some(q) => {
                let moved: i128 = start as i128 - q as i128;
                -(SAME_DAY_MS as i128) < moved && moved < SAME_DAY_MS as i128
            },
            None => false,
        };
        if !same {
            self.begin_poll(ymd);
        }
        self.day = Some(start);
        start
    }

    /// Takes in calls of earlier days, each with the start of its day.
    pub fn load_history(&mut self, rows: &[HistoryRow], starts: &[i64])
        requires
            old(self).wf(),
            rows@.len() == starts@.len(),
        ensures
            final(self).wf(),
            final(self).hist_loaded,
            final(self).books() == (Books {
                days: with_history(old(self).books().days, rows@, starts@),
                ..old(self).books()
            }),
            final(self).agg == old(self).agg,
            final(self).db_path == old(self).db_path,
            final(self).day == old(self).day,
            final(self).window == old(self).window,
    {
        fold_history(&mut self.hist, rows, starts);
        self.hist_loaded = true;
    }

    /// Takes in rows of today, each with the start of its day, and gives the calls that are
    /// new. Of the calls of today those stay that were completed today.
    pub fn absorb_with(&mut self, rows: &[UsageRow], days: &[i64], today_start_ms: i64) -> (r: Vec<
        Call,
    >)
        requires
            old(self).wf(),
            rows@.len() == days@.len(),
        ensures
            final(self).wf(),
            ({
                let b = all_booked(old(self).books(), rows@, days@);
                &&& settle::calls_view(r@) == b.fresh
                &&& final(self).books() == retained(b, today_start_ms)
            }),
            final(self).hist_loaded == old(self).hist_loaded,
            final(self).db_path == old(self).db_path,
            final(self).agg.today_ymd == old(self).agg.today_ymd,
            final(self).day == old(self).day,
            final(self).window == old(self).window,
    {
        let mut fresh: Vec<Call> = Vec::new();
        let ghost b0 = self.books();
        proof {
            assert(rows@.take(0) =~= Seq::empty());
            assert(days@.take(0) =~= Seq::empty());
            assert(settle::calls_view(fresh@) =~= Seq::empty());
        }
        for i in 0..rows.len()
            invariant
                self.wf(),
                rows@.len() == days@.len(),
                (Books { fresh: settle::calls_view(fresh@), ..self.books() }) == all_booked(
                    b0,
                    rows@.take(i as int),
                    days@.take(i as int),
                ),
                self.hist_loaded == old(self).hist_loaded,
                self.db_path == old(self).db_path,
                self.agg.today_ymd == old(self).agg.today_ymd,
                self.day == old(self).day,
                self.window == old(self).window,
        {
            let ghost c0 = settle::calls_view(self.agg.calls@);
            let ghost f0 = settle::calls_view(fresh@);
            proof {
                assert(rows@.take(i + 1).drop_last() =~= rows@.take(i as int));
                assert(days@.take(i + 1).drop_last() =~= days@.take(i as int));
            }
            let row: &UsageRow = &rows[i];
            if !self.ingested.contains_key(row.id.as_str()) {
                self.ingested.insert(row.id.clone(), ());
                let c = to_call(row);
                self.hist.fold(
                    days[i],
                    c.first_token_ms,
                    c.completed_ms,
                    c.gen_ms,
                    c.effective_out(),
                );
                let copy = c.clone();
                self.agg.ingest(c);
                fresh.push(copy);
                proof {
                    assert(settle::calls_view(self.agg.calls@) =~= c0.push(call_of(*row)));
                    assert(settle::calls_view(fresh@) =~= f0.push(call_of(*row)));
                }
            }
        }
        proof {
            assert(rows@.take(rows@.len() as int) =~= rows@);
            assert(days@.take(days@.len() as int) =~= days@);
        }
        keep_completed_from(&mut self.agg.calls, today_start_ms);
        fresh
    }

    /// Takes in what a poll read: the calls of earlier days, the first time, and the rows of
    /// today. `cutoff` is the start of the history. Gives the calls that are new.
    pub fn poll_with(
        &mut self,
        earlier: &[HistoryRow],
        starts: &[i64],
        rows: &[UsageRow],
        days: &[i64],
        today_start_ms: i64,
        cutoff: i64,
    ) -> (r: Vec<Call>)
        requires
            old(self).wf(),
            earlier@.len() == starts@.len(),
            rows@.len() == days@.len(),
        ensures
            final(self).wf(),
            final(self).hist_loaded,
            ({
                let b = after_poll(
                    old(self).books(),
                    old(self).hist_loaded,
                    earlier@,
                    starts@,
                    rows@,
                    days@,
                    cutoff,
                );
                &&& settle::calls_view(r@) == b.fresh
                &&& final(self).books() == retained(b, today_start_ms)
            }),
            final(self).db_path == old(self).db_path,
            final(self).agg.today_ymd == old(self).agg.today_ymd,
            final(self).day == old(self).day,
            final(self).window == old(self).window,
    {
        if !self.hist_loaded {
            self.load_history(earlier, starts);
        }
        self.hist.prune(cutoff);
        self.absorb_with(rows, days, today_start_ms)
    }

    /// Takes in what a poll read: the calls of earlier days, the first time, and the rows of
    /// today, whose start is given. Gives the calls that are new.
    pub fn poll(
        &mut self,
        earlier: &[HistoryRow],
        rows: &[UsageRow],
        today_start_ms: i64,
    ) -> (r: Vec<Call>)
        requires
            old(self).wf(),
        ensures
            final(self).wf(),
            final(self).hist_loaded,
            exists|starts: Seq<i64>, days: Seq<i64>, cutoff: i64|
                #![trigger after_poll(old(self).books(), old(self).hist_loaded, earlier@, starts, rows@, days, cutoff)]
                starts.len() == earlier@.len() && (forall|i: int|
                    0 <= i < starts.len() ==> clock::starts_day(
                        #[trigger] starts[i] as int,
                        earlier@[i].completed_at as int,
                    )) && days.len() == rows@.len() && (forall|i: int|
                    0 <= i < days.len() ==> clock::starts_day(
                        #[trigger] days[i] as int,
                        rows@[i].completed_at as int,
                    )) && clock::starts_window(cutoff as int, today_start_ms as int) && {
                    let b = after_poll(
                        old(self).books(),
                        old(self).hist_loaded,
                        earlier@,
                        starts,
                        rows@,
                        days,
                        cutoff,
                    );
                    &&& settle::calls_view(r@) == b.fresh
                    &&& final(self).books() == retained(b, today_start_ms)
                },
            final(self).db_path == old(self).db_path,
            final(self).agg.today_ymd == old(self).agg.today_ymd,
            polled(
                *old(self),
                *final(self),
                earlier@,
                rows@,
                today_start_ms,
                settle::calls_view(r@),
            ),
    {
        let mut starts: Vec<i64> = Vec::new();
        for i in 0..earlier.len()
            invariant
                starts@.len() == i,
                forall|k: int|
                    0 <= k < i ==> clock::starts_day(
                        #[trigger] starts@[k] as int,
                        earlier@[k].completed_at as int,
                    ),
        {
            starts.push(clock::local_day_start_ms(earlier[i].completed_at));
        }
        let mut days: Vec<i64> = Vec::new();
        for i in 0..rows.len()
            invariant
                days@.len() == i,
                forall|k: int|
                    0 <= k < i ==> clock::starts_day(
                        #[trigger] days@[k] as int,
                        rows@[k].completed_at as int,
                    ),
        {
            days.push(clock::local_day_start_ms(rows[i].completed_at));
        }
        let cutoff: i64 = match self.window {
            Some((day, start)) if day == today_start_ms => start,
            _ => clock::hist_window_cutoff(today_start_ms),
        };
        self.window = Some((today_start_ms, cutoff));
        let fresh = self.poll_with(earlier, &starts, rows, &days, today_start_ms, cutoff);
        assert(polled_with(
            *old(self),
            *self,
            earlier@,
            rows@,
            today_start_ms,
            settle::calls_view(fresh@),
            starts@,
            days@,
            cutoff,
        ));
        fresh
    }

    /// The figures at a moment.
    pub fn snapshot_at(&self, now: i64) -> (r: Snapshot)
        ensures
            aggregate::figures_match(r, self.books().calls, now),
            r.hist_max_tps == history::fastest(self.hist.days@),
            r.hist_avg_tps == (Rate {
                tokens: rate::clip(history::eff_sum(self.hist.days@)),
                ms: rate::clip(history::gen_sum(self.hist.days@)),
            }),
            r.rollout_dir@ == (match self.db_path {
                Some(p) => p@,
                None => "(~/.zcode/cli/db/db.sqlite not found)"@,
            }),
            !r.is_live && !r.ramping && !r.is_starting,
            r.tasks@.len() == 0,
            r.net@ == NetView::none(),
    {
        let mut s = self.agg.snapshot_at(now);
        s.rollout_dir = self.data_source_label();
        s.hist_max_tps = self.hist.max_tps();
        s.hist_avg_tps = self.hist.avg_tps();
        s
    }

    /// The figures now.
    pub fn snapshot(&self) -> (r: Snapshot)
        ensures
            aggregate::figures_match(r, self.books().calls, r.now_ms),
            r.hist_max_tps == history::fastest(self.hist.days@),
            r.hist_avg_tps == (Rate {
                tokens: rate::clip(history::eff_sum(self.hist.days@)),
                ms: rate::clip(history::gen_sum(self.hist.days@)),
            }),
            r.rollout_dir@ == (match self.db_path {
                Some(p) => p@,
                None => "(~/.zcode/cli/db/db.sqlite not found)"@,
            }),
            !r.is_live && !r.ramping && !r.is_starting,
            r.tasks@.len() == 0,
            r.net@ == NetView::none(),
            0 <= r.now_ms <= stream::CLOCK_LIMIT,
    {
        self.snapshot_at(clock::now_ms())
    }

    /// The calls of today.
    pub fn calls(&self) -> (r: &[Call])
        ensures
            r@ == self.agg.calls@,
    {
        self.agg.calls()
    }
}

fn fold_history(hist: &mut HistoryStats, rows: &[HistoryRow], starts: &[i64])
    requires
        rows@.len() == starts@.len(),
    ensures
        final(hist).days@ == with_history(old(hist).days@, rows@, starts@),
{
    let ghost d0 = hist.days@;
    proof {
        assert(rows@.take(0) =~= Seq::empty());
    }
    for i in 0..rows.len()
        invariant
            rows@.len() == starts@.len(),
            hist.days@ == with_history(d0, rows@.take(i as int), starts@.take(i as int)),
    {
        proof {
            assert(rows@.take(i + 1).drop_last() =~= rows@.take(i as int));
            assert(starts@.take(i + 1).drop_last() =~= starts@.take(i as int));
        }
        let r: HistoryRow = rows[i];
        let gen: i64 = call::gen_ms_from(r.first_token_at, r.completed_at, r.duration_ms);
        let eff: u64 = count_of(r.output_tokens).saturating_add(count_of(r.reasoning_tokens));
        hist.fold(starts[i], r.first_token_at, r.completed_at, gen, eff);
    }
    proof {
        assert(rows@.take(rows@.len() as int) =~= rows@);
        assert(starts@.take(starts@.len() as int) =~= starts@);
    }
}

fn keep_completed_from(calls: &mut Vec<Call>, from: i64)
    ensures
        settle::calls_view(final(calls)@) == completed_from(settle::calls_view(old(calls)@), from),
{
    let ghost all = settle::calls_view(calls@);
    let mut kept: Vec<Call> = Vec::new();
    proof {
        assert(all.take(0) =~= Seq::empty());
        assert(settle::calls_view(kept@) =~= Seq::empty());
    }
    for i in 0..calls.len()
        invariant
            all == settle::calls_view(calls@),
            settle::calls_view(kept@) == completed_from(all.take(i as int), from),
    {
        let ghost k0 = settle::calls_view(kept@);
        assert(all.take(i + 1).drop_last() =~= all.take(i as int));
        if calls[i].completed_ms >= from {
            kept.push(calls[i].clone());
            assert(settle::calls_view(kept@) =~= k0.push(all[i as int]));
        }
    }
    assert(all.take(all.len() as int) =~= all);
    *calls = kept;
}

proof fn lemma_booked_keeps(b: Books, rows: Seq<UsageRow>, days: Seq<i64>, key: Seq<char>)
    requires
        rows.len() == days.len(),
    ensures
        all_booked(b, rows, days).ingested.contains_key(key) <==> b.ingested.contains_key(key)
            || exists|i: int| 0 <= i < rows.len() && (#[trigger] rows[i]).id@ == key,
    decreases rows.len(),
{
    if rows.len() > 0 {
        let d = rows.drop_last();
        lemma_booked_keeps(b, d, days.drop_last(), key);
        assert forall|i: int| 0 <= i < d.len() implies #[trigger] d[i] == rows[i] by {}
        if exists|i: int| 0 <= i < rows.len() && (#[trigger] rows[i]).id@ == key {
            let i = choose|i: int| 0 <= i < rows.len() && (#[trigger] rows[i]).id@ == key;
            if i < d.len() {
                assert(d[i].id@ == key);
            }
        }
        if exists|i: int| 0 <= i < d.len() && (#[trigger] d[i]).id@ == key {
            let i = choose|i: int| 0 <= i < d.len() && (#[trigger] d[i]).id@ == key;
            assert(rows[i].id@ == key);
        }
        if rows.last().id@ == key {
            assert(rows[rows.len() - 1].id@ == key);
        }
    }
}

proof fn lemma_all_known(b: Books, rows: Seq<UsageRow>, days: Seq<i64>)
    requires
        rows.len() == days.len(),
        forall|i: int| 0 <= i < rows.len() ==> b.ingested.contains_key((#[trigger] rows[i]).id@),
    ensures
        all_booked(b, rows, days) == b,
    decreases rows.len(),
{
    if rows.len() > 0 {
        let d = rows.drop_last();
        assert forall|i: int| 0 <= i < d.len() implies b.ingested.contains_key(
            (#[trigger] d[i]).id@,
        ) by {
            assert(d[i] == rows[i]);
        }
        lemma_all_known(b, d, days.drop_last());
        assert(rows[rows.len() - 1] == rows.last());
    }
}

/// Reading the same rows again on the same day adds nothing: neither to the calls, nor to
/// the history, nor to what is new.
pub proof fn law_rows_count_once(b: Books, rows: Seq<UsageRow>, days: Seq<i64>, again: Seq<i64>)
    requires
        rows.len() == days.len(),
        rows.len() == again.len(),
    ensures
        all_booked(all_booked(b, rows, days), rows, again) == all_booked(b, rows, days),
{
    assert forall|i: int| 0 <= i < rows.len() implies all_booked(
        b,
        rows,
        days,
    ).ingested.contains_key((#[trigger] rows[i]).id@) by {
        lemma_booked_keeps(b, rows, days, rows[i].id@);
    }
    lemma_all_known(all_booked(b, rows, days), rows, again);
}

proof fn lemma_completed_from_again(calls: Seq<CallView>, from: i64)
    ensures
        completed_from(completed_from(calls, from), from) == completed_from(calls, from),
    decreases calls.len(),
{
    if calls.len() > 0 {
        let front = completed_from(calls.drop_last(), from);
        lemma_completed_from_again(calls.drop_last(), from);
        assert(front.push(calls.last()).drop_last() =~= front);
    }
}

proof fn lemma_completed_stays(calls: Seq<CallView>, from: i64, c: CallView)
    requires
        calls.contains(c),
        c.completed_ms >= from,
    ensures
        completed_from(calls, from).contains(c),
    decreases calls.len(),
{
    let i = choose|i: int| 0 <= i < calls.len() && calls[i] == c;
    let d = calls.drop_last();
    let front = completed_from(d, from);
    if i < d.len() {
        assert(d[i] == c);
        lemma_completed_stays(d, from, c);
        let k = choose|k: int| 0 <= k < front.len() && front[k] == c;
        assert(completed_from(calls, from)[k] == c);
    } else {
        assert(completed_from(calls, from)[front.len() as int] == c);
    }
}

proof fn lemma_booked_days(b: Books, rows: Seq<UsageRow>, days: Seq<i64>, cutoff: i64)
    requires
        rows.len() == days.len(),
        forall|i: int|
            0 <= i < days.len() ==> #[trigger] days[i] >= cutoff || b.ingested.contains_key(
                rows[i].id@,
            ),
        forall|i: int| 0 <= i < b.days.len() ==> (#[trigger] b.days[i]).day_start >= cutoff,
    ensures
        forall|i: int|
            0 <= i < all_booked(b, rows, days).days.len() ==> (#[trigger] all_booked(
                b,
                rows,
                days,
            ).days[i]).day_start >= cutoff,
    decreases rows.len(),
{
    if rows.len() > 0 {
        let d = days.drop_last();
        let before = rows.drop_last();
        assert forall|i: int| 0 <= i < d.len() implies #[trigger] d[i] >= cutoff
            || b.ingested.contains_key(before[i].id@) by {
            assert(d[i] == days[i]);
        }
        lemma_booked_days(b, before, d, cutoff);
        let front = all_booked(b, before, d);
        let c = call_of(rows.last());
        assert(days[days.len() - 1] == days.last());
        if days.last() >= cutoff {
            history::lemma_folded_days(
                front.days,
                days.last(),
                c.first_token_ms,
                c.completed_ms,
                c.gen_ms,
                c.eff(),
                cutoff,
            );
        } else {
            lemma_booked_keeps(b, before, d, rows.last().id@);
        }
    }
}

/// A second poll that reads the same rows on the same day gives nothing new, and leaves the
/// calls of today and the history as they are, and so the figures of both. The days of the
/// rows that are new lie in the history, as today does: a day before it is dropped by the next
/// poll.
pub proof fn law_second_poll_is_silent(
    b: Books,
    loaded: bool,
    earlier: Seq<HistoryRow>,
    starts: Seq<i64>,
    rows: Seq<UsageRow>,
    days: Seq<i64>,
    again: Seq<i64>,
    cutoff: i64,
    today_start: i64,
)
    requires
        rows.len() == days.len(),
        rows.len() == again.len(),
        forall|i: int|
            0 <= i < days.len() ==> #[trigger] days[i] >= cutoff || b.ingested.contains_key(
                rows[i].id@,
            ),
    ensures
        ({
            let first = retained(
                after_poll(b, loaded, earlier, starts, rows, days, cutoff),
                today_start,
            );
            let second = after_poll(first, true, earlier, starts, rows, again, cutoff);
            second.fresh.len() == 0 && retained(second, today_start) == first
        }),
{
    let past = if loaded {
        b.days
    } else {
        with_history(b.days, earlier, starts)
    };
    let start = Books { days: history::days_from(past, cutoff), ..b };
    let booked = all_booked(start, rows, days);
    let first = retained(booked, today_start);
    history::lemma_days_left(past, cutoff);
    lemma_booked_days(start, rows, days, cutoff);
    history::lemma_days_stay(first.days, cutoff);
    assert forall|i: int| 0 <= i < rows.len() implies first.ingested.contains_key(
        (#[trigger] rows[i]).id@,
    ) by {
        lemma_booked_keeps(start, rows, days, rows[i].id@);
    }
    assert((Books { days: history::days_from(first.days, cutoff), ..first }) =~= first);
    lemma_all_known(first, rows, again);
    lemma_completed_from_again(booked.calls, today_start);
}

proof fn lemma_new_row_counts(b: Books, rows: Seq<UsageRow>, days: Seq<i64>, i: int)
    requires
        rows.len() == days.len(),
        0 <= i < rows.len(),
        !b.ingested.contains_key(rows[i].id@),
        forall|j: int| 0 <= j < i ==> (#[trigger] rows[j]).id@ != rows[i].id@,
    ensures
        all_booked(b, rows, days).fresh.contains(call_of(rows[i])),
        all_booked(b, rows, days).calls.contains(call_of(rows[i])),
    decreases rows.len(),
{
    let d = rows.drop_last();
    let front = all_booked(b, d, days.drop_last());
    let all = all_booked(b, rows, days);
    let c = call_of(rows[i]);
    if i < d.len() {
        assert(d[i] == rows[i]);
        assert forall|j: int| 0 <= j < i implies (#[trigger] d[j]).id@ != d[i].id@ by {
            assert(d[j] == rows[j]);
        }
        lemma_new_row_counts(b, d, days.drop_last(), i);
        let f = choose|f: int| 0 <= f < front.fresh.len() && front.fresh[f] == c;
        let k = choose|k: int| 0 <= k < front.calls.len() && front.calls[k] == c;
        assert(all.fresh[f] == c);
        assert(all.calls[k] == c);
    } else {
        lemma_booked_keeps(b, d, days.drop_last(), rows[i].id@);
        if front.ingested.contains_key(rows[i].id@) {
            let j = choose|j: int| 0 <= j < d.len() && (#[trigger] d[j]).id@ == rows[i].id@;
            assert(rows[j].id@ != rows[i].id@);
        }
        assert(all.fresh[front.fresh.len() as int] == c);
        assert(all.calls[front.calls.len() as int] == c);
    }
}

/// What is of today is decided by when a call was completed, not by when it was started: a
/// completed call whose row is read for the first time is new, and if it was completed today
/// it is a call of today.
pub proof fn law_completion_decides_the_day(
    b: Books,
    loaded: bool,
    earlier: Seq<HistoryRow>,
    starts: Seq<i64>,
    rows: Seq<UsageRow>,
    days: Seq<i64>,
    cutoff: i64,
    today_start: i64,
    i: int,
)
    requires
        rows.len() == days.len(),
        0 <= i < rows.len(),
        !b.ingested.contains_key(rows[i].id@),
        forall|j: int| 0 <= j < i ==> (#[trigger] rows[j]).id@ != rows[i].id@,
    ensures
        ({
            let after = after_poll(b, loaded, earlier, starts, rows, days, cutoff);
            &&& after.fresh.contains(call_of(rows[i]))
            &&& rows[i].completed_at >= today_start ==> retained(
                after,
                today_start,
            ).calls.contains(call_of(rows[i]))
        }),
{
    let past = if loaded {
        b.days
    } else {
        with_history(b.days, earlier, starts)
    };
    let start = Books { days: history::days_from(past, cutoff), ..b };
    lemma_new_row_counts(start, rows, days, i);
    if rows[i].completed_at >= today_start {
        lemma_completed_stays(all_booked(start, rows, days).calls, today_start, call_of(rows[i]));
    }
}

/// Two polls that begin with the same start of the day are of the same date, and the second
/// keeps what was taken in.
pub proof fn law_same_start_is_the_same_day(a: Engine, b: Engine, c: Engine, r: i64, later: i64)
    requires
        started(a, b, r),
        started(b, c, later),
        r - 600_000 < later < r + 600_000,
    ensures
        c.agg.today_ymd == b.agg.today_ymd,
        c.books() == b.books(),
{
}

/// The date of a day that is begun lies at most two days from the start that is given for it.
pub proof fn law_begun_day_has_its_date(a: Engine, b: Engine, r: i64)
    requires
        started(a, b, r),
        a.day is None,
        -7_000_000_000_000_000 <= r <= 7_000_000_000_000_000,
    ensures
        -172_800_000 <= clock::day_number(b.agg.today_ymd) * 86_400_000 - r <= 172_800_000,
{
    let now = choose|now: int|
        clock::clock_shows(now) && #[trigger] clock::starts_day(r as int, now) && (
        clock::in_calendar(now) ==> clock::dated(b.agg.today_ymd, r as int, now));
    if clock::in_calendar(now) {
        clock::law_date_goes_with_its_start(b.agg.today_ymd, r as int, now);
    }
}

proof fn lemma_today_is_in_the_window(day: i64, completed: i64, cutoff: i64, today_start: i64)
    requires
        clock::starts_day(day as int, completed as int),
        clock::starts_window(cutoff as int, today_start as int),
        today_start <= completed,
        -7_000_000_000_000_000 <= today_start <= 7_000_000_000_000_000,
    ensures
        day >= cutoff,
{
}

/// Beginning and taking in the same rows again on the same day gives nothing new, and leaves the
/// calls of today and the history as they are: a row is taken in once a day, however often it
/// is read.
pub proof fn law_repeated_poll_is_silent(
    e: (Engine, Engine, Engine, Engine, Engine),
    earlier: Seq<HistoryRow>,
    more: Seq<HistoryRow>,
    rows: Seq<UsageRow>,
    r: i64,
    fresh: (Seq<CallView>, Seq<CallView>),
)
    requires
        started(e.0, e.1, r),
        polled(e.1, e.2, earlier, rows, r, fresh.0),
        started(e.2, e.3, r),
        polled(e.3, e.4, more, rows, r, fresh.1),
        -7_000_000_000_000_000 <= r <= 7_000_000_000_000_000,
        forall|i: int| 0 <= i < rows.len() ==> (#[trigger] rows[i]).completed_at >= r,
    ensures
        fresh.1.len() == 0,
        e.4.agg.today_ymd == e.2.agg.today_ymd,
        e.4.books() == e.2.books(),
{
    let (starts, days, cutoff) = choose|starts: Seq<i64>, days: Seq<i64>, cutoff: i64| #[trigger]
        polled_with(e.1, e.2, earlier, rows, r, fresh.0, starts, days, cutoff);
    let (starts2, days2, cutoff2) = choose|starts: Seq<i64>, days: Seq<i64>, cutoff: i64|
        #[trigger] polled_with(e.3, e.4, more, rows, r, fresh.1, starts, days, cutoff);
    assert(e.3.books() == e.2.books());
    assert(cutoff2 == cutoff);
    assert forall|i: int| 0 <= i < days.len() implies #[trigger] days[i] >= cutoff
        || e.1.books().ingested.contains_key(rows[i].id@) by {
        assert(rows[i].completed_at >= r);
        lemma_today_is_in_the_window(days[i], rows[i].completed_at, cutoff, r);
    }
    law_second_poll_is_silent(
        e.1.books(),
        e.1.hist_loaded,
        earlier,
        starts,
        rows,
        days,
        days2,
        cutoff,
        r,
    );
}

/// From when on calls are read for a chart.
pub fn stats_cutoff(window_min: i64, now_ms: i64) -> (r: i64)
    ensures
        r == rate::clip_signed(now_ms - chart::nearest_window(window_min as int) * 60_000),
{
    let window: i64 = chart::clamp_chart_window(window_min);
    rate::clipped_signed(now_ms as i128 - window as i128 * 60_000)
}

impl Engine {
    /// The curve of the speed, from the calls that were read; flat if they could not be.
    pub fn chart_stats(&self, window_min: i64, rows: Option<&[ModelUsageRow]>, now_ms: i64) -> (r:
        ChartStatsPayload)
        ensures
            r.window_min == chart::nearest_window(window_min as int),
            r.bucket_ms == chart::bucket_width(r.window_min),
            r.now_ms == now_ms,
            match rows {
                Some(s) => r.buckets@ == chart::chart_of(
                    chart::usage_view(s@),
                    now_ms,
                    r.bucket_ms,
                ),
                None => r.buckets@.len() == chart::CHART_BUCKETS && forall|k: int|
                    0 <= k < chart::CHART_BUCKETS ==> !(#[trigger] r.buckets@[k]).positive(),
            },
    {
        match rows {
            Some(s) => chart::aggregate_chart_stats(s, window_min, now_ms),
            None => chart::empty_chart_stats(window_min, now_ms),
        }
    }

    /// The sessions in progress at a time, by the latest messages of the latest sessions.
    pub fn call_in_flight(&self, sessions: &[(String, Vec<(i64, String)>)], now_ms: i64) -> (r: Vec<
        (String, i64),
    >)
        ensures
            inflight::started_view(r@) == inflight::sessions_in_progress(
                inflight::candidate_rows(sessions@),
                now_ms,
            ),
    {
        inflight::call_in_flight(sessions, now_ms)
    }

    /// The curves of the speed by model, from the calls that were read; none if they could
    /// not be.
    pub fn model_stats(&self, window_min: i64, rows: Option<&[ModelUsageRow]>, now_ms: i64) -> (r:
        ModelStatsPayload)
        ensures
            r.window_min == chart::nearest_window(window_min as int),
            r.bucket_ms == chart::bucket_width(r.window_min),
            r.now_ms == now_ms,
            match rows {
                Some(s) => chart::series_view(r.series@) == chart::all_series(
                    chart::usage_view(s@),
                    now_ms,
                    r.bucket_ms,
                ),
                None => r.series@.len() == 0,
            },
    {
        match rows {
            Some(s) => chart::aggregate_model_stats(s, window_min, now_ms),
            None => chart::empty_model_stats(window_min, now_ms),
        }
    }
}

/// A row becomes a call with the same times, session and counts, where a count that is missing or
/// negative is zero.
pub proof fn law_row_becomes_its_call(r: UsageRow)
    ensures
        ({
            let c = call_of(r);
            let n = |v: Option<i64>| if v is Some && v->0 > 0 {
                v->0 as int
            } else {
                0
            };
            &&& c.id == r.id@ && c.session == r.session_id@
            &&& c.started_ms == r.started_at && c.first_token_ms == r.first_token_at
                && c.completed_ms == r.completed_at
            &&& c.output == n(r.output_tokens) && c.reasoning == n(r.reasoning_tokens)
            &&& c.input == n(r.input_tokens) && c.cache_creation == n(r.cache_creation_tokens)
                && c.cache_read == n(r.cache_read_tokens)
            &&& c.gen_ms == call::generation_time(r.first_token_at, r.completed_at, r.duration_ms)
        }),
{
}

proof fn lemma_new_rows(b: Books, rows: Seq<UsageRow>, days: Seq<i64>)
    requires
        rows.len() == days.len(),
        forall|i: int| 0 <= i < rows.len() ==> !b.ingested.contains_key((#[trigger] rows[i]).id@),
        forall|i: int, j: int|
            0 <= i < j < rows.len() ==> (#[trigger] rows[i]).id@ != (#[trigger] rows[j]).id@,
    ensures
        ({
            let a = all_booked(b, rows, days);
            &&& a.calls == b.calls + rows.map_values(|r: UsageRow| call_of(r))
            &&& a.fresh == b.fresh + rows.map_values(|r: UsageRow| call_of(r))
            &&& forall|k: Seq<char>| #[trigger]
                a.ingested.contains_key(k) <==> b.ingested.contains_key(k) || exists|i: int|
                    0 <= i < rows.len() && (#[trigger] rows[i]).id@ == k
        }),
    decreases rows.len(),
{
    let f = |r: UsageRow| call_of(r);
    let a = all_booked(b, rows, days);
    if rows.len() > 0 {
        let d = rows.drop_last();
        assert forall|i: int, j: int| 0 <= i < j < d.len() implies (#[trigger] d[i]).id@ != (
        #[trigger] d[j]).id@ by {
            assert(rows[i].id@ != rows[j].id@);
        }
        lemma_new_rows(b, d, days.drop_last());
        let front = all_booked(b, d, days.drop_last());
        let last = rows.last();
        assert(rows[rows.len() - 1] == last);
        assert(!front.ingested.contains_key(last.id@)) by {
            if exists|i: int| 0 <= i < d.len() && (#[trigger] d[i]).id@ == last.id@ {
                let i = choose|i: int| 0 <= i < d.len() && (#[trigger] d[i]).id@ == last.id@;
                assert(rows[i].id@ != rows[rows.len() - 1].id@);
            }
        }
        assert(rows.map_values(f) =~= d.map_values(f).push(call_of(last)));
        assert(a.calls =~= b.calls + rows.map_values(f));
        assert(a.fresh =~= b.fresh + rows.map_values(f));
        assert forall|k: Seq<char>| #[trigger]
            a.ingested.contains_key(k) <==> b.ingested.contains_key(k) || exists|i: int|
                0 <= i < rows.len() && (#[trigger] rows[i]).id@ == k by {
            if exists|i: int| 0 <= i < d.len() && (#[trigger] d[i]).id@ == k {
                let i = choose|i: int| 0 <= i < d.len() && (#[trigger] d[i]).id@ == k;
                assert(rows[i].id@ == k);
            }
            if exists|i: int| 0 <= i < rows.len() && (#[trigger] rows[i]).id@ == k {
                let i = choose|i: int| 0 <= i < rows.len() && (#[trigger] rows[i]).id@ == k;
                if i < d.len() {
                    assert(d[i].id@ == k);
                }
            }
        }
    } else {
        assert(a.calls =~= b.calls + rows.map_values(f));
        assert(a.fresh =~= b.fresh + rows.map_values(f));
    }
}

proof fn lemma_from_is_filter(calls: Seq<CallView>, from: i64)
    ensures
        completed_from(calls, from) == calls.filter(|c: CallView| c.completed_ms >= from),
    decreases calls.len(),
{
    reveal(Seq::filter);
    if calls.len() > 0 {
        lemma_from_is_filter(calls.drop_last(), from);
    } else {
        assert(calls.filter(|c: CallView| c.completed_ms >= from) =~= calls);
    }
}

/// After a poll with rows that were not seen before, the calls of today are those of before and of
/// the rows that were completed since the day began, in the order in which they came; the new calls
/// are those of all rows.
pub proof fn law_poll_takes_the_new_calls(
    b: Books,
    loaded: bool,
    earlier: Seq<HistoryRow>,
    starts: Seq<i64>,
    rows: Seq<UsageRow>,
    days: Seq<i64>,
    cutoff: i64,
    today_start: i64,
)
    requires
        rows.len() == days.len(),
        b.fresh.len() == 0,
        forall|i: int| 0 <= i < rows.len() ==> !b.ingested.contains_key((#[trigger] rows[i]).id@),
        forall|i: int, j: int|
            0 <= i < j < rows.len() ==> (#[trigger] rows[i]).id@ != (#[trigger] rows[j]).id@,
    ensures
        ({
            let after = after_poll(b, loaded, earlier, starts, rows, days, cutoff);
            let new = rows.map_values(|r: UsageRow| call_of(r));
            &&& after.fresh == new
            &&& retained(after, today_start).calls == (b.calls + new).filter(
                |c: CallView| c.completed_ms >= today_start,
            )
        }),
{
    let past = if loaded {
        b.days
    } else {
        with_history(b.days, earlier, starts)
    };
    lemma_new_rows(Books { days: history::days_from(past, cutoff), ..b }, rows, days);
    let new = rows.map_values(|r: UsageRow| call_of(r));
    assert(b.fresh + new =~= new);
    lemma_from_is_filter(b.calls + new, today_start);
}

/// The calls of earlier days are taken in once: at the first poll, whatever a later one is given.
pub proof fn law_history_is_taken_in_once(
    b: Books,
    earlier: Seq<HistoryRow>,
    starts: Seq<i64>,
    other: Seq<HistoryRow>,
    other_starts: Seq<i64>,
    rows: Seq<UsageRow>,
    days: Seq<i64>,
    cutoff: i64,
)
    ensures
        after_poll(b, true, earlier, starts, rows, days, cutoff) == after_poll(
            b,
            true,
            other,
            other_starts,
            rows,
            days,
            cutoff,
        ),
        rows.len() == 0 ==> after_poll(b, true, earlier, starts, rows, days, cutoff).days
            == history::days_from(b.days, cutoff),
{
}

/// The tokens of a row of an earlier day: those of its answer and of its reasoning, where a count
/// that is missing or negative is zero.
pub open spec fn row_tokens(r: HistoryRow) -> int {
    (if r.output_tokens is Some && r.output_tokens->0 > 0 {
        r.output_tokens->0 as int
    } else {
        0
    }) + (if r.reasoning_tokens is Some && r.reasoning_tokens->0 > 0 {
        r.reasoning_tokens->0 as int
    } else {
        0
    })
}

/// The time for which a row of an earlier day generated.
pub open spec fn row_time(r: HistoryRow) -> int {
    call::generation_time(r.first_token_at, r.completed_at, r.duration_ms) as int
}

proof fn lemma_row_sums(rows: Seq<HistoryRow>)
    ensures
        rows.fold_left(0int, |a: int, r: HistoryRow| a + row_tokens(r)) >= 0,
        rows.fold_left(0int, |a: int, r: HistoryRow| a + row_time(r)) >= 0,
    decreases rows.len(),
{
    if rows.len() > 0 {
        lemma_row_sums(rows.drop_last());
    }
}

/// The history has the tokens and the time of all its rows, on whatever days they were completed.
pub proof fn law_history_adds_up(days: Seq<HistDay>, rows: Seq<HistoryRow>, starts: Seq<i64>)
    requires
        rows.len() == starts.len(),
        history::eff_sum(days) + rows.fold_left(0int, |a: int, r: HistoryRow| a + row_tokens(r))
            <= u64::MAX,
        history::gen_sum(days) + rows.fold_left(0int, |a: int, r: HistoryRow| a + row_time(r))
            <= u64::MAX,
    ensures
        history::eff_sum(with_history(days, rows, starts)) == history::eff_sum(days)
            + rows.fold_left(0int, |a: int, r: HistoryRow| a + row_tokens(r)),
        history::gen_sum(with_history(days, rows, starts)) == history::gen_sum(days)
            + rows.fold_left(0int, |a: int, r: HistoryRow| a + row_time(r)),
    decreases rows.len(),
{
    if rows.len() > 0 {
        let d = rows.drop_last();
        let r = rows.last();
        lemma_row_sums(d);
        law_history_adds_up(days, d, starts.drop_last());
        history::law_fold_adds_to_the_totals(
            with_history(days, d, starts.drop_last()),
            starts.last(),
            r.first_token_at,
            r.completed_at,
            call::generation_time(r.first_token_at, r.completed_at, r.duration_ms),
            rate::clip(count(r.output_tokens) + count(r.reasoning_tokens)),
        );
    }
}

/// Where the database is looked for under the directory of the user.
pub proof fn law_database_lies_under_the_home(home: Seq<char>, sep: char)
    requires
        home.len() > 0,
        home.last() != sep,
        home.last() != '/',
        sep == '/' || sep == '\\',
    ensures
        db_path_of(home, sep) == home + seq![sep] + ".zcode"@ + seq![sep] + "cli"@ + seq![sep]
            + "db"@ + seq![sep] + "db.sqlite"@,
{
    reveal_strlit(".zcode");
    reveal_strlit("cli");
    reveal_strlit("db");
    let a = path_join(home, ".zcode"@, sep);
    assert(a =~= home + seq![sep] + ".zcode"@);
    assert(a.last() == 'e');
    let b = path_join(a, "cli"@, sep);
    assert(b =~= a + seq![sep] + "cli"@);
    assert(b.last() == 'i');
    let c = path_join(b, "db"@, sep);
    assert(c =~= b + seq![sep] + "db"@);
    assert(c.last() == 'b');
    let d = path_join(c, "db.sqlite"@, sep);
    assert(d =~= c + seq![sep] + "db.sqlite"@);
}

} // verus!
