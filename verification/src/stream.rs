//! The cleaned byte stream of a process: from cumulative write counters to ticks,
//! from the ticks of several processes to one stream, and from a stream to what it
//! carried over an interval.
//!
//! Byte amounts of a tick are kept in thousandths of a byte, so that deducting a
//! noise floor given per second from a tick given in milliseconds is exact.

use vstd::prelude::*;

verus! {

/// Wall-clock times, in milliseconds, lie between minus this and this.
pub const CLOCK_LIMIT: i64 = 0x20_0000_0000_0000;

/// The most a single tick can weigh, in thousandths of a byte.
pub const TICK_LIMIT: i128 = 0x1000_0000_0000_0000_0000;

/// The most ticks that are put together into one stream.
pub const TICKS_LIMIT: usize = 0x200_0000;

/// The most samples of the tracked files that are looked at.
pub const FILES_LIMIT: usize = 0x1000;

/// The most a whole stream can weigh, in thousandths of a byte.
pub const STREAM_LIMIT: i128 = 0x1_0000_0000_0000_0000_0000_0000_0000;

/// How the counters of a platform are cleaned, and how its calls calibrate the
/// number of bytes that a token takes. Rates per token are in thousandths of a byte.
#[derive(Clone, Copy, Debug, PartialEq, Eq, Structural)]
pub struct CleanParams {
    /// A tick that grew by more bytes than this is dropped whole.
    pub burst_tick_bytes: u64,
    /// Bytes per second that an idle process writes.
    pub base_noise_bps: u16,
    /// Upper bound of the heartbeat floor of a process, in bytes per tick.
    pub floor_cap_bytes: u64,
    /// Least rate per token that a calibration sample may have.
    pub cal_min: u64,
    /// Greatest rate per token that a calibration sample may have.
    pub cal_max: u64,
    /// Least number of tokens of a call that calibrates.
    pub cal_min_tokens: u64,
    /// Rate per token before any call has calibrated it.
    pub default_bpt: u64,
    /// Length of the window in which streaming is detected.
    pub detect_ms: i64,
    /// How long after its end a call is still charged with bytes.
    pub cal_grace_ms: i64,
    /// By which factor a sample may deviate from the current rate; zero admits any.
    pub cal_outlier_ratio: u8,
}

impl CleanParams {
    /// Parameters that measure: windows of a sane length, and calls that have tokens.
    pub open spec fn wf(self) -> bool {
        &&& 0 <= self.detect_ms <= 3_600_000
        &&& 0 <= self.cal_grace_ms <= 3_600_000
        &&& 0 < self.cal_min_tokens
        &&& 0 < self.cal_min
        &&& 0 < self.default_bpt
    }

    /// The parameters for Windows.
    pub open spec fn windows_params() -> CleanParams {
        CleanParams {
            burst_tick_bytes: 100_000,
            base_noise_bps: 3_000,
            floor_cap_bytes: 2_000,
            cal_min: 100_000,
            cal_max: 6_000_000,
            cal_min_tokens: 300,
            default_bpt: 600_000,
            detect_ms: 2_500,
            cal_grace_ms: 0,
            cal_outlier_ratio: 0,
        }
    }

    /// The parameters for macOS.
    pub open spec fn macos_params() -> CleanParams {
        CleanParams {
            burst_tick_bytes: u64::MAX,
            base_noise_bps: 0,
            floor_cap_bytes: 2_000,
            cal_min: 100_000,
            cal_max: 12_000_000,
            cal_min_tokens: 300,
            default_bpt: 700_000,
            detect_ms: 2_500,
            cal_grace_ms: 15_000,
            cal_outlier_ratio: 3,
        }
    }

    /// The parameters for Windows: a request body that is uploaded shows as a burst and
    /// is dropped, and counters are current when a call ends.
    pub fn windows() -> (r: CleanParams)
        ensures
            r == Self::windows_params(),
            r.wf(),
    {
        CleanParams {
            burst_tick_bytes: 100_000,
            base_noise_bps: 3_000,
            floor_cap_bytes: 2_000,
            cal_min: 100_000,
            cal_max: 6_000_000,
            cal_min_tokens: 300,
            default_bpt: 600_000,
            detect_ms: 2_500,
            cal_grace_ms: 0,
            cal_outlier_ratio: 0,
        }
    }

    /// The parameters for macOS: bursts are the signal, an idle process writes nothing,
    /// and bytes reach the counter seconds after they were written.
    pub fn macos() -> (r: CleanParams)
        ensures
            r == Self::macos_params(),
            r.wf(),
    {
        CleanParams {
            burst_tick_bytes: u64::MAX,
            base_noise_bps: 0,
            floor_cap_bytes: 2_000,
            cal_min: 100_000,
            cal_max: 12_000_000,
            cal_min_tokens: 300,
            default_bpt: 700_000,
            detect_ms: 2_500,
            cal_grace_ms: 15_000,
            cal_outlier_ratio: 3,
        }
    }

    /// The parameters of the platform that the panel runs on.
    pub fn platform(on_macos: bool) -> (r: CleanParams)
        ensures
            r == (if on_macos {
                Self::macos_params()
            } else {
                Self::windows_params()
            }),
            r.wf(),
    {
        if on_macos {
            Self::macos()
        } else {
            Self::windows()
        }
    }
}

/// What one tick carried.
#[derive(Clone, Copy, Debug, PartialEq, Eq, Structural)]
pub struct TickRow {
    /// Length of the tick.
    pub dt_ms: i64,
    /// Bytes of the tick in thousandths; negative where a flush to disk was counted in
    /// another tick than the write.
    pub bytes: i128,
    /// When the tick ended.
    pub end_ms: i64,
}

/// A time that a wall clock shows.
pub open spec fn on_clock(t: int) -> bool {
    -CLOCK_LIMIT <= t <= CLOCK_LIMIT
}

/// Samples whose times a wall clock shows.
pub open spec fn clocked(s: Seq<(i64, u64)>) -> bool {
    forall|i: int| 0 <= i < s.len() ==> on_clock((#[trigger] s[i]).0 as int)
}

/// The absolute value.
pub open spec fn size(x: int) -> nat {
    if x >= 0 {
        x as nat
    } else {
        (-x) as nat
    }
}

impl TickRow {
    /// A tick of positive length, at times that a wall clock shows.
    pub open spec fn timed(self) -> bool {
        &&& self.dt_ms > 0
        &&& on_clock(self.end_ms as int)
        &&& on_clock(self.end_ms - self.dt_ms)
    }

    /// A timed tick that is not too heavy.
    pub open spec fn light(self) -> bool {
        self.timed() && size(self.bytes as int) <= TICK_LIMIT
    }
}

/// Every tick is timed.
pub open spec fn all_timed(rows: Seq<TickRow>) -> bool {
    forall|i: int| 0 <= i < rows.len() ==> (#[trigger] rows[i]).timed()
}

/// Every tick is timed and not too heavy.
pub open spec fn all_light(rows: Seq<TickRow>) -> bool {
    forall|i: int| 0 <= i < rows.len() ==> (#[trigger] rows[i]).light()
}

/// The sum of the sizes of all ticks.
pub open spec fn weight(rows: Seq<TickRow>) -> nat
    decreases rows.len(),
{
    if rows.len() == 0 {
        0
    } else {
        weight(rows.drop_last()) + size(rows.last().bytes as int)
    }
}

/// How far a counter grew; a counter that fell counts as not grown.
pub open spec fn grown(a: u64, b: u64) -> nat {
    if b >= a {
        (b - a) as nat
    } else {
        0
    }
}

/// The smaller of two numbers.
pub open spec fn least(a: int, b: int) -> int {
    if a <= b {
        a
    } else {
        b
    }
}

/// The greater of two numbers.
pub open spec fn most(a: int, b: int) -> int {
    if a >= b {
        a
    } else {
        b
    }
}

/// The tick between two samples: none if no time passed or if it is a burst.
pub open spec fn tick_between(a: (i64, u64), b: (i64, u64), min_delta: u64, p: CleanParams) -> Option<
    TickRow,
> {
    if b.0 <= a.0 || grown(a.1, b.1) > p.burst_tick_bytes {
        None
    } else {
        Some(
            TickRow {
                dt_ms: (b.0 - a.0) as i64,
                bytes: (1000 * grown(a.1, b.1) - 1000 * least(
                    min_delta as int,
                    p.floor_cap_bytes as int,
                ) - p.base_noise_bps * (b.0 - a.0)) as i128,
                end_ms: b.0,
            },
        )
    }
}

/// The ticks of a series of samples.
pub open spec fn ticks(s: Seq<(i64, u64)>, min_delta: u64, p: CleanParams) -> Seq<TickRow>
    decreases s.len(),
{
    if s.len() < 2 {
        Seq::empty()
    } else {
        let front = ticks(s.drop_last(), min_delta, p);
        match tick_between(s[s.len() - 2], s.last(), min_delta, p) {
            Some(r) => front.push(r),
            None => front,
        }
    }
}

/// The ticks of a series of samples of one process: growth of the counter without the
/// heartbeat floor (at most the cap) and without the static noise; bursts are left out.
pub fn build_rows(samples: &[(i64, u64)], min_delta: u64, p: &CleanParams) -> (r: Vec<TickRow>)
    requires
        clocked(samples@),
    ensures
        r@ == ticks(samples@, min_delta, *p),
        all_light(r@),
        r@.len() <= samples@.len(),
{
    let floor: u64 = if min_delta <= p.floor_cap_bytes {
        min_delta
    } else {
        p.floor_cap_bytes
    };
    let mut rows: Vec<TickRow> = Vec::new();
    let n: usize = samples.len();
    if n < 2 {
        return rows;
    }
    let mut i: usize = 1;
    assert(ticks(samples@.take(1), min_delta, *p) =~= Seq::empty());
    while i < n
        invariant
            1 <= i <= n,
            n == samples@.len(),
            clocked(samples@),
            floor == least(min_delta as int, p.floor_cap_bytes as int),
            rows@ == ticks(samples@.take(i as int), min_delta, *p),
            all_light(rows@),
            rows@.len() < i,
        decreases n - i,
    {
        let a = samples[i - 1];
        let b = samples[i];
        assert(samples@.take(i + 1).drop_last() =~= samples@.take(i as int));
        assert(samples@.take(i + 1).last() == b);
        assert(samples@.take(i + 1)[i - 1] == a);
        i = i + 1;
        let dt_ms: i64 = b.0 - a.0;
        if dt_ms <= 0 {
            continue;
        }
        let raw: u64 = if b.1 >= a.1 {
            b.1 - a.1
        } else {
            0
        };
        if raw > p.burst_tick_bytes {
            continue;
        }
        assert(0 <= p.base_noise_bps * dt_ms <= 0x1_0000 * 0x40_0000_0000_0001) by (nonlinear_arith)
            requires
                0 <= p.base_noise_bps < 0x1_0000,
                0 < dt_ms <= 0x40_0000_0000_0000,
        ;
        let noise: i128 = p.base_noise_bps as i128 * dt_ms as i128;
        let bytes: i128 = 1000 * raw as i128 - 1000 * floor as i128 - noise;
        rows.push(TickRow { dt_ms, bytes, end_ms: b.0 });
    }
    assert(samples@.take(n as int) =~= samples@);
    rows
}

/// How far the tracked files grew in the samples that overlap `t0..t1`, in bytes.
pub open spec fn file_growth(files: Seq<(i64, u64)>, t0: int, t1: int) -> nat
    decreases files.len(),
{
    if files.len() < 2 {
        0
    } else {
        let a = files[files.len() - 2];
        let b = files.last();
        file_growth(files.drop_last(), t0, t1) + (if b.0 > t0 && a.0 < t1 {
            grown(a.1, b.1)
        } else {
            0
        })
    }
}

/// `r` put into a stream that is ordered by end: added to the tick that ends with it,
/// or a tick of its own.
pub open spec fn slotted(acc: Seq<TickRow>, r: TickRow) -> Seq<TickRow>
    decreases acc.len(),
{
    if acc.len() == 0 || acc.last().end_ms < r.end_ms {
        acc.push(r)
    } else if acc.last().end_ms == r.end_ms {
        acc.drop_last().push(
            TickRow { bytes: (acc.last().bytes + r.bytes) as i128, ..acc.last() },
        )
    } else {
        slotted(acc.drop_last(), r).push(acc.last())
    }
}

/// All ticks in one stream, those with the same end added up.
pub open spec fn gathered(rows: Seq<TickRow>) -> Seq<TickRow>
    decreases rows.len(),
{
    if rows.len() == 0 {
        Seq::empty()
    } else {
        slotted(gathered(rows.drop_last()), rows.last())
    }
}

/// The ticks of several streams, one stream after the other.
pub open spec fn flat(streams: Seq<&[TickRow]>) -> Seq<TickRow>
    decreases streams.len(),
{
    if streams.len() == 0 {
        Seq::empty()
    } else {
        flat(streams.drop_last()) + streams.last()@
    }
}

/// A tick without what the tracked files grew while it lasted.
pub open spec fn without_files(r: TickRow, files: Seq<(i64, u64)>) -> TickRow {
    TickRow {
        bytes: (r.bytes - 1000 * file_growth(files, r.end_ms - r.dt_ms, r.end_ms as int)) as i128,
        ..r
    }
}

/// All ticks in one stream, and what the tracked files grew taken off once.
pub open spec fn merged(rows: Seq<TickRow>, files: Seq<(i64, u64)>) -> Seq<TickRow> {
    gathered(rows).map_values(|r: TickRow| without_files(r, files))
}

/// Ends strictly ascend.
pub open spec fn ascending(rows: Seq<TickRow>) -> bool {
    forall|i: int, j: int|
        0 <= i < j < rows.len() ==> (#[trigger] rows[i]).end_ms < (#[trigger] rows[j]).end_ms
}

proof fn lemma_weight_push(rows: Seq<TickRow>, r: TickRow)
    ensures
        weight(rows.push(r)) == weight(rows) + size(r.bytes as int),
{
    assert(rows.push(r).drop_last() =~= rows);
}

proof fn lemma_weight_member(rows: Seq<TickRow>, i: int)
    requires
        0 <= i < rows.len(),
    ensures
        size(rows[i].bytes as int) <= weight(rows),
    decreases rows.len(),
{
    if i < rows.len() - 1 {
        lemma_weight_member(rows.drop_last(), i);
    }
}

pub proof fn lemma_light_weight(rows: Seq<TickRow>)
    requires
        all_light(rows),
    ensures
        weight(rows) <= rows.len() * TICK_LIMIT,
    decreases rows.len(),
{
    if rows.len() > 0 {
        lemma_light_weight(rows.drop_last());
        assert(weight(rows) <= (rows.len() - 1) * TICK_LIMIT + TICK_LIMIT);
        assert((rows.len() - 1) * TICK_LIMIT + TICK_LIMIT == rows.len() * TICK_LIMIT)
            by (nonlinear_arith);
    }
}

/// Slotting keeps the order, and adds at most the weight of the new tick.
proof fn lemma_slotted(acc: Seq<TickRow>, r: TickRow)
    requires
        ascending(acc),
        all_timed(acc),
        r.timed(),
        weight(acc) + size(r.bytes as int) <= STREAM_LIMIT,
    ensures
        ascending(slotted(acc, r)),
        all_timed(slotted(acc, r)),
        weight(slotted(acc, r)) <= weight(acc) + size(r.bytes as int),
        acc.len() <= slotted(acc, r).len() <= acc.len() + 1,
        slotted(acc, r).len() > 0,
        slotted(acc, r).last().end_ms == (if acc.len() == 0 || acc.last().end_ms < r.end_ms {
            r.end_ms
        } else {
            acc.last().end_ms
        }),
    decreases acc.len(),
{
    if acc.len() == 0 || acc.last().end_ms < r.end_ms {
        lemma_weight_push(acc, r);
    } else if acc.last().end_ms == r.end_ms {
        let d = acc.drop_last();
        let both = TickRow { bytes: (acc.last().bytes + r.bytes) as i128, ..acc.last() };
        lemma_weight_push(d, both);
    } else {
        let d = acc.drop_last();
        lemma_slotted(d, r);
        lemma_weight_push(slotted(d, r), acc.last());
        let s = slotted(d, r);
        assert(s.last().end_ms < acc.last().end_ms);
        assert forall|i: int, j: int| 0 <= i < j < s.push(acc.last()).len() implies (
        #[trigger] s.push(acc.last())[i]).end_ms < (#[trigger] s.push(acc.last())[j]).end_ms by {
            if j == s.len() {
                if i < s.len() - 1 {
                    assert(s[i].end_ms < s[s.len() - 1].end_ms);
                }
            }
        }
    }
}

proof fn lemma_gathered(rows: Seq<TickRow>)
    requires
        all_light(rows),
        rows.len() <= TICKS_LIMIT,
    ensures
        ascending(gathered(rows)),
        all_timed(gathered(rows)),
        weight(gathered(rows)) <= rows.len() * TICK_LIMIT,
        gathered(rows).len() <= rows.len(),
    decreases rows.len(),
{
    if rows.len() > 0 {
        lemma_gathered(rows.drop_last());
        assert(rows.last().light());
        assert((rows.len() - 1) * TICK_LIMIT + TICK_LIMIT == rows.len() * TICK_LIMIT)
            by (nonlinear_arith);
        lemma_slotted(gathered(rows.drop_last()), rows.last());
    }
}

proof fn lemma_slotted_insert(acc: Seq<TickRow>, r: TickRow, at: int)
    requires
        0 <= at <= acc.len(),
        at == 0 || acc[at - 1].end_ms < r.end_ms,
        forall|j: int| at <= j < acc.len() ==> (#[trigger] acc[j]).end_ms > r.end_ms,
    ensures
        slotted(acc, r) == acc.insert(at, r),
    decreases acc.len(),
{
    if acc.len() == 0 || acc.last().end_ms < r.end_ms {
        assert(at == acc.len());
        assert(acc.insert(at, r) =~= acc.push(r));
    } else {
        assert(at < acc.len());
        lemma_slotted_insert(acc.drop_last(), r, at);
        assert(acc.drop_last().insert(at, r).push(acc.last()) =~= acc.insert(at, r));
    }
}

proof fn lemma_slotted_add(acc: Seq<TickRow>, r: TickRow, at: int)
    requires
        0 <= at < acc.len(),
        acc[at].end_ms == r.end_ms,
        forall|j: int| at < j < acc.len() ==> (#[trigger] acc[j]).end_ms > r.end_ms,
    ensures
        slotted(acc, r) == acc.update(
            at,
            TickRow { bytes: (acc[at].bytes + r.bytes) as i128, ..acc[at] },
        ),
    decreases acc.len(),
{
    let both = TickRow { bytes: (acc[at].bytes + r.bytes) as i128, ..acc[at] };
    if at == acc.len() - 1 {
        assert(acc.drop_last().push(both) =~= acc.update(at, both));
    } else {
        lemma_slotted_add(acc.drop_last(), r, at);
        assert(acc.drop_last().update(at, both).push(acc.last()) =~= acc.update(at, both));
    }
}

fn slot(acc: &mut Vec<TickRow>, r: TickRow)
    requires
        ascending(old(acc)@),
        all_timed(old(acc)@),
        r.timed(),
        weight(old(acc)@) + size(r.bytes as int) <= STREAM_LIMIT,
    ensures
        final(acc)@ == slotted(old(acc)@, r),
{
    let mut at: usize = acc.len();
    while at > 0 && acc[at - 1].end_ms > r.end_ms
        invariant
            at <= acc@.len(),
            acc@ == old(acc)@,
            forall|j: int| at <= j < acc@.len() ==> (#[trigger] acc@[j]).end_ms > r.end_ms,
        decreases at,
    {
        at = at - 1;
    }
    if at > 0 && acc[at - 1].end_ms == r.end_ms {
        let cur = acc[at - 1];
        proof {
            lemma_slotted_add(acc@, r, at - 1);
            lemma_weight_member(acc@, at - 1);
        }
        acc.set(at - 1, TickRow { dt_ms: cur.dt_ms, bytes: cur.bytes + r.bytes, end_ms: cur.end_ms });
    } else {
        proof {
            lemma_slotted_insert(acc@, r, at as int);
        }
        acc.insert(at, r);
    }
}

proof fn lemma_flat_step(streams: Seq<&[TickRow]>, i: int)
    requires
        0 <= i < streams.len(),
    ensures
        flat(streams.take(i + 1)) == flat(streams.take(i)) + streams[i]@,
{
    assert(streams.take(i + 1).drop_last() =~= streams.take(i));
}

proof fn lemma_flat_prefix(streams: Seq<&[TickRow]>, i: int)
    requires
        0 <= i <= streams.len(),
    ensures
        flat(streams.take(i)).len() <= flat(streams).len(),
        flat(streams).take(flat(streams.take(i)).len() as int) == flat(streams.take(i)),
    decreases streams.len() - i,
{
    if i == streams.len() {
        assert(streams.take(i) =~= streams);
        assert(flat(streams).take(flat(streams).len() as int) =~= flat(streams));
    } else {
        lemma_flat_prefix(streams, i + 1);
        lemma_flat_step(streams, i);
        let f = flat(streams.take(i + 1));
        assert(flat(streams).take(flat(streams.take(i)).len() as int) =~= f.take(
            flat(streams.take(i)).len() as int,
        ));
        assert(f.take(flat(streams.take(i)).len() as int) =~= flat(streams.take(i)));
    }
}

/// The first of a sequence, at most so many.
pub open spec fn first_of<T>(s: Seq<T>, n: nat) -> Seq<T> {
    if s.len() <= n {
        s
    } else {
        s.take(n as int)
    }
}

/// The first of a list, at most so many.
pub fn head<T>(s: &[T], n: usize) -> (r: &[T])
    ensures
        r@ == first_of(s@, n as nat),
{
    if s.len() <= n {
        s
    } else {
        vstd::slice::slice_subrange(s, 0, n)
    }
}

fn gather(streams: &[&[TickRow]]) -> (r: Vec<TickRow>)
    requires
        all_light(flat(streams@)),
    ensures
        r@ == gathered(first_of(flat(streams@), TICKS_LIMIT as nat)),
{
    let mut acc: Vec<TickRow> = Vec::new();
    let ghost all = flat(streams@);
    let ghost limit = TICKS_LIMIT as nat;
    let mut count: usize = 0;
    assert(streams@.take(0) =~= Seq::empty());
    for i in 0..streams.len()
        invariant
            all == flat(streams@),
            limit == TICKS_LIMIT,
            all_light(all),
            count == first_of(flat(streams@.take(i as int)), limit).len(),
            acc@ == gathered(first_of(flat(streams@.take(i as int)), limit)),
    {
        let rows = streams[i];
        let ghost front = flat(streams@.take(i as int));
        proof {
            lemma_flat_step(streams@, i as int);
            lemma_flat_prefix(streams@, i + 1);
            assert(front + rows@.take(0) =~= front);
        }
        for j in 0..rows.len()
            invariant
                all_light(all),
                limit == TICKS_LIMIT,
                front.len() + rows@.len() <= all.len(),
                all.take((front.len() + rows@.len()) as int) == front + rows@,
                count == first_of(front + rows@.take(j as int), limit).len(),
                acc@ == gathered(first_of(front + rows@.take(j as int), limit)),
        {
            let ghost done = front + rows@.take(j as int);
            let ghost next = front + rows@.take(j + 1);
            proof {
                assert(next.drop_last() =~= done);
                assert(next.last() == rows@[j as int]);
            }
            if count < TICKS_LIMIT {
                proof {
                    assert forall|k: int| 0 <= k <= done.len() implies (#[trigger] (front
                        + rows@)[k]).light() by {
                        assert(all.take((front.len() + rows@.len()) as int)[k] == all[k]);
                    }
                    assert forall|k: int| 0 <= k < done.len() implies (
                    #[trigger] done[k]).light() by {
                        assert((front + rows@)[k] == done[k]);
                    }
                    assert((front + rows@)[done.len() as int] == rows@[j as int]);
                    lemma_gathered(done);
                    assert(done.len() * TICK_LIMIT + TICK_LIMIT <= STREAM_LIMIT)
                        by (nonlinear_arith)
                        requires
                            done.len() < TICKS_LIMIT,
                            TICK_LIMIT == 0x1000_0000_0000_0000_0000,
                            TICKS_LIMIT == 0x200_0000,
                            STREAM_LIMIT == 0x1_0000_0000_0000_0000_0000_0000_0000,
                    ;
                }
                slot(&mut acc, rows[j]);
                count = count + 1;
            } else {
                assert(first_of(next, limit) =~= first_of(done, limit));
            }
        }
        assert(rows@.take(rows@.len() as int) =~= rows@);
    }
    assert(streams@.take(streams@.len() as int) =~= streams@);
    acc
}

proof fn lemma_growth_bound(files: Seq<(i64, u64)>, t0: int, t1: int)
    ensures
        file_growth(files, t0, t1) <= files.len() * u64::MAX,
    decreases files.len(),
{
    if files.len() >= 2 {
        lemma_growth_bound(files.drop_last(), t0, t1);
        assert((files.len() - 1) * u64::MAX + u64::MAX == files.len() * u64::MAX)
            by (nonlinear_arith);
    } else {
        assert(0 <= files.len() * u64::MAX) by (nonlinear_arith);
    }
}

fn growth(files: &[(i64, u64)], t0: i64, t1: i64) -> (r: u128)
    requires
        files@.len() <= FILES_LIMIT,
    ensures
        r == file_growth(files@, t0 as int, t1 as int),
        r <= FILES_LIMIT * u64::MAX,
{
    let mut sum: u128 = 0;
    let n: usize = files.len();
    let mut i: usize = 1;
    if n >= 1 {
        assert(files@.take(1).len() < 2);
        while i < n
            invariant
                1 <= i <= n,
                n == files@.len(),
                n <= FILES_LIMIT,
                sum == file_growth(files@.take(i as int), t0 as int, t1 as int),
            decreases n - i,
        {
            let a = files[i - 1];
            let b = files[i];
            proof {
                assert(files@.take(i + 1).drop_last() =~= files@.take(i as int));
                assert(files@.take(i + 1)[i - 1] == a);
                lemma_growth_bound(files@.take(i as int), t0 as int, t1 as int);
                assert(i * u64::MAX <= FILES_LIMIT * u64::MAX) by (nonlinear_arith)
                    requires
                        i <= FILES_LIMIT,
                ;
            }
            if b.0 > t0 && a.0 < t1 {
                if b.1 >= a.1 {
                    sum = sum + (b.1 - a.1) as u128;
                }
            }
            i = i + 1;
        }
        assert(files@.take(n as int) =~= files@);
    }
    proof {
        lemma_growth_bound(files@, t0 as int, t1 as int);
        assert(files@.len() * u64::MAX <= FILES_LIMIT * u64::MAX) by (nonlinear_arith)
            requires
                files@.len() <= FILES_LIMIT,
        ;
    }
    sum
}

/// The streams of several processes put together: bytes of ticks that end together are
/// added, their time counts once, and the growth of the tracked files is taken off once. Of
/// more ticks, or of more samples of the files, than a measurement ever holds, the first count.
pub fn merge_streams(streams: &[&[TickRow]], files: &[(i64, u64)]) -> (r: Vec<TickRow>)
    requires
        all_light(flat(streams@)),
    ensures
        r@ == merged(
            first_of(flat(streams@), TICKS_LIMIT as nat),
            first_of(files@, FILES_LIMIT as nat),
        ),
        ascending(r@),
        all_timed(r@),
        weight(r@) <= STREAM_LIMIT,
        r@.len() <= flat(streams@).len(),
{
    let acc = gather(streams);
    let ghost rows = first_of(flat(streams@), TICKS_LIMIT as nat);
    let ghost g = gathered(rows);
    let files = head(files, FILES_LIMIT);
    proof {
        assert forall|i: int| 0 <= i < rows.len() implies (#[trigger] rows[i]).light() by {
            assert(rows[i] == flat(streams@)[i]);
        }
        lemma_gathered(rows);
    }
    let mut out: Vec<TickRow> = Vec::new();
    assert(g.take(0) =~= Seq::empty());
    for i in 0..acc.len()
        invariant
            acc@ == g,
            g.len() <= TICKS_LIMIT,
            all_timed(g),
            files@.len() <= FILES_LIMIT,
            weight(g) <= TICKS_LIMIT * TICK_LIMIT,
            out@ == g.take(i as int).map_values(|r: TickRow| without_files(r, files@)),
            weight(out@) <= weight(g.take(i as int)) + i * (1000 * (FILES_LIMIT * u64::MAX)),
    {
        let r = acc[i];
        let fg: u128 = growth(files, r.end_ms - r.dt_ms, r.end_ms);
        proof {
            lemma_weight_member(g, i as int);
        }
        let one = TickRow { dt_ms: r.dt_ms, bytes: r.bytes - 1000 * fg as i128, end_ms: r.end_ms };
        proof {
            lemma_weight_push(out@, one);
            assert(g.take(i + 1) =~= g.take(i as int).push(r));
            lemma_weight_push(g.take(i as int), r);
            assert(i * (1000 * (FILES_LIMIT * u64::MAX)) + 1000 * (FILES_LIMIT * u64::MAX) == (i
                + 1) * (1000 * (FILES_LIMIT * u64::MAX))) by (nonlinear_arith);
        }
        out.push(one);
        assert(out@ =~= g.take(i + 1).map_values(|r: TickRow| without_files(r, files@)));
    }
    proof {
        assert(g.take(g.len() as int) =~= g);
        assert(g.len() * (1000 * (FILES_LIMIT * u64::MAX)) <= TICKS_LIMIT * (1000 * (FILES_LIMIT
            * u64::MAX))) by (nonlinear_arith)
            requires
                g.len() <= TICKS_LIMIT,
        ;
    }
    out
}

/// The growth of the tracked files as ticks.
pub open spec fn file_ticks(s: Seq<(i64, u64)>) -> Seq<TickRow>
    decreases s.len(),
{
    if s.len() < 2 {
        Seq::empty()
    } else {
        let a = s[s.len() - 2];
        let b = s.last();
        let front = file_ticks(s.drop_last());
        if b.0 <= a.0 {
            front
        } else {
            front.push(
                TickRow {
                    dt_ms: (b.0 - a.0) as i64,
                    bytes: (1000 * grown(a.1, b.1)) as i128,
                    end_ms: b.0,
                },
            )
        }
    }
}

/// The growth of the tracked files, sample by sample.
pub fn file_growth_rows(files: &[(i64, u64)]) -> (r: Vec<TickRow>)
    requires
        clocked(files@),
    ensures
        r@ == file_ticks(files@),
        all_light(r@),
        r@.len() <= files@.len(),
        forall|i: int| 0 <= i < r@.len() ==> (#[trigger] r@[i]).bytes >= 0,
{
    let mut rows: Vec<TickRow> = Vec::new();
    let n: usize = files.len();
    if n < 2 {
        return rows;
    }
    let mut i: usize = 1;
    assert(file_ticks(files@.take(1)) =~= Seq::empty());
    while i < n
        invariant
            1 <= i <= n,
            n == files@.len(),
            clocked(files@),
            rows@ == file_ticks(files@.take(i as int)),
            all_light(rows@),
            rows@.len() < i,
            forall|i: int| 0 <= i < rows@.len() ==> (#[trigger] rows@[i]).bytes >= 0,
        decreases n - i,
    {
        let a = files[i - 1];
        let b = files[i];
        assert(files@.take(i + 1).drop_last() =~= files@.take(i as int));
        assert(files@.take(i + 1).last() == b);
        assert(files@.take(i + 1)[i - 1] == a);
        i = i + 1;
        if b.0 <= a.0 {
            continue;
        }
        let raw: u64 = if b.1 >= a.1 {
            b.1 - a.1
        } else {
            0
        };
        rows.push(TickRow { dt_ms: b.0 - a.0, bytes: 1000 * raw as i128, end_ms: b.0 });
    }
    assert(files@.take(n as int) =~= files@);
    rows
}

/// For how long a tick overlaps `from..to`.
pub open spec fn overlap(r: TickRow, from: int, to: int) -> int {
    let lo = most(r.end_ms - r.dt_ms, from);
    let hi = least(r.end_ms as int, to);
    if hi <= lo {
        0
    } else {
        hi - lo
    }
}

/// The share of a tick that falls into `from..to`, rounded down.
pub open spec fn share(r: TickRow, from: int, to: int) -> int {
    (r.bytes * overlap(r, from, to)) / (r.dt_ms as int)
}

/// What a stream carried in `from..to`, in thousandths of a byte.
pub open spec fn carried(rows: Seq<TickRow>, from: int, to: int) -> int
    decreases rows.len(),
{
    if rows.len() == 0 {
        0
    } else {
        carried(rows.drop_last(), from, to) + share(rows.last(), from, to)
    }
}

/// For how many milliseconds the stream has ticks in `from..to`.
pub open spec fn covered(rows: Seq<TickRow>, from: int, to: int) -> int
    decreases rows.len(),
{
    if rows.len() == 0 {
        0
    } else {
        covered(rows.drop_last(), from, to) + overlap(rows.last(), from, to)
    }
}

proof fn lemma_share(r: TickRow, from: int, to: int)
    requires
        r.timed(),
    ensures
        0 <= overlap(r, from, to) <= r.dt_ms,
        size(share(r, from, to)) <= size(r.bytes as int),
        overlap(r, from, to) == 0 ==> share(r, from, to) == 0,
        overlap(r, from, to) == r.dt_ms ==> share(r, from, to) == r.bytes,
{
    let ov = overlap(r, from, to);
    let b = r.bytes as int;
    let dt = r.dt_ms as int;
    assert(0 <= ov <= dt);
    if b >= 0 {
        assert(0 <= b * ov <= b * dt) by (nonlinear_arith)
            requires
                0 <= ov <= dt,
                b >= 0,
        ;
        assert(0 <= (b * ov) / dt <= b) by (nonlinear_arith)
            requires
                0 <= b * ov <= b * dt,
                dt > 0,
        ;
    } else {
        assert(b * dt <= b * ov <= 0) by (nonlinear_arith)
            requires
                0 <= ov <= dt,
                b < 0,
        ;
        assert(b <= (b * ov) / dt <= 0) by (nonlinear_arith)
            requires
                b * dt <= b * ov <= 0,
                dt > 0,
        ;
    }
    if ov == 0 {
        assert((b * 0) / dt == 0) by (nonlinear_arith)
            requires
                dt > 0,
        ;
    }
    if ov == dt {
        assert((b * dt) / dt == b) by (nonlinear_arith)
            requires
                dt > 0,
        ;
    }
}

pub proof fn lemma_carried_bound(rows: Seq<TickRow>, from: int, to: int)
    requires
        all_timed(rows),
    ensures
        size(carried(rows, from, to)) <= weight(rows),
        0 <= covered(rows, from, to) <= rows.len() * (2 * CLOCK_LIMIT),
    decreases rows.len(),
{
    if rows.len() > 0 {
        lemma_carried_bound(rows.drop_last(), from, to);
        lemma_share(rows.last(), from, to);
        assert((rows.len() - 1) * (2 * CLOCK_LIMIT) + 2 * CLOCK_LIMIT == rows.len() * (2
            * CLOCK_LIMIT)) by (nonlinear_arith);
    } else {
        assert(rows.len() * (2 * CLOCK_LIMIT) == 0) by (nonlinear_arith)
            requires
                rows.len() == 0,
        ;
    }
}

fn prorated(bytes: i128, ov: i64, dt: i64) -> (r: i128)
    requires
        0 < ov <= dt <= 2 * CLOCK_LIMIT,
        size(bytes as int) <= STREAM_LIMIT,
    ensures
        r == (bytes * ov) / (dt as int),
        size(r as int) <= size(bytes as int),
{
    let d: i128 = dt as i128;
    let o: i128 = ov as i128;
    // Division of a negative number rounds toward zero, so it is done on the size.
    let neg = bytes < 0;
    let a: i128 = if neg {
        -bytes
    } else {
        bytes
    };
    let q: i128 = a / d;
    let m: i128 = a % d;
    proof {
        assert(0 <= q * o <= q * d && 0 <= m * o <= m * d && q * d <= a && m * d <= 0x40_0000_0000_0000
            * 0x40_0000_0000_0000 && q * d + m == a) by (nonlinear_arith)
            requires
                a >= 0,
                0 < o <= d,
                d <= 0x40_0000_0000_0000,
                q == a / d,
                m == a % d,
        ;
    }
    let whole: i128 = q * o;
    let num: i128 = m * o;
    let rest: i128 = num / d;
    let rem: i128 = num % d;
    proof {
        assert(a * o == whole * d + num) by (nonlinear_arith)
            requires
                q * d + m == a,
                whole == q * o,
                num == m * o,
        ;
        assert(0 <= rest <= m) by (nonlinear_arith)
            requires
                0 <= num <= m * d,
                d > 0,
                rest == num / d,
        ;
        assert(num == rest * d + rem && 0 <= rem < d) by (nonlinear_arith)
            requires
                d > 0,
                rest == num / d,
                rem == num % d,
        ;
        assert(a * o == (whole + rest) * d + rem) by (nonlinear_arith)
            requires
                a * o == whole * d + num,
                num == rest * d + rem,
        ;
        assert(q <= q * d) by (nonlinear_arith)
            requires
                d >= 1,
                q >= 0,
        ;
        assert(whole + rest <= a);
    }
    if !neg {
        proof {
            assert((a * o) / (d as int) == whole + rest) by (nonlinear_arith)
                requires
                    a * o == (whole + rest) * d + rem,
                    0 <= rem < d,
            ;
        }
        whole + rest
    } else if rem == 0 {
        proof {
            assert((-a * o) / (d as int) == -(whole + rest)) by (nonlinear_arith)
                requires
                    a * o == (whole + rest) * d,
                    0 < d,
            ;
        }
        -(whole + rest)
    } else {
        proof {
            assert((-a * o) / (d as int) == -(whole + rest) - 1) by (nonlinear_arith)
                requires
                    a * o == (whole + rest) * d + rem,
                    0 < rem < d,
            ;
            assert(whole + rest + 1 <= a) by (nonlinear_arith)
                requires
                    a * o == (whole + rest) * d + rem,
                    0 < rem,
                    0 < o <= d,
                    a >= 0,
            ;
        }
        -(whole + rest) - 1
    }
}

/// What a stream carried in `from_ms..to_ms` (in thousandths of a byte), and for how many
/// milliseconds it has ticks there. A tick that crosses a boundary counts in proportion.
pub fn integrate(rows: &[TickRow], from_ms: i64, to_ms: i64) -> (r: (i128, u128))
    requires
        all_timed(rows@),
        weight(rows@) <= STREAM_LIMIT,
    ensures
        r.0 == carried(rows@, from_ms as int, to_ms as int),
        r.1 == covered(rows@, from_ms as int, to_ms as int),
        size(r.0 as int) <= weight(rows@),
{
    let mut bytes: i128 = 0;
    let mut ms: u128 = 0;
    let n: usize = rows.len();
    proof {
        assert(rows@.take(0) =~= Seq::empty());
    }
    for i in 0..n
        invariant
            n == rows@.len(),
            all_timed(rows@),
            weight(rows@) <= STREAM_LIMIT,
            bytes == carried(rows@.take(i as int), from_ms as int, to_ms as int),
            ms == covered(rows@.take(i as int), from_ms as int, to_ms as int),
    {
        let r = rows[i];
        proof {
            let done = rows@.take(i as int);
            let more = rows@.take(i + 1);
            assert(more.drop_last() =~= done);
            assert(more.last() == r);
            lemma_carried_bound(done, from_ms as int, to_ms as int);
            lemma_carried_bound(more, from_ms as int, to_ms as int);
            lemma_share(r, from_ms as int, to_ms as int);
            lemma_weight_prefix(rows@, i + 1);
            lemma_weight_member(rows@, i as int);
            assert(i * (2 * CLOCK_LIMIT) <= u64::MAX * (2 * CLOCK_LIMIT)) by (nonlinear_arith)
                requires
                    i <= u64::MAX,
            ;
        }
        let start: i64 = r.end_ms - r.dt_ms;
        let lo: i64 = if start >= from_ms {
            start
        } else {
            from_ms
        };
        let hi: i64 = if r.end_ms <= to_ms {
            r.end_ms
        } else {
            to_ms
        };
        if hi > lo {
            let ov: i64 = hi - lo;
            bytes = bytes + prorated(r.bytes, ov, r.dt_ms);
            ms = ms + ov as u128;
        }
    }
    proof {
        assert(rows@.take(rows@.len() as int) =~= rows@);
        lemma_carried_bound(rows@, from_ms as int, to_ms as int);
    }
    (bytes, ms)
}

proof fn lemma_weight_prefix(rows: Seq<TickRow>, i: int)
    requires
        0 <= i <= rows.len(),
    ensures
        weight(rows.take(i)) <= weight(rows),
    decreases rows.len() - i,
{
    if i == rows.len() {
        assert(rows.take(i) =~= rows);
    } else {
        lemma_weight_prefix(rows, i + 1);
        assert(rows.take(i + 1).drop_last() =~= rows.take(i));
    }
}

/// The bytes of all ticks that end at `e`.
pub open spec fn bytes_ending(rows: Seq<TickRow>, e: i64) -> int
    decreases rows.len(),
{
    if rows.len() == 0 {
        0
    } else {
        bytes_ending(rows.drop_last(), e) + (if rows.last().end_ms == e {
            rows.last().bytes as int
        } else {
            0
        })
    }
}

/// A tick that ends at `e` is among them.
pub open spec fn ends_at(rows: Seq<TickRow>, e: i64) -> bool {
    exists|i: int| 0 <= i < rows.len() && (#[trigger] rows[i]).end_ms == e
}

proof fn lemma_none_ending(rows: Seq<TickRow>, e: i64)
    requires
        forall|i: int| 0 <= i < rows.len() ==> (#[trigger] rows[i]).end_ms != e,
    ensures
        bytes_ending(rows, e) == 0,
    decreases rows.len(),
{
    if rows.len() > 0 {
        lemma_none_ending(rows.drop_last(), e);
    }
}

proof fn lemma_one_ending(rows: Seq<TickRow>, i: int)
    requires
        ascending(rows),
        0 <= i < rows.len(),
    ensures
        bytes_ending(rows, rows[i].end_ms) == rows[i].bytes,
    decreases rows.len(),
{
    let e = rows[i].end_ms;
    if i == rows.len() - 1 {
        assert forall|k: int| 0 <= k < rows.drop_last().len() implies (
        #[trigger] rows.drop_last()[k]).end_ms != e by {
            assert(rows[k].end_ms < rows[i].end_ms);
        }
        lemma_none_ending(rows.drop_last(), e);
    } else {
        lemma_one_ending(rows.drop_last(), i);
        assert(rows[i].end_ms < rows[rows.len() - 1].end_ms);
    }
}

proof fn lemma_slotted_bytes(acc: Seq<TickRow>, r: TickRow, e: i64)
    requires
        ascending(acc),
        all_timed(acc),
        r.timed(),
        weight(acc) + size(r.bytes as int) <= STREAM_LIMIT,
    ensures
        bytes_ending(slotted(acc, r), e) == bytes_ending(acc, e) + (if r.end_ms == e {
            r.bytes as int
        } else {
            0
        }),
        ends_at(slotted(acc, r), e) == (ends_at(acc, e) || r.end_ms == e),
    decreases acc.len(),
{
    let s = slotted(acc, r);
    if acc.len() == 0 || acc.last().end_ms < r.end_ms {
        assert(s.drop_last() =~= acc);
        assert(s[acc.len() as int] == r);
        if ends_at(acc, e) {
            let i = choose|i: int| 0 <= i < acc.len() && (#[trigger] acc[i]).end_ms == e;
            assert(s[i].end_ms == e);
        }
        if ends_at(s, e) && r.end_ms != e {
            let i = choose|i: int| 0 <= i < s.len() && (#[trigger] s[i]).end_ms == e;
            assert(acc[i].end_ms == e);
        }
    } else if acc.last().end_ms == r.end_ms {
        assert(s.drop_last() =~= acc.drop_last());
        lemma_weight_member(acc, acc.len() - 1);
        assert(s[acc.len() - 1].end_ms == r.end_ms);
        if ends_at(acc, e) {
            let i = choose|i: int| 0 <= i < acc.len() && (#[trigger] acc[i]).end_ms == e;
            assert(s[i].end_ms == e);
        }
        if ends_at(s, e) {
            let i = choose|i: int| 0 <= i < s.len() && (#[trigger] s[i]).end_ms == e;
            assert(acc[i].end_ms == e);
        }
    } else {
        let d = acc.drop_last();
        lemma_slotted_bytes(d, r, e);
        let t = slotted(d, r);
        assert(s.drop_last() =~= t);
        if ends_at(acc, e) {
            let i = choose|i: int| 0 <= i < acc.len() && (#[trigger] acc[i]).end_ms == e;
            if i < d.len() {
                assert(d[i].end_ms == e);
                let k = choose|k: int| 0 <= k < t.len() && (#[trigger] t[k]).end_ms == e;
                assert(s[k].end_ms == e);
            } else {
                assert(s[t.len() as int].end_ms == e);
            }
        }
        if r.end_ms == e {
            let k = choose|k: int| 0 <= k < t.len() && (#[trigger] t[k]).end_ms == e;
            assert(s[k].end_ms == e);
        }
        if ends_at(s, e) && r.end_ms != e {
            let i = choose|i: int| 0 <= i < s.len() && (#[trigger] s[i]).end_ms == e;
            if i < t.len() {
                assert(t[i].end_ms == e);
                let k = choose|k: int| 0 <= k < d.len() && (#[trigger] d[k]).end_ms == e;
                assert(acc[k].end_ms == e);
            } else {
                assert(acc[acc.len() - 1].end_ms == e);
            }
        }
    }
}

proof fn lemma_gathered_bytes(rows: Seq<TickRow>, e: i64)
    requires
        all_light(rows),
        rows.len() <= TICKS_LIMIT,
    ensures
        bytes_ending(gathered(rows), e) == bytes_ending(rows, e),
        ends_at(gathered(rows), e) == ends_at(rows, e),
    decreases rows.len(),
{
    if rows.len() > 0 {
        let d = rows.drop_last();
        lemma_gathered_bytes(d, e);
        lemma_gathered(d);
        assert(rows.last().light());
        assert(d.len() * TICK_LIMIT + TICK_LIMIT <= STREAM_LIMIT) by (nonlinear_arith)
            requires
                d.len() < TICKS_LIMIT,
                TICK_LIMIT == 0x1000_0000_0000_0000_0000,
                TICKS_LIMIT == 0x200_0000,
                STREAM_LIMIT == 0x1_0000_0000_0000_0000_0000_0000_0000,
        ;
        lemma_slotted_bytes(gathered(d), rows.last(), e);
        if ends_at(rows, e) && rows.last().end_ms != e {
            let i = choose|i: int| 0 <= i < rows.len() && (#[trigger] rows[i]).end_ms == e;
            assert(d[i].end_ms == e);
        }
        if ends_at(d, e) {
            let i = choose|i: int| 0 <= i < d.len() && (#[trigger] d[i]).end_ms == e;
            assert(rows[i].end_ms == e);
        }
        if rows.last().end_ms == e {
            assert(rows[rows.len() - 1].end_ms == e);
        }
    }
}

/// Putting streams together loses nothing and counts no time twice: the merged stream has
/// exactly one tick for each end that occurs, and that tick carries the bytes of all ticks
/// with this end, without what the tracked files grew meanwhile, taken off once.
pub proof fn law_merge_counts_once(rows: Seq<TickRow>, files: Seq<(i64, u64)>)
    requires
        all_light(rows),
        rows.len() <= TICKS_LIMIT,
        files.len() <= FILES_LIMIT,
    ensures
        ascending(merged(rows, files)),
        forall|e: i64| ends_at(merged(rows, files), e) == ends_at(rows, e),
        forall|i: int|
            0 <= i < merged(rows, files).len() ==> (#[trigger] merged(rows, files)[i]).bytes
                == bytes_ending(rows, merged(rows, files)[i].end_ms) - 1000 * file_growth(
                files,
                merged(rows, files)[i].end_ms - merged(rows, files)[i].dt_ms,
                merged(rows, files)[i].end_ms as int,
            ),
{
    let g = gathered(rows);
    let m = merged(rows, files);
    lemma_gathered(rows);
    assert forall|i: int, j: int| 0 <= i < j < m.len() implies (#[trigger] m[i]).end_ms < (
    #[trigger] m[j]).end_ms by {
        assert(g[i].end_ms < g[j].end_ms);
    }
    assert forall|e: i64| ends_at(m, e) == ends_at(rows, e) by {
        lemma_gathered_bytes(rows, e);
        if ends_at(m, e) {
            let i = choose|i: int| 0 <= i < m.len() && (#[trigger] m[i]).end_ms == e;
            assert(g[i].end_ms == e);
        }
        if ends_at(g, e) {
            let i = choose|i: int| 0 <= i < g.len() && (#[trigger] g[i]).end_ms == e;
            assert(m[i].end_ms == e);
        }
    }
    assert forall|i: int| 0 <= i < m.len() implies (#[trigger] m[i]).bytes == bytes_ending(
        rows,
        m[i].end_ms,
    ) - 1000 * file_growth(files, m[i].end_ms - m[i].dt_ms, m[i].end_ms as int) by {
        lemma_gathered_bytes(rows, g[i].end_ms);
        lemma_one_ending(g, i);
        lemma_growth_bound(files, g[i].end_ms - g[i].dt_ms, g[i].end_ms as int);
        lemma_weight_member(g, i);
        assert(files.len() * u64::MAX <= FILES_LIMIT * u64::MAX) by (nonlinear_arith)
            requires
                files.len() <= FILES_LIMIT,
        ;
        assert(rows.len() * TICK_LIMIT <= TICKS_LIMIT * TICK_LIMIT) by (nonlinear_arith)
            requires
                rows.len() <= TICKS_LIMIT,
                TICK_LIMIT == 0x1000_0000_0000_0000_0000,
        ;
    }
}

/// A single stream in order stays as it is but for the growth of the tracked files,
/// which is taken off tick by tick.
pub proof fn law_merge_of_one_stream(rows: Seq<TickRow>, files: Seq<(i64, u64)>)
    requires
        ascending(rows),
    ensures
        merged(rows, files) == rows.map_values(|r: TickRow| without_files(r, files)),
    decreases rows.len(),
{
    assert(gathered(rows) == rows) by {
        lemma_gathered_in_order(rows);
    }
}

proof fn lemma_gathered_in_order(rows: Seq<TickRow>)
    requires
        ascending(rows),
    ensures
        gathered(rows) == rows,
    decreases rows.len(),
{
    if rows.len() > 0 {
        lemma_gathered_in_order(rows.drop_last());
        if rows.len() > 1 {
            assert(rows[rows.len() - 2].end_ms < rows[rows.len() - 1].end_ms);
        }
        assert(rows.drop_last().push(rows.last()) =~= rows);
    }
}

/// The sum of the bytes of all ticks.
pub open spec fn total_bytes(rows: Seq<TickRow>) -> int
    decreases rows.len(),
{
    if rows.len() == 0 {
        0
    } else {
        total_bytes(rows.drop_last()) + rows.last().bytes
    }
}

/// The sum of the lengths of all ticks.
pub open spec fn total_ms(rows: Seq<TickRow>) -> int
    decreases rows.len(),
{
    if rows.len() == 0 {
        0
    } else {
        total_ms(rows.drop_last()) + rows.last().dt_ms
    }
}

/// Over an interval that holds every tick, a stream carried exactly the sum of its ticks;
/// ticks that are negative from a misplaced flush cancel out. Over an interval that
/// touches none, it carried nothing.
pub proof fn law_integral_of_whole_and_empty_interval(rows: Seq<TickRow>, from: int, to: int)
    requires
        all_timed(rows),
    ensures
        (forall|i: int|
            0 <= i < rows.len() ==> from <= (#[trigger] rows[i]).end_ms - rows[i].dt_ms
                && rows[i].end_ms <= to) ==> carried(rows, from, to) == total_bytes(rows) && covered(
            rows,
            from,
            to,
        ) == total_ms(rows),
        (forall|i: int|
            0 <= i < rows.len() ==> to <= (#[trigger] rows[i]).end_ms - rows[i].dt_ms
                || rows[i].end_ms <= from) ==> carried(rows, from, to) == 0 && covered(
            rows,
            from,
            to,
        ) == 0,
    decreases rows.len(),
{
    if rows.len() > 0 {
        let d = rows.drop_last();
        law_integral_of_whole_and_empty_interval(d, from, to);
        lemma_share(rows.last(), from, to);
        if forall|i: int|
            0 <= i < rows.len() ==> from <= (#[trigger] rows[i]).end_ms - rows[i].dt_ms
                && rows[i].end_ms <= to {
            assert forall|i: int| 0 <= i < d.len() implies from <= (#[trigger] d[i]).end_ms
                - d[i].dt_ms && d[i].end_ms <= to by {
                assert(rows[i] == d[i]);
            }
            assert(rows[rows.len() - 1] == rows.last());
        }
        if forall|i: int|
            0 <= i < rows.len() ==> to <= (#[trigger] rows[i]).end_ms - rows[i].dt_ms
                || rows[i].end_ms <= from {
            assert forall|i: int| 0 <= i < d.len() implies to <= (#[trigger] d[i]).end_ms
                - d[i].dt_ms || d[i].end_ms <= from by {
                assert(rows[i] == d[i]);
            }
            assert(rows[rows.len() - 1] == rows.last());
        }
    }
}

/// A stream that carries so many thousandths of a byte in every millisecond.
pub open spec fn steady(rows: Seq<TickRow>, k: int) -> bool {
    forall|i: int| 0 <= i < rows.len() ==> (#[trigger] rows[i]).bytes == k * rows[i].dt_ms
}

/// Over any interval, a steady stream carried its rate for as long as it has ticks there:
/// bytes are shared out by time, however the interval cuts the ticks.
pub proof fn law_steady_stream_carries_its_rate(rows: Seq<TickRow>, k: int, from: int, to: int)
    requires
        all_timed(rows),
        steady(rows, k),
    ensures
        carried(rows, from, to) == k * covered(rows, from, to),
    decreases rows.len(),
{
    if rows.len() > 0 {
        let d = rows.drop_last();
        let r = rows.last();
        assert(rows[rows.len() - 1] == r);
        assert forall|i: int| 0 <= i < d.len() implies (#[trigger] d[i]).bytes == k * d[i].dt_ms by {
            assert(d[i] == rows[i]);
        }
        law_steady_stream_carries_its_rate(d, k, from, to);
        let ov = overlap(r, from, to);
        let dt = r.dt_ms as int;
        assert(((k * dt) * ov) / dt == k * ov) by (nonlinear_arith)
            requires
                dt > 0,
        ;
        let c = covered(d, from, to);
        assert(k * (c + ov) == k * c + k * ov) by (nonlinear_arith);
    } else {
        assert(k * 0 == 0) by (nonlinear_arith);
    }
}

/// Ticks that follow each other without a gap cover every interval that they span, each
/// millisecond once.
pub proof fn law_ticks_without_gaps_cover(rows: Seq<TickRow>, from: int, to: int)
    requires
        rows.len() > 0,
        all_timed(rows),
        forall|i: int|
            #![trigger rows[i]]
            0 < i < rows.len() ==> rows[i].end_ms - rows[i].dt_ms == rows[i - 1].end_ms,
        rows[0].end_ms - rows[0].dt_ms <= from <= to,
    ensures
        to <= rows.last().end_ms ==> covered(rows, from, to) == to - from,
        from <= rows.last().end_ms <= to ==> covered(rows, from, to) == rows.last().end_ms - from,
        rows.last().end_ms <= from ==> covered(rows, from, to) == 0,
    decreases rows.len(),
{
    let d = rows.drop_last();
    let r = rows.last();
    assert(rows[rows.len() - 1] == r);
    assert(r.timed());
    if d.len() > 0 {
        assert forall|i: int|
            #![trigger d[i]]
            0 < i < d.len() implies d[i].end_ms - d[i].dt_ms == d[i - 1].end_ms by {
            assert(rows[i] == d[i] && rows[i - 1] == d[i - 1]);
        }
        assert(rows[rows.len() - 2] == d.last());
        law_ticks_without_gaps_cover(d, from, to);
    } else {
        assert(covered(d, from, to) == 0);
        assert(rows[0] == r);
    }
}

/// Each tick is what the counter grew meanwhile, without the heartbeat, of which no more than
/// the cap is taken off, and without the noise for as long as it lasted. No tick that is no
/// burst is lost.
pub proof fn law_tick_is_growth_without_noise(
    s: Seq<(i64, u64)>,
    min_delta: u64,
    p: CleanParams,
    i: int,
)
    requires
        clocked(s),
        forall|k: int|
            #![trigger s[k]]
            0 < k < s.len() ==> s[k - 1].0 < s[k].0 && s[k - 1].1 <= s[k].1 && s[k].1 - s[k
                - 1].1 <= p.burst_tick_bytes,
        0 <= i < s.len() - 1,
    ensures
        ticks(s, min_delta, p).len() == s.len() - 1,
        ({
            let r = ticks(s, min_delta, p)[i];
            &&& r.end_ms == s[i + 1].0
            &&& r.dt_ms == s[i + 1].0 - s[i].0
            &&& r.bytes == 1000 * (s[i + 1].1 - s[i].1) - 1000 * (if min_delta
                <= p.floor_cap_bytes {
                min_delta
            } else {
                p.floor_cap_bytes
            }) - p.base_noise_bps * (s[i + 1].0 - s[i].0)
        }),
    decreases s.len(),
{
    let d = s.drop_last();
    let a = s[s.len() - 2];
    let b = s.last();
    assert(s[s.len() - 1] == b);
    assert(on_clock(a.0 as int) && on_clock(b.0 as int));
    assert(0 <= p.base_noise_bps * (b.0 - a.0) <= 0x1_0000 * 0x40_0000_0000_0001)
        by (nonlinear_arith)
        requires
            0 <= p.base_noise_bps < 0x1_0000,
            0 < b.0 - a.0 <= 0x40_0000_0000_0000,
    ;
    if d.len() >= 2 {
        assert forall|k: int|
            #![trigger d[k]]
            0 < k < d.len() implies d[k - 1].0 < d[k].0 && d[k - 1].1 <= d[k].1 && d[k].1 - d[k
            - 1].1 <= p.burst_tick_bytes by {
            assert(d[k] == s[k] && d[k - 1] == s[k - 1]);
        }
        if i < d.len() - 1 {
            law_tick_is_growth_without_noise(d, min_delta, p, i);
            assert(d[i] == s[i] && d[i + 1] == s[i + 1]);
        } else {
            law_tick_is_growth_without_noise(d, min_delta, p, 0);
        }
    } else {
        assert(ticks(d, min_delta, p).len() == 0);
    }
}

/// A burst leaves no trace: the ticks are the same as without the sample that ends it.
pub proof fn law_burst_is_dropped(
    s: Seq<(i64, u64)>,
    x: (i64, u64),
    min_delta: u64,
    p: CleanParams,
)
    requires
        s.len() > 0,
        grown(s.last().1, x.1) > p.burst_tick_bytes,
    ensures
        ticks(s.push(x), min_delta, p) == ticks(s, min_delta, p),
{
    assert(s.push(x).drop_last() =~= s);
}

/// However high the heartbeat floor was found to be, no more than the cap is taken off a
/// tick for it.
pub proof fn law_floor_is_capped(
    a: (i64, u64),
    b: (i64, u64),
    min_delta: u64,
    p: CleanParams,
)
    requires
        on_clock(a.0 as int),
        on_clock(b.0 as int),
    ensures
        tick_between(a, b, min_delta, p) matches Some(r) ==> r.bytes >= 1000 * grown(a.1, b.1)
            - 1000 * p.floor_cap_bytes - p.base_noise_bps * (b.0 - a.0),
{
    if b.0 > a.0 {
        assert(0 <= p.base_noise_bps * (b.0 - a.0) <= 0x1_0000_0000_0000_0000
            * 0x40_0000_0000_0000) by (nonlinear_arith)
            requires
                0 < b.0 - a.0 <= 0x40_0000_0000_0000,
                p.base_noise_bps <= 0xffff_ffff_ffff_ffff,
        ;
    }
}

/// Times that follow one another are covered as the whole is, and what is carried in them is what
/// is carried in the whole, but for less than a thousandth of a byte of each tick.
pub proof fn law_times_add_up(rows: Seq<TickRow>, from: int, mid: int, to: int)
    requires
        all_timed(rows),
        from <= mid <= to,
    ensures
        covered(rows, from, to) == covered(rows, from, mid) + covered(rows, mid, to),
        0 <= carried(rows, from, to) - carried(rows, from, mid) - carried(rows, mid, to)
            <= rows.len(),
    decreases rows.len(),
{
    if rows.len() > 0 {
        let d = rows.drop_last();
        assert forall|i: int| 0 <= i < d.len() implies (#[trigger] d[i]).timed() by {
            assert(d[i] == rows[i]);
        }
        law_times_add_up(d, from, mid, to);
        let r = rows.last();
        assert(rows[rows.len() - 1].timed());
        let x = overlap(r, from, mid);
        let y = overlap(r, mid, to);
        assert(overlap(r, from, to) == x + y);
        let dt = r.dt_ms as int;
        let b = r.bytes as int;
        assert(b * (x + y) == b * x + b * y) by (nonlinear_arith);
        lemma_floor_of_sum(b * x, b * y, dt);
    }
}

proof fn lemma_floor_of_sum(a: int, b: int, d: int)
    requires
        d > 0,
    ensures
        0 <= (a + b) / d - a / d - b / d <= 1,
{
    vstd::arithmetic::div_mod::lemma_fundamental_div_mod(a, d);
    vstd::arithmetic::div_mod::lemma_fundamental_div_mod(b, d);
    vstd::arithmetic::div_mod::lemma_mod_bound(a, d);
    vstd::arithmetic::div_mod::lemma_mod_bound(b, d);
    let q = a / d + b / d;
    let m = a % d + b % d;
    assert(a + b == q * d + m) by (nonlinear_arith)
        requires
            a == d * (a / d) + a % d,
            b == d * (b / d) + b % d,
            q == a / d + b / d,
            m == a % d + b % d,
    ;
    if m < d {
        vstd::arithmetic::div_mod::lemma_fundamental_div_mod_converse(a + b, d, q, m);
    } else {
        assert(a + b == (q + 1) * d + (m - d)) by (nonlinear_arith)
            requires
                a + b == q * d + m,
        ;
        vstd::arithmetic::div_mod::lemma_fundamental_div_mod_converse(a + b, d, q + 1, m - d);
    }
}

/// Files that grow during a time grow by the difference of their sizes; before and after it, what
/// they grow by does not count.
pub proof fn law_files_grow_by_the_difference(files: Seq<(i64, u64)>, t0: int, t1: int)
    requires
        files.len() > 0,
        forall|i: int| #![trigger files[i]] 0 < i < files.len() ==> files[i - 1].1 <= files[i].1,
    ensures
        (forall|i: int| 0 <= i < files.len() ==> t0 < (#[trigger] files[i]).0 < t1) ==> file_growth(
            files,
            t0,
            t1,
        ) == files.last().1 - files[0].1,
        (forall|i: int| 0 <= i < files.len() ==> (#[trigger] files[i]).0 <= t0) ==> file_growth(
            files,
            t0,
            t1,
        ) == 0,
        (forall|i: int| 0 <= i < files.len() ==> (#[trigger] files[i]).0 >= t1) ==> file_growth(
            files,
            t0,
            t1,
        ) == 0,
    decreases files.len(),
{
    if files.len() > 1 {
        let d = files.drop_last();
        assert forall|i: int| #![trigger d[i]] 0 < i < d.len() implies d[i - 1].1 <= d[i].1 by {
            assert(files[i - 1].1 <= files[i].1);
        }
        assert forall|i: int| 0 <= i < d.len() implies (#[trigger] d[i]) == files[i] by {}
        law_files_grow_by_the_difference(d, t0, t1);
        let n = files.len();
        assert(files[n - 1] == files.last());
        assert(files[n - 2].1 <= files[n - 1].1);
        if forall|i: int| 0 <= i < files.len() ==> t0 < (#[trigger] files[i]).0 < t1 {
            assert(forall|i: int| 0 <= i < d.len() ==> t0 < (#[trigger] d[i]).0 < t1);
        }
        if forall|i: int| 0 <= i < files.len() ==> (#[trigger] files[i]).0 <= t0 {
            assert(forall|i: int| 0 <= i < d.len() ==> (#[trigger] d[i]).0 <= t0);
        }
        if forall|i: int| 0 <= i < files.len() ==> (#[trigger] files[i]).0 >= t1 {
            assert(forall|i: int| 0 <= i < d.len() ==> (#[trigger] d[i]).0 >= t1);
        }
    }
}

/// A tick of the files is what they grew by between two looks.
pub proof fn law_file_tick_is_growth(s: Seq<(i64, u64)>, i: int)
    requires
        clocked(s),
        forall|k: int|
            #![trigger s[k]]
            0 < k < s.len() ==> s[k - 1].0 < s[k].0 && s[k - 1].1 <= s[k].1,
        0 <= i < s.len() - 1,
    ensures
        file_ticks(s).len() == s.len() - 1,
        file_ticks(s)[i].end_ms == s[i + 1].0,
        file_ticks(s)[i].dt_ms == s[i + 1].0 - s[i].0,
        file_ticks(s)[i].bytes == 1000 * (s[i + 1].1 - s[i].1),
    decreases s.len(),
{
    let d = s.drop_last();
    assert(s[s.len() - 2].0 < s[s.len() - 1].0);
    assert(on_clock(s[s.len() - 1].0 as int) && on_clock(s[s.len() - 2].0 as int));
    if s.len() > 2 {
        assert forall|k: int|
            #![trigger d[k]]
            0 < k < d.len() implies d[k - 1].0 < d[k].0 && d[k - 1].1 <= d[k].1 by {
            assert(s[k - 1].0 < s[k].0 && s[k - 1].1 <= s[k].1);
        }
        assert forall|k: int| 0 <= k < d.len() implies on_clock((#[trigger] d[k]).0 as int) by {
            assert(d[k] == s[k]);
        }
        if i < s.len() - 2 {
            law_file_tick_is_growth(d, i);
            assert(d[i] == s[i] && d[i + 1] == s[i + 1]);
        } else {
            law_file_tick_is_growth(d, 0);
        }
    } else {
        assert(file_ticks(d).len() == 0);
    }
}

/// A counter that goes back has not grown, and a clock that does not go on makes no tick.
pub proof fn law_going_back_is_no_growth(a: (i64, u64), b: (i64, u64), p: CleanParams)
    requires
        on_clock(a.0 as int),
        on_clock(b.0 as int),
        b.1 < a.1,
    ensures
        b.0 <= a.0 ==> tick_between(a, b, 0, p) is None,
        b.0 > a.0 ==> tick_between(a, b, 0, p) is Some && tick_between(a, b, 0, p)->0.bytes == -(
        p.base_noise_bps * (b.0 - a.0)),
{
    if b.0 > a.0 {
        assert(0 <= p.base_noise_bps * (b.0 - a.0) <= 0x1_0000 * 0x40_0000_0000_0000)
            by (nonlinear_arith)
            requires
                0 <= p.base_noise_bps <= 0xffff,
                0 < b.0 - a.0 <= 0x40_0000_0000_0000,
        ;
    }
}

/// What counts on each system. A byte rate per token lies between a tenth of a kilobyte and six,
/// on macOS twelve; calls from three hundred tokens on teach; streaming is detected over two and a
/// half seconds. On macOS no tick is too large, there is no noise, a call is charged with bytes for
/// fifteen seconds more, and a sample may be off by a factor of three.
pub proof fn law_what_counts_on_each_system()
    ensures
        ({
            let w = CleanParams::windows_params();
            let m = CleanParams::macos_params();
            &&& w.cal_min == 100 * 1000 && m.cal_min == w.cal_min
            &&& w.cal_max == 6_000 * 1000 && m.cal_max == 2 * w.cal_max
            &&& w.cal_min_tokens == 300 && m.cal_min_tokens == w.cal_min_tokens
            &&& w.default_bpt == 600 * 1000 && m.default_bpt == 700 * 1000
            &&& w.detect_ms == 2_500 && m.detect_ms == w.detect_ms
            &&& w.floor_cap_bytes == 2_000 && m.floor_cap_bytes == w.floor_cap_bytes
            &&& w.burst_tick_bytes == 100_000 && m.burst_tick_bytes == u64::MAX
            &&& w.base_noise_bps == 3_000 && m.base_noise_bps == 0
            &&& w.cal_grace_ms == 0 && m.cal_grace_ms == 15_000
            &&& w.cal_outlier_ratio == 0 && m.cal_outlier_ratio == 3
        }),
{
}

/// Files that grew between two looks count for a time that has anything in common with the time
/// between these, whole; and each two looks count for themselves.
pub proof fn law_growth_counts_where_it_overlaps(
    files: Seq<(i64, u64)>,
    x: (i64, u64),
    t0: int,
    t1: int,
)
    requires
        files.len() > 0,
    ensures
        ({
            let a = files.last();
            let more = file_growth(files.push(x), t0, t1) - file_growth(files, t0, t1);
            &&& a.0 < t1 && t0 < x.0 && a.1 <= x.1 ==> more == x.1 - a.1
            &&& a.0 >= t1 || t0 >= x.0 || a.1 > x.1 ==> more == 0
        }),
{
    let all = files.push(x);
    assert(all.drop_last() =~= files);
    assert(all[all.len() - 2] == files.last());
}

} // verus!
