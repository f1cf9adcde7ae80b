//! The processes that are measured, with the samples of their write counters.

use std::collections::VecDeque;

use vstd::prelude::*;

use crate::calibration;
use crate::order;
use crate::rate;
use crate::stream;
use crate::stream::{CleanParams, TickRow};

verus! {

/// How many samples of a process, and of the tracked files, are kept.
pub const RING_CAP: usize = 260;

/// The most processes that are measured at once.
pub const MAX_PROCS: usize = 0x1_0000;

/// From how many ticks on the heartbeat of a process is estimated.
pub const HEARTBEAT_MIN_TICKS: usize = 20;

/// Samples of a counter: when, and what it showed.
pub type Samples = Seq<(i64, u64)>;

/// A process with the samples of its counter.
pub type Proc = (u32, Samples);

/// A measured process.
#[derive(Debug)]
pub struct ProcRing {
    /// The process.
    pub pid: u32,
    /// When it was sampled, and the bytes it had written until then.
    pub samples: VecDeque<(i64, u64)>,
}

impl View for ProcRing {
    type V = Proc;

    open spec fn view(&self) -> Proc {
        (self.pid, self.samples@)
    }
}

/// What the processes are, without their representation.
pub open spec fn procs_view(procs: Seq<ProcRing>) -> Seq<Proc> {
    Seq::new(procs.len(), |i: int| procs[i]@)
}

/// The process is among them.
pub open spec fn has_pid(procs: Seq<Proc>, pid: u32) -> bool {
    exists|i: int| 0 <= i < procs.len() && (#[trigger] procs[i]).0 == pid
}

/// The numbers of the processes.
pub open spec fn pid_set(procs: Seq<Proc>) -> Set<u32> {
    Set::new(|pid: u32| has_pid(procs, pid))
}

/// Different processes, not too many, each with samples that a wall clock dated.
pub open spec fn procs_wf(procs: Seq<Proc>) -> bool {
    &&& procs.len() <= MAX_PROCS
    &&& forall|i: int, j: int|
        0 <= i < j < procs.len() ==> (#[trigger] procs[i]).0 != (#[trigger] procs[j]).0
    &&& forall|i: int|
        0 <= i < procs.len() ==> (#[trigger] procs[i]).1.len() <= RING_CAP && stream::clocked(
            procs[i].1,
        )
}

/// The first entry for a process in a list of counters.
pub open spec fn counter_of(counters: Seq<(u32, u64)>, pid: u32) -> Option<u64>
    decreases counters.len(),
{
    if counters.len() == 0 {
        None
    } else if counters[0].0 == pid {
        Some(counters[0].1)
    } else {
        counter_of(counters.skip(1), pid)
    }
}

/// The processes after a round of sampling: each that has a counter gets a sample, and one
/// that has none is gone.
pub open spec fn after_sampling(procs: Seq<Proc>, now: i64, counters: Seq<(u32, u64)>) -> Seq<Proc>
    decreases procs.len(),
{
    if procs.len() == 0 {
        Seq::empty()
    } else {
        let front = after_sampling(procs.drop_last(), now, counters);
        let (pid, samples) = procs.last();
        match counter_of(counters, pid) {
            Some(w) => front.push(
                (pid, calibration::newest(samples.push((now, w)), RING_CAP as nat)),
            ),
            None => front,
        }
    }
}

fn find_counter(counters: &[(u32, u64)], pid: u32) -> (r: Option<u64>)
    ensures
        r == counter_of(counters@, pid),
{
    assert(counters@.skip(0) =~= counters@);
    for i in 0..counters.len()
        invariant
            counter_of(counters@, pid) == counter_of(counters@.skip(i as int), pid),
    {
        if counters[i].0 == pid {
            return Some(counters[i].1);
        }
        assert(counters@.skip(i as int).skip(1) =~= counters@.skip(i + 1));
    }
    None
}

/// Sampling keeps the order of the processes and adds none.
pub proof fn lemma_after_sampling(procs: Seq<Proc>, now: i64, counters: Seq<(u32, u64)>)
    requires
        procs_wf(procs),
        stream::on_clock(now as int),
    ensures
        procs_wf(after_sampling(procs, now, counters)),
        after_sampling(procs, now, counters).len() <= procs.len(),
        forall|pid: u32| #[trigger]
            has_pid(after_sampling(procs, now, counters), pid) ==> has_pid(procs, pid) && counter_of(
                counters,
                pid,
            ) is Some,
    decreases procs.len(),
{
    if procs.len() > 0 {
        let d = procs.drop_last();
        lemma_after_sampling(d, now, counters);
        let front = after_sampling(d, now, counters);
        let all = after_sampling(procs, now, counters);
        let (pid, samples) = procs.last();
        assert(procs[procs.len() - 1].0 == pid);
        let grown = samples.push((now, counter_of(counters, pid).unwrap()));
        assert(stream::clocked(calibration::newest(grown, RING_CAP as nat))) by {
            let n = calibration::newest(grown, RING_CAP as nat);
            assert forall|i: int| 0 <= i < n.len() implies stream::on_clock(
                (#[trigger] n[i]).0 as int,
            ) by {
                let k = i + grown.len() - n.len();
                assert(n[i] == grown[k]);
                if k < samples.len() {
                    assert(samples[k] == grown[k]);
                }
            }
        }
        assert forall|q: u32| #[trigger] has_pid(all, q) implies has_pid(procs, q) && counter_of(
            counters,
            q,
        ) is Some by {
            let i = choose|i: int| 0 <= i < all.len() && (#[trigger] all[i]).0 == q;
            if i < front.len() {
                assert(front[i].0 == q);
                assert(has_pid(front, q));
                let k = choose|k: int| 0 <= k < d.len() && (#[trigger] d[k]).0 == q;
                assert(procs[k].0 == q);
            } else {
                assert(procs[procs.len() - 1].0 == q);
            }
        }
        assert forall|i: int, j: int| 0 <= i < j < all.len() implies (#[trigger] all[i]).0 != (
        #[trigger] all[j]).0 by {
            if j == front.len() {
                assert(front[i].0 == all[i].0);
                assert(has_pid(front, all[i].0));
                let k = choose|k: int| 0 <= k < d.len() && (#[trigger] d[k]).0 == all[i].0;
                assert(procs[k].0 != procs[procs.len() - 1].0);
            } else {
                assert(front[i].0 != front[j].0);
            }
        }
        assert forall|i: int| 0 <= i < all.len() implies (#[trigger] all[i]).1.len() <= RING_CAP
            && stream::clocked(all[i].1) by {
            if i < front.len() {
                assert(front[i] == all[i]);
            }
        }
    }
}

/// Samples every process, and drops those that have no counter any more.
pub fn sample(procs: &mut Vec<ProcRing>, now_ms: i64, counters: &[(u32, u64)])
    requires
        procs_wf(procs_view(old(procs)@)),
        stream::on_clock(now_ms as int),
    ensures
        procs_view(final(procs)@) == after_sampling(procs_view(old(procs)@), now_ms, counters@),
        procs_wf(procs_view(final(procs)@)),
{
    let ghost all = procs_view(procs@);
    let mut kept: Vec<ProcRing> = Vec::new();
    let mut back: Vec<ProcRing> = Vec::new();
    while procs.len() > 0
        invariant
            procs_view(procs@) + procs_view(back@).reverse() == all,
        decreases procs@.len(),
    {
        let ghost p0 = procs_view(procs@);
        let ghost b0 = procs_view(back@);
        match procs.pop() {
            Some(ring) => {
                back.push(ring);
                assert(procs_view(procs@) =~= p0.drop_last());
                assert(procs_view(back@) =~= b0.push(p0.last()));
                assert(procs_view(procs@) + procs_view(back@).reverse() =~= p0 + b0.reverse());
            },
            None => {},
        }
    }
    assert(procs_view(procs@) =~= Seq::empty());
    assert(procs_view(back@).reverse() =~= all);
    let ghost mut done: int = 0;
    assert(all.take(0) =~= Seq::empty());
    assert(procs_view(kept@) =~= Seq::empty());
    while back.len() > 0
        invariant
            0 <= done <= all.len(),
            all.skip(done) == procs_view(back@).reverse(),
            procs_view(kept@) == after_sampling(all.take(done), now_ms, counters@),
        decreases back@.len(),
    {
        let ghost b0 = procs_view(back@);
        assert(all.skip(done).len() == b0.len());
        match back.pop() {
            Some(mut ring) => {
                assert(b0.reverse()[0] == ring@);
                assert(all.skip(done)[0] == ring@);
                assert(procs_view(back@) =~= b0.drop_last());
                assert(procs_view(back@).reverse() =~= b0.reverse().skip(1));
                assert(all.take(done + 1).drop_last() =~= all.take(done));
                assert(all.skip(done).skip(1) =~= all.skip(done + 1));
                let ghost k0 = procs_view(kept@);
                match find_counter(counters, ring.pid) {
                    Some(w) => {
                        ring.samples.push_back((now_ms, w));
                        calibration::keep_newest(&mut ring.samples, RING_CAP);
                        let ghost one = ring@;
                        kept.push(ring);
                        assert(procs_view(kept@) =~= k0.push(one));
                    },
                    None => {},
                }
                proof {
                    done = done + 1;
                }
            },
            None => {},
        }
    }
    assert(all.take(done) =~= all);
    proof {
        lemma_after_sampling(all, now_ms, counters@);
    }
    *procs = kept;
}

/// The growth of a counter from sample to sample.
pub open spec fn deltas(s: Samples) -> Seq<u64>
    decreases s.len(),
{
    if s.len() < 2 {
        Seq::empty()
    } else {
        deltas(s.drop_last()).push(stream::grown(s[s.len() - 2].1, s.last().1) as u64)
    }
}

/// The bytes per tick that a process writes while it is idle: twice the lowest decile of
/// its ticks, once there are enough of them.
pub open spec fn heartbeat(s: Samples) -> u64 {
    let d = deltas(s);
    if d.len() >= HEARTBEAT_MIN_TICKS {
        rate::clip(2 * order::ranked(d)[d.len() as int / 10])
    } else {
        0
    }
}

proof fn lemma_deltas(s: Samples)
    requires
        s.len() >= 1,
    ensures
        deltas(s) == Seq::new(
            (s.len() - 1) as nat,
            |i: int| stream::grown(s[i].1, s[i + 1].1) as u64,
        ),
    decreases s.len(),
{
    let all = Seq::new((s.len() - 1) as nat, |i: int| stream::grown(s[i].1, s[i + 1].1) as u64);
    if s.len() >= 2 {
        lemma_deltas(s.drop_last());
        assert(deltas(s) =~= all);
    } else {
        assert(deltas(s) =~= all);
    }
}

/// What a process writes while it is idle is told from its quietest ticks: it is twice the
/// growth of some tick, no more than a tenth of the ticks grew less, and no fewer than that grew
/// no more; with few ticks nothing is told.
pub proof fn law_heartbeat_is_of_quiet_ticks(s: Samples)
    requires
        s.len() >= 1,
    ensures
        ({
            let d = Seq::new(
                (s.len() - 1) as nat,
                |i: int| stream::grown(s[i].1, s[i + 1].1) as u64,
            );
            &&& d.len() < 20 ==> heartbeat(s) == 0
            &&& d.len() >= 20 ==> exists|x: u64| #[trigger]
                d.contains(x) && heartbeat(s) == rate::clip(2 * x) && 10 * d.filter(
                    |y: u64| y < x,
                ).len() <= d.len() && d.filter(|y: u64| y > x).len() <= d.len() - 1
                    - d.len() as int / 10
        }),
{
    lemma_deltas(s);
    let d = deltas(s);
    if d.len() >= 20 {
        let m = d.len() as int / 10;
        let x = order::ranked(d)[m];
        order::law_place_in_the_ranking(d, m);
        assert((|y: u64| order::Ordered::before(y, order::ranked(d)[m])) =~= (|y: u64| y < x));
        assert((|y: u64| order::Ordered::before(order::ranked(d)[m], y)) =~= (|y: u64| y > x));
        assert(d.contains(x));
    }
}

fn copy_samples(q: &VecDeque<(i64, u64)>) -> (r: Vec<(i64, u64)>)
    ensures
        r@ == q@,
{
    let mut v: Vec<(i64, u64)> = Vec::new();
    for i in 0..q.len()
        invariant
            v@ == q@.take(i as int),
    {
        v.push(q[i]);
        assert(q@.take(i + 1) =~= q@.take(i as int).push(q@[i as int]));
    }
    assert(q@.take(q@.len() as int) =~= q@);
    v
}

/// A copy of a queue of samples in a vector.
pub fn samples_of(q: &VecDeque<(i64, u64)>) -> (r: Vec<(i64, u64)>)
    ensures
        r@ == q@,
{
    copy_samples(q)
}

/// The bytes per tick that a process writes while it is idle.
pub fn heartbeat_floor(samples: &[(i64, u64)]) -> (r: u64)
    ensures
        r == heartbeat(samples@),
{
    let mut d: Vec<u64> = Vec::new();
    let n: usize = samples.len();
    if n < 2 {
        return 0;
    }
    let mut i: usize = 1;
    assert(deltas(samples@.take(1)) =~= Seq::empty());
    while i < n
        invariant
            1 <= i <= n,
            n == samples@.len(),
            d@ == deltas(samples@.take(i as int)),
        decreases n - i,
    {
        let a: u64 = samples[i - 1].1;
        let b: u64 = samples[i].1;
        assert(samples@.take(i + 1).drop_last() =~= samples@.take(i as int));
        d.push(
            if b >= a {
                b - a
            } else {
                0
            },
        );
        i = i + 1;
    }
    assert(samples@.take(n as int) =~= samples@);
    let m: usize = d.len();
    if m < HEARTBEAT_MIN_TICKS {
        return 0;
    }
    proof {
        order::law_ranked_is_sorted_permutation(d@);
    }
    let sorted = order::sort(d);
    rate::clipped(2 * sorted[m / 10] as u128)
}

/// The cleaned ticks of a process.
pub open spec fn rows_of(s: Samples, p: CleanParams) -> Seq<TickRow> {
    stream::ticks(s, heartbeat(s), p)
}

/// The cleaned ticks of each process.
pub open spec fn rows_table(procs: Seq<Proc>, p: CleanParams) -> Seq<Seq<TickRow>> {
    Seq::new(procs.len(), |i: int| rows_of(procs[i].1, p))
}

/// The ticks of each list.
pub open spec fn rows_views(rows: Seq<Vec<TickRow>>) -> Seq<Seq<TickRow>> {
    Seq::new(rows.len(), |i: int| rows[i]@)
}

/// Cleans the counters of every process.
pub fn clean_all(procs: &[ProcRing], p: &CleanParams) -> (r: Vec<Vec<TickRow>>)
    requires
        procs_wf(procs_view(procs@)),
    ensures
        rows_views(r@) == rows_table(procs_view(procs@), *p),
        r@.len() == procs@.len(),
        forall|i: int|
            0 <= i < r@.len() ==> stream::all_light((#[trigger] r@[i])@) && r@[i]@.len()
                <= RING_CAP,
{
    let mut rows: Vec<Vec<TickRow>> = Vec::new();
    for i in 0..procs.len()
        invariant
            procs_wf(procs_view(procs@)),
            rows@.len() == i,
            forall|k: int|
                0 <= k < i ==> (#[trigger] rows@[k])@ == rows_of(procs_view(procs@)[k].1, *p)
                    && stream::all_light(rows@[k]@) && rows@[k]@.len() <= RING_CAP,
    {
        let samples = copy_samples(&procs[i].samples);
        assert(procs_view(procs@)[i as int].1 == samples@);
        let floor: u64 = heartbeat_floor(&samples);
        let one = stream::build_rows(&samples, floor, p);
        rows.push(one);
    }
    assert(rows_views(rows@) =~= rows_table(procs_view(procs@), *p));
    rows
}

/// A list of processes names the process, whether or not it could be opened.
pub open spec fn found(list: Seq<(u32, bool)>, pid: u32) -> bool {
    exists|i: int| 0 <= i < list.len() && (#[trigger] list[i]).0 == pid
}

/// The processes that are still there.
pub open spec fn still_there(procs: Seq<Proc>, list: Seq<(u32, bool)>) -> Seq<Proc> {
    procs.filter(|p: Proc| found(list, p.0))
}

/// Those processes with the new ones, which could be opened and have no samples yet.
pub open spec fn with_new(procs: Seq<Proc>, list: Seq<(u32, bool)>) -> Seq<Proc>
    decreases list.len(),
{
    if list.len() == 0 {
        procs
    } else {
        let front = with_new(procs, list.drop_last());
        if list.last().1 && !has_pid(front, list.last().0) {
            front.push((list.last().0, Seq::empty()))
        } else {
            front
        }
    }
}

fn is_found(list: &[(u32, bool)], pid: u32) -> (r: bool)
    ensures
        r == found(list@, pid),
{
    for i in 0..list.len()
        invariant
            forall|k: int| 0 <= k < i ==> (#[trigger] list@[k]).0 != pid,
    {
        if list[i].0 == pid {
            return true;
        }
    }
    false
}

/// Whether a process is measured.
pub fn is_measured(procs: &[ProcRing], pid: u32) -> (r: bool)
    ensures
        r == has_pid(procs_view(procs@), pid),
{
    for i in 0..procs.len()
        invariant
            forall|k: int| 0 <= k < i ==> (#[trigger] procs_view(procs@)[k]).0 != pid,
    {
        if procs[i].pid == pid {
            assert(procs_view(procs@)[i as int].0 == pid);
            return true;
        }
    }
    false
}

/// The place of a process among those that are measured.
pub fn place_of(procs: &[ProcRing], pid: u32) -> (r: Option<usize>)
    ensures
        match r {
            Some(i) => i < procs@.len() && procs_view(procs@)[i as int].0 == pid,
            None => !has_pid(procs_view(procs@), pid),
        },
{
    for i in 0..procs.len()
        invariant
            forall|k: int| 0 <= k < i ==> (#[trigger] procs_view(procs@)[k]).0 != pid,
    {
        if procs[i].pid == pid {
            assert(procs_view(procs@)[i as int].0 == pid);
            return Some(i);
        }
    }
    None
}

proof fn lemma_pigeonhole(procs: Seq<Proc>, list: Seq<(u32, bool)>)
    requires
        forall|i: int, j: int|
            0 <= i < j < procs.len() ==> (#[trigger] procs[i]).0 != (#[trigger] procs[j]).0,
        forall|i: int| 0 <= i < procs.len() ==> found(list, (#[trigger] procs[i]).0),
    ensures
        procs.len() <= list.len(),
{
    let a = procs.map_values(|p: Proc| p.0);
    let b = list.map_values(|p: (u32, bool)| p.0);
    assert(a.no_duplicates());
    a.unique_seq_to_set();
    b.lemma_cardinality_of_set();
    assert(a.to_set().subset_of(b.to_set())) by {
        assert forall|x: u32| a.to_set().contains(x) implies b.to_set().contains(x) by {
            let i = choose|i: int| 0 <= i < a.len() && a[i] == x;
            assert(found(list, procs[i].0));
            let k = choose|k: int| 0 <= k < list.len() && (#[trigger] list[k]).0 == x;
            assert(b[k] == x);
        }
    }
    vstd::set_lib::lemma_len_subset(a.to_set(), b.to_set());
}

proof fn lemma_still_there(procs: Seq<Proc>, list: Seq<(u32, bool)>)
    requires
        procs_wf(procs),
    ensures
        procs_wf(still_there(procs, list)),
        forall|i: int|
            0 <= i < still_there(procs, list).len() ==> found(
                list,
                (#[trigger] still_there(procs, list)[i]).0,
            ),
        forall|pid: u32| #[trigger]
            has_pid(still_there(procs, list), pid) ==> has_pid(procs, pid),
        still_there(procs, list).len() <= procs.len(),
    decreases procs.len(),
{
    reveal(Seq::filter);
    let keep = |p: Proc| found(list, p.0);
    let r = still_there(procs, list);
    if procs.len() > 0 {
        let d = procs.drop_last();
        lemma_still_there(d, list);
        let front = still_there(d, list);
        assert(r == if keep(procs.last()) {
            front.push(procs.last())
        } else {
            front
        });
        assert forall|pid: u32| #[trigger] has_pid(r, pid) implies has_pid(procs, pid) by {
            let i = choose|i: int| 0 <= i < r.len() && (#[trigger] r[i]).0 == pid;
            if i < front.len() {
                assert(front[i].0 == pid);
                assert(has_pid(front, pid));
                let k = choose|k: int| 0 <= k < d.len() && (#[trigger] d[k]).0 == pid;
                assert(procs[k].0 == pid);
            } else {
                assert(procs[procs.len() - 1].0 == pid);
            }
        }
        assert forall|i: int| 0 <= i < r.len() implies found(list, (#[trigger] r[i]).0)
            && r[i].1.len() <= RING_CAP && stream::clocked(r[i].1) by {
            if i < front.len() {
                assert(front[i] == r[i]);
            } else {
                assert(procs[procs.len() - 1] == r[i]);
            }
        }
        assert forall|i: int, j: int| 0 <= i < j < r.len() implies (#[trigger] r[i]).0 != (
        #[trigger] r[j]).0 by {
            if j == front.len() {
                assert(front[i].0 == r[i].0);
                assert(has_pid(front, r[i].0));
                let k = choose|k: int| 0 <= k < d.len() && (#[trigger] d[k]).0 == r[i].0;
                assert(procs[k].0 != procs[procs.len() - 1].0);
            } else {
                assert(front[i].0 != front[j].0);
            }
        }
    }
}

fn retain(procs: &mut Vec<ProcRing>, list: &[(u32, bool)])
    requires
        procs_wf(procs_view(old(procs)@)),
    ensures
        procs_view(final(procs)@) == still_there(procs_view(old(procs)@), list@),
{
    let ghost all = procs_view(procs@);
    let mut i: usize = 0;
    let ghost mut done: int = 0;
    proof {
        reveal(Seq::filter);
        assert(all.take(0) =~= Seq::empty());
        assert(all.skip(0) =~= all);
    }
    assert(procs_view(procs@) =~= still_there(all.take(0), list@) + all.skip(0));
    while i < procs.len()
        invariant
            0 <= done <= all.len(),
            i == still_there(all.take(done), list@).len(),
            i <= procs@.len(),
            procs_view(procs@) == still_there(all.take(done), list@) + all.skip(done),
        decreases all.len() - done,
    {
        let ghost front = still_there(all.take(done), list@);
        let ghost before = procs_view(procs@);
        proof {
            reveal(Seq::filter);
            assert(before.len() == front.len() + all.skip(done).len());
            assert(all.take(done + 1).drop_last() =~= all.take(done));
            assert(before[i as int] == all[done]);
            assert(all.skip(done + 1) =~= all.skip(done).skip(1));
        }
        if is_found(list, procs[i].pid) {
            i = i + 1;
            assert(before =~= front.push(all[done]) + all.skip(done + 1));
        } else {
            let _ = procs.remove(i);
            assert(procs_view(procs@) =~= before.remove(i as int));
            assert(before.remove(i as int) =~= front + all.skip(done + 1));
        }
        proof {
            done = done + 1;
        }
    }
    proof {
        assert(all.skip(done).len() == 0);
        assert(all.take(done) =~= all);
        assert(procs_view(procs@) =~= still_there(all, list@));
    }
}

/// The measured processes after a new list: those that are not in it are dropped, and those in
/// it that could be opened are measured from now on. Of a list of more processes than are
/// measured, the first count.
pub open spec fn after_refresh(procs: Seq<Proc>, list: Seq<(u32, bool)>) -> Seq<Proc> {
    let first = stream::first_of(list, MAX_PROCS as nat);
    with_new(still_there(procs, first), first)
}

/// Takes over a new list of processes.
pub fn refresh(procs: &mut Vec<ProcRing>, list: &[(u32, bool)])
    requires
        procs_wf(procs_view(old(procs)@)),
    ensures
        procs_view(final(procs)@) == after_refresh(procs_view(old(procs)@), list@),
        procs_wf(procs_view(final(procs)@)),
{
    let list = stream::head(list, MAX_PROCS);
    let ghost kept = still_there(procs_view(procs@), list@);
    proof {
        lemma_still_there(procs_view(procs@), list@);
    }
    retain(procs, list);
    assert(list@.take(0) =~= Seq::empty());
    proof {
        lemma_pigeonhole(kept, list@);
    }
    for i in 0..list.len()
        invariant
            list@.len() <= MAX_PROCS,
            procs_view(procs@) == with_new(kept, list@.take(i as int)),
            procs_wf(procs_view(procs@)),
            forall|k: int|
                0 <= k < procs@.len() ==> found(list@, (#[trigger] procs_view(procs@)[k]).0),
    {
        assert(list@.take(i + 1).drop_last() =~= list@.take(i as int));
        let (pid, opened) = list[i];
        let ghost before = procs_view(procs@);
        if opened && !is_measured(procs, pid) {
            procs.push(ProcRing { pid, samples: VecDeque::new() });
            proof {
                let one = procs_view(procs@)[procs@.len() - 1];
                assert(one.1 =~= Seq::empty());
                assert(procs_view(procs@) =~= before.push(one));
                let after = procs_view(procs@);
                assert forall|a: int, b: int| 0 <= a < b < after.len() implies (
                #[trigger] after[a]).0 != (#[trigger] after[b]).0 by {
                    if b == before.len() {
                        assert(before[a].0 != pid);
                    } else {
                        assert(before[a].0 != before[b].0);
                    }
                }
                assert forall|k: int| 0 <= k < after.len() implies found(
                    list@,
                    (#[trigger] after[k]).0,
                ) && after[k].1.len() <= RING_CAP && stream::clocked(after[k].1) by {
                    if k < before.len() {
                        assert(before[k] == after[k]);
                    } else {
                        assert(list@[i as int].0 == pid);
                    }
                }
                lemma_pigeonhole(after, list@);
            }
        }
    }
    assert(list@.take(list@.len() as int) =~= list@);
}

/// The process of that number.
pub open spec fn proc_at(procs: Seq<Proc>, pid: u32) -> Proc {
    procs[choose|i: int| 0 <= i < procs.len() && (#[trigger] procs[i]).0 == pid]
}

/// The processes of a list of numbers that are measured, in the order of the list.
pub open spec fn named(procs: Seq<Proc>, set: Seq<u32>) -> Seq<Proc>
    decreases set.len(),
{
    if set.len() == 0 {
        Seq::empty()
    } else {
        let front = named(procs, set.drop_last());
        if has_pid(procs, set.last()) {
            front.push(proc_at(procs, set.last()))
        } else {
            front
        }
    }
}

/// The named processes, or all where none are named.
pub open spec fn chosen(procs: Seq<Proc>, set: Option<Seq<u32>>) -> Seq<Proc> {
    match set {
        Some(s) => named(procs, s),
        None => procs,
    }
}

/// One list after the other.
pub open spec fn joined(table: Seq<Seq<TickRow>>) -> Seq<TickRow>
    decreases table.len(),
{
    if table.len() == 0 {
        Seq::empty()
    } else {
        joined(table.drop_last()) + table.last()
    }
}

/// The processes at the places of a list.
pub open spec fn at_places(procs: Seq<Proc>, places: Seq<usize>) -> Seq<Proc> {
    Seq::new(places.len(), |i: int| procs[places[i] as int])
}

/// The single stream of some processes.
pub open spec fn one_stream(procs: Seq<Proc>, files: Samples, p: CleanParams) -> Seq<TickRow> {
    stream::merged(joined(rows_table(procs, p)), files)
}

proof fn lemma_named(procs: Seq<Proc>, set: Seq<u32>)
    requires
        procs_wf(procs),
        forall|i: int, j: int| 0 <= i < j < set.len() ==> #[trigger] set[i] != #[trigger] set[j],
    ensures
        named(procs, set).len() <= procs.len(),
        procs_wf(named(procs, set)),
{
    lemma_named_members(procs, set);
    let r = named(procs, set);
    let list = Seq::new(procs.len(), |i: int| (procs[i].0, true));
    assert forall|i: int| 0 <= i < r.len() implies found(list, (#[trigger] r[i]).0) by {
        let k = choose|k: int| 0 <= k < procs.len() && procs[k] == r[i];
        assert(list[k].0 == r[i].0);
    }
    lemma_pigeonhole(r, list);
}

proof fn lemma_named_members(procs: Seq<Proc>, set: Seq<u32>)
    requires
        procs_wf(procs),
        forall|i: int, j: int| 0 <= i < j < set.len() ==> #[trigger] set[i] != #[trigger] set[j],
    ensures
        forall|i: int|
            0 <= i < named(procs, set).len() ==> procs.contains(#[trigger] named(procs, set)[i])
                && set.contains(named(procs, set)[i].0),
        forall|i: int, j: int|
            0 <= i < j < named(procs, set).len() ==> (#[trigger] named(procs, set)[i]).0 != (
            #[trigger] named(procs, set)[j]).0,
        forall|i: int|
            0 <= i < named(procs, set).len() ==> (#[trigger] named(procs, set)[i]).1.len()
                <= RING_CAP && stream::clocked(named(procs, set)[i].1),
    decreases set.len(),
{
    if set.len() > 0 {
        let d = set.drop_last();
        lemma_named_members(procs, d);
        let front = named(procs, d);
        let r = named(procs, set);
        let x = set.last();
        if has_pid(procs, x) {
            let k = choose|i: int| 0 <= i < procs.len() && (#[trigger] procs[i]).0 == x;
            assert(proc_at(procs, x) == procs[k]);
            assert(procs[k].0 == x);
        }
        assert forall|i: int| 0 <= i < r.len() implies procs.contains(#[trigger] r[i])
            && set.contains(r[i].0) && r[i].1.len() <= RING_CAP && stream::clocked(r[i].1) by {
            if i < front.len() {
                assert(front[i] == r[i]);
                let m = choose|m: int| 0 <= m < d.len() && d[m] == r[i].0;
                assert(set[m] == r[i].0);
            } else {
                assert(set[set.len() - 1] == x);
            }
        }
        assert forall|i: int, j: int| 0 <= i < j < r.len() implies (#[trigger] r[i]).0 != (
        #[trigger] r[j]).0 by {
            assert(front[i] == r[i]);
            if j == front.len() {
                let m = choose|m: int| 0 <= m < d.len() && d[m] == r[i].0;
                assert(set[m] != set[set.len() - 1]);
            } else {
                assert(front[j] == r[j]);
            }
        }
    }
}

/// The places of the named processes among those that are measured, or all places where
/// none are named.
pub fn choose_procs(procs: &[ProcRing], set: Option<&[u32]>) -> (r: Vec<usize>)
    requires
        procs_wf(procs_view(procs@)),
        set matches Some(s) ==> forall|i: int, j: int|
            0 <= i < j < s@.len() ==> #[trigger] s@[i] != #[trigger] s@[j],
    ensures
        at_places(procs_view(procs@), r@) == chosen(
            procs_view(procs@),
            match set {
                Some(s) => Some(s@),
                None => None,
            },
        ),
        forall|i: int| 0 <= i < r@.len() ==> (#[trigger] r@[i]) < procs@.len(),
        r@.len() <= MAX_PROCS,
        procs_wf(at_places(procs_view(procs@), r@)),
{
    let mut out: Vec<usize> = Vec::new();
    let ghost pv = procs_view(procs@);
    match set {
        None => {
            for i in 0..procs.len()
                invariant
                    out@.len() == i,
                    forall|k: int| 0 <= k < i ==> #[trigger] out@[k] == k,
            {
                out.push(i);
            }
            assert(at_places(pv, out@) =~= pv);
        },
        Some(s) => {
            assert(s@.take(0) =~= Seq::empty());
            assert(at_places(pv, out@) =~= Seq::empty());
            for i in 0..s.len()
                invariant
                    pv == procs_view(procs@),
                    procs_wf(pv),
                    at_places(pv, out@) == named(pv, s@.take(i as int)),
                    forall|k: int| 0 <= k < out@.len() ==> (#[trigger] out@[k]) < procs@.len(),
            {
                assert(s@.take(i + 1).drop_last() =~= s@.take(i as int));
                let ghost before = at_places(pv, out@);
                match place_of(procs, s[i]) {
                    Some(k) => {
                        proof {
                            let c = choose|c: int|
                                0 <= c < pv.len() && (#[trigger] pv[c]).0 == s@[i as int];
                            assert(pv[k as int].0 == s@[i as int]);
                            if c < k {
                                assert(pv[c].0 != pv[k as int].0);
                            } else if c > k {
                                assert(pv[k as int].0 != pv[c].0);
                            }
                        }
                        out.push(k);
                        assert(at_places(pv, out@) =~= before.push(pv[k as int]));
                    },
                    None => {},
                }
            }
            assert(s@.take(s@.len() as int) =~= s@);
            proof {
                lemma_named(pv, s@);
            }
        },
    }
    out
}

/// The ticks of the lists at some places.
pub open spec fn rows_at(rows: Seq<Vec<TickRow>>, places: Seq<usize>) -> Seq<Seq<TickRow>> {
    Seq::new(places.len(), |i: int| rows[places[i] as int]@)
}

proof fn lemma_joined_light(table: Seq<Seq<TickRow>>)
    requires
        forall|i: int|
            0 <= i < table.len() ==> stream::all_light(#[trigger] table[i]) && table[i].len()
                <= RING_CAP,
    ensures
        stream::all_light(joined(table)),
        joined(table).len() <= table.len() * RING_CAP,
    decreases table.len(),
{
    if table.len() > 0 {
        let d = table.drop_last();
        lemma_joined_light(d);
        assert(table[table.len() - 1] == table.last());
        let j = joined(table);
        assert forall|i: int| 0 <= i < j.len() implies (#[trigger] j[i]).light() by {
            if i < joined(d).len() {
                assert(joined(d)[i] == j[i]);
            } else {
                assert(table.last()[i - joined(d).len()] == j[i]);
            }
        }
        assert((table.len() - 1) * RING_CAP + RING_CAP == table.len() * RING_CAP)
            by (nonlinear_arith);
    } else {
        assert(table.len() * RING_CAP == 0) by (nonlinear_arith)
            requires
                table.len() == 0,
        ;
    }
}

/// The lists at some places put together into one stream, without the growth of the files.
pub fn merge_places(rows: &[Vec<TickRow>], places: &[usize], files: &[(i64, u64)]) -> (r: Vec<TickRow>)
    requires
        forall|i: int| 0 <= i < places@.len() ==> (#[trigger] places@[i]) < rows@.len(),
        places@.len() <= MAX_PROCS,
        forall|i: int|
            0 <= i < rows@.len() ==> stream::all_light((#[trigger] rows@[i])@) && rows@[i]@.len()
                <= RING_CAP,
        files@.len() <= stream::FILES_LIMIT,
    ensures
        r@ == stream::merged(joined(rows_at(rows@, places@)), files@),
        stream::all_timed(r@),
        stream::weight(r@) <= stream::STREAM_LIMIT,
        r@.len() <= stream::TICKS_LIMIT,
{
    let mut streams: Vec<&[TickRow]> = Vec::new();
    let ghost table = rows_at(rows@, places@);
    assert(table.take(0) =~= Seq::empty());
    for i in 0..places.len()
        invariant
            table == rows_at(rows@, places@),
            forall|i: int| 0 <= i < places@.len() ==> (#[trigger] places@[i]) < rows@.len(),
            stream::flat(streams@) == joined(table.take(i as int)),
    {
        let one: &[TickRow] = rows[places[i]].as_slice();
        let ghost before = streams@;
        streams.push(one);
        assert(streams@.drop_last() =~= before);
        assert(table.take(i + 1).drop_last() =~= table.take(i as int));
        assert(table.take(i + 1).last() == one@);
    }
    proof {
        assert(table.take(table.len() as int) =~= table);
        assert forall|i: int| 0 <= i < table.len() implies stream::all_light(#[trigger] table[i])
            && table[i].len() <= RING_CAP by {
            assert(rows@[places@[i] as int]@ == table[i]);
        }
        lemma_joined_light(table);
        assert(table.len() * RING_CAP <= MAX_PROCS * RING_CAP) by (nonlinear_arith)
            requires
                table.len() <= MAX_PROCS,
        ;
    }
    stream::merge_streams(&streams, files)
}

/// The lists at some places are the cleaned ticks of the processes at those places.
pub proof fn lemma_rows_at(
    procs: Seq<Proc>,
    rows: Seq<Vec<TickRow>>,
    places: Seq<usize>,
    p: CleanParams,
)
    requires
        rows_views(rows) == rows_table(procs, p),
        forall|i: int| 0 <= i < places.len() ==> (#[trigger] places[i]) < procs.len(),
    ensures
        rows_at(rows, places) == rows_table(at_places(procs, places), p),
{
    assert forall|i: int| 0 <= i < places.len() implies rows_at(rows, places)[i] == rows_table(
        at_places(procs, places),
        p,
    )[i] by {
        assert(rows_views(rows)[places[i] as int] == rows_table(procs, p)[places[i] as int]);
        assert(rows_views(rows).len() == rows.len());
    }
    assert(rows_at(rows, places) =~= rows_table(at_places(procs, places), p));
}

/// The counter of a process is the first that is given for it.
pub proof fn law_first_counter_counts(counters: Seq<(u32, u64)>, pid: u32)
    ensures
        match counter_of(counters, pid) {
            Some(w) => exists|i: int|
                0 <= i < counters.len() && #[trigger] counters[i] == (pid, w) && forall|j: int|
                    0 <= j < i ==> (#[trigger] counters[j]).0 != pid,
            None => forall|j: int| 0 <= j < counters.len() ==> (#[trigger] counters[j]).0 != pid,
        },
    decreases counters.len(),
{
    if counters.len() > 0 {
        if counters[0].0 == pid {
            assert(counters[0] == (pid, counters[0].1));
        } else {
            let rest = counters.skip(1);
            law_first_counter_counts(rest, pid);
            match counter_of(rest, pid) {
                Some(w) => {
                    let i = choose|i: int|
                        0 <= i < rest.len() && #[trigger] rest[i] == (pid, w) && forall|j: int|
                            0 <= j < i ==> (#[trigger] rest[j]).0 != pid;
                    assert(counters[i + 1] == (pid, w));
                    assert forall|j: int| 0 <= j < i + 1 implies (#[trigger] counters[j]).0
                        != pid by {
                        if j > 0 {
                            assert(rest[j - 1].0 != pid);
                        }
                    }
                },
                None => {
                    assert forall|j: int| 0 <= j < counters.len() implies (
                    #[trigger] counters[j]).0 != pid by {
                        if j > 0 {
                            assert(rest[j - 1].0 != pid);
                        }
                    }
                },
            }
        }
    }
}

/// Each process whose counter could be read has it as its newest sample, before which stand the
/// newest of those of before; a process whose counter could not be read is dropped.
pub proof fn law_samples_are_added(procs: Seq<Proc>, now: i64, counters: Seq<(u32, u64)>)
    ensures
        after_sampling(procs, now, counters) == procs.filter(
            |p: Proc| counter_of(counters, p.0) is Some,
        ).map_values(
            |p: Proc|
                (
                    p.0,
                    if p.1.len() < 260 {
                        p.1.push((now, counter_of(counters, p.0)->0))
                    } else {
                        p.1.skip(p.1.len() - 259).push((now, counter_of(counters, p.0)->0))
                    },
                ),
        ),
    decreases procs.len(),
{
    reveal(Seq::filter);
    let keep = |p: Proc| counter_of(counters, p.0) is Some;
    let f = |p: Proc|
        (
            p.0,
            if p.1.len() < 260 {
                p.1.push((now, counter_of(counters, p.0)->0))
            } else {
                p.1.skip(p.1.len() - 259).push((now, counter_of(counters, p.0)->0))
            },
        );
    if procs.len() > 0 {
        let d = procs.drop_last();
        let last = procs.last();
        law_samples_are_added(d, now, counters);
        if keep(last) {
            let w = counter_of(counters, last.0)->0;
            assert(calibration::newest(last.1.push((now, w)), 260) =~= f(last).1);
            assert(procs.filter(keep).map_values(f) =~= d.filter(keep).map_values(f).push(f(last)));
        }
    } else {
        assert(procs.filter(keep).map_values(f) =~= Seq::empty());
    }
}

proof fn lemma_with_new(procs: Seq<Proc>, list: Seq<(u32, bool)>, pid: u32)
    ensures
        has_pid(with_new(procs, list), pid) <==> has_pid(procs, pid) || exists|i: int|
            0 <= i < list.len() && #[trigger] list[i] == (pid, true),
        with_new(procs, list).len() >= procs.len(),
        with_new(procs, list).take(procs.len() as int) == procs,
        forall|i: int|
            procs.len() <= i < with_new(procs, list).len() ==> (#[trigger] with_new(
                procs,
                list,
            )[i]).1.len() == 0,
    decreases list.len(),
{
    let r = with_new(procs, list);
    if list.len() > 0 {
        let d = list.drop_last();
        let front = with_new(procs, d);
        let last = list.last();
        lemma_with_new(procs, d, pid);
        assert(list[list.len() - 1] == last);
        assert(r.take(procs.len() as int) =~= front.take(procs.len() as int));
        if has_pid(front, pid) {
            let i = choose|i: int| 0 <= i < front.len() && (#[trigger] front[i]).0 == pid;
            assert(r[i].0 == pid);
        }
        if exists|i: int| 0 <= i < d.len() && #[trigger] d[i] == (pid, true) {
            let i = choose|i: int| 0 <= i < d.len() && #[trigger] d[i] == (pid, true);
            assert(list[i] == (pid, true));
        }
        if exists|i: int| 0 <= i < list.len() && #[trigger] list[i] == (pid, true) {
            let i = choose|i: int| 0 <= i < list.len() && #[trigger] list[i] == (pid, true);
            if i < d.len() {
                assert(d[i] == (pid, true));
            } else if !has_pid(front, pid) {
                assert(r[front.len() as int].0 == pid);
            }
        }
        if has_pid(r, pid) && !has_pid(front, pid) {
            let i = choose|i: int| 0 <= i < r.len() && (#[trigger] r[i]).0 == pid;
            if i < front.len() {
                assert(front[i].0 == pid);
            }
            assert(list[list.len() - 1] == (pid, true));
        }
        assert forall|i: int| procs.len() <= i < r.len() implies (#[trigger] r[i]).1.len() == 0 by {
            if i < front.len() {
                assert(r[i] == front[i]);
            }
        }
    } else {
        assert(r.take(procs.len() as int) =~= procs);
    }
}

/// After the list of processes is renewed, those are measured that were and are still found, with
/// their samples, and those that are found as to be measured; no other is.
pub proof fn law_renewed_list_is_measured(procs: Seq<Proc>, list: Seq<(u32, bool)>, pid: u32)
    requires
        list.len() <= 0x1_0000,
    ensures
        ({
            let r = after_refresh(procs, list);
            let kept = procs.filter(
                |p: Proc| exists|i: int| 0 <= i < list.len() && (#[trigger] list[i]).0 == p.0,
            );
            &&& has_pid(r, pid) <==> has_pid(kept, pid) || exists|i: int|
                0 <= i < list.len() && #[trigger] list[i] == (pid, true)
            &&& r.len() >= kept.len()
            &&& r.take(kept.len() as int) == kept
            &&& forall|i: int| kept.len() <= i < r.len() ==> (#[trigger] r[i]).1.len() == 0
        }),
{
    let f = |p: Proc| found(list, p.0);
    let g = |p: Proc| exists|i: int| 0 <= i < list.len() && (#[trigger] list[i]).0 == p.0;
    assert(f =~= g);
    lemma_with_new(procs.filter(f), list, pid);
}

/// The chosen processes are those that were named and are measured, with their samples and in the
/// order in which they were named; where none was named, all are.
pub proof fn law_named_processes_are_chosen(procs: Seq<Proc>, set: Seq<u32>)
    requires
        forall|i: int, j: int|
            0 <= i < j < procs.len() ==> (#[trigger] procs[i]).0 != (#[trigger] procs[j]).0,
    ensures
        chosen(procs, None) == procs,
        chosen(procs, Some(set)).map_values(|p: Proc| p.0) == set.filter(
            |pid: u32| exists|i: int| 0 <= i < procs.len() && (#[trigger] procs[i]).0 == pid,
        ),
        forall|k: int|
            0 <= k < chosen(procs, Some(set)).len() ==> procs.contains(
                #[trigger] chosen(procs, Some(set))[k],
            ),
    decreases set.len(),
{
    reveal(Seq::filter);
    let keep = |pid: u32| exists|i: int| 0 <= i < procs.len() && (#[trigger] procs[i]).0 == pid;
    let f = |p: Proc| p.0;
    let r = chosen(procs, Some(set));
    if set.len() > 0 {
        let d = set.drop_last();
        let last = set.last();
        law_named_processes_are_chosen(procs, d);
        let front = named(procs, d);
        assert(keep(last) == has_pid(procs, last));
        if has_pid(procs, last) {
            let i = choose|i: int| 0 <= i < procs.len() && (#[trigger] procs[i]).0 == last;
            assert(procs[i] == proc_at(procs, last));
            assert(r.map_values(f) =~= front.map_values(f).push(last));
        }
        assert forall|k: int| 0 <= k < r.len() implies procs.contains(#[trigger] r[k]) by {
            if k < front.len() {
                assert(r[k] == chosen(procs, Some(d))[k]);
            }
        }
    } else {
        assert(r.map_values(f) =~= set.filter(keep));
    }
}

/// The ticks of several processes are those of each, one after the other.
pub proof fn law_ticks_of_all_processes(table: Seq<Seq<TickRow>>)
    ensures
        joined(table) == table.fold_left(
            Seq::empty(),
            |a: Seq<TickRow>, rows: Seq<TickRow>| a + rows,
        ),
    decreases table.len(),
{
    if table.len() > 0 {
        law_ticks_of_all_processes(table.drop_last());
    }
}

} // verus!
