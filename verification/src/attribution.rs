//! Which process a session writes through.

use std::collections::{HashMap, HashSet};

use vstd::prelude::*;

use crate::order;
use crate::order::Ordered;
use crate::strmap::StrMap;

verus! {

broadcast use vstd::std_specs::hash::group_hash_axioms;

/// The least bytes that a runner-up must have written to be taken instead of the leader.
pub const RUNNER_UP_MIN_BYTES: u64 = 20_000;

/// Every session of the list is attributed to a process that is alive.
pub open spec fn all_attributed(
    sessions: Seq<(String, i64)>,
    map: Map<Seq<char>, u32>,
    alive: Set<u32>,
) -> bool {
    forall|i: int|
        0 <= i < sessions.len() ==> map.contains_key((#[trigger] sessions[i]).0@) && alive.contains(
            map[sessions[i].0@],
        )
}

/// The processes of the sessions, in the order of the sessions.
pub open spec fn pids_of(sessions: Seq<(String, i64)>, map: Map<Seq<char>, u32>) -> Seq<u32> {
    Seq::new(sessions.len(), |i: int| map[sessions[i].0@])
}

/// The processes to display: those of the sessions in progress, if each of them has one
/// that is alive; otherwise none, which stands for all processes.
pub open spec fn display_set(
    sessions: Seq<(String, i64)>,
    map: Map<Seq<char>, u32>,
    alive: Set<u32>,
) -> Option<Seq<u32>> {
    if sessions.len() == 0 || !all_attributed(sessions, map, alive) {
        None
    } else {
        Some(order::without_repeats(order::ranked(pids_of(sessions, map))))
    }
}

fn dedup(v: &[u32]) -> (r: Vec<u32>)
    ensures
        r@ == order::without_repeats(v@),
{
    let mut out: Vec<u32> = Vec::new();
    let n: usize = v.len();
    if n == 0 {
        assert(out@ =~= v@);
        return out;
    }
    out.push(v[0]);
    assert(out@ =~= v@.take(1));
    let mut i: usize = 1;
    while i < n
        invariant
            1 <= i <= n,
            n == v@.len(),
            out@ == order::without_repeats(v@.take(i as int)),
        decreases n - i,
    {
        assert(v@.take(i + 1).drop_last() =~= v@.take(i as int));
        if v[i] != v[i - 1] {
            out.push(v[i]);
        }
        i = i + 1;
    }
    assert(v@.take(n as int) =~= v@);
    out
}

/// The processes whose speed is displayed: ascending and without repetition those of the
/// sessions in progress, or `None`, for all processes, if no session is in progress or one
/// of them has no living process yet.
pub fn pick_pid_set(
    inflight: &[(String, i64)],
    session_pid: &StrMap<u32>,
    active_pids: &HashSet<u32>,
) -> (r: Option<Vec<u32>>)
    requires
        session_pid.wf(),
    ensures
        match r {
            Some(v) => display_set(inflight@, session_pid@, active_pids@) == Some(v@),
            None => display_set(inflight@, session_pid@, active_pids@) is None,
        },
{
    if inflight.len() == 0 {
        return None;
    }
    let mut set: Vec<u32> = Vec::new();
    for i in 0..inflight.len()
        invariant
            session_pid.wf(),
            set@ == pids_of(inflight@.take(i as int), session_pid@),
            forall|j: int|
                0 <= j < i ==> session_pid@.contains_key((#[trigger] inflight@[j]).0@)
                    && active_pids@.contains(session_pid@[inflight@[j].0@]),
    {
        match session_pid.get(inflight[i].0.as_str()) {
            Some(pid) => {
                if active_pids.contains(pid) {
                    set.push(*pid);
                    assert(set@ =~= pids_of(inflight@.take(i + 1), session_pid@));
                } else {
                    assert(!active_pids@.contains(session_pid@[inflight@[i as int].0@]));
                    return None;
                }
            },
            None => {
                assert(!session_pid@.contains_key(inflight@[i as int].0@));
                return None;
            },
        }
    }
    assert(inflight@.take(inflight@.len() as int) =~= inflight@);
    let sorted = order::sort(set);
    Some(dedup(&sorted))
}

/// The bytes of a process; none where it is not listed.
pub open spec fn bytes_of(raw: Map<u32, u64>, pid: u32) -> u64 {
    if raw.contains_key(pid) {
        raw[pid]
    } else {
        0
    }
}

fn bytes_at(raw: &HashMap<u32, u64>, pid: u32) -> (r: u64)
    ensures
        r == bytes_of(raw@, pid),
{
    match raw.get(&pid) {
        Some(b) => *b,
        None => 0,
    }
}

/// The process that a session keeps or gets. One that has a process keeps it unless the top
/// process wrote at least twice as much, and more.
pub open spec fn reattributed(cur: Option<u32>, top: Option<u32>, raw: Map<u32, u64>) -> Option<
    u32,
> {
    match (cur, top) {
        (_, None) => None,
        (None, Some(t)) => Some(t),
        (Some(c), Some(t)) => if bytes_of(raw, t) >= 2 * bytes_of(raw, c) && bytes_of(raw, t)
            > bytes_of(raw, c) {
            Some(t)
        } else {
            Some(c)
        },
    }
}

/// The process that a session keeps or gets, given its present one and the one that wrote
/// most.
pub fn should_reattribute(
    cur: Option<u32>,
    top: Option<u32>,
    raw_by_pid: &HashMap<u32, u64>,
) -> (r: Option<u32>)
    ensures
        r == reattributed(cur, top, raw_by_pid@),
{
    match top {
        None => None,
        Some(t) => match cur {
            Some(c) => {
                if c == t {
                    return Some(t);
                }
                let cur_raw: u64 = bytes_at(raw_by_pid, c);
                let top_raw: u64 = bytes_at(raw_by_pid, t);
                if top_raw as u128 >= 2 * cur_raw as u128 && top_raw > cur_raw {
                    Some(t)
                } else {
                    Some(c)
                }
            },
            None => Some(t),
        },
    }
}

/// `p` comes before `q` by bytes, and by number where they wrote the same.
pub open spec fn outranks(raw: Map<u32, u64>, p: u32, q: u32) -> bool {
    raw[p] > raw[q] || (raw[p] == raw[q] && p < q)
}

/// `p` is listed, not left out, and comes before every other such process.
pub open spec fn leads(raw: Map<u32, u64>, without: Option<u32>, p: u32) -> bool {
    &&& raw.contains_key(p)
    &&& without != Some(p)
    &&& forall|q: u32|
        #![trigger raw.contains_key(q)]
        raw.contains_key(q) && without != Some(q) && q != p ==> outranks(raw, p, q)
}

/// The process that wrote most, not counting `without`.
pub open spec fn leader(raw: Map<u32, u64>, without: Option<u32>) -> Option<u32> {
    if exists|p: u32| leads(raw, without, p) {
        Some(choose|p: u32| leads(raw, without, p))
    } else {
        None
    }
}

proof fn lemma_leader(raw: Map<u32, u64>, without: Option<u32>, p: u32)
    requires
        leads(raw, without, p),
    ensures
        leader(raw, without) == Some(p),
{
    let q = choose|q: u32| leads(raw, without, q);
    assert(leads(raw, without, q));
    assert(raw.contains_key(q) && raw.contains_key(p));
}

/// The process that wrote most, not counting `without`; the least number where several
/// wrote the same.
pub fn top_writer(raw: &HashMap<u32, u64>, without: Option<u32>) -> (r: Option<u32>)
    ensures
        r == leader(raw@, without),
        r is None ==> forall|q: u32| raw@.contains_key(q) ==> without == Some(q),
{
    let mut best: Option<u32> = None;
    let it = raw.iter();
    let ghost all = vstd::std_specs::iter::IteratorSpec::remaining(&it);
    for kv in jt: it
        invariant
            jt.seq() == all,
            forall|i: int|
                #![trigger all[i]]
                0 <= i < all.len() ==> raw@.contains_key(*all[i].0) && raw@[*all[i].0] == *all[i].1,
            forall|q: u32| #[trigger]
                raw@.contains_key(q) ==> exists|i: int| 0 <= i < all.len() && *(#[trigger] all[i]).0 == q,
            match best {
                Some(p) => {
                    &&& raw@.contains_key(p)
                    &&& without != Some(p)
                    &&& forall|i: int|
                        #![trigger all[i]]
                        0 <= i < jt.index() && without != Some(*all[i].0) && *all[i].0 != p ==> outranks(
                            raw@,
                            p,
                            *all[i].0,
                        )
                },
                None => forall|i: int|
                    #![trigger all[i]]
                    0 <= i < jt.index() ==> without == Some(*all[i].0),
            },
    {
        let ghost n = jt.index();
        assert(kv == all[n]);
        let pid: u32 = *kv.0;
        let bytes: u64 = *kv.1;
        let skip = match without {
            Some(w) => w == pid,
            None => false,
        };
        if !skip {
            match best {
                None => {
                    best = Some(pid);
                },
                Some(p) => {
                    let pb: u64 = bytes_at(raw, p);
                    if bytes > pb || (bytes == pb && pid < p) {
                        best = Some(pid);
                    }
                },
            }
        }
    }
    proof {
        match best {
            Some(p) => {
                assert forall|q: u32|
                    #![trigger raw@.contains_key(q)]
                    raw@.contains_key(q) && without != Some(q) && q != p implies outranks(
                    raw@,
                    p,
                    q,
                ) by {
                    let i = choose|i: int| 0 <= i < all.len() && *(#[trigger] all[i]).0 == q;
                    assert(*all[i].0 == q);
                }
                lemma_leader(raw@, without, p);
            },
            None => {
                assert forall|q: u32| raw@.contains_key(q) implies without == Some(q) by {
                    let i = choose|i: int| 0 <= i < all.len() && *(#[trigger] all[i]).0 == q;
                    assert(*all[i].0 == q);
                }
                assert(leader(raw@, without) is None) by {
                    if exists|p: u32| leads(raw@, without, p) {
                        let p = choose|p: u32| leads(raw@, without, p);
                        assert(raw@.contains_key(p));
                    }
                }
            },
        }
    }
    best
}

/// The process that a session is attributed to.
///
/// A session without one gets the top process; but if another session in progress has that
/// one, it gets the runner-up, provided that one is free and wrote at least half as much
/// and more than a trifle. A session whose process another session has moves to the top
/// process if that is free and wrote at least half as much. Any other session moves only
/// if the top process wrote twice as much.
pub open spec fn attribution(cur: Option<u32>, raw: Map<u32, u64>, owned: Set<u32>) -> Option<u32> {
    match leader(raw, None) {
        None => None,
        Some(top) => match cur {
            None => match leader(raw, Some(top)) {
                Some(second) if owned.contains(top) && !owned.contains(second) && 2 * raw[second]
                    >= raw[top] && raw[second] >= RUNNER_UP_MIN_BYTES => Some(second),
                _ => Some(top),
            },
            Some(c) => if c != top && owned.contains(c) {
                if !owned.contains(top) && 2 * raw[top] >= bytes_of(raw, c) {
                    Some(top)
                } else {
                    Some(c)
                }
            } else {
                reattributed(Some(c), Some(top), raw)
            },
        },
    }
}

/// The process that a session is attributed to, given its present one, the bytes that each
/// process wrote during the call, and the processes that other sessions in progress have.
pub fn pick_attribution(
    cur: Option<u32>,
    raw_by_pid: &HashMap<u32, u64>,
    owned: &HashSet<u32>,
) -> (r: Option<u32>)
    ensures
        r == attribution(cur, raw_by_pid@, owned@),
{
    match top_writer(raw_by_pid, None) {
        None => None,
        Some(top) => {
            proof {
                let p = choose|p: u32| leads(raw_by_pid@, None, p);
                assert(leads(raw_by_pid@, None, top));
            }
            let top_bytes: u64 = bytes_at(raw_by_pid, top);
            match cur {
                None => {
                    if owned.contains(&top) {
                        match top_writer(raw_by_pid, Some(top)) {
                            Some(second) => {
                                proof {
                                    assert(leads(raw_by_pid@, Some(top), second));
                                }
                                let bytes: u64 = bytes_at(raw_by_pid, second);
                                if !owned.contains(&second) && 2 * bytes as u128
                                    >= top_bytes as u128 && bytes >= RUNNER_UP_MIN_BYTES {
                                    return Some(second);
                                }
                            },
                            None => {},
                        }
                    }
                    Some(top)
                },
                Some(c) => {
                    if c != top && owned.contains(&c) {
                        let cur_bytes: u64 = bytes_at(raw_by_pid, c);
                        if !owned.contains(&top) && 2 * top_bytes as u128 >= cur_bytes as u128 {
                            Some(top)
                        } else {
                            Some(c)
                        }
                    } else {
                        should_reattribute(Some(c), Some(top), raw_by_pid)
                    }
                },
            }
        },
    }
}

/// Strictly ascending numbers.
pub open spec fn strictly_ascending(s: Seq<u32>) -> bool {
    forall|i: int, j: int| 0 <= i < j < s.len() ==> #[trigger] s[i] < #[trigger] s[j]
}

proof fn lemma_without_repeats(s: Seq<u32>)
    requires
        order::in_order(s),
    ensures
        strictly_ascending(order::without_repeats(s)),
        forall|x: u32| order::without_repeats(s).contains(x) <==> #[trigger] s.contains(x),
        s.len() > 0 ==> order::without_repeats(s).len() > 0 && order::without_repeats(s).last() == s.last(),
    decreases s.len(),
{
    if s.len() >= 2 {
        let d = s.drop_last();
        let front = order::without_repeats(d);
        lemma_without_repeats(d);
        let r = order::without_repeats(s);
        let x = s.last();
        assert(!s[s.len() - 1].before(s[s.len() - 2]));
        assert forall|i: int, j: int| 0 <= i < j < r.len() implies #[trigger] r[i]
            < #[trigger] r[j] by {
            if j == front.len() {
                if i < front.len() - 1 {
                    assert(front[i] < front[front.len() - 1]);
                }
            }
        }
        assert forall|y: u32| r.contains(y) <==> #[trigger] s.contains(y) by {
            if r.contains(y) {
                let i = choose|i: int| 0 <= i < r.len() && r[i] == y;
                if i < front.len() {
                    assert(front[i] == y);
                    assert(d.contains(y));
                    let k = choose|k: int| 0 <= k < d.len() && d[k] == y;
                    assert(s[k] == y);
                } else {
                    assert(s[s.len() - 1] == y);
                }
            }
            if s.contains(y) {
                let k = choose|k: int| 0 <= k < s.len() && s[k] == y;
                if k < d.len() {
                    assert(d[k] == y);
                    assert(d.contains(y));
                    let i = choose|i: int| 0 <= i < front.len() && front[i] == y;
                    assert(r[i] == y);
                } else {
                    assert(r[r.len() - 1] == y);
                }
            }
        }
    } else if s.len() == 1 {
        assert(order::without_repeats(s) == s);
    }
}

/// The displayed processes are those of the sessions in progress, each once, ascending.
pub proof fn law_display_set_is_the_union(
    sessions: Seq<(String, i64)>,
    map: Map<Seq<char>, u32>,
    alive: Set<u32>,
)
    ensures
        display_set(sessions, map, alive) matches Some(set) ==> {
            &&& strictly_ascending(set)
            &&& forall|pid: u32| #[trigger]
                set.contains(pid) ==> alive.contains(pid) && exists|i: int|
                    0 <= i < sessions.len() && map[(#[trigger] sessions[i]).0@] == pid
            &&& forall|i: int| 0 <= i < sessions.len() ==> set.contains(map[(#[trigger] sessions[i]).0@])
        },
{
    match display_set(sessions, map, alive) {
        Some(set) => {
            let pids = pids_of(sessions, map);
            order::law_ranked_is_sorted_permutation(pids);
            lemma_without_repeats(order::ranked(pids));
            let sorted = order::ranked(pids);
            assert forall|pid: u32| #[trigger] set.contains(pid) implies alive.contains(pid)
                && exists|i: int| 0 <= i < sessions.len() && map[(#[trigger] sessions[i]).0@] == pid by {
                assert(sorted.contains(pid));
                let k = choose|k: int| 0 <= k < sorted.len() && sorted[k] == pid;
                order::lemma_ranked_members(pids, k);
                let i = choose|i: int| 0 <= i < pids.len() && pids[i] == pid;
                assert(map[sessions[i].0@] == pid);
            }
            assert forall|i: int| 0 <= i < sessions.len() implies set.contains(
                map[(#[trigger] sessions[i]).0@],
            ) by {
                broadcast use vstd::seq_lib::group_to_multiset_ensures;

                assert(pids[i] == map[sessions[i].0@]);
                assert(pids.contains(pids[i]));
                assert(sorted.to_multiset().count(pids[i]) > 0);
                assert(sorted.contains(pids[i]));
            }
        },
        None => {},
    }
}

/// A session whose process no other session has keeps it while no process writes twice as
/// much: two windows that stream side by side do not swap.
pub proof fn law_attribution_has_hysteresis(c: u32, raw: Map<u32, u64>, owned: Set<u32>)
    requires
        !owned.contains(c),
        forall|q: u32| #[trigger] raw.contains_key(q) ==> raw[q] < 2 * bytes_of(raw, c),
    ensures
        attribution(Some(c), raw, owned) == (if leader(raw, None) is None {
            None::<u32>
        } else {
            Some(c)
        }),
{
    if exists|p: u32| leads(raw, None, p) {
        let p = choose|p: u32| leads(raw, None, p);
        assert(raw.contains_key(p));
    }
}

/// Nothing is attributed only where no process is listed, and an attribution names the
/// present process or one that is listed.
pub proof fn law_attribution_is_listed(cur: Option<u32>, raw: Map<u32, u64>, owned: Set<u32>)
    ensures
        attribution(cur, raw, owned) matches Some(p) ==> cur == Some(p) || raw.contains_key(p),
        attribution(cur, raw, owned) is None ==> leader(raw, None) is None,
{
    if exists|p: u32| leads(raw, None, p) {
        let top = choose|p: u32| leads(raw, None, p);
        assert(leads(raw, None, top));
        if exists|p: u32| leads(raw, Some(top), p) {
            let second = choose|p: u32| leads(raw, Some(top), p);
            assert(leads(raw, Some(top), second));
        }
    }
}

/// Single processes are displayed exactly where a session is in progress and each of them has a
/// process that is alive; else all are.
pub proof fn law_when_single_processes_are_displayed(
    sessions: Seq<(String, i64)>,
    map: Map<Seq<char>, u32>,
    alive: Set<u32>,
)
    ensures
        display_set(sessions, map, alive) is Some <==> sessions.len() > 0 && forall|i: int|
            0 <= i < sessions.len() ==> map.contains_key((#[trigger] sessions[i]).0@)
                && alive.contains(map[sessions[i].0@]),
{
}

/// A process that wrote more than every other one that is listed.
pub open spec fn wrote_most(raw: Map<u32, u64>, top: u32) -> bool {
    &&& raw.contains_key(top)
    &&& forall|q: u32| #[trigger] raw.contains_key(q) && q != top ==> raw[q] < raw[top]
}

/// A process other than the one that wrote most, that wrote more than every further one.
pub open spec fn wrote_second(raw: Map<u32, u64>, top: u32, second: u32) -> bool {
    &&& raw.contains_key(second)
    &&& second != top
    &&& forall|q: u32| #[trigger]
        raw.contains_key(q) && q != top && q != second ==> raw[q] < raw[second]
}

proof fn lemma_wrote_most(raw: Map<u32, u64>, top: u32)
    requires
        wrote_most(raw, top),
    ensures
        leader(raw, None) == Some(top),
{
    assert(leads(raw, None, top));
    lemma_leader(raw, None, top);
}

/// A session without a process gets the one that wrote most during its call, unless another
/// session has that one and the runner-up is free and wrote at least half as much, and at least
/// twenty thousand bytes: then it gets the runner-up.
pub proof fn law_first_attribution_goes_by_bytes(
    raw: Map<u32, u64>,
    owned: Set<u32>,
    top: u32,
    second: u32,
)
    requires
        wrote_most(raw, top),
    ensures
        !owned.contains(top) ==> attribution(None, raw, owned) == Some(top),
        wrote_second(raw, top, second) ==> attribution(None, raw, owned) == (if owned.contains(top)
            && !owned.contains(second) && 2 * raw[second] >= raw[top] && raw[second] >= 20_000 {
            Some(second)
        } else {
            Some(top)
        }),
{
    lemma_wrote_most(raw, top);
    if wrote_second(raw, top, second) {
        assert(leads(raw, Some(top), second));
        lemma_leader(raw, Some(top), second);
    }
}

/// A session moves to the process that wrote most once that wrote at least twice as much as its
/// own; if another session has its own, already when it wrote half as much, as long as nobody
/// has it.
pub proof fn law_attribution_moves_to_the_top(
    c: u32,
    raw: Map<u32, u64>,
    owned: Set<u32>,
    top: u32,
)
    requires
        wrote_most(raw, top),
        c != top,
    ensures
        !owned.contains(c) && raw[top] >= 2 * bytes_of(raw, c) && raw[top] > 0 ==> attribution(
            Some(c),
            raw,
            owned,
        ) == Some(top),
        !owned.contains(c) && raw[top] < 2 * bytes_of(raw, c) ==> attribution(Some(c), raw, owned)
            == Some(c),
        owned.contains(c) ==> attribution(Some(c), raw, owned) == (if !owned.contains(top) && 2
            * raw[top] >= bytes_of(raw, c) {
            Some(top)
        } else {
            Some(c)
        }),
{
    lemma_wrote_most(raw, top);
}

} // verus!
