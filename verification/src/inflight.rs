//! Which sessions have a call in progress.

use vstd::prelude::*;

use crate::order;
use crate::order::{Ordered, Ranked};
use crate::text;

verus! {

/// A message that was created longer ago than this is not taken to be in progress.
pub const INFLIGHT_MAX_MS: i64 = 600_000;

/// A session with the creation time of a message, and whether that is complete.
pub type Row = (Seq<char>, i64, bool);

/// The latest start first.
impl Ordered for (String, i64) {
    open spec fn before(self, other: Self) -> bool {
        self.1 > other.1
    }

    proof fn strict_weak(a: Self, b: Self, c: Self) {
    }
}

impl Ranked for (String, i64) {
    fn is_before(&self, other: &Self) -> (r: bool) {
        self.1 > other.1
    }
}

impl Ordered for (Seq<char>, i64) {
    open spec fn before(self, other: Self) -> bool {
        self.1 > other.1
    }

    proof fn strict_weak(a: Self, b: Self, c: Self) {
    }
}

/// The rows with texts as their characters.
pub open spec fn rows_view(rows: Seq<(String, i64, bool)>) -> Seq<Row> {
    rows.map_values(|r: (String, i64, bool)| (r.0@, r.1, r.2))
}

/// The sessions with texts as their characters.
pub open spec fn started_view(rows: Seq<(String, i64)>) -> Seq<(Seq<char>, i64)> {
    rows.map_values(|r: (String, i64)| (r.0@, r.1))
}

/// The place of a session.
pub open spec fn place(rows: Seq<Row>, session: Seq<char>) -> Option<int>
    decreases rows.len(),
{
    if rows.len() == 0 {
        None
    } else {
        match place(rows.drop_last(), session) {
            Some(i) => Some(i),
            None => if rows.last().0 == session {
                Some(rows.len() - 1)
            } else {
                None
            },
        }
    }
}

/// The newest row of each session, in the order in which the sessions first occur; of rows
/// of the same time, the first.
pub open spec fn newest_rows(rows: Seq<Row>) -> Seq<Row>
    decreases rows.len(),
{
    if rows.len() == 0 {
        Seq::empty()
    } else {
        let front = newest_rows(rows.drop_last());
        let r = rows.last();
        match place(front, r.0) {
            Some(i) => if front[i].1 >= r.1 {
                front
            } else {
                front.update(i, r)
            },
            None => front.push(r),
        }
    }
}

/// The row is in progress: not complete, and not too old.
pub open spec fn in_progress(r: Row, now: i64) -> bool {
    !r.2 && now - r.1 <= INFLIGHT_MAX_MS
}

/// The sessions of rows that are in progress.
pub open spec fn open_rows(rows: Seq<Row>, now: i64) -> Seq<(Seq<char>, i64)>
    decreases rows.len(),
{
    if rows.len() == 0 {
        Seq::empty()
    } else {
        let front = open_rows(rows.drop_last(), now);
        if in_progress(rows.last(), now) {
            front.push((rows.last().0, rows.last().1))
        } else {
            front
        }
    }
}

/// The sessions in progress, the latest start first.
pub open spec fn sessions_in_progress(rows: Seq<Row>, now: i64) -> Seq<(Seq<char>, i64)> {
    order::ranked(open_rows(newest_rows(rows), now))
}

proof fn lemma_place(rows: Seq<Row>, session: Seq<char>)
    ensures
        match place(rows, session) {
            Some(i) => 0 <= i < rows.len() && rows[i].0 == session,
            None => forall|k: int| 0 <= k < rows.len() ==> (#[trigger] rows[k]).0 != session,
        },
    decreases rows.len(),
{
    if rows.len() > 0 {
        lemma_place(rows.drop_last(), session);
        assert forall|k: int|
            place(rows, session) is None && 0 <= k < rows.len() implies (#[trigger] rows[k]).0
            != session by {
            if k < rows.len() - 1 {
                assert(rows.drop_last()[k] == rows[k]);
            }
        }
    }
}

fn find_session(rows: &[(String, i64, bool)], session: &str) -> (r: Option<usize>)
    ensures
        match r {
            Some(i) => place(rows_view(rows@), session@) == Some(i as int),
            None => place(rows_view(rows@), session@) is None,
        },
{
    let ghost rv = rows_view(rows@);
    assert(rv.take(0) =~= Seq::empty());
    let mut at: Option<usize> = None;
    for i in 0..rows.len()
        invariant
            rv == rows_view(rows@),
            match at {
                Some(k) => place(rv.take(i as int), session@) == Some(k as int),
                None => place(rv.take(i as int), session@) is None,
            },
    {
        assert(rv.take(i + 1).drop_last() =~= rv.take(i as int));
        if at.is_none() && text::same(rows[i].0.as_str(), session) {
            at = Some(i);
        }
    }
    assert(rv.take(rv.len() as int) =~= rv);
    at
}

/// The sessions that have a call in progress, with its start, the latest first: those whose
/// newest message is not complete and not too old.
pub fn inflight_from_rows(cands: &[(String, i64, bool)], now_ms: i64) -> (r: Vec<(String, i64)>)
    ensures
        started_view(r@) == sessions_in_progress(rows_view(cands@), now_ms),
{
    let ghost cv = rows_view(cands@);
    let mut newest: Vec<(String, i64, bool)> = Vec::new();
    assert(rows_view(newest@) =~= newest_rows(cv.take(0))) by {
        assert(cv.take(0) =~= Seq::empty());
    }
    for i in 0..cands.len()
        invariant
            cv == rows_view(cands@),
            rows_view(newest@) == newest_rows(cv.take(i as int)),
    {
        assert(cv.take(i + 1).drop_last() =~= cv.take(i as int));
        let ghost before = rows_view(newest@);
        let created: i64 = cands[i].1;
        let done: bool = cands[i].2;
        proof {
            lemma_place(before, cv[i as int].0);
        }
        match find_session(&newest, cands[i].0.as_str()) {
            Some(k) => {
                if newest[k].1 < created {
                    newest.set(k, (cands[i].0.clone(), created, done));
                    assert(rows_view(newest@) =~= before.update(k as int, cv[i as int]));
                }
            },
            None => {
                newest.push((cands[i].0.clone(), created, done));
                assert(rows_view(newest@) =~= before.push(cv[i as int]));
            },
        }
    }
    assert(cv.take(cv.len() as int) =~= cv);
    let ghost nv = rows_view(newest@);
    let mut out: Vec<(String, i64)> = Vec::new();
    assert(started_view(out@) =~= open_rows(nv.take(0), now_ms)) by {
        assert(nv.take(0) =~= Seq::empty());
    }
    for i in 0..newest.len()
        invariant
            nv == rows_view(newest@),
            started_view(out@) == open_rows(nv.take(i as int), now_ms),
    {
        assert(nv.take(i + 1).drop_last() =~= nv.take(i as int));
        let ghost before = started_view(out@);
        if !newest[i].2 && now_ms as i128 - newest[i].1 as i128 <= INFLIGHT_MAX_MS as i128 {
            out.push((newest[i].0.clone(), newest[i].1));
            assert(started_view(out@) =~= before.push((nv[i as int].0, nv[i as int].1)));
        }
    }
    assert(nv.take(nv.len() as int) =~= nv);
    proof {
        order::lemma_ranked_map(out@, |r: (String, i64)| (r.0@, r.1));
    }
    order::sort(out)
}

/// The first message that is by the assistant: when it was created, and whether it is
/// complete.
pub open spec fn assistant_row(rows: Seq<(i64, String)>) -> Option<(i64, bool)>
    decreases rows.len(),
{
    if rows.len() == 0 {
        None
    } else if text::has_sub(rows[0].1@, "\"assistant\""@) {
        Some((rows[0].0, text::has_sub(rows[0].1@, "\"completed\""@)))
    } else {
        assistant_row(rows.skip(1))
    }
}

/// The newest message by the assistant in a list of messages of a session, the newest
/// first: when it was created, and whether it is complete. Each message is given by the
/// beginning of its data.
pub fn latest_assistant(rows: &[(i64, String)]) -> (r: Option<(i64, bool)>)
    ensures
        r == assistant_row(rows@),
{
    assert(rows@.skip(0) =~= rows@);
    for i in 0..rows.len()
        invariant
            assistant_row(rows@) == assistant_row(rows@.skip(i as int)),
    {
        assert(rows@.skip(i as int).skip(1) =~= rows@.skip(i + 1));
        if text::contains(rows[i].1.as_str(), "\"assistant\"") {
            return Some((rows[i].0, text::contains(rows[i].1.as_str(), "\"completed\"")));
        }
    }
    None
}

/// The newest row of each session that has a message by the assistant.
pub open spec fn candidate_rows(sessions: Seq<(String, Vec<(i64, String)>)>) -> Seq<Row>
    decreases sessions.len(),
{
    if sessions.len() == 0 {
        Seq::empty()
    } else {
        let front = candidate_rows(sessions.drop_last());
        match assistant_row(sessions.last().1@) {
            Some(r) => front.push((sessions.last().0@, r.0, r.1)),
            None => front,
        }
    }
}

/// The sessions that have a call in progress, given the latest messages of each session.
pub fn call_in_flight(sessions: &[(String, Vec<(i64, String)>)], now_ms: i64) -> (r: Vec<
    (String, i64),
>)
    ensures
        started_view(r@) == sessions_in_progress(candidate_rows(sessions@), now_ms),
{
    let mut cands: Vec<(String, i64, bool)> = Vec::new();
    assert(rows_view(cands@) =~= candidate_rows(sessions@.take(0))) by {
        assert(sessions@.take(0) =~= Seq::empty());
    }
    for i in 0..sessions.len()
        invariant
            rows_view(cands@) == candidate_rows(sessions@.take(i as int)),
    {
        assert(sessions@.take(i + 1).drop_last() =~= sessions@.take(i as int));
        let ghost before = rows_view(cands@);
        match latest_assistant(&sessions[i].1) {
            Some((created, done)) => {
                cands.push((sessions[i].0.clone(), created, done));
                assert(rows_view(cands@) =~= before.push(
                    (sessions@[i as int].0@, created, done),
                ));
            },
            None => {},
        }
    }
    assert(sessions@.take(sessions@.len() as int) =~= sessions@);
    inflight_from_rows(&cands, now_ms)
}

proof fn lemma_newest_rows(rows: Seq<Row>)
    ensures
        forall|i: int, j: int|
            0 <= i < j < newest_rows(rows).len() ==> (#[trigger] newest_rows(rows)[i]).0 != (
            #[trigger] newest_rows(rows)[j]).0,
        forall|i: int| 0 <= i < newest_rows(rows).len() ==> rows.contains(#[trigger] newest_rows(rows)[i]),
        forall|k: int|
            0 <= k < rows.len() ==> place(newest_rows(rows), (#[trigger] rows[k]).0) is Some
                && newest_rows(rows)[place(newest_rows(rows), rows[k].0).unwrap()].1 >= rows[k].1,
    decreases rows.len(),
{
    if rows.len() > 0 {
        let d = rows.drop_last();
        let r = rows.last();
        lemma_newest_rows(d);
        let front = newest_rows(d);
        let all = newest_rows(rows);
        lemma_place(front, r.0);
        assert(rows[rows.len() - 1] == r);
        assert forall|i: int| 0 <= i < all.len() implies rows.contains(#[trigger] all[i]) by {
            if i < front.len() && all[i] == front[i] {
                assert(d.contains(front[i]));
                let m = choose|m: int| 0 <= m < d.len() && d[m] == front[i];
                assert(rows[m] == front[i]);
            }
        }
        assert forall|i: int, j: int| 0 <= i < j < all.len() implies (#[trigger] all[i]).0 != (
        #[trigger] all[j]).0 by {
            if j < front.len() {
                assert(front[i].0 != front[j].0);
            } else {
                assert(front[i].0 != r.0);
            }
        }
        assert forall|k: int| 0 <= k < rows.len() implies place(all, (#[trigger] rows[k]).0) is Some
            && all[place(all, rows[k].0).unwrap()].1 >= rows[k].1 by {
            let s = rows[k].0;
            lemma_place(all, s);
            lemma_place(front, s);
            if k < d.len() {
                assert(d[k] == rows[k]);
                let m = place(front, s).unwrap();
                assert(all[m].0 == s);
                let n = place(all, s).unwrap();
                if n < m {
                    assert(all[n].0 != all[m].0);
                } else if m < n {
                    assert(all[m].0 != all[n].0);
                }
            } else {
                let m = match place(front, s) {
                    Some(i) => i,
                    None => front.len() as int,
                };
                assert(all[m].0 == s);
                let n = place(all, s).unwrap();
                if n < m {
                    assert(all[n].0 != all[m].0);
                } else if m < n {
                    assert(all[m].0 != all[n].0);
                }
            }
        }
    }
}

/// Only the newest message of a session counts: every session occurs at most once among the
/// newest rows, with a message that it has, and it has no newer one. An older message that
/// was never completed, as after a crash, does not keep a session in progress.
pub proof fn law_only_the_newest_message_counts(rows: Seq<Row>, i: int)
    requires
        0 <= i < newest_rows(rows).len(),
    ensures
        rows.contains(newest_rows(rows)[i]),
        forall|k: int|
            0 <= k < rows.len() && (#[trigger] rows[k]).0 == newest_rows(rows)[i].0 ==> rows[k].1
                <= newest_rows(rows)[i].1,
        forall|j: int|
            0 <= j < newest_rows(rows).len() && j != i ==> (#[trigger] newest_rows(rows)[j]).0
                != newest_rows(rows)[i].0,
{
    lemma_newest_rows(rows);
    let n = newest_rows(rows);
    assert forall|j: int| 0 <= j < n.len() && j != i implies (#[trigger] n[j]).0 != n[i].0 by {
        if j < i {
            assert(n[j].0 != n[i].0);
        } else {
            assert(n[i].0 != n[j].0);
        }
    }
    assert forall|k: int| 0 <= k < rows.len() && (#[trigger] rows[k]).0 == n[i].0 implies rows[k].1
        <= n[i].1 by {
        lemma_place(n, rows[k].0);
        let m = place(n, rows[k].0).unwrap();
        if m != i {
            assert(n[m].0 != n[i].0);
        }
    }
}

proof fn lemma_open_rows(rows: Seq<Row>, now: i64, x: (Seq<char>, i64))
    ensures
        open_rows(rows, now).contains(x) <==> exists|i: int|
            0 <= i < rows.len() && #[trigger] rows[i] == (x.0, x.1, false) && now - x.1 <= 600_000,
    decreases rows.len(),
{
    if rows.len() > 0 {
        let d = rows.drop_last();
        let front = open_rows(d, now);
        let all = open_rows(rows, now);
        lemma_open_rows(d, now, x);
        assert(rows[rows.len() - 1] == rows.last());
        if all.contains(x) {
            let k = choose|k: int| 0 <= k < all.len() && all[k] == x;
            if k < front.len() {
                assert(front[k] == x);
                let i = choose|i: int|
                    0 <= i < d.len() && #[trigger] d[i] == (x.0, x.1, false) && now - x.1
                        <= 600_000;
                assert(rows[i] == d[i]);
            } else {
                assert(rows[rows.len() - 1] == (x.0, x.1, false));
            }
        }
        if exists|i: int|
            0 <= i < rows.len() && #[trigger] rows[i] == (x.0, x.1, false) && now - x.1 <= 600_000 {
            let i = choose|i: int|
                0 <= i < rows.len() && #[trigger] rows[i] == (x.0, x.1, false) && now - x.1
                    <= 600_000;
            if i < d.len() {
                assert(d[i] == rows[i]);
                let k = choose|k: int| 0 <= k < front.len() && front[k] == x;
                assert(all[k] == x);
            } else {
                assert(all[front.len() as int] == x);
            }
        }
    }
}

/// A session has a call in progress exactly where its newest message is not complete and was
/// created in the last ten minutes; the call began with that message. The call that began last
/// stands first. Messages of a session have different times.
pub proof fn law_session_is_in_progress_by_its_newest_message(
    rows: Seq<Row>,
    now: i64,
    session: Seq<char>,
    start: i64,
)
    requires
        forall|i: int, j: int|
            0 <= i < j < rows.len() && (#[trigger] rows[i]).0 == (#[trigger] rows[j]).0
                ==> rows[i].1 != rows[j].1,
    ensures
        sessions_in_progress(rows, now).contains((session, start)) <==> rows.contains(
            (session, start, false),
        ) && now - start <= 600_000 && forall|k: int|
            0 <= k < rows.len() && (#[trigger] rows[k]).0 == session ==> rows[k].1 <= start,
        forall|i: int, j: int|
            0 <= i < j < sessions_in_progress(rows, now).len() ==> (
            #[trigger] sessions_in_progress(rows, now)[i]).1 >= (#[trigger] sessions_in_progress(
                rows,
                now,
            )[j]).1,
{
    broadcast use vstd::seq_lib::group_to_multiset_ensures;

    let newest = newest_rows(rows);
    let open = open_rows(newest, now);
    let x = (session, start);
    let r = sessions_in_progress(rows, now);
    lemma_newest_rows(rows);
    lemma_open_rows(newest, now, x);
    order::law_ranked_is_sorted_permutation(open);
    assert(r.contains(x) <==> r.to_multiset().count(x) > 0);
    assert(open.contains(x) <==> open.to_multiset().count(x) > 0);
    if open.contains(x) {
        let i = choose|i: int|
            0 <= i < newest.len() && #[trigger] newest[i] == (session, start, false) && now - start
                <= 600_000;
        law_only_the_newest_message_counts(rows, i);
    }
    if rows.contains((session, start, false)) && now - start <= 600_000 && forall|k: int|
        0 <= k < rows.len() && (#[trigger] rows[k]).0 == session ==> rows[k].1 <= start {
        let k = choose|k: int| 0 <= k < rows.len() && rows[k] == (session, start, false);
        assert(rows[k].0 == session);
        lemma_place(newest, session);
        let i = place(newest, session).unwrap();
        assert(rows.contains(newest[i]));
        let m = choose|m: int| 0 <= m < rows.len() && rows[m] == newest[i];
        assert(rows[m].0 == session && rows[m].1 == start);
        if m < k {
            assert(rows[m].1 != rows[k].1);
        } else if k < m {
            assert(rows[k].1 != rows[m].1);
        }
        assert(newest[i] == (session, start, false));
    }
    assert forall|i: int, j: int| 0 <= i < j < r.len() implies (#[trigger] r[i]).1 >= (
    #[trigger] r[j]).1 by {
        assert(!r[j].before(r[i]));
    }
}

/// Of the messages of a session, the newest first, the one that counts is the first that is by
/// the assistant.
pub proof fn law_first_assistant_message_counts(rows: Seq<(i64, String)>, k: int)
    requires
        0 <= k <= rows.len(),
        forall|i: int|
            0 <= i < k ==> !text::has_sub((#[trigger] rows[i]).1@, "\"assistant\""@),
        k < rows.len() ==> text::has_sub(rows[k].1@, "\"assistant\""@),
    ensures
        k == rows.len() ==> assistant_row(rows) is None,
        k < rows.len() ==> assistant_row(rows) == Some(
            (rows[k].0, text::has_sub(rows[k].1@, "\"completed\""@)),
        ),
    decreases k,
{
    if k > 0 {
        let rest = rows.skip(1);
        assert(!text::has_sub(rows[0].1@, "\"assistant\""@));
        assert forall|i: int| 0 <= i < k - 1 implies !text::has_sub(
            (#[trigger] rest[i]).1@,
            "\"assistant\""@,
        ) by {
            assert(rest[i] == rows[i + 1]);
        }
        law_first_assistant_message_counts(rest, k - 1);
    }
}

} // verus!
