//! Stable sorting by a strict weak order.

use vstd::prelude::*;

verus! {

/// The elements without immediate repetition.
pub open spec fn without_repeats<T>(s: Seq<T>) -> Seq<T>
    decreases s.len(),
{
    if s.len() < 2 {
        s
    } else {
        let front = without_repeats(s.drop_last());
        if s[s.len() - 2] == s.last() {
            front
        } else {
            front.push(s.last())
        }
    }
}

/// Values that have a rank: `before` is a strict weak order.
pub trait Ordered: Sized {
    /// `self` ranks strictly before `other`.
    spec fn before(self, other: Self) -> bool;

    /// Nothing ranks before itself, and both `before` and its negation are transitive.
    proof fn strict_weak(a: Self, b: Self, c: Self)
        ensures
            !a.before(a),
            a.before(b) && b.before(c) ==> a.before(c),
            !a.before(b) && !b.before(c) ==> !a.before(c),
    ;
}

/// Values whose rank can be told.
pub trait Ranked: Ordered {
    /// Whether `self` ranks strictly before `other`.
    fn is_before(&self, other: &Self) -> (r: bool)
        ensures
            r == self.before(*other),
    ;
}

/// `x` put into the sorted `s`, behind everything it does not rank before.
pub open spec fn placed<T: Ordered>(s: Seq<T>, x: T) -> Seq<T>
    decreases s.len(),
{
    if s.len() == 0 || !x.before(s.last()) {
        s.push(x)
    } else {
        placed(s.drop_last(), x).push(s.last())
    }
}

/// `s` in rank order; what ranks equal stays in the order it came in.
pub open spec fn ranked<T: Ordered>(s: Seq<T>) -> Seq<T>
    decreases s.len(),
{
    if s.len() == 0 {
        s
    } else {
        placed(ranked(s.drop_last()), s.last())
    }
}

/// No later element ranks before an earlier one.
pub open spec fn in_order<T: Ordered>(s: Seq<T>) -> bool {
    forall|i: int, j: int| 0 <= i < j < s.len() ==> !(#[trigger] s[j]).before(#[trigger] s[i])
}

proof fn lemma_placed<T: Ordered>(s: Seq<T>, x: T)
    requires
        in_order(s),
    ensures
        in_order(placed(s, x)),
        placed(s, x).to_multiset() == s.to_multiset().insert(x),
        placed(s, x).len() == s.len() + 1,
        forall|i: int| 0 <= i <= s.len() ==> (#[trigger] placed(s, x)[i] == x || s.contains(
            placed(s, x)[i],
        )),
    decreases s.len(),
{
    broadcast use vstd::seq_lib::group_to_multiset_ensures;

    if s.len() == 0 || !x.before(s.last()) {
        let r = s.push(x);
        assert forall|i: int, j: int| 0 <= i < j < r.len() implies !(#[trigger] r[j]).before(
            #[trigger] r[i],
        ) by {
            if j == s.len() {
                if i < s.len() - 1 {
                    T::strict_weak(x, s.last(), s[i]);
                }
            }
        }
    } else {
        let d = s.drop_last();
        lemma_placed(d, x);
        let p = placed(d, x);
        let r = p.push(s.last());
        assert(d.push(s.last()) =~= s);
        assert(r.to_multiset() =~= s.to_multiset().insert(x));
        assert forall|i: int, j: int| 0 <= i < j < r.len() implies !(#[trigger] r[j]).before(
            #[trigger] r[i],
        ) by {
            if j == s.len() {
                if p[i] == x {
                    T::strict_weak(s.last(), x, s.last());
                } else {
                    let k = choose|k: int| 0 <= k < d.len() && d[k] == p[i];
                    assert(s[k] == p[i]);
                }
            }
        }
        assert forall|i: int| 0 <= i <= s.len() implies (#[trigger] r[i] == x || s.contains(
            r[i],
        )) by {
            if i < s.len() {
                if p[i] != x {
                    let k = choose|k: int| 0 <= k < d.len() && d[k] == p[i];
                    assert(s[k] == p[i]);
                }
            } else {
                assert(s[s.len() - 1] == r[i]);
            }
        }
    }
}

/// Ranking rearranges, and puts in order.
pub proof fn law_ranked_is_sorted_permutation<T: Ordered>(s: Seq<T>)
    ensures
        in_order(ranked(s)),
        ranked(s).to_multiset() == s.to_multiset(),
        ranked(s).len() == s.len(),
    decreases s.len(),
{
    broadcast use vstd::seq_lib::group_to_multiset_ensures;

    if s.len() > 0 {
        law_ranked_is_sorted_permutation(s.drop_last());
        lemma_placed(ranked(s.drop_last()), s.last());
        assert(s.drop_last().push(s.last()) =~= s);
    }
}

/// Every element of the ranking comes from what was ranked.
pub proof fn lemma_ranked_members<T: Ordered>(s: Seq<T>, i: int)
    requires
        0 <= i < ranked(s).len(),
    ensures
        s.contains(ranked(s)[i]),
{
    broadcast use vstd::seq_lib::group_to_multiset_ensures;

    law_ranked_is_sorted_permutation(s);
    assert(ranked(s).contains(ranked(s)[i]));
    assert(ranked(s).to_multiset().count(ranked(s)[i]) > 0);
}

proof fn lemma_placed_split<T: Ordered>(s: Seq<T>, x: T, at: int)
    requires
        0 <= at <= s.len(),
        at == 0 || !x.before(s[at - 1]),
        forall|j: int| at <= j < s.len() ==> x.before(#[trigger] s[j]),
    ensures
        placed(s, x) == s.insert(at, x),
    decreases s.len(),
{
    if s.len() == 0 || !x.before(s.last()) {
        assert(at == s.len());
        assert(s.insert(at, x) =~= s.push(x));
    } else {
        assert(at < s.len());
        lemma_placed_split(s.drop_last(), x, at);
        assert(s.drop_last().insert(at, x).push(s.last()) =~= s.insert(at, x));
    }
}

/// Sorts stably.
pub fn sort<T: Ranked>(items: Vec<T>) -> (r: Vec<T>)
    ensures
        r@ == ranked(items@),
{
    let mut items = items;
    let ghost all = items@;
    let mut out: Vec<T> = Vec::new();
    let mut rev: Vec<T> = Vec::new();
    while items.len() > 0
        invariant
            items@ + rev@.reverse() == all,
        decreases items@.len(),
    {
        let ghost before = items@;
        let ghost r0 = rev@;
        match items.pop() {
            Some(x) => {
                rev.push(x);
                assert(items@ + rev@.reverse() =~= before + r0.reverse());
            },
            None => {},
        }
    }
    assert(rev@.reverse() =~= all);
    assert(all.take(0) =~= Seq::<T>::empty());
    let ghost mut done: int = 0;
    while rev.len() > 0
        invariant
            0 <= done <= all.len(),
            all.skip(done) == rev@.reverse(),
            out@ == ranked(all.take(done)),
        decreases rev@.len(),
    {
        let ghost r0 = rev@;
        assert(all.skip(done).len() == r0.len());
        match rev.pop() {
            Some(x) => {
                assert(r0.reverse()[0] == x);
                assert(all.skip(done)[0] == x);
                assert(rev@.reverse() =~= r0.reverse().skip(1));
                let mut at: usize = out.len();
                let ghost o0 = out@;
                while at > 0 && x.is_before(&out[at - 1])
                    invariant
                        at <= out@.len(),
                        out@ == o0,
                        forall|j: int| at <= j < out@.len() ==> x.before(#[trigger] out@[j]),
                    decreases at,
                {
                    at = at - 1;
                }
                proof {
                    lemma_placed_split(o0, x, at as int);
                    assert(all.take(done + 1).drop_last() =~= all.take(done));
                    assert(all.take(done + 1).last() == x);
                }
                out.insert(at, x);
                proof {
                    assert(all.skip(done).skip(1) =~= all.skip(done + 1));
                    done = done + 1;
                }
            },
            None => {},
        }
    }
    assert(all.take(done) =~= all);
    out
}

proof fn lemma_placed_map<A: Ordered, B: Ordered>(s: Seq<A>, x: A, f: spec_fn(A) -> B)
    requires
        forall|a: A, b: A| #[trigger] a.before(b) == f(a).before(f(b)),
    ensures
        placed(s, x).map_values(f) == placed(s.map_values(f), f(x)),
    decreases s.len(),
{
    let t = s.map_values(f);
    if s.len() > 0 {
        assert(t.last() == f(s.last()));
        assert(t.drop_last() =~= s.drop_last().map_values(f));
        assert(x.before(s.last()) == f(x).before(f(s.last())));
    }
    if s.len() == 0 || !x.before(s.last()) {
        assert(s.push(x).map_values(f) =~= t.push(f(x)));
    } else {
        lemma_placed_map(s.drop_last(), x, f);
        assert(placed(s.drop_last(), x).push(s.last()).map_values(f) =~= placed(
            s.drop_last(),
            x,
        ).map_values(f).push(f(s.last())));
    }
}

/// Ranking commutes with any mapping that keeps the rank.
pub proof fn lemma_ranked_map<A: Ordered, B: Ordered>(s: Seq<A>, f: spec_fn(A) -> B)
    requires
        forall|a: A, b: A| #[trigger] a.before(b) == f(a).before(f(b)),
    ensures
        ranked(s).map_values(f) == ranked(s.map_values(f)),
    decreases s.len(),
{
    let t = s.map_values(f);
    if s.len() > 0 {
        lemma_ranked_map(s.drop_last(), f);
        lemma_placed_map(ranked(s.drop_last()), s.last(), f);
        assert(t.drop_last() =~= s.drop_last().map_values(f));
        assert(t.last() == f(s.last()));
    } else {
        assert(ranked(s).map_values(f) =~= ranked(t));
    }
}

proof fn lemma_placed_matches<T: Ordered>(s: Seq<T>, x: T, p: spec_fn(T) -> bool)
    ensures
        placed(s, x).filter(p).len() == s.filter(p).len() + (if p(x) {
            1int
        } else {
            0
        }),
    decreases s.len(),
{
    reveal(Seq::filter);
    if s.len() == 0 || !x.before(s.last()) {
        assert(s.push(x).drop_last() =~= s);
    } else {
        let q = placed(s.drop_last(), x);
        lemma_placed_matches(s.drop_last(), x, p);
        assert(q.push(s.last()).drop_last() =~= q);
    }
}

proof fn lemma_ranked_matches<T: Ordered>(s: Seq<T>, p: spec_fn(T) -> bool)
    ensures
        ranked(s).filter(p).len() == s.filter(p).len(),
    decreases s.len(),
{
    reveal(Seq::filter);
    if s.len() > 0 {
        lemma_ranked_matches(s.drop_last(), p);
        lemma_placed_matches(ranked(s.drop_last()), s.last(), p);
    }
}

/// Where nothing matches from a place on, no more match than stand before it.
pub proof fn lemma_matches_before<T>(s: Seq<T>, p: spec_fn(T) -> bool, m: int)
    requires
        0 <= m <= s.len(),
        forall|i: int| m <= i < s.len() ==> !p(#[trigger] s[i]),
    ensures
        s.filter(p).len() <= m,
    decreases s.len(),
{
    reveal(Seq::filter);
    if s.len() > 0 {
        let d = s.drop_last();
        assert forall|i: int| m <= i < d.len() implies !p(#[trigger] d[i]) by {
            assert(d[i] == s[i]);
        }
        if m < s.len() {
            assert(s[s.len() - 1] == s.last());
            lemma_matches_before(d, p, m);
        } else {
            lemma_matches_before(d, p, m - 1);
        }
    }
}

/// Where nothing matches up to a place, no more match than stand behind it.
pub proof fn lemma_matches_behind<T>(s: Seq<T>, p: spec_fn(T) -> bool, m: int)
    requires
        0 <= m < s.len(),
        forall|i: int| 0 <= i <= m ==> !p(#[trigger] s[i]),
    ensures
        s.filter(p).len() <= s.len() - 1 - m,
    decreases s.len(),
{
    reveal(Seq::filter);
    if m == s.len() - 1 {
        lemma_matches_before(s, p, 0);
    } else {
        let d = s.drop_last();
        assert forall|i: int| 0 <= i <= m implies !p(#[trigger] d[i]) by {
            assert(d[i] == s[i]);
        }
        lemma_matches_behind(d, p, m);
    }
}

/// What stands at a place of the ranking is one of the elements; no more of them rank before
/// it than stand before that place, and no more rank behind it than stand behind.
pub proof fn law_place_in_the_ranking<T: Ordered>(s: Seq<T>, m: int)
    requires
        0 <= m < s.len(),
    ensures
        s.contains(ranked(s)[m]),
        s.filter(|y: T| y.before(ranked(s)[m])).len() <= m,
        s.filter(|y: T| ranked(s)[m].before(y)).len() <= s.len() - 1 - m,
{
    let r = ranked(s);
    let x = r[m];
    let less = |y: T| y.before(x);
    let more = |y: T| x.before(y);
    law_ranked_is_sorted_permutation(s);
    lemma_ranked_members(s, m);
    lemma_ranked_matches(s, less);
    lemma_ranked_matches(s, more);
    assert forall|i: int| m <= i < r.len() implies !less(#[trigger] r[i]) by {
        T::strict_weak(x, x, x);
    }
    assert forall|i: int| 0 <= i <= m implies !more(#[trigger] r[i]) by {
        T::strict_weak(x, x, x);
    }
    lemma_matches_before(r, less, m);
    lemma_matches_behind(r, more, m);
}

impl Ordered for u64 {
    open spec fn before(self, other: Self) -> bool {
        self < other
    }

    proof fn strict_weak(a: Self, b: Self, c: Self) {
    }
}

impl Ranked for u64 {
    fn is_before(&self, other: &Self) -> (r: bool) {
        *self < *other
    }
}

impl Ordered for u32 {
    open spec fn before(self, other: Self) -> bool {
        self < other
    }

    proof fn strict_weak(a: Self, b: Self, c: Self) {
    }
}

impl Ranked for u32 {
    fn is_before(&self, other: &Self) -> (r: bool) {
        *self < *other
    }
}

} // verus!
