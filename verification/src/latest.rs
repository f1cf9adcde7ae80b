//! Lists that hold the latest of the items with the same key.

use vstd::prelude::*;

verus! {

/// `x` in place of the first item with its key; at the end if there is none.
pub open spec fn put_by<T>(s: Seq<T>, x: T, key: spec_fn(T) -> Seq<char>) -> Seq<T>
    decreases s.len(),
{
    if s.len() == 0 {
        seq![x]
    } else if key(s[0]) == key(x) {
        seq![x] + s.skip(1)
    } else {
        seq![s[0]] + put_by(s.skip(1), x, key)
    }
}

/// The latest of the items with the same key, each where the first of them stood.
pub open spec fn latest_by<T>(items: Seq<T>, key: spec_fn(T) -> Seq<char>) -> Seq<T>
    decreases items.len(),
{
    if items.len() == 0 {
        Seq::empty()
    } else {
        put_by(latest_by(items.drop_last(), key), items.last(), key)
    }
}

/// The last item with a key.
pub open spec fn last_with<T>(
    items: Seq<T>,
    k: Seq<char>,
    key: spec_fn(T) -> Seq<char>,
) -> Option<T>
    decreases items.len(),
{
    if items.len() == 0 {
        None
    } else if key(items.last()) == k {
        Some(items.last())
    } else {
        last_with(items.drop_last(), k, key)
    }
}

pub proof fn lemma_put_at<T>(s: Seq<T>, x: T, key: spec_fn(T) -> Seq<char>, i: int)
    requires
        0 <= i < s.len(),
        key(s[i]) == key(x),
        forall|j: int| 0 <= j < i ==> key(#[trigger] s[j]) != key(x),
    ensures
        put_by(s, x, key) == s.update(i, x),
    decreases s.len(),
{
    if i == 0 {
        assert(put_by(s, x, key) =~= s.update(0, x));
    } else {
        let r = s.skip(1);
        assert(key(s[0]) != key(x));
        assert forall|j: int| 0 <= j < i - 1 implies key(#[trigger] r[j]) != key(x) by {
            assert(r[j] == s[j + 1]);
        }
        lemma_put_at(r, x, key, i - 1);
        assert(put_by(s, x, key) =~= s.update(i, x));
    }
}

pub proof fn lemma_put_new<T>(s: Seq<T>, x: T, key: spec_fn(T) -> Seq<char>)
    requires
        forall|j: int| 0 <= j < s.len() ==> key(#[trigger] s[j]) != key(x),
    ensures
        put_by(s, x, key) == s.push(x),
    decreases s.len(),
{
    if s.len() > 0 {
        let r = s.skip(1);
        assert(key(s[0]) != key(x));
        assert forall|j: int| 0 <= j < r.len() implies key(#[trigger] r[j]) != key(x) by {
            assert(r[j] == s[j + 1]);
        }
        lemma_put_new(r, x, key);
    }
    assert(put_by(s, x, key) =~= s.push(x));
}

pub proof fn lemma_put_map<A, B>(
    s: Seq<A>,
    x: A,
    key: spec_fn(A) -> Seq<char>,
    f: spec_fn(A) -> B,
    other: spec_fn(B) -> Seq<char>,
)
    requires
        forall|a: A| other(#[trigger] f(a)) == key(a),
    ensures
        put_by(s.map_values(f), f(x), other) == put_by(s, x, key).map_values(f),
    decreases s.len(),
{
    let t = s.map_values(f);
    if s.len() > 0 {
        lemma_put_map(s.skip(1), x, key, f, other);
        assert(t.skip(1) =~= s.skip(1).map_values(f));
        assert(t[0] == f(s[0]));
    }
    assert(put_by(t, f(x), other) =~= put_by(s, x, key).map_values(f));
}

proof fn lemma_put_members<T>(s: Seq<T>, x: T, key: spec_fn(T) -> Seq<char>)
    requires
        forall|i: int, j: int|
            0 <= i < j < s.len() ==> key(#[trigger] s[i]) != key(#[trigger] s[j]),
    ensures
        ({
            let r = put_by(s, x, key);
            &&& forall|i: int, j: int|
                0 <= i < j < r.len() ==> key(#[trigger] r[i]) != key(#[trigger] r[j])
            &&& forall|i: int|
                0 <= i < r.len() ==> (#[trigger] r[i] == x || (key(r[i]) != key(x)
                    && s.contains(r[i])))
            &&& r.contains(x)
            &&& forall|i: int|
                0 <= i < s.len() && key(#[trigger] s[i]) != key(x) ==> r.contains(s[i])
        }),
{
    let r = put_by(s, x, key);
    if exists|i: int| 0 <= i < s.len() && key(#[trigger] s[i]) == key(x) {
        let i = choose|i: int| 0 <= i < s.len() && key(#[trigger] s[i]) == key(x);
        assert forall|j: int| 0 <= j < s.len() && j != i implies key(#[trigger] s[j]) != key(
            x,
        ) by {
            if j < i {
                assert(key(s[j]) != key(s[i]));
            } else {
                assert(key(s[i]) != key(s[j]));
            }
        }
        lemma_put_at(s, x, key, i);
        assert(r[i] == x);
        assert forall|j: int| 0 <= j < s.len() && key(#[trigger] s[j]) != key(x) implies r.contains(
            s[j],
        ) by {
            assert(r[j] == s[j]);
        }
        assert forall|a: int, b: int| 0 <= a < b < r.len() implies key(#[trigger] r[a]) != key(
            #[trigger] r[b],
        ) by {
            assert(key(s[a]) != key(s[b]));
        }
    } else {
        lemma_put_new(s, x, key);
        assert(r[s.len() as int] == x);
        assert forall|j: int| 0 <= j < s.len() && key(#[trigger] s[j]) != key(x) implies r.contains(
            s[j],
        ) by {
            assert(r[j] == s[j]);
        }
        assert forall|a: int, b: int| 0 <= a < b < r.len() implies key(#[trigger] r[a]) != key(
            #[trigger] r[b],
        ) by {
            if b < s.len() {
                assert(key(s[a]) != key(s[b]));
            }
        }
    }
}

/// No key occurs twice, every item is the last with its key, and no key is lost.
pub proof fn law_latest_is_one_per_key<T>(items: Seq<T>, key: spec_fn(T) -> Seq<char>)
    ensures
        ({
            let r = latest_by(items, key);
            &&& forall|i: int, j: int|
                0 <= i < j < r.len() ==> key(#[trigger] r[i]) != key(#[trigger] r[j])
            &&& forall|i: int|
                0 <= i < r.len() ==> last_with(items, key(#[trigger] r[i]), key) == Some(r[i])
            &&& forall|k: Seq<char>| #[trigger]
                last_with(items, k, key) matches Some(x) ==> r.contains(x)
        }),
    decreases items.len(),
{
    if items.len() > 0 {
        let d = items.drop_last();
        let x = items.last();
        let s = latest_by(d, key);
        let r = latest_by(items, key);
        law_latest_is_one_per_key(d, key);
        lemma_put_members(s, x, key);
        assert forall|i: int| 0 <= i < r.len() implies last_with(items, key(#[trigger] r[i]), key)
            == Some(r[i]) by {
            if r[i] != x {
                let k = choose|k: int| 0 <= k < s.len() && s[k] == r[i];
                assert(last_with(d, key(s[k]), key) == Some(s[k]));
            }
        }
        assert forall|k: Seq<char>| #[trigger]
            last_with(items, k, key) matches Some(y) implies r.contains(
            last_with(items, k, key).unwrap(),
        ) by {
            if key(x) != k {
                let y = last_with(d, k, key).unwrap();
                assert(s.contains(y));
                let i = choose|i: int| 0 <= i < s.len() && s[i] == y;
                assert(last_with(d, key(s[i]), key) == Some(s[i]));
                lemma_last_has_key(d, k, key);
                assert(key(s[i]) != key(x));
            }
        }
    }
}

pub proof fn lemma_last_has_key<T>(items: Seq<T>, k: Seq<char>, key: spec_fn(T) -> Seq<char>)
    ensures
        last_with(items, k, key) matches Some(x) ==> key(x) == k,
    decreases items.len(),
{
    if items.len() > 0 && key(items.last()) != k {
        lemma_last_has_key(items.drop_last(), k, key);
    }
}

} // verus!
