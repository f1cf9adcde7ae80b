//! A map keyed by text, kept as a list of distinct keys.

use std::collections::HashSet;

use vstd::prelude::*;

use crate::latest;
use crate::text;

verus! {

/// A map from text to `V`.
pub struct StrMap<V> {
    pub entries: Vec<(String, V)>,
}

/// The map that a list of entries stands for.
pub open spec fn map_of<V>(s: Seq<(String, V)>) -> Map<Seq<char>, V>
    decreases s.len(),
{
    if s.len() == 0 {
        Map::empty()
    } else {
        map_of(s.drop_last()).insert(s.last().0@, s.last().1)
    }
}

/// No key occurs twice.
pub open spec fn distinct_keys<V>(s: Seq<(String, V)>) -> bool {
    forall|i: int, j: int| 0 <= i < j < s.len() ==> (#[trigger] s[i]).0@ != (#[trigger] s[j]).0@
}

pub proof fn lemma_map_of<V>(s: Seq<(String, V)>)
    requires
        distinct_keys(s),
    ensures
        map_of(s).dom().finite(),
        map_of(s).dom().len() == s.len(),
        forall|i: int| 0 <= i < s.len() ==> map_of(s).contains_key((#[trigger] s[i]).0@),
        forall|i: int| 0 <= i < s.len() ==> map_of(s)[(#[trigger] s[i]).0@] == s[i].1,
        forall|k: Seq<char>| #[trigger]
            map_of(s).contains_key(k) ==> exists|i: int|
                0 <= i < s.len() && (#[trigger] s[i]).0@ == k,
    decreases s.len(),
{
    if s.len() > 0 {
        let d = s.drop_last();
        lemma_map_of(d);
        assert(!map_of(d).contains_key(s.last().0@)) by {
            if map_of(d).contains_key(s.last().0@) {
                let i = choose|i: int| 0 <= i < d.len() && (#[trigger] d[i]).0@ == s.last().0@;
                assert(s[i].0@ != s[s.len() - 1].0@);
            }
        }
        assert forall|i: int| 0 <= i < s.len() implies map_of(s).contains_key(
            (#[trigger] s[i]).0@,
        ) && map_of(s)[s[i].0@] == s[i].1 by {
            if i < d.len() {
                assert(d[i] == s[i]);
                assert(s[i].0@ != s[s.len() - 1].0@);
            }
        }
        assert forall|k: Seq<char>| #[trigger] map_of(s).contains_key(k) implies exists|i: int|
            0 <= i < s.len() && (#[trigger] s[i]).0@ == k by {
            if k == s.last().0@ {
                assert(s[s.len() - 1].0@ == k);
            } else {
                assert(map_of(d).contains_key(k));
                let i = choose|i: int| 0 <= i < d.len() && (#[trigger] d[i]).0@ == k;
                assert(s[i].0@ == k);
            }
        }
    }
}

/// Entries with their keys as characters.
pub open spec fn keyed<V>(s: Seq<(String, V)>) -> Seq<(Seq<char>, V)> {
    s.map_values(|e: (String, V)| (e.0@, e.1))
}

impl<V> View for StrMap<V> {
    type V = Map<Seq<char>, V>;

    open spec fn view(&self) -> Map<Seq<char>, V> {
        map_of(self.entries@)
    }
}

impl<V> StrMap<V> {
    /// No key is listed twice.
    pub open spec fn wf(&self) -> bool {
        distinct_keys(self.entries@)
    }

    /// The empty map.
    pub fn new() -> (r: Self)
        ensures
            r.wf(),
            r@ == Map::<Seq<char>, V>::empty(),
            r.entries@.len() == 0,
    {
        StrMap { entries: Vec::new() }
    }

    /// How many keys there are.
    pub fn len(&self) -> (r: usize)
        requires
            self.wf(),
        ensures
            r == self@.len(),
            self@.dom().finite(),
    {
        proof {
            lemma_map_of(self.entries@);
        }
        self.entries.len()
    }

    fn position(&self, k: &str) -> (r: Option<usize>)
        requires
            self.wf(),
        ensures
            match r {
                Some(i) => i < self.entries@.len() && self.entries@[i as int].0@ == k@
                    && self@.contains_key(k@) && self@[k@] == self.entries@[i as int].1,
                None => !self@.contains_key(k@),
            },
    {
        proof {
            lemma_map_of(self.entries@);
        }
        for i in 0..self.entries.len()
            invariant
                self.wf(),
                forall|j: int| 0 <= j < i ==> (#[trigger] self.entries@[j]).0@ != k@,
                forall|j: int|
                    0 <= j < self.entries@.len() ==> self@.contains_key(
                        (#[trigger] self.entries@[j]).0@,
                    ) && self@[self.entries@[j].0@] == self.entries@[j].1,
        {
            if text::same(self.entries[i].0.as_str(), k) {
                return Some(i);
            }
        }
        None
    }

    /// The value of a key.
    pub fn get(&self, k: &str) -> (r: Option<&V>)
        requires
            self.wf(),
        ensures
            match r {
                Some(v) => self@.contains_key(k@) && *v == self@[k@],
                None => !self@.contains_key(k@),
            },
    {
        match self.position(k) {
            Some(i) => Some(&self.entries[i].1),
            None => None,
        }
    }

    /// Whether a key is there.
    pub fn contains_key(&self, k: &str) -> (r: bool)
        requires
            self.wf(),
        ensures
            r == self@.contains_key(k@),
    {
        self.position(k).is_some()
    }

    /// Sets the value of a key.
    pub fn insert(&mut self, k: String, v: V)
        requires
            old(self).wf(),
        ensures
            final(self).wf(),
            final(self)@ == old(self)@.insert(k@, v),
            keyed(final(self).entries@) == latest::put_by(
                keyed(old(self).entries@),
                (k@, v),
                |e: (Seq<char>, V)| e.0,
            ),
    {
        let ghost before = self.entries@;
        let ghost kb = keyed(before);
        let ghost key = |e: (Seq<char>, V)| e.0;
        match self.position(k.as_str()) {
            Some(i) => {
                let ghost kv = k@;
                self.entries.set(i, (k, v));
                proof {
                    let after = self.entries@;
                    assert forall|j: int| 0 <= j < i implies key(#[trigger] kb[j]) != kv by {
                        assert(before[j].0@ != before[i as int].0@);
                    }
                    latest::lemma_put_at(kb, (kv, v), key, i as int);
                    assert(keyed(after) =~= kb.update(i as int, (kv, v)));
                    assert(distinct_keys(after)) by {
                        assert forall|a: int, b: int| 0 <= a < b < after.len() implies (
                        #[trigger] after[a]).0@ != (#[trigger] after[b]).0@ by {
                            assert(before[a].0@ != before[b].0@);
                        }
                    }
                    lemma_map_of(before);
                    lemma_map_of(after);
                    assert forall|q: Seq<char>| #[trigger]
                        map_of(after).contains_key(q) == map_of(before).insert(kv, v).contains_key(
                            q,
                        ) by {
                        if map_of(after).contains_key(q) {
                            let j = choose|j: int|
                                0 <= j < after.len() && (#[trigger] after[j]).0@ == q;
                            assert(before[j].0@ == q);
                        }
                        if map_of(before).contains_key(q) {
                            let j = choose|j: int|
                                0 <= j < before.len() && (#[trigger] before[j]).0@ == q;
                            assert(after[j].0@ == q);
                        }
                        assert(after[i as int].0@ == kv);
                    }
                    assert forall|q: Seq<char>| #[trigger]
                        map_of(after).contains_key(q) implies map_of(after)[q] == map_of(
                        before,
                    ).insert(kv, v)[q] by {
                        let j = choose|j: int|
                            0 <= j < after.len() && (#[trigger] after[j]).0@ == q;
                        assert(before[j].0@ == q);
                    }
                    assert(map_of(after) =~= map_of(before).insert(kv, v));
                }
            },
            None => {
                let ghost kv = k@;
                self.entries.push((k, v));
                proof {
                    let after = self.entries@;
                    lemma_map_of(before);
                    assert forall|j: int| 0 <= j < kb.len() implies key(#[trigger] kb[j]) != kv by {
                        assert(map_of(before).contains_key(before[j].0@));
                    }
                    latest::lemma_put_new(kb, (kv, v), key);
                    assert(keyed(after) =~= kb.push((kv, v)));
                    assert(after.drop_last() =~= before);
                    assert forall|a: int, b: int| 0 <= a < b < after.len() implies (
                    #[trigger] after[a]).0@ != (#[trigger] after[b]).0@ by {
                        if b == before.len() {
                            assert(map_of(before).contains_key(before[a].0@));
                        } else {
                            assert(before[a].0@ != before[b].0@);
                        }
                    }
                }
            },
        }
    }

    /// Empties the map.
    pub fn clear(&mut self)
        ensures
            final(self).wf(),
            final(self)@ == Map::<Seq<char>, V>::empty(),
    {
        self.entries.clear();
    }
}

/// The part of a map whose values are in a set.
pub open spec fn kept(m: Map<Seq<char>, u32>, set: Set<u32>) -> Map<Seq<char>, u32> {
    Map::new(|k: Seq<char>| m.contains_key(k) && set.contains(m[k]), |k: Seq<char>| m[k])
}

impl StrMap<u32> {
    /// Drops the keys whose value is not in the set.
    pub fn keep_values(&mut self, set: &HashSet<u32>)
        requires
            old(self).wf(),
        ensures
            final(self).wf(),
            final(self)@ == kept(old(self)@, set@),
    {
        broadcast use vstd::std_specs::hash::group_hash_axioms;

        let ghost goal = kept(self@, set@);
        let mut out: StrMap<u32> = StrMap::new();
        assert(goal =~= kept(self@, set@).union_prefer_right(out@));
        while self.entries.len() > 0
            invariant
                self.wf(),
                out.wf(),
                goal == kept(self@, set@).union_prefer_right(out@),
                forall|k: Seq<char>| #[trigger] out@.contains_key(k) ==> !self@.contains_key(k),
            decreases self.entries@.len(),
        {
            let ghost s0 = self.entries@;
            let ghost m0 = self@;
            let ghost out0 = out@;
            proof {
                lemma_map_of(s0);
                assert(distinct_keys(s0.drop_last()));
                lemma_map_of(s0.drop_last());
            }
            match self.entries.pop() {
                Some((k, v)) => {
                    let ghost kv = k@;
                    proof {
                        assert(self.entries@ =~= s0.drop_last());
                        assert(m0 == self@.insert(kv, v));
                        if self@.contains_key(kv) {
                            let i = choose|i: int|
                                0 <= i < s0.drop_last().len() && (#[trigger] s0.drop_last()[i]).0@
                                    == kv;
                            assert(s0[i].0@ != s0[s0.len() - 1].0@);
                        }
                        assert(m0.contains_key(kv));
                    }
                    if set.contains(&v) {
                        out.insert(k, v);
                        assert(goal =~= kept(self@, set@).union_prefer_right(out@));
                    } else {
                        assert(goal =~= kept(self@, set@).union_prefer_right(out@));
                    }
                },
                None => {},
            }
        }
        assert(goal =~= out@);
        *self = out;
    }
}

} // verus!
