//! A bounded cache of query responses that evicts the least recently used
//! entry.
use vstd::prelude::*;
use vstd::hash_map::StringHashMap;
use crate::chars::str_eq;
use crate::text::string_views;

verus! {

/// `s` without the element `k`.
pub open spec fn without(s: Seq<Seq<char>>, k: Seq<char>) -> Seq<Seq<char>>
    decreases s.len(),
{
    if s.len() == 0 {
        s
    } else {
        let prev = without(s.drop_last(), k);
        if s.last() == k { prev } else { prev.push(s.last()) }
    }
}

/// The keys from least to most recently used after `k` is used.
pub open spec fn touched(order: Seq<Seq<char>>, k: Seq<char>) -> Seq<Seq<char>> {
    without(order, k).push(k)
}

/// How many of the oldest keys `put` evicts so that at most `cap` remain.
pub open spec fn evicted(len: int, cap: int) -> int {
    if len > cap { len - cap } else { 0 }
}

/// The keys that remain after `put(k, _)`: the touched order without its
/// oldest keys beyond the capacity.
pub open spec fn order_after_put(order: Seq<Seq<char>>, k: Seq<char>, cap: int) -> Seq<Seq<char>> {
    let o = touched(order, k);
    o.subrange(evicted(o.len() as int, cap), o.len() as int)
}

/// A cache of at most `cap` responses keyed by normalised query.
#[verifier::reject_recursive_types(V)]
pub struct QueryCache<V> {
    map: StringHashMap<V>,
    order: Vec<String>,
    cap: usize,
}

impl<V: Clone> QueryCache<V> {
    /// The cached responses.
    pub closed spec fn entries(&self) -> Map<Seq<char>, V> {
        self.map@
    }

    /// The keys, from least to most recently used.
    pub closed spec fn order_spec(&self) -> Seq<Seq<char>> {
        string_views(self.order@)
    }

    /// The capacity.
    pub closed spec fn cap_spec(&self) -> nat {
        self.cap as nat
    }

    /// Every cached key appears once in the order, which holds nothing else
    /// and no more keys than the capacity.
    pub closed spec fn wf(&self) -> bool {
        &&& forall|i: int, j: int|
            0 <= i < j < self.order@.len() ==> #[trigger] self.order@[i]@ != #[trigger] self.order@[j]@
        &&& forall|k: Seq<char>| #[trigger] self.map@.contains_key(k) <==> string_views(self.order@).contains(k)
        &&& self.order@.len() <= self.cap
    }

    /// An empty cache of capacity `cap`.
    pub fn new(cap: usize) -> (r: Self)
        ensures
            r.wf(),
            r.entries() == Map::<Seq<char>, V>::empty(),
            r.order_spec() == Seq::<Seq<char>>::empty(),
            r.cap_spec() == cap,
    {
        let r = QueryCache { map: StringHashMap::new(), order: Vec::new(), cap };
        assert(r.order_spec() =~= Seq::<Seq<char>>::empty());
        r
    }

    /// Removes `key` from the order.
    fn forget_order(&mut self, key: &str)
        requires
            forall|i: int, j: int|
                0 <= i < j < old(self).order@.len() ==> #[trigger] old(self).order@[i]@ != #[trigger] old(self).order@[j]@,
        ensures
            final(self).map == old(self).map,
            final(self).cap == old(self).cap,
            final(self).order_spec() == without(old(self).order_spec(), key@),
            forall|i: int, j: int|
                0 <= i < j < final(self).order@.len() ==> #[trigger] final(self).order@[i]@ != #[trigger] final(self).order@[j]@,
            forall|k: Seq<char>| #[trigger] string_views(final(self).order@).contains(k) <==> (string_views(old(self).order@).contains(k) && k != key@),
            final(self).order@.len() <= old(self).order@.len(),
            string_views(old(self).order@).contains(key@) ==> final(self).order@.len() < old(self).order@.len(),
    {
        let ghost o = self.order_spec();
        let mut kept: Vec<String> = Vec::new();
        let mut i: usize = 0;
        while i < self.order.len()
            invariant
                i <= self.order.len(),
                o == string_views(self.order@),
                forall|a: int, b: int| 0 <= a < b < self.order@.len() ==> #[trigger] self.order@[a]@ != #[trigger] self.order@[b]@,
                string_views(kept@) == without(o.take(i as int), key@),
                kept@.len() <= i,
                forall|a: int, b: int| 0 <= a < b < kept@.len() ==> #[trigger] kept@[a]@ != #[trigger] kept@[b]@,
                forall|k: Seq<char>| #[trigger] string_views(kept@).contains(k) <==> (o.take(i as int).contains(k) && k != key@),
                o.take(i as int).contains(key@) ==> kept@.len() < i,
            decreases self.order.len() - i,
        {
            let ghost before = kept@;
            assert(o.take(i + 1).drop_last() =~= o.take(i as int));
            assert(o.take(i + 1).last() == self.order@[i as int]@);
            if !str_eq(self.order[i].as_str(), key) {
                kept.push(self.order[i].clone());
                proof {
                    assert(string_views(kept@) =~= string_views(before).push(self.order@[i as int]@));
                    assert forall|a: int, b: int| 0 <= a < b < kept@.len() implies #[trigger] kept@[a]@ != #[trigger] kept@[b]@ by {
                        if b == kept@.len() - 1 {
                            assert(string_views(before).contains(kept@[a]@) ==> o.take(i as int).contains(kept@[a]@));
                            assert(string_views(before)[a] == kept@[a]@);
                            if kept@[a]@ == kept@[b]@ {
                                let m = choose|m: int| 0 <= m < i && o.take(i as int)[m] == kept@[a]@;
                                assert(self.order@[m]@ == self.order@[i as int]@);
                            }
                        } else {
                            assert(kept@[a] == before[a]);
                            assert(kept@[b] == before[b]);
                        }
                    }
                }
            }
            proof {
                let t1 = o.take(i + 1);
                let cur = self.order@[i as int]@;
                assert(t1 == o.take(i as int).push(cur));
                assert forall|k: Seq<char>| #[trigger] string_views(kept@).contains(k) <==> (t1.contains(k) && k != key@) by {
                    assert(string_views(before).contains(k) <==> (o.take(i as int).contains(k) && k != key@));
                    if t1.contains(k) && k != key@ {
                        let m = choose|m: int| 0 <= m < t1.len() && t1[m] == k;
                        if m < i {
                            assert(o.take(i as int)[m] == k);
                            assert(string_views(before).contains(k));
                            let q = choose|q: int| 0 <= q < string_views(before).len() && string_views(before)[q] == k;
                            assert(string_views(kept@)[q] == k);
                        } else {
                            assert(string_views(kept@)[kept@.len() - 1] == k);
                        }
                    }
                    if string_views(kept@).contains(k) {
                        let m = choose|m: int| 0 <= m < string_views(kept@).len() && string_views(kept@)[m] == k;
                        if m < before.len() {
                            assert(string_views(before)[m] == k);
                            assert(string_views(before).contains(k));
                            let q = choose|q: int| 0 <= q < i && o.take(i as int)[q] == k;
                            assert(t1[q] == k);
                        } else {
                            assert(t1[i as int] == k);
                        }
                    }
                }
                if t1.contains(key@) && cur != key@ {
                    let m = choose|m: int| 0 <= m < t1.len() && t1[m] == key@;
                    assert(m < i);
                    assert(o.take(i as int)[m] == key@);
                }
            }
            i += 1;
        }
        assert(o.take(self.order@.len() as int) =~= o);
        self.order = kept;
    }

    /// The cached response for `key`, which becomes the most recently used.
    pub fn get(&mut self, key: &str) -> (r: Option<V>)
        requires
            old(self).wf(),
        ensures
            final(self).wf(),
            final(self).entries() == old(self).entries(),
            final(self).cap_spec() == old(self).cap_spec(),
            match r {
                Some(v) => old(self).entries().contains_key(key@) && cloned(old(self).entries()[key@], v)
                    && final(self).order_spec() == touched(old(self).order_spec(), key@),
                None => !old(self).entries().contains_key(key@) && final(self).order_spec() == old(self).order_spec(),
            },
    {
        match self.map.get(key) {
            Some(v) => {
                let out = v.clone();
                self.forget_order(key);
                let ghost before = self.order@;
                self.order.push(String::from_str(key));
                proof {
                    assert(self.order@ == before.push(self.order@[before.len() as int]));
                    assert(self.order@[before.len() as int]@ == key@);
                    assert(self.order_spec() =~= string_views(before).push(key@));
                    assert(string_views(old(self).order@).contains(key@));
                    assert forall|i: int, j: int| 0 <= i < j < self.order@.len() implies #[trigger] self.order@[i]@ != #[trigger] self.order@[j]@ by {
                        if j == self.order@.len() - 1 {
                            assert(string_views(before)[i] == self.order@[i]@);
                            assert(string_views(before).contains(self.order@[i]@));
                        } else {
                            assert(self.order@[i] == before[i]);
                            assert(self.order@[j] == before[j]);
                        }
                    }
                    assert forall|k: Seq<char>| #[trigger] self.map@.contains_key(k) <==> string_views(self.order@).contains(k) by {
                        assert(string_views(before).contains(k) <==> (string_views(old(self).order@).contains(k) && k != key@));
                        assert(old(self).map@.contains_key(k) <==> string_views(old(self).order@).contains(k));
                        if k == key@ {
                            assert(string_views(self.order@)[self.order@.len() - 1] == k);
                        } else if string_views(self.order@).contains(k) {
                            let m = choose|m: int| 0 <= m < string_views(self.order@).len() && string_views(self.order@)[m] == k;
                            assert(string_views(before)[m] == k);
                        } else if self.map@.contains_key(k) {
                            assert(string_views(before).contains(k));
                            let m = choose|m: int| 0 <= m < string_views(before).len() && string_views(before)[m] == k;
                            assert(string_views(self.order@)[m] == k);
                        }
                    }
                }
                Some(out)
            },
            None => None,
        }
    }

    /// Caches `value` for `key` as the most recently used entry, then drops
    /// the least recently used entries beyond the capacity.
    pub fn put(&mut self, key: String, value: V)
        requires
            old(self).wf(),
        ensures
            final(self).wf(),
            final(self).cap_spec() == old(self).cap_spec(),
            final(self).order_spec() == order_after_put(old(self).order_spec(), key@, old(self).cap_spec() as int),
            forall|k: Seq<char>| #[trigger] final(self).entries().contains_key(k) <==> final(self).order_spec().contains(k),
            forall|k: Seq<char>| #[trigger] final(self).entries().contains_key(k) ==> final(self).entries()[k] == old(self).entries().insert(
                key@,
                value,
            )[k],
    {
        let ghost o_old = old(self).order_spec();
        if self.map.contains_key(key.as_str()) {
            self.forget_order(key.as_str());
            proof {
                assert forall|k: Seq<char>| #[trigger] string_views(self.order@).contains(k) <==> (k != key@ && old(
                    self,
                ).map@.contains_key(k)) by {
                    assert(old(self).map@.contains_key(k) <==> string_views(old(self).order@).contains(k));
                }
            }
        } else {
            proof {
                assert(!string_views(self.order@).contains(key@));
                lemma_without_absent(self.order_spec(), key@);
                assert forall|k: Seq<char>| #[trigger] string_views(self.order@).contains(k) <==> (k != key@ && old(
                    self,
                ).map@.contains_key(k)) by {
                    assert(old(self).map@.contains_key(k) <==> string_views(old(self).order@).contains(k));
                }
            }
        }
        let ghost m0 = old(self).map@;
        self.map.insert(key.clone(), value);
        let ghost before = self.order@;
        self.order.push(key);
        let ghost m1 = self.map@;
        proof {
            assert(self.order@ == before.push(self.order@[before.len() as int]));
            assert(self.order@[before.len() as int]@ == key@);
            assert(self.order_spec() =~= string_views(before).push(key@));
            assert(self.order_spec() == touched(o_old, key@));
            assert forall|i: int, j: int| 0 <= i < j < self.order@.len() implies #[trigger] self.order@[i]@ != #[trigger] self.order@[j]@ by {
                if j == self.order@.len() - 1 {
                    assert(string_views(before)[i] == self.order@[i]@);
                    assert(string_views(before).contains(self.order@[i]@));
                } else {
                    assert(self.order@[i] == before[i]);
                    assert(self.order@[j] == before[j]);
                }
            }
            assert forall|k: Seq<char>| #[trigger] self.map@.contains_key(k) <==> string_views(self.order@).contains(k) by {
                assert(old(self).map@.contains_key(k) <==> string_views(old(self).order@).contains(k));
                if k == key@ {
                    assert(string_views(self.order@)[before.len() as int] == k);
                } else {
                    if string_views(self.order@).contains(k) {
                        let m = choose|m: int| 0 <= m < string_views(self.order@).len() && string_views(self.order@)[m] == k;
                        assert(string_views(before)[m] == k);
                        assert(string_views(before).contains(k));
                        assert(m0.contains_key(k));
                    }
                    if self.map@.contains_key(k) {
                        assert(m0.contains_key(k));
                        assert(string_views(before).contains(k));
                        let m = choose|m: int| 0 <= m < string_views(before).len() && string_views(before)[m] == k;
                        assert(string_views(self.order@)[m] == k);
                    }
                }
            }
        }
        let ghost full = self.order_spec();
        let ghost cap = self.cap as int;
        let ghost keep: int = if full.len() > cap { cap } else { full.len() as int };
        while self.order.len() > self.cap
            invariant
                self.cap == old(self).cap,
                cap == self.cap,
                keep == if full.len() > cap { cap } else { full.len() as int },
                forall|i: int, j: int| 0 <= i < j < self.order@.len() ==> #[trigger] self.order@[i]@ != #[trigger] self.order@[j]@,
                forall|k: Seq<char>| #[trigger] self.map@.contains_key(k) <==> string_views(self.order@).contains(k),
                keep <= self.order@.len() <= full.len(),
                self.order_spec() == full.subrange(full.len() - self.order@.len(), full.len() as int),
                forall|k: Seq<char>| #[trigger] self.map@.contains_key(k) ==> m1.contains_key(k) && self.map@[k] == m1[k],
            decreases self.order.len(),
        {
            let ghost before_o = self.order@;
            let oldest = self.order.remove(0);
            self.map.remove(oldest.as_str());
            proof {
                assert(self.order_spec() =~= string_views(before_o).drop_first());
                assert(self.order_spec() =~= full.subrange(full.len() - self.order@.len(), full.len() as int));
                assert forall|i: int, j: int| 0 <= i < j < self.order@.len() implies #[trigger] self.order@[i]@ != #[trigger] self.order@[j]@ by {
                    assert(self.order@[i] == before_o[i + 1]);
                    assert(self.order@[j] == before_o[j + 1]);
                }
                assert forall|k: Seq<char>| #[trigger] self.map@.contains_key(k) <==> string_views(self.order@).contains(k) by {
                    if string_views(self.order@).contains(k) {
                        let m = choose|m: int| 0 <= m < string_views(self.order@).len() && string_views(self.order@)[m] == k;
                        assert(string_views(before_o)[m + 1] == k);
                        assert(before_o[m + 1]@ != before_o[0]@);
                        assert(string_views(before_o).contains(k));
                    }
                    if self.map@.contains_key(k) {
                        assert(string_views(before_o).contains(k));
                        let m = choose|m: int| 0 <= m < string_views(before_o).len() && string_views(before_o)[m] == k;
                        assert(m != 0);
                        assert(string_views(self.order@)[m - 1] == k);
                    }
                }
            }
        }
        proof {
            assert(self.order@.len() == keep);
            assert(full.len() - keep == evicted(full.len() as int, cap));
        }
    }
}

proof fn lemma_without_absent(s: Seq<Seq<char>>, k: Seq<char>)
    requires
        !s.contains(k),
    ensures
        without(s, k) == s,
    decreases s.len(),
{
    if s.len() > 0 {
        assert(!s.drop_last().contains(k)) by {
            if s.drop_last().contains(k) {
                let m = choose|m: int| 0 <= m < s.drop_last().len() && s.drop_last()[m] == k;
                assert(s[m] == k);
            }
        }
        lemma_without_absent(s.drop_last(), k);
        assert(s.drop_last().push(s.last()) =~= s);
    }
}

/// After `put(k, _)` the cache holds no more keys than its capacity, and
/// with a capacity of at least one, `k` is cached as the most recently used
/// key (so `get(k)` then returns the value just put).
pub proof fn lemma_put_keeps_newest(order: Seq<Seq<char>>, k: Seq<char>, cap: int)
    requires
        cap >= 0,
    ensures
        order_after_put(order, k, cap).len() <= cap,
        cap >= 1 ==> order_after_put(order, k, cap).len() > 0 && order_after_put(order, k, cap).last() == k
            && order_after_put(order, k, cap).contains(k),
{
    let o = touched(order, k);
    let r = order_after_put(order, k, cap);
    if cap >= 1 {
        assert(r.last() == o.last());
        assert(r[r.len() - 1] == k);
    }
}

/// A cache of capacity zero keeps nothing.
pub proof fn lemma_zero_capacity_keeps_nothing(order: Seq<Seq<char>>, k: Seq<char>)
    ensures
        order_after_put(order, k, 0).len() == 0,
{
}

} // verus!
