//! The table itself: bucket storage, placement, resizing, the public
//! operations, the entry API and iteration.
//!
//! A table is a sequence of buckets, each a chain of (key, value) pairs. A
//! pair lives in the bucket its key hashes to, modulo the current bucket
//! count, and no two pairs have the same abstract key. The table's abstract
//! value is the map from abstract keys to values.

use crate::key::LookupKey;
use crate::key::TableKey;
use vstd::prelude::*;

verus! {

/// One chain of (key, value) pairs, scanned linearly.
struct Bucket<K, V> {
    items: Vec<(K, V)>,
}

/// A hash table mapping unique keys to values, with separate chaining.
pub struct HashMap<K, V> {
    buckets: Vec<Bucket<K, V>>,
    items: usize,
}

/// The bucket count after one growth step: one bucket where there was none,
/// else double, capped by what a `usize` can hold.
pub open spec fn spec_grown(n: int) -> int {
    if n == 0 {
        1
    } else if 2 * n <= usize::MAX as int {
        2 * n
    } else {
        usize::MAX as int
    }
}

/// Whether some pair of some bucket has abstract key `k`.
spec fn buckets_have_key<K: TableKey, V>(bs: Seq<Bucket<K, V>>, k: <K as View>::V) -> bool {
    exists|b: int, i: int|
        0 <= b < bs.len() && 0 <= i < bs[b].items@.len() && bs[b].items@[i].0@ == k
}

/// Whether some pair of the chain has abstract key `k`.
spec fn chain_has_key<K: TableKey, V>(s: Seq<(K, V)>, k: <K as View>::V) -> bool {
    exists|i: int| 0 <= i < s.len() && s[i].0@ == k
}

/// A position of the pair with abstract key `k` in the chain.
spec fn chain_index_of<K: TableKey, V>(s: Seq<(K, V)>, k: <K as View>::V) -> int {
    choose|i: int| 0 <= i < s.len() && s[i].0@ == k
}

impl<K: TableKey, V> HashMap<K, V> {
    /// How many buckets the table currently has.
    pub closed spec fn spec_nbuckets(&self) -> int {
        self.buckets@.len() as int
    }

    /// The bucket that abstract key `k` belongs to (meaningful only when at
    /// least one bucket exists).
    closed spec fn bucket_of(&self, k: <K as View>::V) -> int {
        (K::spec_hash(k) as usize) as int % self.spec_nbuckets()
    }

    /// The chain that abstract key `k` belongs to.
    closed spec fn chain(&self, k: <K as View>::V) -> Seq<(K, V)> {
        self.buckets@[self.bucket_of(k)].items@
    }

    /// Every pair sits in the bucket its key hashes to.
    closed spec fn placed(&self) -> bool {
        forall|b: int, i: int|
            0 <= b < self.buckets@.len() && 0 <= i < self.buckets@[b].items@.len()
                ==> self.bucket_of((#[trigger] self.buckets@[b].items@[i]).0@) == b
    }

    /// No bucket holds two pairs with the same abstract key.
    closed spec fn chains_distinct(&self) -> bool {
        forall|b: int, i: int, j: int|
            0 <= b < self.buckets@.len() && 0 <= i < self.buckets@[b].items@.len() && 0 <= j
                < self.buckets@[b].items@.len() && i != j
                ==> (#[trigger] self.buckets@[b].items@[i]).0@
                != (#[trigger] self.buckets@[b].items@[j]).0@
    }

    /// The table's internal invariant: pairs are placed by hash, abstract keys
    /// are unique, and the live-entry count equals the abstract map's size.
    pub closed spec fn wf(&self) -> bool {
        &&& self.placed()
        &&& self.chains_distinct()
        &&& self@.dom().finite()
        &&& self.items == self@.len()
    }

    /// Creates an empty table; no bucket is allocated yet.
    pub fn new() -> (m: Self)
        ensures
            m.wf(),
            m@ == Map::<<K as View>::V, V>::empty(),
            m.spec_nbuckets() == 0,
    {
        let m = HashMap { buckets: Vec::new(), items: 0 };
        proof {
            assert(m@ =~= Map::<<K as View>::V, V>::empty());
        }
        m
    }

    /// How many pairs the table holds.
    pub fn len(&self) -> (n: usize)
        requires
            self.wf(),
        ensures
            n == self@.len(),
    {
        self.items
    }

    /// Whether the table holds no pair.
    pub fn is_empty(&self) -> (r: bool)
        requires
            self.wf(),
        ensures
            r == (self@.len() == 0),
    {
        self.items == 0
    }

    /// If `k`'s chain holds `k` at position `i`, the abstract map holds `k`
    /// with that pair's value.
    proof fn lemma_chain_value(&self, k: <K as View>::V, i: int)
        requires
            self.chains_distinct(),
            self.buckets@.len() > 0,
            0 <= i < self.chain(k).len(),
            self.chain(k)[i].0@ == k,
        ensures
            self@.contains_key(k),
            self@[k] == self.chain(k)[i].1,
    {
        assert(chain_has_key(self.chain(k), k));
        let j = chain_index_of(self.chain(k), k);
        assert(self.chain(k)[j].0@ == k);
        assert(j == i);
    }

    /// If `k`'s chain does not hold `k` (or there is no bucket), the abstract
    /// map does not hold `k`.
    proof fn lemma_chain_absent(&self, k: <K as View>::V)
        requires
            self.buckets@.len() > 0 ==> forall|i: int|
                0 <= i < self.chain(k).len() ==> (#[trigger] self.chain(k)[i]).0@ != k,
        ensures
            !self@.contains_key(k),
    {
    }
}

impl<K: TableKey, V> HashMap<K, V> {
    /// The index of the bucket a lookup key belongs to, or nothing when no
    /// bucket exists yet.
    fn bucket<Q: LookupKey<K>>(&self, key: &Q) -> (r: Option<usize>)
        ensures
            match r {
                Some(b) => self.buckets@.len() > 0 && b == self.bucket_of(key.abs()),
                None => self.buckets@.len() == 0,
            },
    {
        if self.buckets.len() == 0 {
            None
        } else {
            let h = key.view_hash();
            Some((h as usize) % self.buckets.len())
        }
    }

    /// Scans a chain for a pair whose key denotes the lookup key's abstract
    /// value and returns its position.
    fn find_in_chain<Q: LookupKey<K>>(items: &Vec<(K, V)>, key: &Q) -> (r: Option<usize>)
        ensures
            match r {
                Some(i) => i < items@.len() && items@[i as int].0@ == key.abs(),
                None => forall|i: int|
                    0 <= i < items@.len() ==> (#[trigger] items@[i]).0@ != key.abs(),
            },
    {
        let mut i: usize = 0;
        while i < items.len()
            invariant
                0 <= i <= items@.len(),
                forall|j: int| 0 <= j < i ==> (#[trigger] items@[j]).0@ != key.abs(),
            decreases items@.len() - i,
        {
            if key.eq_stored(&items[i].0) {
                return Some(i);
            }
            i += 1;
        }
        None
    }

    /// Looks the key up and returns a reference to its value, if present.
    /// The lookup key may be a borrowed form of the stored key type.
    pub fn get<'a, Q: LookupKey<K>>(&'a self, key: &Q) -> (r: Option<&'a V>)
        requires
            self.wf(),
        ensures
            match r {
                Some(v) => self@.contains_key(key.abs()) && *v == self@[key.abs()],
                None => !self@.contains_key(key.abs()),
            },
    {
        match self.bucket(key) {
            None => {
                proof {
                    self.lemma_chain_absent(key.abs());
                }
                None
            },
            Some(b) => {
                match Self::find_in_chain(&self.buckets[b].items, key) {
                    Some(i) => {
                        proof {
                            self.lemma_chain_value(key.abs(), i as int);
                        }
                        Some(&self.buckets[b].items[i].1)
                    },
                    None => {
                        proof {
                            self.lemma_chain_absent(key.abs());
                        }
                        None
                    },
                }
            },
        }
    }

    /// Grows the bucket sequence by the growth rule — one bucket where there
    /// was none, else double — and rehashes every pair into the bucket its key
    /// selects under the new count. The abstract map is unchanged.
    pub fn resize(&mut self)
        requires
            old(self).wf(),
        ensures
            final(self).wf(),
            final(self)@ == old(self)@,
            final(self).spec_nbuckets() == spec_grown(old(self).spec_nbuckets()),
    {
        let n = self.buckets.len();
        let target_size: usize = if n == 0 {
            1
        } else {
            match n.checked_mul(2) {
                Some(t) => t,
                None => usize::MAX,
            }
        };
        let mut new_buckets: Vec<Bucket<K, V>> = Vec::with_capacity(target_size);
        while new_buckets.len() < target_size
            invariant
                new_buckets@.len() <= target_size,
                forall|b: int|
                    0 <= b < new_buckets@.len() ==> (#[trigger] new_buckets@[b]).items@.len()
                        == 0,
            decreases target_size - new_buckets@.len(),
        {
            new_buckets.push(Bucket { items: Vec::new() });
        }
        core::mem::swap(&mut self.buckets, &mut new_buckets);
        let mut drained = new_buckets;
        proof {
            // Each pair of the drained buckets carries a binding of the
            // pre-resize map, and their keys are pairwise distinct.
            assert forall|b: int, i: int|
                0 <= b < drained@.len() && 0 <= i < drained@[b].items@.len() implies {
                let p = #[trigger] drained@[b].items@[i];
                &&& old(self)@.dom().contains(p.0@)
                &&& old(self)@[p.0@] == p.1
            } by {
                let p = drained@[b].items@[i];
                assert(old(self).bucket_of(p.0@) == b);
                old(self).lemma_chain_value(p.0@, i);
            };
            assert forall|b1: int, i1: int, b2: int, i2: int|
                0 <= b1 < drained@.len() && 0 <= i1 < drained@[b1].items@.len() && 0 <= b2
                    < drained@.len() && 0 <= i2 < drained@[b2].items@.len() && (b1 != b2 || i1
                    != i2) implies (#[trigger] drained@[b1].items@[i1]).0@
                != (#[trigger] drained@[b2].items@[i2]).0@ by {
                let p1 = drained@[b1].items@[i1];
                let p2 = drained@[b2].items@[i2];
                if p1.0@ == p2.0@ {
                    assert(old(self).bucket_of(p1.0@) == b1);
                    assert(old(self).bucket_of(p2.0@) == b2);
                }
            };
            assert forall|k: <K as View>::V| #[trigger] old(self)@.dom().contains(k)
                implies buckets_have_key(self.buckets@, k) || buckets_have_key(
                drained@,
                k,
            ) by {
                let i = choose|i: int|
                    0 <= i < old(self).chain(k).len() && old(self).chain(k)[i].0@ == k;
                assert(0 <= old(self).bucket_of(k) < drained@.len());
                assert(drained@[old(self).bucket_of(k)].items@[i].0@ == k);
            };
        }
        while drained.len() > 0
            invariant
                self.buckets@.len() == target_size,
                target_size >= 1,
                self.items == old(self).items,
                self.placed(),
                self.chains_distinct(),
                old(self)@.dom().finite(),
                old(self).items == old(self)@.len(),
                forall|b: int, i: int|
                    0 <= b < self.buckets@.len() && 0 <= i < self.buckets@[b].items@.len()
                        ==> {
                        let p = #[trigger] self.buckets@[b].items@[i];
                        &&& old(self)@.dom().contains(p.0@)
                        &&& old(self)@[p.0@] == p.1
                    },
                forall|b: int, i: int|
                    0 <= b < drained@.len() && 0 <= i < drained@[b].items@.len() ==> {
                        let p = #[trigger] drained@[b].items@[i];
                        &&& old(self)@.dom().contains(p.0@)
                        &&& old(self)@[p.0@] == p.1
                    },
                forall|k: <K as View>::V| #[trigger] old(self)@.dom().contains(k)
                    ==> buckets_have_key(self.buckets@, k) || buckets_have_key(drained@, k),
                forall|b: int, i: int|
                    0 <= b < drained@.len() && 0 <= i < drained@[b].items@.len()
                        ==> !buckets_have_key(
                        self.buckets@,
                        (#[trigger] drained@[b].items@[i]).0@,
                    ),
                forall|b1: int, i1: int, b2: int, i2: int|
                    0 <= b1 < drained@.len() && 0 <= i1 < drained@[b1].items@.len() && 0 <= b2
                        < drained@.len() && 0 <= i2 < drained@[b2].items@.len() && (b1 != b2
                        || i1 != i2) ==> (#[trigger] drained@[b1].items@[i1]).0@
                        != (#[trigger] drained@[b2].items@[i2]).0@,
            decreases drained@.len(), drained@[drained@.len() - 1].items@.len(),
        {
            let ghost pre_drained = drained@;
            let bi = drained.len() - 1;
            let popped = drained[bi].items.pop();
            match popped {
                None => {
                    drained.pop();
                    proof {
                        assert(pre_drained[bi as int].items@.len() == 0);
                        assert(drained@ =~= pre_drained.drop_last());
                        assert forall|k: <K as View>::V| #[trigger] old(self)@.dom().contains(k)
                            implies buckets_have_key(self.buckets@, k) || buckets_have_key(
                            drained@,
                            k,
                        ) by {
                            if !buckets_have_key(self.buckets@, k) {
                                let (b, i) = choose|b: int, i: int|
                                    0 <= b < pre_drained.len() && 0 <= i
                                        < pre_drained[b].items@.len()
                                        && pre_drained[b].items@[i].0@ == k;
                                assert(b < bi as int);
                                assert(drained@[b].items@[i].0@ == k);
                            }
                        };
                    }
                },
                Some(pair) => {
                    let ghost pre_self = *self;
                    let ghost kv = pair.0@;
                    let ghost last = pre_drained[bi as int].items@.len() - 1;
                    proof {
                        assert(drained@ =~= pre_drained.update(
                            bi as int,
                            Bucket { items: drained@[bi as int].items },
                        ));
                        assert(drained@[bi as int].items@
                            =~= pre_drained[bi as int].items@.drop_last());
                        assert(pair == pre_drained[bi as int].items@[last]);
                        // the moved key is not among the pairs already rehashed
                        assert(!buckets_have_key(pre_self.buckets@, kv));
                    }
                    let idx = (pair.0.hash_code() as usize) % self.buckets.len();
                    self.buckets[idx].items.push(pair);
                    proof {
                        let cur = self.buckets@;
                        let pre = pre_self.buckets@;
                        assert(cur =~= pre.update(
                            idx as int,
                            Bucket { items: cur[idx as int].items },
                        ));
                        assert(cur[idx as int].items@ =~= pre[idx as int].items@.push(pair));
                        assert(self.bucket_of(kv) == idx);
                        assert forall|b: int, i: int|
                            0 <= b < cur.len() && 0 <= i < cur[b].items@.len()
                            implies self.bucket_of((#[trigger] cur[b].items@[i]).0@) == b by {
                            if b == idx as int && i == pre[b].items@.len() {
                            } else {
                                assert(cur[b].items@[i] == pre[b].items@[i]);
                                assert(pre_self.bucket_of(pre[b].items@[i].0@) == b);
                            }
                        };
                        assert forall|b: int, i: int, j: int|
                            0 <= b < cur.len() && 0 <= i < cur[b].items@.len() && 0 <= j
                                < cur[b].items@.len() && i != j
                            implies (#[trigger] cur[b].items@[i]).0@
                            != (#[trigger] cur[b].items@[j]).0@ by {
                            if b == idx as int && i == pre[b].items@.len() {
                                assert(cur[b].items@[j] == pre[b].items@[j]);
                            } else if b == idx as int && j == pre[b].items@.len() {
                                assert(cur[b].items@[i] == pre[b].items@[i]);
                            } else {
                                assert(cur[b].items@[i] == pre[b].items@[i]);
                                assert(cur[b].items@[j] == pre[b].items@[j]);
                            }
                        };
                        assert forall|k: <K as View>::V| #[trigger] old(self)@.dom().contains(k)
                            implies buckets_have_key(cur, k) || buckets_have_key(
                            drained@,
                            k,
                        ) by {
                            if k == kv {
                                assert(cur[idx as int].items@[pre[idx as int].items@.len()
                                    as int].0@ == k);
                            } else if buckets_have_key(pre, k) {
                                let (b, i) = choose|b: int, i: int|
                                    0 <= b < pre.len() && 0 <= i < pre[b].items@.len()
                                        && pre[b].items@[i].0@ == k;
                                assert(cur[b].items@[i].0@ == k);
                            } else {
                                let (b, i) = choose|b: int, i: int|
                                    0 <= b < pre_drained.len() && 0 <= i
                                        < pre_drained[b].items@.len()
                                        && pre_drained[b].items@[i].0@ == k;
                                assert(!(b == bi as int && i == last));
                                assert(drained@[b].items@[i].0@ == k);
                            }
                        };
                        assert forall|b: int, i: int|
                            0 <= b < drained@.len() && 0 <= i < drained@[b].items@.len()
                            implies !buckets_have_key(
                            cur,
                            (#[trigger] drained@[b].items@[i]).0@,
                        ) by {
                            let x = drained@[b].items@[i].0@;
                            assert(pre_drained[b].items@[i].0@ == x);
                            assert(x != kv);
                            if buckets_have_key(cur, x) {
                                let (b2, i2) = choose|b2: int, i2: int|
                                    0 <= b2 < cur.len() && 0 <= i2 < cur[b2].items@.len()
                                        && cur[b2].items@[i2].0@ == x;
                                assert(!(b2 == idx as int && i2 == pre[b2].items@.len()));
                                assert(pre[b2].items@[i2].0@ == x);
                                assert(buckets_have_key(pre, x));
                            }
                        };
                    }
                },
            }
        }
        proof {
            assert forall|k: <K as View>::V| #[trigger] old(self)@.dom().contains(k)
                implies self@.dom().contains(k) && self@[k] == old(self)@[k] by {
                assert(buckets_have_key(self.buckets@, k));
                let (b, i) = choose|b: int, i: int|
                    0 <= b < self.buckets@.len() && 0 <= i < self.buckets@[b].items@.len()
                        && self.buckets@[b].items@[i].0@ == k;
                assert(self.bucket_of(k) == b);
                self.lemma_chain_value(k, i);
            };
            assert forall|k: <K as View>::V| #[trigger] self@.dom().contains(k)
                implies old(self)@.dom().contains(k) by {
                let i = choose|i: int|
                    0 <= i < self.chain(k).len() && self.chain(k)[i].0@ == k;
                assert(0 <= self.bucket_of(k) < self.buckets@.len());
                assert(self.buckets@[self.bucket_of(k)].items@[i].0@ == k);
            };
            assert(self@ =~= old(self)@);
        }
    }

    /// Whether the table must grow before the pending insertion: no bucket
    /// exists yet, or the insertion would push the load factor past 3/4.
    fn needs_grow(&self) -> (r: bool)
        ensures
            r == (self.buckets@.len() == 0 || 4 * (self.items + 1) > 3 * self.buckets@.len()),
    {
        self.buckets.len() == 0 || 4u128 * (self.items as u128 + 1) > 3u128 * (
        self.buckets.len() as u128)
    }

    /// Inserts the pair, growing first if the load factor calls for it. When
    /// the key is already bound, replaces the value in place and returns the
    /// previous one; otherwise appends the pair to its chain.
    pub fn insert(&mut self, key: K, value: V) -> (r: Option<V>)
        requires
            old(self).wf(),
            old(self)@.len() < usize::MAX,
        ensures
            final(self).wf(),
            final(self)@ == old(self)@.insert(key@, value),
            match r {
                Some(prev) => old(self)@.contains_key(key@) && prev == old(self)@[key@]
                    && final(self)@.len() == old(self)@.len(),
                None => !old(self)@.contains_key(key@) && final(self)@.len() == old(self)@.len()
                    + 1,
            },
    {
        if self.needs_grow() {
            self.resize();
        }
        let ghost mid = *self;
        let idx = (key.hash_code() as usize) % self.buckets.len();
        proof {
            assert(mid.bucket_of(key@) == idx);
        }
        match Self::find_in_chain(&self.buckets[idx].items, &key) {
            Some(i) => {
                proof {
                    mid.lemma_chain_value(key@, i as int);
                }
                let mut tmp = value;
                core::mem::swap(&mut self.buckets[idx].items[i].1, &mut tmp);
                proof {
                    self.lemma_after_chain_update(mid, idx as int, key@, value, i as int);
                }
                Some(tmp)
            },
            None => {
                self.buckets[idx].items.push((key, value));
                self.items = self.items + 1;
                proof {
                    self.lemma_after_chain_push(mid, idx as int, key@, value);
                }
                None
            },
        }
    }

    /// After replacing the value of the pair at position `i` of `k`'s chain,
    /// the abstract map is the old one with `k` bound to the new value.
    proof fn lemma_after_chain_update(
        &self,
        pre: Self,
        idx: int,
        k: <K as View>::V,
        value: V,
        i: int,
    )
        requires
            pre.wf(),
            pre.buckets@.len() > 0,
            idx == pre.bucket_of(k),
            0 <= i < pre.buckets@[idx].items@.len(),
            pre.buckets@[idx].items@[i].0@ == k,
            self.items == pre.items,
            self.buckets@.len() == pre.buckets@.len(),
            forall|b: int|
                0 <= b < self.buckets@.len() && b != idx ==> #[trigger] self.buckets@[b]
                    == pre.buckets@[b],
            self.buckets@[idx].items@ == pre.buckets@[idx].items@.update(
                i,
                (pre.buckets@[idx].items@[i].0, value),
            ),
        ensures
            self.wf(),
            self@ == pre@.insert(k, value),
            self@.len() == pre@.len(),
    {
        let cur = self.buckets@;
        let old_b = pre.buckets@;
        assert forall|b: int, j: int|
            0 <= b < cur.len() && 0 <= j < cur[b].items@.len() implies self.bucket_of(
            (#[trigger] cur[b].items@[j]).0@,
        ) == b && cur[b].items@[j].0@ == old_b[b].items@[j].0@ by {
            assert(pre.bucket_of(old_b[b].items@[j].0@) == b);
        };
        assert(self.chains_distinct());
        assert forall|x: <K as View>::V| true implies #[trigger] self@.contains_key(x)
            == pre@.insert(k, value).contains_key(x) && (self@.contains_key(x)
            ==> self@[x] == pre@.insert(k, value)[x]) by {
            if x == k {
                assert(chain_has_key(self.chain(k), k)) by {
                    assert(self.chain(k)[i].0@ == k);
                }
                self.lemma_chain_value(k, i);
            } else {
                if chain_has_key(pre.chain(x), x) {
                    let j = choose|j: int|
                        0 <= j < pre.chain(x).len() && pre.chain(x)[j].0@ == x;
                    pre.lemma_chain_value(x, j);
                    assert(self.chain(x)[j].0@ == x && self.chain(x)[j].1 == pre.chain(x)[j].1);
                    self.lemma_chain_value(x, j);
                } else {
                    assert forall|j: int|
                        0 <= j < self.chain(x).len() implies (#[trigger] self.chain(x)[j]).0@
                        != x by {
                        assert(self.chain(x)[j].0@ == pre.chain(x)[j].0@);
                    };
                    self.lemma_chain_absent(x);
                    pre.lemma_chain_absent(x);
                }
            }
        };
        assert(self@ =~= pre@.insert(k, value));
        assert(self@.dom() =~= pre@.dom());
    }

    /// After appending a pair with a key absent from its chain, the abstract
    /// map is the old one with that key newly bound.
    proof fn lemma_after_chain_push(&self, pre: Self, idx: int, k: <K as View>::V, value: V)
        requires
            pre.wf(),
            pre.buckets@.len() > 0,
            idx == pre.bucket_of(k),
            forall|j: int|
                0 <= j < pre.buckets@[idx].items@.len()
                    ==> (#[trigger] pre.buckets@[idx].items@[j]).0@ != k,
            self.items == pre.items + 1,
            self.buckets@.len() == pre.buckets@.len(),
            forall|b: int|
                0 <= b < self.buckets@.len() && b != idx ==> #[trigger] self.buckets@[b]
                    == pre.buckets@[b],
            exists|key: K|
                key@ == k && self.buckets@[idx].items@ == pre.buckets@[idx].items@.push(
                    (key, value),
                ),
        ensures
            self.wf(),
            self@ == pre@.insert(k, value),
            self@.len() == pre@.len() + 1,
            !pre@.contains_key(k),
    {
        let cur = self.buckets@;
        let old_b = pre.buckets@;
        let n = old_b[idx].items@.len() as int;
        pre.lemma_chain_absent(k);
        assert forall|b: int, j: int|
            0 <= b < cur.len() && 0 <= j < cur[b].items@.len() implies self.bucket_of(
            (#[trigger] cur[b].items@[j]).0@,
        ) == b by {
            if b == idx && j == n {
            } else {
                assert(cur[b].items@[j] == old_b[b].items@[j]);
                assert(pre.bucket_of(old_b[b].items@[j].0@) == b);
            }
        };
        assert forall|b: int, i: int, j: int|
            0 <= b < cur.len() && 0 <= i < cur[b].items@.len() && 0 <= j < cur[b].items@.len()
                && i != j implies (#[trigger] cur[b].items@[i]).0@ != (#[trigger] cur[b].items@[j]).0@ by {
            if b == idx && i == n {
                assert(cur[b].items@[j] == old_b[b].items@[j]);
            } else if b == idx && j == n {
                assert(cur[b].items@[i] == old_b[b].items@[i]);
            } else {
                assert(cur[b].items@[i] == old_b[b].items@[i]);
                assert(cur[b].items@[j] == old_b[b].items@[j]);
            }
        };
        assert forall|x: <K as View>::V| true implies #[trigger] self@.contains_key(x)
            == pre@.insert(k, value).contains_key(x) && (self@.contains_key(x)
            ==> self@[x] == pre@.insert(k, value)[x]) by {
            if x == k {
                assert(self.chain(k)[n].0@ == k);
                self.lemma_chain_value(k, n);
            } else {
                if chain_has_key(pre.chain(x), x) {
                    let j = choose|j: int|
                        0 <= j < pre.chain(x).len() && pre.chain(x)[j].0@ == x;
                    pre.lemma_chain_value(x, j);
                    assert(self.chain(x)[j].0@ == x && self.chain(x)[j].1 == pre.chain(x)[j].1);
                    self.lemma_chain_value(x, j);
                } else {
                    assert forall|j: int|
                        0 <= j < self.chain(x).len() implies (#[trigger] self.chain(x)[j]).0@
                        != x by {
                        if !(self.bucket_of(x) == idx && j == n) {
                            assert(self.chain(x)[j].0@ == pre.chain(x)[j].0@);
                        }
                    };
                    self.lemma_chain_absent(x);
                    pre.lemma_chain_absent(x);
                }
            }
        };
        assert(self@ =~= pre@.insert(k, value));
        assert(self@.dom() =~= pre@.dom().insert(k));
    }

    /// Removes the key's pair from its chain by swapping the chain's last pair
    /// into its place, and returns the removed value. Never shrinks.
    pub fn remove<Q: LookupKey<K>>(&mut self, key: &Q) -> (r: Option<V>)
        requires
            old(self).wf(),
        ensures
            final(self).wf(),
            final(self)@ == old(self)@.remove(key.abs()),
            match r {
                Some(v) => old(self)@.contains_key(key.abs()) && v == old(self)@[key.abs()]
                    && final(self)@.len() == old(self)@.len() - 1,
                None => !old(self)@.contains_key(key.abs()) && final(self)@ == old(self)@,
            },
    {
        let b_opt = self.bucket(key);
        match b_opt {
            None => {
                proof {
                    self.lemma_chain_absent(key.abs());
                    assert(old(self)@.remove(key.abs()) =~= old(self)@);
                }
                None
            },
            Some(b) => {
                match Self::find_in_chain(&self.buckets[b].items, key) {
                    None => {
                        proof {
                            self.lemma_chain_absent(key.abs());
                            assert(old(self)@.remove(key.abs()) =~= old(self)@);
                        }
                        None
                    },
                    Some(i) => {
                        proof {
                            old(self).lemma_chain_value(key.abs(), i as int);
                        }
                        let pair = self.buckets[b].items.swap_remove(i);
                        self.items = self.items - 1;
                        proof {
                            self.lemma_after_chain_swap_remove(
                                *old(self),
                                b as int,
                                key.abs(),
                                i as int,
                            );
                        }
                        Some(pair.1)
                    },
                }
            },
        }
    }

    /// After a swap-with-last removal of `k`'s pair, the abstract map is the
    /// old one without `k`.
    proof fn lemma_after_chain_swap_remove(&self, pre: Self, idx: int, k: <K as View>::V, i: int)
        requires
            pre.wf(),
            pre.buckets@.len() > 0,
            idx == pre.bucket_of(k),
            0 <= i < pre.buckets@[idx].items@.len(),
            pre.buckets@[idx].items@[i].0@ == k,
            self.items == pre.items - 1,
            self.buckets@.len() == pre.buckets@.len(),
            forall|b: int|
                0 <= b < self.buckets@.len() && b != idx ==> #[trigger] self.buckets@[b]
                    == pre.buckets@[b],
            self.buckets@[idx].items@ == pre.buckets@[idx].items@.update(
                i,
                pre.buckets@[idx].items@.last(),
            ).drop_last(),
        ensures
            self.wf(),
            self@ == pre@.remove(k),
            self@.len() == pre@.len() - 1,
    {
        let cur = self.buckets@;
        let old_b = pre.buckets@;
        let n = old_b[idx].items@.len() as int;
        // position j of the new chain holds the pair from this old position
        let src = |j: int| if j == i { n - 1 } else { j };
        assert forall|b: int, j: int|
            0 <= b < cur.len() && 0 <= j < cur[b].items@.len() implies self.bucket_of(
            (#[trigger] cur[b].items@[j]).0@,
        ) == b by {
            if b == idx {
                assert(cur[b].items@[j] == old_b[b].items@[src(j)]);
                assert(pre.bucket_of(old_b[b].items@[src(j)].0@) == b);
            } else {
                assert(pre.bucket_of(old_b[b].items@[j].0@) == b);
            }
        };
        assert forall|b: int, j1: int, j2: int|
            0 <= b < cur.len() && 0 <= j1 < cur[b].items@.len() && 0 <= j2 < cur[b].items@.len()
                && j1 != j2 implies (#[trigger] cur[b].items@[j1]).0@
            != (#[trigger] cur[b].items@[j2]).0@ by {
            if b == idx {
                assert(cur[b].items@[j1] == old_b[b].items@[src(j1)]);
                assert(cur[b].items@[j2] == old_b[b].items@[src(j2)]);
                assert(src(j1) != src(j2));
            }
        };
        assert forall|x: <K as View>::V| true implies #[trigger] self@.contains_key(x)
            == pre@.remove(k).contains_key(x) && (self@.contains_key(x) ==> self@[x]
            == pre@.remove(k)[x]) by {
            if x == k {
                assert forall|j: int|
                    0 <= j < self.chain(k).len() implies (#[trigger] self.chain(k)[j]).0@
                    != k by {
                    assert(self.chain(k)[j] == old_b[idx].items@[src(j)]);
                    assert(src(j) != i);
                };
                self.lemma_chain_absent(k);
            } else {
                if chain_has_key(pre.chain(x), x) {
                    let j = choose|j: int|
                        0 <= j < pre.chain(x).len() && pre.chain(x)[j].0@ == x;
                    pre.lemma_chain_value(x, j);
                    if pre.bucket_of(x) == idx {
                        assert(j != i);
                        let j2 = if j == n - 1 { i } else { j };
                        assert(self.chain(x)[j2] == pre.chain(x)[j]);
                        self.lemma_chain_value(x, j2);
                    } else {
                        assert(self.chain(x)[j] == pre.chain(x)[j]);
                        self.lemma_chain_value(x, j);
                    }
                } else {
                    assert forall|j: int|
                        0 <= j < self.chain(x).len() implies (#[trigger] self.chain(x)[j]).0@
                        != x by {
                        if self.bucket_of(x) == idx {
                            assert(self.chain(x)[j] == old_b[idx].items@[src(j)]);
                        } else {
                            assert(self.chain(x)[j] == pre.chain(x)[j]);
                        }
                    };
                    self.lemma_chain_absent(x);
                    pre.lemma_chain_absent(x);
                }
            }
        };
        assert(self@ =~= pre@.remove(k));
        assert(self@.dom() =~= pre@.dom().remove(k));
    }

    /// Whether the key is present; defined as `get(key).is_some()`.
    pub fn contains_key<Q: LookupKey<K>>(&self, key: &Q) -> (r: bool)
        requires
            self.wf(),
        ensures
            r == self@.contains_key(key.abs()),
    {
        self.get(key).is_some()
    }
}

/// A handle to the slot of an existing pair: the bucket that holds it and the
/// pair's position within that bucket's chain.
pub struct OccupiedEntry {
    bucket: usize,
    at: usize,
}

/// A key that is not in the table yet, together with the bucket it belongs to.
pub struct VacantEntry<K> {
    key: K,
    bucket: usize,
}

/// Where a key's pair is, or where it would go: what [`HashMap::entry`]
/// returns. The entry stays meaningful as long as the table is not otherwise
/// mutated; its consumers state that as a precondition.
pub enum Entry<K> {
    Occupied(OccupiedEntry),
    Vacant(VacantEntry<K>),
}

impl OccupiedEntry {
    /// Whether the handle points inside table `m`.
    pub closed spec fn fits<K: TableKey, V>(self, m: HashMap<K, V>) -> bool {
        &&& m.buckets@.len() > 0
        &&& (self.bucket as int) < m.buckets@.len()
        &&& (self.at as int) < m.buckets@[self.bucket as int].items@.len()
    }

    /// The abstract key stored in the slot this handle points at.
    pub closed spec fn slot_key<K: TableKey, V>(self, m: HashMap<K, V>) -> <K as View>::V {
        m.buckets@[self.bucket as int].items@[self.at as int].0@
    }
}

impl<K: TableKey> VacantEntry<K> {
    /// The key this vacant entry will insert.
    pub closed spec fn spec_key(self) -> <K as View>::V {
        self.key@
    }

    /// Whether the recorded bucket is the one the key belongs to in table `m`,
    /// the key being absent from `m`.
    pub closed spec fn fits<V>(self, m: HashMap<K, V>) -> bool {
        &&& m.buckets@.len() > 0
        &&& self.bucket as int == m.bucket_of(self.key@)
        &&& !m@.contains_key(self.key@)
    }

    /// Appends the pair to the recorded bucket's chain and hands back
    /// exclusive access to the stored value: the only way a vacant entry
    /// becomes a stored pair. Consumes the entry.
    pub fn insert<'a, V>(self, m: &'a mut HashMap<K, V>, value: V) -> (r: &'a mut V)
        requires
            old(m).wf(),
            self.fits(*old(m)),
            old(m)@.len() < usize::MAX,
        ensures
            *r == value,
            final(m).wf(),
            final(m)@ == old(m)@.insert(self.spec_key(), *final(r)),
            final(m)@.len() == old(m)@.len() + 1,
    {
        proof {
            assert(0 <= old(m).bucket_of(self.key@) < old(m).buckets@.len());
            assert(!chain_has_key(old(m).chain(self.key@), self.key@));
        }
        let bucket = self.bucket;
        let ghost k = self.key@;
        m.buckets[bucket].items.push((self.key, value));
        m.items = m.items + 1;
        let ghost mid = *m;
        let ghost b = bucket as int;
        let ghost at = mid.buckets@[b].items@.len() - 1;
        let n = m.buckets[bucket].items.len();
        let r = &mut m.buckets[bucket].items[n - 1].1;
        proof {
            assert forall|m2: HashMap<K, V>|
                #![trigger m2.wf()]
                m2.items == mid.items && m2.buckets@.len() == mid.buckets@.len() && (forall|b2: int|
                    0 <= b2 < m2.buckets@.len() && b2 != b ==> #[trigger] m2.buckets@[b2]
                        == mid.buckets@[b2]) && m2.buckets@[b].items@
                    == mid.buckets@[b].items@.update(
                    at,
                    (mid.buckets@[b].items@[at].0, m2.buckets@[b].items@[at].1),
                ) implies m2.wf() && m2@ == old(m)@.insert(k, m2.buckets@[b].items@[at].1)
                && m2@.len() == old(m)@.len() + 1 by {
                let v2 = m2.buckets@[b].items@[at].1;
                assert(m2.buckets@[b].items@ =~= old(m).buckets@[b].items@.push(
                    (mid.buckets@[b].items@[at].0, v2),
                ));
                m2.lemma_after_chain_push(*old(m), b, k, v2);
            };
        }
        r
    }
}

impl OccupiedEntry {
    /// Exclusive access to the value of the pair this handle points at. The
    /// key does not move, so the table keeps its shape whatever the caller
    /// writes through the reference.
    pub fn value_mut<'a, K: TableKey, V>(self, m: &'a mut HashMap<K, V>) -> (r: &'a mut V)
        requires
            old(m).wf(),
            self.fits(*old(m)),
        ensures
            *r == old(m)@[self.slot_key(*old(m))],
            old(m)@.contains_key(self.slot_key(*old(m))),
            final(m).wf(),
            final(m)@ == old(m)@.insert(self.slot_key(*old(m)), *final(r)),
            final(m)@.len() == old(m)@.len(),
    {
        let ghost pre = *m;
        let ghost k = self.slot_key(*old(m));
        let ghost b = self.bucket as int;
        let ghost at = self.at as int;
        proof {
            assert(pre.bucket_of(k) == b);
            pre.lemma_chain_value(k, at);
        }
        let bucket = self.bucket;
        let slot = self.at;
        let r = &mut m.buckets[bucket].items[slot].1;
        proof {
            assert forall|m2: HashMap<K, V>|
                #![trigger m2.wf()]
                m2.items == pre.items && m2.buckets@.len() == pre.buckets@.len() && (forall|b2: int|
                    0 <= b2 < m2.buckets@.len() && b2 != b ==> #[trigger] m2.buckets@[b2]
                        == pre.buckets@[b2]) && m2.buckets@[b].items@
                    == pre.buckets@[b].items@.update(
                    at,
                    (pre.buckets@[b].items@[at].0, m2.buckets@[b].items@[at].1),
                ) implies m2.wf() && m2@ == old(m)@.insert(k, m2.buckets@[b].items@[at].1)
                && m2@.len() == old(m)@.len() by {
                m2.lemma_after_chain_update(pre, b, k, m2.buckets@[b].items@[at].1, at);
            };
        }
        r
    }
}

impl<K: TableKey> Entry<K> {
    /// The abstract key this entry stands for, read against table `m`.
    pub closed spec fn entry_key<V>(self, m: HashMap<K, V>) -> <K as View>::V {
        match self {
            Entry::Occupied(o) => o.slot_key(m),
            Entry::Vacant(v) => v.spec_key(),
        }
    }

    /// Whether this entry describes table `m`: an occupied entry points at a
    /// slot of `m`, a vacant one records an absent key and its target bucket.
    pub closed spec fn describes<V>(self, m: HashMap<K, V>) -> bool {
        match self {
            Entry::Occupied(o) => o.fits(m),
            Entry::Vacant(v) => v.fits(m),
        }
    }

    /// Hands back exclusive access to the key's value: the existing one for an
    /// occupied entry (the given value is dropped), a newly stored copy of the
    /// given value for a vacant one.
    pub fn or_insert<'a, V>(self, m: &'a mut HashMap<K, V>, value: V) -> (r: &'a mut V)
        requires
            old(m).wf(),
            self.describes(*old(m)),
            old(m)@.len() < usize::MAX,
        ensures
            final(m).wf(),
            *r == (if self is Occupied {
                old(m)@[self.entry_key(*old(m))]
            } else {
                value
            }),
            final(m)@ == old(m)@.insert(self.entry_key(*old(m)), *final(r)),
            final(m)@.len() == old(m)@.len() + (if self is Occupied {
                0int
            } else {
                1int
            }),
            self is Occupied <==> old(m)@.contains_key(self.entry_key(*old(m))),
    {
        match self {
            Entry::Occupied(o) => o.value_mut(m),
            Entry::Vacant(v) => v.insert(m, value),
        }
    }

    /// Like [`Entry::or_insert`], but the value is produced lazily: the
    /// producer is invoked only on the vacant path — its precondition is not
    /// even required when the entry is occupied — and exactly once there.
    pub fn or_insert_with<'a, V, F: FnOnce() -> V>(self, m: &'a mut HashMap<K, V>, maker: F) -> (r:
        &'a mut V)
        requires
            old(m).wf(),
            self.describes(*old(m)),
            old(m)@.len() < usize::MAX,
            self is Vacant ==> maker.requires(()),
        ensures
            final(m).wf(),
            final(m)@ == old(m)@.insert(self.entry_key(*old(m)), *final(r)),
            self is Occupied ==> *r == old(m)@[self.entry_key(*old(m))] && final(m)@.len()
                == old(m)@.len(),
            self is Vacant ==> maker.ensures((), *r) && final(m)@.len() == old(m)@.len() + 1,
            self is Occupied <==> old(m)@.contains_key(self.entry_key(*old(m))),
    {
        match self {
            Entry::Occupied(o) => o.value_mut(m),
            Entry::Vacant(v) => {
                let value = maker();
                v.insert(m, value)
            },
        }
    }

    /// Like [`Entry::or_insert`] with the value type's default value.
    pub fn or_default<'a, V: Default>(self, m: &'a mut HashMap<K, V>) -> (r: &'a mut V)
        requires
            old(m).wf(),
            self.describes(*old(m)),
            old(m)@.len() < usize::MAX,
        ensures
            final(m).wf(),
            final(m)@ == old(m)@.insert(self.entry_key(*old(m)), *final(r)),
            self is Occupied ==> *r == old(m)@[self.entry_key(*old(m))] && final(m)@.len()
                == old(m)@.len(),
            self is Vacant ==> final(m)@.len() == old(m)@.len() + 1,
            self is Occupied <==> old(m)@.contains_key(self.entry_key(*old(m))),
    {
        match self {
            Entry::Occupied(o) => o.value_mut(m),
            Entry::Vacant(v) => {
                let value = V::default();
                v.insert(m, value)
            },
        }
    }
}

impl<K: TableKey, V> HashMap<K, V> {
    /// Ensures capacity as if about to insert, then locates the key: a handle
    /// to its slot when present, else the key and its target bucket. The table
    /// itself is unchanged as a map.
    pub fn entry(&mut self, key: K) -> (e: Entry<K>)
        requires
            old(self).wf(),
        ensures
            final(self).wf(),
            final(self)@ == old(self)@,
            e.describes(*final(self)),
            e.entry_key(*final(self)) == key@,
            e is Occupied <==> old(self)@.contains_key(key@),
    {
        if self.needs_grow() {
            self.resize();
        }
        let idx = (key.hash_code() as usize) % self.buckets.len();
        proof {
            assert(self.bucket_of(key@) == idx);
        }
        match Self::find_in_chain(&self.buckets[idx].items, &key) {
            Some(i) => {
                proof {
                    self.lemma_chain_value(key@, i as int);
                }
                Entry::Occupied(OccupiedEntry { bucket: idx, at: i })
            },
            None => {
                proof {
                    self.lemma_chain_absent(key@);
                }
                Entry::Vacant(VacantEntry { key, bucket: idx })
            },
        }
    }
}

/// The tail of a chain from position `at` on; empty out of bounds.
spec fn chain_from<K, V>(s: Seq<(K, V)>, at: int) -> Seq<(K, V)> {
    if 0 <= at <= s.len() {
        s.skip(at)
    } else {
        Seq::empty()
    }
}

/// The pairs at and after position (`b`, `at`), in bucket-then-chain order.
spec fn pairs_from<K, V>(bs: Seq<Bucket<K, V>>, b: int, at: int) -> Seq<(K, V)>
    decreases bs.len() - b,
{
    if 0 <= b < bs.len() {
        chain_from(bs[b].items@, at) + pairs_from(bs, b + 1, 0)
    } else {
        Seq::empty()
    }
}

/// A cursor over a table's pairs in bucket-then-chain order. Each call to
/// [`HashMap::iterate`] starts a fresh traversal; the order is not stable
/// across resizes or mutation.
pub struct Iter<'a, K, V> {
    map: &'a HashMap<K, V>,
    bucket: usize,
    at: usize,
}

impl<'a, K: TableKey, V> Iter<'a, K, V> {
    /// The table this cursor reads.
    pub closed spec fn table(&self) -> HashMap<K, V> {
        *self.map
    }

    /// The pairs the cursor has not yielded yet, in order.
    pub closed spec fn remaining(&self) -> Seq<(K, V)> {
        pairs_from(self.map.buckets@, self.bucket as int, self.at as int)
    }

    /// The cursor sits within the table's bounds.
    pub closed spec fn valid(&self) -> bool {
        &&& self.bucket as int <= self.map.buckets@.len()
        &&& (self.bucket as int) < self.map.buckets@.len() ==> self.at as int
            <= self.map.buckets@[self.bucket as int].items@.len()
        &&& self.bucket as int == self.map.buckets@.len() ==> self.at == 0
    }

    /// Yields the next pair in bucket-then-chain order, or nothing once every
    /// pair has been yielded.
    pub fn next(&mut self) -> (r: Option<(&'a K, &'a V)>)
        requires
            old(self).valid(),
        ensures
            final(self).valid(),
            final(self).table() == old(self).table(),
            match r {
                Some(kv) => {
                    &&& old(self).remaining().len() > 0
                    &&& *kv.0 == old(self).remaining()[0].0
                    &&& *kv.1 == old(self).remaining()[0].1
                    &&& final(self).remaining() == old(self).remaining().drop_first()
                },
                None => {
                    &&& old(self).remaining().len() == 0
                    &&& final(self).remaining().len() == 0
                },
            },
    {
        let map = self.map;
        loop
            invariant
                self.valid(),
                self.map == map,
                map == old(self).map,
                self.remaining() == old(self).remaining(),
            decreases map.buckets@.len() - self.bucket,
        {
            if self.bucket >= map.buckets.len() {
                return None;
            }
            if self.at < map.buckets[self.bucket].items.len() {
                let pair = &map.buckets[self.bucket].items[self.at];
                proof {
                    let bs = map.buckets@;
                    let b = self.bucket as int;
                    let at = self.at as int;
                    assert(self.remaining() == bs[b].items@.skip(at) + pairs_from(bs, b + 1, 0));
                    assert(self.remaining()[0] == bs[b].items@[at]);
                    assert(bs[b].items@.skip(at + 1) =~= bs[b].items@.skip(at).drop_first());
                    assert(bs[b].items@.skip(at + 1) + pairs_from(bs, b + 1, 0)
                        =~= self.remaining().drop_first());
                }
                self.at = self.at + 1;
                return Some((&pair.0, &pair.1));
            }
            proof {
                let bs = map.buckets@;
                let b = self.bucket as int;
                assert(chain_from(bs[b].items@, self.at as int) + pairs_from(bs, b + 1, 0)
                    =~= pairs_from(bs, b + 1, 0));
            }
            self.bucket = self.bucket + 1;
            self.at = 0;
        }
    }
}

impl<K: TableKey, V> HashMap<K, V> {
    /// Every pair the table holds, in bucket-then-chain order.
    pub closed spec fn all_pairs(&self) -> Seq<(K, V)> {
        pairs_from(self.buckets@, 0, 0)
    }

    /// Starts a fresh traversal of the table's pairs.
    pub fn iterate<'a>(&'a self) -> (it: Iter<'a, K, V>)
        ensures
            it.valid(),
            it.table() == *self,
            it.remaining() == self.all_pairs(),
    {
        Iter { map: self, bucket: 0, at: 0 }
    }
}

/// Each element of `pairs_from(bs, b, 0)` sits at some position of `bs` in a
/// bucket at or after `b`.
proof fn lemma_pairs_from_index<K: TableKey, V>(bs: Seq<Bucket<K, V>>, b: int, i: int)
    requires
        0 <= b,
        0 <= i < pairs_from(bs, b, 0).len(),
    ensures
        exists|b2: int, j: int|
            b <= b2 < bs.len() && 0 <= j < bs[b2].items@.len() && bs[b2].items@[j]
                == pairs_from(bs, b, 0)[i],
    decreases bs.len() - b,
{
    let head = chain_from(bs[b].items@, 0);
    assert(head =~= bs[b].items@);
    if i < head.len() {
        assert(bs[b].items@[i] == pairs_from(bs, b, 0)[i]);
    } else {
        lemma_pairs_from_index(bs, b + 1, i - head.len());
        let (b2, j) = choose|b2: int, j: int|
            b + 1 <= b2 < bs.len() && 0 <= j < bs[b2].items@.len() && bs[b2].items@[j]
                == pairs_from(bs, b + 1, 0)[i - head.len()];
        assert(bs[b2].items@[j] == pairs_from(bs, b, 0)[i]);
    }
}

/// The pair at any position of `bs` in a bucket at or after `b` occurs in
/// `pairs_from(bs, b, 0)`.
proof fn lemma_pairs_from_at<K: TableKey, V>(bs: Seq<Bucket<K, V>>, b: int, b2: int, j: int)
    requires
        0 <= b <= b2 < bs.len(),
        0 <= j < bs[b2].items@.len(),
    ensures
        exists|i: int|
            0 <= i < pairs_from(bs, b, 0).len() && pairs_from(bs, b, 0)[i] == bs[b2].items@[j],
    decreases b2 - b,
{
    let head = chain_from(bs[b].items@, 0);
    assert(head =~= bs[b].items@);
    if b == b2 {
        assert(pairs_from(bs, b, 0)[j] == bs[b2].items@[j]);
    } else {
        lemma_pairs_from_at(bs, b + 1, b2, j);
        let i = choose|i: int|
            0 <= i < pairs_from(bs, b + 1, 0).len() && #[trigger] pairs_from(bs, b + 1, 0)[i]
                == bs[b2].items@[j];
        assert(pairs_from(bs, b, 0)[head.len() + i] == bs[b2].items@[j]);
    }
}

impl<K: TableKey, V> HashMap<K, V> {
    /// The abstract keys of the pairs at and after bucket `b` are pairwise
    /// distinct: within a bucket by the chain invariant, across buckets
    /// because placement is a function of the key.
    proof fn lemma_pairs_from_distinct(&self, b: int)
        requires
            self.placed(),
            self.chains_distinct(),
            0 <= b,
        ensures
            forall|i: int, j: int|
                0 <= i < pairs_from(self.buckets@, b, 0).len() && 0 <= j < pairs_from(
                    self.buckets@,
                    b,
                    0,
                ).len() && i != j ==> (#[trigger] pairs_from(self.buckets@, b, 0)[i]).0@
                    != (#[trigger] pairs_from(self.buckets@, b, 0)[j]).0@,
        decreases self.buckets@.len() - b,
    {
        let bs = self.buckets@;
        if b < bs.len() {
            self.lemma_pairs_from_distinct(b + 1);
            let head = chain_from(bs[b].items@, 0);
            assert(head =~= bs[b].items@);
            assert forall|i: int, j: int|
                0 <= i < pairs_from(bs, b, 0).len() && 0 <= j < pairs_from(bs, b, 0).len() && i
                    != j implies (#[trigger] pairs_from(bs, b, 0)[i]).0@
                != (#[trigger] pairs_from(bs, b, 0)[j]).0@ by {
                if i < head.len() && j < head.len() {
                    assert(pairs_from(bs, b, 0)[i] == bs[b].items@[i]);
                    assert(pairs_from(bs, b, 0)[j] == bs[b].items@[j]);
                } else if i < head.len() && j >= head.len() {
                    assert(pairs_from(bs, b, 0)[i] == bs[b].items@[i]);
                    assert(self.bucket_of(bs[b].items@[i].0@) == b);
                    lemma_pairs_from_index(bs, b + 1, j - head.len());
                    let (b2, j2) = choose|b2: int, j2: int|
                        b + 1 <= b2 < bs.len() && 0 <= j2 < bs[b2].items@.len()
                            && bs[b2].items@[j2] == pairs_from(bs, b + 1, 0)[j - head.len()];
                    assert(pairs_from(bs, b, 0)[j] == bs[b2].items@[j2]);
                    assert(self.bucket_of(bs[b2].items@[j2].0@) == b2);
                } else if i >= head.len() && j < head.len() {
                    assert(pairs_from(bs, b, 0)[j] == bs[b].items@[j]);
                    assert(self.bucket_of(bs[b].items@[j].0@) == b);
                    lemma_pairs_from_index(bs, b + 1, i - head.len());
                    let (b2, i2) = choose|b2: int, i2: int|
                        b + 1 <= b2 < bs.len() && 0 <= i2 < bs[b2].items@.len()
                            && bs[b2].items@[i2] == pairs_from(bs, b + 1, 0)[i - head.len()];
                    assert(pairs_from(bs, b, 0)[i] == bs[b2].items@[i2]);
                    assert(self.bucket_of(bs[b2].items@[i2].0@) == b2);
                } else {
                    assert(pairs_from(bs, b, 0)[i] == pairs_from(bs, b + 1, 0)[i - head.len()]);
                    assert(pairs_from(bs, b, 0)[j] == pairs_from(bs, b + 1, 0)[j - head.len()]);
                }
            };
        }
    }

    /// Law: one full traversal yields every live pair exactly once. The
    /// traversal order holds exactly `len()` pairs, their abstract keys are
    /// pairwise distinct, and a pair `(k, v)` occurs precisely when the
    /// table's abstract map binds `k` to `v`.
    pub proof fn lemma_iteration_complete(&self)
        requires
            self.wf(),
        ensures
            self.all_pairs().len() == self@.len(),
            forall|i: int, j: int|
                0 <= i < self.all_pairs().len() && 0 <= j < self.all_pairs().len() && i != j
                    ==> (#[trigger] self.all_pairs()[i]).0@ != (#[trigger] self.all_pairs()[j]).0@,
            forall|k: <K as View>::V, v: V| #[trigger]
                self@.contains_pair(k, v) <==> exists|i: int|
                    0 <= i < self.all_pairs().len() && (#[trigger] self.all_pairs()[i]).0@ == k
                        && self.all_pairs()[i].1 == v,
    {
        let bs = self.buckets@;
        let ap = self.all_pairs();
        self.lemma_pairs_from_distinct(0);
        assert forall|k: <K as View>::V, v: V| #[trigger] self@.contains_pair(k, v)
            implies exists|i: int|
            0 <= i < ap.len() && (#[trigger] ap[i]).0@ == k && ap[i].1 == v by {
            let j = choose|j: int| 0 <= j < self.chain(k).len() && self.chain(k)[j].0@ == k;
            self.lemma_chain_value(k, j);
            lemma_pairs_from_at(bs, 0, self.bucket_of(k), j);
            let i = choose|i: int|
                0 <= i < pairs_from(bs, 0, 0).len() && pairs_from(bs, 0, 0)[i]
                    == bs[self.bucket_of(k)].items@[j];
            assert(ap[i].0@ == k && ap[i].1 == v);
        };
        assert forall|k: <K as View>::V, v: V|
            exists|i: int|
                0 <= i < ap.len() && (#[trigger] ap[i]).0@ == k && ap[i].1 == v
            implies #[trigger] self@.contains_pair(k, v) by {
            let i = choose|i: int| 0 <= i < ap.len() && (ap[i]).0@ == k && ap[i].1 == v;
            lemma_pairs_from_index(bs, 0, i);
            let (b2, j) = choose|b2: int, j: int|
                0 <= b2 < bs.len() && 0 <= j < bs[b2].items@.len() && bs[b2].items@[j] == ap[i];
            assert(self.bucket_of(k) == b2);
            self.lemma_chain_value(k, j);
        };
        // cardinality: the distinct keys of the traversal are exactly the domain
        let keys = ap.map_values(|p: (K, V)| p.0@);
        assert(keys.no_duplicates());
        keys.unique_seq_to_set();
        assert forall|x: <K as View>::V| #[trigger] keys.to_set().contains(x)
            implies self@.dom().contains(x) by {
            let i = choose|i: int| 0 <= i < keys.len() && keys[i] == x;
            lemma_pairs_from_index(bs, 0, i);
            let (b2, j) = choose|b2: int, j: int|
                0 <= b2 < bs.len() && 0 <= j < bs[b2].items@.len() && bs[b2].items@[j] == ap[i];
            assert(self.bucket_of(x) == b2);
            self.lemma_chain_value(x, j);
        };
        assert forall|x: <K as View>::V| #[trigger] self@.dom().contains(x)
            implies keys.to_set().contains(x) by {
            let j = choose|j: int| 0 <= j < self.chain(x).len() && self.chain(x)[j].0@ == x;
            lemma_pairs_from_at(bs, 0, self.bucket_of(x), j);
            let i = choose|i: int|
                0 <= i < pairs_from(bs, 0, 0).len() && pairs_from(bs, 0, 0)[i]
                    == bs[self.bucket_of(x)].items@[j];
            assert(keys[i] == x);
        };
        assert(keys.to_set() =~= self@.dom());
    }

    /// Law: after `insert(k, v)` the table yields `v` for `k`, and keeps doing
    /// so across operations on other keys, until `k` itself is overwritten or
    /// removed — stated over the abstract map that the contracts update.
    pub proof fn lemma_round_trip(
        m: Map<<K as View>::V, V>,
        k: <K as View>::V,
        v: V,
        other: <K as View>::V,
        w: V,
    )
        requires
            other != k,
        ensures
            m.insert(k, v).contains_key(k) && m.insert(k, v)[k] == v,
            m.insert(k, v).insert(other, w).contains_key(k) && m.insert(k, v).insert(other, w)[k]
                == v,
            m.insert(k, v).remove(other).contains_key(k) && m.insert(k, v).remove(other)[k] == v,
    {
    }

    /// Law: inserting `k` twice leaves `k` bound to the second value, the
    /// second insertion returns the first value (it is what the map holds at
    /// `k` when the second call starts), and the size does not change.
    pub proof fn lemma_overwrite(m: Map<<K as View>::V, V>, k: <K as View>::V, v1: V, v2: V)
        requires
            m.dom().finite(),
        ensures
            m.insert(k, v1).insert(k, v2) == m.insert(k, v2),
            m.insert(k, v1)[k] == v1,
            m.insert(k, v1).insert(k, v2).len() == m.insert(k, v1).len(),
    {
        assert(m.insert(k, v1).insert(k, v2) =~= m.insert(k, v2));
        assert(m.insert(k, v1).dom() =~= m.dom().insert(k));
        assert(m.insert(k, v2).dom() =~= m.dom().insert(k));
    }

    /// Law: the table's size tracks its operations exactly — up by one when a
    /// new key is inserted, unchanged when an existing key is overwritten,
    /// down by one when a present key is removed, unchanged when an absent key
    /// is removed. So the size is always the number of distinct keys inserted
    /// minus the number removed.
    pub proof fn lemma_count_invariant(m: Map<<K as View>::V, V>, k: <K as View>::V, v: V)
        requires
            m.dom().finite(),
        ensures
            !m.contains_key(k) ==> m.insert(k, v).len() == m.len() + 1,
            m.contains_key(k) ==> m.insert(k, v).len() == m.len(),
            m.contains_key(k) ==> m.remove(k).len() == m.len() - 1,
            !m.contains_key(k) ==> m.remove(k).len() == m.len(),
    {
        assert(m.insert(k, v).dom() =~= m.dom().insert(k));
        assert(m.remove(k).dom() =~= m.dom().remove(k));
        if m.contains_key(k) {
            assert(m.dom().insert(k) =~= m.dom());
        } else {
            assert(m.dom().remove(k) =~= m.dom());
        }
    }

    /// Law: removing a present key unbinds exactly that key and shrinks the
    /// size by one; removing an absent key changes nothing.
    pub proof fn lemma_removal(m: Map<<K as View>::V, V>, k: <K as View>::V)
        requires
            m.dom().finite(),
        ensures
            !m.remove(k).contains_key(k),
            m.contains_key(k) ==> m.remove(k).len() == m.len() - 1,
            !m.contains_key(k) ==> m.remove(k) == m,
    {
        assert(m.remove(k).dom() =~= m.dom().remove(k));
        if !m.contains_key(k) {
            assert(m.remove(k) =~= m);
        }
    }
}

impl<K: TableKey, V> Default for HashMap<K, V> {
    /// An empty table, as [`HashMap::new`] makes it.
    fn default() -> (m: Self)
        ensures
            m.wf(),
            m@ == Map::<<K as View>::V, V>::empty(),
            m.spec_nbuckets() == 0,
    {
        Self::new()
    }
}

impl<K: TableKey, V> View for HashMap<K, V> {
    type V = Map<<K as View>::V, V>;

    closed spec fn view(&self) -> Map<<K as View>::V, V> {
        Map::new(
            |k: <K as View>::V|
                self.buckets@.len() > 0 && chain_has_key(self.chain(k), k),
            |k: <K as View>::V| self.chain(k)[chain_index_of(self.chain(k), k)].1,
        )
    }
}

} // verus!
