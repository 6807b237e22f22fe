//! A map keyed by small values that remembers the order in which keys first
//! came.

use std::collections::VecDeque;
use vstd::prelude::*;

verus! {

/// A value that can be a key: it can be copied and compared.
pub trait Key: Copy {
    /// Whether two keys are the same.
    fn same_key(&self, other: &Self) -> (b: bool)
        ensures
            b == (*self == *other),
    ;
}

/// Entries by key. No key occurs twice; a key keeps its place when its value is
/// replaced.
pub struct KeyedMap<K, V> {
    pub entries: Vec<(K, V)>,
}

/// `k` is the key of the entry at `i`.
pub open spec fn keyed_at<K, V>(entries: Seq<(K, V)>, k: K, i: int) -> bool {
    0 <= i < entries.len() && entries[i].0 == k
}

/// `keys` without `k`.
pub open spec fn without<K>(keys: Seq<K>, k: K) -> Seq<K>
    decreases keys.len(),
{
    if keys.len() == 0 {
        Seq::empty()
    } else if keys.last() == k {
        without(keys.drop_last(), k)
    } else {
        without(keys.drop_last(), k).push(keys.last())
    }
}

/// Dropping a key keeps every other key.
pub proof fn without_keeps_others<K>(keys: Seq<K>, k: K, x: K)
    requires
        x != k,
    ensures
        without(keys, k).contains(x) == keys.contains(x),
        !without(keys, k).contains(k),
    decreases keys.len(),
{
    if keys.len() > 0 {
        let rest = keys.drop_last();
        without_keeps_others(rest, k, x);
        let w = without(rest, k);
        let r = without(keys, k);
        if keys.contains(x) {
            let i = choose|i: int| 0 <= i < keys.len() && keys[i] == x;
            if i < rest.len() {
                assert(rest[i] == x);
                let j = choose|j: int| 0 <= j < w.len() && w[j] == x;
                assert(r[j] == x);
            } else {
                assert(r[w.len() as int] == x);
            }
        }
        if r.contains(x) {
            let j = choose|j: int| 0 <= j < r.len() && r[j] == x;
            if j < w.len() {
                assert(w[j] == x);
                let i = choose|i: int| 0 <= i < rest.len() && rest[i] == x;
                assert(keys[i] == x);
            } else {
                assert(keys[keys.len() - 1] == x);
            }
        }
        if r.contains(k) {
            let j = choose|j: int| 0 <= j < r.len() && r[j] == k;
            if j < w.len() {
                assert(w[j] == k);
            }
        }
    }
}

/// `keys` without `k`.
pub fn drop_key<K: Key>(keys: &VecDeque<K>, k: K) -> (r: VecDeque<K>)
    ensures
        r@ == without(keys@, k),
{
    let mut r: VecDeque<K> = VecDeque::new();
    let mut i: usize = 0;
    assert(keys@.take(0) =~= Seq::<K>::empty());
    while i < keys.len()
        invariant
            i <= keys@.len(),
            r@ == without(keys@.take(i as int), k),
        decreases keys@.len() - i,
    {
        assert(keys@.take(i + 1).drop_last() =~= keys@.take(i as int));
        let x: K = keys[i];
        if !x.same_key(&k) {
            r.push_back(x);
        }
        i = i + 1;
    }
    assert(keys@.take(i as int) =~= keys@);
    r
}

/// The sum of `f` over the values of entries.
pub open spec fn sum<K, V>(entries: Seq<(K, V)>, f: spec_fn(V) -> nat) -> nat
    decreases entries.len(),
{
    if entries.len() == 0 {
        0
    } else {
        sum(entries.drop_last(), f) + f(entries.last().1)
    }
}

pub proof fn sum_push<K, V>(entries: Seq<(K, V)>, e: (K, V), f: spec_fn(V) -> nat)
    ensures
        sum(entries.push(e), f) == sum(entries, f) + f(e.1),
{
    assert(entries.push(e).drop_last() =~= entries);
}

pub proof fn sum_update<K, V>(entries: Seq<(K, V)>, i: int, e: (K, V), f: spec_fn(V) -> nat)
    requires
        0 <= i < entries.len(),
    ensures
        sum(entries.update(i, e), f) + f(entries[i].1) == sum(entries, f) + f(e.1),
        f(entries[i].1) <= sum(entries, f),
    decreases entries.len(),
{
    let n = entries.len() - 1;
    if i == n {
        assert(entries.update(i, e).drop_last() =~= entries.drop_last());
    } else {
        sum_update(entries.drop_last(), i, e, f);
        assert(entries.update(i, e).drop_last() =~= entries.drop_last().update(i, e));
    }
}

pub proof fn sum_remove<K, V>(entries: Seq<(K, V)>, i: int, f: spec_fn(V) -> nat)
    requires
        0 <= i < entries.len(),
    ensures
        sum(entries.remove(i), f) + f(entries[i].1) == sum(entries, f),
    decreases entries.len(),
{
    let n = entries.len() - 1;
    if i == n {
        assert(entries.remove(i) =~= entries.drop_last());
    } else {
        sum_remove(entries.drop_last(), i, f);
        assert(entries.remove(i).drop_last() =~= entries.drop_last().remove(i));
        assert(entries.remove(i).last() == entries.last());
    }
}

impl<K, V> View for KeyedMap<K, V> {
    type V = Map<K, V>;

    open spec fn view(&self) -> Map<K, V> {
        Map::new(
            |k: K| exists|i: int| keyed_at(self.entries@, k, i),
            |k: K| self.entries@[choose|i: int| keyed_at(self.entries@, k, i)].1,
        )
    }
}

impl<K: Key, V> KeyedMap<K, V> {
    /// No key occurs twice.
    pub open spec fn wf(&self) -> bool {
        forall|i: int, j: int|
            0 <= i < j < self.entries@.len() ==> self.entries@[i].0 != self.entries@[j].0
    }

    /// The keys, in the order in which they first came.
    pub open spec fn keys(&self) -> Seq<K> {
        self.entries@.map_values(|e: (K, V)| e.0)
    }

    /// The sum of `f` over the values.
    pub open spec fn total(&self, f: spec_fn(V) -> nat) -> nat {
        sum(self.entries@, f)
    }

    /// What the view holds at each entry's key is the entry's value.
    pub proof fn entry_in_view(&self, i: int)
        requires
            self.wf(),
            0 <= i < self.entries@.len(),
        ensures
            self@.contains_key(self.entries@[i].0),
            self@[self.entries@[i].0] == self.entries@[i].1,
    {
        let k = self.entries@[i].0;
        assert(keyed_at(self.entries@, k, i));
        let j = choose|j: int| keyed_at(self.entries@, k, j);
        assert(keyed_at(self.entries@, k, j));
        assert(j == i);
    }

    /// A key of the view stands at some entry.
    pub proof fn key_has_entry(&self, k: K) -> (i: int)
        requires
            self.wf(),
            self@.contains_key(k),
        ensures
            keyed_at(self.entries@, k, i),
            self@[k] == self.entries@[i].1,
    {
        let i = choose|i: int| keyed_at(self.entries@, k, i);
        self.entry_in_view(i);
        i
    }

    /// There are as many keys in the view as entries.
    pub proof fn view_len(&self)
        requires
            self.wf(),
        ensures
            self@.dom().finite(),
            self@.len() == self.entries@.len(),
    {
        let keys = self.keys();
        assert(self@.dom() =~= keys.to_set()) by {
            assert forall|k: K| self@.dom().contains(k) == keys.to_set().contains(k) by {
                if self@.dom().contains(k) {
                    let i = choose|i: int| keyed_at(self.entries@, k, i);
                    assert(keys[i] == k);
                }
                if keys.to_set().contains(k) {
                    let i = choose|i: int| 0 <= i < keys.len() && keys[i] == k;
                    assert(keyed_at(self.entries@, k, i));
                }
            }
        }
        assert(keys.no_duplicates());
        keys.unique_seq_to_set();
    }

    /// An empty map.
    pub fn new() -> (m: KeyedMap<K, V>)
        ensures
            m.wf(),
            m.entries@.len() == 0,
            m@ == Map::<K, V>::empty(),
    {
        let m = KeyedMap { entries: Vec::new() };
        assert(m@ =~= Map::<K, V>::empty());
        m
    }

    /// The number of keys.
    pub fn len(&self) -> (n: usize)
        ensures
            n == self.entries@.len(),
    {
        self.entries.len()
    }

    /// The place of `k`.
    pub fn index_of(&self, k: &K) -> (r: Option<usize>)
        requires
            self.wf(),
        ensures
            match r {
                Some(i) => keyed_at(self.entries@, *k, i as int) && self@.contains_key(*k)
                    && self@[*k] == self.entries@[i as int].1,
                None => !self@.contains_key(*k),
            },
    {
        let mut i: usize = 0;
        while i < self.entries.len()
            invariant
                self.wf(),
                i <= self.entries@.len(),
                forall|j: int| 0 <= j < i ==> self.entries@[j].0 != *k,
            decreases self.entries@.len() - i,
        {
            if self.entries[i].0.same_key(k) {
                proof {
                    self.entry_in_view(i as int);
                }
                return Some(i);
            }
            i = i + 1;
        }
        None
    }

    /// Whether `k` has an entry.
    pub fn contains_key(&self, k: &K) -> (b: bool)
        requires
            self.wf(),
        ensures
            b == self@.contains_key(*k),
    {
        self.index_of(k).is_some()
    }

    /// The value at `k`.
    pub fn get(&self, k: &K) -> (r: Option<&V>)
        requires
            self.wf(),
        ensures
            match r {
                Some(v) => self@.contains_key(*k) && *v == self@[*k],
                None => !self@.contains_key(*k),
            },
    {
        match self.index_of(k) {
            Some(i) => Some(&self.entries[i].1),
            None => None,
        }
    }

    /// Sets the value at `k`. A new key comes last; a known one keeps its place.
    pub fn insert(&mut self, k: K, v: V)
        requires
            old(self).wf(),
        ensures
            final(self).wf(),
            final(self)@ == old(self)@.insert(k, v),
            final(self).keys() == if old(self)@.contains_key(k) {
                old(self).keys()
            } else {
                old(self).keys().push(k)
            },
            forall|f: spec_fn(V) -> nat| #[trigger]
                final(self).total(f) + (if old(self)@.contains_key(k) {
                    f(old(self)@[k])
                } else {
                    0
                }) == old(self).total(f) + f(v),
            forall|f: spec_fn(V) -> nat|
                old(self)@.contains_key(k) ==> f(old(self)@[k]) <= #[trigger] old(self).total(f),
    {
        let ghost before = *self;
        match self.index_of(&k) {
            Some(i) => {
                let ghost kept = self.entries@[i as int].0;
                self.entries[i].1 = v;
                proof {
                    let e = (kept, v);
                    assert(self.entries@ == before.entries@.update(i as int, e));
                    assert(self.keys() =~= before.keys());
                    self.view_after_change(before, k, v, i as int);
                    assert forall|f: spec_fn(V) -> nat| #[trigger] self.total(f) + f(before@[k])
                        == before.total(f) + f(v) by {
                        sum_update(before.entries@, i as int, e, f);
                    }
                    assert forall|f: spec_fn(V) -> nat| f(before@[k]) <= #[trigger] before.total(
                        f,
                    ) by {
                        sum_update(before.entries@, i as int, e, f);
                    }
                }
            },
            None => {
                self.entries.push((k, v));
                proof {
                    let n = before.entries@.len() as int;
                    assert(self.keys() =~= before.keys().push(k));
                    assert forall|j: int| 0 <= j < n implies before.entries@[j].0 != k by {
                        before.entry_in_view(j);
                    }
                    self.view_after_change(before, k, v, n);
                    assert forall|f: spec_fn(V) -> nat| #[trigger] self.total(f) == before.total(f)
                        + f(v) by {
                        sum_push(before.entries@, (k, v), f);
                    }
                }
            },
        }
    }

    proof fn view_after_change(&self, before: KeyedMap<K, V>, k: K, v: V, at: int)
        requires
            self.wf(),
            before.wf(),
            keyed_at(self.entries@, k, at),
            self.entries@[at].1 == v,
            at <= before.entries@.len(),
            before.entries@.len() <= self.entries@.len() <= before.entries@.len() + 1,
            self.entries@.len() == before.entries@.len() + 1 ==> at == before.entries@.len(),
            forall|j: int|
                0 <= j < before.entries@.len() && j != at ==> self.entries@[j]
                    == before.entries@[j],
            at < before.entries@.len() ==> before.entries@[at].0 == k,
        ensures
            self@ == before@.insert(k, v),
    {
        let want = before@.insert(k, v);
        assert forall|n: K| self@.contains_key(n) == want.contains_key(n) by {
            if self@.contains_key(n) {
                let i = choose|i: int| keyed_at(self.entries@, n, i);
                if i != at {
                    assert(keyed_at(before.entries@, n, i));
                }
            }
            if before@.contains_key(n) {
                let i = choose|i: int| keyed_at(before.entries@, n, i);
                assert(keyed_at(self.entries@, n, i));
            }
            if n == k {
                assert(keyed_at(self.entries@, n, at));
            }
        }
        assert forall|n: K| self@.contains_key(n) implies self@[n] == want[n] by {
            let i = choose|i: int| keyed_at(self.entries@, n, i);
            self.entry_in_view(i);
            if n == k {
                self.entry_in_view(at);
            } else {
                before.entry_in_view(i);
            }
        }
        assert(self@ =~= want);
    }

    /// Takes the entry of `k` out.
    pub fn remove(&mut self, k: &K) -> (r: Option<V>)
        requires
            old(self).wf(),
        ensures
            final(self).wf(),
            final(self)@ == old(self)@.remove(*k),
            match r {
                Some(v) => {
                    &&& old(self)@.contains_key(*k)
                    &&& v == old(self)@[*k]
                    &&& final(self).entries@.len() + 1 == old(self).entries@.len()
                    &&& forall|f: spec_fn(V) -> nat| #[trigger]
                        final(self).total(f) + f(v) == old(self).total(f)
                },
                None => !old(self)@.contains_key(*k) && *final(self) == *old(self),
            },
    {
        let ghost before = *self;
        match self.index_of(k) {
            Some(i) => {
                let (_key, v) = self.entries.remove(i);
                proof {
                    let want = before@.remove(*k);
                    let at = i as int;
                    assert(self.entries@ == before.entries@.remove(at));
                    assert(self.wf());
                    assert forall|n: K| self@.contains_key(n) == want.contains_key(n) by {
                        if self@.contains_key(n) {
                            let j = choose|j: int| keyed_at(self.entries@, n, j);
                            let b = if j < at {
                                j
                            } else {
                                j + 1
                            };
                            assert(keyed_at(before.entries@, n, b));
                        }
                        if want.contains_key(n) {
                            let j = choose|j: int| keyed_at(before.entries@, n, j);
                            let b = if j < at {
                                j
                            } else {
                                j - 1
                            };
                            assert(keyed_at(self.entries@, n, b));
                        }
                    }
                    assert forall|n: K| self@.contains_key(n) implies self@[n] == want[n] by {
                        let j = choose|j: int| keyed_at(self.entries@, n, j);
                        self.entry_in_view(j);
                        before.entry_in_view(
                            if j < at {
                                j
                            } else {
                                j + 1
                            },
                        );
                    }
                    assert(self@ =~= want);
                    assert forall|f: spec_fn(V) -> nat| #[trigger] self.total(f) + f(v)
                        == before.total(f) by {
                        sum_remove(before.entries@, at, f);
                    }
                }
                Some(v)
            },
            None => {
                assert(self@ =~= before@.remove(*k));
                None
            },
        }
    }
}

/// What is left without a key is every other key, in the same order.
pub proof fn without_is_all_others<K>(keys: Seq<K>, k: K)
    ensures
        without(keys, k) == keys.filter(|x: K| x != k),
    decreases keys.len(),
{
    reveal(Seq::filter);
    if keys.len() > 0 {
        without_is_all_others(keys.drop_last(), k);
    }
}

} // verus!
