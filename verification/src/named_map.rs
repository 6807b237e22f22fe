//! A map keyed by name that remembers the order in which names first came.

use vstd::prelude::*;

use crate::text::same;

verus! {

/// Entries by name. No name occurs twice; a name keeps its place when its value
/// is replaced.
pub struct NamedMap<T> {
    pub entries: Vec<(String, T)>,
}

/// `name` is the name of the entry at `i`.
pub open spec fn named_at<T>(entries: Seq<(String, T)>, name: Seq<char>, i: int) -> bool {
    0 <= i < entries.len() && entries[i].0@ == name
}

impl<T> View for NamedMap<T> {
    type V = Map<Seq<char>, T>;

    open spec fn view(&self) -> Map<Seq<char>, T> {
        Map::new(
            |name: Seq<char>| exists|i: int| named_at(self.entries@, name, i),
            |name: Seq<char>| self.entries@[choose|i: int| named_at(self.entries@, name, i)].1,
        )
    }
}

impl<T> NamedMap<T> {
    /// No name occurs twice.
    pub open spec fn wf(&self) -> bool {
        forall|i: int, j: int|
            0 <= i < j < self.entries@.len() ==> self.entries@[i].0@ != self.entries@[j].0@
    }

    /// The names, in the order in which they first came.
    pub open spec fn names(&self) -> Seq<Seq<char>> {
        self.entries@.map_values(|e: (String, T)| e.0@)
    }

    /// What the view holds at each entry's name is the entry's value.
    pub proof fn entry_in_view(&self, i: int)
        requires
            self.wf(),
            0 <= i < self.entries@.len(),
        ensures
            self@.contains_key(self.entries@[i].0@),
            self@[self.entries@[i].0@] == self.entries@[i].1,
    {
        let name = self.entries@[i].0@;
        assert(named_at(self.entries@, name, i));
        let k = choose|k: int| named_at(self.entries@, name, k);
        assert(named_at(self.entries@, name, k));
        assert(k == i);
    }

    /// There are as many names in the view as entries.
    pub proof fn view_len(&self)
        requires
            self.wf(),
        ensures
            self@.dom() == self.names().to_set(),
            self@.dom().finite(),
            self@.dom().len() == self.entries@.len(),
    {
        let names = self.names();
        assert(self@.dom() =~= names.to_set()) by {
            assert forall|n: Seq<char>| self@.dom().contains(n) == names.to_set().contains(n) by {
                if self@.dom().contains(n) {
                    let i = choose|i: int| named_at(self.entries@, n, i);
                    assert(names[i] == n);
                }
                if names.to_set().contains(n) {
                    let i = choose|i: int| 0 <= i < names.len() && names[i] == n;
                    assert(named_at(self.entries@, n, i));
                }
            }
        }
        assert(names.no_duplicates());
        names.unique_seq_to_set();
    }

    /// An empty map.
    pub fn new() -> (m: NamedMap<T>)
        ensures
            m.wf(),
            m.entries@.len() == 0,
            m@ == Map::<Seq<char>, T>::empty(),
    {
        let m = NamedMap { entries: Vec::new() };
        assert(m@ =~= Map::<Seq<char>, T>::empty());
        m
    }

    /// The number of names.
    pub fn len(&self) -> (n: usize)
        ensures
            n == self.entries@.len(),
    {
        self.entries.len()
    }

    /// The place of `name`.
    pub fn index_of(&self, name: &str) -> (r: Option<usize>)
        requires
            self.wf(),
        ensures
            match r {
                Some(i) => named_at(self.entries@, name@, i as int) && self@.contains_key(name@)
                    && self@[name@] == self.entries@[i as int].1,
                None => !self@.contains_key(name@),
            },
    {
        let mut i: usize = 0;
        while i < self.entries.len()
            invariant
                self.wf(),
                i <= self.entries@.len(),
                forall|j: int| 0 <= j < i ==> self.entries@[j].0@ != name@,
            decreases self.entries@.len() - i,
        {
            if same(self.entries[i].0.as_str(), name) {
                proof {
                    self.entry_in_view(i as int);
                }
                return Some(i);
            }
            i = i + 1;
        }
        None
    }

    /// Whether `name` has an entry.
    pub fn contains_key(&self, name: &str) -> (b: bool)
        requires
            self.wf(),
        ensures
            b == self@.contains_key(name@),
    {
        self.index_of(name).is_some()
    }

    /// The value at `name`.
    pub fn get(&self, name: &str) -> (r: Option<&T>)
        requires
            self.wf(),
        ensures
            match r {
                Some(v) => self@.contains_key(name@) && *v == self@[name@],
                None => !self@.contains_key(name@),
            },
    {
        match self.index_of(name) {
            Some(i) => Some(&self.entries[i].1),
            None => None,
        }
    }

    /// The value at `name`, to be changed in place.
    pub fn get_mut(&mut self, name: &str) -> (r: Option<&mut T>)
        requires
            old(self).wf(),
        ensures
            final(self).wf(),
            final(self).names() == old(self).names(),
            match r {
                Some(v) => old(self)@.contains_key(name@) && *v == old(self)@[name@]
                    && final(self)@ == old(self)@.insert(name@, *final(v)),
                None => !old(self)@.contains_key(name@) && *final(self) == *old(self),
            },
    {
        let ghost before = *self;
        match self.index_of(name) {
            Some(i) => {
                proof {
                    assert forall|after: NamedMap<T>, v: T|
                        #[trigger] after.entries@ == #[trigger] before.entries@.update(
                            i as int,
                            (before.entries@[i as int].0, v),
                        ) implies after.wf() && after.names() == before.names() && after@
                        == before@.insert(name@, v) by {
                        assert(after.names() =~= before.names());
                        after.view_after_change(before, name@, v, i as int);
                    }
                }
                Some(&mut self.entries[i].1)
            },
            None => None,
        }
    }

    /// Sets the value at `name`. A new name comes last; a known one keeps its
    /// place.
    pub fn insert(&mut self, name: String, value: T)
        requires
            old(self).wf(),
        ensures
            final(self).wf(),
            final(self)@ == old(self)@.insert(name@, value),
            final(self).names() == if old(self)@.contains_key(name@) {
                old(self).names()
            } else {
                old(self).names().push(name@)
            },
    {
        let ghost before = *self;
        match self.index_of(name.as_str()) {
            Some(i) => {
                let ghost kept = self.entries@[i as int].0;
                self.entries[i].1 = value;
                proof {
                    assert(self.entries@ == before.entries@.update(i as int, (kept, value)));
                    assert(self.names() =~= before.names());
                    assert(self.wf());
                    self.view_after_change(before, name@, value, i as int);
                }
            },
            None => {
                self.entries.push((name, value));
                proof {
                    let n = before.entries@.len() as int;
                    assert(self.names() =~= before.names().push(name@));
                    assert forall|j: int| 0 <= j < n implies before.entries@[j].0@ != name@ by {
                        before.entry_in_view(j);
                    }
                    assert(self.wf());
                    self.view_after_change(before, name@, value, n);
                }
            },
        }
    }

    proof fn view_after_change(&self, before: NamedMap<T>, name: Seq<char>, value: T, at: int)
        requires
            self.wf(),
            before.wf(),
            named_at(self.entries@, name, at),
            self.entries@[at].1 == value,
            at <= before.entries@.len(),
            before.entries@.len() <= self.entries@.len() <= before.entries@.len() + 1,
            self.entries@.len() == before.entries@.len() + 1 ==> at == before.entries@.len(),
            forall|j: int|
                0 <= j < before.entries@.len() && j != at ==> self.entries@[j]
                    == before.entries@[j],
            at < before.entries@.len() ==> before.entries@[at].0@ == name,
        ensures
            self@ == before@.insert(name, value),
    {
        let want = before@.insert(name, value);
        assert forall|n: Seq<char>| self@.contains_key(n) == want.contains_key(n) by {
            if self@.contains_key(n) {
                let i = choose|i: int| named_at(self.entries@, n, i);
                if i != at {
                    assert(named_at(before.entries@, n, i));
                }
            }
            if before@.contains_key(n) {
                let i = choose|i: int| named_at(before.entries@, n, i);
                if i == at {
                    assert(named_at(self.entries@, n, at));
                } else {
                    assert(named_at(self.entries@, n, i));
                }
            }
            if n == name {
                assert(named_at(self.entries@, n, at));
            }
        }
        assert forall|n: Seq<char>| self@.contains_key(n) implies self@[n] == want[n] by {
            let i = choose|i: int| named_at(self.entries@, n, i);
            self.entry_in_view(i);
            if n == name {
                self.entry_in_view(at);
            } else {
                before.entry_in_view(i);
            }
        }
        assert(self@ =~= want);
    }
}

} // verus!
