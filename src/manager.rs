use vstd::prelude::*;
use crate::arrangement::{Arrangement, Bound};
use crate::collection::CollectionTraces;
use crate::frontier::{antichain_elements, new_antichain};

verus! {

/// A map from collection names to cached arrangements.
///
/// A `TraceManager` stores, for each collection name, the arranged
/// representations built for that collection: one keyed by the whole record
/// and any number keyed by projections onto columns. `S` is the type of a
/// by-self arrangement, `V` that of a keyed one, and `C` the resource that a
/// binding releases (drops) when it is replaced or removed.
pub struct TraceManager<S, V, C> {
    /// The named collections and their maintained traces, one entry per name.
    pub traces: Vec<(String, CollectionTraces<S, V, C>)>,
}

impl<S, V, C> TraceManager<S, V, C> {
    /// Names are unique and every collection is well formed.
    pub open spec fn wf(&self) -> bool {
        &&& forall|i: int, j: int|
            0 <= i < self.traces@.len() && 0 <= j < self.traces@.len() && i != j
                ==> #[trigger] self.traces@[i].0@ != #[trigger] self.traces@[j].0@
        &&& forall|i: int| 0 <= i < self.traces@.len() ==> (#[trigger] self.traces@[i]).1.wf()
    }

    pub open spec fn has(&self, name: Seq<char>) -> bool {
        exists|i: int| 0 <= i < self.traces@.len() && #[trigger] self.traces@[i].0@ == name
    }

    /// The registered collections, by name.
    pub open spec fn view(&self) -> Map<Seq<char>, CollectionTraces<S, V, C>> {
        Map::new(
            |n: Seq<char>| self.has(n),
            |n: Seq<char>|
                self.traces@[choose|i: int|
                    0 <= i < self.traces@.len() && #[trigger] self.traces@[i].0@ == n].1,
        )
    }

    /// The by-self arrangement bound for `name`, if any.
    pub open spec fn self_entry(&self, name: Seq<char>) -> Option<Bound<S, C>> {
        if self.view().contains_key(name) {
            self.view()[name].by_self
        } else {
            None
        }
    }

    /// The keyed arrangements bound for `name`, by key projection.
    pub open spec fn keyed_entries(&self, name: Seq<char>) -> Map<Seq<usize>, Bound<V, C>> {
        if self.view().contains_key(name) {
            self.view()[name].keyed()
        } else {
            Map::empty()
        }
    }

    /// `new` is `old` after `set_by_self(name, trace, callback)`.
    pub open spec fn set_by_self_post(old: Self, new: Self, name: Seq<char>, trace: S, callback: Option<C>) -> bool {
        &&& new.wf()
        &&& new.view().dom() == old.view().dom().insert(name)
        &&& forall|n: Seq<char>| n != name && #[trigger] old.view().contains_key(n) ==> new.view()[n] == old.view()[n]
        &&& new.self_entry(name) matches Some(b) && b.is_fresh(trace, callback)
        &&& new.keyed_entries(name) == old.keyed_entries(name)
    }

    /// `new` is `old` after `set_by_keys(name, keys, trace, callback)`.
    pub open spec fn set_by_keys_post(
        old: Self,
        new: Self,
        name: Seq<char>,
        keys: Seq<usize>,
        trace: V,
        callback: Option<C>,
    ) -> bool {
        &&& new.wf()
        &&& new.view().dom() == old.view().dom().insert(name)
        &&& forall|n: Seq<char>| n != name && #[trigger] old.view().contains_key(n) ==> new.view()[n] == old.view()[n]
        &&& new.self_entry(name) == old.self_entry(name)
        &&& new.keyed_entries(name).dom() == old.keyed_entries(name).dom().insert(keys)
        &&& forall|k: Seq<usize>| k != keys && #[trigger] old.keyed_entries(name).contains_key(k)
            ==> new.keyed_entries(name)[k] == old.keyed_entries(name)[k]
        &&& new.keyed_entries(name)[keys].is_fresh(trace, callback)
    }

    /// `new` is `old` after `del_trace(name)`.
    pub open spec fn del_trace_post(old: Self, new: Self, name: Seq<char>) -> bool {
        &&& new.wf()
        &&& new.view() == old.view().remove(name)
    }

    /// `new` is a manager after `del_all_traces()`.
    pub open spec fn del_all_traces_post(new: Self) -> bool {
        &&& new.wf()
        &&& new.view() == Map::<Seq<char>, CollectionTraces<S, V, C>>::empty()
    }

    pub proof fn lemma_view_at(&self, i: int)
        requires
            self.wf(),
            0 <= i < self.traces@.len(),
        ensures
            self.view().contains_key(self.traces@[i].0@),
            self.view()[self.traces@[i].0@] == self.traces@[i].1,
    {
        let n = self.traces@[i].0@;
        assert(self.has(n));
        let j = choose|j: int| 0 <= j < self.traces@.len() && #[trigger] self.traces@[j].0@ == n;
        assert(i == j);
    }

    /// The index of the entry for `name`, if there is one.
    fn position(&self, name: &str) -> (r: Option<usize>)
        requires
            self.wf(),
        ensures
            match r {
                Some(i) => i < self.traces@.len() && self.traces@[i as int].0@ == name@,
                None => !self.view().contains_key(name@),
            },
    {
        let key = name.to_owned();
        let mut i: usize = 0;
        while i < self.traces.len()
            invariant
                key@ == name@,
                i <= self.traces@.len(),
                forall|j: int| 0 <= j < i ==> #[trigger] self.traces@[j].0@ != name@,
            decreases self.traces@.len() - i,
        {
            if self.traces[i].0 == key {
                return Some(i);
            }
            i = i + 1;
        }
        None
    }

    /// Replacing the collection at `i` by `ct` under the same name replaces
    /// it in the view.
    pub proof fn lemma_view_update(&self, other: &Self, i: int, ct: CollectionTraces<S, V, C>)
        requires
            self.wf(),
            ct.wf(),
            0 <= i < self.traces@.len(),
            other.traces@ == self.traces@.update(i, (other.traces@[i].0, ct)),
            other.traces@[i].0@ == self.traces@[i].0@,
        ensures
            other.wf(),
            other.view() == self.view().insert(self.traces@[i].0@, ct),
    {
        let name = self.traces@[i].0@;
        assert forall|a: int, b: int|
            0 <= a < other.traces@.len() && 0 <= b < other.traces@.len() && a != b
                implies #[trigger] other.traces@[a].0@ != #[trigger] other.traces@[b].0@ by {
            assert(self.traces@[a].0@ == other.traces@[a].0@);
            assert(self.traces@[b].0@ == other.traces@[b].0@);
        }
        assert forall|a: int| 0 <= a < other.traces@.len() implies (#[trigger] other.traces@[a]).1.wf() by {
            if a != i {
                assert(other.traces@[a] == self.traces@[a]);
            }
        }
        other.lemma_view_at(i);
        assert forall|n: Seq<char>| #[trigger] other.view().contains_key(n) && n != name
            implies self.view().contains_key(n) && other.view()[n] == self.view()[n] by {
            let a = choose|a: int| 0 <= a < other.traces@.len() && #[trigger] other.traces@[a].0@ == n;
            other.lemma_view_at(a);
            self.lemma_view_at(a);
        }
        assert forall|n: Seq<char>| #[trigger] self.view().contains_key(n) implies other.view().contains_key(n) by {
            let a = choose|a: int| 0 <= a < self.traces@.len() && #[trigger] self.traces@[a].0@ == n;
            assert(other.traces@[a].0@ == n);
        }
        assert(other.view() =~= self.view().insert(name, ct));
    }

    /// The index of the collection registered under `name`, registering an
    /// empty one first if there is none.
    fn entry_for(&mut self, name: String) -> (r: usize)
        requires
            old(self).wf(),
        ensures
            final(self).wf(),
            r < final(self).traces@.len(),
            final(self).traces@[r as int].0@ == name@,
            final(self).view().contains_key(name@),
            old(self).view().contains_key(name@) ==> final(self).view() == old(self).view(),
            !old(self).view().contains_key(name@) ==> {
                &&& final(self).view() == old(self).view().insert(name@, final(self).view()[name@])
                &&& final(self).view()[name@].by_self is None
                &&& final(self).view()[name@].keyed() == Map::<Seq<usize>, Bound<V, C>>::empty()
            },
    {
        match self.position(name.as_str()) {
            Some(i) => {
                proof {
                    self.lemma_view_at(i as int);
                }
                i
            },
            None => {
                let ghost prev = self.traces@;
                let ct = CollectionTraces::default();
                let ghost cv = ct;
                self.traces.push((name, ct));
                let n = self.traces.len() - 1;
                proof {
                    let nm = self.traces@[n as int].0@;
                    assert forall|a: int, b: int|
                        0 <= a < self.traces@.len() && 0 <= b < self.traces@.len() && a != b
                            implies #[trigger] self.traces@[a].0@ != #[trigger] self.traces@[b].0@ by {
                        if a != n as int && b != n as int {
                            assert(self.traces@[a] == prev[a]);
                            assert(self.traces@[b] == prev[b]);
                        } else if a == n as int {
                            assert(self.traces@[b] == prev[b]);
                            assert(!old(self).has(nm));
                        } else {
                            assert(self.traces@[a] == prev[a]);
                            assert(!old(self).has(nm));
                        }
                    }
                    assert forall|a: int| 0 <= a < self.traces@.len() implies (#[trigger] self.traces@[a]).1.wf() by {
                        if a != n as int {
                            assert(self.traces@[a] == prev[a]);
                        }
                    }
                    self.lemma_view_at(n as int);
                    assert forall|m: Seq<char>| #[trigger] self.view().contains_key(m) && m != nm
                        implies old(self).view().contains_key(m) && self.view()[m] == old(self).view()[m] by {
                        let a = choose|a: int| 0 <= a < self.traces@.len() && #[trigger] self.traces@[a].0@ == m;
                        self.lemma_view_at(a);
                        assert(self.traces@[a] == prev[a]);
                        old(self).lemma_view_at(a);
                    }
                    assert forall|m: Seq<char>| #[trigger] old(self).view().contains_key(m) implies self.view().contains_key(m) by {
                        let a = choose|a: int| 0 <= a < prev.len() && #[trigger] prev[a].0@ == m;
                        assert(self.traces@[a] == prev[a]);
                    }
                    assert(self.view() =~= old(self).view().insert(nm, cv));
                }
                n
            },
        }
    }

    /// Binds the by-self arrangement of `name`, registering the collection if
    /// needed. An arrangement already bound there is replaced, and its
    /// callback released.
    pub fn set_by_self(&mut self, name: String, trace: S, delete_callback: Option<C>)
        requires
            old(self).wf(),
        ensures
            Self::set_by_self_post(*old(self), *final(self), name@, trace, delete_callback),
    {
        let ghost nm = name@;
        let i = self.entry_for(name);
        let ghost mid = *self;
        let entry = &mut self.traces[i];
        entry.1.by_self = Some(Bound::new(trace, delete_callback));
        proof {
            mid.lemma_view_at(i as int);
            let ct = self.traces@[i as int].1;
            assert(ct.keyed() == mid.traces@[i as int].1.keyed());
            mid.lemma_view_update(self, i as int, ct);
            assert(self.view().dom() =~= old(self).view().dom().insert(nm));
        }
    }

    /// Binds the arrangement of `name` keyed by the projection `keys`,
    /// registering the collection if needed. An arrangement already bound under
    /// the same projection is replaced, and its callback released.
    pub fn set_by_keys(&mut self, name: String, keys: &[usize], trace: V, delete_callback: Option<C>)
        requires
            old(self).wf(),
        ensures
            Self::set_by_keys_post(*old(self), *final(self), name@, keys@, trace, delete_callback),
    {
        let ghost nm = name@;
        let i = self.entry_for(name);
        let ghost mid = *self;
        let b = Bound::new(trace, delete_callback);
        let ghost bv = b;
        let entry = &mut self.traces[i];
        entry.1.insert_keyed(keys, b);
        proof {
            mid.lemma_view_at(i as int);
            let ct = self.traces@[i as int].1;
            mid.lemma_view_update(self, i as int, ct);
            assert(self.view().dom() =~= old(self).view().dom().insert(nm));
            assert(self.keyed_entries(nm) == mid.keyed_entries(nm).insert(keys@, bv));
            assert(self.keyed_entries(nm).dom() =~= old(self).keyed_entries(nm).dom().insert(keys@));
        }
    }

    /// The by-self arrangement of `name`, should it exist.
    pub fn get_by_self(&self, name: &str) -> (r: Option<&S>)
        requires
            self.wf(),
        ensures
            match r {
                Some(h) => self.self_entry(name@) matches Some(b) && *h == b.trace,
                None => self.self_entry(name@) is None,
            },
    {
        match self.position(name) {
            Some(i) => {
                proof {
                    self.lemma_view_at(i as int);
                }
                match &self.traces[i].1.by_self {
                    Some(b) => Some(&b.trace),
                    None => None,
                }
            },
            None => None,
        }
    }

    /// The by-self arrangement of `name`, should it exist, to be changed in
    /// place: whatever is written through the reference becomes the bound
    /// trace, and nothing else changes (see `lemma_view_update`).
    pub fn get_by_self_mut(&mut self, name: &str) -> (r: Option<&mut S>)
        requires
            old(self).wf(),
        ensures
            match r {
                Some(h) => old(self).self_entry(name@) matches Some(b) && *h == b.trace
                    && exists|i: int| 0 <= i < old(self).traces@.len() && #[trigger] old(self).traces@[i].0@ == name@
                        && final(self).traces@ == old(self).traces@.update(i, (old(self).traces@[i].0, CollectionTraces {
                            by_self: Some(Bound { trace: *final(h), ..b }),
                            by_keys: old(self).traces@[i].1.by_keys,
                        })),
                None => old(self).self_entry(name@) is None && *final(self) == *old(self),
            },
    {
        match self.position(name) {
            Some(i) => {
                proof {
                    self.lemma_view_at(i as int);
                }
                if self.traces[i].1.by_self.is_none() {
                    return None;
                }
                let entry = &mut self.traces[i];
                match &mut entry.1.by_self {
                    Some(b) => Some(&mut b.trace),
                    None => None,
                }
            },
            None => None,
        }
    }

    /// The arrangement of `name` keyed by exactly `keys`, should it exist.
    pub fn get_by_keys(&self, name: &str, keys: &[usize]) -> (r: Option<&V>)
        requires
            self.wf(),
        ensures
            match r {
                Some(h) => self.keyed_entries(name@).contains_key(keys@)
                    && *h == self.keyed_entries(name@)[keys@].trace,
                None => !self.keyed_entries(name@).contains_key(keys@),
            },
    {
        match self.position(name) {
            Some(i) => {
                proof {
                    self.lemma_view_at(i as int);
                }
                self.traces[i].1.get_keyed(keys)
            },
            None => None,
        }
    }

    /// The arrangement of `name` keyed by exactly `keys`, should it exist, to
    /// be changed in place: whatever is written through the reference becomes
    /// the bound trace, and nothing else changes.
    pub fn get_by_keys_mut(&mut self, name: &str, keys: &[usize]) -> (r: Option<&mut V>)
        requires
            old(self).wf(),
        ensures
            match r {
                Some(h) => old(self).keyed_entries(name@).contains_key(keys@)
                    && *h == old(self).keyed_entries(name@)[keys@].trace
                    && exists|i: int, j: int| {
                        &&& 0 <= i < old(self).traces@.len()
                        &&& #[trigger] old(self).traces@[i].0@ == name@
                        &&& 0 <= j < old(self).traces@[i].1.by_keys@.len()
                        &&& #[trigger] old(self).traces@[i].1.by_keys@[j].0@ == keys@
                        &&& final(self).traces@.len() == old(self).traces@.len()
                        &&& forall|a: int| 0 <= a < old(self).traces@.len() && a != i
                            ==> #[trigger] final(self).traces@[a] == old(self).traces@[a]
                        &&& final(self).traces@[i].0 == old(self).traces@[i].0
                        &&& final(self).traces@[i].1.by_self == old(self).traces@[i].1.by_self
                        &&& final(self).traces@[i].1.by_keys@ == old(self).traces@[i].1.by_keys@.update(j,
                            (old(self).traces@[i].1.by_keys@[j].0,
                            Bound { trace: *final(h), ..old(self).traces@[i].1.by_keys@[j].1 }))
                    },
                None => !old(self).keyed_entries(name@).contains_key(keys@) && *final(self) == *old(self),
            },
    {
        match self.position(name) {
            Some(i) => {
                proof {
                    self.lemma_view_at(i as int);
                }
                if self.traces[i].1.position(keys).is_none() {
                    return None;
                }
                let entry = &mut self.traces[i];
                entry.1.get_keyed_mut(keys)
            },
            None => None,
        }
    }

    /// Every keyed arrangement of `name` with its key projection, should the
    /// collection be registered.
    ///
    /// The handles come as shared references: a vector of mutable references
    /// into the registry's entries is not something the verifier can follow.
    /// To change handles in bulk, take each projection listed here to
    /// `get_by_keys_mut`.
    pub fn get_all_keyed(&self, name: &str) -> (r: Option<Vec<(&Vec<usize>, &V)>>)
        requires
            self.wf(),
        ensures
            match r {
                Some(all) => self.view().contains_key(name@) && {
                    &&& all@.len() == self.keyed_entries(name@).len()
                    &&& forall|j: int| 0 <= j < all@.len() ==> {
                        &&& self.keyed_entries(name@).contains_key((#[trigger] all@[j]).0@)
                        &&& *all@[j].1 == self.keyed_entries(name@)[all@[j].0@].trace
                    }
                    &&& forall|a: int, b: int| 0 <= a < all@.len() && 0 <= b < all@.len() && a != b
                        ==> (#[trigger] all@[a]).0@ != (#[trigger] all@[b]).0@
                },
                None => !self.view().contains_key(name@),
            },
    {
        match self.position(name) {
            Some(i) => {
                proof {
                    self.lemma_view_at(i as int);
                }
                let ct = &self.traces[i].1;
                let mut all: Vec<(&Vec<usize>, &V)> = Vec::new();
                let mut j: usize = 0;
                while j < ct.by_keys.len()
                    invariant
                        ct.wf(),
                        j <= ct.by_keys@.len(),
                        all@.len() == j,
                        forall|a: int| 0 <= a < j ==> (#[trigger] all@[a]).0 == ct.by_keys@[a].0
                            && *all@[a].1 == ct.by_keys@[a].1.trace,
                    decreases ct.by_keys@.len() - j,
                {
                    let entry = &ct.by_keys[j];
                    all.push((&entry.0, &entry.1.trace));
                    j = j + 1;
                }
                proof {
                    assert forall|a: int| 0 <= a < all@.len() implies {
                        &&& ct.keyed().contains_key((#[trigger] all@[a]).0@)
                        &&& *all@[a].1 == ct.keyed()[all@[a].0@].trace
                    } by {
                        ct.lemma_keyed_at(a);
                    }
                    assert forall|a: int, b: int| 0 <= a < all@.len() && 0 <= b < all@.len() && a != b
                        implies (#[trigger] all@[a]).0@ != (#[trigger] all@[b]).0@ by {
                        assert(all@[a].0 == ct.by_keys@[a].0);
                        assert(all@[b].0 == ct.by_keys@[b].0);
                    }
                    ct.lemma_keyed_len();
                }
                Some(all)
            },
            None => None,
        }
    }

    /// Removes all remnants of a named trace, releasing every callback it held.
    ///
    /// Does nothing if no collection is registered under `name`.
    pub fn del_trace(&mut self, name: &str)
        requires
            old(self).wf(),
        ensures
            Self::del_trace_post(*old(self), *final(self), name@),
    {
        if let Some(i) = self.position(name) {
            let ghost prev = self.traces@;
            let _removed = self.traces.remove(i);
            proof {
                assert forall|a: int| 0 <= a < self.traces@.len() implies #[trigger] self.traces@[a] == prev[if a < i { a } else { a + 1 }] by {}
                assert forall|a: int, b: int|
                    0 <= a < self.traces@.len() && 0 <= b < self.traces@.len() && a != b
                        implies #[trigger] self.traces@[a].0@ != #[trigger] self.traces@[b].0@ by {
                    assert(self.traces@[a] == prev[if a < i { a } else { a + 1 }]);
                    assert(self.traces@[b] == prev[if b < i { b } else { b + 1 }]);
                }
                assert forall|a: int| 0 <= a < self.traces@.len() implies (#[trigger] self.traces@[a]).1.wf() by {
                    assert(self.traces@[a] == prev[if a < i { a } else { a + 1 }]);
                }
                assert forall|n: Seq<char>| #[trigger] self.view().contains_key(n)
                    implies old(self).view().remove(name@).contains_key(n) && self.view()[n] == old(self).view()[n] by {
                    let a = choose|a: int| 0 <= a < self.traces@.len() && #[trigger] self.traces@[a].0@ == n;
                    self.lemma_view_at(a);
                    old(self).lemma_view_at(if a < i { a } else { a + 1 });
                }
                assert forall|n: Seq<char>| #[trigger] old(self).view().remove(name@).contains_key(n)
                    implies self.view().contains_key(n) by {
                    let a = choose|a: int| 0 <= a < prev.len() && #[trigger] prev[a].0@ == n;
                    assert(a != i);
                    assert(self.traces@[if a < i { a } else { a - 1 }] == prev[a]);
                    self.lemma_view_at(if a < i { a } else { a - 1 });
                }
                assert(self.view() =~= old(self).view().remove(name@));
            }
        } else {
            assert(self.view() =~= old(self).view().remove(name@));
        }
    }

    /// Removes all remnants of all named traces, releasing every callback.
    pub fn del_all_traces(&mut self)
        requires
            old(self).wf(),
        ensures
            Self::del_all_traces_post(*final(self)),
    {
        self.traces.clear();
        assert(self.view() =~= Map::<Seq<char>, CollectionTraces<S, V, C>>::empty());
    }
}

impl<S, V, C> Default for TraceManager<S, V, C> {
    /// A manager with no collection registered.
    fn default() -> (r: Self)
        ensures
            r.wf(),
            r.view() == Map::<Seq<char>, CollectionTraces<S, V, C>>::empty(),
    {
        let r = TraceManager { traces: Vec::new() };
        assert(r.view() =~= Map::<Seq<char>, CollectionTraces<S, V, C>>::empty());
        r
    }
}

impl<S: Arrangement, V: Arrangement, C> TraceManager<S, V, C> {
    /// `new` is `old` after `maintenance()`: every collection went through a
    /// physical merge sweep whose accumulator started out empty.
    pub open spec fn maintenance_post(old: Self, new: Self) -> bool {
        &&& new.wf()
        &&& new.view().dom() == old.view().dom()
        &&& forall|n: Seq<char>| #[trigger] new.view().contains_key(n)
            ==> new.view()[n].merged_physically_from(old.view()[n], Seq::<u64>::empty())
    }

    /// `new` is `old` after `allow_compaction(name, frontier)`: every trace of
    /// `name` was advanced to `frontier`, and nothing else changed.
    pub open spec fn allow_compaction_post(old: Self, new: Self, name: Seq<char>, frontier: Seq<u64>) -> bool {
        &&& new.wf()
        &&& new.view().dom() == old.view().dom()
        &&& forall|n: Seq<char>| n != name && #[trigger] old.view().contains_key(n) ==> new.view()[n] == old.view()[n]
        &&& old.view().contains_key(name) ==> new.view()[name].merged_logically_from(old.view()[name], frontier)
    }

    /// Performs maintenance work on the managed traces: every arrangement of
    /// every collection may physically merge its batches up to the upper
    /// frontier read for its collection, so that at most a logarithmic number
    /// of batches need to be kept. Batches that arrive later are not merged
    /// until this is called again.
    ///
    /// Each collection reads its frontiers into an accumulator of its own.
    pub fn maintenance(&mut self)
        requires
            old(self).wf(),
        ensures
            Self::maintenance_post(*old(self), *final(self)),
    {
        let ghost start = *self;
        let mut i: usize = 0;
        while i < self.traces.len()
            invariant
                start.wf(),
                i <= self.traces@.len(),
                self.traces@.len() == start.traces@.len(),
                forall|j: int| 0 <= j < self.traces@.len() ==> (#[trigger] self.traces@[j]).0 == start.traces@[j].0,
                forall|j: int| 0 <= j < self.traces@.len() ==> (#[trigger] self.traces@[j]).1.wf(),
                forall|j: int| 0 <= j < i ==> (#[trigger] self.traces@[j]).1.merged_physically_from(start.traces@[j].1, Seq::<u64>::empty()),
                forall|j: int| i <= j < self.traces@.len() ==> #[trigger] self.traces@[j] == start.traces@[j],
            decreases self.traces@.len() - i,
        {
            let mut antichain = new_antichain();
            let entry = &mut self.traces[i];
            assert(antichain_elements(antichain) == Seq::<u64>::empty());
            entry.1.merge_physical(&mut antichain);
            i = i + 1;
        }
        proof {
            assert forall|a: int, b: int|
                0 <= a < self.traces@.len() && 0 <= b < self.traces@.len() && a != b
                    implies #[trigger] self.traces@[a].0@ != #[trigger] self.traces@[b].0@ by {
                assert(start.traces@[a].0@ != start.traces@[b].0@);
            }
            assert forall|n: Seq<char>| #[trigger] self.view().contains_key(n) <==> start.view().contains_key(n) by {
                if self.has(n) {
                    let a = choose|a: int| 0 <= a < self.traces@.len() && #[trigger] self.traces@[a].0@ == n;
                    assert(start.traces@[a].0@ == n);
                }
                if start.has(n) {
                    let a = choose|a: int| 0 <= a < start.traces@.len() && #[trigger] start.traces@[a].0@ == n;
                    assert(self.traces@[a].0@ == n);
                }
            }
            assert(self.view().dom() =~= old(self).view().dom());
            assert forall|n: Seq<char>| #[trigger] self.view().contains_key(n)
                implies self.view()[n].merged_physically_from(old(self).view()[n], Seq::<u64>::empty()) by {
                let a = choose|a: int| 0 <= a < self.traces@.len() && #[trigger] self.traces@[a].0@ == n;
                self.lemma_view_at(a);
                start.lemma_view_at(a);
            }
        }
    }

    /// Enables compaction of the traces of `name` up to `frontier`.
    ///
    /// Compaction does not happen here: it happens at the next maintenance.
    /// From now on the traces may not accumulate to the correct quantities at
    /// times not in advance of `frontier`. Does nothing if no collection is
    /// registered under `name`.
    pub fn allow_compaction(&mut self, name: &str, frontier: &[u64])
        requires
            old(self).wf(),
        ensures
            Self::allow_compaction_post(*old(self), *final(self), name@, frontier@),
    {
        if let Some(i) = self.position(name) {
            let ghost mid = *self;
            let entry = &mut self.traces[i];
            entry.1.merge_logical(frontier);
            proof {
                mid.lemma_view_at(i as int);
                let ct = self.traces@[i as int].1;
                mid.lemma_view_update(self, i as int, ct);
                assert(self.view().dom() =~= old(self).view().dom());
            }
        }
    }
}

} // verus!
