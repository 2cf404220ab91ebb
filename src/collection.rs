use vstd::prelude::*;
use timely::progress::frontier::Antichain;
use crate::arrangement::{Arrangement, Bound};
use crate::frontier::antichain_elements;

verus! {

/// Whether two key projections are the same sequence of columns.
pub fn same_keys(a: &Vec<usize>, b: &[usize]) -> (r: bool)
    ensures
        r == (a@ == b@),
{
    if a.len() != b.len() {
        return false;
    }
    let mut i: usize = 0;
    while i < a.len()
        invariant
            a@.len() == b@.len(),
            i <= a@.len(),
            forall|j: int| 0 <= j < i ==> a@[j] == b@[j],
        decreases a@.len() - i,
    {
        if a[i] != b[i] {
            return false;
        }
        i = i + 1;
    }
    proof {
        assert(a@ =~= b@);
    }
    true
}

/// An owned copy of a key projection.
pub fn copy_keys(keys: &[usize]) -> (r: Vec<usize>)
    ensures
        r@ == keys@,
{
    let mut r: Vec<usize> = Vec::with_capacity(keys.len());
    let mut i: usize = 0;
    while i < keys.len()
        invariant
            i <= keys@.len(),
            r@ == keys@.subrange(0, i as int),
        decreases keys@.len() - i,
    {
        r.push(keys[i]);
        i = i + 1;
        proof {
            assert(r@ =~= keys@.subrange(0, i as int));
        }
    }
    proof {
        assert(r@ =~= keys@);
    }
    r
}

/// Maintained traces for a collection.
///
/// `by_self` is the collection arranged with the whole record as key;
/// `by_keys` holds the collection arranged by key projections (sequences of
/// column indices), at most one entry per projection.
pub struct CollectionTraces<S, V, C> {
    pub by_self: Option<Bound<S, C>>,
    pub by_keys: Vec<(Vec<usize>, Bound<V, C>)>,
}

impl<S, V, C> CollectionTraces<S, V, C> {
    /// No key projection occurs twice.
    pub open spec fn wf(&self) -> bool {
        forall|i: int, j: int|
            0 <= i < self.by_keys@.len() && 0 <= j < self.by_keys@.len() && i != j
                ==> #[trigger] self.by_keys@[i].0@ != #[trigger] self.by_keys@[j].0@
    }

    pub open spec fn has_keys(&self, keys: Seq<usize>) -> bool {
        exists|i: int| 0 <= i < self.by_keys@.len() && #[trigger] self.by_keys@[i].0@ == keys
    }

    /// The keyed arrangements, by key projection.
    pub open spec fn keyed(&self) -> Map<Seq<usize>, Bound<V, C>> {
        Map::new(
            |k: Seq<usize>| self.has_keys(k),
            |k: Seq<usize>|
                self.by_keys@[choose|i: int|
                    0 <= i < self.by_keys@.len() && #[trigger] self.by_keys@[i].0@ == k].1,
        )
    }

    pub proof fn lemma_keyed_at(&self, i: int)
        requires
            self.wf(),
            0 <= i < self.by_keys@.len(),
        ensures
            self.keyed().contains_key(self.by_keys@[i].0@),
            self.keyed()[self.by_keys@[i].0@] == self.by_keys@[i].1,
    {
        let k = self.by_keys@[i].0@;
        assert(self.has_keys(k));
        let j = choose|j: int| 0 <= j < self.by_keys@.len() && #[trigger] self.by_keys@[j].0@ == k;
        assert(i == j);
    }

    /// `self` and `other` hold the same key projections at the same places.
    pub open spec fn same_layout<W, D>(&self, other: &CollectionTraces<S, W, D>) -> bool {
        &&& self.by_keys@.len() == other.by_keys@.len()
        &&& forall|j: int| 0 <= j < self.by_keys@.len() ==> #[trigger] self.by_keys@[j].0@ == other.by_keys@[j].0@
    }

    pub proof fn lemma_same_layout(a: &Self, b: &Self, k: Seq<usize>)
        requires
            a.wf(),
            a.same_layout(b),
        ensures
            b.wf(),
            a.keyed().contains_key(k) == b.keyed().contains_key(k),
            a.keyed().contains_key(k) ==> exists|j: int|
                0 <= j < a.by_keys@.len() && a.keyed()[k] == #[trigger] a.by_keys@[j].1 && b.keyed()[k] == b.by_keys@[j].1,
    {
        assert forall|i: int, j: int|
            0 <= i < b.by_keys@.len() && 0 <= j < b.by_keys@.len() && i != j
                implies #[trigger] b.by_keys@[i].0@ != #[trigger] b.by_keys@[j].0@ by {
            assert(a.by_keys@[i].0@ == b.by_keys@[i].0@);
            assert(a.by_keys@[j].0@ == b.by_keys@[j].0@);
        }
        if a.has_keys(k) {
            let j = choose|j: int| 0 <= j < a.by_keys@.len() && #[trigger] a.by_keys@[j].0@ == k;
            assert(b.by_keys@[j].0@ == k);
            a.lemma_keyed_at(j);
            b.lemma_keyed_at(j);
        }
        if b.has_keys(k) {
            let j = choose|j: int| 0 <= j < b.by_keys@.len() && #[trigger] b.by_keys@[j].0@ == k;
            assert(a.by_keys@[j].0@ == k);
        }
    }

    /// There are as many keyed arrangements as entries.
    pub proof fn lemma_keyed_len(&self)
        requires
            self.wf(),
        ensures
            self.keyed().len() == self.by_keys@.len(),
    {
        let n = self.by_keys@.len();
        let ks = Seq::new(n, |i: int| self.by_keys@[i].0@);
        assert forall|i: int, j: int| 0 <= i < ks.len() && 0 <= j < ks.len() && i != j implies ks[i] != ks[j] by {
            assert(ks[i] == self.by_keys@[i].0@);
            assert(ks[j] == self.by_keys@[j].0@);
        }
        assert(ks.no_duplicates());
        ks.unique_seq_to_set();
        assert forall|k: Seq<usize>| #[trigger] self.keyed().dom().contains(k) <==> ks.to_set().contains(k) by {
            if self.has_keys(k) {
                let i = choose|i: int| 0 <= i < self.by_keys@.len() && #[trigger] self.by_keys@[i].0@ == k;
                assert(ks[i] == k);
            }
            if ks.to_set().contains(k) {
                let i = choose|i: int| 0 <= i < ks.len() && ks[i] == k;
                assert(self.by_keys@[i].0@ == k);
            }
        }
        assert(self.keyed().dom() =~= ks.to_set());
    }

    /// An empty set of traces.
    pub fn new() -> (r: Self)
        ensures
            r.wf(),
            r.by_self is None,
            r.keyed() == Map::<Seq<usize>, Bound<V, C>>::empty(),
    {
        let r = CollectionTraces { by_self: None, by_keys: Vec::new() };
        assert(r.keyed() =~= Map::<Seq<usize>, Bound<V, C>>::empty());
        r
    }

    /// The index of the entry for `keys`, if there is one.
    pub fn position(&self, keys: &[usize]) -> (r: Option<usize>)
        requires
            self.wf(),
        ensures
            match r {
                Some(i) => i < self.by_keys@.len() && self.by_keys@[i as int].0@ == keys@,
                None => !self.has_keys(keys@),
            },
    {
        let mut i: usize = 0;
        while i < self.by_keys.len()
            invariant
                i <= self.by_keys@.len(),
                forall|j: int| 0 <= j < i ==> #[trigger] self.by_keys@[j].0@ != keys@,
            decreases self.by_keys@.len() - i,
        {
            if same_keys(&self.by_keys[i].0, keys) {
                return Some(i);
            }
            i = i + 1;
        }
        None
    }

    /// Binds `bound` under `keys`, replacing (and so releasing) any earlier binding.
    pub fn insert_keyed(&mut self, keys: &[usize], bound: Bound<V, C>)
        requires
            old(self).wf(),
        ensures
            final(self).wf(),
            final(self).by_self == old(self).by_self,
            final(self).keyed() == old(self).keyed().insert(keys@, bound),
    {
        match self.position(keys) {
            Some(i) => {
                let ghost prev = self.by_keys@;
                let entry = &mut self.by_keys[i];
                entry.1 = bound;
                proof {
                    assert(self.by_keys@ == prev.update(i as int, self.by_keys@[i as int]));
                    assert forall|j: int| 0 <= j < self.by_keys@.len() implies #[trigger] self.by_keys@[j].0@ == prev[j].0@ by {}
                    self.lemma_keyed_at(i as int);
                    assert forall|k: Seq<usize>| #[trigger] self.keyed().contains_key(k) <==> old(self).keyed().insert(keys@, bound).contains_key(k) by {
                        if self.has_keys(k) {
                            let j = choose|j: int| 0 <= j < self.by_keys@.len() && #[trigger] self.by_keys@[j].0@ == k;
                            assert(prev[j].0@ == k);
                        }
                        if old(self).has_keys(k) {
                            let j = choose|j: int| 0 <= j < prev.len() && #[trigger] prev[j].0@ == k;
                            assert(self.by_keys@[j].0@ == k);
                        }
                    }
                    assert forall|k: Seq<usize>| #[trigger] self.keyed().contains_key(k) && k != keys@ implies self.keyed()[k] == old(self).keyed()[k] by {
                        let j = choose|j: int| 0 <= j < self.by_keys@.len() && #[trigger] self.by_keys@[j].0@ == k;
                        self.lemma_keyed_at(j);
                        old(self).lemma_keyed_at(j);
                    }
                    assert(self.keyed() =~= old(self).keyed().insert(keys@, bound));
                }
            },
            None => {
                let ghost prev = self.by_keys@;
                self.by_keys.push((copy_keys(keys), bound));
                proof {
                    let n = prev.len() as int;
                    self.lemma_keyed_at(n);
                    assert forall|k: Seq<usize>| #[trigger] self.keyed().contains_key(k) <==> old(self).keyed().insert(keys@, bound).contains_key(k) by {
                        if self.has_keys(k) && k != keys@ {
                            let j = choose|j: int| 0 <= j < self.by_keys@.len() && #[trigger] self.by_keys@[j].0@ == k;
                            assert(prev[j].0@ == k);
                        }
                        if old(self).has_keys(k) {
                            let j = choose|j: int| 0 <= j < prev.len() && #[trigger] prev[j].0@ == k;
                            assert(self.by_keys@[j].0@ == k);
                        }
                    }
                    assert forall|k: Seq<usize>| #[trigger] self.keyed().contains_key(k) && k != keys@ implies self.keyed()[k] == old(self).keyed()[k] by {
                        let j = choose|j: int| 0 <= j < self.by_keys@.len() && #[trigger] self.by_keys@[j].0@ == k;
                        self.lemma_keyed_at(j);
                        old(self).lemma_keyed_at(j);
                    }
                    assert(self.keyed() =~= old(self).keyed().insert(keys@, bound));
                }
            },
        }
    }

    /// The arrangement bound under exactly `keys`, if any.
    pub fn get_keyed(&self, keys: &[usize]) -> (r: Option<&V>)
        requires
            self.wf(),
        ensures
            match r {
                Some(h) => self.keyed().contains_key(keys@) && *h == self.keyed()[keys@].trace,
                None => !self.keyed().contains_key(keys@),
            },
    {
        match self.position(keys) {
            Some(i) => {
                proof {
                    self.lemma_keyed_at(i as int);
                }
                Some(&self.by_keys[i].1.trace)
            },
            None => None,
        }
    }

    /// The arrangement bound under exactly `keys`, should it exist, to be
    /// changed in place.
    pub fn get_keyed_mut(&mut self, keys: &[usize]) -> (r: Option<&mut V>)
        requires
            old(self).wf(),
        ensures
            final(self).by_self == old(self).by_self,
            match r {
                Some(h) => old(self).keyed().contains_key(keys@) && *h == old(self).keyed()[keys@].trace
                    && exists|j: int| 0 <= j < old(self).by_keys@.len() && #[trigger] old(self).by_keys@[j].0@ == keys@
                        && final(self).by_keys@ == old(self).by_keys@.update(j, (old(self).by_keys@[j].0,
                            Bound { trace: *final(h), ..old(self).by_keys@[j].1 })),
                None => !old(self).keyed().contains_key(keys@) && *final(self) == *old(self),
            },
    {
        match self.position(keys) {
            Some(i) => {
                proof {
                    self.lemma_keyed_at(i as int);
                }
                let entry = &mut self.by_keys[i];
                Some(&mut entry.1.trace)
            },
            None => None,
        }
    }
}

impl<S: Arrangement, V: Arrangement, C> CollectionTraces<S, V, C> {
    /// The accumulator right before the keyed entry at `j` is read, in a
    /// sweep whose accumulator starts out holding `acc`: the by-self trace
    /// reads first, then the keyed ones in order. At `j` equal to the number
    /// of entries it is the accumulator after the sweep.
    pub open spec fn acc_before(&self, acc: Seq<u64>, j: int) -> Seq<u64>
        decreases j,
    {
        if j <= 0 {
            match self.by_self {
                Some(b) => b.trace.read_into(acc),
                None => acc,
            }
        } else {
            self.by_keys@[j - 1].1.trace.read_into(self.acc_before(acc, j - 1))
        }
    }

    /// `self` is `old` after a physical merge sweep whose accumulator started
    /// out holding `acc`: each trace distinguished since what its own read
    /// left in the accumulator, and kept its logical frontier.
    pub open spec fn merged_physically_from(&self, old: Self, acc: Seq<u64>) -> bool {
        &&& self.by_self is Some == old.by_self is Some
        &&& self.by_self is Some ==> self.by_self->0.merged_physically_from(old.by_self->0, acc)
        &&& old.same_layout(self)
        &&& forall|j: int| 0 <= j < self.by_keys@.len()
            ==> (#[trigger] self.by_keys@[j]).1.merged_physically_from(old.by_keys@[j].1, old.acc_before(acc, j))
    }

    /// `self` is `old` after every trace was advanced to `frontier`, and
    /// none was distinguished anew.
    pub open spec fn merged_logically_from(&self, old: Self, frontier: Seq<u64>) -> bool {
        &&& self.by_self is Some == old.by_self is Some
        &&& self.by_self is Some ==> self.by_self->0.merged_logically_from(old.by_self->0, frontier)
        &&& old.same_layout(self)
        &&& forall|j: int| 0 <= j < self.by_keys@.len()
            ==> (#[trigger] self.by_keys@[j]).1.merged_logically_from(old.by_keys@[j].1, frontier)
    }

    /// Reads the upper frontier of each arrangement into `antichain` and lets
    /// that arrangement merge its batches below what the accumulator then
    /// holds.
    ///
    /// The by-self arrangement goes first, then the keyed ones; each reads
    /// into the same accumulator. With no arrangement the accumulator is left
    /// as it was.
    pub fn merge_physical(&mut self, antichain: &mut Antichain<u64>)
        requires
            old(self).wf(),
        ensures
            final(self).wf(),
            final(self).merged_physically_from(*old(self), antichain_elements(*old(antichain))),
            antichain_elements(*final(antichain))
                == old(self).acc_before(antichain_elements(*old(antichain)), old(self).by_keys@.len() as int),
    {
        let ghost acc = antichain_elements(*antichain);
        if let Some(b) = &mut self.by_self {
            b.merge_physical(antichain);
        }
        let ghost mid = *self;
        let mut i: usize = 0;
        while i < self.by_keys.len()
            invariant
                i <= self.by_keys@.len(),
                mid.wf(),
                mid.same_layout(self),
                mid.by_keys == old(self).by_keys,
                self.by_self == mid.by_self,
                antichain_elements(*antichain) == old(self).acc_before(acc, i as int),
                forall|j: int| 0 <= j < i ==> (#[trigger] self.by_keys@[j]).1.merged_physically_from(
                    mid.by_keys@[j].1, old(self).acc_before(acc, j)),
                forall|j: int| i <= j < self.by_keys@.len() ==> #[trigger] self.by_keys@[j] == mid.by_keys@[j],
            decreases self.by_keys@.len() - i,
        {
            let entry = &mut self.by_keys[i];
            entry.1.merge_physical(antichain);
            i = i + 1;
        }
        proof {
            CollectionTraces::lemma_same_layout(&mid, self, Seq::empty());
        }
    }

    /// Commits `frontier` as the logical compaction frontier of every
    /// arrangement; nothing is merged physically until the next
    /// `merge_physical`.
    pub fn merge_logical(&mut self, frontier: &[u64])
        requires
            old(self).wf(),
        ensures
            final(self).wf(),
            final(self).merged_logically_from(*old(self), frontier@),
    {
        if let Some(b) = &mut self.by_self {
            b.merge_logical(frontier);
        }
        let ghost mid = *self;
        let mut i: usize = 0;
        while i < self.by_keys.len()
            invariant
                i <= self.by_keys@.len(),
                mid.wf(),
                mid.same_layout(self),
                mid.by_keys == old(self).by_keys,
                self.by_self == mid.by_self,
                forall|j: int| 0 <= j < i ==> (#[trigger] self.by_keys@[j]).1.merged_logically_from(mid.by_keys@[j].1, frontier@),
                forall|j: int| i <= j < self.by_keys@.len() ==> #[trigger] self.by_keys@[j] == mid.by_keys@[j],
            decreases self.by_keys@.len() - i,
        {
            let entry = &mut self.by_keys[i];
            entry.1.merge_logical(frontier);
            i = i + 1;
        }
        proof {
            CollectionTraces::lemma_same_layout(&mid, self, Seq::empty());
        }
    }
}

impl<S, V, C> Default for CollectionTraces<S, V, C> {
    /// An empty set of traces.
    fn default() -> (r: Self)
        ensures
            r.wf(),
            r.by_self is None,
            r.keyed() == Map::<Seq<usize>, Bound<V, C>>::empty(),
    {
        CollectionTraces::new()
    }
}

} // verus!
