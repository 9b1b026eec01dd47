use std::collections::HashMap;
use std::hash::Hash;
use vstd::prelude::*;
use vstd::std_specs::hash::obeys_key_model;

verus! {

broadcast use vstd::std_specs::hash::group_hash_axioms;

/// Occurrence counts of keys, which remembers the order in which keys first came.
pub struct Tally<K> {
    slots: HashMap<K, usize>,
    keys: Vec<K>,
    counts: Vec<u64>,
}

impl<K: Copy + Eq + Hash> View for Tally<K> {
    type V = Map<K, u64>;

    closed spec fn view(&self) -> Map<K, u64> {
        Map::new(|k: K| self.slots@.contains_key(k), |k: K| self.counts@[self.slots@[k] as int])
    }
}

impl<K: Copy + Eq + Hash> Tally<K> {
    /// The keys in the order in which they first came.
    pub closed spec fn order(&self) -> Seq<K> {
        self.keys@
    }

    pub closed spec fn wf(&self) -> bool {
        &&& obeys_key_model::<K>()
        &&& self.keys@.len() == self.counts@.len()
        &&& forall|i: int|
            0 <= i < self.keys@.len() ==> #[trigger] self.slots@.contains_key(self.keys@[i])
                && self.slots@[self.keys@[i]] == i
        &&& forall|k: K| #[trigger]
            self.slots@.contains_key(k) ==> self.slots@[k] < self.keys@.len() && self.keys@[self.slots@[k] as int] == k
    }

    /// What a well-formed tally guarantees of its order.
    pub proof fn lemma_order(&self)
        requires
            self.wf(),
        ensures
            self.order().no_duplicates(),
            forall|k: K| self@.contains_key(k) <==> self.order().contains(k),
            self@.dom().finite(),
    {
        assert forall|i: int, j: int| 0 <= i < j < self.keys@.len() implies self.keys@[i] != self.keys@[j] by {
            assert(self.slots@.contains_key(self.keys@[i]));
            assert(self.slots@.contains_key(self.keys@[j]));
        }
        assert forall|k: K| self@.contains_key(k) <==> self.order().contains(k) by {
            if self.order().contains(k) {
                let i = choose|i: int| 0 <= i < self.keys@.len() && self.keys@[i] == k;
                assert(self.slots@.contains_key(self.keys@[i]));
            }
            if self@.contains_key(k) {
                assert(self.keys@[self.slots@[k] as int] == k);
            }
        }
        assert(self@.dom() =~= self.order().to_set());
        vstd::seq_lib::seq_to_set_is_finite(self.order());
    }

    /// An empty tally.
    pub fn new() -> (r: Self)
        requires
            obeys_key_model::<K>(),
        ensures
            r.wf(),
            r@ == Map::<K, u64>::empty(),
            r.order() == Seq::<K>::empty(),
    {
        let r = Tally { slots: HashMap::new(), keys: Vec::new(), counts: Vec::new() };
        assert(r@ =~= Map::<K, u64>::empty());
        r
    }

    /// Counts one more occurrence of `k`.
    pub fn add(&mut self, k: K)
        requires
            old(self).wf(),
            old(self)@.contains_key(k) ==> old(self)@[k] < u64::MAX,
        ensures
            final(self).wf(),
            final(self)@ == old(self)@.insert(
                k,
                if old(self)@.contains_key(k) {
                    (old(self)@[k] + 1) as u64
                } else {
                    1
                },
            ),
            final(self).order() == if old(self)@.contains_key(k) {
                old(self).order()
            } else {
                old(self).order().push(k)
            },
    {
        let ghost before = self@;
        match self.slots.get(&k) {
            Some(i) => {
                let i = *i;
                let c = self.counts[i];
                self.counts.set(i, c + 1);
                assert(self@ =~= before.insert(k, (before[k] + 1) as u64));
            },
            None => {
                let i = self.keys.len();
                self.slots.insert(k, i);
                self.keys.push(k);
                self.counts.push(1);
                assert(self@ =~= before.insert(k, 1));
            },
        }
    }

    /// The keys with their counts, in the order in which the keys first came.
    pub fn entries(&self) -> (r: Vec<(K, u64)>)
        requires
            self.wf(),
        ensures
            r@.len() == self.order().len(),
            forall|i: int| 0 <= i < r@.len() ==> #[trigger] r@[i].0 == self.order()[i] && r@[i].1 == self@[r@[i].0],
    {
        let mut out: Vec<(K, u64)> = Vec::new();
        let mut i: usize = 0;
        while i < self.keys.len()
            invariant
                self.wf(),
                i <= self.keys@.len(),
                out@.len() == i,
                forall|l: int| 0 <= l < i ==> #[trigger] out@[l].0 == self.keys@[l] && out@[l].1 == self@[out@[l].0],
            decreases self.keys@.len() - i,
        {
            let k = self.keys[i];
            assert(self.slots@.contains_key(self.keys@[i as int]));
            out.push((k, self.counts[i]));
            i = i + 1;
        }
        out
    }

    /// The number of distinct keys.
    pub fn len(&self) -> (r: usize)
        requires
            self.wf(),
        ensures
            r == self@.dom().len(),
    {
        proof {
            self.lemma_order();
            self.order().unique_seq_to_set();
            assert(self@.dom() =~= self.order().to_set());
        }
        self.keys.len()
    }
}

} // verus!
