//! The small mutable write buffer at the head of the cascade.
//!
//! It holds at most `max` entries with unique keys, in insertion order.
//! Removal here is physical; the buffer is drained in sorted key order when it
//! fills and its contents are promoted into a run.

use vstd::prelude::*;

use crate::entries::has_key;
use crate::entries::keys_of;
use crate::entries::lemma_map_of_dom;
use crate::entries::lemma_map_of_index;
use crate::entries::lemma_map_of_len;
use crate::entries::lemma_map_of_push;
use crate::entries::lemma_map_of_remove;
use crate::entries::lemma_map_of_update_value;
use crate::entries::lemma_sorted_unique;
use crate::entries::lemma_unique_remove;
use crate::entries::map_of;
use crate::entries::sorted_strict;
use crate::entries::unique_keys;

verus! {

pub struct Slot<V> {
    max: usize,
    keys: Vec<u64>,
    values: Vec<V>,
}

impl<V> Slot<V> {
    /// The buffer's entries as a key/value sequence, in insertion order.
    pub closed spec fn pairs(self) -> Seq<(u64, V)> {
        Seq::new(self.keys@.len(), |i: int| (self.keys@[i], self.values@[i]))
    }

    /// The map the buffer holds.
    pub open spec fn as_map(self) -> Map<u64, V> {
        map_of(self.pairs())
    }

    pub open spec fn spec_len(self) -> int {
        self.pairs().len() as int
    }

    pub closed spec fn spec_max(self) -> int {
        self.max as int
    }

    pub closed spec fn wf(self) -> bool {
        &&& self.keys@.len() == self.values@.len()
        &&& unique_keys(self.pairs())
        &&& self.keys@.len() <= self.max
        &&& 1 <= self.max
    }

    /// A key is in the buffer exactly when the map holds it.
    pub proof fn lemma_key_in_map(self)
        ensures
            forall|k: u64| #[trigger] self.as_map().contains_key(k) <==> has_key(self.pairs(), k),
    {
        lemma_map_of_dom(self.pairs());
    }

    /// The buffer holds one map entry per stored pair.
    pub proof fn lemma_map_len(self)
        requires
            self.wf(),
        ensures
            self.as_map().dom().finite(),
            self.as_map().dom().len() == self.spec_len(),
    {
        lemma_map_of_len(self.pairs());
    }

    pub fn new(max: usize) -> (r: Slot<V>)
        requires
            1 <= max,
        ensures
            r.wf(),
            r.spec_max() == max,
            r.spec_len() == 0,
            r.as_map() == Map::<u64, V>::empty(),
    {
        let r = Slot { max, keys: Vec::new(), values: Vec::new() };
        proof {
            assert(r.pairs() =~= Seq::<(u64, V)>::empty());
        }
        r
    }

    pub fn len(&self) -> (r: usize)
        ensures
            r == self.spec_len(),
    {
        self.keys.len()
    }

    pub fn max_size(&self) -> (r: usize)
        ensures
            r == self.spec_max(),
    {
        self.max
    }

    /// Index of the entry holding `k`, if any.
    fn find(&self, k: u64) -> (r: Option<usize>)
        requires
            self.wf(),
        ensures
            match r {
                Some(i) => i < self.pairs().len() && self.pairs()[i as int].0 == k,
                None => !has_key(self.pairs(), k),
            },
    {
        let n: usize = self.keys.len();
        let mut i: usize = 0;
        while i < n
            invariant
                i <= n,
                n == self.keys@.len(),
                self.wf(),
                forall|j: int| 0 <= j < i ==> self.pairs()[j].0 != k,
            decreases n - i,
        {
            if self.keys[i] == k {
                assert(self.pairs()[i as int].0 == k);
                return Some(i);
            }
            assert(self.pairs()[i as int].0 != k);
            i += 1;
        }
        None
    }

    pub fn contains(&self, k: &u64) -> (r: bool)
        requires
            self.wf(),
        ensures
            r == self.as_map().contains_key(*k),
    {
        proof {
            self.lemma_key_in_map();
        }
        self.find(*k).is_some()
    }

    pub fn get(&self, k: &u64) -> (r: Option<&V>)
        requires
            self.wf(),
        ensures
            match r {
                Some(v) => self.as_map().contains_key(*k) && *v == self.as_map()[*k],
                None => !self.as_map().contains_key(*k),
            },
    {
        proof {
            self.lemma_key_in_map();
        }
        match self.find(*k) {
            Some(i) => {
                proof {
                    lemma_map_of_index(self.pairs(), i as int);
                }
                Some(&self.values[i])
            },
            None => None,
        }
    }

    /// A mutable borrow of the value of entry `i`.
    fn value_mut<'t>(&'t mut self, i: usize) -> (p: &'t mut V)
        requires
            old(self).wf(),
            i < old(self).pairs().len(),
        ensures
            *p == old(self).pairs()[i as int].1,
            final(self).pairs() == old(self).pairs().update(
                i as int,
                (old(self).pairs()[i as int].0, *final(p)),
            ),
            final(self).wf(),
            final(self).spec_max() == old(self).spec_max(),
            final(self).spec_len() == old(self).spec_len(),
    {
        proof {
            lemma_map_of_update_value(self.pairs(), i as int);
            assert forall|w: V|
                unique_keys(
                    #[trigger] self.pairs().update(i as int, (self.pairs()[i as int].0, w)),
                ) by {
                let t = self.pairs().update(i as int, (self.pairs()[i as int].0, w));
                assert forall|a: int, b: int| 0 <= a < b < t.len() implies t[a].0 != t[b].0 by {
                    assert(t[a].0 == self.pairs()[a].0);
                    assert(t[b].0 == self.pairs()[b].0);
                }
            }
        }
        &mut self.values[i]
    }

    pub fn get_mut<'t>(&'t mut self, k: &u64) -> (r: Option<&'t mut V>)
        requires
            old(self).wf(),
        ensures
            r is Some <==> old(self).as_map().contains_key(*k),
            r matches Some(p) ==> {
                &&& *p == old(self).as_map()[*k]
                &&& final(self).as_map() == old(self).as_map().insert(*k, *final(p))
                &&& final(self).wf()
                &&& final(self).spec_max() == old(self).spec_max()
                &&& final(self).spec_len() == old(self).spec_len()
            },
            r is None ==> *final(self) == *old(self),
    {
        proof {
            self.lemma_key_in_map();
        }
        let ghost orig = *self;
        match self.find(*k) {
            Some(i) => {
                proof {
                    lemma_map_of_index(orig.pairs(), i as int);
                    lemma_map_of_update_value(orig.pairs(), i as int);
                }
                Some(self.value_mut(i))
            },
            None => None,
        }
    }

    /// Insert or replace. Returns the prior value for an existing key, and
    /// whether the buffer is full after an append.
    pub fn insert(&mut self, k: u64, v: V) -> (r: (Option<V>, bool))
        requires
            old(self).wf(),
            old(self).spec_len() < old(self).spec_max() || old(self).as_map().contains_key(k),
        ensures
            final(self).wf(),
            final(self).spec_max() == old(self).spec_max(),
            final(self).as_map() == old(self).as_map().insert(k, v),
            r.0 == if old(self).as_map().contains_key(k) {
                Some(old(self).as_map()[k])
            } else {
                Option::<V>::None
            },
            final(self).spec_len() == old(self).spec_len() + if old(self).as_map().contains_key(k) {
                0int
            } else {
                1int
            },
            r.1 == (!old(self).as_map().contains_key(k) && final(self).spec_len() == final(self).spec_max()),
    {
        proof {
            self.lemma_key_in_map();
        }
        let ghost orig = *self;
        match self.find(k) {
            Some(i) => {
                proof {
                    lemma_map_of_index(orig.pairs(), i as int);
                    lemma_map_of_update_value(orig.pairs(), i as int);
                }
                let mut tmp = v;
                core::mem::swap(&mut tmp, &mut self.values[i]);
                proof {
                    assert(self.pairs() =~= orig.pairs().update(i as int, (k, v)));
                    assert(unique_keys(self.pairs())) by {
                        assert(forall|j: int|
                            0 <= j < orig.pairs().len() ==> self.pairs()[j].0
                                == orig.pairs()[j].0);
                    }
                }
                (Some(tmp), false)
            },
            None => {
                self.keys.push(k);
                self.values.push(v);
                proof {
                    assert(self.pairs() =~= orig.pairs().push((k, v)));
                    lemma_map_of_push(orig.pairs(), (k, v));
                    assert(unique_keys(self.pairs()));
                }
                let full = self.keys.len() == self.max;
                (None, full)
            },
        }
    }

    /// Physical removal: the entry leaves the buffer.
    pub fn remove(&mut self, k: &u64) -> (r: Option<V>)
        requires
            old(self).wf(),
        ensures
            final(self).wf(),
            final(self).spec_max() == old(self).spec_max(),
            final(self).as_map() == old(self).as_map().remove(*k),
            r == if old(self).as_map().contains_key(*k) {
                Some(old(self).as_map()[*k])
            } else {
                Option::<V>::None
            },
            final(self).spec_len() == old(self).spec_len() - if old(self).as_map().contains_key(*k) {
                1int
            } else {
                0int
            },
            !old(self).as_map().contains_key(*k) ==> *final(self) == *old(self),
    {
        proof {
            self.lemma_key_in_map();
        }
        let ghost orig = *self;
        match self.find(*k) {
            Some(i) => {
                proof {
                    lemma_map_of_index(orig.pairs(), i as int);
                    lemma_map_of_remove(orig.pairs(), i as int);
                    lemma_unique_remove(orig.pairs(), i as int);
                }
                self.keys.remove(i);
                let v = self.values.remove(i);
                proof {
                    assert(self.pairs() =~= orig.pairs().remove(i as int));
                }
                Some(v)
            },
            None => {
                proof {
                    assert(orig.as_map().remove(*k) =~= orig.as_map());
                }
                None
            },
        }
    }

    /// Drain every entry, in ascending key order. The buffer is left empty.
    pub fn take_sorted(&mut self) -> (out: Vec<(u64, V)>)
        requires
            old(self).wf(),
        ensures
            final(self).wf(),
            final(self).spec_max() == old(self).spec_max(),
            final(self).spec_len() == 0,
            final(self).as_map() == Map::<u64, V>::empty(),
            sorted_strict(keys_of(out@)),
            unique_keys(out@),
            map_of(out@) == old(self).as_map(),
            out@.len() == old(self).spec_len(),
    {
        let ghost orig = *self;
        let mut out: Vec<(u64, V)> = Vec::new();
        proof {
            assert(out@ =~= Seq::<(u64, V)>::empty());
        }
        while self.keys.len() > 0
            invariant
                self.wf(),
                self.spec_max() == orig.spec_max(),
                sorted_strict(keys_of(out@)),
                out@.len() + self.pairs().len() == orig.pairs().len(),
                forall|a: int, b: int|
                    0 <= a < out@.len() && 0 <= b < self.pairs().len() ==> (#[trigger] out@[a]).0
                        < (#[trigger] self.pairs()[b]).0,
                map_of(out@).union_prefer_right(self.as_map()) == orig.as_map(),
                unique_keys(out@),
            decreases self.keys@.len(),
        {
            let n: usize = self.keys.len();
            let mut m: usize = 0;
            let mut j: usize = 1;
            while j < n
                invariant
                    m < j <= n,
                    n == self.keys@.len(),
                    self.wf(),
                    forall|a: int| 0 <= a < j ==> self.keys@[m as int] <= self.keys@[a],
                decreases n - j,
            {
                if self.keys[j] < self.keys[m] {
                    m = j;
                }
                j += 1;
            }
            let ghost before = *self;
            let ghost outb = out@;
            proof {
                lemma_map_of_index(before.pairs(), m as int);
                lemma_map_of_remove(before.pairs(), m as int);
                lemma_unique_remove(before.pairs(), m as int);
                lemma_map_of_dom(before.pairs());
                lemma_map_of_dom(before.pairs().remove(m as int));
            }
            let k = self.keys.remove(m);
            let v = self.values.remove(m);
            out.push((k, v));
            proof {
                assert(self.pairs() =~= before.pairs().remove(m as int));
                lemma_map_of_push(outb, (k, v));
                // the taken key is the strict minimum of what remains
                assert forall|b: int| 0 <= b < self.pairs().len() implies k
                    < (#[trigger] self.pairs()[b]).0 by {
                    let b0 = if b < m { b } else { b + 1 };
                    assert(self.pairs()[b] == before.pairs()[b0]);
                    assert(before.keys@[m as int] <= before.keys@[b0]);
                    assert(before.pairs()[m as int].0 != before.pairs()[b0].0);
                }
                assert forall|a: int, b: int|
                    0 <= a < out@.len() && 0 <= b < self.pairs().len() implies (
                #[trigger] out@[a]).0 < (#[trigger] self.pairs()[b]).0 by {
                    if a < outb.len() {
                        let b0 = if b < m { b } else { b + 1 };
                        assert(self.pairs()[b] == before.pairs()[b0]);
                        assert(outb[a].0 < before.pairs()[b0].0);
                    }
                }
                assert forall|a: int, b: int| 0 <= a < b < keys_of(out@).len() implies keys_of(
                    out@,
                )[a] < keys_of(out@)[b] by {
                    assert(keys_of(out@)[a] == out@[a].0);
                    assert(keys_of(out@)[b] == out@[b].0);
                    if b < outb.len() {
                        assert(keys_of(outb)[a] == outb[a].0);
                        assert(keys_of(outb)[b] == outb[b].0);
                        assert(keys_of(outb)[a] < keys_of(outb)[b]);
                    } else {
                        assert(out@[b] == (k, v));
                        assert(outb[a].0 < before.pairs()[m as int].0);
                    }
                }
                assert(unique_keys(out@));
                assert(map_of(out@).union_prefer_right(self.as_map()) =~= orig.as_map());
            }
        }
        proof {
            assert(self.pairs() =~= Seq::<(u64, V)>::empty());
            assert(map_of(out@).union_prefer_right(self.as_map()) =~= map_of(out@));
        }
        out
    }
}

} // verus!
