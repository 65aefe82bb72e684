//! An immutable-after-construction sorted run.
//!
//! A run carries a strictly ascending key vector, a parallel value vector and
//! a bitmap of its fixed capacity. A cleared bit marks a tombstone: the key
//! still occupies its position and takes part in binary search, but a lookup
//! there reports the key as absent.

use vstd::prelude::*;

use crate::entries::count_true;
use crate::entries::has_key;
use crate::entries::keys_of;
use crate::entries::lemma_count_true_bounds;
use crate::entries::lemma_count_true_full;
use crate::entries::lemma_count_true_zero;
use crate::entries::lemma_live_prefix_all_live;
use crate::entries::lemma_live_prefix_len;
use crate::entries::lemma_live_prefix_props;
use crate::entries::lemma_map_of_len;
use crate::entries::lemma_sorted_unique;
use crate::entries::live_prefix;
use crate::entries::map_of;
use crate::entries::sorted_strict;
use crate::entries::unique_keys;
use crate::flags::Flags;

verus! {

/// Relies on `Vec::shrink_to_fit`: it releases spare capacity and leaves the
/// contents unchanged.
#[verifier::external_body]
fn vec_shrink<T>(v: &mut Vec<T>)
    ensures
        final(v)@ == old(v)@,
{
    v.shrink_to_fit()
}

pub struct MapMultiSlot<V> {
    capacity: usize,
    flags: Flags,
    keys: Vec<u64>,
    values: Vec<V>,
}

impl<V> MapMultiSlot<V> {
    pub closed spec fn key_seq(self) -> Seq<u64> {
        self.keys@
    }

    pub closed spec fn flag_seq(self) -> Seq<bool> {
        self.flags@
    }

    pub closed spec fn val_seq(self) -> Seq<V> {
        self.values@
    }

    pub closed spec fn spec_capacity(self) -> int {
        self.capacity as int
    }

    /// Keys stored, tombstoned ones included.
    pub open spec fn stored(self) -> int {
        self.key_seq().len() as int
    }

    pub open spec fn wf(self) -> bool {
        &&& self.key_seq().len() == self.val_seq().len()
        &&& self.flag_seq().len() == self.spec_capacity()
        &&& self.stored() <= self.spec_capacity()
        &&& sorted_strict(self.key_seq())
        &&& forall|j: int| self.stored() <= j < self.spec_capacity() ==> !self.flag_seq()[j]
    }

    pub open spec fn is_empty_spec(self) -> bool {
        self.stored() == 0
    }

    /// The live entries, in key order.
    pub open spec fn live(self) -> Seq<(u64, V)> {
        live_prefix(self.key_seq(), self.flag_seq(), self.val_seq(), self.stored())
    }

    /// The map of live entries.
    pub open spec fn as_map(self) -> Map<u64, V> {
        map_of(self.live())
    }

    /// How many entries are live.
    pub open spec fn live_count(self) -> int {
        count_true(self.flag_seq(), self.stored())
    }

    /// Key `k` is stored and not tombstoned.
    pub open spec fn live_at(self, k: u64) -> bool {
        exists|j: int| 0 <= j < self.stored() && self.key_seq()[j] == k && self.flag_seq()[j]
    }

    /// The facts every caller needs about a well-formed run's live entries.
    pub proof fn lemma_live(self)
        requires
            self.wf(),
        ensures
            self.live().len() == self.live_count(),
            0 <= self.live_count() <= self.stored(),
            sorted_strict(keys_of(self.live())),
            unique_keys(self.live()),
            forall|k: u64| #[trigger] self.as_map().contains_key(k) <==> self.live_at(k),
            self.as_map().dom().finite(),
            self.as_map().dom().len() == self.live_count(),
            forall|j: int|
                0 <= j < self.stored() && #[trigger] self.flag_seq()[j] ==> self.as_map().contains_key(
                    self.key_seq()[j],
                ) && self.as_map()[self.key_seq()[j]] == self.val_seq()[j],
    {
        lemma_live_prefix_len(self.key_seq(), self.flag_seq(), self.val_seq(), self.stored());
        lemma_count_true_bounds(self.flag_seq(), self.stored());
        lemma_live_prefix_props(self.key_seq(), self.flag_seq(), self.val_seq(), self.stored());
        lemma_sorted_unique(self.live());
        lemma_map_of_len(self.live());
        crate::entries::lemma_map_of_dom(self.live());
        assert forall|k: u64| #[trigger] self.as_map().contains_key(k) implies self.live_at(
            k,
        ) by {
            assert(has_key(self.live(), k));
        }
        assert forall|k: u64| self.live_at(k) implies self.as_map().contains_key(k) by {
            let j = choose|j: int|
                0 <= j < self.stored() && self.key_seq()[j] == k && #[trigger] self.flag_seq()[j];
            assert(self.as_map().contains_key(self.key_seq()[j]));
        }
    }

    /// Two runs with matching key and flag columns, matching capacity, and
    /// matching values at every live position hold the same entries.
    pub proof fn lemma_cols_agree(self, other: MapMultiSlot<V>)
        requires
            other.key_seq() == self.key_seq(),
            other.flag_seq() == self.flag_seq(),
            other.val_seq().len() == self.val_seq().len(),
            other.spec_capacity() == self.spec_capacity(),
            forall|j: int|
                0 <= j < self.stored() && #[trigger] self.flag_seq()[j] ==> other.val_seq()[j]
                    == self.val_seq()[j],
        ensures
            other.live() == self.live(),
            other.as_map() == self.as_map(),
            other.live_count() == self.live_count(),
            other.stored() == self.stored(),
            forall|k: u64| #[trigger] other.live_at(k) <==> self.live_at(k),
            other.wf() == self.wf(),
    {
        crate::entries::lemma_live_prefix_agree(
            self.key_seq(),
            self.flag_seq(),
            self.val_seq(),
            other.key_seq(),
            other.flag_seq(),
            other.val_seq(),
            self.stored(),
        );
    }

    /// Updating the value at a live position inserts the new value at that
    /// position's key.
    pub proof fn lemma_value_update(self, other: MapMultiSlot<V>, idx: int)
        requires
            self.wf(),
            0 <= idx < self.stored(),
            self.flag_seq()[idx],
            other.key_seq() == self.key_seq(),
            other.flag_seq() == self.flag_seq(),
            other.val_seq() == self.val_seq().update(idx, other.val_seq()[idx]),
            other.val_seq().len() == self.val_seq().len(),
            other.spec_capacity() == self.spec_capacity(),
        ensures
            other.wf(),
            other.as_map() == self.as_map().insert(self.key_seq()[idx], other.val_seq()[idx]),
            other.live_count() == self.live_count(),
            other.stored() == self.stored(),
            forall|k: u64| #[trigger] other.live_at(k) <==> self.live_at(k),
            other.live_at(self.key_seq()[idx]),
    {
        self.lemma_live();
        lemma_live_prefix_props(other.key_seq(), other.flag_seq(), other.val_seq(), other.stored());
        crate::entries::lemma_map_of_dom(other.live());
        crate::entries::lemma_live_prefix_len(
            other.key_seq(),
            other.flag_seq(),
            other.val_seq(),
            other.stored(),
        );
        let k0 = self.key_seq()[idx];
        let w = other.val_seq()[idx];
        assert(other.as_map() =~= self.as_map().insert(k0, w)) by {
            assert forall|k: u64| #[trigger] other.as_map().contains_key(k) implies self.as_map().insert(
                k0,
                w,
            ).contains_key(k) by {
                let j = choose|j: int|
                    0 <= j < other.stored() && other.key_seq()[j] == k && #[trigger] other.flag_seq()[j];
                if k != k0 {
                    assert(self.live_at(k));
                }
            }
            assert forall|k: u64| self.as_map().insert(k0, w).contains_key(
                k,
            ) implies #[trigger] other.as_map().contains_key(k) by {
                if k == k0 {
                    assert(other.flag_seq()[idx] && other.key_seq()[idx] == k);
                    assert(exists|j: int|
                        0 <= j < other.stored() && other.key_seq()[j] == k
                            && #[trigger] other.flag_seq()[j]);
                } else {
                    let j = choose|j: int|
                        0 <= j < self.stored() && self.key_seq()[j] == k
                            && #[trigger] self.flag_seq()[j];
                    assert(exists|jj: int|
                        0 <= jj < other.stored() && other.key_seq()[jj] == k
                            && #[trigger] other.flag_seq()[jj]);
                }
            }
            assert forall|k: u64| #[trigger] other.as_map().contains_key(k) implies other.as_map()[k]
                == self.as_map().insert(k0, w)[k] by {
                let j = choose|j: int|
                    0 <= j < other.stored() && other.key_seq()[j] == k && #[trigger] other.flag_seq()[j];
                assert(other.as_map()[k] == other.val_seq()[j]);
                if j == idx {
                    assert(k == k0);
                } else {
                    assert(k != k0) by {
                        if j < idx {
                            assert(self.key_seq()[j] < self.key_seq()[idx]);
                        } else {
                            assert(self.key_seq()[idx] < self.key_seq()[j]);
                        }
                    }
                    assert(self.as_map()[k] == self.val_seq()[j]);
                    assert(other.val_seq()[j] == self.val_seq()[j]);
                }
            }
        }
    }

    /// Clearing the flag of a live position removes that position's key.
    pub proof fn lemma_unset(self, other: MapMultiSlot<V>, idx: int)
        requires
            self.wf(),
            0 <= idx < self.stored(),
            self.flag_seq()[idx],
            other.key_seq() == self.key_seq(),
            other.flag_seq() == self.flag_seq().update(idx, false),
            other.val_seq() == self.val_seq(),
            other.spec_capacity() == self.spec_capacity(),
        ensures
            other.wf(),
            other.as_map() == self.as_map().remove(self.key_seq()[idx]),
            other.live_count() == self.live_count() - 1,
            other.stored() == self.stored(),
            forall|kk: u64| #[trigger] other.live_at(kk) <==> (self.live_at(kk) && kk
                != self.key_seq()[idx]),
    {
        let k = self.key_seq()[idx];
        self.lemma_live();
        assert(other.wf()) by {
            assert forall|j: int|
                other.stored() <= j < other.spec_capacity() implies !other.flag_seq()[j] by {
                assert(!self.flag_seq()[j]);
            }
        }
        other.lemma_live();
        crate::entries::lemma_count_true_update(self.flag_seq(), idx, false, self.stored());
        assert forall|kk: u64| #[trigger] other.live_at(kk) implies (self.live_at(kk) && kk
            != k) by {
            let j = choose|j: int|
                0 <= j < other.stored() && other.key_seq()[j] == kk && #[trigger] other.flag_seq()[j];
            assert(j != idx);
            assert(self.flag_seq()[j]);
            assert(kk != k) by {
                if j < idx {
                    assert(self.key_seq()[j] < self.key_seq()[idx]);
                } else {
                    assert(self.key_seq()[idx] < self.key_seq()[j]);
                }
            }
        }
        assert forall|kk: u64| self.live_at(kk) && kk != k implies #[trigger] other.live_at(
            kk,
        ) by {
            let j = choose|j: int|
                0 <= j < self.stored() && self.key_seq()[j] == kk && #[trigger] self.flag_seq()[j];
            assert(j != idx);
            assert(other.flag_seq()[j]);
            assert(exists|jj: int|
                0 <= jj < other.stored() && other.key_seq()[jj] == kk
                    && #[trigger] other.flag_seq()[jj]);
        }
        assert(other.as_map() =~= self.as_map().remove(k)) by {
            assert forall|kk: u64| #[trigger] other.as_map().contains_key(kk) implies self.as_map().remove(
                k,
            ).contains_key(kk) && other.as_map()[kk] == self.as_map()[kk] by {
                assert(other.live_at(kk));
                assert(self.live_at(kk) && kk != k);
                let j = choose|j: int|
                    0 <= j < other.stored() && other.key_seq()[j] == kk
                        && #[trigger] other.flag_seq()[j];
                assert(other.as_map()[kk] == other.val_seq()[j]);
                assert(self.flag_seq()[j]);
                assert(self.as_map()[kk] == self.val_seq()[j]);
            }
            assert forall|kk: u64| self.as_map().remove(k).contains_key(
                kk,
            ) implies #[trigger] other.as_map().contains_key(kk) by {
                assert(self.live_at(kk) && kk != k);
                assert(other.live_at(kk));
            }
        }
    }

    /// An empty run of the given capacity, all flags cleared.
    pub fn empty(capacity: usize) -> (r: MapMultiSlot<V>)
        ensures
            r.wf(),
            r.spec_capacity() == capacity,
            r.is_empty_spec(),
            r.stored() == 0,
            r.live_count() == 0,
            r.as_map() == Map::<u64, V>::empty(),
    {
        let r = MapMultiSlot {
            capacity,
            flags: Flags::nulls(capacity),
            keys: Vec::new(),
            values: Vec::new(),
        };
        r
    }

    /// Populate an empty run with sorted entries; every flag of the filled
    /// prefix is set.
    pub fn fill_in(&mut self, items: Vec<(u64, V)>)
        requires
            old(self).wf(),
            old(self).is_empty_spec(),
            sorted_strict(keys_of(items@)),
            items@.len() <= old(self).spec_capacity(),
        ensures
            final(self).wf(),
            final(self).spec_capacity() == old(self).spec_capacity(),
            final(self).stored() == items@.len(),
            final(self).live_count() == items@.len(),
            final(self).key_seq() == keys_of(items@),
            forall|j: int| 0 <= j < items@.len() ==> #[trigger] final(self).flag_seq()[j],
            final(self).live() == items@,
            final(self).as_map() == map_of(items@),
    {
        let ghost its = items@;
        let ghost cap0 = old(self).spec_capacity();
        let mut items = items;
        let n: usize = items.len();
        self.flags.set_ones(n);
        let mut i: usize = 0;
        while items.len() > 0
            invariant
                self.spec_capacity() == cap0,
                i + items@.len() == n,
                n == its.len(),
                items@ == its.subrange(i as int, n as int),
                self.keys@.len() == i,
                self.values@.len() == i,
                forall|j: int| 0 <= j < i ==> self.keys@[j] == its[j].0 && self.values@[j]
                    == its[j].1,
                self.flags@.len() == self.spec_capacity(),
                n <= self.spec_capacity(),
                forall|j: int| 0 <= j < n ==> self.flags@[j],
                forall|j: int| n <= j < self.spec_capacity() ==> !self.flags@[j],
            decreases items@.len(),
        {
            let p = items.remove(0);
            proof {
                assert(p == its[i as int]);
            }
            self.keys.push(p.0);
            self.values.push(p.1);
            proof {
                assert(items@ =~= its.subrange(i + 1 as int, n as int));
            }
            i += 1;
        }
        proof {
            assert(self.key_seq() =~= keys_of(its));
            assert forall|a: int, b: int| 0 <= a < b < self.key_seq().len() implies self.key_seq()[a]
                < self.key_seq()[b] by {
                assert(keys_of(its)[a] == its[a].0);
                assert(keys_of(its)[b] == its[b].0);
            }
            lemma_live_prefix_all_live(self.key_seq(), self.flag_seq(), self.val_seq(), n as int);
            lemma_count_true_full(self.flag_seq(), n as int);
            assert(self.live() =~= its);
        }
    }

    /// A run built from sorted entries: capacity equals their number and every
    /// flag is set.
    pub fn new(items: Vec<(u64, V)>) -> (r: MapMultiSlot<V>)
        requires
            sorted_strict(keys_of(items@)),
        ensures
            r.wf(),
            r.spec_capacity() == items@.len(),
            r.stored() == items@.len(),
            r.live_count() == items@.len(),
            r.live() == items@,
            r.as_map() == map_of(items@),
    {
        let mut r = MapMultiSlot::empty(items.len());
        r.fill_in(items);
        r
    }

    pub fn capacity(&self) -> (r: usize)
        ensures
            r == self.spec_capacity(),
    {
        self.capacity
    }

    pub fn stored_len(&self) -> (r: usize)
        ensures
            r == self.stored(),
    {
        self.keys.len()
    }

    pub fn is_empty(&self) -> (r: bool)
        ensures
            r == self.is_empty_spec(),
    {
        self.keys.len() == 0
    }

    /// Binary search among the stored keys; a hit at a tombstoned position
    /// reports the key as absent.
    pub fn contains(&self, k: &u64) -> (r: Option<usize>)
        requires
            self.wf(),
        ensures
            match r {
                Some(j) => j < self.stored() && self.key_seq()[j as int] == *k
                    && self.flag_seq()[j as int],
                None => !self.live_at(*k),
            },
    {
        let n: usize = self.keys.len();
        if n == 0 {
            return None;
        }
        if *k < self.keys[0] || *k > self.keys[n - 1] {
            proof {
                assert forall|j: int| 0 <= j < self.stored() implies self.key_seq()[j] != *k by {
                    if j > 0 {
                        assert(self.key_seq()[0] < self.key_seq()[j]);
                    }
                    if j < n - 1 {
                        assert(self.key_seq()[j] < self.key_seq()[n - 1]);
                    }
                }
            }
            return None;
        }
        let mut lo: usize = 0;
        let mut hi: usize = n;
        while lo < hi
            invariant
                lo <= hi <= n,
                n == self.stored(),
                self.wf(),
                forall|j: int| 0 <= j < lo ==> self.key_seq()[j] < *k,
                forall|j: int| hi <= j < n ==> self.key_seq()[j] > *k,
            decreases hi - lo,
        {
            let mid: usize = lo + (hi - lo) / 2;
            if self.keys[mid] < *k {
                proof {
                    assert forall|j: int| 0 <= j < mid + 1 implies self.key_seq()[j] < *k by {
                        if j < mid {
                            assert(self.key_seq()[j] < self.key_seq()[mid as int]);
                        }
                    }
                }
                lo = mid + 1;
            } else if *k < self.keys[mid] {
                proof {
                    assert forall|j: int| mid <= j < n implies self.key_seq()[j] > *k by {
                        if j > mid {
                            assert(self.key_seq()[mid as int] < self.key_seq()[j]);
                        }
                    }
                }
                hi = mid;
            } else {
                if self.flags.get(mid) {
                    return Some(mid);
                }
                proof {
                    assert forall|j: int|
                        0 <= j < self.stored() && self.key_seq()[j] == *k implies !self.flag_seq()[j] by {
                        if j < mid {
                            assert(self.key_seq()[j] < self.key_seq()[mid as int]);
                        }
                        if j > mid {
                            assert(self.key_seq()[mid as int] < self.key_seq()[j]);
                        }
                    }
                }
                return None;
            }
        }
        proof {
            assert forall|j: int| 0 <= j < self.stored() implies self.key_seq()[j] != *k by {}
        }
        None
    }

    /// The value stored at position `idx`.
    pub fn value_at(&self, idx: usize) -> (r: &V)
        requires
            self.wf(),
            idx < self.stored(),
        ensures
            *r == self.val_seq()[idx as int],
    {
        &self.values[idx]
    }

    /// Replace the value at a live position, returning the prior value.
    pub fn swap_value(&mut self, idx: usize, v: V) -> (r: V)
        requires
            old(self).wf(),
            idx < old(self).stored(),
        ensures
            final(self).wf(),
            r == old(self).val_seq()[idx as int],
            final(self).key_seq() == old(self).key_seq(),
            final(self).flag_seq() == old(self).flag_seq(),
            final(self).val_seq() == old(self).val_seq().update(idx as int, v),
            final(self).spec_capacity() == old(self).spec_capacity(),
    {
        let mut tmp = v;
        core::mem::swap(&mut tmp, &mut self.values[idx]);
        tmp
    }

    /// A mutable borrow of the value at position `idx`.
    pub fn value_mut<'t>(&'t mut self, idx: usize) -> (p: &'t mut V)
        requires
            old(self).wf(),
            idx < old(self).stored(),
        ensures
            *p == old(self).val_seq()[idx as int],
            final(self).key_seq() == old(self).key_seq(),
            final(self).flag_seq() == old(self).flag_seq(),
            final(self).val_seq() == old(self).val_seq().update(idx as int, *final(p)),
            final(self).spec_capacity() == old(self).spec_capacity(),
            final(self).wf(),
    {
        &mut self.values[idx]
    }

    /// Tombstone the entry at position `idx`.
    pub fn unset_at(&mut self, idx: usize)
        requires
            old(self).wf(),
            idx < old(self).stored(),
        ensures
            final(self).wf(),
            final(self).key_seq() == old(self).key_seq(),
            final(self).val_seq() == old(self).val_seq(),
            final(self).flag_seq() == old(self).flag_seq().update(idx as int, false),
            final(self).spec_capacity() == old(self).spec_capacity(),
    {
        self.flags.unset(idx);
    }

    /// Drain the live entries in key order; the run is left empty with its
    /// capacity preserved.
    pub fn filtered_drain(&mut self) -> (out: Vec<(u64, V)>)
        requires
            old(self).wf(),
        ensures
            final(self).wf(),
            final(self).spec_capacity() == old(self).spec_capacity(),
            final(self).is_empty_spec(),
            final(self).stored() == 0,
            final(self).live_count() == 0,
            final(self).as_map() == Map::<u64, V>::empty(),
            out@ == old(self).live(),
            out@.len() == old(self).live_count(),
            sorted_strict(keys_of(out@)),
            unique_keys(out@),
            map_of(out@) == old(self).as_map(),
    {
        proof {
            self.lemma_live();
        }
        let ghost orig = *self;
        let n: usize = self.keys.len();
        let mut out: Vec<(u64, V)> = Vec::new();
        let mut i: usize = 0;
        proof {
            assert(out@ =~= live_prefix(orig.key_seq(), orig.flag_seq(), orig.val_seq(), 0));
        }
        while self.keys.len() > 0
            invariant
                i + self.keys@.len() == n,
                n == orig.stored(),
                self.keys@ == orig.key_seq().subrange(i as int, n as int),
                self.values@ == orig.val_seq().subrange(i as int, n as int),
                self.flags@ == orig.flag_seq(),
                self.capacity == orig.spec_capacity(),
                orig.wf(),
                out@ == live_prefix(orig.key_seq(), orig.flag_seq(), orig.val_seq(), i as int),
            decreases self.keys@.len(),
        {
            let k = self.keys.remove(0);
            let v = self.values.remove(0);
            let live = self.flags.get(i);
            proof {
                assert(k == orig.key_seq()[i as int]);
                assert(v == orig.val_seq()[i as int]);
            }
            if live {
                out.push((k, v));
            }
            proof {
                assert(self.keys@ =~= orig.key_seq().subrange(i + 1 as int, n as int));
                assert(self.values@ =~= orig.val_seq().subrange(i + 1 as int, n as int));
                assert(out@ =~= live_prefix(
                    orig.key_seq(),
                    orig.flag_seq(),
                    orig.val_seq(),
                    i + 1 as int,
                ));
            }
            i += 1;
        }
        self.flags.set_nulls();
        proof {
            assert(out@ == orig.live());
            lemma_count_true_zero(self.flag_seq(), self.stored());
            assert(self.live() =~= Seq::<(u64, V)>::empty());
        }
        out
    }

    /// Empty the run; flags reset, capacity preserved.
    pub fn clear(&mut self)
        requires
            old(self).wf(),
        ensures
            final(self).wf(),
            final(self).spec_capacity() == old(self).spec_capacity(),
            final(self).is_empty_spec(),
            final(self).stored() == 0,
            final(self).live_count() == 0,
            final(self).as_map() == Map::<u64, V>::empty(),
    {
        self.keys.clear();
        self.values.clear();
        self.flags.set_nulls();
        proof {
            lemma_count_true_zero(self.flag_seq(), self.stored());
            assert(self.live() =~= Seq::<(u64, V)>::empty());
        }
    }

    /// Release spare allocation; contents and capacity are unchanged.
    pub fn shrink_to_fit(&mut self)
        ensures
            final(self).key_seq() == old(self).key_seq(),
            final(self).flag_seq() == old(self).flag_seq(),
            final(self).val_seq() == old(self).val_seq(),
            final(self).spec_capacity() == old(self).spec_capacity(),
    {
        vec_shrink(&mut self.keys);
        vec_shrink(&mut self.values);
    }
}

} // verus!
