//! The sorted-map cascade: a write buffer in front of size-doubling runs.

use vstd::prelude::*;

use crate::entries::keys_of;
use crate::entries::map_of;
use crate::entries::sorted_strict;
use crate::merge::disjoint_keys;
use crate::merge::merge2;
use crate::multislot::MapMultiSlot;
use crate::slot::Slot;

verus! {

/// `n` is 2 to some power.
pub open spec fn is_pow2(n: int) -> bool
    decreases n,
{
    if n <= 0 {
        false
    } else if n == 1 {
        true
    } else {
        n % 2 == 0 && is_pow2(n / 2)
    }
}

/// Live entries in runs `0..n`.
pub open spec fn live_to<V>(runs: Seq<MapMultiSlot<V>>, n: int) -> int
    decreases n,
{
    if n <= 0 {
        0
    } else {
        live_to(runs, n - 1) + runs[n - 1].live_count()
    }
}

/// Stored keys (tombstones included) in runs `0..n`.
pub open spec fn stored_to<V>(runs: Seq<MapMultiSlot<V>>, n: int) -> int
    decreases n,
{
    if n <= 0 {
        0
    } else {
        stored_to(runs, n - 1) + runs[n - 1].stored()
    }
}

/// Combined capacity of runs `0..n`.
pub open spec fn cap_to<V>(runs: Seq<MapMultiSlot<V>>, n: int) -> int
    decreases n,
{
    if n <= 0 {
        0
    } else {
        cap_to(runs, n - 1) + runs[n - 1].spec_capacity()
    }
}

/// The union of the live maps of runs `0..n`.
pub open spec fn runs_map_to<V>(runs: Seq<MapMultiSlot<V>>, n: int) -> Map<u64, V>
    decreases n,
{
    if n <= 0 {
        Map::empty()
    } else {
        runs_map_to(runs, n - 1).union_prefer_right(runs[n - 1].as_map())
    }
}

/// Every run of `runs[0..n]` is well-formed.
pub open spec fn runs_wf<V>(runs: Seq<MapMultiSlot<V>>, n: int) -> bool {
    forall|i: int| 0 <= i < n ==> (#[trigger] runs[i]).wf()
}

/// No key is live in two of the runs `0..n`.
pub open spec fn runs_disjoint<V>(runs: Seq<MapMultiSlot<V>>, n: int) -> bool {
    forall|i: int, j: int, k: u64|
        0 <= i < j < n ==> !(#[trigger] runs[i].live_at(k) && #[trigger] runs[j].live_at(k))
}

/// A key of the combined map is a live key of some run, and carries that
/// run's value.
pub proof fn lemma_runs_map_dom<V>(runs: Seq<MapMultiSlot<V>>, n: int)
    requires
        runs_wf(runs, n),
        n <= runs.len(),
    ensures
        forall|k: u64| #[trigger] runs_map_to(runs, n).contains_key(k) <==> exists|i: int|
            0 <= i < n && #[trigger] runs[i].live_at(k),
        forall|i: int, k: u64|
            0 <= i < n && #[trigger] runs[i].live_at(k) && (forall|j: int|
                i < j < n ==> !(#[trigger] runs[j].live_at(k))) ==> runs_map_to(
                runs,
                n,
            ).contains_key(k) && runs_map_to(runs, n)[k] == runs[i].as_map()[k],
    decreases n,
{
    if n > 0 {
        lemma_runs_map_dom(runs, n - 1);
        runs[n - 1].lemma_live();
        assert forall|k: u64| #[trigger] runs_map_to(runs, n).contains_key(k) implies exists|
            i: int,
        | 0 <= i < n && #[trigger] runs[i].live_at(k) by {
            if runs[n - 1].as_map().contains_key(k) {
                assert(runs[n - 1].live_at(k));
            } else {
                assert(runs_map_to(runs, n - 1).contains_key(k));
            }
        }
        assert forall|k: u64|
            (exists|i: int| 0 <= i < n && #[trigger] runs[i].live_at(k)) implies runs_map_to(
            runs,
            n,
        ).contains_key(k) by {
            let i = choose|i: int| 0 <= i < n && #[trigger] runs[i].live_at(k);
            if i == n - 1 {
                assert(runs[n - 1].as_map().contains_key(k));
            } else {
                assert(runs_map_to(runs, n - 1).contains_key(k));
            }
        }
    }
}

/// With disjoint live keys, the combined map has one entry per live entry.
pub proof fn lemma_runs_map_size<V>(runs: Seq<MapMultiSlot<V>>, n: int)
    requires
        runs_wf(runs, n),
        runs_disjoint(runs, n),
        n <= runs.len(),
    ensures
        runs_map_to(runs, n).dom().finite(),
        runs_map_to(runs, n).dom().len() == live_to(runs, n),
        0 <= live_to(runs, n),
    decreases n,
{
    if n > 0 {
        lemma_runs_map_size(runs, n - 1);
        runs[n - 1].lemma_live();
        lemma_runs_map_dom(runs, n - 1);
        assert(runs_map_to(runs, n - 1).dom().disjoint(runs[n - 1].as_map().dom())) by {
            assert forall|k: u64|
                #[trigger] runs_map_to(runs, n - 1).dom().contains(k) implies !runs[n
                - 1].as_map().dom().contains(k) by {
                let i = choose|i: int| 0 <= i < n - 1 && #[trigger] runs[i].live_at(k);
                assert(!(runs[i].live_at(k) && runs[n - 1].live_at(k)));
            }
        }
        vstd::map_lib::lemma_disjoint_union_size(runs_map_to(runs, n - 1), runs[n - 1].as_map());
        vstd::map_lib::lemma_union_dom(runs_map_to(runs, n - 1), runs[n - 1].as_map());
        vstd::set_lib::lemma_set_union_finite_iff(
            runs_map_to(runs, n - 1).dom(),
            runs[n - 1].as_map().dom(),
        );
    }
}

/// Aggregates only look at the runs' abstract columns: two run sequences that
/// agree entry-wise below `n` have the same aggregates.
pub proof fn lemma_runs_agree<V>(r1: Seq<MapMultiSlot<V>>, r2: Seq<MapMultiSlot<V>>, n: int)
    requires
        forall|i: int| 0 <= i < n ==> (#[trigger] r2[i]).as_map() == r1[i].as_map() && r2[i].live_count()
            == r1[i].live_count() && r2[i].stored() == r1[i].stored() && r2[i].spec_capacity()
            == r1[i].spec_capacity(),
    ensures
        runs_map_to(r2, n) == runs_map_to(r1, n),
        live_to(r2, n) == live_to(r1, n),
        stored_to(r2, n) == stored_to(r1, n),
        cap_to(r2, n) == cap_to(r1, n),
    decreases n,
{
    if n > 0 {
        lemma_runs_agree(r1, r2, n - 1);
    }
}

/// Bounds relating the aggregates of well-formed runs.
pub proof fn lemma_to_bounds<V>(runs: Seq<MapMultiSlot<V>>, n: int)
    requires
        runs_wf(runs, n),
        n <= runs.len(),
    ensures
        0 <= live_to(runs, n) <= stored_to(runs, n) <= cap_to(runs, n),
    decreases n,
{
    if n > 0 {
        lemma_to_bounds(runs, n - 1);
        runs[n - 1].lemma_live();
    }
}

/// A single run's stored count is at most the total over a range holding it.
pub proof fn lemma_stored_component<V>(runs: Seq<MapMultiSlot<V>>, n: int, i: int)
    requires
        runs_wf(runs, n),
        n <= runs.len(),
        0 <= i < n,
    ensures
        runs[i].stored() <= stored_to(runs, n),
        runs[i].live_count() <= live_to(runs, n),
    decreases n,
{
    runs[i].lemma_live();
    if i < n - 1 {
        lemma_stored_component(runs, n - 1, i);
        runs[n - 1].lemma_live();
    } else {
        lemma_to_bounds(runs, n - 1);
    }
}

/// The capacity chain of the cascade: run 0 has capacity `s` and each later
/// run doubles its predecessor.
pub open spec fn caps_chained<V>(runs: Seq<MapMultiSlot<V>>, s: int) -> bool {
    forall|i: int| 0 <= i < runs.len() ==> (#[trigger] runs[i]).spec_capacity() == if i == 0 {
        s
    } else {
        2 * runs[i - 1].spec_capacity()
    }
}

/// Under the chain, capacities below `n` sum to one slot short of the next
/// run's capacity.
pub proof fn lemma_cap_geometric<V>(runs: Seq<MapMultiSlot<V>>, s: int, n: int)
    requires
        caps_chained(runs, s),
        0 <= n <= runs.len(),
    ensures
        cap_to(runs, n) == (if n == 0 { s } else { 2 * runs[n - 1].spec_capacity() }) - s,
    decreases n,
{
    if n > 0 {
        lemma_cap_geometric(runs, s, n - 1);
    }
}


/// Replacing one run changes the totals by that run's own delta.
pub proof fn lemma_counts_update<V>(
    runs: Seq<MapMultiSlot<V>>,
    i: int,
    r2: MapMultiSlot<V>,
    n: int,
)
    requires
        0 <= i < runs.len(),
        n <= runs.len(),
    ensures
        live_to(runs.update(i, r2), n) == live_to(runs, n) + if 0 <= i < n {
            r2.live_count() - runs[i].live_count()
        } else {
            0int
        },
        stored_to(runs.update(i, r2), n) == stored_to(runs, n) + if 0 <= i < n {
            r2.stored() - runs[i].stored()
        } else {
            0int
        },
        cap_to(runs.update(i, r2), n) == cap_to(runs, n) + if 0 <= i < n {
            r2.spec_capacity() - runs[i].spec_capacity()
        } else {
            0int
        },
    decreases n,
{
    if n > 0 {
        lemma_counts_update(runs, i, r2, n - 1);
    }
}

/// A range of empty runs contributes nothing.
pub proof fn lemma_runs_empty_prefix<V>(runs: Seq<MapMultiSlot<V>>, n: int)
    requires
        forall|j: int| 0 <= j < n ==> (#[trigger] runs[j]).as_map() == Map::<u64, V>::empty()
            && runs[j].live_count() == 0 && runs[j].stored() == 0,
    ensures
        runs_map_to(runs, n) == Map::<u64, V>::empty(),
        live_to(runs, n) == 0,
        stored_to(runs, n) == 0,
    decreases n,
{
    if n > 0 {
        lemma_runs_empty_prefix(runs, n - 1);
        assert(runs_map_to(runs, n) =~= Map::<u64, V>::empty());
    }
}

/// After a merge into run `n`, the totals over `m > n` runs are the old totals
/// with the merged content standing in run `n` and runs below it empty.
pub proof fn lemma_rebuild<V>(
    old_runs: Seq<MapMultiSlot<V>>,
    new_runs: Seq<MapMultiSlot<V>>,
    n: int,
    m: int,
    a: Map<u64, V>,
    c: int,
)
    requires
        0 <= n < m <= old_runs.len(),
        new_runs.len() == old_runs.len(),
        forall|j: int| 0 <= j < n ==> (#[trigger] new_runs[j]).as_map() == Map::<u64, V>::empty()
            && new_runs[j].live_count() == 0 && new_runs[j].stored() == 0,
        new_runs[n].as_map() == a.union_prefer_right(runs_map_to(old_runs, n)),
        new_runs[n].live_count() == c + live_to(old_runs, n),
        new_runs[n].stored() == new_runs[n].live_count(),
        old_runs[n].as_map() == Map::<u64, V>::empty(),
        old_runs[n].live_count() == 0,
        old_runs[n].stored() == 0,
        forall|j: int| n < j < m ==> #[trigger] new_runs[j] == old_runs[j],
    ensures
        runs_map_to(new_runs, m) == a.union_prefer_right(runs_map_to(old_runs, m)),
        live_to(new_runs, m) == c + live_to(old_runs, m),
        stored_to(new_runs, m) == c + live_to(old_runs, n) + stored_to(old_runs, m) - stored_to(
            old_runs,
            n,
        ),
    decreases m,
{
    if m == n + 1 {
        lemma_runs_empty_prefix(new_runs, n);
        assert(runs_map_to(new_runs, m) =~= a.union_prefer_right(runs_map_to(old_runs, m)));
    } else {
        lemma_rebuild(old_runs, new_runs, n, m - 1, a, c);
        assert(runs_map_to(new_runs, m) =~= a.union_prefer_right(runs_map_to(old_runs, m)));
    }
}

/// The tombstone total over a prefix never exceeds the total over the whole.
pub proof fn lemma_tombs_monotone<V>(runs: Seq<MapMultiSlot<V>>, a: int, b: int)
    requires
        runs_wf(runs, b),
        0 <= a <= b <= runs.len(),
    ensures
        live_to(runs, a) <= live_to(runs, b),
        stored_to(runs, a) <= stored_to(runs, b),
        stored_to(runs, a) - live_to(runs, a) <= stored_to(runs, b) - live_to(runs, b),
    decreases b - a,
{
    if a < b {
        lemma_tombs_monotone(runs, a, b - 1);
        runs[b - 1].lemma_live();
    }
}

/// Under the chain with `s >= 1`, every run's capacity is at least `s`.
pub proof fn lemma_cap_at_least<V>(runs: Seq<MapMultiSlot<V>>, s: int, i: int)
    requires
        caps_chained(runs, s),
        0 <= i < runs.len(),
        1 <= s,
    ensures
        runs[i].spec_capacity() >= s,
    decreases i,
{
    if i > 0 {
        lemma_cap_at_least(runs, s, i - 1);
    }
}

/// Overwriting the value of a key that is live in run `i` inserts the new
/// value into the combined map.
pub proof fn lemma_runs_map_update<V>(
    runs: Seq<MapMultiSlot<V>>,
    i: int,
    r2: MapMultiSlot<V>,
    n: int,
    k0: u64,
    w: V,
)
    requires
        runs_wf(runs, n),
        runs_disjoint(runs, n),
        0 <= i < n <= runs.len(),
        r2.wf(),
        runs[i].live_at(k0),
        r2.as_map() == runs[i].as_map().insert(k0, w),
        forall|k: u64| #[trigger] r2.live_at(k) <==> runs[i].live_at(k),
    ensures
        runs_map_to(runs.update(i, r2), n) == runs_map_to(runs, n).insert(k0, w),
    decreases n,
{
    let u = runs.update(i, r2);
    if i == n - 1 {
        assert(runs_map_to(u, n - 1) == runs_map_to(runs, n - 1)) by {
            lemma_runs_agree(runs, u, n - 1);
        }
        vstd::map_lib::lemma_union_insert_right(
            runs_map_to(runs, n - 1),
            runs[i].as_map(),
            k0,
            w,
        );
    } else {
        lemma_runs_map_update(runs, i, r2, n - 1, k0, w);
        runs[n - 1].lemma_live();
        assert(!runs[n - 1].as_map().contains_key(k0)) by {
            assert(!(runs[i].live_at(k0) && runs[n - 1].live_at(k0)));
        }
        assert(u[n - 1] == runs[n - 1]);
        vstd::map_lib::lemma_union_insert_left(
            runs_map_to(runs, n - 1),
            runs[n - 1].as_map(),
            k0,
            w,
        );
    }
}


/// After a merge into run `n`, live keys are still unique across the runs.
proof fn lemma_merged_runs_disjoint<V>(
    old_runs: Seq<MapMultiSlot<V>>,
    new_runs: Seq<MapMultiSlot<V>>,
    n: int,
    slot_map: Map<u64, V>,
)
    requires
        new_runs.len() == old_runs.len(),
        0 <= n < old_runs.len(),
        runs_disjoint(old_runs, old_runs.len() as int),
        forall|j: int| 0 <= j < n ==> (#[trigger] new_runs[j]).stored() == 0,
        forall|j: int| n < j < new_runs.len() ==> #[trigger] new_runs[j] == old_runs[j],
        forall|k: u64| #[trigger] new_runs[n].live_at(k) ==> slot_map.contains_key(k) || exists|
            j: int,
        | 0 <= j < n && #[trigger] old_runs[j].live_at(k),
        forall|j: int, k: u64|
            0 <= j < old_runs.len() && #[trigger] old_runs[j].live_at(k)
                ==> !slot_map.contains_key(k),
    ensures
        runs_disjoint(new_runs, new_runs.len() as int),
{
    assert forall|x: int, y: int, k: u64|
        0 <= x < y < new_runs.len() implies !(#[trigger] new_runs[x].live_at(k)
        && #[trigger] new_runs[y].live_at(k)) by {
        if new_runs[x].live_at(k) && new_runs[y].live_at(k) {
            if x != n && y != n {
                assert(x > n && y > n) by {
                    if x < n || y < n {
                        let e = if x < n { x } else { y };
                        assert(new_runs[e].stored() == 0);
                        assert(!new_runs[e].live_at(k));
                    }
                }
                assert(!(old_runs[x].live_at(k) && old_runs[y].live_at(k)));
            } else {
                let o = if x == n { y } else { x };
                if o < n {
                    assert(new_runs[o].stored() == 0);
                    assert(!new_runs[o].live_at(k));
                } else {
                    assert(old_runs[o].live_at(k));
                    if slot_map.contains_key(k) {
                        assert(false);
                    } else {
                        let j = choose|j: int| 0 <= j < n && #[trigger] old_runs[j].live_at(k);
                        assert(!(old_runs[j].live_at(k) && old_runs[o].live_at(k)));
                        assert(false);
                    }
                }
            }
        }
    }
}


/// Right-biased map union is associative.
proof fn lemma_union_assoc<V>(a: Map<u64, V>, b: Map<u64, V>, c: Map<u64, V>)
    ensures
        a.union_prefer_right(b).union_prefer_right(c) == a.union_prefer_right(
            b.union_prefer_right(c),
        ),
{
    assert(a.union_prefer_right(b).union_prefer_right(c) =~= a.union_prefer_right(
        b.union_prefer_right(c),
    ));
}

/// What has been merged so far shares no key with the next run's live entries.
proof fn lemma_acc_part_disjoint<V>(
    acc: Seq<(u64, V)>,
    slot_map: Map<u64, V>,
    runs: Seq<MapMultiSlot<V>>,
    i: int,
)
    requires
        0 <= i < runs.len(),
        runs_wf(runs, runs.len() as int),
        runs_disjoint(runs, runs.len() as int),
        forall|j: int, k: u64|
            0 <= j < runs.len() && #[trigger] runs[j].live_at(k) ==> !slot_map.contains_key(k),
        map_of(acc) == slot_map.union_prefer_right(runs_map_to(runs, i)),
    ensures
        crate::merge::disjoint_keys(acc, runs[i].live()),
{
    runs[i].lemma_live();
    crate::entries::lemma_map_of_dom(acc);
    crate::entries::lemma_map_of_dom(runs[i].live());
    lemma_runs_map_dom(runs, i);
    let part = runs[i].live();
    assert forall|x: int, y: int|
        0 <= x < acc.len() && 0 <= y < part.len() implies (#[trigger] acc[x]).0 != (
    #[trigger] part[y]).0 by {
        let k = part[y].0;
        assert(crate::entries::has_key(part, k));
        assert(map_of(part).contains_key(k));
        assert(runs[i].live_at(k));
        if acc[x].0 == k {
            assert(crate::entries::has_key(acc, k));
            assert(map_of(acc).contains_key(k));
            if slot_map.contains_key(k) {
                assert(false);
            } else {
                assert(runs_map_to(runs, i).contains_key(k));
                let j = choose|j: int| 0 <= j < i && #[trigger] runs[j].live_at(k);
                assert(!(runs[j].live_at(k) && runs[i].live_at(k)));
                assert(false);
            }
        }
    }
}


/// Filling an empty run with entries whose keys are live nowhere else adds
/// exactly those entries to the combined map.
proof fn lemma_runs_fill_empty<V>(
    runs: Seq<MapMultiSlot<V>>,
    i: int,
    r2: MapMultiSlot<V>,
    ll: int,
)
    requires
        runs_wf(runs, ll),
        runs_disjoint(runs, ll),
        0 <= i < ll <= runs.len(),
        runs[i].stored() == 0,
        r2.wf(),
        forall|j: int, k: u64|
            0 <= j < ll && #[trigger] runs[j].live_at(k) ==> !(#[trigger] r2.live_at(k)),
    ensures
        runs_map_to(runs.update(i, r2), ll) == runs_map_to(runs, ll).union_prefer_right(
            r2.as_map(),
        ),
        runs_wf(runs.update(i, r2), ll),
        runs_disjoint(runs.update(i, r2), ll),
    decreases ll,
{
    let u = runs.update(i, r2);
    r2.lemma_live();
    runs[i].lemma_live();
    assert forall|x: int, y: int, k: u64|
        0 <= x < y < ll implies !(#[trigger] u[x].live_at(k) && #[trigger] u[y].live_at(k)) by {
        if x == i {
            if u[x].live_at(k) && u[y].live_at(k) {
                assert(runs[y].live_at(k) && r2.live_at(k));
            }
        } else if y == i {
            if u[x].live_at(k) && u[y].live_at(k) {
                assert(runs[x].live_at(k) && r2.live_at(k));
            }
        } else {
            assert(!(runs[x].live_at(k) && runs[y].live_at(k)));
        }
    }
    if i == ll - 1 {
        lemma_runs_agree(runs, u, ll - 1);
        assert(runs[i].as_map() =~= Map::<u64, V>::empty());
        assert(runs_map_to(runs, ll) =~= runs_map_to(runs, ll - 1));
        assert(runs_map_to(u, ll) =~= runs_map_to(runs, ll).union_prefer_right(r2.as_map()));
    } else {
        lemma_runs_fill_empty(runs, i, r2, ll - 1);
        runs[ll - 1].lemma_live();
        lemma_runs_map_dom(runs, ll - 1);
        assert(u[ll - 1] == runs[ll - 1]);
        assert(runs_map_to(u, ll) =~= runs_map_to(runs, ll).union_prefer_right(r2.as_map()))
            by {
            assert(runs_map_to(u, ll) == runs_map_to(u, ll - 1).union_prefer_right(
                runs[ll - 1].as_map(),
            ));
        }
    }
}


/// Placing a prefix of the drained content into an empty run: the combined
/// map gains exactly that prefix, and the rest stays disjoint from every run.
#[verifier::rlimit(60)]
proof fn lemma_place_chunk<V>(
    before: Seq<MapMultiSlot<V>>,
    after: Seq<MapMultiSlot<V>>,
    m: int,
    ll: int,
    workb: Seq<(u64, V)>,
    take: int,
)
    requires
        runs_wf(before, ll),
        runs_disjoint(before, ll),
        0 <= m < ll <= before.len(),
        after.len() == before.len(),
        after == before.update(m, after[m]),
        before[m].stored() == 0,
        after[m].wf(),
        0 <= take <= workb.len(),
        after[m].live() == workb.subrange(0, take),
        after[m].live_count() == take,
        after[m].stored() == take,
        sorted_strict(keys_of(workb)),
        crate::entries::unique_keys(workb),
        forall|j: int, k: u64|
            0 <= j < ll && #[trigger] before[j].live_at(k) ==> !crate::entries::has_key(workb, k),
    ensures
        runs_wf(after, ll),
        runs_disjoint(after, ll),
        runs_map_to(after, ll).union_prefer_right(
            map_of(workb.subrange(take, workb.len() as int)),
        ) == runs_map_to(before, ll).union_prefer_right(map_of(workb)),
        live_to(after, ll) == live_to(before, ll) + take,
        stored_to(after, ll) == stored_to(before, ll) + take,
        sorted_strict(keys_of(workb.subrange(take, workb.len() as int))),
        crate::entries::unique_keys(workb.subrange(take, workb.len() as int)),
        forall|j: int, k: u64|
            0 <= j < ll && #[trigger] after[j].live_at(k) ==> !crate::entries::has_key(
                workb.subrange(take, workb.len() as int),
                k,
            ),
{
    let fr = after[m];
    let chunk = workb.subrange(0, take);
    let rest = workb.subrange(take, workb.len() as int);
    fr.lemma_live();
    crate::entries::lemma_map_of_dom(chunk);
    crate::entries::lemma_map_of_dom(rest);
    crate::entries::lemma_map_of_dom(workb);
    assert forall|x: int, y: int| 0 <= x < y < keys_of(rest).len() implies keys_of(rest)[x]
        < keys_of(rest)[y] by {
        assert(keys_of(rest)[x] == rest[x].0 == workb[take + x].0 == keys_of(workb)[take + x]);
        assert(keys_of(rest)[y] == rest[y].0 == workb[take + y].0 == keys_of(workb)[take + y]);
    }
    crate::entries::lemma_sorted_unique(rest);
    assert forall|j: int, k: u64|
        0 <= j < ll && #[trigger] before[j].live_at(k) implies !(#[trigger] fr.live_at(k)) by {
        if fr.live_at(k) {
            assert(fr.as_map().contains_key(k));
            assert(crate::entries::has_key(chunk, k));
            let x = choose|x: int| 0 <= x < chunk.len() && chunk[x].0 == k;
            assert(workb[x].0 == k);
            assert(crate::entries::has_key(workb, k));
        }
    }
    lemma_runs_fill_empty(before, m, fr, ll);
    lemma_counts_update(before, m, fr, ll);
    lemma_union_assoc(runs_map_to(before, ll), fr.as_map(), map_of(rest));
    assert(map_of(workb) =~= fr.as_map().union_prefer_right(map_of(rest))) by {
        crate::entries::lemma_map_of_app(chunk, rest);
        assert(workb =~= chunk + rest);
        assert forall|k: u64|
            !(map_of(rest).contains_key(k) && #[trigger] fr.as_map().contains_key(k)) by {
            if map_of(rest).contains_key(k) && fr.as_map().contains_key(k) {
                let x = choose|x: int| 0 <= x < chunk.len() && chunk[x].0 == k;
                let y = choose|y: int| 0 <= y < rest.len() && rest[y].0 == k;
                assert(workb[x].0 == k);
                assert(workb[take + y].0 == k);
            }
        }
        assert(fr.as_map().union_prefer_right(map_of(rest)) =~= map_of(rest).union_prefer_right(
            fr.as_map(),
        ));
    }
    assert forall|j: int, k: u64|
        0 <= j < ll && #[trigger] after[j].live_at(k) implies !crate::entries::has_key(
        rest,
        k,
    ) by {
        if crate::entries::has_key(rest, k) {
            let y = choose|y: int| 0 <= y < rest.len() && rest[y].0 == k;
            assert(workb[take + y].0 == k);
            assert(crate::entries::has_key(workb, k));
            if j != m {
                assert(before[j].live_at(k));
            } else {
                assert(fr.live_at(k));
                assert(fr.as_map().contains_key(k));
                let x = choose|x: int| 0 <= x < chunk.len() && chunk[x].0 == k;
                assert(workb[x].0 == k);
            }
        }
    }
    assert(runs_map_to(after, ll).union_prefer_right(map_of(rest)) =~= runs_map_to(
        before,
        ll,
    ).union_prefer_right(map_of(workb)));
}

/// Tombstoning a key that is live in run `i` removes it from the combined map.
pub proof fn lemma_runs_map_remove<V>(
    runs: Seq<MapMultiSlot<V>>,
    i: int,
    r2: MapMultiSlot<V>,
    n: int,
    k0: u64,
)
    requires
        runs_wf(runs, n),
        runs_disjoint(runs, n),
        0 <= i < n <= runs.len(),
        r2.wf(),
        runs[i].live_at(k0),
        r2.as_map() == runs[i].as_map().remove(k0),
        forall|k: u64| #[trigger] r2.live_at(k) <==> (runs[i].live_at(k) && k != k0),
    ensures
        runs_map_to(runs.update(i, r2), n) == runs_map_to(runs, n).remove(k0),
    decreases n,
{
    let u = runs.update(i, r2);
    runs[i].lemma_live();
    if i == n - 1 {
        assert(runs_map_to(u, n - 1) == runs_map_to(runs, n - 1)) by {
            lemma_runs_agree(runs, u, n - 1);
        }
        lemma_runs_map_dom(runs, n - 1);
        assert(!runs_map_to(runs, n - 1).contains_key(k0)) by {
            if runs_map_to(runs, n - 1).contains_key(k0) {
                let j = choose|j: int| 0 <= j < n - 1 && #[trigger] runs[j].live_at(k0);
                assert(!(runs[j].live_at(k0) && runs[i].live_at(k0)));
            }
        }
        vstd::map_lib::lemma_union_remove_right(
            runs_map_to(runs, n - 1),
            runs[i].as_map(),
            k0,
        );
    } else {
        lemma_runs_map_remove(runs, i, r2, n - 1, k0);
        runs[n - 1].lemma_live();
        lemma_runs_map_dom(runs, n - 1);
        assert(!runs[n - 1].as_map().contains_key(k0)) by {
            assert(!(runs[i].live_at(k0) && runs[n - 1].live_at(k0)));
        }
        assert(runs_map_to(runs, n - 1).contains_key(k0)) by {
            assert(runs[i].live_at(k0));
        }
        assert(u[n - 1] == runs[n - 1]);
        vstd::map_lib::lemma_union_remove_left(
            runs_map_to(runs, n - 1),
            runs[n - 1].as_map(),
            k0,
        );
    }
}

/// A removed value: from a run it is handed out by reference (the key stays
/// behind as a tombstone); from the write buffer it is owned.
pub enum RemovedItem<'t, V> {
    Ref(&'t mut V),
    Owned(V),
}

impl<'t, V> RemovedItem<'t, V> {
    /// The removed value as it stands when the item is handed out.
    pub open spec fn value(self) -> V {
        match self {
            RemovedItem::Ref(p) => *p,
            RemovedItem::Owned(v) => v,
        }
    }

    /// Exchange the removed value for `tmp`, taking the removed value out.
    pub fn swap(self, tmp: V) -> (r: V)
        ensures
            r == self.value(),
    {
        match self {
            RemovedItem::Ref(p) => {
                let mut t = tmp;
                core::mem::swap(&mut t, p);
                t
            },
            RemovedItem::Owned(v) => v,
        }
    }
}

impl<'t, V: Copy> RemovedItem<'t, V> {
    pub fn copied(self) -> (r: V)
        ensures
            r == self.value(),
    {
        match self {
            RemovedItem::Ref(p) => *p,
            RemovedItem::Owned(v) => v,
        }
    }
}

impl<'t, V: Clone> RemovedItem<'t, V> {
    /// A clone of the removed value (the value itself when it is owned).
    pub fn cloned(self) -> (r: V)
        ensures
            vstd::pervasive::cloned::<V>(self.value(), r),
    {
        match self {
            RemovedItem::Ref(p) => p.clone(),
            RemovedItem::Owned(v) => v,
        }
    }
}

pub struct CivMap<V> {
    len: usize,
    tombs: usize,
    slot: Slot<V>,
    data: Vec<MapMultiSlot<V>>,
}

impl<V> View for CivMap<V> {
    type V = Map<u64, V>;

    /// The map the cascade holds: the buffer's entries together with every
    /// run's live entries.
    closed spec fn view(&self) -> Map<u64, V> {
        self.slot.as_map().union_prefer_right(
            runs_map_to(self.data@, self.data@.len() as int),
        )
    }
}

impl<V> CivMap<V> {
    pub closed spec fn spec_len(self) -> int {
        self.len as int
    }

    pub closed spec fn spec_tombs(self) -> int {
        self.tombs as int
    }

    /// The construction parameter `S`: the write buffer's capacity.
    pub closed spec fn spec_s(self) -> int {
        self.slot.spec_max()
    }

    pub closed spec fn runs(self) -> Seq<MapMultiSlot<V>> {
        self.data@
    }

    pub closed spec fn spec_slot(self) -> Slot<V> {
        self.slot
    }

    /// A run may keep at most `s` unused positions, or at most half its
    /// capacity, once it is populated.
    pub open spec fn density_ok(r: MapMultiSlot<V>, s: int) -> bool {
        r.spec_capacity() - r.stored() <= s || 2 * (r.spec_capacity() - r.stored())
            <= r.spec_capacity()
    }

    /// Everything structural: well-formed parts, the capacity chain, and the
    /// uniqueness of live keys across buffer and runs.
    pub closed spec fn inv_shape(self) -> bool {
        &&& self.slot.wf()
        &&& is_pow2(self.slot.spec_max())
        &&& runs_wf(self.data@, self.data@.len() as int)
        &&& caps_chained(self.data@, self.slot.spec_max())
        &&& forall|i: int, k: u64|
            0 <= i < self.data@.len() && #[trigger] self.data@[i].live_at(k)
                ==> !self.slot.as_map().contains_key(k)
        &&& runs_disjoint(self.data@, self.data@.len() as int)
    }

    /// Every populated run is either nearly full or at least half full.
    pub closed spec fn density_all(self) -> bool {
        forall|i: int|
            0 <= i < self.data@.len() && !(#[trigger] self.data@[i]).is_empty_spec()
                ==> Self::density_ok(self.data@[i], self.slot.spec_max())
    }

    /// The `len` and `tombs` fields agree with the parts.
    pub closed spec fn counts_ok(self) -> bool {
        &&& self.len == self.slot.spec_len() + live_to(self.data@, self.data@.len() as int)
        &&& self.tombs == stored_to(self.data@, self.data@.len() as int) - live_to(
            self.data@,
            self.data@.len() as int,
        )
        &&& self.len + self.tombs <= usize::MAX
    }

    pub closed spec fn inv(self) -> bool {
        &&& self.inv_shape()
        &&& self.density_all()
        &&& self.counts_ok()
        &&& self.slot.spec_len() < self.slot.spec_max()
    }

    /// What the cascade's map holds, in terms of its parts.
    #[verifier::rlimit(50)]
    proof fn lemma_view(self)
        requires
            self.inv(),
        ensures
            forall|k: u64| #[trigger] self@.contains_key(k) <==> self.spec_slot().as_map().contains_key(
                k,
            ) || exists|i: int| 0 <= i < self.runs().len() && #[trigger] self.runs()[i].live_at(k),
            forall|k: u64| #[trigger] self.spec_slot().as_map().contains_key(k) ==> self@.contains_key(
                k,
            ) && self@[k] == self.spec_slot().as_map()[k],
            forall|i: int, k: u64|
                0 <= i < self.runs().len() && #[trigger] self.runs()[i].live_at(k)
                    ==> self@.contains_key(k) && self@[k] == self.runs()[i].as_map()[k],
    {
        let runs = self.data@;
        let n = runs.len() as int;
        lemma_runs_map_dom(runs, n);
        assert forall|k: u64| #[trigger] self@.contains_key(
            k,
        ) implies self.spec_slot().as_map().contains_key(k) || exists|i: int|
            0 <= i < self.runs().len() && #[trigger] self.runs()[i].live_at(k) by {
            if !self.slot.as_map().contains_key(k) {
                assert(runs_map_to(runs, n).contains_key(k));
                let i = choose|i: int| 0 <= i < n && #[trigger] runs[i].live_at(k);
                assert(0 <= i < self.runs().len() && self.runs()[i].live_at(k));
            }
        }
        assert forall|k: u64|
            self.spec_slot().as_map().contains_key(k) || (exists|i: int|
                0 <= i < self.runs().len() && #[trigger] self.runs()[i].live_at(
                    k,
                )) implies #[trigger] self@.contains_key(k) by {
            if self.slot.as_map().contains_key(k) {
            } else {
                let i = choose|i: int|
                    0 <= i < self.runs().len() && #[trigger] self.runs()[i].live_at(k);
                assert(runs[i].live_at(k));
                assert(runs_map_to(runs, n).contains_key(k));
            }
        }
        assert forall|k: u64| #[trigger] self.spec_slot().as_map().contains_key(
            k,
        ) implies self@.contains_key(k) && self@[k] == self.spec_slot().as_map()[k] by {
            if runs_map_to(runs, n).contains_key(k) {
                let i = choose|i: int| 0 <= i < n && #[trigger] runs[i].live_at(k);
                assert(!self.slot.as_map().contains_key(k));
            }
        }
        assert forall|i: int, k: u64|
            0 <= i < self.runs().len() && #[trigger] self.runs()[i].live_at(
                k,
            ) implies self@.contains_key(k) && self@[k] == self.runs()[i].as_map()[k] by {
            assert forall|j: int| i < j < n implies !(#[trigger] runs[j].live_at(k)) by {
                assert(!(runs[i].live_at(k) && runs[j].live_at(k)));
            }
            assert(runs_map_to(runs, n).contains_key(k) && runs_map_to(runs, n)[k]
                == runs[i].as_map()[k]);
        }
    }

    /// The `len` field counts the map's entries.
    proof fn lemma_size(self)
        requires
            self.inv(),
        ensures
            self@.dom().finite(),
            self@.dom().len() == self.spec_len(),
    {
        let runs = self.data@;
        let n = runs.len() as int;
        lemma_runs_map_size(runs, n);
        lemma_runs_map_dom(runs, n);
        self.slot.lemma_map_len();
        assert(self.slot.as_map().dom().disjoint(runs_map_to(runs, n).dom())) by {
            assert forall|k: u64|
                self.slot.as_map().dom().contains(k) implies !runs_map_to(runs, n).dom().contains(
                k,
            ) by {
                if runs_map_to(runs, n).contains_key(k) {
                    let i = choose|i: int| 0 <= i < n && #[trigger] runs[i].live_at(k);
                }
            }
        }
        vstd::map_lib::lemma_disjoint_union_size(self.slot.as_map(), runs_map_to(runs, n));
        vstd::map_lib::lemma_union_dom(self.slot.as_map(), runs_map_to(runs, n));
        vstd::set_lib::lemma_set_union_finite_iff(
            self.slot.as_map().dom(),
            runs_map_to(runs, n).dom(),
        );
    }

    /// An empty cascade whose write buffer holds `s` entries.
    pub fn with_slot_capacity(s: usize) -> (r: CivMap<V>)
        requires
            1 <= s,
            is_pow2(s as int),
        ensures
            r.inv(),
            r@ == Map::<u64, V>::empty(),
            r.spec_len() == 0,
            r.spec_tombs() == 0,
            r.spec_s() == s,
    {
        let r = CivMap { len: 0, tombs: 0, slot: Slot::new(s), data: Vec::new() };
        proof {
            assert(r.data@.len() == 0);
            assert(r@ =~= Map::<u64, V>::empty());
        }
        r
    }

    /// An empty cascade with the default buffer capacity.
    pub fn new() -> (r: CivMap<V>)
        ensures
            r.inv(),
            r@ == Map::<u64, V>::empty(),
            r.spec_len() == 0,
            r.spec_tombs() == 0,
    {
        proof {
            assert(is_pow2(2)) by {
                assert(is_pow2(1));
            }
            assert(is_pow2(4));
            assert(is_pow2(8));
            assert(is_pow2(16));
            assert(is_pow2(32));
        }
        CivMap::with_slot_capacity(32)
    }

    /// Live entries held.
    pub fn len(&self) -> (r: usize)
        requires
            self.inv(),
        ensures
            r == self.spec_len(),
            r == self@.dom().len(),
    {
        proof {
            self.lemma_size();
        }
        self.len
    }

    /// Tombstoned entries still occupying run positions.
    pub fn tombs(&self) -> (r: usize)
        ensures
            r == self.spec_tombs(),
    {
        self.tombs
    }

    /// The run and position where `k` is live, if any.
    fn multy_contains(&self, k: &u64) -> (r: Option<(usize, usize)>)
        requires
            self.inv(),
        ensures
            match r {
                Some(p) => p.0 < self.runs().len() && p.1 < self.runs()[p.0 as int].stored()
                    && self.runs()[p.0 as int].key_seq()[p.1 as int] == *k
                    && self.runs()[p.0 as int].flag_seq()[p.1 as int],
                None => forall|i: int|
                    0 <= i < self.runs().len() ==> !(#[trigger] self.runs()[i].live_at(*k)),
            },
    {
        let n: usize = self.data.len();
        let mut i: usize = 0;
        while i < n
            invariant
                i <= n,
                n == self.data@.len(),
                runs_wf(self.data@, n as int),
                forall|j: int| 0 <= j < i ==> !(#[trigger] self.data@[j].live_at(*k)),
            decreases n - i,
        {
            proof {
                assert(self.data@[i as int].wf());
            }
            match self.data[i].contains(k) {
                Some(idx) => {
                    return Some((i, idx));
                },
                None => {},
            }
            i += 1;
        }
        None
    }

    /// Is `k` held, in the buffer or live in some run?
    pub fn contains(&mut self, k: &u64) -> (r: bool)
        requires
            old(self).inv(),
        ensures
            *final(self) == *old(self),
            r == old(self)@.contains_key(*k),
    {
        proof {
            self.lemma_view();
        }
        if self.slot.contains(k) {
            true
        } else {
            match self.multy_contains(k) {
                Some(p) => {
                    proof {
                        let ghost (i, idx) = p;
                        assert(self.runs()[i as int].live_at(*k));
                    }
                    true
                },
                None => false,
            }
        }
    }

    /// The value at `k`, if the key is held.
    pub fn get(&self, k: &u64) -> (r: Option<&V>)
        requires
            self.inv(),
        ensures
            match r {
                Some(v) => self@.contains_key(*k) && *v == self@[*k],
                None => !self@.contains_key(*k),
            },
    {
        proof {
            self.lemma_view();
        }
        match self.slot.get(k) {
            Some(v) => Some(v),
            None => {
                match self.multy_contains(k) {
                    Some((msi, idx)) => {
                        proof {
                            assert(self.runs()[msi as int].live_at(*k));
                            self.data@[msi as int].lemma_live();
                        }
                        Some(self.data[msi].value_at(idx))
                    },
                    None => None,
                }
            },
        }
    }


    /// Merge the buffer and every run below `n` into the empty run `n`.
    /// Tombstoned entries are dropped and accounted for; the merged run is
    /// fully live.
    #[verifier::rlimit(100)]
    fn merge_into(&mut self, n: usize)
        requires
            old(self).inv_shape(),
            n < old(self).runs().len(),
            old(self).runs()[n as int].is_empty_spec(),
            old(self).spec_slot().spec_len() <= old(self).spec_s(),
            old(self).spec_tombs() == stored_to(old(self).runs(), old(self).runs().len() as int)
                - live_to(old(self).runs(), old(self).runs().len() as int),
            old(self).density_all(),
        ensures
            final(self).inv_shape(),
            final(self).runs().len() == old(self).runs().len(),
            final(self).spec_s() == old(self).spec_s(),
            final(self).spec_slot().spec_len() == 0,
            final(self).spec_slot().as_map() == Map::<u64, V>::empty(),
            final(self).spec_len() == old(self).spec_len(),
            final(self)@ == old(self)@,
            forall|i: int| 0 <= i < n ==> (#[trigger] final(self).runs()[i]).is_empty_spec(),
            forall|i: int| n < i < final(self).runs().len() ==> #[trigger] final(self).runs()[i]
                == old(self).runs()[i],
            forall|i: int| 0 <= i < final(self).runs().len() ==> (#[trigger] final(self).runs()[i]).spec_capacity()
                == old(self).runs()[i].spec_capacity(),
            final(self).runs()[n as int].stored() == final(self).runs()[n as int].live_count(),
            final(self).runs()[n as int].stored() == old(self).spec_slot().spec_len() + live_to(
                old(self).runs(),
                n as int,
            ),
            live_to(final(self).runs(), final(self).runs().len() as int) == old(
                self,
            ).spec_slot().spec_len() + live_to(old(self).runs(), old(self).runs().len() as int),
            final(self).spec_tombs() == stored_to(final(self).runs(), final(self).runs().len() as int)
                - live_to(final(self).runs(), final(self).runs().len() as int),
            final(self).spec_tombs() <= old(self).spec_tombs(),
            forall|i: int|
                0 <= i < final(self).runs().len() && i != n
                    && !(#[trigger] final(self).runs()[i]).is_empty_spec()
                    ==> Self::density_ok(final(self).runs()[i], final(self).spec_s()),
    {
        let ghost orig = *self;
        let ghost m = self.data@.len() as int;
        proof {
            lemma_to_bounds(orig.data@, m);
        }
        let mut acc: Vec<(u64, V)> = self.slot.take_sorted();
        let mut dropped: usize = 0;
        let mut i: usize = 0;
        proof {
            assert(map_of(acc@) =~= orig.slot.as_map().union_prefer_right(
                runs_map_to(orig.data@, 0),
            ));
        }
        while i < n
            invariant
                i <= n,
                orig.inv_shape(),
                m == orig.data@.len() as int,
                n < orig.data@.len(),
                orig.tombs == stored_to(orig.data@, m) - live_to(orig.data@, m),
                self.data@.len() == orig.data@.len(),
                self.slot.wf(),
                self.slot.spec_len() == 0,
                self.slot.as_map() == Map::<u64, V>::empty(),
                self.slot.spec_max() == orig.slot.spec_max(),
                self.len == orig.len,
                self.tombs == orig.tombs,
                forall|j: int| 0 <= j < i ==> (#[trigger] self.data@[j]).wf()
                    && self.data@[j].is_empty_spec() && self.data@[j].stored() == 0
                    && self.data@[j].live_count() == 0 && self.data@[j].as_map() == Map::<
                    u64,
                    V,
                >::empty() && self.data@[j].spec_capacity() == orig.data@[j].spec_capacity(),
                forall|j: int| i <= j < self.data@.len() ==> #[trigger] self.data@[j]
                    == orig.data@[j],
                sorted_strict(keys_of(acc@)),
                crate::entries::unique_keys(acc@),
                map_of(acc@) == orig.slot.as_map().union_prefer_right(
                    runs_map_to(orig.data@, i as int),
                ),
                acc@.len() == orig.slot.spec_len() + live_to(orig.data@, i as int),
                dropped == stored_to(orig.data@, i as int) - live_to(orig.data@, i as int),
            decreases n - i,
        {
            proof {
                lemma_tombs_monotone(orig.data@, i as int, i + 1);
                lemma_tombs_monotone(orig.data@, i + 1, m);
                assert(self.data@[i as int].wf());
                lemma_acc_part_disjoint(acc@, orig.slot.as_map(), orig.data@, i as int);
            }
            let ms = &mut self.data[i];
            let before_len: usize = ms.stored_len();
            let part: Vec<(u64, V)> = ms.filtered_drain();
            let ghost accb = acc@;
            proof {
                orig.data@[i as int].lemma_live();
            }
            let part_len: usize = part.len();
            acc = merge2(acc, part);
            dropped = dropped + (before_len - part_len);
            proof {
                lemma_union_assoc(
                    orig.slot.as_map(),
                    runs_map_to(orig.data@, i as int),
                    orig.data@[i as int].as_map(),
                );
            }
            i += 1;
        }
        let ghost accv = acc@;
        proof {
            lemma_cap_geometric(orig.data@, orig.slot.spec_max(), n as int);
            lemma_to_bounds(orig.data@, n as int);
            assert(self.data@[n as int] == orig.data@[n as int]);
            assert(acc@.len() <= self.data@[n as int].spec_capacity());
        }
        let ms = &mut self.data[n];
        ms.fill_in(acc);
        proof {
            lemma_tombs_monotone(orig.data@, n as int, m);
        }
        self.tombs = self.tombs - dropped;
        proof {
            let newruns = self.data@;
            crate::entries::lemma_map_of_len(accv);
            lemma_rebuild(
                orig.data@,
                newruns,
                n as int,
                m,
                orig.slot.as_map(),
                orig.slot.spec_len(),
            );
            assert(self@ =~= orig@);
            newruns[n as int].lemma_live();
            crate::entries::lemma_map_of_dom(accv);
            vstd::map_lib::lemma_union_dom(
                orig.slot.as_map(),
                runs_map_to(orig.data@, n as int),
            );
            lemma_runs_map_dom(orig.data@, n as int);
            lemma_merged_runs_disjoint(orig.data@, newruns, n as int, orig.slot.as_map());
            assert(caps_chained(newruns, self.slot.spec_max()));
        }
    }


    /// After a merge into run `n`, redistribute its contents into the empty
    /// runs below it when the run would keep too much unused capacity.
    #[verifier::rlimit(100)]
    fn check_tombs(&mut self, n: usize)
        requires
            old(self).inv_shape(),
            n < old(self).runs().len(),
            forall|i: int| 0 <= i < n ==> (#[trigger] old(self).runs()[i]).is_empty_spec(),
            old(self).runs()[n as int].stored() == old(self).runs()[n as int].live_count(),
            old(self).spec_slot().spec_len() == 0,
            old(self).spec_slot().as_map() == Map::<u64, V>::empty(),
            forall|i: int|
                0 <= i < old(self).runs().len() && i != n
                    && !(#[trigger] old(self).runs()[i]).is_empty_spec()
                    ==> Self::density_ok(old(self).runs()[i], old(self).spec_s()),
            old(self).spec_tombs() == stored_to(old(self).runs(), old(self).runs().len() as int)
                - live_to(old(self).runs(), old(self).runs().len() as int),
        ensures
            final(self).inv_shape(),
            final(self).density_all(),
            final(self).runs().len() == old(self).runs().len(),
            final(self).spec_s() == old(self).spec_s(),
            final(self).spec_slot() == old(self).spec_slot(),
            final(self)@ == old(self)@,
            final(self).spec_len() == old(self).spec_len(),
            final(self).spec_tombs() == old(self).spec_tombs(),
            live_to(final(self).runs(), final(self).runs().len() as int) == live_to(
                old(self).runs(),
                old(self).runs().len() as int,
            ),
            final(self).spec_tombs() == stored_to(
                final(self).runs(),
                final(self).runs().len() as int,
            ) - live_to(final(self).runs(), final(self).runs().len() as int),
    {
        let ghost orig = *self;
        let ghost ll = self.data@.len() as int;
        let s: usize = self.slot.max_size();
        proof {
            assert(self.data@[n as int].wf());
        }
        let cap_n: usize = self.data[n].capacity();
        let stored_n: usize = self.data[n].stored_len();
        let local_tombs: usize = cap_n - stored_n;
        if local_tombs > s && local_tombs > cap_n - local_tombs {
            proof {
                assert(n >= 1) by {
                    if n == 0 {
                        assert(self.data@[0].spec_capacity() == self.slot.spec_max());
                    }
                }
                lemma_cap_at_least(orig.data@, orig.slot.spec_max(), n - 1);
            }
            let msn = &mut self.data[n];
            let mut work: Vec<(u64, V)> = msn.filtered_drain();
            proof {
                orig.data@[n as int].lemma_live();
                assert(self.data@ =~= orig.data@.update(n as int, self.data@[n as int]));
                lemma_counts_update(orig.data@, n as int, self.data@[n as int], ll);
                lemma_runs_fill_empty(self.data@, n as int, orig.data@[n as int], ll);
                assert(orig.data@ =~= self.data@.update(n as int, orig.data@[n as int]));
                crate::entries::lemma_map_of_dom(work@);
                assert forall|j: int, k: u64|
                    0 <= j < ll && #[trigger] self.data@[j].live_at(k)
                        implies !crate::entries::has_key(work@, k) by {
                    if crate::entries::has_key(work@, k) {
                        assert(map_of(work@).contains_key(k));
                        assert(orig.data@[n as int].live_at(k));
                        if j != n {
                            assert(self.data@[j] == orig.data@[j]);
                            assert(!(orig.data@[j].live_at(k) && orig.data@[n as int].live_at(k))
                                || !(orig.data@[n as int].live_at(k) && orig.data@[j].live_at(
                                k,
                            )));
                            assert(!orig.data@[j].live_at(k));
                        } else {
                            assert(self.data@[j].stored() == 0);
                        }
                    }
                }
            }
            let mut m: usize = n;
            while m > 0 && work.len() > 0
                invariant
                    m <= n,
                    n < ll,
                    orig.inv_shape(),
                    forall|i: int| 0 <= i < n ==> (#[trigger] orig.data@[i]).is_empty_spec(),
                    ll == orig.data@.len() as int,
                    self.len == orig.len,
                    self.tombs == orig.tombs,
                    self.slot == orig.slot,
                    self.slot.as_map() == Map::<u64, V>::empty(),
                    s == orig.slot.spec_max(),
                    self.data@.len() == ll,
                    runs_wf(self.data@, ll),
                    runs_disjoint(self.data@, ll),
                    forall|i: int| 0 <= i < ll ==> (#[trigger] self.data@[i]).spec_capacity()
                        == orig.data@[i].spec_capacity(),
                    forall|j: int| 0 <= j < m ==> #[trigger] self.data@[j] == orig.data@[j],
                    forall|j: int| n < j < ll ==> #[trigger] self.data@[j] == orig.data@[j],
                    self.data@[n as int].stored() == 0,
                    self.data@[n as int].as_map() == Map::<u64, V>::empty(),
                    self.data@[n as int].live_count() == 0,
                    forall|i: int|
                        0 <= i < ll && !(#[trigger] self.data@[i]).is_empty_spec()
                            ==> Self::density_ok(self.data@[i], s as int),
                    sorted_strict(keys_of(work@)),
                    crate::entries::unique_keys(work@),
                    forall|j: int, k: u64|
                        0 <= j < ll && #[trigger] self.data@[j].live_at(k)
                            ==> !crate::entries::has_key(work@, k),
                    runs_map_to(self.data@, ll).union_prefer_right(map_of(work@))
                        == runs_map_to(orig.data@, ll),
                    live_to(self.data@, ll) + work@.len() == live_to(orig.data@, ll),
                    stored_to(self.data@, ll) + work@.len() == stored_to(orig.data@, ll),
                    work@.len() == 0 || (m >= 1 && (work@.len() as int) < 2 * self.data@[m
                        - 1].spec_capacity() - s),
                decreases m,
            {
                m = m - 1;
                proof {
                    assert(self.data@[m as int].wf());
                    assert(self.data@[m as int] == orig.data@[m as int]);
                }
                let cap_m: usize = self.data[m].capacity();
                let wl: usize = work.len();
                if wl >= cap_m || cap_m - wl <= s {
                    let take: usize = if wl >= cap_m {
                        cap_m
                    } else {
                        wl
                    };
                    let ghost workb = work@;
                    let rest = work.split_off(take);
                    proof {
                        assert(work@ =~= workb.subrange(0, take as int));
                        assert(rest@ =~= workb.subrange(take as int, workb.len() as int));
                        assert forall|x: int, y: int|
                            0 <= x < y < keys_of(work@).len() implies keys_of(work@)[x] < keys_of(
                            work@,
                        )[y] by {
                            assert(keys_of(work@)[x] == work@[x].0 == workb[x].0 == keys_of(
                                workb,
                            )[x]);
                            assert(keys_of(work@)[y] == work@[y].0 == workb[y].0 == keys_of(
                                workb,
                            )[y]);
                        }
                    }
                    let ghost databefore = self.data@;
                    let msm = &mut self.data[m];
                    msm.fill_in(work);
                    proof {
                        assert(self.data@ =~= databefore.update(m as int, self.data@[m as int]));
                        lemma_place_chunk(
                            databefore,
                            self.data@,
                            m as int,
                            ll,
                            workb,
                            take as int,
                        );
                        assert(rest@ == workb.subrange(take as int, workb.len() as int));
                    }
                    work = rest;
                } else {
                    proof {
                        assert(cap_m - wl > s);
                        assert(m >= 1) by {
                            if m == 0 {
                                assert(orig.data@[0].spec_capacity() == orig.slot.spec_max());
                            }
                        }
                        assert(2 * orig.data@[(m - 1) as int].spec_capacity()
                            == orig.data@[m as int].spec_capacity());
                    }
                }
            }
            proof {
                assert(work@.len() == 0);
                assert(map_of(work@) =~= Map::<u64, V>::empty());
                assert(runs_map_to(self.data@, ll) =~= runs_map_to(
                    self.data@,
                    ll,
                ).union_prefer_right(map_of(work@)));
                assert(self@ =~= orig@);
                assert(caps_chained(self.data@, self.slot.spec_max()));
            }
        }
    }


    /// Move the full buffer into the cascade: the target is the first index
    /// above every populated run, merging everything below it.
    #[verifier::rlimit(100)]
    fn promote(&mut self)
        requires
            old(self).inv_shape(),
            old(self).density_all(),
            old(self).spec_slot().spec_len() == old(self).spec_s(),
            old(self).spec_tombs() == stored_to(old(self).runs(), old(self).runs().len() as int)
                - live_to(old(self).runs(), old(self).runs().len() as int),
            old(self).spec_len() + 1 == old(self).spec_slot().spec_len() + live_to(
                old(self).runs(),
                old(self).runs().len() as int,
            ),
            old(self).spec_len() + old(self).spec_tombs() < usize::MAX / 8,
        ensures
            final(self).inv_shape(),
            final(self).density_all(),
            final(self).spec_slot().spec_len() == 0,
            final(self).spec_s() == old(self).spec_s(),
            final(self).spec_len() == old(self).spec_len(),
            final(self)@ == old(self)@,
            final(self).spec_len() + 1 == final(self).spec_slot().spec_len() + live_to(
                final(self).runs(),
                final(self).runs().len() as int,
            ),
            final(self).spec_tombs() == stored_to(
                final(self).runs(),
                final(self).runs().len() as int,
            ) - live_to(final(self).runs(), final(self).runs().len() as int),
            final(self).spec_tombs() <= old(self).spec_tombs(),
    {
        let ghost orig = *self;
        if self.data.len() == 0 {
            let items = self.slot.take_sorted();
            proof {
                crate::entries::lemma_map_of_dom(items@);
                crate::entries::lemma_map_of_len(items@);
            }
            let ms = MapMultiSlot::new(items);
            self.data.push(ms);
            proof {
                let runs = self.data@;
                ms.lemma_live();
                assert(runs.len() == 1);
                assert(runs_map_to(runs, 0) =~= Map::<u64, V>::empty());
                assert(runs_map_to(runs, 1) =~= orig.slot.as_map());
                assert(live_to(runs, 0) == 0 && stored_to(runs, 0) == 0);
                assert(live_to(runs, 1) == orig.slot.spec_len());
                assert(stored_to(runs, 1) == orig.slot.spec_len());
                assert(live_to(orig.data@, 0) == 0 && stored_to(orig.data@, 0) == 0);
                assert(self@ =~= orig@);
                assert(caps_chained(runs, self.slot.spec_max()));
                assert(runs_disjoint(runs, 1));
                assert forall|i: int, k: u64|
                    0 <= i < 1 && #[trigger] runs[i].live_at(k)
                        implies !self.slot.as_map().contains_key(k) by {}
            }
        } else {
            let mut n: usize = self.data.len();
            while n > 0 && self.data[n - 1].is_empty()
                invariant
                    n <= self.data@.len(),
                    forall|j: int| n <= j < self.data@.len() ==> (#[trigger] self.data@[j]).is_empty_spec(),
                decreases n,
            {
                n = n - 1;
            }
            if n == self.data.len() {
                proof {
                    assert(!self.data@[n - 1].is_empty_spec());
                    assert(self.data@[n - 1].wf());
                    let st = self.data@[n - 1].stored();
                    let c = self.data@[n - 1].spec_capacity();
                    assert(Self::density_ok(self.data@[n - 1], self.slot.spec_max()));
                    lemma_stored_component(self.data@, self.data@.len() as int, n - 1);
                    lemma_to_bounds(self.data@, self.data@.len() as int);
                    assert(c <= 2 * st + self.slot.spec_max());
                    assert(st <= stored_to(self.data@, self.data@.len() as int));
                    assert(self.slot.spec_max() <= self.len + 1);
                    assert(2 * c <= usize::MAX);
                }
                let c = self.data[n - 1].capacity();
                let ms = MapMultiSlot::empty(2 * c);
                let ghost runsb = self.data@;
                self.data.push(ms);
                proof {
                    let runs = self.data@;
                    let ll = runsb.len() as int;
                    assert(forall|i: int| 0 <= i < ll ==> runs[i] == runsb[i]);
                    assert forall|i: int| 0 <= i < ll implies (#[trigger] runs[i]).as_map()
                        == runsb[i].as_map() && runs[i].live_count() == runsb[i].live_count()
                        && runs[i].stored() == runsb[i].stored() && runs[i].spec_capacity()
                        == runsb[i].spec_capacity() by {}
                    lemma_runs_agree(runsb, runs, ll);
                    assert(runs_map_to(runs, ll + 1) =~= runs_map_to(runsb, ll));
                    assert(self@ =~= orig@);
                    assert(caps_chained(runs, self.slot.spec_max()));
                    assert(runs_wf(runs, ll + 1));
                    assert forall|x: int, y: int, k: u64|
                        0 <= x < y < runs.len() implies !(#[trigger] runs[x].live_at(k)
                        && #[trigger] runs[y].live_at(k)) by {
                        if y < ll {
                            assert(!(runsb[x].live_at(k) && runsb[y].live_at(k)));
                        } else {
                            assert(runs[y].stored() == 0);
                        }
                    }
                }
            }
            self.merge_into(n);
            self.check_tombs(n);
        }
    }

    /// Insert or replace. A key already live in a run has its value replaced
    /// in place; a key in the buffer is replaced there; a new key lands in
    /// the buffer, promoting it when it fills.
    #[verifier::rlimit(100)]
    pub fn insert(&mut self, k: u64, v: V) -> (r: Option<V>)
        requires
            old(self).inv(),
            old(self).spec_len() + old(self).spec_tombs() < usize::MAX / 8,
        ensures
            final(self).inv(),
            final(self)@ == old(self)@.insert(k, v),
            r == if old(self)@.contains_key(k) {
                Some(old(self)@[k])
            } else {
                Option::<V>::None
            },
            final(self).spec_len() == old(self).spec_len() + if old(self)@.contains_key(k) {
                0int
            } else {
                1int
            },
            final(self).spec_s() == old(self).spec_s(),
            final(self).spec_tombs() <= old(self).spec_tombs(),
            old(self)@.contains_key(k) ==> final(self).spec_tombs() == old(self).spec_tombs(),
    {
        proof {
            self.lemma_view();
        }
        let ghost orig = *self;
        match self.multy_contains(&k) {
            Some((msi, idx)) => {
                proof {
                    assert(orig.data@[msi as int].wf());
                    assert(orig.data@[msi as int].live_at(k));
                    orig.data@[msi as int].lemma_live();
                }
                let ms = &mut self.data[msi];
                let prior = ms.swap_value(idx, v);
                proof {
                    let r2 = self.data@[msi as int];
                    orig.data@[msi as int].lemma_value_update(r2, idx as int);
                    assert(self.data@ =~= orig.data@.update(msi as int, r2));
                    lemma_runs_map_update(
                        orig.data@,
                        msi as int,
                        r2,
                        orig.data@.len() as int,
                        k,
                        v,
                    );
                    lemma_counts_update(orig.data@, msi as int, r2, orig.data@.len() as int);
                    vstd::map_lib::lemma_union_insert_right(
                        orig.slot.as_map(),
                        runs_map_to(orig.data@, orig.data@.len() as int),
                        k,
                        v,
                    );
                    assert(self@ == orig@.insert(k, v));
                    assert forall|x: int, y: int, kk: u64|
                        0 <= x < y < self.data@.len() implies !(#[trigger] self.data@[x].live_at(
                        kk,
                    ) && #[trigger] self.data@[y].live_at(kk)) by {
                        assert(!(orig.data@[x].live_at(kk) && orig.data@[y].live_at(kk)));
                    }
                    assert forall|i: int, kk: u64|
                        0 <= i < self.data@.len() && #[trigger] self.data@[i].live_at(kk)
                            implies !self.slot.as_map().contains_key(kk) by {
                        assert(orig.data@[i].live_at(kk));
                    }
                    assert(caps_chained(self.data@, self.slot.spec_max()));
                    assert(self.inv());
                }
                Some(prior)
            },
            None => {
                let (prior, full) = self.slot.insert(k, v);
                proof {
                    lemma_runs_map_dom(orig.data@, orig.data@.len() as int);
                    if !orig.slot.as_map().contains_key(k) {
                        assert(!runs_map_to(orig.data@, orig.data@.len() as int).contains_key(k))
                            by {
                            if runs_map_to(orig.data@, orig.data@.len() as int).contains_key(k) {
                                let i = choose|i: int|
                                    0 <= i < orig.data@.len() && #[trigger] orig.data@[i].live_at(
                                        k,
                                    );
                            }
                        }
                        vstd::map_lib::lemma_union_insert_left(
                            orig.slot.as_map(),
                            runs_map_to(orig.data@, orig.data@.len() as int),
                            k,
                            v,
                        );
                    } else {
                        vstd::map_lib::lemma_union_insert_left(
                            orig.slot.as_map(),
                            runs_map_to(orig.data@, orig.data@.len() as int),
                            k,
                            v,
                        );
                    }
                    assert(self@ == orig@.insert(k, v));
                }
                match prior {
                    Some(pv) => {
                        proof {
                            assert(orig@.contains_key(k));
                            assert(orig@[k] == orig.slot.as_map()[k]);
                            assert(self.inv());
                        }
                        Some(pv)
                    },
                    None => {
                        proof {
                            assert(!orig@.contains_key(k));
                        }
                        if full {
                            self.promote();
                        }
                        self.len = self.len + 1;
                        proof {
                            assert(self.inv());
                        }
                        None
                    },
                }
            },
        }
    }



    /// Remove `k`. A key in a run is tombstoned and its value handed out by
    /// reference; a key in the buffer is removed physically and handed out
    /// owned.
    #[verifier::rlimit(100)]
    pub fn remove<'t>(&'t mut self, k: &u64) -> (r: Option<RemovedItem<'t, V>>)
        requires
            old(self).inv(),
        ensures
            r is Some <==> old(self)@.contains_key(*k),
            r is None ==> *final(self) == *old(self),
            r matches Some(item) ==> {
                &&& item.value() == old(self)@[*k]
                &&& final(self).inv()
                &&& final(self)@ == old(self)@.remove(*k)
                &&& final(self).spec_len() == old(self).spec_len() - 1
                &&& final(self).spec_s() == old(self).spec_s()
                &&& (item is Ref ==> final(self).spec_tombs() == old(self).spec_tombs() + 1)
                &&& (item is Owned ==> final(self).spec_tombs() == old(self).spec_tombs())
            },
    {
        proof {
            self.lemma_view();
        }
        let ghost orig = *self;
        let ghost ll = self.data@.len() as int;
        match self.multy_contains(k) {
            Some((msi, idx)) => {
                proof {
                    assert(orig.data@[msi as int].wf());
                    assert(orig.data@[msi as int].live_at(*k));
                    orig.data@[msi as int].lemma_live();
                    assert(orig.data@[msi as int].live_count() >= 1) by {
                        assert(orig.data@[msi as int].as_map().contains_key(*k));
                        vstd::set_lib::lemma_set_empty_equivalency_len(
                            orig.data@[msi as int].as_map().dom(),
                        );
                    }
                    lemma_stored_component(orig.data@, ll, msi as int);
                    lemma_to_bounds(orig.data@, ll);
                    assert(orig.counts_ok());
                    assert(live_to(orig.data@, ll) >= 1);
                    assert(ll == orig.data@.len() as int);
                    assert(orig.slot.spec_len() >= 0);
                    assert(orig.len == orig.slot.spec_len() + live_to(
                        orig.data@,
                        orig.data@.len() as int,
                    ));
                    assert(orig.len >= 1);
                    assert(orig.tombs + 1 <= usize::MAX);
                }
                let ms = &mut self.data[msi];
                ms.unset_at(idx);
                self.tombs = self.tombs + 1;
                self.len = self.len - 1;
                proof {
                    let r1 = self.data@[msi as int];
                    orig.data@[msi as int].lemma_unset(r1, idx as int);
                    assert(self.data@ =~= orig.data@.update(msi as int, r1));
                    lemma_runs_map_remove(orig.data@, msi as int, r1, ll, *k);
                    lemma_counts_update(orig.data@, msi as int, r1, ll);
                    assert(!orig.slot.as_map().contains_key(*k));
                    vstd::map_lib::lemma_union_remove_right(
                        orig.slot.as_map(),
                        runs_map_to(orig.data@, ll),
                        *k,
                    );
                    assert(self@ == orig@.remove(*k));
                    assert forall|x: int, y: int, kk: u64|
                        0 <= x < y < self.data@.len() implies !(#[trigger] self.data@[x].live_at(
                        kk,
                    ) && #[trigger] self.data@[y].live_at(kk)) by {
                        if self.data@[x].live_at(kk) && self.data@[y].live_at(kk) {
                            assert(orig.data@[x].live_at(kk) && orig.data@[y].live_at(kk));
                        }
                    }
                    assert forall|i: int, kk: u64|
                        0 <= i < self.data@.len() && #[trigger] self.data@[i].live_at(kk)
                            implies !self.slot.as_map().contains_key(kk) by {
                        assert(orig.data@[i].live_at(kk));
                    }
                    assert(caps_chained(self.data@, self.slot.spec_max()));
                    assert(self.inv());
                }
                let ghost mid = *self;
                proof {
                    assert forall|r2: MapMultiSlot<V>|
                        (r2.key_seq() == mid.data@[msi as int].key_seq() && r2.flag_seq()
                            == mid.data@[msi as int].flag_seq() && r2.spec_capacity()
                            == mid.data@[msi as int].spec_capacity() && r2.val_seq().len()
                            == mid.data@[msi as int].val_seq().len() && (forall|j: int|
                            0 <= j < r2.val_seq().len() && j != idx ==> r2.val_seq()[j]
                                == mid.data@[msi as int].val_seq()[j])) implies {
                        let u = #[trigger] mid.data@.update(msi as int, r2);
                        &&& runs_map_to(u, ll) == runs_map_to(mid.data@, ll)
                        &&& live_to(u, ll) == live_to(mid.data@, ll)
                        &&& stored_to(u, ll) == stored_to(mid.data@, ll)
                        &&& runs_wf(u, ll)
                        &&& runs_disjoint(u, ll)
                        &&& caps_chained(u, mid.slot.spec_max())
                        &&& (forall|i: int|
                            0 <= i < ll && !(#[trigger] u[i]).is_empty_spec() ==> Self::density_ok(
                                u[i],
                                mid.slot.spec_max(),
                            ))
                        &&& (forall|i: int, kk: u64|
                            0 <= i < ll && #[trigger] u[i].live_at(kk)
                                ==> !mid.slot.as_map().contains_key(kk))
                    } by {
                        let old_run = mid.data@[msi as int];
                        let u = mid.data@.update(msi as int, r2);
                        assert(!old_run.flag_seq()[idx as int]);
                        old_run.lemma_cols_agree(r2);
                        assert forall|i: int| 0 <= i < ll implies (#[trigger] u[i]).as_map()
                            == mid.data@[i].as_map() && u[i].live_count()
                            == mid.data@[i].live_count() && u[i].stored() == mid.data@[i].stored()
                            && u[i].spec_capacity() == mid.data@[i].spec_capacity() by {}
                        lemma_runs_agree(mid.data@, u, ll);
                        assert forall|x: int, y: int, kk: u64|
                            0 <= x < y < ll implies !(#[trigger] u[x].live_at(kk)
                            && #[trigger] u[y].live_at(kk)) by {
                            if u[x].live_at(kk) && u[y].live_at(kk) {
                                assert(mid.data@[x].live_at(kk) && mid.data@[y].live_at(kk));
                            }
                        }
                        assert forall|i: int, kk: u64|
                            0 <= i < ll && #[trigger] u[i].live_at(kk)
                                implies !mid.slot.as_map().contains_key(kk) by {
                            assert(mid.data@[i].live_at(kk));
                        }
                        assert forall|i: int|
                            0 <= i < ll && !(#[trigger] u[i]).is_empty_spec()
                                implies Self::density_ok(u[i], mid.slot.spec_max()) by {
                            assert(!mid.data@[i].is_empty_spec());
                        }
                    }
                }
                let ms2 = &mut self.data[msi];
                let p = ms2.value_mut(idx);
                Some(RemovedItem::Ref(p))
            },
            None => {
                proof {
                    orig.slot.lemma_key_in_map();
                    lemma_runs_map_dom(orig.data@, ll);
                    if orig.slot.as_map().contains_key(*k) {
                        assert(!runs_map_to(orig.data@, ll).contains_key(*k)) by {
                            if runs_map_to(orig.data@, ll).contains_key(*k) {
                                let i = choose|i: int|
                                    0 <= i < ll && #[trigger] orig.data@[i].live_at(*k);
                            }
                        }
                        vstd::map_lib::lemma_union_remove_left(
                            orig.slot.as_map(),
                            runs_map_to(orig.data@, ll),
                            *k,
                        );
                        orig.slot.lemma_map_len();
                        vstd::set_lib::lemma_set_empty_equivalency_len(orig.slot.as_map().dom());
                        lemma_to_bounds(orig.data@, ll);
                        assert(orig.counts_ok());
                        assert(orig.slot.as_map().dom().len() >= 1);
                        assert(orig.slot.spec_len() >= 1);
                        assert(orig.len == orig.slot.spec_len() + live_to(
                            orig.data@,
                            orig.data@.len() as int,
                        ));
                        assert(orig.len >= 1);
                    }
                }
                match self.slot.remove(k) {
                    Some(v) => {
                        self.len = self.len - 1;
                        proof {
                            assert(self@ == orig@.remove(*k));
                            assert forall|i: int, kk: u64|
                                0 <= i < self.data@.len() && #[trigger] self.data@[i].live_at(kk)
                                    implies !self.slot.as_map().contains_key(kk) by {
                                assert(!orig.slot.as_map().contains_key(kk));
                            }
                            assert(self.inv());
                        }
                        Some(RemovedItem::Owned(v))
                    },
                    None => {
                        proof {
                            assert(orig@.remove(*k) =~= orig@);
                            assert(!orig@.contains_key(*k));
                        }
                        None
                    },
                }
            },
        }
    }


    /// Release spare allocation in every run; nothing observable changes.
    #[verifier::rlimit(50)]
    pub fn shrink_to_fit(&mut self)
        requires
            old(self).inv(),
        ensures
            final(self).inv(),
            final(self)@ == old(self)@,
            final(self).spec_len() == old(self).spec_len(),
            final(self).spec_tombs() == old(self).spec_tombs(),
            final(self).spec_s() == old(self).spec_s(),
    {
        let ghost orig = *self;
        let n: usize = self.data.len();
        let mut i: usize = 0;
        while i < n
            invariant
                i <= n,
                n == self.data@.len(),
                self.len == orig.len,
                self.tombs == orig.tombs,
                self.slot == orig.slot,
                forall|j: int| 0 <= j < n ==> (#[trigger] self.data@[j]).key_seq()
                    == orig.data@[j].key_seq() && self.data@[j].flag_seq()
                    == orig.data@[j].flag_seq() && self.data@[j].val_seq()
                    == orig.data@[j].val_seq() && self.data@[j].spec_capacity()
                    == orig.data@[j].spec_capacity(),
            decreases n - i,
        {
            let ms = &mut self.data[i];
            ms.shrink_to_fit();
            i += 1;
        }
        proof {
            lemma_runs_agree(orig.data@, self.data@, n as int);
            assert forall|j: int| 0 <= j < n implies (#[trigger] self.data@[j]).wf() by {
                assert(orig.data@[j].wf());
            }
            assert forall|j: int, k: u64|
                0 <= j < n && #[trigger] self.data@[j].live_at(k) implies orig.data@[j].live_at(
                k,
            ) by {}
            assert forall|j: int, k: u64|
                0 <= j < n && #[trigger] orig.data@[j].live_at(k) implies self.data@[j].live_at(
                k,
            ) by {}
            assert(self.inv());
            assert(self@ == orig@);
        }
    }
}

} // verus!
