//! Ghost theory of key/value entry sequences.
//!
//! A run or a drained buffer is modelled as a `Seq<(u64, V)>`. `map_of` turns
//! such a sequence into the finite map it denotes (rightmost entry wins, though
//! every sequence this crate builds has unique keys). `live_prefix` filters a
//! run's parallel key/flag/value columns down to its live entries.

use vstd::prelude::*;

verus! {

/// The keys of an entry sequence, in order.
pub open spec fn keys_of<V>(s: Seq<(u64, V)>) -> Seq<u64> {
    s.map_values(|p: (u64, V)| p.0)
}

/// Strictly ascending.
pub open spec fn sorted_strict(ks: Seq<u64>) -> bool {
    forall|i: int, j: int| 0 <= i < j < ks.len() ==> ks[i] < ks[j]
}

/// No key occurs twice.
pub open spec fn unique_keys<V>(s: Seq<(u64, V)>) -> bool {
    forall|i: int, j: int| 0 <= i < j < s.len() ==> s[i].0 != s[j].0
}

/// Some entry carries key `k`.
pub open spec fn has_key<V>(s: Seq<(u64, V)>, k: u64) -> bool {
    exists|i: int| 0 <= i < s.len() && s[i].0 == k
}

/// The map denoted by an entry sequence; a later entry shadows an earlier one.
pub open spec fn map_of<V>(s: Seq<(u64, V)>) -> Map<u64, V>
    decreases s.len(),
{
    if s.len() == 0 {
        Map::empty()
    } else {
        map_of(s.drop_last()).insert(s.last().0, s.last().1)
    }
}

/// How many of the first `n` flags are set.
pub open spec fn count_true(fl: Seq<bool>, n: int) -> int
    decreases n,
{
    if n <= 0 {
        0
    } else {
        count_true(fl, n - 1) + if fl[n - 1] { 1int } else { 0int }
    }
}

/// The live entries among the first `n` columns of a run: index `j` contributes
/// `(ks[j], vs[j])` exactly when `fl[j]` is set.
pub open spec fn live_prefix<V>(ks: Seq<u64>, fl: Seq<bool>, vs: Seq<V>, n: int) -> Seq<(u64, V)>
    decreases n,
{
    if n <= 0 {
        Seq::empty()
    } else {
        live_prefix(ks, fl, vs, n - 1) + if fl[n - 1] {
            seq![(ks[n - 1], vs[n - 1])]
        } else {
            Seq::empty()
        }
    }
}

/// A strictly sorted key column has unique keys.
pub proof fn lemma_sorted_unique<V>(s: Seq<(u64, V)>)
    requires
        sorted_strict(keys_of(s)),
    ensures
        unique_keys(s),
{
    assert forall|i: int, j: int| 0 <= i < j < s.len() implies s[i].0 != s[j].0 by {
        assert(keys_of(s)[i] == s[i].0);
        assert(keys_of(s)[j] == s[j].0);
    }
}

/// Appending one entry inserts its pair into the denoted map.
pub proof fn lemma_map_of_push<V>(s: Seq<(u64, V)>, p: (u64, V))
    ensures
        map_of(s.push(p)) == map_of(s).insert(p.0, p.1),
{
    assert(s.push(p).drop_last() =~= s);
    assert(s.push(p).last() == p);
}

/// The domain of the denoted map is finite.
pub proof fn lemma_map_of_finite<V>(s: Seq<(u64, V)>)
    ensures
        map_of(s).dom().finite(),
    decreases s.len(),
{
    if s.len() > 0 {
        lemma_map_of_finite(s.drop_last());
    }
}

/// A key is in the denoted map exactly when some entry carries it.
pub proof fn lemma_map_of_dom<V>(s: Seq<(u64, V)>)
    ensures
        forall|k: u64| #[trigger] map_of(s).contains_key(k) <==> has_key(s, k),
    decreases s.len(),
{
    if s.len() > 0 {
        lemma_map_of_dom(s.drop_last());
        assert forall|k: u64| has_key(s, k) implies map_of(s).contains_key(k) by {
            let i = choose|i: int| 0 <= i < s.len() && s[i].0 == k;
            if i < s.len() - 1 {
                assert(s.drop_last()[i].0 == k);
                assert(has_key(s.drop_last(), k));
                assert(map_of(s.drop_last()).contains_key(k));
            } else {
                assert(k == s.last().0);
            }
        }
        assert forall|k: u64| map_of(s).contains_key(k) implies has_key(s, k) by {
            if k != s.last().0 {
                assert(map_of(s.drop_last()).contains_key(k));
                let i = choose|i: int| 0 <= i < s.drop_last().len() && s.drop_last()[i].0 == k;
                assert(s[i] == s.drop_last()[i]);
                assert(s[i].0 == k);
            } else {
                assert(s[s.len() - 1].0 == k);
            }
        }
    }
}

/// With unique keys, entry `i` gives the map's value at its key.
pub proof fn lemma_map_of_index<V>(s: Seq<(u64, V)>, i: int)
    requires
        unique_keys(s),
        0 <= i < s.len(),
    ensures
        map_of(s).contains_key(s[i].0),
        map_of(s)[s[i].0] == s[i].1,
    decreases s.len(),
{
    if i == s.len() - 1 {
    } else {
        assert(unique_keys(s.drop_last()));
        assert(s.drop_last()[i] == s[i]);
        lemma_map_of_index(s.drop_last(), i);
        assert(s[i].0 != s.last().0);
    }
}

/// With unique keys, the denoted map has one entry per sequence element.
pub proof fn lemma_map_of_len<V>(s: Seq<(u64, V)>)
    requires
        unique_keys(s),
    ensures
        map_of(s).dom().finite(),
        map_of(s).dom().len() == s.len(),
    decreases s.len(),
{
    lemma_map_of_finite(s);
    if s.len() > 0 {
        assert(unique_keys(s.drop_last()));
        lemma_map_of_len(s.drop_last());
        lemma_map_of_dom(s.drop_last());
        assert(!has_key(s.drop_last(), s.last().0)) by {
            assert forall|i: int| 0 <= i < s.drop_last().len() implies s.drop_last()[i].0
                != s.last().0 by {
                assert(s[i] == s.drop_last()[i]);
            }
        }
        assert(!map_of(s.drop_last()).dom().contains(s.last().0));
        vstd::set_lib::lemma_set_insert_finite_iff(
            map_of(s.drop_last()).dom(),
            s.last().0,
        );
        assert(map_of(s).dom() =~= map_of(s.drop_last()).dom().insert(s.last().0));
    }
}

/// Concatenation denotes the right-biased union of the two maps.
pub proof fn lemma_map_of_app<V>(a: Seq<(u64, V)>, b: Seq<(u64, V)>)
    ensures
        map_of(a + b) == map_of(a).union_prefer_right(map_of(b)),
    decreases b.len(),
{
    if b.len() == 0 {
        assert(a + b =~= a);
        assert(map_of(a).union_prefer_right(map_of(b)) =~= map_of(a));
    } else {
        lemma_map_of_app(a, b.drop_last());
        assert((a + b).drop_last() =~= a + b.drop_last());
        assert((a + b).last() == b.last());
        assert(map_of(a).union_prefer_right(map_of(b.drop_last())).insert(
            b.last().0,
            b.last().1,
        ) =~= map_of(a).union_prefer_right(map_of(b)));
    }
}

/// Bounds on the number of set flags.
pub proof fn lemma_count_true_bounds(fl: Seq<bool>, n: int)
    ensures
        0 <= count_true(fl, n),
        count_true(fl, n) <= if n <= 0 { 0int } else { n },
    decreases n,
{
    if n > 0 {
        lemma_count_true_bounds(fl, n - 1);
    }
}

/// Counting set flags ignores columns at or past `n`.
pub proof fn lemma_count_true_agree(fl1: Seq<bool>, fl2: Seq<bool>, n: int)
    requires
        forall|j: int| 0 <= j < n ==> fl1[j] == fl2[j],
    ensures
        count_true(fl1, n) == count_true(fl2, n),
    decreases n,
{
    if n > 0 {
        lemma_count_true_agree(fl1, fl2, n - 1);
    }
}

/// Changing one flag changes the count by that flag's delta.
pub proof fn lemma_count_true_update(fl: Seq<bool>, j: int, b: bool, n: int)
    requires
        0 <= j < fl.len(),
        n <= fl.len(),
    ensures
        count_true(fl.update(j, b), n) == count_true(fl, n) + if j < n {
            (if b { 1int } else { 0int }) - (if fl[j] { 1int } else { 0int })
        } else {
            0int
        },
    decreases n,
{
    if n > 0 {
        lemma_count_true_update(fl, j, b, n - 1);
        if j == n - 1 {
            assert(fl.update(j, b)[n - 1] == b);
        } else {
            assert(fl.update(j, b)[n - 1] == fl[n - 1]);
        }
    }
}

/// No flag set among the first `n` means a count of zero.
pub proof fn lemma_count_true_zero(fl: Seq<bool>, n: int)
    requires
        forall|j: int| 0 <= j < n ==> !fl[j],
    ensures
        count_true(fl, n) == 0,
    decreases n,
{
    if n > 0 {
        lemma_count_true_zero(fl, n - 1);
    }
}

/// Every flag set among the first `n` means a count of `n`.
pub proof fn lemma_count_true_full(fl: Seq<bool>, n: int)
    requires
        forall|j: int| 0 <= j < n ==> fl[j],
        n >= 0,
    ensures
        count_true(fl, n) == n,
    decreases n,
{
    if n > 0 {
        lemma_count_true_full(fl, n - 1);
    }
}

/// The live entries are as many as the set flags.
pub proof fn lemma_live_prefix_len<V>(ks: Seq<u64>, fl: Seq<bool>, vs: Seq<V>, n: int)
    ensures
        live_prefix(ks, fl, vs, n).len() == count_true(fl, n),
    decreases n,
{
    if n > 0 {
        lemma_live_prefix_len(ks, fl, vs, n - 1);
    }
}

/// The live entries do not depend on the value columns of dead indices, nor on
/// any column at or past `n`.
pub proof fn lemma_live_prefix_agree<V>(
    ks1: Seq<u64>,
    fl1: Seq<bool>,
    vs1: Seq<V>,
    ks2: Seq<u64>,
    fl2: Seq<bool>,
    vs2: Seq<V>,
    n: int,
)
    requires
        forall|j: int| 0 <= j < n ==> fl1[j] == fl2[j],
        forall|j: int| 0 <= j < n && fl1[j] ==> ks1[j] == ks2[j] && vs1[j] == vs2[j],
    ensures
        live_prefix(ks1, fl1, vs1, n) == live_prefix(ks2, fl2, vs2, n),
    decreases n,
{
    if n > 0 {
        lemma_live_prefix_agree(ks1, fl1, vs1, ks2, fl2, vs2, n - 1);
        assert(live_prefix(ks1, fl1, vs1, n) =~= live_prefix(ks2, fl2, vs2, n));
    }
}

/// When every flag is set, the live entries are the columns themselves.
pub proof fn lemma_live_prefix_all_live<V>(ks: Seq<u64>, fl: Seq<bool>, vs: Seq<V>, n: int)
    requires
        0 <= n,
        forall|j: int| 0 <= j < n ==> fl[j],
    ensures
        live_prefix(ks, fl, vs, n).len() == n,
        forall|i: int| 0 <= i < n ==> live_prefix(ks, fl, vs, n)[i] == (ks[i], vs[i]),
    decreases n,
{
    if n > 0 {
        lemma_live_prefix_all_live(ks, fl, vs, n - 1);
    }
}

/// Structure of the live entries: their keys are live keys of the run, in the
/// run's order, and each carries the run's value for its key.
pub proof fn lemma_live_prefix_props<V>(ks: Seq<u64>, fl: Seq<bool>, vs: Seq<V>, n: int)
    requires
        n <= ks.len(),
        ks.len() == vs.len(),
        sorted_strict(ks),
    ensures
        sorted_strict(keys_of(live_prefix(ks, fl, vs, n))),
        forall|k: u64| has_key(live_prefix(ks, fl, vs, n), k) <==> exists|j: int|
            0 <= j < n && ks[j] == k && #[trigger] fl[j],
        forall|j: int| 0 <= j < n && #[trigger] fl[j] ==> map_of(
            live_prefix(ks, fl, vs, n),
        ).contains_key(ks[j]) && map_of(live_prefix(ks, fl, vs, n))[ks[j]] == vs[j],
        forall|k: u64| #[trigger] map_of(live_prefix(ks, fl, vs, n)).contains_key(k) ==> exists|
            j: int,
        | 0 <= j < n && ks[j] == k && #[trigger] fl[j],
        forall|i: int| 0 <= i < live_prefix(ks, fl, vs, n).len() ==> exists|j: int|
            0 <= j < n && #[trigger] fl[j] && #[trigger] live_prefix(ks, fl, vs, n)[i] == (
            ks[j],
            vs[j],
        ),
    decreases n,
{
    lemma_map_of_dom(live_prefix(ks, fl, vs, n));
    if n > 0 {
        lemma_live_prefix_props(ks, fl, vs, n - 1);
        let prev = live_prefix(ks, fl, vs, n - 1);
        let cur = live_prefix(ks, fl, vs, n);
        lemma_map_of_dom(prev);
        if fl[n - 1] {
            let p = (ks[n - 1], vs[n - 1]);
            assert(cur =~= prev.push(p));
            lemma_map_of_push(prev, p);
            assert(forall|i: int| 0 <= i < prev.len() ==> cur[i] == prev[i]);
            assert(cur[cur.len() - 1] == p);
            assert forall|i: int| 0 <= i < cur.len() implies exists|j: int|
                0 <= j < n && #[trigger] fl[j] && #[trigger] cur[i] == (ks[j], vs[j]) by {
                if i < prev.len() {
                    let j = choose|j: int|
                        0 <= j < n - 1 && #[trigger] fl[j] && #[trigger] prev[i] == (ks[j], vs[j]);
                    assert(0 <= j < n && fl[j] && cur[i] == (ks[j], vs[j]));
                } else {
                    assert(0 <= n - 1 < n && fl[n - 1] && cur[i] == (ks[n - 1], vs[n - 1]));
                }
            }
            assert forall|i: int, j: int| 0 <= i < j < keys_of(cur).len() implies keys_of(
                cur,
            )[i] < keys_of(cur)[j] by {
                assert(keys_of(cur)[i] == cur[i].0);
                assert(keys_of(cur)[j] == cur[j].0);
                if j < prev.len() {
                    assert(keys_of(prev)[i] == prev[i].0);
                    assert(keys_of(prev)[j] == prev[j].0);
                    assert(keys_of(prev)[i] < keys_of(prev)[j]);
                } else {
                    let ji = choose|ji: int|
                        0 <= ji < n - 1 && #[trigger] fl[ji] && #[trigger] prev[i] == (
                        ks[ji],
                        vs[ji],
                        );
                    assert(ks[ji] < ks[n - 1]);
                }
            }
            assert forall|j: int| 0 <= j < n && #[trigger] fl[j] implies map_of(
                cur,
            ).contains_key(ks[j]) && map_of(cur)[ks[j]] == vs[j] by {
                if j < n - 1 {
                    assert(ks[j] < ks[n - 1]);
                    assert(map_of(prev).contains_key(ks[j]) && map_of(prev)[ks[j]] == vs[j]);
                }
            }
            assert forall|k: u64| has_key(cur, k) implies exists|j: int|
                0 <= j < n && ks[j] == k && #[trigger] fl[j] by {
                let i = choose|i: int| 0 <= i < cur.len() && cur[i].0 == k;
                let j = choose|j: int|
                    0 <= j < n && #[trigger] fl[j] && #[trigger] cur[i] == (ks[j], vs[j]);
                assert(0 <= j < n && ks[j] == k && fl[j]);
            }
            assert forall|k: u64| (exists|j: int| 0 <= j < n && ks[j] == k && #[trigger] fl[j])
                implies has_key(cur, k) by {
                let j = choose|j: int| 0 <= j < n && ks[j] == k && #[trigger] fl[j];
                if j < n - 1 {
                    assert(has_key(prev, k));
                    let i = choose|i: int| 0 <= i < prev.len() && prev[i].0 == k;
                    assert(cur[i].0 == k);
                } else {
                    assert(cur[cur.len() - 1].0 == k);
                }
            }
        } else {
            assert(cur =~= prev);
            assert forall|k: u64| has_key(cur, k) implies exists|j: int|
                0 <= j < n && ks[j] == k && #[trigger] fl[j] by {
                let j = choose|j: int| 0 <= j < n - 1 && ks[j] == k && #[trigger] fl[j];
                assert(0 <= j < n && ks[j] == k && fl[j]);
            }
            assert forall|i: int| 0 <= i < cur.len() implies exists|j: int|
                0 <= j < n && #[trigger] fl[j] && #[trigger] cur[i] == (ks[j], vs[j]) by {
                let j = choose|j: int|
                    0 <= j < n - 1 && #[trigger] fl[j] && #[trigger] prev[i] == (ks[j], vs[j]);
                assert(0 <= j < n && fl[j] && cur[i] == (ks[j], vs[j]));
            }
        }
    }
}

/// Replacing the value of entry `i` inserts the new value at its key.
pub proof fn lemma_map_of_update_value<V>(s: Seq<(u64, V)>, i: int)
    requires
        unique_keys(s),
        0 <= i < s.len(),
    ensures
        forall|w: V| map_of(#[trigger] s.update(i, (s[i].0, w))) == map_of(s).insert(s[i].0, w),
    decreases s.len(),
{
    assert forall|w: V| map_of(#[trigger] s.update(i, (s[i].0, w))) == map_of(s).insert(
        s[i].0,
        w,
    ) by {
        lemma_map_of_update_value_one(s, i, w);
    }
}

proof fn lemma_map_of_update_value_one<V>(s: Seq<(u64, V)>, i: int, w: V)
    requires
        unique_keys(s),
        0 <= i < s.len(),
    ensures
        map_of(s.update(i, (s[i].0, w))) == map_of(s).insert(s[i].0, w),
    decreases s.len(),
{
    let k = s[i].0;
    if i == s.len() - 1 {
        assert(s.update(i, (k, w)).drop_last() =~= s.drop_last());
        assert(s.update(i, (k, w)).last() == (k, w));
        assert(map_of(s.drop_last()).insert(k, w) =~= map_of(s.drop_last()).insert(
            k,
            s.last().1,
        ).insert(k, w));
    } else {
        assert(unique_keys(s.drop_last()));
        assert(s.drop_last()[i] == s[i]);
        lemma_map_of_update_value_one(s.drop_last(), i, w);
        assert(s.update(i, (k, w)).drop_last() =~= s.drop_last().update(i, (k, w)));
        assert(s.update(i, (k, w)).last() == s.last());
        assert(k != s.last().0);
        assert(map_of(s.drop_last()).insert(k, w).insert(s.last().0, s.last().1) =~= map_of(
            s.drop_last(),
        ).insert(s.last().0, s.last().1).insert(k, w));
    }
}

/// Removing an entry keeps the keys unique.
pub proof fn lemma_unique_remove<V>(s: Seq<(u64, V)>, i: int)
    requires
        unique_keys(s),
        0 <= i < s.len(),
    ensures
        unique_keys(s.remove(i)),
{
    let t = s.remove(i);
    assert forall|a: int, b: int| 0 <= a < b < t.len() implies t[a].0 != t[b].0 by {
        let a0 = if a < i { a } else { a + 1 };
        let b0 = if b < i { b } else { b + 1 };
        assert(t[a] == s[a0]);
        assert(t[b] == s[b0]);
    }
}

/// Entries with matching key columns denote maps with the same domain shape.
pub proof fn lemma_map_of_remove<V>(s: Seq<(u64, V)>, i: int)
    requires
        unique_keys(s),
        0 <= i < s.len(),
    ensures
        map_of(s.remove(i)) == map_of(s).remove(s[i].0),
    decreases s.len(),
{
    if i == s.len() - 1 {
        assert(s.remove(i) =~= s.drop_last());
        lemma_map_of_dom(s.drop_last());
        assert(!has_key(s.drop_last(), s[i].0)) by {
            assert forall|j: int| 0 <= j < s.drop_last().len() implies s.drop_last()[j].0
                != s[i].0 by {
                assert(s[j] == s.drop_last()[j]);
            }
        }
        assert(map_of(s.drop_last()).insert(s.last().0, s.last().1).remove(s[i].0) =~= map_of(
            s.drop_last(),
        ));
    } else {
        assert(unique_keys(s.drop_last()));
        assert(s.drop_last()[i] == s[i]);
        lemma_map_of_remove(s.drop_last(), i);
        assert(s.remove(i).drop_last() =~= s.drop_last().remove(i));
        assert(s.remove(i).last() == s.last());
        assert(s[i].0 != s.last().0);
        assert(map_of(s.drop_last()).remove(s[i].0).insert(s.last().0, s.last().1) =~= map_of(
            s.drop_last(),
        ).insert(s.last().0, s.last().1).remove(s[i].0));
    }
}

} // verus!
