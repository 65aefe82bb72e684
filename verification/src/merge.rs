//! Merging sorted entry sequences with disjoint keys.

use vstd::prelude::*;

use crate::entries::keys_of;
use crate::entries::lemma_map_of_dom;
use crate::entries::lemma_map_of_push;
use crate::entries::lemma_map_of_remove;
use crate::entries::lemma_sorted_unique;
use crate::entries::map_of;
use crate::entries::sorted_strict;
use crate::entries::unique_keys;

verus! {

/// No key occurs in both sequences.
pub open spec fn disjoint_keys<V>(a: Seq<(u64, V)>, b: Seq<(u64, V)>) -> bool {
    forall|i: int, j: int|
        0 <= i < a.len() && 0 <= j < b.len() ==> (#[trigger] a[i]).0 != (#[trigger] b[j]).0
}

/// Merge two strictly sorted, key-disjoint entry sequences into one strictly
/// sorted sequence denoting the union of their maps.
pub fn merge2<V>(a: Vec<(u64, V)>, b: Vec<(u64, V)>) -> (out: Vec<(u64, V)>)
    requires
        sorted_strict(keys_of(a@)),
        sorted_strict(keys_of(b@)),
        disjoint_keys(a@, b@),
    ensures
        sorted_strict(keys_of(out@)),
        unique_keys(out@),
        out@.len() == a@.len() + b@.len(),
        map_of(out@) == map_of(a@).union_prefer_right(map_of(b@)),
        forall|k: u64| #[trigger] map_of(out@).contains_key(k) <==> map_of(a@).contains_key(k)
            || map_of(b@).contains_key(k),
    decreases a@.len() + b@.len(),
{
    let ghost a0 = a@;
    let ghost b0 = b@;
    let mut a = a;
    let mut b = b;
    let mut out: Vec<(u64, V)> = Vec::new();
    proof {
        assert(out@ =~= Seq::<(u64, V)>::empty());
        assert(map_of(out@).union_prefer_right(
            map_of(a@).union_prefer_right(map_of(b@)),
        ) =~= map_of(a0).union_prefer_right(map_of(b0)));
    }
    while a.len() > 0 || b.len() > 0
        invariant
            sorted_strict(keys_of(a@)),
            sorted_strict(keys_of(b@)),
            sorted_strict(keys_of(out@)),
            disjoint_keys(a@, b@),
            out@.len() + a@.len() + b@.len() == a0.len() + b0.len(),
            forall|x: int, y: int|
                0 <= x < out@.len() && 0 <= y < a@.len() ==> (#[trigger] out@[x]).0 < (
                #[trigger] a@[y]).0,
            forall|x: int, y: int|
                0 <= x < out@.len() && 0 <= y < b@.len() ==> (#[trigger] out@[x]).0 < (
                #[trigger] b@[y]).0,
            map_of(out@).union_prefer_right(map_of(a@).union_prefer_right(map_of(b@)))
                == map_of(a0).union_prefer_right(map_of(b0)),
        decreases a@.len() + b@.len(),
    {
        let take_a: bool = if b.len() == 0 {
            true
        } else if a.len() == 0 {
            false
        } else {
            a[0].0 < b[0].0
        };
        proof {
            lemma_sorted_unique(a@);
            lemma_sorted_unique(b@);
            lemma_map_of_dom(a@);
            lemma_map_of_dom(b@);
            lemma_map_of_push(out@, if take_a { a@[0] } else { b@[0] });
            if take_a {
                crate::entries::lemma_map_of_index(a@, 0);
            } else {
                crate::entries::lemma_map_of_index(b@, 0);
            }
        }
        let ghost oa = a@;
        let ghost ob = b@;
        let ghost oo = out@;
        if take_a {
            proof {
                lemma_map_of_remove(a@, 0);
            }
            let p = a.remove(0);
            out.push(p);
            proof {
                lemma_map_of_dom(a@);
                assert forall|x: int, y: int| 0 <= x < y < keys_of(a@).len() implies keys_of(
                    a@,
                )[x] < keys_of(a@)[y] by {
                    assert(keys_of(a@)[x] == a@[x].0);
                    assert(keys_of(a@)[y] == a@[y].0);
                    assert(a@[x] == oa[x + 1]);
                    assert(a@[y] == oa[y + 1]);
                    assert(keys_of(oa)[x + 1] < keys_of(oa)[y + 1]);
                }
                assert forall|x: int, y: int|
                    0 <= x < out@.len() && 0 <= y < a@.len() implies (#[trigger] out@[x]).0 < (
                #[trigger] a@[y]).0 by {
                    assert(a@[y] == oa[y + 1]);
                    assert(keys_of(oa)[0] < keys_of(oa)[y + 1]);
                    if x < oo.len() {
                        assert(oo[x].0 < oa[y + 1].0);
                    }
                }
                assert forall|x: int, y: int|
                    0 <= x < out@.len() && 0 <= y < b@.len() implies (#[trigger] out@[x]).0 < (
                #[trigger] b@[y]).0 by {
                    if x == oo.len() {
                        if y > 0 {
                            assert(keys_of(ob)[0] < keys_of(ob)[y]);
                        }
                        assert(p.0 < ob[y].0);
                    }
                }
                assert forall|x: int, y: int| 0 <= x < y < keys_of(out@).len() implies keys_of(
                    out@,
                )[x] < keys_of(out@)[y] by {
                    assert(keys_of(out@)[x] == out@[x].0);
                    assert(keys_of(out@)[y] == out@[y].0);
                    if y < oo.len() {
                        assert(keys_of(oo)[x] < keys_of(oo)[y]);
                    } else {
                        assert(oo[x].0 < oa[0].0);
                    }
                }
                assert(map_of(out@).union_prefer_right(
                    map_of(a@).union_prefer_right(map_of(b@)),
                ) =~= map_of(oo).union_prefer_right(
                    map_of(oa).union_prefer_right(map_of(ob)),
                ));
            }
        } else {
            proof {
                lemma_map_of_remove(b@, 0);
            }
            let p = b.remove(0);
            out.push(p);
            proof {
                lemma_map_of_dom(b@);
                assert forall|x: int, y: int| 0 <= x < y < keys_of(b@).len() implies keys_of(
                    b@,
                )[x] < keys_of(b@)[y] by {
                    assert(keys_of(b@)[x] == b@[x].0);
                    assert(keys_of(b@)[y] == b@[y].0);
                    assert(b@[x] == ob[x + 1]);
                    assert(b@[y] == ob[y + 1]);
                    assert(keys_of(ob)[x + 1] < keys_of(ob)[y + 1]);
                }
                assert forall|x: int, y: int|
                    0 <= x < out@.len() && 0 <= y < b@.len() implies (#[trigger] out@[x]).0 < (
                #[trigger] b@[y]).0 by {
                    assert(b@[y] == ob[y + 1]);
                    assert(keys_of(ob)[0] < keys_of(ob)[y + 1]);
                    if x < oo.len() {
                        assert(oo[x].0 < ob[y + 1].0);
                    }
                }
                assert forall|x: int, y: int|
                    0 <= x < out@.len() && 0 <= y < a@.len() implies (#[trigger] out@[x]).0 < (
                #[trigger] a@[y]).0 by {
                    if x == oo.len() {
                        if y > 0 {
                            assert(keys_of(oa)[0] < keys_of(oa)[y]);
                        }
                        assert(!take_a);
                        assert(p.0 < oa[y].0);
                    }
                }
                assert forall|x: int, y: int| 0 <= x < y < keys_of(out@).len() implies keys_of(
                    out@,
                )[x] < keys_of(out@)[y] by {
                    assert(keys_of(out@)[x] == out@[x].0);
                    assert(keys_of(out@)[y] == out@[y].0);
                    if y < oo.len() {
                        assert(keys_of(oo)[x] < keys_of(oo)[y]);
                    } else {
                        assert(oo[x].0 < ob[0].0);
                    }
                }
                assert(map_of(out@).union_prefer_right(
                    map_of(a@).union_prefer_right(map_of(b@)),
                ) =~= map_of(oo).union_prefer_right(
                    map_of(oa).union_prefer_right(map_of(ob)),
                ));
            }
        }
    }
    proof {
        lemma_sorted_unique(out@);
        assert(map_of(a@) =~= Map::<u64, V>::empty());
        assert(map_of(b@) =~= Map::<u64, V>::empty());
        assert(map_of(out@) =~= map_of(out@).union_prefer_right(
            map_of(a@).union_prefer_right(map_of(b@)),
        ));
        lemma_map_of_dom(a0);
        lemma_map_of_dom(b0);
        lemma_map_of_dom(out@);
        assert forall|k: u64| #[trigger] map_of(out@).contains_key(k) implies map_of(
            a0,
        ).contains_key(k) || map_of(b0).contains_key(k) by {
            assert(map_of(a0).union_prefer_right(map_of(b0)).contains_key(k));
        }
    }
    out
}

} // verus!
