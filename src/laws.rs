use vstd::prelude::*;
use crate::topo::{
    entry_codes, lemma_pick, lemma_topological_validity, pick_upto, placed_codes, ready, resolve_fold, start, topo_run,
    Entry,
};
use crate::tree::PrereqTree;
use crate::tree::{
    children, is_blank, leaves, lemma_leaves_all, lemma_req_child, lemma_shapes,
    resolve_all, resolve_opt, resolved, satisfied, shape, shapes, unlock, unlock_min, unlock_sum,
    Req,
};

verus! {

// ----- facts about `resolve_all`

proof fn lemma_resolve_all_len(cs: Seq<Req>, c: Seq<char>)
    ensures
        resolve_all(cs, c).len() <= cs.len(),
        resolve_all(cs, c).len() == cs.len() <==> forall|i: int|
            0 <= i < cs.len() ==> resolve_opt(#[trigger] cs[i], c) is Some,
        resolve_all(cs, c).len() == cs.len() ==> forall|i: int|
            0 <= i < cs.len() ==> resolve_opt(#[trigger] cs[i], c) == Some(resolve_all(cs, c)[i]),
    decreases cs.len(),
{
    if cs.len() > 0 {
        let p = cs.subrange(0, cs.len() - 1);
        lemma_resolve_all_len(p, c);
        assert forall|i: int| 0 <= i < p.len() implies p[i] == cs[i] by {};
        if forall|i: int| 0 <= i < cs.len() ==> resolve_opt(#[trigger] cs[i], c) is Some {
            assert forall|i: int| 0 <= i < p.len() implies resolve_opt(#[trigger] p[i], c) is Some by {
                assert(p[i] == cs[i]);
            };
        }
        if resolve_all(cs, c).len() == cs.len() {
            assert forall|i: int| 0 <= i < cs.len() implies resolve_opt(#[trigger] cs[i], c) == Some(
                resolve_all(cs, c)[i],
            ) by {
                if i < cs.len() - 1 {
                    assert(p[i] == cs[i]);
                }
            };
        }
    }
}

proof fn lemma_resolve_all_members(cs: Seq<Req>, c: Seq<char>)
    ensures
        forall|k: int| 0 <= k < resolve_all(cs, c).len() ==> exists|i: int|
            0 <= i < cs.len() && resolve_opt(#[trigger] cs[i], c) == Some(
                #[trigger] resolve_all(cs, c)[k],
            ),
        forall|i: int| 0 <= i < cs.len() && (#[trigger] resolve_opt(cs[i], c)) is Some ==> exists|k: int|
            0 <= k < resolve_all(cs, c).len() && resolve_all(cs, c)[k] == resolve_opt(cs[i], c)->0,
    decreases cs.len(),
{
    if cs.len() > 0 {
        let p = cs.subrange(0, cs.len() - 1);
        let kept = resolve_all(cs, c);
        let kp = resolve_all(p, c);
        lemma_resolve_all_members(p, c);
        assert forall|k: int| 0 <= k < kept.len() implies exists|i: int|
            0 <= i < cs.len() && resolve_opt(#[trigger] cs[i], c) == Some(#[trigger] kept[k]) by {
            if k < kp.len() {
                assert(kept[k] == kp[k]);
                let i = choose|i: int| 0 <= i < p.len() && resolve_opt(#[trigger] p[i], c) == Some(kp[k]);
                assert(p[i] == cs[i]);
            } else {
                assert(resolve_opt(cs[cs.len() - 1], c) == Some(kept[k]));
            }
        };
        assert forall|i: int| 0 <= i < cs.len() && (#[trigger] resolve_opt(cs[i], c)) is Some implies exists|k: int|
            0 <= k < kept.len() && kept[k] == resolve_opt(cs[i], c)->0 by {
            if i < cs.len() - 1 {
                assert(p[i] == cs[i]);
                assert(resolve_opt(p[i], c) is Some);
                let k = choose|k: int| 0 <= k < kp.len() && kp[k] == resolve_opt(p[i], c)->0;
                assert(kept[k] == kp[k]);
            } else {
                assert(kept[kept.len() - 1] == resolve_opt(cs[i], c)->0);
            }
        };
    }
}

// ----- resolve monotonicity

proof fn lemma_sum_resolve(cs: Seq<Req>, c: Seq<char>, d: Set<Seq<char>>)
    requires
        forall|i: int| 0 <= i < cs.len() && (#[trigger] resolve_opt(cs[i], c)) is Some ==> unlock(
            resolve_opt(cs[i], c)->0,
            d,
        ) <= unlock(cs[i], d),
    ensures
        unlock_sum(resolve_all(cs, c), d) <= unlock_sum(cs, d),
    decreases cs.len(),
{
    if cs.len() > 0 {
        let p = cs.subrange(0, cs.len() - 1);
        assert forall|i: int| 0 <= i < p.len() && (#[trigger] resolve_opt(p[i], c)) is Some implies unlock(
            resolve_opt(p[i], c)->0,
            d,
        ) <= unlock(p[i], d) by {
            assert(p[i] == cs[i]);
        };
        lemma_sum_resolve(p, c, d);
        let kp = resolve_all(p, c);
        match resolve_opt(cs[cs.len() - 1], c) {
            Some(x) => {
                assert(kp.push(x).subrange(0, kp.len() as int) =~= kp);
            },
            None => {},
        }
    }
}

proof fn lemma_min_pointwise(ks: Seq<Req>, cs: Seq<Req>, d: Set<Seq<char>>)
    requires
        ks.len() == cs.len(),
        forall|i: int| 0 <= i < cs.len() ==> unlock(#[trigger] ks[i], d) <= unlock(cs[i], d),
    ensures
        unlock_min(ks, d) <= unlock_min(cs, d),
    decreases cs.len(),
{
    if cs.len() > 1 {
        let p = cs.subrange(0, cs.len() - 1);
        let q = ks.subrange(0, ks.len() - 1);
        assert forall|i: int| 0 <= i < p.len() implies unlock(#[trigger] q[i], d) <= unlock(p[i], d) by {
            assert(q[i] == ks[i]);
            assert(p[i] == cs[i]);
        };
        lemma_min_pointwise(q, p, d);
    }
}

/// Resolving a code never raises the number of codes still to take.
pub proof fn lemma_resolve_unlock(r: Req, c: Seq<char>, d: Set<Seq<char>>)
    ensures
        unlock(resolved(r, c), d) <= unlock(r, d),
    decreases r,
{
    match r {
        Req::Leaf(_) => {},
        Req::All(cs) | Req::Any(cs) => {
            assert forall|i: int| 0 <= i < cs.len() && (#[trigger] resolve_opt(cs[i], c)) is Some implies unlock(
                resolve_opt(cs[i], c)->0,
                d,
            ) <= unlock(cs[i], d) by {
                lemma_req_child(r, i);
                lemma_resolve_unlock(cs[i], c, d);
            };
            let kept = resolve_all(cs, c);
            if r is All {
                lemma_sum_resolve(cs, c, d);
            } else if kept.len() == cs.len() {
                lemma_resolve_all_len(cs, c);
                lemma_min_pointwise(kept, cs, d);
            }
        },
    }
}

/// Resolve monotonicity: resolving a code never raises `min_to_unlock`.
pub proof fn lemma_resolve_monotone(r: Req, c: Seq<char>)
    ensures
        unlock(resolved(r, c), Set::empty()) <= unlock(r, Set::empty()),
{
    lemma_resolve_unlock(r, c, Set::empty());
}

// ----- flatten covers satisfaction

/// Only the codes in `flatten` matter: two done sets that agree on the
/// tree's codes satisfy it alike.
pub proof fn lemma_flatten_covers(r: Req, d1: Set<Seq<char>>, d2: Set<Seq<char>>)
    requires
        d1.intersect(leaves(r)) == d2.intersect(leaves(r)),
    ensures
        satisfied(r, d1) == satisfied(r, d2),
    decreases r,
{
    match r {
        Req::Leaf(c) => {
            if c.len() > 0 {
                assert(d1.intersect(leaves(r)).contains(c) == d1.contains(c));
                assert(d2.intersect(leaves(r)).contains(c) == d2.contains(c));
            }
        },
        Req::All(cs) | Req::Any(cs) => {
            lemma_leaves_all(cs);
            assert forall|i: int| 0 <= i < cs.len() implies satisfied(#[trigger] cs[i], d1) == satisfied(cs[i], d2) by {
                lemma_req_child(r, i);
                assert(leaves(cs[i]).subset_of(leaves(r)));
                assert(d1.intersect(leaves(cs[i])) =~= d2.intersect(leaves(cs[i]))) by {
                    assert forall|x: Seq<char>| d1.intersect(leaves(cs[i])).contains(x) implies d2.intersect(leaves(cs[i])).contains(x) by {
                        assert(d1.intersect(leaves(r)).contains(x));
                    };
                    assert forall|x: Seq<char>| d2.intersect(leaves(cs[i])).contains(x) implies d1.intersect(leaves(cs[i])).contains(x) by {
                        assert(d2.intersect(leaves(r)).contains(x));
                    };
                };
                lemma_flatten_covers(cs[i], d1, d2);
            };
        },
    }
}


// ----- resolve and satisfaction

/// No `Or` without children occurs in `r`.
pub open spec fn no_empty_any(r: Req) -> bool
    decreases r,
{
    match r {
        Req::Leaf(_) => true,
        Req::All(cs) => forall|i: int| 0 <= i < cs.len() ==> no_empty_any(#[trigger] cs[i]),
        Req::Any(cs) => cs.len() > 0 && forall|i: int| 0 <= i < cs.len() ==> no_empty_any(#[trigger] cs[i]),
    }
}

/// More done codes never undo satisfaction.
pub proof fn lemma_satisfied_monotone(r: Req, d1: Set<Seq<char>>, d2: Set<Seq<char>>)
    requires
        satisfied(r, d1),
        d1.subset_of(d2),
    ensures
        satisfied(r, d2),
    decreases r,
{
    match r {
        Req::Leaf(_) => {},
        Req::All(cs) => {
            assert forall|i: int| 0 <= i < cs.len() implies satisfied(#[trigger] cs[i], d2) by {
                lemma_req_child(r, i);
                lemma_satisfied_monotone(cs[i], d1, d2);
            };
        },
        Req::Any(cs) => {
            if cs.len() > 0 {
                let i = choose|i: int| 0 <= i < cs.len() && satisfied(#[trigger] cs[i], d1);
                lemma_req_child(r, i);
                lemma_satisfied_monotone(cs[i], d1, d2);
            }
        },
    }
}

/// A tree that vanishes when `c` is resolved is satisfied by `c` alone.
proof fn lemma_vanish(r: Req, c: Seq<char>)
    requires
        resolve_opt(r, c) is None,
    ensures
        satisfied(r, set![c]),
    decreases r,
{
    match r {
        Req::Leaf(_) => {},
        Req::All(cs) => {
            lemma_resolve_all_members(cs, c);
            assert forall|i: int| 0 <= i < cs.len() implies satisfied(#[trigger] cs[i], set![c]) by {
                lemma_req_child(r, i);
                lemma_vanish(cs[i], c);
            };
        },
        Req::Any(cs) => {
            lemma_resolve_all_len(cs, c);
            let i = choose|i: int| 0 <= i < cs.len() && !(resolve_opt(#[trigger] cs[i], c) is Some);
            lemma_req_child(r, i);
            lemma_vanish(cs[i], c);
        },
    }
}

/// What is left after resolving `c` is satisfied by `d` exactly when the
/// whole tree is satisfied by `d` with `c`.
proof fn lemma_resolve_keeps(r: Req, c: Seq<char>, t: Req, d: Set<Seq<char>>)
    requires
        resolve_opt(r, c) == Some(t),
    ensures
        satisfied(t, d) == satisfied(r, d.insert(c)),
    decreases r,
{
    match r {
        Req::Leaf(_) => {},
        Req::All(cs) => {
            let kept = resolve_all(cs, c);
            lemma_resolve_all_members(cs, c);
            assert forall|i: int| 0 <= i < cs.len() && (#[trigger] resolve_opt(cs[i], c)) is Some implies satisfied(
                resolve_opt(cs[i], c)->0,
                d,
            ) == satisfied(cs[i], d.insert(c)) by {
                lemma_req_child(r, i);
                lemma_resolve_keeps(cs[i], c, resolve_opt(cs[i], c)->0, d);
            };
            assert forall|i: int| 0 <= i < cs.len() && (#[trigger] resolve_opt(cs[i], c)) is None implies satisfied(
                cs[i],
                d.insert(c),
            ) by {
                lemma_req_child(r, i);
                lemma_vanish(cs[i], c);
                lemma_satisfied_monotone(cs[i], set![c], d.insert(c));
            };
            if satisfied(t, d) {
                assert forall|i: int| 0 <= i < cs.len() implies satisfied(#[trigger] cs[i], d.insert(c)) by {
                    if resolve_opt(cs[i], c) is Some {
                        let k = choose|k: int| 0 <= k < kept.len() && kept[k] == resolve_opt(cs[i], c)->0;
                        assert(t == Req::All(kept));
                        lemma_req_child(t, k);
                        assert(satisfied(kept[k], d));
                    }
                };
            }
            if satisfied(r, d.insert(c)) {
                assert forall|k: int| 0 <= k < kept.len() implies satisfied(#[trigger] kept[k], d) by {
                    let i = choose|i: int| 0 <= i < cs.len() && resolve_opt(#[trigger] cs[i], c) == Some(kept[k]);
                    assert(satisfied(cs[i], d.insert(c)));
                };
            }
        },
        Req::Any(cs) => {
            let kept = resolve_all(cs, c);
            lemma_resolve_all_len(cs, c);
            assert forall|i: int| 0 <= i < cs.len() implies satisfied(#[trigger] kept[i], d) == satisfied(
                cs[i],
                d.insert(c),
            ) by {
                lemma_req_child(r, i);
                lemma_resolve_keeps(cs[i], c, kept[i], d);
            };
            if satisfied(t, d) && kept.len() > 0 {
                let i = choose|i: int| 0 <= i < kept.len() && satisfied(#[trigger] kept[i], d);
                assert(satisfied(cs[i], d.insert(c)));
            }
            if satisfied(r, d.insert(c)) && cs.len() > 0 {
                let i = choose|i: int| 0 <= i < cs.len() && satisfied(#[trigger] cs[i], d.insert(c));
                assert(satisfied(kept[i], d));
            }
        },
    }
}

/// Without an empty `Or`, what survives a resolution is not satisfied by
/// nothing, and has no empty `Or` either.
proof fn lemma_survivor(r: Req, c: Seq<char>, t: Req)
    requires
        no_empty_any(r),
        resolve_opt(r, c) == Some(t),
    ensures
        no_empty_any(t),
        !satisfied(t, Set::empty()),
    decreases r,
{
    match r {
        Req::Leaf(x) => {
            assert(t == Req::Leaf(x));
        },
        Req::All(cs) => {
            let kept = resolve_all(cs, c);
            lemma_resolve_all_members(cs, c);
            assert forall|k: int| 0 <= k < kept.len() implies no_empty_any(#[trigger] kept[k]) && !satisfied(
                kept[k],
                Set::empty(),
            ) by {
                let i = choose|i: int| 0 <= i < cs.len() && resolve_opt(#[trigger] cs[i], c) == Some(kept[k]);
                lemma_req_child(r, i);
                lemma_survivor(cs[i], c, kept[k]);
            };
            assert(t == Req::All(kept));
            lemma_req_child(t, 0);
            assert(!satisfied(kept[0], Set::empty()));
        },
        Req::Any(cs) => {
            let kept = resolve_all(cs, c);
            lemma_resolve_all_len(cs, c);
            assert forall|i: int| 0 <= i < kept.len() implies no_empty_any(#[trigger] kept[i]) && !satisfied(
                kept[i],
                Set::empty(),
            ) by {
                lemma_req_child(r, i);
                lemma_survivor(cs[i], c, kept[i]);
            };
        },
    }
}

/// What holds of every fold prefix: the folded tree answers for the
/// given tree with the folded codes added, and it is either empty or not
/// satisfied by nothing.
proof fn lemma_fold_step(r: Req, ds: Seq<Seq<char>>)
    requires
        no_empty_any(r),
        ds.len() > 0,
    ensures
        forall|d: Set<Seq<char>>| #[trigger] satisfied(resolve_fold(r, ds), d) == satisfied(r, d.union(ds.to_set())),
        is_blank(resolve_fold(r, ds)) || (no_empty_any(resolve_fold(r, ds)) && !satisfied(
            resolve_fold(r, ds),
            Set::empty(),
        )),
    decreases ds.len(),
{
    let p = ds.subrange(0, ds.len() - 1);
    let c = ds[ds.len() - 1];
    let t = resolve_fold(r, p);
    assert(ds =~= p.push(c));
    p.lemma_push_to_set_commute(c);
    assert(resolve_fold(r, ds) == resolved(t, c));
    if p.len() == 0 {
        assert(t == r);
        assert(p.to_set() =~= Set::<Seq<char>>::empty());
        match resolve_opt(r, c) {
            Some(x) => {
                assert forall|d: Set<Seq<char>>| #[trigger] satisfied(resolve_fold(r, ds), d) == satisfied(r, d.union(ds.to_set())) by {
                    lemma_resolve_keeps(r, c, x, d);
                    assert(d.insert(c) =~= d.union(ds.to_set()));
                };
                lemma_survivor(r, c, x);
            },
            None => {
                lemma_vanish(r, c);
                assert forall|d: Set<Seq<char>>| #[trigger] satisfied(resolve_fold(r, ds), d) == satisfied(r, d.union(ds.to_set())) by {
                    lemma_satisfied_monotone(r, set![c], d.union(ds.to_set()));
                };
            },
        }
    } else {
        lemma_fold_step(r, p);
        if is_blank(t) {
            assert(resolve_opt(t, c) is None);
            assert forall|d: Set<Seq<char>>| #[trigger] satisfied(resolve_fold(r, ds), d) == satisfied(r, d.union(ds.to_set())) by {
                assert(satisfied(t, d.insert(c)));
                assert(d.insert(c).union(p.to_set()) =~= d.union(ds.to_set()));
            };
        } else {
            match resolve_opt(t, c) {
                Some(x) => {
                    assert forall|d: Set<Seq<char>>| #[trigger] satisfied(resolve_fold(r, ds), d) == satisfied(r, d.union(ds.to_set())) by {
                        lemma_resolve_keeps(t, c, x, d);
                        assert(satisfied(t, d.insert(c)) == satisfied(r, d.insert(c).union(p.to_set())));
                        assert(d.insert(c).union(p.to_set()) =~= d.union(ds.to_set()));
                    };
                    lemma_survivor(t, c, x);
                },
                None => {
                    lemma_vanish(t, c);
                    assert forall|d: Set<Seq<char>>| #[trigger] satisfied(resolve_fold(r, ds), d) == satisfied(r, d.union(ds.to_set())) by {
                        lemma_satisfied_monotone(t, set![c], d.insert(c));
                        assert(satisfied(t, d.insert(c)) == satisfied(r, d.insert(c).union(p.to_set())));
                        assert(d.insert(c).union(p.to_set()) =~= d.union(ds.to_set()));
                    };
                },
            }
        }
    }
}

/// Resolve/satisfaction equivalence: resolving the codes of a non-empty
/// sequence one after the other, in any order, leaves the empty tree
/// exactly when the codes satisfy the tree. It holds of trees without an
/// `Or` of no children, which is satisfied by every set yet never resolves
/// away.
pub proof fn lemma_resolve_satisfaction(r: Req, ds: Seq<Seq<char>>)
    requires
        no_empty_any(r),
        ds.len() > 0,
    ensures
        is_blank(resolve_fold(r, ds)) == satisfied(r, ds.to_set()),
{
    lemma_fold_step(r, ds);
    let t = resolve_fold(r, ds);
    assert(Set::<Seq<char>>::empty().union(ds.to_set()) =~= ds.to_set());
    assert(satisfied(t, Set::empty()) == satisfied(r, ds.to_set()));
}


// ----- equality up to order

proof fn lemma_shapes_multiset(xs: Seq<Req>, ys: Seq<Req>)
    requires
        xs.to_multiset() == ys.to_multiset(),
    ensures
        shapes(xs).to_multiset() == shapes(ys).to_multiset(),
    decreases xs.len(),
{
    xs.to_multiset_ensures();
    ys.to_multiset_ensures();
    lemma_shapes(xs);
    lemma_shapes(ys);
    if xs.len() == 0 {
        assert(ys.len() == 0);
        assert(shapes(xs) =~= shapes(ys));
    } else {
        let x = xs[xs.len() - 1];
        let p = xs.subrange(0, xs.len() - 1);
        assert(xs =~= p.push(x));
        vstd::seq_lib::to_multiset_contains(ys, x);
        assert(xs.contains(x));
        vstd::seq_lib::to_multiset_contains(xs, x);
        let j = choose|j: int| 0 <= j < ys.len() && ys[j] == x;
        let q = ys.remove(j);
        vstd::seq_lib::to_multiset_remove(ys, j);
        p.to_multiset_ensures();
        assert(p.to_multiset() =~= ys.to_multiset().remove(x));
        lemma_shapes_multiset(p, q);
        lemma_shapes(p);
        lemma_shapes(q);
        assert(shapes(xs) =~= shapes(p).push(shape(x)));
        shapes(p).to_multiset_ensures();
        assert(shapes(q) =~= shapes(ys).remove(j));
        vstd::seq_lib::to_multiset_remove(shapes(ys), j);
        vstd::seq_lib::to_multiset_contains(shapes(ys), shape(x));
        assert(shapes(ys)[j] == shape(x));
        assert(shapes(ys).to_multiset() =~= shapes(q).to_multiset().insert(shape(x)));
    }
}

/// Structural equality ignores the order of children: two `And`s (or two
/// `Or`s) whose children are the same up to order are equal, and an `And`
/// never equals an `Or`.
pub proof fn lemma_order_ignored(xs: Seq<Req>, ys: Seq<Req>)
    requires
        xs.to_multiset() == ys.to_multiset(),
    ensures
        shape(Req::All(xs)) == shape(Req::All(ys)),
        shape(Req::Any(xs)) == shape(Req::Any(ys)),
        shape(Req::All(xs)) != shape(Req::Any(ys)),
{
    lemma_shapes_multiset(xs, ys);
}


/// Resolve/satisfaction equivalence does not depend on the order: folding
/// the same codes in two orders leaves the empty tree in both or in neither.
pub proof fn lemma_resolve_order_free(r: Req, ds1: Seq<Seq<char>>, ds2: Seq<Seq<char>>)
    requires
        no_empty_any(r),
        ds1.len() > 0,
        ds2.len() > 0,
        ds1.to_set() == ds2.to_set(),
    ensures
        is_blank(resolve_fold(r, ds1)) == is_blank(resolve_fold(r, ds2)),
{
    lemma_resolve_satisfaction(r, ds1);
    lemma_resolve_satisfaction(r, ds2);
}

// ----- what is left, and satisfaction

proof fn lemma_sum_zero(cs: Seq<Req>, d: Set<Seq<char>>)
    ensures
        (unlock_sum(cs, d) == 0) == forall|i: int| 0 <= i < cs.len() ==> unlock(#[trigger] cs[i], d) == 0,
    decreases cs.len(),
{
    if cs.len() > 0 {
        let p = cs.subrange(0, cs.len() - 1);
        lemma_sum_zero(p, d);
        assert forall|i: int| 0 <= i < p.len() implies p[i] == cs[i] by {};
    }
}

proof fn lemma_min_zero(cs: Seq<Req>, d: Set<Seq<char>>)
    ensures
        (unlock_min(cs, d) == 0) == (cs.len() == 0 || exists|i: int| 0 <= i < cs.len() && unlock(#[trigger] cs[i], d) == 0),
    decreases cs.len(),
{
    if cs.len() > 1 {
        let p = cs.subrange(0, cs.len() - 1);
        lemma_min_zero(p, d);
        assert forall|i: int| 0 <= i < p.len() implies p[i] == cs[i] by {};
        if exists|i: int| 0 <= i < cs.len() && unlock(#[trigger] cs[i], d) == 0 {
            let i = choose|i: int| 0 <= i < cs.len() && unlock(#[trigger] cs[i], d) == 0;
            if i < cs.len() - 1 {
                assert(unlock(p[i], d) == 0);
            }
        }
    }
}

/// Nothing is left to take exactly when the codes satisfy the tree.
pub proof fn lemma_unlock_zero(r: Req, d: Set<Seq<char>>)
    ensures
        (unlock(r, d) == 0) == satisfied(r, d),
    decreases r,
{
    match r {
        Req::Leaf(_) => {},
        Req::All(cs) | Req::Any(cs) => {
            assert forall|i: int| 0 <= i < cs.len() implies (unlock(#[trigger] cs[i], d) == 0) == satisfied(cs[i], d) by {
                lemma_req_child(r, i);
                lemma_unlock_zero(cs[i], d);
            };
            lemma_sum_zero(cs, d);
            lemma_min_zero(cs, d);
        },
    }
}

/// Resolving codes one after the other leaves a tree that the done set
/// satisfies exactly when the whole tree is satisfied by it with those codes.
pub proof fn lemma_fold_satisfied(r: Req, ds: Seq<Seq<char>>, d: Set<Seq<char>>)
    ensures
        satisfied(resolve_fold(r, ds), d) == satisfied(r, d.union(ds.to_set())),
    decreases ds.len(),
{
    if ds.len() == 0 {
        assert(d.union(ds.to_set()) =~= d);
    } else {
        let p = ds.subrange(0, ds.len() - 1);
        let c = ds[ds.len() - 1];
        let t = resolve_fold(r, p);
        assert(ds =~= p.push(c));
        p.lemma_push_to_set_commute(c);
        assert(d.insert(c).union(p.to_set()) =~= d.union(ds.to_set()));
        lemma_fold_satisfied(r, p, d.insert(c));
        match resolve_opt(t, c) {
            Some(x) => {
                lemma_resolve_keeps(t, c, x, d);
            },
            None => {
                lemma_vanish(t, c);
                lemma_satisfied_monotone(t, set![c], d.insert(c));
            },
        }
    }
}

// ----- topological completeness

proof fn lemma_first_position(ord: Seq<Seq<char>>, codes: Seq<Seq<char>>)
    requires
        exists|k: int| 0 <= k < ord.len() && codes.contains(#[trigger] ord[k]),
    ensures
        exists|k: int| 0 <= k < ord.len() && codes.contains(#[trigger] ord[k]) && forall|j: int| 0 <= j < k ==> !codes.contains(#[trigger] ord[j]),
    decreases ord.len(),
{
    let p = ord.subrange(0, ord.len() - 1);
    if exists|k: int| 0 <= k < p.len() && codes.contains(#[trigger] p[k]) {
        lemma_first_position(p, codes);
        let k = choose|k: int| 0 <= k < p.len() && codes.contains(#[trigger] p[k]) && forall|j: int| 0 <= j < k ==> !codes.contains(#[trigger] p[j]);
        assert(ord[k] == p[k]);
        assert forall|j: int| 0 <= j < k implies !codes.contains(#[trigger] ord[j]) by {
            assert(ord[j] == p[j]);
        };
    } else {
        let k = ord.len() - 1;
        assert forall|j: int| 0 <= j < k implies !codes.contains(#[trigger] ord[j]) by {
            assert(ord[j] == p[j]);
        };
    }
}

/// Entry `e` comes at some position of `ord`, and its tree is satisfied by
/// the codes of `pre` and those before that position.
pub open spec fn placeable(e: Entry, pre: Seq<Seq<char>>, ord: Seq<Seq<char>>) -> bool {
    exists|k: int| 0 <= k < ord.len() && ord[k] == e.0 && satisfied(e.1, pre.to_set().union(#[trigger] ord.subrange(0, k).to_set()))
}

proof fn lemma_topo_complete(rest: Seq<Entry>, pre: Seq<Seq<char>>, ord: Seq<Seq<char>>)
    requires
        forall|i: int| 0 <= i < rest.len() ==> (#[trigger] rest[i]).2 == resolve_fold(rest[i].1, pre),
        forall|a: int, b: int| 0 <= a < ord.len() && 0 <= b < ord.len() && a != b ==> ord[a] != ord[b],
        forall|k: int| 0 <= k < ord.len() ==> entry_codes(rest).contains(#[trigger] ord[k]) || pre.contains(ord[k]),
        forall|i: int| 0 <= i < rest.len() ==> #[trigger] placeable(rest[i], pre, ord),
    ensures
        topo_run(rest).1.len() == 0,
    decreases rest.len(),
{
    if rest.len() == 0 {
        assert(topo_run(rest).1 =~= Seq::<Seq<char>>::empty());
        return;
    }
    let ec = entry_codes(rest);
    assert(placeable(rest[0], pre, ord));
    let k0 = choose|k: int| 0 <= k < ord.len() && ord[k] == rest[0].0 && satisfied(rest[0].1, pre.to_set().union(ord.subrange(0, k).to_set()));
    assert(ec[0] == rest[0].0);
    assert(ec.contains(ord[k0]));
    lemma_first_position(ord, ec);
    let ks = choose|k: int| 0 <= k < ord.len() && ec.contains(#[trigger] ord[k]) && forall|j: int| 0 <= j < k ==> !ec.contains(#[trigger] ord[j]);
    let is = choose|i: int| 0 <= i < ec.len() && ec[i] == ord[ks];
    let e = rest[is];
    assert(placeable(rest[is], pre, ord));
    let kk = choose|k: int| 0 <= k < ord.len() && ord[k] == e.0 && satisfied(e.1, pre.to_set().union(ord.subrange(0, k).to_set()));
    assert(kk == ks) by {
        if kk != ks {
            assert(ord[kk] == ord[ks]);
        }
    };
    assert(pre.to_set().union(ord.subrange(0, ks).to_set()) =~= pre.to_set()) by {
        assert forall|x: Seq<char>| ord.subrange(0, ks).to_set().contains(x) implies pre.to_set().contains(x) by {
            let j = choose|j: int| 0 <= j < ks && ord.subrange(0, ks)[j] == x;
            assert(ord[j] == x);
            assert(!ec.contains(ord[j]));
        };
    };
    lemma_fold_satisfied(e.1, pre, Set::empty());
    assert(Set::<Seq<char>>::empty().union(pre.to_set()) =~= pre.to_set());
    lemma_unlock_zero(e.2, Set::empty());
    assert(ready(rest[is].2));
    lemma_pick(rest, rest.len() as int);
    let m = pick_upto(rest, rest.len() as int)->0;
    let code = rest[m].0;
    let removed = rest.remove(m);
    let next = removed.map_values(|x: Entry| (x.0, x.1, resolved(x.2, code)));
    let pre2 = pre.push(code);
    assert(pre2.subrange(0, pre2.len() - 1) =~= pre);
    pre.lemma_push_to_set_commute(code);
    // the entries left correspond to the entries of `rest` other than `m`
    assert forall|i: int| 0 <= i < next.len() implies (#[trigger] next[i]).0 == rest[if i < m { i } else { i + 1 }].0
        && next[i].1 == rest[if i < m { i } else { i + 1 }].1
        && next[i].2 == resolved(rest[if i < m { i } else { i + 1 }].2, code) by {};
    assert forall|i: int| 0 <= i < next.len() implies (#[trigger] next[i]).2 == resolve_fold(next[i].1, pre2) by {};
    assert forall|k: int| 0 <= k < ord.len() implies entry_codes(next).contains(#[trigger] ord[k]) || pre2.contains(ord[k]) by {
        if !pre.contains(ord[k]) {
            let i = choose|i: int| 0 <= i < ec.len() && ec[i] == ord[k];
            if i == m {
                assert(pre2[pre.len() as int] == ord[k]);
            } else {
                let j = if i < m { i } else { i - 1 };
                assert(entry_codes(next)[j] == ord[k]);
            }
        } else {
            let j = choose|j: int| 0 <= j < pre.len() && pre[j] == ord[k];
            assert(pre2[j] == ord[k]);
        }
    };
    assert forall|i: int| 0 <= i < next.len() implies #[trigger] placeable(next[i], pre2, ord) by {
        let o = if i < m { i } else { i + 1 };
        assert(placeable(rest[o], pre, ord));
        let k = choose|k: int| 0 <= k < ord.len() && ord[k] == rest[o].0 && satisfied(rest[o].1, pre.to_set().union(ord.subrange(0, k).to_set()));
        lemma_satisfied_monotone(rest[o].1, pre.to_set().union(ord.subrange(0, k).to_set()), pre2.to_set().union(ord.subrange(0, k).to_set()));
    };
    lemma_topo_complete(next, pre2, ord);
}

/// Topological completeness: when the pairs can be put in some order in
/// which each tree is satisfied by the codes before it, the sort places
/// every pair, so its output codes are the input codes rearranged.
pub proof fn lemma_topological_complete(items: Seq<(String, PrereqTree)>, ord: Seq<Seq<char>>)
    requires
        forall|a: int, b: int| 0 <= a < ord.len() && 0 <= b < ord.len() && a != b ==> ord[a] != ord[b],
        forall|k: int| 0 <= k < ord.len() ==> exists|i: int| 0 <= i < items.len() && items[i].0@ == #[trigger] ord[k],
        forall|i: int| 0 <= i < items.len() ==> exists|k: int|
            0 <= k < ord.len() && ord[k] == (#[trigger] items[i]).0@ && satisfied(items[i].1@, ord.subrange(0, k).to_set()),
    ensures
        topo_run(start(items)).1.len() == 0,
        placed_codes(topo_run(start(items)).0).to_multiset() == items.map_values(|p: (String, PrereqTree)| p.0@).to_multiset(),
{
    let rest = start(items);
    let e = Seq::<Seq<char>>::empty();
    assert(e.to_set() =~= Set::<Seq<char>>::empty());
    assert forall|i: int| 0 <= i < rest.len() implies (#[trigger] rest[i]).2 == resolve_fold(rest[i].1, e) by {};
    assert forall|k: int| 0 <= k < ord.len() implies entry_codes(rest).contains(#[trigger] ord[k]) || e.contains(ord[k]) by {
        let i = choose|i: int| 0 <= i < items.len() && items[i].0@ == ord[k];
        assert(entry_codes(rest)[i] == ord[k]);
    };
    assert forall|i: int| 0 <= i < rest.len() implies #[trigger] placeable(rest[i], e, ord) by {
        let k = choose|k: int| 0 <= k < ord.len() && ord[k] == (#[trigger] items[i]).0@ && satisfied(items[i].1@, ord.subrange(0, k).to_set());
        assert(e.to_set().union(ord.subrange(0, k).to_set()) =~= ord.subrange(0, k).to_set());
        assert(rest[i].0 == items[i].0@ && rest[i].1 == items[i].1@);
        assert(satisfied(rest[i].1, e.to_set().union(ord.subrange(0, k).to_set())));
        assert(0 <= k < ord.len() && ord[k] == rest[i].0);
    };
    lemma_topo_complete(rest, e, ord);
    lemma_topological_validity(items);
    assert(placed_codes(topo_run(rest).0) + topo_run(rest).1 =~= placed_codes(topo_run(rest).0));
}

} // verus!
