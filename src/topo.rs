use vstd::prelude::*;
use crate::text::{before, code_before};
use crate::path::Module;
use crate::tree::{resolved, unlock, PrereqTree, Req};

verus! {

/// An entry of the sort: its code, its tree as given, and its tree with the
/// codes placed so far resolved.
pub type Entry = (Seq<char>, Req, Req);

/// Nothing is left to take for `r`.
pub open spec fn ready(r: Req) -> bool {
    unlock(r, Set::empty()) == 0
}

/// Among the first `n` entries, the first ready one whose code no other
/// ready one among them sorts before.
pub open spec fn pick_upto(rest: Seq<Entry>, n: int) -> Option<int>
    decreases n,
{
    if n <= 0 {
        None
    } else {
        let b = pick_upto(rest, n - 1);
        let e = rest[n - 1];
        if ready(e.2) && (b is None || before(e.0, rest[b->0].0)) {
            Some(n - 1)
        } else {
            b
        }
    }
}

/// The placed entries, in order, and the codes that could not be placed.
pub open spec fn topo_run(rest: Seq<Entry>) -> (Seq<(Seq<char>, Req)>, Seq<Seq<char>>)
    decreases rest.len(),
{
    match pick_upto(rest, rest.len() as int) {
        Some(m) if 0 <= m < rest.len() => {
            let code = rest[m].0;
            let next = rest.remove(m).map_values(|e: Entry| (e.0, e.1, resolved(e.2, code)));
            let sub = topo_run(next);
            (seq![(rest[m].0, rest[m].1)] + sub.0, sub.1)
        },
        _ => (Seq::empty(), rest.map_values(|e: Entry| e.0)),
    }
}

pub open spec fn start(items: Seq<(String, PrereqTree)>) -> Seq<Entry> {
    items.map_values(|p: (String, PrereqTree)| (p.0@, p.1@, p.1@))
}

pub open spec fn pair_views(items: Seq<(String, PrereqTree)>) -> Seq<(Seq<char>, Req)> {
    items.map_values(|p: (String, PrereqTree)| (p.0@, p.1@))
}

pub open spec fn entry_views(items: Seq<(String, PrereqTree, PrereqTree)>) -> Seq<Entry> {
    items.map_values(|p: (String, PrereqTree, PrereqTree)| (p.0@, p.1@, p.2@))
}

pub open spec fn string_views(v: Seq<String>) -> Seq<Seq<char>> {
    v.map_values(|s: String| s@)
}

pub proof fn lemma_entry_views_push(s: Seq<(String, PrereqTree, PrereqTree)>, x: (String, PrereqTree, PrereqTree))
    ensures
        entry_views(s.push(x)) == entry_views(s).push((x.0@, x.1@, x.2@)),
{
    assert(entry_views(s.push(x)) =~= entry_views(s).push((x.0@, x.1@, x.2@)));
}

/// Orders `(code, tree)` pairs so that each tree is satisfied by the codes
/// placed before it: again and again the first ready pair with the
/// smallest code is placed and its code resolved in every tree left. When
/// no tree left is ready, the rest are given back by code, unplaced.
pub fn topological_order(modules: Vec<(String, PrereqTree)>) -> (r: (
    Vec<(String, PrereqTree)>,
    Vec<String>,
))
    ensures
        pair_views(r.0@) == topo_run(start(modules@)).0,
        string_views(r.1@) == topo_run(start(modules@)).1,
{
    let ghost init = start(modules@);
    let mut rest: Vec<(String, PrereqTree, PrereqTree)> = Vec::new();
    let mut i: usize = 0;
    while i < modules.len()
        invariant
            i <= modules.len(),
            entry_views(rest@) == start(modules@.subrange(0, i as int)),
        decreases modules.len() - i,
    {
        let p = &modules[i];
        let x = (p.0.clone(), p.1.clone(), p.1.clone());
        let ghost before = rest@;
        rest.push(x);
        proof {
            lemma_entry_views_push(before, x);
            assert(modules@.subrange(0, i + 1) =~= modules@.subrange(0, i as int).push(*p));
            assert(start(modules@.subrange(0, i + 1)) =~= start(modules@.subrange(0, i as int)).push((p.0@, p.1@, p.1@)));
        }
        i += 1;
    }
    assert(modules@.subrange(0, i as int) =~= modules@);
    let mut placed: Vec<(String, PrereqTree)> = Vec::new();
    let mut dropped: Vec<String> = Vec::new();
    let mut finished = false;
    while !finished
        invariant
            finished ==> pair_views(placed@) == topo_run(init).0 && string_views(dropped@)
                == topo_run(init).1,
            !finished ==> pair_views(placed@) + topo_run(entry_views(rest@)).0 == topo_run(init).0
                && topo_run(entry_views(rest@)).1 == topo_run(init).1 && dropped@.len() == 0,
        decreases rest.len() + (if finished { 0int } else { 1int }),
    {
        let ghost ev = entry_views(rest@);
        // choose the entry to place
        let mut best: Option<usize> = None;
        let mut j: usize = 0;
        while j < rest.len()
            invariant
                j <= rest.len(),
                ev == entry_views(rest@),
                match best {
                    Some(b) => b < j && pick_upto(ev, j as int) == Some(b as int),
                    None => pick_upto(ev, j as int) is None,
                },
            decreases rest.len() - j,
        {
            let e = &rest[j];
            if e.2.min_to_unlock() == 0 {
                match best {
                    None => {
                        best = Some(j);
                    },
                    Some(b) => {
                        if code_before(e.0.as_str(), rest[b].0.as_str()) {
                            best = Some(j);
                        }
                    },
                }
            }
            j += 1;
        }
        match best {
            None => {
                let mut k: usize = 0;
                while k < rest.len()
                    invariant
                        k <= rest.len(),
                        ev == entry_views(rest@),
                        string_views(dropped@) == ev.subrange(0, k as int).map_values(|e: Entry| e.0),
                    decreases rest.len() - k,
                {
                    let ghost before = dropped@;
                    let c = rest[k].0.clone();
                    dropped.push(c);
                    proof {
                        assert(string_views(before.push(c)) =~= string_views(before).push(c@));
                        assert(ev.subrange(0, k + 1) =~= ev.subrange(0, k as int).push(ev[k as int]));
                        assert(ev.subrange(0, k + 1).map_values(|e: Entry| e.0) =~= ev.subrange(0, k as int).map_values(|e: Entry| e.0).push(ev[k as int].0));
                    }
                    k += 1;
                }
                assert(ev.subrange(0, k as int) =~= ev);
                assert(topo_run(ev).0 =~= Seq::<(Seq<char>, Req)>::empty());
                assert(pair_views(placed@) + topo_run(ev).0 =~= pair_views(placed@));
                finished = true;
            },
            Some(m) => {
                let e = rest.remove(m);
                let code = e.0;
                let mut next: Vec<(String, PrereqTree, PrereqTree)> = Vec::new();
                let ghost removed = ev.remove(m as int);
                let mut k: usize = 0;
                while k < rest.len()
                    invariant
                        k <= rest.len(),
                        entry_views(rest@) == removed,
                        entry_views(next@) == removed.subrange(0, k as int).map_values(
                            |x: Entry| (x.0, x.1, resolved(x.2, code@)),
                        ),
                    decreases rest.len() - k,
                {
                    let x = &rest[k];
                    let y = (x.0.clone(), x.1.clone(), x.2.resolved(code.as_str()));
                    let ghost before = next@;
                    next.push(y);
                    proof {
                        lemma_entry_views_push(before, y);
                        assert(removed.subrange(0, k + 1) =~= removed.subrange(0, k as int).push(removed[k as int]));
                        assert(removed.subrange(0, k + 1).map_values(|x: Entry| (x.0, x.1, resolved(x.2, code@)))
                            =~= removed.subrange(0, k as int).map_values(|x: Entry| (x.0, x.1, resolved(x.2, code@))).push(
                                (removed[k as int].0, removed[k as int].1, resolved(removed[k as int].2, code@))));
                    }
                    k += 1;
                }
                assert(removed.subrange(0, k as int) =~= removed);
                proof {
                    assert(entry_views(rest@) =~= ev.remove(m as int));
                    let sub = topo_run(entry_views(next@));
                    assert(topo_run(ev).0 == seq![(ev[m as int].0, ev[m as int].1)] + sub.0);
                    assert(pair_views(placed@.push((code, e.1))) =~= pair_views(placed@).push(
                        (ev[m as int].0, ev[m as int].1),
                    ));
                    assert(pair_views(placed@) + topo_run(ev).0 =~= pair_views(placed@).push(
                        (ev[m as int].0, ev[m as int].1),
                    ) + sub.0);
                }
                placed.push((code, e.1));
                rest = next;
            },
        }
    }
    (placed, dropped)
}


impl PrereqTree {
    /// The placed part of `topological_order`: each tree is satisfied by
    /// the codes before it; pairs that can never be placed are left out.
    pub fn topological_sort(modules: Vec<(String, PrereqTree)>) -> (r: Vec<(String, PrereqTree)>)
        ensures
            pair_views(r@) == topo_run(start(modules@)).0,
    {
        topological_order(modules).0
    }
}

pub open spec fn module_pairs(modules: Seq<Module>) -> Seq<Entry> {
    modules.map_values(|m: Module| (m@.code, m@.tree, m@.tree))
}

/// The items in topological order of their trees (see
/// `topological_order`); items that can never be placed are left out. An
/// item placed under a code is the first item with that code.
pub fn topological_sort_modules(modules: &Vec<Module>) -> (r: Vec<Module>)
    ensures
        r@.len() == topo_run(module_pairs(modules@)).0.len(),
        forall|i: int| 0 <= i < r@.len() ==> exists|j: int|
            0 <= j < modules@.len() && (#[trigger] r@[i])@ == modules@[j]@ && modules@[j]@.code == topo_run(
                module_pairs(modules@),
            ).0[i].0 && forall|q: int| 0 <= q < j ==> (#[trigger] modules@[q])@.code != modules@[j]@.code,
{
    let mut pairs: Vec<(String, PrereqTree)> = Vec::new();
    let mut i: usize = 0;
    while i < modules.len()
        invariant
            i <= modules.len(),
            start(pairs@) == module_pairs(modules@.subrange(0, i as int)),
        decreases modules.len() - i,
    {
        let ghost before = pairs@;
        let p = (modules[i].to_code(), modules[i].to_prereqtree());
        pairs.push(p);
        proof {
            assert(modules@.subrange(0, i + 1) =~= modules@.subrange(0, i as int).push(modules@[i as int]));
            assert(start(before.push(p)) =~= start(before).push((p.0@, p.1@, p.1@)));
            assert(module_pairs(modules@.subrange(0, i + 1)) =~= module_pairs(modules@.subrange(0, i as int)).push(
                (modules@[i as int]@.code, modules@[i as int]@.tree, modules@[i as int]@.tree),
            ));
        }
        i += 1;
    }
    assert(modules@.subrange(0, i as int) =~= modules@);
    let placed = topological_order(pairs).0;
    let ghost mp = module_pairs(modules@);
    let ghost order = topo_run(mp).0;
    let ghost all = placed_codes(order) + topo_run(mp).1;
    proof {
        let e = Seq::<Seq<char>>::empty();
        assert forall|q: int| 0 <= q < mp.len() implies (#[trigger] mp[q]).2 == resolve_fold(mp[q].1, e) by {};
        lemma_topo_run(mp, e);
    }
    let mut out: Vec<Module> = Vec::new();
    let mut k: usize = 0;
    while k < placed.len()
        invariant
            k <= placed.len(),
            pair_views(placed@) == order,
            mp == module_pairs(modules@),
            all == placed_codes(order) + topo_run(mp).1,
            all.to_multiset() == entry_codes(mp).to_multiset(),
            out@.len() == k,
            forall|i: int| 0 <= i < k ==> exists|j: int|
                0 <= j < modules@.len() && (#[trigger] out@[i])@ == modules@[j]@ && modules@[j]@.code == order[i].0
                    && forall|q: int| 0 <= q < j ==> (#[trigger] modules@[q])@.code != modules@[j]@.code,
        decreases placed.len() - k,
    {
        let code = &placed[k].0;
        proof {
            assert(order[k as int].0 == code@);
            assert(all[k as int] == code@);
            vstd::seq_lib::to_multiset_contains(all, code@);
            vstd::seq_lib::to_multiset_contains(entry_codes(mp), code@);
            assert(entry_codes(mp).contains(code@));
        }
        let mut j: usize = 0;
        while j < modules.len() && *modules[j].code() != *code
            invariant
                j <= modules.len(),
                forall|q: int| 0 <= q < j ==> (#[trigger] modules@[q])@.code != code@,
            decreases modules.len() - j,
        {
            j += 1;
        }
        proof {
            if j == modules.len() {
                let x = choose|x: int| 0 <= x < entry_codes(mp).len() && entry_codes(mp)[x] == code@;
                assert(modules@[x]@.code == code@);
            }
        }
        let ghost ob = out@;
        out.push(modules[j].duplicate());
        proof {
            assert forall|i: int| 0 <= i < k + 1 implies exists|j2: int|
                0 <= j2 < modules@.len() && (#[trigger] out@[i])@ == modules@[j2]@ && modules@[j2]@.code == order[i].0
                    && forall|q: int| 0 <= q < j2 ==> (#[trigger] modules@[q])@.code != modules@[j2]@.code by {
                if i < k {
                    assert(out@[i] == ob[i]);
                } else {
                    assert(out@[i]@ == modules@[j as int]@);
                }
            };
        }
        k += 1;
    }
    out
}

/// `r` with the codes of `ds` resolved one after the other.
pub open spec fn resolve_fold(r: Req, ds: Seq<Seq<char>>) -> Req
    decreases ds.len(),
{
    if ds.len() == 0 {
        r
    } else {
        resolved(resolve_fold(r, ds.subrange(0, ds.len() - 1)), ds[ds.len() - 1])
    }
}

pub open spec fn placed_codes(placed: Seq<(Seq<char>, Req)>) -> Seq<Seq<char>> {
    placed.map_values(|p: (Seq<char>, Req)| p.0)
}

pub open spec fn entry_codes(rest: Seq<Entry>) -> Seq<Seq<char>> {
    rest.map_values(|e: Entry| e.0)
}

pub proof fn lemma_pick(rest: Seq<Entry>, n: int)
    requires
        0 <= n <= rest.len(),
    ensures
        match pick_upto(rest, n) {
            Some(m) => 0 <= m < n && ready(rest[m].2),
            None => forall|j: int| 0 <= j < n ==> !ready(#[trigger] rest[j].2),
        },
    decreases n,
{
    if n > 0 {
        lemma_pick(rest, n - 1);
    }
}

/// The entry picked is ready, no ready entry's code sorts before its code,
/// and no earlier ready entry has the same code.
pub proof fn lemma_pick_smallest(rest: Seq<Entry>, n: int)
    requires
        0 <= n <= rest.len(),
    ensures
        pick_upto(rest, n) matches Some(m) ==> forall|j: int|
            0 <= j < n && ready(#[trigger] rest[j].2) ==> !before(rest[j].0, rest[m].0) && (j < m ==> rest[j].0
                != rest[m].0),
    decreases n,
{
    if n > 0 {
        lemma_pick_smallest(rest, n - 1);
        lemma_pick(rest, n - 1);
        let b = pick_upto(rest, n - 1);
        let e = rest[n - 1];
        if ready(e.2) && (b is None || before(e.0, rest[b->0].0)) {
            assert forall|j: int| 0 <= j < n && ready(#[trigger] rest[j].2) implies !before(rest[j].0, e.0) && (j < n - 1
                ==> rest[j].0 != e.0) by {
                if j == n - 1 {
                    crate::text::lemma_before_irreflexive(e.0);
                } else {
                    let m = b->0;
                    if before(rest[j].0, e.0) {
                        crate::text::lemma_before_transitive(rest[j].0, e.0, rest[m].0);
                    }
                    if rest[j].0 == e.0 {
                        assert(before(rest[j].0, rest[m].0));
                    }
                }
            };
        }
    }
}

proof fn lemma_topo_run(rest: Seq<Entry>, pre: Seq<Seq<char>>)
    requires
        forall|i: int| 0 <= i < rest.len() ==> (#[trigger] rest[i]).2 == resolve_fold(rest[i].1, pre),
    ensures
        forall|k: int| 0 <= k < topo_run(rest).0.len() ==> ready(resolve_fold(
            (#[trigger] topo_run(rest).0[k]).1,
            pre + placed_codes(topo_run(rest).0.subrange(0, k)),
        )),
        (placed_codes(topo_run(rest).0) + topo_run(rest).1).to_multiset() == entry_codes(rest).to_multiset(),
    decreases rest.len(),
{
    lemma_pick(rest, rest.len() as int);
    match pick_upto(rest, rest.len() as int) {
        Some(m) => {
            let code = rest[m].0;
            let removed = rest.remove(m);
            let next = removed.map_values(|e: Entry| (e.0, e.1, resolved(e.2, code)));
            let pre2 = pre.push(code);
            assert forall|i: int| 0 <= i < next.len() implies (#[trigger] next[i]).2 == resolve_fold(next[i].1, pre2) by {
                assert(pre2.subrange(0, pre2.len() - 1) =~= pre);
            };
            lemma_topo_run(next, pre2);
            let sub = topo_run(next);
            let placed = topo_run(rest).0;
            let head = (rest[m].0, rest[m].1);
            assert(placed == seq![head] + sub.0);
            assert forall|k: int| 0 <= k < placed.len() implies ready(resolve_fold(
                (#[trigger] placed[k]).1,
                pre + placed_codes(placed.subrange(0, k)),
            )) by {
                if k == 0 {
                    assert(placed_codes(placed.subrange(0, 0)) =~= Seq::<Seq<char>>::empty());
                    assert(pre + placed_codes(placed.subrange(0, 0)) =~= pre);
                } else {
                    assert(placed[k] == sub.0[k - 1]);
                    assert(pre + placed_codes(placed.subrange(0, k)) =~= pre2 + placed_codes(sub.0.subrange(0, k - 1)));
                }
            };
            // the codes are kept
            assert(entry_codes(next) =~= entry_codes(removed));
            assert(entry_codes(removed) =~= entry_codes(rest).remove(m));
            vstd::seq_lib::to_multiset_remove(entry_codes(rest), m);
            assert(placed_codes(placed) + topo_run(rest).1 =~= seq![code] + (placed_codes(sub.0) + sub.1));
            vstd::seq_lib::lemma_multiset_commutative(seq![code], placed_codes(sub.0) + sub.1);
            assert(seq![code] =~= Seq::<Seq<char>>::empty().push(code));
            Seq::<Seq<char>>::empty().to_multiset_ensures();
            let whole = entry_codes(rest).to_multiset();
            let part = entry_codes(rest).remove(m).to_multiset();
            vstd::seq_lib::to_multiset_contains(entry_codes(rest), code);
            assert(entry_codes(rest)[m] == code);
            assert(part.insert(code) =~= whole);
            assert(seq![code].to_multiset().add(part) =~= whole);
        },
        None => {
            assert(placed_codes(topo_run(rest).0) + topo_run(rest).1 =~= entry_codes(rest));
        },
    }
}

/// Topological validity: each placed pair's tree, after resolving the codes
/// placed before it, needs nothing more; and the placed codes together with
/// the unplaced ones are the input codes, rearranged.
pub proof fn lemma_topological_validity(items: Seq<(String, PrereqTree)>)
    ensures
        forall|k: int| 0 <= k < topo_run(start(items)).0.len() ==> unlock(resolve_fold(
            (#[trigger] topo_run(start(items)).0[k]).1,
            placed_codes(topo_run(start(items)).0.subrange(0, k)),
        ), Set::empty()) == 0,
        (placed_codes(topo_run(start(items)).0) + topo_run(start(items)).1).to_multiset()
            == items.map_values(|p: (String, PrereqTree)| p.0@).to_multiset(),
{
    let rest = start(items);
    let e = Seq::<Seq<char>>::empty();
    assert forall|i: int| 0 <= i < rest.len() implies (#[trigger] rest[i]).2 == resolve_fold(rest[i].1, e) by {};
    lemma_topo_run(rest, e);
    assert forall|k: int| 0 <= k < topo_run(rest).0.len() implies unlock(resolve_fold(
        (#[trigger] topo_run(rest).0[k]).1,
        placed_codes(topo_run(rest).0.subrange(0, k)),
    ), Set::empty()) == 0 by {
        assert(e + placed_codes(topo_run(rest).0.subrange(0, k)) =~= placed_codes(topo_run(rest).0.subrange(0, k)));
    };
    assert(entry_codes(rest) =~= items.map_values(|p: (String, PrereqTree)| p.0@));
}

} // verus!
