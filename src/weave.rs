use vstd::prelude::*;
use crate::codes::{code_set, distinct, lemma_code_set_empty, push_new, Code};

verus! {

/// Every union of one path of `a` with one path of `b`; the paths of `a`
/// vary slowest.
pub open spec fn cross<V>(a: Seq<Set<V>>, b: Seq<Set<V>>) -> Seq<Set<V>>
    decreases a.len(),
{
    if a.len() == 0 {
        Seq::empty()
    } else {
        cross(a.subrange(0, a.len() - 1), b) + Seq::new(
            b.len(),
            |j: int| a[a.len() - 1].union(b[j]),
        )
    }
}

/// Every way of picking one path from each branch, each pick united into
/// one path, with the first branch varying slowest.
pub open spec fn woven<V>(ls: Seq<Seq<Set<V>>>) -> Seq<Set<V>>
    decreases ls.len(),
{
    if ls.len() == 0 {
        seq![Set::empty()]
    } else {
        cross(woven(ls.subrange(0, ls.len() - 1)), ls[ls.len() - 1])
    }
}

/// The paths of a list, each as a set.
pub open spec fn path_sets<T: View>(v: Seq<Vec<T>>) -> Seq<Set<T::V>> {
    Seq::new(v.len(), |i: int| code_set(v[i]@))
}

/// The branches of a list, each as a list of sets.
pub open spec fn branch_sets<T: View>(v: Seq<Vec<Vec<T>>>) -> Seq<Seq<Set<T::V>>> {
    Seq::new(v.len(), |i: int| path_sets(v[i]@))
}

/// Every path of the list repeats no element.
pub open spec fn all_distinct<T: View>(v: Seq<Vec<T>>) -> bool {
    forall|i: int| 0 <= i < v.len() ==> distinct(#[trigger] v[i]@)
}

/// The elements of `a` and `b`, each once.
fn chain<T: Code>(a: &Vec<T>, b: &Vec<T>) -> (r: Vec<T>)
    ensures
        distinct(r@),
        code_set(r@) == code_set(a@).union(code_set(b@)),
{
    let mut out: Vec<T> = Vec::new();
    proof { lemma_code_set_empty(out@); }
    let mut i: usize = 0;
    while i < a.len()
        invariant
            i <= a.len(),
            distinct(out@),
            code_set(out@) == code_set(a@.subrange(0, i as int)),
        decreases a.len() - i,
    {
        proof {
            assert(a@.subrange(0, i + 1) =~= a@.subrange(0, i as int).push(a@[i as int]));
            crate::codes::lemma_code_set_push(a@.subrange(0, i as int), a@[i as int]);
        }
        push_new(&mut out, a[i].duplicate());
        i += 1;
    }
    assert(a@.subrange(0, i as int) =~= a@);
    let mut j: usize = 0;
    while j < b.len()
        invariant
            j <= b.len(),
            distinct(out@),
            code_set(out@) == code_set(a@).union(code_set(b@.subrange(0, j as int))),
        decreases b.len() - j,
    {
        proof {
            assert(b@.subrange(0, j + 1) =~= b@.subrange(0, j as int).push(b@[j as int]));
            crate::codes::lemma_code_set_push(b@.subrange(0, j as int), b@[j as int]);
        }
        push_new(&mut out, b[j].duplicate());
        assert(code_set(out@) =~= code_set(a@).union(code_set(b@.subrange(0, j + 1))));
        j += 1;
    }
    assert(b@.subrange(0, j as int) =~= b@);
    out
}

/// Cross-chains the alternative paths of several branches: every result
/// picks one path of each branch and unites the picks, repeating no
/// element; the first branch varies slowest. A branch without paths gives
/// no result; no branches give one empty path.
pub fn weave<T: Code>(llp: &Vec<Vec<Vec<T>>>) -> (r: Vec<Vec<T>>)
    ensures
        path_sets(r@) == woven(branch_sets(llp@)),
        all_distinct(r@),
{
    let ghost ls = branch_sets(llp@);
    let mut acc: Vec<Vec<T>> = Vec::new();
    acc.push(Vec::new());
    proof {
        lemma_code_set_empty(acc@[0]@);
        assert(path_sets(acc@) =~= woven(ls.subrange(0, 0)));
    }
    let mut k: usize = 0;
    while k < llp.len()
        invariant
            k <= llp.len(),
            ls == branch_sets(llp@),
            path_sets(acc@) == woven(ls.subrange(0, k as int)),
            all_distinct(acc@),
        decreases llp.len() - k,
    {
        let branch = &llp[k];
        let ghost a = path_sets(acc@);
        let ghost b = path_sets(branch@);
        let mut next: Vec<Vec<T>> = Vec::new();
        let mut i: usize = 0;
        while i < acc.len()
            invariant
                i <= acc.len(),
                a == path_sets(acc@),
                b == path_sets(branch@),
                path_sets(next@) == cross(a.subrange(0, i as int), b),
                all_distinct(next@),
            decreases acc.len() - i,
        {
            let ghost before = path_sets(next@);
            let mut j: usize = 0;
            while j < branch.len()
                invariant
                    i < acc.len(),
                    j <= branch.len(),
                    a == path_sets(acc@),
                    b == path_sets(branch@),
                    path_sets(next@) == before + Seq::new(j as nat, |jj: int| a[i as int].union(b[jj])),
                    all_distinct(next@),
                decreases branch.len() - j,
            {
                let p = chain(&acc[i], &branch[j]);
                proof {
                    assert(path_sets(next@.push(p)) =~= path_sets(next@).push(code_set(p@)));
                    assert(before + Seq::new((j + 1) as nat, |jj: int| a[i as int].union(b[jj]))
                        =~= (before + Seq::new(j as nat, |jj: int| a[i as int].union(b[jj]))).push(a[i as int].union(b[j as int])));
                }
                next.push(p);
                j += 1;
            }
            proof {
                assert(a.subrange(0, i + 1).subrange(0, i as int) =~= a.subrange(0, i as int));
                assert(Seq::new(j as nat, |jj: int| a[i as int].union(b[jj])) =~= Seq::new(b.len(), |jj: int| a.subrange(0, i + 1)[i as int].union(b[jj])));
            }
            i += 1;
        }
        proof {
            assert(a.subrange(0, i as int) =~= a);
            assert(ls.subrange(0, k + 1).subrange(0, k as int) =~= ls.subrange(0, k as int));
            assert(ls.subrange(0, k + 1)[k as int] == b);
        }
        acc = next;
        k += 1;
    }
    assert(ls.subrange(0, k as int) =~= ls);
    acc
}


/// A mixed-radix counter: digit `i` runs from 0 to `bases[i] - 1`, the
/// last digit fastest. It yields every digit vector once, from all zeros
/// up; with a base of 0 there is none.
pub struct Counter {
    count: Vec<usize>,
    bases: Vec<usize>,
    done: bool,
}

pub struct CounterView {
    pub count: Seq<usize>,
    pub bases: Seq<usize>,
    pub done: bool,
}

impl View for Counter {
    type V = CounterView;

    closed spec fn view(&self) -> CounterView {
        CounterView { count: self.count@, bases: self.bases@, done: self.done }
    }
}

/// Every digit is below its base.
pub open spec fn counter_wf(c: CounterView) -> bool {
    &&& c.count.len() == c.bases.len()
    &&& forall|i: int| 0 <= i < c.count.len() ==> #[trigger] c.count[i] < c.bases[i]
}

/// Adds one at digit `place` and carries leftwards: the new digits, and
/// false when the carry ran past the first digit (all digits are then 0).
pub open spec fn bump(count: Seq<usize>, bases: Seq<usize>, place: int) -> (Seq<usize>, bool)
    decreases place + 1,
{
    if place < 0 || place >= bases.len() {
        (count, false)
    } else if count[place] + 1 == bases[place] {
        bump(count.update(place, 0), bases, place - 1)
    } else {
        (count.update(place, (count[place] + 1) as usize), true)
    }
}

proof fn lemma_bump_wf(count: Seq<usize>, bases: Seq<usize>, place: int)
    requires
        counter_wf(CounterView { count, bases, done: false }),
        place < bases.len(),
    ensures
        counter_wf(CounterView { count: bump(count, bases, place).0, bases, done: false }),
    decreases place + 1,
{
    if place >= 0 && count[place] + 1 == bases[place] {
        lemma_bump_wf(count.update(place, 0), bases, place - 1);
    }
}

impl Counter {
    /// A counter at all zeros over `bases`.
    pub fn new(bases: Vec<usize>) -> (r: Self)
        ensures
            r@.bases == bases@,
            r@.count == Seq::new(bases@.len(), |i: int| 0usize),
            r@.done == exists|i: int| 0 <= i < bases@.len() && bases@[i] == 0,
            !r@.done ==> counter_wf(r@),
    {
        let mut count: Vec<usize> = Vec::new();
        let mut done = false;
        let mut i: usize = 0;
        while i < bases.len()
            invariant
                i <= bases.len(),
                count@ == Seq::new(i as nat, |k: int| 0usize),
                done == exists|k: int| 0 <= k < i && bases@[k] == 0,
            decreases bases.len() - i,
        {
            if bases[i] == 0 {
                done = true;
            }
            count.push(0);
            assert(count@ =~= Seq::new((i + 1) as nat, |k: int| 0usize));
            i += 1;
        }
        Counter { count, bases, done }
    }

    fn increment_at(&mut self, place: usize) -> (r: bool)
        requires
            counter_wf(old(self)@),
            place < old(self)@.bases.len(),
        ensures
            final(self)@.bases == old(self)@.bases,
            final(self)@.done == old(self)@.done,
            (final(self)@.count, r) == bump(old(self)@.count, old(self)@.bases, place as int),
        decreases place,
    {
        if self.count[place] + 1 == self.bases[place] {
            self.count.set(place, 0);
            if place == 0 {
                false
            } else {
                proof { lemma_bump_wf(self@.count, self@.bases, -1); }
                assert(counter_wf(self@));
                self.increment_at(place - 1)
            }
        } else {
            let v = self.count[place] + 1;
            self.count.set(place, v);
            true
        }
    }

    /// Moves to the next digit vector; past the last one the counter is
    /// done.
    pub fn increment(&mut self)
        requires
            counter_wf(old(self)@),
        ensures
            final(self)@.bases == old(self)@.bases,
            final(self)@.count == bump(old(self)@.count, old(self)@.bases, old(self)@.bases.len() - 1).0,
            final(self)@.done == (old(self)@.done || !bump(old(self)@.count, old(self)@.bases, old(self)@.bases.len() - 1).1),
            counter_wf(final(self)@),
    {
        proof { lemma_bump_wf(self@.count, self@.bases, self@.bases.len() - 1); }
        if self.bases.len() == 0 {
            self.done = true;
            return;
        }
        let n = self.bases.len() - 1;
        if !self.increment_at(n) {
            self.done = true;
        }
    }

    /// The current digit vector, then a step on; `None` once done.
    pub fn next(&mut self) -> (r: Option<Vec<usize>>)
        requires
            !old(self)@.done ==> counter_wf(old(self)@),
        ensures
            old(self)@.done ==> r is None && final(self)@ == old(self)@,
            !old(self)@.done ==> (r matches Some(v) && v@ == old(self)@.count && final(self)@.count == bump(
                old(self)@.count,
                old(self)@.bases,
                old(self)@.bases.len() - 1,
            ).0 && final(self)@.done == !bump(old(self)@.count, old(self)@.bases, old(self)@.bases.len() - 1).1
                && counter_wf(final(self)@)),
    {
        if self.done {
            return None;
        }
        let mut v: Vec<usize> = Vec::new();
        let mut i: usize = 0;
        while i < self.count.len()
            invariant
                i <= self.count.len(),
                v@ == self.count@.subrange(0, i as int),
            decreases self.count.len() - i,
        {
            v.push(self.count[i]);
            assert(v@ =~= self.count@.subrange(0, i + 1));
            i += 1;
        }
        assert(v@ =~= self.count@);
        self.increment();
        Some(v)
    }
}

/// `a` and `b` pair up one to one with `cmp` holding of each pair.
pub open spec fn matched<T, F: Fn(&T, &T) -> bool>(a: Seq<T>, b: Seq<T>, cmp: F, p: Seq<int>) -> bool {
    &&& p.len() == a.len()
    &&& a.len() == b.len()
    &&& forall|i: int| 0 <= i < p.len() ==> 0 <= #[trigger] p[i] < b.len()
    &&& forall|i: int, j: int| 0 <= i < p.len() && 0 <= j < p.len() && i != j ==> p[i] != p[j]
    &&& forall|i: int| 0 <= i < p.len() ==> call_ensures(cmp, (&a[i], &b[#[trigger] p[i]]), true)
}

/// `cmp` holds of `x` and `y`.
pub open spec fn related<T, F: Fn(&T, &T) -> bool>(cmp: F, x: T, y: T) -> bool {
    call_ensures(cmp, (&x, &y), true)
}

/// On the elements of `s`, `cmp` answers the same each time and is
/// symmetric and transitive.
pub open spec fn equivalence_on<T, F: Fn(&T, &T) -> bool>(cmp: F, s: Seq<T>) -> bool {
    &&& forall|i: int, j: int| 0 <= i < s.len() && 0 <= j < s.len() && call_ensures(cmp, (&s[i], &s[j]), false)
        ==> !#[trigger] related(cmp, s[i], s[j])
    &&& forall|i: int, j: int| 0 <= i < s.len() && 0 <= j < s.len() && #[trigger] related(cmp, s[i], s[j])
        ==> related(cmp, s[j], s[i])
    &&& forall|i: int, j: int, k: int| 0 <= i < s.len() && 0 <= j < s.len() && 0 <= k < s.len()
        && #[trigger] related(cmp, s[i], s[j]) && #[trigger] related(cmp, s[j], s[k]) ==> related(cmp, s[i], s[k])
}

/// A one-to-one pairing of the elements of `a` from `i` on with unused
/// elements of `b` that they are related to.
pub open spec fn pairing<T, F: Fn(&T, &T) -> bool>(a: Seq<T>, b: Seq<T>, cmp: F, used: Seq<bool>, i: int, s: Seq<int>) -> bool {
    &&& s.len() == a.len()
    &&& forall|x: int| i <= x < a.len() ==> 0 <= #[trigger] s[x] < b.len() && !used[s[x]] && related(cmp, a[x], b[s[x]])
    &&& forall|x: int, y: int| i <= x < a.len() && i <= y < a.len() && x != y ==> s[x] != s[y]
}

/// Compares two vectors as multisets under `cmp`: each element of `a` takes
/// the first element of `b` not yet taken for which `cmp` holds. A `true`
/// comes with a one-to-one pairing; vectors of different lengths are never
/// equal; and when `cmp` is a deterministic equivalence on the elements,
/// the answer is `true` exactly when such a pairing exists.
pub fn vec_eq<T, F: Fn(&T, &T) -> bool>(a: &Vec<T>, b: &Vec<T>, cmp: F) -> (r: bool)
    requires
        forall|x: &T, y: &T| #[trigger] cmp.requires((x, y)),
    ensures
        r ==> exists|p: Seq<int>| matched(a@, b@, cmp, p),
        a@.len() != b@.len() ==> !r,
        equivalence_on(cmp, a@ + b@) && (exists|p: Seq<int>| matched(a@, b@, cmp, p)) ==> r,
{
    let ghost hyp = equivalence_on(cmp, a@ + b@) && (exists|p: Seq<int>| matched(a@, b@, cmp, p));
    if a.len() != b.len() {
        return false;
    }
    let n = a.len();
    let mut used: Vec<bool> = Vec::new();
    let mut k: usize = 0;
    while k < n
        invariant
            k <= n,
            used@ == Seq::new(k as nat, |q: int| false),
        decreases n - k,
    {
        used.push(false);
        assert(used@ =~= Seq::new((k + 1) as nat, |q: int| false));
        k += 1;
    }
    proof {
        if hyp {
            let first = choose|p: Seq<int>| matched(a@, b@, cmp, p);
            assert(pairing(a@, b@, cmp, used@, 0, first)) by {
                assert forall|x: int| 0 <= x < a@.len() implies 0 <= #[trigger] first[x] < b@.len() && !used@[first[x]]
                    && related(cmp, a@[x], b@[first[x]]) by {};
            };
        }
    }
    let ghost mut p: Seq<int> = Seq::empty();
    let mut i: usize = 0;
    while i < n
        invariant
            n == a@.len(),
            n == b@.len(),
            i <= n,
            used@.len() == n,
            p.len() == i,
            forall|x: &T, y: &T| #[trigger] cmp.requires((x, y)),
            forall|q: int| 0 <= q < i ==> 0 <= #[trigger] p[q] < n && used@[p[q]],
            forall|q: int, s: int| 0 <= q < i && 0 <= s < i && q != s ==> p[q] != p[s],
            forall|q: int| 0 <= q < i ==> call_ensures(cmp, (&a@[q], &b@[#[trigger] p[q]]), true),
            forall|s: int| 0 <= s < n && used@[s] ==> exists|q: int| 0 <= q < i && p[q] == s,
            hyp == (equivalence_on(cmp, a@ + b@) && (exists|p: Seq<int>| matched(a@, b@, cmp, p))),
            hyp ==> exists|s: Seq<int>| pairing(a@, b@, cmp, used@, i as int, s),
        decreases n - i,
    {
        let mut j: usize = 0;
        let mut hit = false;
        while j < n && !hit
            invariant
                j <= n,
                n == b@.len(),
                n == a@.len(),
                i < n,
                used@.len() == n,
                forall|x: &T, y: &T| #[trigger] cmp.requires((x, y)),
                hit ==> j < n && !used@[j as int] && call_ensures(cmp, (&a@[i as int], &b@[j as int]), true),
                !hit ==> forall|q: int| 0 <= q < j && !used@[q] ==> call_ensures(cmp, (&a@[i as int], &b@[q]), false),
            decreases n - j + (if hit { 0int } else { 1int }),
        {
            if !used[j] && cmp(&a[i], &b[j]) {
                hit = true;
            } else {
                j += 1;
            }
        }
        if !hit {
            proof {
                if hyp {
                    let s = choose|s: Seq<int>| pairing(a@, b@, cmp, used@, i as int, s);
                    let q = s[i as int];
                    let ab = a@ + b@;
                    assert(ab[i as int] == a@[i as int]);
                    assert(ab[n + q] == b@[q]);
                    assert(call_ensures(cmp, (&ab[i as int], &ab[n + q]), false));
                    assert(!related(cmp, ab[i as int], ab[n + q]));
                    assert(false);
                }
            }
            return false;
        }
        let ghost before = used@;
        used.set(j, true);
        let ghost pb = p;
        proof {
            p = p.push(j as int);
            assert forall|s: int| 0 <= s < n && used@[s] implies exists|q: int| 0 <= q < i + 1 && p[q] == s by {
                if s != j {
                    assert(before[s]);
                    let q = choose|q: int| 0 <= q < i && pb[q] == s;
                    assert(p[q] == pb[q]);
                } else {
                    assert(p[i as int] == s);
                }
            };
            assert forall|q: int, s: int| 0 <= q < i + 1 && 0 <= s < i + 1 && q != s implies p[q] != p[s] by {
                if q == i && s < i {
                    assert(before[p[s]]);
                } else if s == i && q < i {
                    assert(before[p[q]]);
                }
            };
            if hyp {
                let sg = choose|s: Seq<int>| pairing(a@, b@, cmp, before, i as int, s);
                let ab = a@ + b@;
                let ii = i as int;
                let jj = j as int;
                if exists|x: int| ii < x < n && sg[x] == jj {
                    let x = choose|x: int| ii < x < n && sg[x] == jj;
                    let s2 = sg.update(x, sg[ii]);
                    // a[x] ~ b[j] ~ a[i] ~ b[sg[i]]
                    assert(ab[x] == a@[x] && ab[ii] == a@[ii] && ab[n + jj] == b@[jj] && ab[n + sg[ii]] == b@[sg[ii]]);
                    assert(related(cmp, ab[x], ab[n + jj]));
                    assert(related(cmp, ab[ii], ab[n + jj]));
                    assert(related(cmp, ab[n + jj], ab[ii]));
                    assert(related(cmp, ab[x], ab[ii]));
                    assert(related(cmp, ab[ii], ab[n + sg[ii]]));
                    assert(related(cmp, ab[x], ab[n + sg[ii]]));
                    assert(pairing(a@, b@, cmp, used@, ii + 1, s2)) by {
                        assert forall|y: int| ii + 1 <= y < n implies 0 <= #[trigger] s2[y] < b@.len() && !used@[s2[y]]
                            && related(cmp, a@[y], b@[s2[y]]) by {
                            if y != x {
                                assert(s2[y] == sg[y]);
                                assert(sg[y] != jj);
                            }
                        };
                        assert forall|y: int, z: int| ii + 1 <= y < n && ii + 1 <= z < n && y != z implies s2[y] != s2[z] by {
                            if y == x {
                                assert(sg[ii] != sg[z]);
                            } else if z == x {
                                assert(sg[ii] != sg[y]);
                            }
                        };
                    };
                } else {
                    assert(pairing(a@, b@, cmp, used@, ii + 1, sg)) by {
                        assert forall|y: int| ii + 1 <= y < n implies 0 <= #[trigger] sg[y] < b@.len() && !used@[sg[y]]
                            && related(cmp, a@[y], b@[sg[y]]) by {
                            assert(sg[y] != jj);
                        };
                    };
                }
            }
        }
        i += 1;
    }
    assert(matched(a@, b@, cmp, p));
    true
}

} // verus!
