use vstd::prelude::*;

verus! {

/// An element of a path or a code set: equality goes by the view.
pub trait Code: View + Sized {
    fn same(&self, other: &Self) -> (r: bool)
        ensures
            r == (self@ == other@),
    ;

    fn duplicate(&self) -> (r: Self)
        ensures
            r@ == self@,
    ;
}

impl Code for String {
    fn same(&self, other: &Self) -> (r: bool) {
        *self == *other
    }

    fn duplicate(&self) -> (r: Self) {
        self.clone()
    }
}

impl Code for i32 {
    fn same(&self, other: &Self) -> (r: bool) {
        *self == *other
    }

    fn duplicate(&self) -> (r: Self) {
        *self
    }
}

impl Code for usize {
    fn same(&self, other: &Self) -> (r: bool) {
        *self == *other
    }

    fn duplicate(&self) -> (r: Self) {
        *self
    }
}

impl Code for u8 {
    fn same(&self, other: &Self) -> (r: bool) {
        *self == *other
    }

    fn duplicate(&self) -> (r: Self) {
        *self
    }
}

/// The set of the views of a sequence's elements.
pub open spec fn code_set<T: View>(v: Seq<T>) -> Set<T::V> {
    Set::new(|c: T::V| exists|i: int| 0 <= i < v.len() && #[trigger] v[i]@ == c)
}

/// No two elements share a view.
pub open spec fn distinct<T: View>(v: Seq<T>) -> bool {
    forall|i: int, j: int| 0 <= i < v.len() && 0 <= j < v.len() && i != j ==> v[i]@ != v[j]@
}

pub proof fn lemma_code_set_push<T: View>(v: Seq<T>, x: T)
    ensures
        code_set(v.push(x)) == code_set(v).insert(x@),
{
    assert forall|c: T::V| code_set(v.push(x)).contains(c) implies code_set(v).insert(x@).contains(
        c,
    ) by {
        let i = choose|i: int| 0 <= i < v.push(x).len() && #[trigger] v.push(x)[i]@ == c;
        if i < v.len() {
            assert(v[i]@ == c);
        }
    };
    assert forall|c: T::V| code_set(v).insert(x@).contains(c) implies code_set(v.push(x)).contains(
        c,
    ) by {
        if c == x@ {
            assert(v.push(x)[v.len() as int]@ == c);
        } else {
            let i = choose|i: int| 0 <= i < v.len() && #[trigger] v[i]@ == c;
            assert(v.push(x)[i]@ == c);
        }
    };
    assert(code_set(v.push(x)) =~= code_set(v).insert(x@));
}

pub proof fn lemma_code_set_empty<T: View>(v: Seq<T>)
    requires
        v.len() == 0,
    ensures
        code_set(v) == Set::<T::V>::empty(),
{
    assert(code_set(v) =~= Set::<T::V>::empty());
}

/// A sequence without repeated views has as many distinct views as elements.
pub proof fn lemma_distinct_len<T: View>(v: Seq<T>)
    requires
        distinct(v),
    ensures
        code_set(v).finite(),
        code_set(v).len() == v.len(),
    decreases v.len(),
{
    if v.len() == 0 {
        lemma_code_set_empty(v);
    } else {
        let p = v.subrange(0, v.len() - 1);
        assert(p.push(v[v.len() - 1]) =~= v);
        lemma_distinct_len(p);
        lemma_code_set_push(p, v[v.len() - 1]);
        if code_set(p).contains(v[v.len() - 1]@) {
            let i = choose|i: int| 0 <= i < p.len() && #[trigger] p[i]@ == v[v.len() - 1]@;
            assert(v[i]@ == v[v.len() - 1]@);
        }
    }
}

/// Whether an element with the view of `c` is in `v`.
pub fn has_code<T: Code>(v: &Vec<T>, c: &T) -> (r: bool)
    ensures
        r == code_set(v@).contains(c@),
{
    let mut i: usize = 0;
    while i < v.len()
        invariant
            i <= v.len(),
            forall|j: int| 0 <= j < i ==> v@[j]@ != c@,
        decreases v.len() - i,
    {
        if v[i].same(c) {
            assert(code_set(v@).contains(c@));
            return true;
        }
        i += 1;
    }
    false
}

/// Adds `x` unless an element with the same view is there already.
pub fn push_new<T: Code>(out: &mut Vec<T>, x: T)
    requires
        distinct(old(out)@),
    ensures
        distinct(final(out)@),
        code_set(final(out)@) == code_set(old(out)@).insert(x@),
{
    proof { lemma_code_set_push(out@, x); }
    if has_code(out, &x) {
        assert(code_set(out@).insert(x@) =~= code_set(out@));
    } else {
        out.push(x);
    }
}

} // verus!
