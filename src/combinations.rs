use vstd::prelude::*;
use crate::codes::Code;

verus! {

/// The `n`-element combinations of a pool, in lexicographic order of
/// positions.
pub struct Combinations<T> {
    n: usize,
    indices: Vec<usize>,
    pool: Vec<T>,
    first: bool,
}

pub struct CombinationsView<T> {
    pub n: usize,
    pub indices: Seq<usize>,
    pub pool: Seq<T>,
    pub first: bool,
}

impl<T> View for Combinations<T> {
    type V = CombinationsView<T>;

    closed spec fn view(&self) -> CombinationsView<T> {
        CombinationsView { n: self.n, indices: self.indices@, pool: self.pool@, first: self.first }
    }
}

/// The positions form a combination: increasing, each `j`-th one at most
/// `j + len - n`.
pub open spec fn positions_ok(idx: Seq<usize>, n: int, len: int) -> bool {
    &&& idx.len() == n
    &&& n <= len
    &&& forall|j: int| 0 <= j < n ==> #[trigger] idx[j] <= j + len - n
    &&& forall|j: int, k: int| 0 <= j < k < n ==> idx[j] < idx[k]
}

/// The last position, at or before `i`, that can still move right; -1 if
/// none can.
pub open spec fn last_movable(idx: Seq<usize>, n: int, len: int, i: int) -> int
    decreases i + 1,
{
    if i < 0 {
        -1
    } else if idx[i] != i + len - n {
        i
    } else {
        last_movable(idx, n, len, i - 1)
    }
}

/// The positions after moving position `i` one right and packing the ones
/// after it behind it.
pub open spec fn advanced(idx: Seq<usize>, i: int) -> Seq<usize> {
    Seq::new(idx.len(), |j: int| if j < i { idx[j] } else { (idx[i] + 1 + (j - i)) as usize })
}

/// The pool elements at the positions.
pub open spec fn picked<T: View>(pool: Seq<T>, idx: Seq<usize>) -> Seq<T::V> {
    Seq::new(idx.len(), |j: int| pool[idx[j] as int]@)
}

proof fn lemma_last_movable(idx: Seq<usize>, n: int, len: int, i: int)
    requires
        -1 <= i < n,
        idx.len() == n,
    ensures
        -1 <= last_movable(idx, n, len, i) <= i,
        last_movable(idx, n, len, i) >= 0 ==> idx[last_movable(idx, n, len, i)] != last_movable(idx, n, len, i) + len - n,
        forall|j: int| last_movable(idx, n, len, i) < j <= i ==> #[trigger] idx[j] == j + len - n,
    decreases i + 1,
{
    if i >= 0 && idx[i] == i + len - n {
        lemma_last_movable(idx, n, len, i - 1);
    }
}

/// Every `n`-element combination of `pool`, first the first `n` elements.
pub fn combinations<T>(pool: Vec<T>, n: usize) -> (r: Combinations<T>)
    ensures
        r@.n == n,
        r@.pool == pool@,
        r@.indices == Seq::new(n as nat, |j: int| j as usize),
        r@.first,
{
    let mut indices: Vec<usize> = Vec::new();
    let mut i: usize = 0;
    while i < n
        invariant
            i <= n,
            indices@ == Seq::new(i as nat, |j: int| j as usize),
        decreases n - i,
    {
        indices.push(i);
        assert(indices@ =~= Seq::new((i + 1) as nat, |j: int| j as usize));
        i += 1;
    }
    Combinations { n, indices, pool, first: true }
}

impl<T: Code> Combinations<T> {
    fn pick(&self) -> (r: Vec<T>)
        requires
            positions_ok(self@.indices, self@.n as int, self@.pool.len() as int),
        ensures
            r@.map_values(|x: T| x@) == picked(self@.pool, self@.indices),
    {
        let mut out: Vec<T> = Vec::new();
        let mut k: usize = 0;
        while k < self.indices.len()
            invariant
                k <= self.indices.len(),
                positions_ok(self@.indices, self@.n as int, self@.pool.len() as int),
                out@.len() == k,
                forall|q: int| 0 <= q < k ==> (#[trigger] out@[q])@ == self@.pool[self@.indices[q] as int]@,
            decreases self.indices.len() - k,
        {
            out.push(self.pool[self.indices[k]].duplicate());
            k += 1;
        }
        assert(out@.map_values(|x: T| x@) =~= picked(self@.pool, self@.indices));
        out
    }

    /// The next combination, as clones of the pool's elements; `None` when
    /// there is none.
    pub fn next(&mut self) -> (r: Option<Vec<T>>)
        requires
            old(self)@.n <= old(self)@.pool.len() ==> positions_ok(old(self)@.indices, old(self)@.n as int, old(self)@.pool.len() as int),
        ensures
            final(self)@.n == old(self)@.n,
            final(self)@.pool == old(self)@.pool,
            final(self)@.n <= final(self)@.pool.len() ==> positions_ok(final(self)@.indices, final(self)@.n as int, final(self)@.pool.len() as int),
            ({
                let s = old(self)@;
                let len = s.pool.len() as int;
                let n = s.n as int;
                if len == 0 || n > len {
                    r is None && final(self)@ == s
                } else if s.first {
                    r matches Some(v) && v@.map_values(|x: T| x@) == picked(s.pool, s.indices) && !final(self)@.first && final(self)@.indices == s.indices
                } else if n == 0 || last_movable(s.indices, n, len, n - 1) < 0 {
                    r is None && final(self)@ == s
                } else {
                    let idx = advanced(s.indices, last_movable(s.indices, n, len, n - 1));
                    r matches Some(v) && v@.map_values(|x: T| x@) == picked(s.pool, idx) && final(self)@.indices == idx && !final(self)@.first
                }
            }),
    {
        let pool_len = self.pool.len();
        if pool_len == 0 || self.n > pool_len {
            return None;
        }
        if self.first {
            self.first = false;
        } else if self.n == 0 {
            return None;
        } else {
            let n = self.n;
            let ghost idx = self@.indices;
            proof { lemma_last_movable(idx, n as int, pool_len as int, n - 1); }
            let mut i: usize = n - 1;
            while self.indices[i] == i + (pool_len - n)
                invariant
                    i < n,
                    n == self@.n,
                    self@ == old(self)@,
                    !old(self)@.first,
                    idx == self@.indices,
                    positions_ok(idx, n as int, pool_len as int),
                    pool_len == self@.pool.len(),
                    last_movable(idx, n as int, pool_len as int, n - 1) == last_movable(idx, n as int, pool_len as int, i as int),
                decreases i,
            {
                if i > 0 {
                    i -= 1;
                } else {
                    assert(last_movable(idx, n as int, pool_len as int, -1) == -1);
                    assert(last_movable(idx, n as int, pool_len as int, 0) == -1);
                    return None;
                }
            }
            let m = i;
            proof { lemma_last_movable(idx, n as int, pool_len as int, n - 1); }
            let v = self.indices[i] + 1;
            self.indices.set(i, v);
            let mut j: usize = i + 1;
            while j < n
                invariant
                    m < j <= n,
                    n == self@.n,
                    self@.pool == old(self)@.pool,
                    self@.first == old(self)@.first,
                    pool_len == self@.pool.len(),
                    positions_ok(idx, n as int, pool_len as int),
                    idx[m as int] < m + pool_len - n,
                    self.indices@.len() == n,
                    forall|q: int| 0 <= q < j ==> #[trigger] self.indices@[q] == advanced(idx, m as int)[q],
                    forall|q: int| j <= q < n ==> #[trigger] self.indices@[q] == idx[q],
                decreases n - j,
            {
                let w = self.indices[j - 1] + 1;
                self.indices.set(j, w);
                j += 1;
            }
            proof {
                let a = advanced(idx, m as int);
                assert(self.indices@ =~= a);
                assert forall|q: int| 0 <= q < n implies #[trigger] a[q] <= q + pool_len - n by {
                    if q >= m {
                        assert(idx[m as int] < m + pool_len - n);
                    }
                };
                assert forall|q: int, k: int| 0 <= q < k < n implies a[q] < a[k] by {};
                assert(positions_ok(a, n as int, pool_len as int));
            }
        }
        Some(self.pick())
    }
}

} // verus!
