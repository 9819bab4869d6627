use vstd::prelude::*;
use vstd::multiset::Multiset;
use crate::codes::{code_set, distinct, has_code, lemma_code_set_empty, lemma_distinct_len, push_new};
use crate::weave::{all_distinct, branch_sets, path_sets, weave, woven};

verus! {

/// The mathematical shape of a requirement: a leaf names one code, `All`
/// asks for every child and `Any` for at least one. A leaf whose code is
/// empty stands for "no requirement".
pub enum Req {
    Leaf(Seq<char>),
    All(Seq<Req>),
    Any(Seq<Req>),
}

/// A prerequisite tree. `Only("")` is the one canonical form of the empty
/// requirement; `PrereqTree::empty()` builds it.
#[derive(Debug)]
pub enum PrereqTree {
    Only(String),
    And { and: Vec<PrereqTree> },
    Or { or: Vec<PrereqTree> },
}

pub open spec fn tree_view(t: PrereqTree) -> Req
    decreases t,
{
    match t {
        PrereqTree::Only(s) => Req::Leaf(s@),
        PrereqTree::And { and } => Req::All(views(and@)),
        PrereqTree::Or { or } => Req::Any(views(or@)),
    }
}

pub open spec fn views(s: Seq<PrereqTree>) -> Seq<Req>
    decreases s,
{
    if s.len() == 0 {
        Seq::empty()
    } else {
        views(s.subrange(0, s.len() - 1)).push(tree_view(s[s.len() - 1]))
    }
}

impl View for PrereqTree {
    type V = Req;

    open spec fn view(&self) -> Req {
        tree_view(*self)
    }
}

pub proof fn lemma_views(s: Seq<PrereqTree>)
    ensures
        views(s).len() == s.len(),
        forall|i: int| 0 <= i < s.len() ==> #[trigger] views(s)[i] == s[i]@,
    decreases s.len(),
{
    if s.len() > 0 {
        lemma_views(s.subrange(0, s.len() - 1));
    }
}

/// The empty requirement.
pub open spec fn blank() -> Req {
    Req::Leaf(Seq::empty())
}

pub open spec fn is_blank(r: Req) -> bool {
    match r {
        Req::Leaf(c) => c.len() == 0,
        _ => false,
    }
}

/// Whether the codes in `done` satisfy `r`. An `Any` without children is
/// satisfied by every set.
pub open spec fn satisfied(r: Req, done: Set<Seq<char>>) -> bool
    decreases r,
{
    match r {
        Req::Leaf(c) => c.len() == 0 || done.contains(c),
        Req::All(cs) => forall|i: int| 0 <= i < cs.len() ==> satisfied(#[trigger] cs[i], done),
        Req::Any(cs) => cs.len() == 0 || exists|i: int|
            0 <= i < cs.len() && satisfied(#[trigger] cs[i], done),
    }
}

/// The least number of codes, outside `done`, that must still be taken for
/// `r` to hold.
pub open spec fn unlock(r: Req, done: Set<Seq<char>>) -> nat
    decreases r,
{
    match r {
        Req::Leaf(c) => if c.len() == 0 || done.contains(c) {
            0
        } else {
            1
        },
        Req::All(cs) => unlock_sum(cs, done),
        Req::Any(cs) => unlock_min(cs, done),
    }
}

pub open spec fn unlock_sum(cs: Seq<Req>, done: Set<Seq<char>>) -> nat
    decreases cs,
{
    if cs.len() == 0 {
        0
    } else {
        unlock_sum(cs.subrange(0, cs.len() - 1), done) + unlock(cs[cs.len() - 1], done)
    }
}

pub open spec fn unlock_min(cs: Seq<Req>, done: Set<Seq<char>>) -> nat
    decreases cs,
{
    if cs.len() == 0 {
        0
    } else if cs.len() == 1 {
        unlock(cs[0], done)
    } else {
        let a = unlock_min(cs.subrange(0, cs.len() - 1), done);
        let b = unlock(cs[cs.len() - 1], done);
        if b < a {
            b
        } else {
            a
        }
    }
}

/// A count clamped to what a `usize` holds.
pub open spec fn clamp(n: nat) -> int {
    if n > usize::MAX {
        usize::MAX as int
    } else {
        n as int
    }
}

/// Every non-empty code that occurs in `r`.
pub open spec fn leaves(r: Req) -> Set<Seq<char>>
    decreases r,
{
    match r {
        Req::Leaf(c) => if c.len() == 0 {
            Set::empty()
        } else {
            set![c]
        },
        Req::All(cs) => leaves_all(cs),
        Req::Any(cs) => leaves_all(cs),
    }
}

pub open spec fn leaves_all(cs: Seq<Req>) -> Set<Seq<char>>
    decreases cs,
{
    if cs.len() == 0 {
        Set::empty()
    } else {
        leaves_all(cs.subrange(0, cs.len() - 1)).union(leaves(cs[cs.len() - 1]))
    }
}

pub proof fn lemma_leaves_all(cs: Seq<Req>)
    ensures
        forall|i: int| 0 <= i < cs.len() ==> leaves(#[trigger] cs[i]).subset_of(leaves_all(cs)),
        forall|c: Seq<char>| leaves_all(cs).contains(c) ==> exists|i: int|
            0 <= i < cs.len() && leaves(#[trigger] cs[i]).contains(c),
    decreases cs.len(),
{
    if cs.len() > 0 {
        let p = cs.subrange(0, cs.len() - 1);
        lemma_leaves_all(p);
        assert forall|i: int| 0 <= i < cs.len() implies leaves(#[trigger] cs[i]).subset_of(leaves_all(cs)) by {
            if i < cs.len() - 1 {
                assert(cs[i] == p[i]);
            }
        };
        assert forall|c: Seq<char>| leaves_all(cs).contains(c) implies exists|i: int|
            0 <= i < cs.len() && leaves(#[trigger] cs[i]).contains(c) by {
            if leaves_all(p).contains(c) {
                let i = choose|i: int| 0 <= i < p.len() && leaves(#[trigger] p[i]).contains(c);
                assert(cs[i] == p[i]);
            }
        };
    }
}

/// What is left of `r` once `code` is done; `None` where nothing is left.
pub open spec fn resolve_opt(r: Req, code: Seq<char>) -> Option<Req>
    decreases r,
{
    match r {
        Req::Leaf(c) => if c == code || c.len() == 0 {
            None
        } else {
            Some(Req::Leaf(c))
        },
        Req::All(cs) => {
            let kept = resolve_all(cs, code);
            if kept.len() == 0 {
                None
            } else {
                Some(Req::All(kept))
            }
        },
        Req::Any(cs) => {
            let kept = resolve_all(cs, code);
            if kept.len() == cs.len() {
                Some(Req::Any(kept))
            } else {
                None
            }
        },
    }
}

/// The children of a node after resolving `code` in each, without those
/// that vanished.
pub open spec fn resolve_all(cs: Seq<Req>, code: Seq<char>) -> Seq<Req>
    decreases cs,
{
    if cs.len() == 0 {
        Seq::empty()
    } else {
        let prefix = resolve_all(cs.subrange(0, cs.len() - 1), code);
        match resolve_opt(cs[cs.len() - 1], code) {
            Some(x) => prefix.push(x),
            None => prefix,
        }
    }
}

/// Every combination of codes that satisfies `r` along its structure: a
/// leaf gives itself (the empty leaf one empty path), an `Or` the paths of
/// all its children, an `And` the woven paths of its children.
pub open spec fn paths(r: Req) -> Seq<Set<Seq<char>>>
    decreases r,
{
    match r {
        Req::Leaf(c) => if c.len() == 0 {
            seq![Set::empty()]
        } else {
            seq![set![c]]
        },
        Req::All(cs) => woven(paths_each(cs)),
        Req::Any(cs) => paths_any(cs),
    }
}

pub open spec fn paths_each(cs: Seq<Req>) -> Seq<Seq<Set<Seq<char>>>>
    decreases cs,
{
    if cs.len() == 0 {
        Seq::empty()
    } else {
        paths_each(cs.subrange(0, cs.len() - 1)).push(paths(cs[cs.len() - 1]))
    }
}

pub open spec fn paths_any(cs: Seq<Req>) -> Seq<Set<Seq<char>>>
    decreases cs,
{
    if cs.len() == 0 {
        Seq::empty()
    } else {
        paths_any(cs.subrange(0, cs.len() - 1)) + paths(cs[cs.len() - 1])
    }
}

/// The greedy short path: an `Or` takes the first of its children's greedy
/// paths with the fewest codes, an `And` unites those of all children.
pub open spec fn greedy(r: Req) -> Set<Seq<char>>
    decreases r,
{
    match r {
        Req::Leaf(c) => if c.len() == 0 {
            Set::empty()
        } else {
            set![c]
        },
        Req::All(cs) => greedy_all(cs),
        Req::Any(cs) => greedy_any(cs),
    }
}

pub open spec fn greedy_all(cs: Seq<Req>) -> Set<Seq<char>>
    decreases cs,
{
    if cs.len() == 0 {
        Set::empty()
    } else {
        greedy_all(cs.subrange(0, cs.len() - 1)).union(greedy(cs[cs.len() - 1]))
    }
}

pub open spec fn greedy_any(cs: Seq<Req>) -> Set<Seq<char>>
    decreases cs,
{
    if cs.len() == 0 {
        Set::empty()
    } else if cs.len() == 1 {
        greedy(cs[0])
    } else {
        let a = greedy_any(cs.subrange(0, cs.len() - 1));
        let b = greedy(cs[cs.len() - 1]);
        if b.len() < a.len() {
            b
        } else {
            a
        }
    }
}

/// The first of the paths `ps` with the fewest codes among those holding
/// every code of `req`.
pub open spec fn shortest_with(ps: Seq<Set<Seq<char>>>, req: Set<Seq<char>>) -> Option<
    Set<Seq<char>>,
>
    decreases ps.len(),
{
    if ps.len() == 0 {
        None
    } else {
        let best = shortest_with(ps.subrange(0, ps.len() - 1), req);
        let p = ps[ps.len() - 1];
        if req.subset_of(p) && (best is None || p.len() < best->0.len()) {
            Some(p)
        } else {
            best
        }
    }
}

/// `r` restricted to the codes in `keep`; `None` for a leaf outside it.
pub open spec fn retained(r: Req, keep: Set<Seq<char>>) -> Option<Req>
    decreases r,
{
    match r {
        Req::Leaf(c) => if keep.contains(c) {
            Some(Req::Leaf(c))
        } else {
            None
        },
        Req::All(cs) => Some(Req::All(retained_all(cs, keep))),
        Req::Any(cs) => Some(Req::Any(retained_all(cs, keep))),
    }
}

pub open spec fn retained_all(cs: Seq<Req>, keep: Set<Seq<char>>) -> Seq<Req>
    decreases cs,
{
    if cs.len() == 0 {
        Seq::empty()
    } else {
        let prefix = retained_all(cs.subrange(0, cs.len() - 1), keep);
        match retained(cs[cs.len() - 1], keep) {
            Some(x) => prefix.push(x),
            None => prefix,
        }
    }
}

/// `r` with `code` treated as done.
pub open spec fn resolved(r: Req, code: Seq<char>) -> Req {
    match resolve_opt(r, code) {
        Some(x) => x,
        None => blank(),
    }
}

/// A child of a node is smaller than the node.
/// The children of a node; a leaf has none.
pub open spec fn children(r: Req) -> Seq<Req> {
    match r {
        Req::Leaf(_) => Seq::empty(),
        Req::All(cs) => cs,
        Req::Any(cs) => cs,
    }
}

/// A child of a requirement is smaller than the requirement.
pub proof fn lemma_req_child(r: Req, i: int)
    requires
        0 <= i < children(r).len(),
    ensures
        decreases_to!(r => children(r)[i]),
{
    match r {
        Req::Leaf(_) => {},
        Req::All(cs) => {
            assert(decreases_to!(r => cs));
            assert(decreases_to!(cs => cs[i]));
        },
        Req::Any(cs) => {
            assert(decreases_to!(r => cs));
            assert(decreases_to!(cs => cs[i]));
        },
    }
}

/// A child of a node is smaller than the node.
pub proof fn lemma_child_decreases(t: PrereqTree, cs: Vec<PrereqTree>, i: int)
    requires
        t == (PrereqTree::And { and: cs }) || t == (PrereqTree::Or { or: cs }),
        0 <= i < cs@.len(),
    ensures
        decreases_to!(t => cs@[i]),
{
    assert(decreases_to!(cs => cs@));
    assert(decreases_to!(cs@ => cs@[i]));
    if t is And {
        assert(decreases_to!(t => t->and));
    } else {
        assert(decreases_to!(t => t->or));
    }
}

pub proof fn lemma_views_push(s: Seq<PrereqTree>, x: PrereqTree)
    ensures
        views(s.push(x)) == views(s).push(x@),
{
    assert(s.push(x).subrange(0, s.len() as int) =~= s);
}

impl Clone for PrereqTree {
    fn clone(&self) -> (r: Self)
        ensures
            r@ == self@,
        decreases self,
    {
        match self {
            PrereqTree::Only(s) => PrereqTree::Only(s.clone()),
            PrereqTree::And { and } => PrereqTree::And { and: clone_all(and) },
            PrereqTree::Or { or } => PrereqTree::Or { or: clone_all(or) },
        }
    }
}

fn clone_all(v: &Vec<PrereqTree>) -> (r: Vec<PrereqTree>)
    ensures
        views(r@) == views(v@),
    decreases v,
{
    let mut out: Vec<PrereqTree> = Vec::new();
    let mut i: usize = 0;
    while i < v.len()
        invariant
            i <= v.len(),
            out@.len() == i,
            forall|j: int| 0 <= j < i ==> #[trigger] out@[j]@ == v@[j]@,
        decreases v.len() - i,
    {
        assert(decreases_to!(v => v@[i as int]));
        out.push(v[i].clone());
        i += 1;
    }
    proof {
        lemma_views(out@);
        lemma_views(v@);
        assert(views(out@) =~= views(v@));
    }
    out
}

impl PrereqTree {
    /// The empty requirement.
    pub fn empty() -> (r: Self)
        ensures
            r@ == blank(),
    {
        PrereqTree::Only(String::new())
    }

    /// A requirement of exactly one code.
    pub fn only(code: &str) -> (r: Self)
        ensures
            r@ == Req::Leaf(code@),
    {
        PrereqTree::Only(code.to_owned())
    }

    /// Whether this is the empty requirement.
    pub fn is_empty(&self) -> (r: bool)
        ensures
            r == is_blank(self@),
    {
        match self {
            PrereqTree::Only(s) => s.as_str().is_empty(),
            _ => false,
        }
    }

    /// Whether the code set `done` satisfies this tree.
    #[verifier::loop_isolation(false)]
    pub fn satisfied_by(&self, done: &Vec<String>) -> (r: bool)
        ensures
            r == satisfied(self@, code_set(done@)),
        decreases self,
    {
        match self {
            PrereqTree::Only(s) => s.as_str().is_empty() || has_code(done, s),
            PrereqTree::And { and } => {
                proof { lemma_views(and@); assert(self@ == Req::All(views(and@))); }
                let mut i: usize = 0;
                while i < and.len()
                    invariant
                        i <= and.len(),
                        views(and@).len() == and@.len(),
                        forall|j: int| 0 <= j < and@.len() ==> #[trigger] views(and@)[j] == and@[j]@,
                        forall|j: int| 0 <= j < i ==> satisfied(#[trigger] views(and@)[j], code_set(done@)),
                    decreases and.len() - i,
                {
                    proof { lemma_child_decreases(*self, *and, i as int); }
                    if !and[i].satisfied_by(done) {
                        assert(!satisfied(views(and@)[i as int], code_set(done@)));
                        proof { lemma_req_child(Req::All(views(and@)), i as int); }
                        assert(!satisfied(Req::All(views(and@)), code_set(done@)));
                        return false;
                    }
                    i += 1;
                }
                true
            },
            PrereqTree::Or { or } => {
                proof { lemma_views(or@); assert(self@ == Req::Any(views(or@))); }
                if or.len() == 0 {
                    return true;
                }
                let mut i: usize = 0;
                while i < or.len()
                    invariant
                        i <= or.len(),
                        views(or@).len() == or@.len(),
                        forall|j: int| 0 <= j < or@.len() ==> #[trigger] views(or@)[j] == or@[j]@,
                        forall|j: int| 0 <= j < i ==> !satisfied(#[trigger] views(or@)[j], code_set(done@)),
                    decreases or.len() - i,
                {
                    proof { lemma_child_decreases(*self, *or, i as int); }
                    if or[i].satisfied_by(done) {
                        assert(satisfied(views(or@)[i as int], code_set(done@)));
                        return true;
                    }
                    i += 1;
                }
                false
            },
        }
    }
}


impl PrereqTree {
    /// The least number of codes outside `done` that must still be taken;
    /// counts past `usize::MAX` stay there.
    #[verifier::loop_isolation(false)]
    pub fn left_to_unlock(&self, done: &Vec<String>) -> (r: usize)
        ensures
            r == clamp(unlock(self@, code_set(done@))),
        decreases self,
    {
        let ghost d = code_set(done@);
        match self {
            PrereqTree::Only(s) => {
                if s.as_str().is_empty() || has_code(done, s) {
                    0
                } else {
                    1
                }
            },
            PrereqTree::And { and } => {
                let ghost cs = views(and@);
                proof { lemma_views(and@); assert(self@ == Req::All(cs)); }
                let mut acc: usize = 0;
                let mut i: usize = 0;
                while i < and.len()
                    invariant
                        i <= and.len(),
                        acc == clamp(unlock_sum(cs.subrange(0, i as int), d)),
                    decreases and.len() - i,
                {
                    proof { lemma_child_decreases(*self, *and, i as int); }
                    let x = and[i].left_to_unlock(done);
                    proof {
                        assert(cs.subrange(0, i + 1).subrange(0, i as int) =~= cs.subrange(0, i as int));
                    }
                    acc = if acc > usize::MAX - x { usize::MAX } else { acc + x };
                    i += 1;
                }
                assert(cs.subrange(0, i as int) =~= cs);
                acc
            },
            PrereqTree::Or { or } => {
                let ghost cs = views(or@);
                proof { lemma_views(or@); assert(self@ == Req::Any(cs)); }
                if or.len() == 0 {
                    return 0;
                }
                proof { lemma_child_decreases(*self, *or, 0); }
                let mut acc: usize = or[0].left_to_unlock(done);
                assert(cs.subrange(0, 1)[0] == cs[0]);
                let mut i: usize = 1;
                while i < or.len()
                    invariant
                        1 <= i <= or.len(),
                        acc == clamp(unlock_min(cs.subrange(0, i as int), d)),
                    decreases or.len() - i,
                {
                    proof { lemma_child_decreases(*self, *or, i as int); }
                    let x = or[i].left_to_unlock(done);
                    proof {
                        assert(cs.subrange(0, i + 1).subrange(0, i as int) =~= cs.subrange(0, i as int));
                    }
                    if x < acc {
                        acc = x;
                    }
                    i += 1;
                }
                assert(cs.subrange(0, i as int) =~= cs);
                acc
            },
        }
    }

    /// The least number of codes that must be taken, with nothing done;
    /// counts past `usize::MAX` stay there.
    pub fn min_to_unlock(&self) -> (r: usize)
        ensures
            r == clamp(unlock(self@, Set::empty())),
    {
        let none: Vec<String> = Vec::new();
        assert(code_set(none@) =~= Set::<Seq<char>>::empty());
        self.left_to_unlock(&none)
    }

    /// Whether `code` occurs as a leaf anywhere in the tree.
    pub fn contains_code(&self, code: &str) -> (r: bool)
        ensures
            r == leaves(self@).contains(code@),
    {
        let c = code.to_owned();
        self.has_leaf(&c)
    }

    #[verifier::loop_isolation(false)]
    fn has_leaf(&self, c: &String) -> (r: bool)
        ensures
            r == leaves(self@).contains(c@),
        decreases self,
    {
        match self {
            PrereqTree::Only(s) => !s.as_str().is_empty() && *s == *c,
            PrereqTree::And { and: v } | PrereqTree::Or { or: v } => {
                let ghost cs = views(v@);
                proof {
                    lemma_views(v@);
                    assert(leaves(self@) == leaves_all(cs));
                }
                let mut i: usize = 0;
                while i < v.len()
                    invariant
                        i <= v.len(),
                        !leaves_all(cs.subrange(0, i as int)).contains(c@),
                    decreases v.len() - i,
                {
                    proof {
                        lemma_child_decreases(*self, *v, i as int);
                        assert(cs.subrange(0, i + 1).subrange(0, i as int) =~= cs.subrange(0, i as int));
                    }
                    if v[i].has_leaf(c) {
                        proof {
                            lemma_leaves_all(cs);
                            assert(leaves(cs[i as int]).contains(c@));
                        }
                        return true;
                    }
                    i += 1;
                }
                assert(cs.subrange(0, i as int) =~= cs);
                false
            },
        }
    }

    /// Every code of the tree, each once, in no particular order.
    pub fn flatten(&self) -> (r: Vec<String>)
        ensures
            distinct(r@),
            code_set(r@) == leaves(self@),
    {
        let mut out: Vec<String> = Vec::new();
        assert(code_set(out@) =~= Set::<Seq<char>>::empty());
        self.collect_leaves(&mut out);
        assert(code_set(out@) =~= leaves(self@));
        out
    }

    #[verifier::loop_isolation(false)]
    fn collect_leaves(&self, out: &mut Vec<String>)
        requires
            distinct(old(out)@),
        ensures
            distinct(final(out)@),
            code_set(final(out)@) == code_set(old(out)@).union(leaves(self@)),
        decreases self,
    {
        match self {
            PrereqTree::Only(s) => {
                if !s.as_str().is_empty() {
                    push_new(out, s.clone());
                    assert(code_set(out@) =~= code_set(old(out)@).union(leaves(self@)));
                } else {
                    assert(code_set(out@) =~= code_set(old(out)@).union(leaves(self@)));
                }
            },
            PrereqTree::And { and: v } | PrereqTree::Or { or: v } => {
                let ghost cs = views(v@);
                proof {
                    lemma_views(v@);
                    assert(leaves(self@) == leaves_all(cs));
                }
                let mut i: usize = 0;
                assert(code_set(out@) =~= code_set(old(out)@).union(leaves_all(cs.subrange(0, 0))));
                while i < v.len()
                    invariant
                        i <= v.len(),
                        distinct(out@),
                        code_set(out@) == code_set(old(out)@).union(leaves_all(cs.subrange(0, i as int))),
                    decreases v.len() - i,
                {
                    proof {
                        lemma_child_decreases(*self, *v, i as int);
                        assert(cs.subrange(0, i + 1).subrange(0, i as int) =~= cs.subrange(0, i as int));
                    }
                    v[i].collect_leaves(out);
                    assert(code_set(out@) =~= code_set(old(out)@).union(leaves_all(cs.subrange(0, i + 1))));
                    i += 1;
                }
                assert(cs.subrange(0, i as int) =~= cs);
            },
        }
    }
}


impl PrereqTree {
    /// This tree with `code` treated as done. A leaf of that code vanishes,
    /// an `And` loses the children that vanished and vanishes with the
    /// last of them, and an `Or` vanishes as soon as one child does. A
    /// tree that vanishes entirely becomes the empty requirement.
    pub fn resolved(&self, code: &str) -> (r: PrereqTree)
        ensures
            r@ == resolved(self@, code@),
    {
        let c = code.to_owned();
        match self.resolve_part(&c) {
            Some(t) => t,
            None => PrereqTree::empty(),
        }
    }

    /// Treats `code` as done, in place; see `resolved`.
    pub fn resolve(&mut self, code: &str)
        ensures
            final(self)@ == resolved(old(self)@, code@),
    {
        *self = self.resolved(code);
    }

    #[verifier::loop_isolation(false)]
    fn resolve_part(&self, c: &String) -> (r: Option<PrereqTree>)
        ensures
            match r {
                Some(t) => resolve_opt(self@, c@) == Some(t@),
                None => resolve_opt(self@, c@) is None,
            },
        decreases self,
    {
        match self {
            PrereqTree::Only(s) => {
                if *s == *c || s.as_str().is_empty() {
                    None
                } else {
                    Some(PrereqTree::Only(s.clone()))
                }
            },
            PrereqTree::And { and: v } | PrereqTree::Or { or: v } => {
                let ghost cs = views(v@);
                proof { lemma_views(v@); }
                let mut kept: Vec<PrereqTree> = Vec::new();
                let mut i: usize = 0;
                while i < v.len()
                    invariant
                        i <= v.len(),
                        views(kept@) == resolve_all(cs.subrange(0, i as int), c@),
                    decreases v.len() - i,
                {
                    proof {
                        lemma_child_decreases(*self, *v, i as int);
                        assert(cs.subrange(0, i + 1).subrange(0, i as int) =~= cs.subrange(0, i as int));
                    }
                    match v[i].resolve_part(c) {
                        Some(t) => {
                            proof { lemma_views_push(kept@, t); }
                            kept.push(t);
                        },
                        None => {},
                    }
                    i += 1;
                }
                assert(cs.subrange(0, i as int) =~= cs);
                proof { lemma_views(kept@); }
                if self.is_and() {
                    assert(self@ == Req::All(cs));
                    if kept.len() == 0 {
                        None
                    } else {
                        Some(PrereqTree::And { and: kept })
                    }
                } else {
                    assert(self@ == Req::Any(cs));
                    if kept.len() == v.len() {
                        Some(PrereqTree::Or { or: kept })
                    } else {
                        None
                    }
                }
            },
        }
    }

    fn is_and(&self) -> (r: bool)
        ensures
            r == (self is And),
    {
        match self {
            PrereqTree::And { .. } => true,
            _ => false,
        }
    }

    /// The tree restricted to the codes in `keep`: leaves outside it are
    /// dropped, and a tree that is a single such leaf gives `None`.
    #[verifier::loop_isolation(false)]
    pub fn retain(&self, keep: &Vec<String>) -> (r: Option<PrereqTree>)
        ensures
            match r {
                Some(t) => retained(self@, code_set(keep@)) == Some(t@),
                None => retained(self@, code_set(keep@)) is None,
            },
        decreases self,
    {
        match self {
            PrereqTree::Only(s) => {
                if has_code(keep, s) {
                    Some(PrereqTree::Only(s.clone()))
                } else {
                    None
                }
            },
            PrereqTree::And { and: v } | PrereqTree::Or { or: v } => {
                let ghost cs = views(v@);
                let ghost k = code_set(keep@);
                proof { lemma_views(v@); }
                let mut out: Vec<PrereqTree> = Vec::new();
                let mut i: usize = 0;
                while i < v.len()
                    invariant
                        i <= v.len(),
                        views(out@) == retained_all(cs.subrange(0, i as int), k),
                    decreases v.len() - i,
                {
                    proof {
                        lemma_child_decreases(*self, *v, i as int);
                        assert(cs.subrange(0, i + 1).subrange(0, i as int) =~= cs.subrange(0, i as int));
                    }
                    match v[i].retain(keep) {
                        Some(t) => {
                            proof { lemma_views_push(out@, t); }
                            out.push(t);
                        },
                        None => {},
                    }
                    i += 1;
                }
                assert(cs.subrange(0, i as int) =~= cs);
                if self.is_and() {
                    assert(self@ == Req::All(cs));
                    Some(PrereqTree::And { and: out })
                } else {
                    assert(self@ == Req::Any(cs));
                    Some(PrereqTree::Or { or: out })
                }
            },
        }
    }
}


/// Whether every code of `req` is in `p`.
fn contains_all(p: &Vec<String>, req: &Vec<String>) -> (r: bool)
    ensures
        r == code_set(req@).subset_of(code_set(p@)),
{
    let mut i: usize = 0;
    while i < req.len()
        invariant
            i <= req.len(),
            forall|j: int| 0 <= j < i ==> code_set(p@).contains(#[trigger] req@[j]@),
        decreases req.len() - i,
    {
        if !has_code(p, &req[i]) {
            assert(code_set(req@).contains(req@[i as int]@));
            return false;
        }
        i += 1;
    }
    true
}

impl PrereqTree {
    /// Every path that satisfies the tree along its structure, each path
    /// without repeats; see `paths`.
    #[verifier::loop_isolation(false)]
    pub fn all_paths(&self) -> (r: Vec<Vec<String>>)
        ensures
            path_sets(r@) == paths(self@),
            all_distinct(r@),
        decreases self,
    {
        match self {
            PrereqTree::Only(s) => {
                let mut p: Vec<String> = Vec::new();
                if !s.as_str().is_empty() {
                    p.push(s.clone());
                    proof { crate::codes::lemma_code_set_push(Seq::<String>::empty(), *s); }
                    assert(p@ =~= Seq::<String>::empty().push(*s));
                    assert(code_set(p@) =~= set![s@]);
                } else {
                    proof { lemma_code_set_empty(p@); }
                }
                let mut out: Vec<Vec<String>> = Vec::new();
                out.push(p);
                assert(path_sets(out@) =~= paths(self@));
                out
            },
            PrereqTree::And { and: v } => {
                let ghost cs = views(v@);
                proof { lemma_views(v@); assert(self@ == Req::All(cs)); }
                let mut llp: Vec<Vec<Vec<String>>> = Vec::new();
                let mut i: usize = 0;
                assert(branch_sets(llp@) =~= paths_each(cs.subrange(0, 0)));
                while i < v.len()
                    invariant
                        i <= v.len(),
                        branch_sets(llp@) == paths_each(cs.subrange(0, i as int)),
                    decreases v.len() - i,
                {
                    proof {
                        lemma_child_decreases(*self, *v, i as int);
                        assert(cs.subrange(0, i + 1).subrange(0, i as int) =~= cs.subrange(0, i as int));
                    }
                    let ps = v[i].all_paths();
                    assert(branch_sets(llp@.push(ps)) =~= branch_sets(llp@).push(path_sets(ps@)));
                    llp.push(ps);
                    i += 1;
                }
                assert(cs.subrange(0, i as int) =~= cs);
                weave(&llp)
            },
            PrereqTree::Or { or: v } => {
                let ghost cs = views(v@);
                proof { lemma_views(v@); assert(self@ == Req::Any(cs)); }
                let mut out: Vec<Vec<String>> = Vec::new();
                let mut i: usize = 0;
                assert(path_sets(out@) =~= paths_any(cs.subrange(0, 0)));
                while i < v.len()
                    invariant
                        i <= v.len(),
                        path_sets(out@) == paths_any(cs.subrange(0, i as int)),
                        all_distinct(out@),
                    decreases v.len() - i,
                {
                    proof {
                        lemma_child_decreases(*self, *v, i as int);
                        assert(cs.subrange(0, i + 1).subrange(0, i as int) =~= cs.subrange(0, i as int));
                    }
                    let mut ps = v[i].all_paths();
                    let ghost o = out@;
                    let ghost q = ps@;
                    out.append(&mut ps);
                    assert(path_sets(o + q) =~= path_sets(o) + path_sets(q));
                    assert(out@ == o + q);
                    assert forall|k: int| 0 <= k < out@.len() implies distinct(#[trigger] out@[k]@) by {
                        if k < o.len() {
                            assert(out@[k] == o[k]);
                        } else {
                            assert(out@[k] == q[k - o.len()]);
                        }
                    };
                    i += 1;
                }
                assert(cs.subrange(0, i as int) =~= cs);
                out
            },
        }
    }

    /// One short satisfying path, chosen greedily; see `greedy`. It need not
    /// be the shortest overall when siblings share codes.
    #[verifier::loop_isolation(false)]
    pub fn min_path(&self) -> (r: Vec<String>)
        ensures
            distinct(r@),
            code_set(r@) == greedy(self@),
        decreases self,
    {
        match self {
            PrereqTree::Only(s) => {
                let mut p: Vec<String> = Vec::new();
                if !s.as_str().is_empty() {
                    p.push(s.clone());
                    proof { crate::codes::lemma_code_set_push(Seq::<String>::empty(), *s); }
                    assert(p@ =~= Seq::<String>::empty().push(*s));
                    assert(code_set(p@) =~= set![s@]);
                } else {
                    proof { lemma_code_set_empty(p@); }
                }
                p
            },
            PrereqTree::And { and: v } => {
                let ghost cs = views(v@);
                proof { lemma_views(v@); assert(self@ == Req::All(cs)); }
                let mut out: Vec<String> = Vec::new();
                let mut i: usize = 0;
                proof { lemma_code_set_empty(out@); }
                assert(code_set(out@) =~= greedy_all(cs.subrange(0, 0)));
                while i < v.len()
                    invariant
                        i <= v.len(),
                        distinct(out@),
                        code_set(out@) == greedy_all(cs.subrange(0, i as int)),
                    decreases v.len() - i,
                {
                    proof {
                        lemma_child_decreases(*self, *v, i as int);
                        assert(cs.subrange(0, i + 1).subrange(0, i as int) =~= cs.subrange(0, i as int));
                    }
                    let p = v[i].min_path();
                    let ghost before = code_set(out@);
                    let mut j: usize = 0;
                    while j < p.len()
                        invariant
                            j <= p.len(),
                            distinct(out@),
                            code_set(out@) == before.union(code_set(p@.subrange(0, j as int))),
                        decreases p.len() - j,
                    {
                        proof {
                            assert(p@.subrange(0, j + 1) =~= p@.subrange(0, j as int).push(p@[j as int]));
                            crate::codes::lemma_code_set_push(p@.subrange(0, j as int), p@[j as int]);
                        }
                        push_new(&mut out, p[j].clone());
                        assert(code_set(out@) =~= before.union(code_set(p@.subrange(0, j + 1))));
                        j += 1;
                    }
                    assert(p@.subrange(0, j as int) =~= p@);
                    i += 1;
                }
                assert(cs.subrange(0, i as int) =~= cs);
                out
            },
            PrereqTree::Or { or: v } => {
                let ghost cs = views(v@);
                proof { lemma_views(v@); assert(self@ == Req::Any(cs)); }
                if v.len() == 0 {
                    let e: Vec<String> = Vec::new();
                    proof { lemma_code_set_empty(e@); }
                    return e;
                }
                proof { lemma_child_decreases(*self, *v, 0); }
                let mut best = v[0].min_path();
                assert(cs.subrange(0, 1)[0] == cs[0]);
                let mut i: usize = 1;
                while i < v.len()
                    invariant
                        1 <= i <= v.len(),
                        distinct(best@),
                        code_set(best@) == greedy_any(cs.subrange(0, i as int)),
                    decreases v.len() - i,
                {
                    proof {
                        lemma_child_decreases(*self, *v, i as int);
                        assert(cs.subrange(0, i + 1).subrange(0, i as int) =~= cs.subrange(0, i as int));
                    }
                    let p = v[i].min_path();
                    proof {
                        lemma_distinct_len(p@);
                        lemma_distinct_len(best@);
                    }
                    if p.len() < best.len() {
                        best = p;
                    }
                    i += 1;
                }
                assert(cs.subrange(0, i as int) =~= cs);
                best
            },
        }
    }

    /// Among all paths, the first with the fewest codes that holds every
    /// code of `required`; `None` where no path does.
    pub fn min_path_filtered(&self, required: &Vec<String>) -> (r: Option<Vec<String>>)
        ensures
            match r {
                Some(p) => distinct(p@) && shortest_with(paths(self@), code_set(required@)) == Some(
                    code_set(p@),
                ),
                None => shortest_with(paths(self@), code_set(required@)) is None,
            },
    {
        let mut ps = self.all_paths();
        let ghost sets = path_sets(ps@);
        let ghost req = code_set(required@);
        let mut best: Option<usize> = None;
        let mut i: usize = 0;
        while i < ps.len()
            invariant
                i <= ps.len(),
                sets == path_sets(ps@),
                sets == paths(self@),
                req == code_set(required@),
                all_distinct(ps@),
                match best {
                    Some(b) => b < i && shortest_with(sets.subrange(0, i as int), req) == Some(sets[b as int]),
                    None => shortest_with(sets.subrange(0, i as int), req) is None,
                },
            decreases ps.len() - i,
        {
            proof {
                assert(sets.subrange(0, i + 1).subrange(0, i as int) =~= sets.subrange(0, i as int));
                lemma_distinct_len(ps@[i as int]@);
                assert(sets[i as int] == code_set(ps@[i as int]@));
                assert(sets.subrange(0, i + 1)[i as int] == sets[i as int]);
            }
            let ok = contains_all(&ps[i], required);
            proof {
                let pre = sets.subrange(0, i as int);
                assert(sets.subrange(0, i + 1).subrange(0, i + 1 - 1) == pre);
                assert(shortest_with(sets.subrange(0, i + 1), req) == {
                    let best = shortest_with(pre, req);
                    let p = sets[i as int];
                    if req.subset_of(p) && (best is None || p.len() < best->0.len()) {
                        Some(p)
                    } else {
                        best
                    }
                });
            }
            if ok {
                match best {
                    None => {
                        best = Some(i);
                    },
                    Some(b) => {
                        proof {
                            lemma_distinct_len(ps@[b as int]@);
                            assert(sets[b as int] == code_set(ps@[b as int]@));
                        }
                        if ps[i].len() < ps[b].len() {
                            best = Some(i);
                        }
                    },
                }
            }
            i += 1;
        }
        assert(sets.subrange(0, i as int) =~= sets);
        match best {
            Some(b) => {
                let p = ps.swap_remove(b);
                Some(p)
            },
            None => None,
        }
    }
}


/// A requirement up to the order of children: each level holds a multiset.
pub enum Shape {
    Code(Seq<char>),
    Every(Multiset<Shape>),
    OneOf(Multiset<Shape>),
}

pub open spec fn shape(r: Req) -> Shape
    decreases r,
{
    match r {
        Req::Leaf(c) => Shape::Code(c),
        Req::All(cs) => Shape::Every(shapes(cs).to_multiset()),
        Req::Any(cs) => Shape::OneOf(shapes(cs).to_multiset()),
    }
}

pub open spec fn shapes(cs: Seq<Req>) -> Seq<Shape>
    decreases cs,
{
    if cs.len() == 0 {
        Seq::empty()
    } else {
        shapes(cs.subrange(0, cs.len() - 1)).push(shape(cs[cs.len() - 1]))
    }
}

pub proof fn lemma_shapes(cs: Seq<Req>)
    ensures
        shapes(cs).len() == cs.len(),
        forall|i: int| 0 <= i < cs.len() ==> #[trigger] shapes(cs)[i] == shape(cs[i]),
    decreases cs.len(),
{
    if cs.len() > 0 {
        lemma_shapes(cs.subrange(0, cs.len() - 1));
    }
}

impl PrereqTree {
    /// Whether two trees are equal up to the order of the children at each
    /// level.
    #[verifier::loop_isolation(false)]
    fn same_shape(&self, other: &PrereqTree) -> (r: bool)
        ensures
            r == (shape(self@) == shape(other@)),
        decreases self,
    {
        match (self, other) {
            (PrereqTree::Only(x), PrereqTree::Only(y)) => *x == *y,
            (PrereqTree::And { and: xs }, PrereqTree::And { and: ys })
            | (PrereqTree::Or { or: xs }, PrereqTree::Or { or: ys }) => {
                let ghost sx = shapes(views(xs@));
                let ghost sy = shapes(views(ys@));
                proof {
                    lemma_views(xs@);
                    lemma_views(ys@);
                    lemma_shapes(views(xs@));
                    lemma_shapes(views(ys@));
                }
                if xs.len() != ys.len() {
                    proof {
                        if self is And {
                            assert(self@ == Req::All(views(xs@)));
                            assert(other@ == Req::All(views(ys@)));
                        } else {
                            assert(self@ == Req::Any(views(xs@)));
                            assert(other@ == Req::Any(views(ys@)));
                        }
                        sx.to_multiset_ensures();
                        sy.to_multiset_ensures();
                    }
                    return false;
                }
                let mut rem: Vec<usize> = Vec::new();
                let mut k: usize = 0;
                while k < ys.len()
                    invariant
                        k <= ys.len(),
                        rem@ == Seq::new(k as nat, |j: int| j as usize),
                    decreases ys.len() - k,
                {
                    rem.push(k);
                    assert(rem@ =~= Seq::new((k + 1) as nat, |j: int| j as usize));
                    k += 1;
                }
                assert(Seq::new(rem@.len(), |j: int| sy[rem@[j] as int]) =~= sy);
                assert(sx.subrange(0, sx.len() as int) =~= sx);
                let mut i: usize = 0;
                while i < xs.len()
                    invariant
                        i <= xs.len(),
                        forall|j: int| 0 <= j < rem@.len() ==> rem@[j] < ys.len(),
                        (sx.to_multiset() == sy.to_multiset()) == (sx.subrange(i as int, sx.len() as int).to_multiset()
                            == Seq::new(rem@.len(), |j: int| sy[rem@[j] as int]).to_multiset()),
                    decreases xs.len() - i,
                {
                    proof { lemma_child_decreases(*self, *xs, i as int); }
                    let ghost remsh = Seq::new(rem@.len(), |j: int| sy[rem@[j] as int]);
                    let ghost tail = sx.subrange(i + 1, sx.len() as int);
                    proof {
                        assert(sx.subrange(i as int, sx.len() as int) =~= seq![sx[i as int]] + tail);
                        vstd::seq_lib::lemma_multiset_commutative(seq![sx[i as int]], tail);
                        seq![sx[i as int]].to_multiset_ensures();
                        Seq::<Shape>::empty().to_multiset_ensures();
                        assert(seq![sx[i as int]] =~= Seq::<Shape>::empty().push(sx[i as int]));
                    }
                    let mut k: usize = 0;
                    let mut found = false;
                    while k < rem.len() && !found
                        invariant
                            k <= rem.len(),
                            forall|j: int| 0 <= j < rem@.len() ==> rem@[j] < ys.len(),
                            !found ==> forall|j: int| 0 <= j < k ==> sy[rem@[j] as int] != sx[i as int],
                            found ==> k < rem.len() && sy[rem@[k as int] as int] == sx[i as int],
                        decreases rem.len() - k + (if found { 0int } else { 1int }),
                    {
                        if xs[i].same_shape(&ys[rem[k]]) {
                            found = true;
                        } else {
                            k += 1;
                        }
                    }
                    if !found {
                        proof {
                            remsh.to_multiset_ensures();
                            vstd::seq_lib::to_multiset_contains(remsh, sx[i as int]);
                            assert(!remsh.contains(sx[i as int]));
                            assert(sx.subrange(i as int, sx.len() as int).to_multiset().count(sx[i as int]) > 0);
                        }
                        return false;
                    }
                    proof {
                        let x = sx[i as int];
                        let a = tail.to_multiset();
                        let b = remsh.to_multiset();
                        assert(remsh[k as int] == x);
                        vstd::seq_lib::to_multiset_remove(remsh, k as int);
                        vstd::seq_lib::to_multiset_contains(remsh, x);
                        assert(remsh.contains(x));
                        assert(sx.subrange(i as int, sx.len() as int).to_multiset() =~= a.insert(x));
                        if a.insert(x) == b {
                            assert(a =~= b.remove(x));
                        }
                        if a == b.remove(x) {
                            assert(a.insert(x) =~= b);
                        }
                        assert(sx.subrange(i + 1, sx.len() as int) == tail);
                        assert(Seq::new((rem@.len() - 1) as nat, |j: int| sy[rem@.remove(k as int)[j] as int]) =~= remsh.remove(k as int));
                    }
                    rem.remove(k);
                    i += 1;
                }
                proof {
                    if self is And {
                        assert(self@ == Req::All(views(xs@)));
                        assert(other@ == Req::All(views(ys@)));
                    } else {
                        assert(self@ == Req::Any(views(xs@)));
                        assert(other@ == Req::Any(views(ys@)));
                    }
                    assert(sx.subrange(i as int, sx.len() as int) =~= Seq::<Shape>::empty());
                    Seq::<Shape>::empty().to_multiset_ensures();
                    let remsh = Seq::new(rem@.len(), |j: int| sy[rem@[j] as int]);
                    remsh.to_multiset_ensures();
                    if rem@.len() == 0 {
                        assert(remsh =~= Seq::<Shape>::empty());
                    }
                }
                rem.len() == 0
            },
            _ => false,
        }
    }
}

impl PartialEq for PrereqTree {
    fn eq(&self, other: &PrereqTree) -> (r: bool) {
        self.same_shape(other)
    }
}

impl vstd::std_specs::cmp::PartialEqSpecImpl for PrereqTree {
    open spec fn obeys_eq_spec() -> bool {
        true
    }

    open spec fn eq_spec(&self, other: &PrereqTree) -> bool {
        shape(self@) == shape(other@)
    }
}

} // verus!
