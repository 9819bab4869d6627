use vstd::prelude::*;
use crate::codes::{code_set, distinct, has_code, push_new};
use crate::error::Error;
use crate::tree::{leaves, PrereqTree, Req};

verus! {

/// The rounds of fetching that may leave codes missing before the closure
/// is given up.
pub const MAX_ATTEMPTS: usize = 5;

/// Collects the trees of every code that some goal leads to. Each round the
/// caller fetches the pending codes and hands back what it found; codes
/// found lead on to the codes of their trees.
pub struct ClosureLoader {
    goals: Vec<String>,
    known: Vec<(String, PrereqTree)>,
    pending: Vec<String>,
    failures: usize,
}

/// What the caller is to do next.
pub enum Step {
    /// Fetch the trees of these codes and hand them to `receive`.
    Fetch(Vec<String>),
    /// The closure is complete: every code that the goals lead to, with its tree.
    Done(Vec<(String, PrereqTree)>),
    /// Codes went missing in too many rounds.
    Failed(Error),
}

pub open spec fn known_codes(known: Seq<(String, PrereqTree)>) -> Set<Seq<char>> {
    Set::new(|c: Seq<char>| exists|i: int| 0 <= i < known.len() && (#[trigger] known[i]).0@ == c)
}

/// The known entries as codes and trees.
pub open spec fn known_views(known: Seq<(String, PrereqTree)>) -> Seq<(Seq<char>, Req)> {
    known.map_values(|e: (String, PrereqTree)| (e.0@, e.1@))
}

/// No code is known twice.
pub open spec fn codes_distinct(known: Seq<(String, PrereqTree)>) -> bool {
    forall|i: int, j: int| 0 <= i < known.len() && 0 <= j < known.len() && i != j ==> (#[trigger] known[i]).0@
        != (#[trigger] known[j]).0@
}

/// `fetched` holds a tree for `c`.
pub open spec fn found_in(fetched: Seq<(String, Option<PrereqTree>)>, c: Seq<char>) -> bool {
    exists|q: int| 0 <= q < fetched.len() && (#[trigger] fetched[q]).0@ == c && fetched[q].1 is Some
}

/// The tree of the first entry of `fetched`, at or after `from`, that gives
/// a tree for `c`.
pub open spec fn first_hit(fetched: Seq<(String, Option<PrereqTree>)>, c: Seq<char>, from: int) -> Option<Req>
    decreases fetched.len() - from,
{
    if from < 0 || from >= fetched.len() {
        None
    } else if fetched[from].0@ == c && fetched[from].1 is Some {
        Some(fetched[from].1->0@)
    } else {
        first_hit(fetched, c, from + 1)
    }
}

/// The entries that a round adds: for each pending code, in order, the
/// first tree fetched for it, if any.
pub open spec fn gained(pending: Seq<String>, fetched: Seq<(String, Option<PrereqTree>)>) -> Seq<(Seq<char>, Req)>
    decreases pending.len(),
{
    if pending.len() == 0 {
        Seq::empty()
    } else {
        let g = gained(pending.subrange(0, pending.len() - 1), fetched);
        let c = pending[pending.len() - 1]@;
        match first_hit(fetched, c, 0) {
            Some(r) => g.push((c, r)),
            None => g,
        }
    }
}

/// Every code of every tree in `known` is itself in `known`.
pub open spec fn closed(known: Seq<(String, PrereqTree)>) -> bool {
    forall|i: int| 0 <= i < known.len() ==> leaves((#[trigger] known[i]).1@).subset_of(known_codes(known))
}

/// `s` holds the codes of the tree of each of its known codes.
pub open spec fn closed_in(s: Set<Seq<char>>, known: Seq<(String, PrereqTree)>) -> bool {
    forall|i: int| 0 <= i < known.len() && s.contains((#[trigger] known[i]).0@) ==> leaves(known[i].1@).subset_of(s)
}

/// `c` is a goal, or a code of the tree of one of the first `bound` known
/// entries.
pub open spec fn originates(goals: Seq<String>, known: Seq<(String, PrereqTree)>, c: Seq<char>, bound: int) -> bool {
    code_set(goals).contains(c) || exists|z: int| 0 <= z < bound && leaves((#[trigger] known[z]).1@).contains(c)
}

proof fn lemma_originates_prefix(
    goals: Seq<String>,
    k1: Seq<(String, PrereqTree)>,
    k2: Seq<(String, PrereqTree)>,
    c: Seq<char>,
    bound: int,
    b2: int,
)
    requires
        originates(goals, k1, c, bound),
        bound <= b2,
        bound <= k1.len(),
        forall|z: int| 0 <= z < bound ==> k2[z] == k1[z],
    ensures
        originates(goals, k2, c, b2),
{
    if !code_set(goals).contains(c) {
        let z = choose|z: int| 0 <= z < bound && leaves((#[trigger] k1[z]).1@).contains(c);
        assert(k2[z] == k1[z]);
    }
}

/// Every known code lies in each set that holds the goals and is closed
/// under the known trees.
proof fn lemma_least(goals: Seq<String>, known: Seq<(String, PrereqTree)>, s: Set<Seq<char>>, y: int)
    requires
        0 <= y < known.len(),
        forall|x: int| 0 <= x < known.len() ==> originates(goals, known, (#[trigger] known[x]).0@, x),
        code_set(goals).subset_of(s),
        closed_in(s, known),
    ensures
        s.contains(known[y].0@),
    decreases y,
{
    let c = known[y].0@;
    assert(originates(goals, known, known[y].0@, y));
    if !code_set(goals).contains(c) {
        let z = choose|z: int| 0 <= z < y && leaves((#[trigger] known[z]).1@).contains(c);
        lemma_least(goals, known, s, z);
    }
}

proof fn lemma_first_hit(fetched: Seq<(String, Option<PrereqTree>)>, c: Seq<char>, from: int)
    requires
        0 <= from,
    ensures
        first_hit(fetched, c, from) is None ==> forall|q: int| from <= q < fetched.len() ==> !((#[trigger] fetched[q]).0@ == c
            && fetched[q].1 is Some),
    decreases fetched.len() - from,
{
    if from < fetched.len() {
        lemma_first_hit(fetched, c, from + 1);
    }
}

impl ClosureLoader {
    pub closed spec fn spec_goals(&self) -> Seq<String> {
        self.goals@
    }

    pub closed spec fn spec_known(&self) -> Seq<(String, PrereqTree)> {
        self.known@
    }

    pub closed spec fn spec_pending(&self) -> Set<Seq<char>> {
        code_set(self.pending@)
    }

    pub closed spec fn spec_failures(&self) -> usize {
        self.failures
    }

    /// Every goal and every code of a known tree is known or pending, no
    /// code is both, none is known twice, and each known or pending code
    /// is a goal or a code of an earlier known tree.
    pub closed spec fn wf(&self) -> bool {
        &&& distinct(self.pending@)
        &&& forall|c: Seq<char>| self.spec_pending().contains(c) ==> !known_codes(self.known@).contains(c)
        &&& forall|i: int| 0 <= i < self.goals@.len() ==> known_codes(self.known@).contains(
            (#[trigger] self.goals@[i])@,
        ) || self.spec_pending().contains(self.goals@[i]@)
        &&& forall|i: int| 0 <= i < self.known@.len() ==> leaves((#[trigger] self.known@[i]).1@).subset_of(
            known_codes(self.known@).union(self.spec_pending()),
        )
        &&& codes_distinct(self.known@)
        &&& forall|y: int| 0 <= y < self.known@.len() ==> originates(self.goals@, self.known@, (#[trigger] self.known@[y]).0@, y)
        &&& forall|c: Seq<char>| #[trigger] self.spec_pending().contains(c) ==> originates(
            self.goals@,
            self.known@,
            c,
            self.known@.len() as int,
        )
    }

    /// A loader for the closure of `goals`.
    pub fn new(goals: Vec<String>) -> (r: Self)
        ensures
            r.wf(),
            r.spec_goals() == goals@,
            r.spec_known().len() == 0,
            r.spec_pending() == code_set(goals@),
            r.spec_failures() == 0,
    {
        let mut pending: Vec<String> = Vec::new();
        proof { crate::codes::lemma_code_set_empty(pending@); }
        let mut i: usize = 0;
        while i < goals.len()
            invariant
                i <= goals.len(),
                distinct(pending@),
                code_set(pending@) == code_set(goals@.subrange(0, i as int)),
            decreases goals.len() - i,
        {
            push_new(&mut pending, goals[i].clone());
            proof {
                assert(goals@.subrange(0, i + 1) =~= goals@.subrange(0, i as int).push(goals@[i as int]));
                crate::codes::lemma_code_set_push(goals@.subrange(0, i as int), goals@[i as int]);
            }
            i += 1;
        }
        assert(goals@.subrange(0, i as int) =~= goals@);
        let known: Vec<(String, PrereqTree)> = Vec::new();
        assert(known_codes(known@) =~= Set::<Seq<char>>::empty());
        let r = ClosureLoader { goals, known, pending, failures: 0 };
        assert forall|i: int| 0 <= i < r.goals@.len() implies known_codes(r.known@).contains(
            (#[trigger] r.goals@[i])@,
        ) || r.spec_pending().contains(r.goals@[i]@) by {
            assert(code_set(r.goals@).contains(r.goals@[i]@));
        };
        r
    }

    /// What to do next: finish when nothing is pending, give up once codes
    /// went missing in more than `MAX_ATTEMPTS` rounds, else fetch the
    /// pending codes, each once.
    pub fn step(&self) -> (r: Step)
        requires
            self.wf(),
        ensures
            self.spec_pending().len() == 0 && self.spec_pending().finite() ==> (r matches Step::Done(k)
                && known_views(k@) == known_views(self.spec_known())
                && known_codes(k@) == known_codes(self.spec_known())
                && codes_distinct(k@)
                && closed(k@)
                && (forall|i: int| 0 <= i < self.spec_goals().len() ==> known_codes(k@).contains(
                    (#[trigger] self.spec_goals()[i])@,
                ))
                && forall|s: Set<Seq<char>>| code_set(self.spec_goals()).subset_of(s) && #[trigger] closed_in(s, k@)
                    ==> known_codes(k@).subset_of(s)),
            self.spec_pending().len() > 0 && self.spec_failures() > MAX_ATTEMPTS ==> (r matches Step::Failed(
                Error::ClosureIncomplete(m),
            ) && distinct(m@) && code_set(m@) == self.spec_pending()),
            self.spec_pending().len() > 0 && self.spec_failures() <= MAX_ATTEMPTS ==> (r matches Step::Fetch(m)
                && distinct(m@) && code_set(m@) == self.spec_pending()),
    {
        proof { crate::codes::lemma_distinct_len(self.pending@); }
        if self.pending.len() == 0 {
            let mut out: Vec<(String, PrereqTree)> = Vec::new();
            let mut i: usize = 0;
            while i < self.known.len()
                invariant
                    i <= self.known.len(),
                    out@.len() == i,
                    forall|k: int| 0 <= k < i ==> (#[trigger] out@[k]).0@ == self.known@[k].0@ && out@[k].1@ == self.known@[k].1@,
                decreases self.known.len() - i,
            {
                out.push((self.known[i].0.clone(), self.known[i].1.clone()));
                i += 1;
            }
            proof {
                let kn = self.known@;
                assert(known_views(out@) =~= known_views(kn));
                assert(known_codes(out@) =~= known_codes(kn)) by {
                    assert forall|c: Seq<char>| known_codes(out@).contains(c) implies known_codes(kn).contains(c) by {
                        let k = choose|k: int| 0 <= k < out@.len() && (#[trigger] out@[k]).0@ == c;
                        assert(kn[k].0@ == c);
                    };
                    assert forall|c: Seq<char>| known_codes(kn).contains(c) implies known_codes(out@).contains(c) by {
                        let k = choose|k: int| 0 <= k < kn.len() && (#[trigger] kn[k]).0@ == c;
                        assert(out@[k].0@ == c);
                    };
                };
                crate::codes::lemma_code_set_empty(self.pending@);
                assert forall|i: int| 0 <= i < out@.len() implies leaves((#[trigger] out@[i]).1@).subset_of(known_codes(out@)) by {
                    assert(leaves(kn[i].1@).subset_of(known_codes(kn).union(self.spec_pending())));
                };
                assert forall|i: int, j: int| 0 <= i < out@.len() && 0 <= j < out@.len() && i != j implies (#[trigger] out@[i]).0@
                    != (#[trigger] out@[j]).0@ by {
                    assert(kn[i].0@ != kn[j].0@);
                };
                assert forall|s: Set<Seq<char>>| code_set(self.goals@).subset_of(s) && #[trigger] closed_in(s, out@)
                    implies known_codes(out@).subset_of(s) by {
                    assert(closed_in(s, kn)) by {
                        assert forall|i: int| 0 <= i < kn.len() && s.contains((#[trigger] kn[i]).0@) implies leaves(kn[i].1@).subset_of(s) by {
                            assert(out@[i].0@ == kn[i].0@);
                        };
                    };
                    assert forall|c: Seq<char>| known_codes(out@).contains(c) implies s.contains(c) by {
                        let k = choose|k: int| 0 <= k < kn.len() && (#[trigger] kn[k]).0@ == c;
                        lemma_least(self.goals@, kn, s, k);
                    };
                };
            }
            return Step::Done(out);
        }
        let mut m: Vec<String> = Vec::new();
        let mut i: usize = 0;
        while i < self.pending.len()
            invariant
                i <= self.pending.len(),
                m@ == self.pending@.subrange(0, i as int),
            decreases self.pending.len() - i,
        {
            m.push(self.pending[i].clone());
            assert(m@ =~= self.pending@.subrange(0, i + 1));
            i += 1;
        }
        assert(m@ =~= self.pending@);
        if self.failures > MAX_ATTEMPTS {
            Step::Failed(Error::ClosureIncomplete(m))
        } else {
            Step::Fetch(m)
        }
    }

    /// The pending codes, in the order they will be asked for.
    pub closed spec fn spec_pending_list(&self) -> Seq<String> {
        self.pending@
    }

    /// Takes the trees fetched for the pending codes: `None` where a code
    /// was not found. Each pending code found becomes known with the first
    /// tree fetched for it, and nothing else becomes known; a code not found
    /// stays pending, and the round counts as a failure; the codes of known
    /// trees that are not known become pending.
    pub fn receive(&mut self, fetched: Vec<(String, Option<PrereqTree>)>)
        requires
            old(self).wf(),
        ensures
            final(self).wf(),
            final(self).spec_goals() == old(self).spec_goals(),
            known_views(final(self).spec_known()) == known_views(old(self).spec_known()) + gained(
                old(self).spec_pending_list(),
                fetched@,
            ),
            known_codes(old(self).spec_known()).subset_of(known_codes(final(self).spec_known())),
            forall|i: int|
                0 <= i < fetched@.len() && (#[trigger] fetched@[i]).1 is Some && old(self).spec_pending().contains(
                    fetched@[i].0@,
                ) ==> known_codes(final(self).spec_known()).contains(fetched@[i].0@),
            final(self).spec_pending() == Set::new(
                |c: Seq<char>| old(self).spec_pending().contains(c) && !found_in(fetched@, c),
            ).union(
                Set::new(
                    |c: Seq<char>|
                        !known_codes(final(self).spec_known()).contains(c) && exists|y: int|
                            0 <= y < final(self).spec_known().len() && leaves(
                                (#[trigger] final(self).spec_known()[y]).1@,
                            ).contains(c),
                ),
            ),
            (forall|c: Seq<char>| old(self).spec_pending().contains(c) ==> #[trigger] found_in(fetched@, c))
                ==> final(self).spec_failures() == old(self).spec_failures(),
            (exists|c: Seq<char>| old(self).spec_pending().contains(c) && !#[trigger] found_in(fetched@, c))
                ==> final(self).spec_failures() == (if old(self).spec_failures() < usize::MAX {
                    old(self).spec_failures() + 1
                } else {
                    old(self).spec_failures() as int
                }),
    {
        let ghost k0 = self.known@;
        let ghost pend = self.pending@;
        let ghost goals = self.goals@;
        let mut still: Vec<String> = Vec::new();
        let mut i: usize = 0;
        proof {
            assert(pend.subrange(0, 0) =~= Seq::<String>::empty());
            assert(known_views(k0) + gained(pend.subrange(0, 0), fetched@) =~= known_views(k0));
        }
        while i < self.pending.len()
            invariant
                i <= self.pending.len(),
                self.pending@ == pend,
                self.goals@ == goals,
                self.failures == old(self).failures,
                distinct(pend),
                forall|c: Seq<char>| code_set(pend).contains(c) ==> !known_codes(k0).contains(c),
                self.known@.len() >= k0.len(),
                forall|y: int| 0 <= y < k0.len() ==> self.known@[y] == k0[y],
                known_views(self.known@) == known_views(k0) + gained(pend.subrange(0, i as int), fetched@),
                forall|y: int| k0.len() <= y < self.known@.len() ==> exists|x: int|
                    0 <= x < i && (#[trigger] self.known@[y]).0@ == pend[x]@ && found_in(fetched@, pend[x]@),
                codes_distinct(self.known@),
                forall|c: Seq<char>| #[trigger] code_set(still@).contains(c) ==> (exists|x: int| 0 <= x < i && pend[x]@ == c)
                    && !found_in(fetched@, c),
                forall|x: int| 0 <= x < i && found_in(fetched@, #[trigger] pend[x]@) ==> known_codes(self.known@).contains(pend[x]@),
                forall|x: int| 0 <= x < i && !found_in(fetched@, #[trigger] pend[x]@) ==> code_set(still@).contains(pend[x]@),
            decreases self.pending.len() - i,
        {
            let code = &self.pending[i];
            let mut j: usize = 0;
            let mut hit: Option<usize> = None;
            while j < fetched.len() && hit.is_none()
                invariant
                    j <= fetched.len(),
                    hit matches Some(h) ==> h < fetched.len() && fetched@[h as int].0@ == code@ && fetched@[h as int].1 is Some
                        && first_hit(fetched@, code@, 0) == Some(fetched@[h as int].1->0@),
                    hit is None ==> first_hit(fetched@, code@, 0) == first_hit(fetched@, code@, j as int),
                    hit is None ==> forall|q: int| 0 <= q < j ==> !((#[trigger] fetched@[q]).0@ == code@ && fetched@[q].1 is Some),
                decreases fetched.len() - j + (if hit is None { 1int } else { 0int }),
            {
                match &fetched[j].1 {
                    Some(_) => {
                        if fetched[j].0 == *code {
                            hit = Some(j);
                        } else {
                            j += 1;
                        }
                    },
                    None => {
                        j += 1;
                    },
                }
            }
            let ghost kb = self.known@;
            let ghost sb = still@;
            proof {
                let ps = pend.subrange(0, i + 1);
                assert(ps.subrange(0, ps.len() - 1) =~= pend.subrange(0, i as int));
                assert(ps[ps.len() - 1] == pend[i as int]);
                assert(pend[i as int] == *code);
            }
            match hit {
                Some(h) => {
                    let t = match &fetched[h].1 {
                        Some(t) => t.clone(),
                        None => PrereqTree::empty(),
                    };
                    let e = (code.clone(), t);
                    self.known.push(e);
                    proof {
                        assert(found_in(fetched@, code@));
                        assert(known_views(kb.push(e)) =~= known_views(kb).push((e.0@, e.1@)));
                        assert(known_views(self.known@) =~= known_views(k0) + gained(pend.subrange(0, i + 1), fetched@));
                        assert(code_set(pend).contains(code@));
                        assert forall|y: int| k0.len() <= y < self.known@.len() implies exists|x: int|
                            0 <= x < i + 1 && (#[trigger] self.known@[y]).0@ == pend[x]@ && found_in(fetched@, pend[x]@) by {
                            if y < kb.len() {
                                assert(self.known@[y] == kb[y]);
                                let x = choose|x: int| 0 <= x < i && (#[trigger] kb[y]).0@ == pend[x]@ && found_in(fetched@, pend[x]@);
                            } else {
                                assert(self.known@[y].0@ == pend[i as int]@);
                            }
                        };
                        assert forall|a: int, b: int| 0 <= a < self.known@.len() && 0 <= b < self.known@.len() && a != b
                            implies (#[trigger] self.known@[a]).0@ != (#[trigger] self.known@[b]).0@ by {
                            let n = kb.len() as int;
                            if a == n || b == n {
                                let o = if a == n { b } else { a };
                                assert(self.known@[o] == kb[o]);
                                if o < k0.len() {
                                    assert(kb[o] == k0[o]);
                                    assert(known_codes(k0).contains(k0[o].0@));
                                } else {
                                    let x = choose|x: int| 0 <= x < i && (#[trigger] kb[o]).0@ == pend[x]@ && found_in(fetched@, pend[x]@);
                                    assert(pend[x]@ != pend[i as int]@);
                                }
                            } else {
                                assert(self.known@[a] == kb[a] && self.known@[b] == kb[b]);
                            }
                        };
                        assert forall|x: int| 0 <= x < i + 1 && found_in(fetched@, #[trigger] pend[x]@) implies known_codes(self.known@).contains(pend[x]@) by {
                            if x < i {
                                let y = choose|y: int| 0 <= y < kb.len() && (#[trigger] kb[y]).0@ == pend[x]@;
                                assert(self.known@[y] == kb[y]);
                            } else {
                                assert(self.known@[kb.len() as int].0@ == pend[x]@);
                            }
                        };
                        assert forall|c: Seq<char>| #[trigger] code_set(still@).contains(c) implies (exists|x: int| 0 <= x < i + 1 && pend[x]@ == c)
                            && !found_in(fetched@, c) by {
                            let x = choose|x: int| 0 <= x < i && pend[x]@ == c;
                        };
                    }
                },
                None => {
                    proof {
                        lemma_first_hit(fetched@, code@, 0);
                        assert(!found_in(fetched@, code@));
                        assert(known_views(self.known@) =~= known_views(k0) + gained(pend.subrange(0, i + 1), fetched@));
                    }
                    still.push(code.clone());
                    proof {
                        crate::codes::lemma_code_set_push(sb, *code);
                        assert forall|c: Seq<char>| #[trigger] code_set(still@).contains(c) implies (exists|x: int| 0 <= x < i + 1 && pend[x]@ == c)
                            && !found_in(fetched@, c) by {
                            if c != code@ {
                                assert(code_set(sb).contains(c));
                                let x = choose|x: int| 0 <= x < i && pend[x]@ == c;
                            } else {
                                assert(pend[i as int]@ == c);
                            }
                        };
                        assert forall|y: int| k0.len() <= y < self.known@.len() implies exists|x: int|
                            0 <= x < i + 1 && (#[trigger] self.known@[y]).0@ == pend[x]@ && found_in(fetched@, pend[x]@) by {
                            let x = choose|x: int| 0 <= x < i && (#[trigger] self.known@[y]).0@ == pend[x]@ && found_in(fetched@, pend[x]@);
                        };
                    }
                },
            }
            i += 1;
        }
        assert(pend.subrange(0, i as int) =~= pend);
        // the new pending codes: those still missing, then every code of a
        // known tree that is not known
        let mut next: Vec<String> = Vec::new();
        proof { crate::codes::lemma_code_set_empty(next@); }
        let mut x: usize = 0;
        while x < still.len()
            invariant
                x <= still.len(),
                distinct(next@),
                code_set(next@) == code_set(still@.subrange(0, x as int)),
            decreases still.len() - x,
        {
            push_new(&mut next, still[x].clone());
            proof {
                assert(still@.subrange(0, x + 1) =~= still@.subrange(0, x as int).push(still@[x as int]));
                crate::codes::lemma_code_set_push(still@.subrange(0, x as int), still@[x as int]);
            }
            x += 1;
        }
        assert(still@.subrange(0, x as int) =~= still@);
        let ghost kn = known_codes(self.known@);
        let ghost kf = self.known@;
        proof {
            // a known code is an old one or a pending one that was found
            assert forall|c: Seq<char>| kn.contains(c) implies known_codes(k0).contains(c) || (code_set(pend).contains(c) && found_in(fetched@, c)) by {
                let y = choose|y: int| 0 <= y < kf.len() && (#[trigger] kf[y]).0@ == c;
                if y < k0.len() {
                    assert(kf[y] == k0[y]);
                } else {
                    let x = choose|x: int| 0 <= x < pend.len() && (#[trigger] kf[y]).0@ == pend[x]@ && found_in(fetched@, pend[x]@);
                    assert(code_set(pend).contains(pend[x]@));
                }
            };
            assert forall|c: Seq<char>| code_set(next@).contains(c) implies !kn.contains(c) by {
                assert(code_set(still@).contains(c));
                let x = choose|x: int| 0 <= x < pend.len() && pend[x]@ == c;
                assert(code_set(pend).contains(c));
            };
        }
        let mut k: usize = 0;
        while k < self.known.len()
            invariant
                k <= self.known.len(),
                self.known@ == kf,
                self.pending@ == pend,
                self.goals@ == goals,
                self.failures == old(self).failures,
                kn == known_codes(kf),
                distinct(next@),
                code_set(still@).subset_of(code_set(next@)),
                forall|c: Seq<char>| code_set(next@).contains(c) ==> !kn.contains(c),
                forall|c: Seq<char>| #[trigger] code_set(next@).contains(c) ==> code_set(still@).contains(c) || exists|y: int|
                    0 <= y < kf.len() && leaves((#[trigger] kf[y]).1@).contains(c),
                forall|y: int| 0 <= y < k ==> leaves((#[trigger] kf[y]).1@).subset_of(kn.union(code_set(next@))),
            decreases self.known.len() - k,
        {
            let codes = self.known[k].1.flatten();
            let mut q: usize = 0;
            while q < codes.len()
                invariant
                    q <= codes.len(),
                    k < kf.len(),
                    self.known@ == kf,
                    kn == known_codes(kf),
                    code_set(codes@) == leaves(kf[k as int].1@),
                    distinct(next@),
                    code_set(still@).subset_of(code_set(next@)),
                    forall|c: Seq<char>| code_set(next@).contains(c) ==> !kn.contains(c),
                    forall|c: Seq<char>| #[trigger] code_set(next@).contains(c) ==> code_set(still@).contains(c) || exists|y: int|
                        0 <= y < kf.len() && leaves((#[trigger] kf[y]).1@).contains(c),
                    forall|y: int| 0 <= y < k ==> leaves((#[trigger] kf[y]).1@).subset_of(kn.union(code_set(next@))),
                    forall|z: int| 0 <= z < q ==> kn.union(code_set(next@)).contains(#[trigger] codes@[z]@),
                decreases codes.len() - q,
            {
                let c = &codes[q];
                if !self.knows(c) && !has_code(&next, c) {
                    let ghost nb = next@;
                    next.push(c.clone());
                    proof {
                        crate::codes::lemma_code_set_push(nb, *c);
                        assert(code_set(codes@).contains(c@));
                        assert(leaves(kf[k as int].1@).contains(c@));
                        assert forall|d: Seq<char>| #[trigger] code_set(next@).contains(d) implies code_set(still@).contains(d) || exists|y: int|
                            0 <= y < kf.len() && leaves((#[trigger] kf[y]).1@).contains(d) by {
                            if d != c@ {
                                assert(code_set(nb).contains(d));
                            }
                        };
                    }
                }
                q += 1;
            }
            proof {
                assert forall|l: Seq<char>| leaves(kf[k as int].1@).contains(l) implies kn.union(code_set(next@)).contains(l) by {
                    assert(code_set(codes@).contains(l));
                    let z = choose|z: int| 0 <= z < codes@.len() && #[trigger] codes@[z]@ == l;
                    assert(kn.union(code_set(next@)).contains(codes@[z]@));
                };
            }
            k += 1;
        }
        self.pending = next;
        proof {
            if still@.len() > 0 {
                assert(code_set(still@).contains(still@[0]@));
                assert(!found_in(fetched@, still@[0]@));
                let x = choose|x: int| 0 <= x < pend.len() && pend[x]@ == still@[0]@;
                assert(code_set(pend).contains(pend[x]@));
            }
            if exists|c: Seq<char>| code_set(pend).contains(c) && !#[trigger] found_in(fetched@, c) {
                let c = choose|c: Seq<char>| code_set(pend).contains(c) && !#[trigger] found_in(fetched@, c);
                let x = choose|x: int| 0 <= x < pend.len() && #[trigger] pend[x]@ == c;
                assert(code_set(still@).contains(c));
                let y = choose|y: int| 0 <= y < still@.len() && #[trigger] still@[y]@ == c;
            }
        }
        if still.len() > 0 && self.failures < usize::MAX {
            self.failures = self.failures + 1;
        }
        proof {
            let np = code_set(self.pending@);
            // the pending set, exactly
            let lhs = Set::new(|c: Seq<char>| code_set(pend).contains(c) && !found_in(fetched@, c));
            let rhs = Set::new(
                |c: Seq<char>| !known_codes(kf).contains(c) && exists|y: int| 0 <= y < kf.len() && leaves((#[trigger] kf[y]).1@).contains(c),
            );
            assert forall|c: Seq<char>| np.contains(c) implies lhs.union(rhs).contains(c) by {
                if code_set(still@).contains(c) {
                    let x = choose|x: int| 0 <= x < pend.len() && pend[x]@ == c;
                    assert(code_set(pend).contains(c));
                }
            };
            assert forall|c: Seq<char>| lhs.union(rhs).contains(c) implies np.contains(c) by {
                if lhs.contains(c) {
                    let x = choose|x: int| 0 <= x < pend.len() && #[trigger] pend[x]@ == c;
                    assert(code_set(still@).contains(pend[x]@));
                } else {
                    let y = choose|y: int| 0 <= y < kf.len() && leaves((#[trigger] kf[y]).1@).contains(c);
                    assert(leaves(kf[y].1@).subset_of(kn.union(np)));
                }
            };
            assert(np =~= lhs.union(rhs));
            // goals stay covered
            assert forall|g: int| 0 <= g < goals.len() implies known_codes(kf).contains((#[trigger] goals[g])@)
                || np.contains(goals[g]@) by {
                let c = goals[g]@;
                if !known_codes(k0).contains(c) {
                    assert(code_set(pend).contains(c));
                    let x = choose|x: int| 0 <= x < pend.len() && #[trigger] pend[x]@ == c;
                    if found_in(fetched@, pend[x]@) {
                    } else {
                        assert(code_set(still@).contains(pend[x]@));
                    }
                } else {
                    let y = choose|y: int| 0 <= y < k0.len() && (#[trigger] k0[y]).0@ == c;
                    assert(kf[y] == k0[y]);
                }
            };
            assert forall|c: Seq<char>| known_codes(k0).contains(c) implies known_codes(kf).contains(c) by {
                let y = choose|y: int| 0 <= y < k0.len() && (#[trigger] k0[y]).0@ == c;
                assert(kf[y] == k0[y]);
            };
            // where each known and pending code comes from
            assert forall|y: int| 0 <= y < kf.len() implies originates(goals, kf, (#[trigger] kf[y]).0@, y) by {
                if y < k0.len() {
                    assert(kf[y] == k0[y]);
                    assert(originates(goals, k0, k0[y].0@, y));
                    lemma_originates_prefix(goals, k0, kf, k0[y].0@, y, y);
                } else {
                    let x = choose|x: int| 0 <= x < pend.len() && (#[trigger] kf[y]).0@ == pend[x]@ && found_in(fetched@, pend[x]@);
                    assert(code_set(pend).contains(pend[x]@));
                    assert(old(self).spec_pending().contains(pend[x]@));
                    assert(originates(goals, k0, pend[x]@, k0.len() as int));
                    lemma_originates_prefix(goals, k0, kf, pend[x]@, k0.len() as int, y);
                }
            };
            assert forall|c: Seq<char>| #[trigger] np.contains(c) implies originates(goals, kf, c, kf.len() as int) by {
                if code_set(still@).contains(c) {
                    let x = choose|x: int| 0 <= x < pend.len() && pend[x]@ == c;
                    assert(code_set(pend).contains(c));
                    assert(old(self).spec_pending().contains(c));
                    assert(originates(goals, k0, c, k0.len() as int));
                    lemma_originates_prefix(goals, k0, kf, c, k0.len() as int, kf.len() as int);
                } else {
                    let y = choose|y: int| 0 <= y < kf.len() && leaves((#[trigger] kf[y]).1@).contains(c);
                }
            };
        }
    }

    /// Whether `c` is a known code.
    fn knows(&self, c: &String) -> (r: bool)
        ensures
            r == known_codes(self.known@).contains(c@),
    {
        let mut i: usize = 0;
        while i < self.known.len()
            invariant
                i <= self.known.len(),
                forall|k: int| 0 <= k < i ==> (#[trigger] self.known@[k]).0@ != c@,
            decreases self.known.len() - i,
        {
            if self.known[i].0 == *c {
                assert(known_codes(self.known@).contains(c@));
                return true;
            }
            i += 1;
        }
        false
    }
}

} // verus!
