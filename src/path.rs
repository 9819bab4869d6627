use vstd::prelude::*;
use crate::codes::{code_set, has_code};
use crate::text::{before, code_before};
use crate::tree::{satisfied, PrereqTree, Req};

verus! {

/// Periods repeat in a cycle of this length (semesters 1 and 2 and two
/// special terms).
pub const CYCLE: usize = 4;

/// An item that the search can schedule: its code, the period window it
/// belongs to, the period numbers in which it is offered and its
/// requirement.
#[derive(Debug)]
pub struct Module {
    acad_year: String,
    module_code: String,
    semesters: Vec<usize>,
    prereqtree: PrereqTree,
}

pub struct ModuleView {
    pub acad_year: Seq<char>,
    pub code: Seq<char>,
    pub semesters: Seq<usize>,
    pub tree: Req,
}

impl View for Module {
    type V = ModuleView;

    closed spec fn view(&self) -> ModuleView {
        ModuleView {
            acad_year: self.acad_year@,
            code: self.module_code@,
            semesters: self.semesters@,
            tree: self.prereqtree@,
        }
    }
}

impl Module {
    pub fn new(module_code: &str, acad_year: &str, semesters: Vec<usize>, prereqtree: PrereqTree) -> (r: Self)
        ensures
            r@ == (ModuleView {
                acad_year: acad_year@,
                code: module_code@,
                semesters: semesters@,
                tree: prereqtree@,
            }),
    {
        Module {
            acad_year: acad_year.to_owned(),
            module_code: module_code.to_owned(),
            semesters,
            prereqtree,
        }
    }

    /// The period window of the item.
    pub fn acad_year(&self) -> (r: &String)
        ensures
            r@ == self@.acad_year,
    {
        &self.acad_year
    }

    /// The item's code.
    pub fn code(&self) -> (r: &String)
        ensures
            r@ == self@.code,
    {
        &self.module_code
    }

    /// A copy of the item's code.
    pub fn to_code(&self) -> (r: String)
        ensures
            r@ == self@.code,
    {
        self.module_code.clone()
    }

    /// The period numbers in which the item is offered.
    pub fn semesters(&self) -> (r: &Vec<usize>)
        ensures
            r@ == self@.semesters,
    {
        &self.semesters
    }

    /// A copy of the period numbers in which the item is offered.
    pub fn to_semesters(&self) -> (r: Vec<usize>)
        ensures
            r@ == self@.semesters,
    {
        let mut out: Vec<usize> = Vec::new();
        let mut i: usize = 0;
        while i < self.semesters.len()
            invariant
                i <= self.semesters.len(),
                out@ == self.semesters@.subrange(0, i as int),
            decreases self.semesters.len() - i,
        {
            out.push(self.semesters[i]);
            assert(out@ =~= self.semesters@.subrange(0, i + 1));
            i += 1;
        }
        assert(out@ =~= self.semesters@);
        out
    }

    /// The item's requirement.
    pub fn prereqtree(&self) -> (r: &PrereqTree)
        ensures
            r@ == self@.tree,
    {
        &self.prereqtree
    }

    /// A copy of the item's requirement.
    pub fn to_prereqtree(&self) -> (r: PrereqTree)
        ensures
            r@ == self@.tree,
    {
        self.prereqtree.clone()
    }

    /// Every code that the requirement names, each once.
    pub fn prereqtree_flatten(&self) -> (r: Vec<String>)
        ensures
            crate::codes::distinct(r@),
            code_set(r@) == crate::tree::leaves(self@.tree),
    {
        self.prereqtree.flatten()
    }

    /// A copy of the item.
    pub fn duplicate(&self) -> (r: Module)
        ensures
            r@ == self@,
    {
        Module {
            acad_year: self.acad_year.clone(),
            module_code: self.module_code.clone(),
            semesters: self.to_semesters(),
            prereqtree: self.prereqtree.clone(),
        }
    }

    /// Replaces the requirement.
    pub fn set_tree(&mut self, tree: PrereqTree)
        ensures
            final(self)@ == (ModuleView { tree: tree@, ..old(self)@ }),
    {
        self.prereqtree = tree;
    }

    /// Replaces the period numbers in which the item is offered.
    pub fn set_semesters(&mut self, sems: Vec<usize>)
        ensures
            final(self)@ == (ModuleView { semesters: sems@, ..old(self)@ }),
    {
        self.semesters = sems;
    }
}

/// A partial schedule: the committed periods, the codes done in them, the
/// index of the period in progress and the codes taken in it.
#[derive(Debug)]
pub struct Path {
    record: Vec<Vec<String>>,
    done: Vec<String>,
    global_sem: usize,
    doing: Vec<String>,
}

pub struct PathView {
    pub record: Seq<Seq<Seq<char>>>,
    pub done: Set<Seq<char>>,
    pub period: nat,
    pub doing: Seq<Seq<char>>,
}

pub open spec fn string_views(v: Seq<String>) -> Seq<Seq<char>> {
    v.map_values(|s: String| s@)
}

impl View for Path {
    type V = PathView;

    closed spec fn view(&self) -> PathView {
        PathView {
            record: self.record@.map_values(|v: Vec<String>| string_views(v@)),
            done: code_set(self.done@),
            period: self.global_sem as nat,
            doing: string_views(self.doing@),
        }
    }
}

/// The period number, within the cycle, of period index `i`.
pub open spec fn sem_of(i: nat) -> usize {
    (i % (CYCLE as nat) + 1) as usize
}

/// The codes committed in the periods before `i`.
pub open spec fn done_before(record: Seq<Seq<Seq<char>>>, i: int) -> Set<Seq<char>>
    decreases i,
{
    if i <= 0 {
        Set::empty()
    } else {
        done_before(record, i - 1).union(record[i - 1].to_set())
    }
}

/// `m` may be taken in period index `i` once the codes of `done` are done.
pub open spec fn takeable(m: ModuleView, i: nat, done: Set<Seq<char>>) -> bool {
    m.semesters.contains(sem_of(i)) && satisfied(m.tree, done)
}

/// Some item of `space` with code `c` may be taken in period `i` after
/// `done`.
pub open spec fn offered_in(space: Seq<Module>, c: Seq<char>, i: nat, done: Set<Seq<char>>) -> bool {
    exists|k: int| 0 <= k < space.len() && (#[trigger] space[k]@).code == c && takeable(space[k]@, i, done)
}

/// Every committed or current code was takeable when it was taken, no
/// period holds more than `cap` codes, and `done` is what was committed.
pub open spec fn valid(p: PathView, space: Seq<Module>, cap: usize) -> bool {
    &&& p.record.len() == p.period
    &&& p.done == done_before(p.record, p.period as int)
    &&& p.doing.len() <= cap
    &&& forall|c: Seq<char>| #[trigger] p.doing.contains(c) ==> offered_in(space, c, p.period, p.done)
    &&& forall|i: int| 0 <= i < p.record.len() ==> (#[trigger] p.record[i]).len() <= cap
    &&& forall|i: int, c: Seq<char>| 0 <= i < p.record.len() && #[trigger] p.record[i].contains(c)
        ==> offered_in(space, c, i as nat, done_before(p.record, i))
}

/// The codes of `space`, in order, that may be added to the period in
/// progress of `p`: offered in its period, satisfied by what is done, and
/// sorting after the last code taken in it.
pub open spec fn choice_codes(space: Seq<Module>, p: PathView) -> Seq<Seq<char>>
    decreases space.len(),
{
    if space.len() == 0 {
        Seq::empty()
    } else {
        let prefix = choice_codes(space.subrange(0, space.len() - 1), p);
        let m = space[space.len() - 1]@;
        if takeable(m, p.period, p.done) && (p.doing.len() == 0 || before(p.doing.last(), m.code)) {
            prefix.push(m.code)
        } else {
            prefix
        }
    }
}

impl Path {
    /// An empty schedule at period index zero.
    pub fn new() -> (r: Self)
        ensures
            r@.record.len() == 0,
            r@.done == Set::<Seq<char>>::empty(),
            r@.period == 0,
            r@.doing.len() == 0,
    {
        let r = Path { done: Vec::new(), global_sem: 0, doing: Vec::new(), record: Vec::new() };
        assert(r@.done =~= Set::<Seq<char>>::empty());
        r
    }

    /// Commits the period in progress and moves to the next one.
    pub fn next_sem(&mut self)
        requires
            old(self)@.period < usize::MAX,
        ensures
            final(self)@.record == old(self)@.record.push(old(self)@.doing),
            final(self)@.done == old(self)@.done.union(old(self)@.doing.to_set()),
            final(self)@.period == old(self)@.period + 1,
            final(self)@.doing.len() == 0,
    {
        let ghost before_done = self.done@;
        let ghost before_doing = self.doing@;
        let ghost before_record = self.record@;
        let mut doing: Vec<String> = Vec::new();
        core::mem::swap(&mut doing, &mut self.doing);
        let mut i: usize = 0;
        while i < doing.len()
            invariant
                i <= doing.len(),
                doing@ == before_doing,
                self.record@ == before_record,
                self.global_sem == old(self).global_sem,
                self.doing@.len() == 0,
                code_set(self.done@) == code_set(before_done).union(string_views(doing@).subrange(0, i as int).to_set()),
            decreases doing.len() - i,
        {
            let ghost d = self.done@;
            self.done.push(doing[i].clone());
            proof {
                crate::codes::lemma_code_set_push(d, doing@[i as int]);
                assert(string_views(doing@).subrange(0, i + 1) =~= string_views(doing@).subrange(0, i as int).push(doing@[i as int]@));
                string_views(doing@).subrange(0, i as int).lemma_push_to_set_commute(doing@[i as int]@);
                assert(code_set(self.done@) =~= code_set(before_done).union(string_views(doing@).subrange(0, i + 1).to_set()));
            }
            i += 1;
        }
        assert(string_views(doing@).subrange(0, i as int) =~= string_views(doing@));
        self.record.push(doing);
        self.global_sem = self.global_sem + 1;
        assert(self@.record =~= old(self)@.record.push(old(self)@.doing));
        assert(self@.doing =~= Seq::<Seq<char>>::empty());
    }

    /// Takes `module_code` in the period in progress.
    pub fn mark(&mut self, module_code: &str)
        ensures
            final(self)@.record == old(self)@.record,
            final(self)@.done == old(self)@.done,
            final(self)@.period == old(self)@.period,
            final(self)@.doing == old(self)@.doing.push(module_code@),
    {
        self.doing.push(module_code.to_owned());
        assert(self@.doing =~= old(self)@.doing.push(module_code@));
    }

    /// Whether every code of `required` is done or in progress.
    pub fn is_done(&self, required: &Vec<String>) -> (r: bool)
        ensures
            r == (forall|i: int| 0 <= i < required@.len() ==> self@.done.contains(#[trigger] required@[i]@)
                || self@.doing.contains(required@[i]@)),
    {
        let mut i: usize = 0;
        while i < required.len()
            invariant
                i <= required.len(),
                forall|j: int| 0 <= j < i ==> self@.done.contains(#[trigger] required@[j]@) || self@.doing.contains(required@[j]@),
            decreases required.len() - i,
        {
            let a = has_code(&self.done, &required[i]);
            let b = self.is_doing(&required[i]);
            if !a && !b {
                return false;
            }
            i += 1;
        }
        true
    }

    /// Whether `code` is taken in the period in progress.
    pub fn is_doing(&self, code: &String) -> (r: bool)
        ensures
            r == self@.doing.contains(code@),
    {
        let r = has_code(&self.doing, code);
        proof {
            if r {
                let k = choose|k: int| 0 <= k < self.doing@.len() && #[trigger] self.doing@[k]@ == code@;
                assert(self@.doing[k] == code@);
            }
            if self@.doing.contains(code@) {
                let k = choose|k: int| 0 <= k < self@.doing.len() && self@.doing[k] == code@;
                assert(self.doing@[k]@ == code@);
            }
        }
        r
    }

    /// The period number, within the cycle, of the period in progress.
    pub fn sem(&self) -> (r: usize)
        ensures
            r == sem_of(self@.period),
    {
        self.global_sem % CYCLE + 1
    }

    /// The number of codes taken in the period in progress.
    pub fn doing_count(&self) -> (r: usize)
        ensures
            r == self@.doing.len(),
    {
        self.doing.len()
    }

    /// The committed periods, each with its codes in the order taken.
    pub fn record(&self) -> (r: &Vec<Vec<String>>)
        ensures
            r@.map_values(|v: Vec<String>| string_views(v@)) == self@.record,
    {
        &self.record
    }

    /// Whether two schedules committed the same codes period by period, in
    /// the same order.
    pub fn same_record(&self, other: &Path) -> (r: bool)
        ensures
            r == (self@.record == other@.record),
    {
        let ghost a = self@.record;
        let ghost b = other@.record;
        if self.record.len() != other.record.len() {
            assert(a.len() != b.len());
            return false;
        }
        let mut i: usize = 0;
        while i < self.record.len()
            invariant
                i <= self.record.len(),
                self.record.len() == other.record.len(),
                a == self@.record,
                b == other@.record,
                forall|k: int| 0 <= k < i ==> a[k] == b[k],
            decreases self.record.len() - i,
        {
            let x = &self.record[i];
            let y = &other.record[i];
            assert(a[i as int] == string_views(x@) && b[i as int] == string_views(y@));
            if x.len() != y.len() {
                assert(a[i as int].len() != b[i as int].len());
                return false;
            }
            let mut j: usize = 0;
            while j < x.len()
                invariant
                    j <= x.len(),
                    x.len() == y.len(),
                    a == self@.record,
                    b == other@.record,
                    i < a.len(),
                    i < b.len(),
                    a[i as int] == string_views(x@),
                    b[i as int] == string_views(y@),
                    forall|k: int| 0 <= k < j ==> x@[k]@ == y@[k]@,
                decreases x.len() - j,
            {
                if !(x[j] == y[j]) {
                    assert(a[i as int][j as int] != b[i as int][j as int]);
                    return false;
                }
                j += 1;
            }
            assert(string_views(x@) =~= string_views(y@));
            i += 1;
        }
        assert(a =~= b);
        true
    }

    /// The number of committed periods.
    pub fn len(&self) -> (r: usize)
        ensures
            r == self@.period,
    {
        self.global_sem
    }
}


/// The number of codes committed in all periods.
pub open spec fn total(record: Seq<Seq<Seq<char>>>) -> nat
    decreases record.len(),
{
    if record.len() == 0 {
        0
    } else {
        total(record.subrange(0, record.len() - 1)) + record[record.len() - 1].len()
    }
}

fn copy_strings(v: &Vec<String>) -> (r: Vec<String>)
    ensures
        r@ == v@,
{
    let mut out: Vec<String> = Vec::new();
    let mut i: usize = 0;
    while i < v.len()
        invariant
            i <= v.len(),
            out@ == v@.subrange(0, i as int),
        decreases v.len() - i,
    {
        out.push(v[i].clone());
        assert(out@ =~= v@.subrange(0, i + 1));
        i += 1;
    }
    assert(out@ =~= v@);
    out
}

impl Clone for Path {
    fn clone(&self) -> (r: Self)
        ensures
            r@ == self@,
    {
        let mut record: Vec<Vec<String>> = Vec::new();
        let mut i: usize = 0;
        while i < self.record.len()
            invariant
                i <= self.record.len(),
                record@.len() == i,
                forall|j: int| 0 <= j < i ==> #[trigger] record@[j]@ == self.record@[j]@,
            decreases self.record.len() - i,
        {
            record.push(copy_strings(&self.record[i]));
            i += 1;
        }
        let r = Path {
            record,
            done: copy_strings(&self.done),
            global_sem: self.global_sem,
            doing: copy_strings(&self.doing),
        };
        assert(r@.record =~= self@.record);
        r
    }
}

impl Path {
    /// The number of codes committed or in progress; counts past
    /// `usize::MAX` stay there.
    pub fn mod_count(&self) -> (r: usize)
        ensures
            r == crate::tree::clamp(total(self@.record) + self@.doing.len()),
    {
        let ghost rec = self@.record;
        let mut acc: usize = 0;
        let mut i: usize = 0;
        while i < self.record.len()
            invariant
                i <= self.record.len(),
                rec == self@.record,
                acc == crate::tree::clamp(total(rec.subrange(0, i as int))),
            decreases self.record.len() - i,
        {
            let n = self.record[i].len();
            proof {
                assert(rec.subrange(0, i + 1).subrange(0, i as int) =~= rec.subrange(0, i as int));
                assert(rec[i as int].len() == n);
            }
            acc = if acc > usize::MAX - n { usize::MAX } else { acc + n };
            i += 1;
        }
        assert(rec.subrange(0, i as int) =~= rec);
        let n = self.doing.len();
        if acc > usize::MAX - n { usize::MAX } else { acc + n }
    }

    /// The codes of `sample_space`, in order, that may join the period in
    /// progress: offered in its period, with their requirement satisfied by
    /// what is done, and sorting after the last code taken in it.
    pub fn choices(&self, sample_space: &Vec<Module>) -> (r: Vec<String>)
        ensures
            string_views(r@) == choice_codes(sample_space@, self@),
    {
        let sem = self.sem();
        let ghost sp = sample_space@;
        let mut out: Vec<String> = Vec::new();
        let mut i: usize = 0;
        while i < sample_space.len()
            invariant
                i <= sample_space.len(),
                sp == sample_space@,
                sem == sem_of(self@.period),
                string_views(out@) == choice_codes(sp.subrange(0, i as int), self@),
            decreases sample_space.len() - i,
        {
            let m = &sample_space[i];
            proof {
                assert(sp.subrange(0, i + 1).subrange(0, i as int) =~= sp.subrange(0, i as int));
                assert(sp.subrange(0, i + 1)[i as int] == *m);
            }
            let offered = crate::codes::has_code(&m.semesters, &sem);
            proof {
                if offered {
                    let k = choose|k: int| 0 <= k < m.semesters@.len() && #[trigger] m.semesters@[k]@ == sem@;
                    assert(m@.semesters[k] == sem);
                }
                if m@.semesters.contains(sem) {
                    let k = choose|k: int| 0 <= k < m@.semesters.len() && m@.semesters[k] == sem;
                    assert(m.semesters@[k]@ == sem@);
                }
            }
            if offered && m.prereqtree.satisfied_by(&self.done) {
                let after = if self.doing.len() == 0 {
                    true
                } else {
                    code_before(self.doing[self.doing.len() - 1].as_str(), m.module_code.as_str())
                };
                if after {
                    let ghost before_out = out@;
                    out.push(m.module_code.clone());
                    assert(string_views(out@) =~= string_views(before_out).push(m@.code));
                }
            }
            i += 1;
        }
        assert(sp.subrange(0, i as int) =~= sp);
        out
    }
}

} // verus!
