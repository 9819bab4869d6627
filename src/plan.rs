use vstd::prelude::*;
use vstd::pervasive::VecAdditionalExecFns;
use crate::codes::{code_set, distinct, push_new};
use crate::error::Error;
use crate::path::{string_views, Module, CYCLE};
use crate::text::{before, code_before};
use crate::topo::{pair_views, resolve_fold, start, topo_run, topological_order};
use crate::tree::{is_blank, resolved, PrereqTree, Req};

verus! {

/// Whether a code in a semester is one already committed to, or a goal.
#[derive(Debug, Clone, Copy, PartialEq, Eq, Structural)]
pub enum ModuleKind {
    Commit,
    Target,
}

/// The codes of one semester with their kinds, kept in order of code, and
/// the number of codes the semester is meant to hold.
pub struct Semester {
    modules: Vec<(String, ModuleKind)>,
    limit: usize,
}

pub struct SemesterView {
    pub modules: Seq<(Seq<char>, ModuleKind)>,
    pub limit: usize,
}

impl View for Semester {
    type V = SemesterView;

    closed spec fn view(&self) -> SemesterView {
        SemesterView {
            modules: self.modules@.map_values(|m: (String, ModuleKind)| (m.0@, m.1)),
            limit: self.limit,
        }
    }
}

/// Where a new code goes: before the first entry whose code sorts after it.
pub open spec fn insert_pos(s: Seq<(Seq<char>, ModuleKind)>, c: Seq<char>) -> int
    decreases s.len(),
{
    if s.len() == 0 {
        0
    } else if before(c, s[0].0) {
        0
    } else {
        1 + insert_pos(s.subrange(1, s.len() as int), c)
    }
}

pub open spec fn inserted(s: SemesterView, c: Seq<char>, kind: ModuleKind) -> SemesterView {
    SemesterView { modules: s.modules.insert(insert_pos(s.modules, c), (c, kind)), limit: s.limit }
}

/// The codes of the given kind, in order.
pub open spec fn kind_codes(s: Seq<(Seq<char>, ModuleKind)>, kind: ModuleKind) -> Seq<Seq<char>>
    decreases s.len(),
{
    if s.len() == 0 {
        Seq::empty()
    } else {
        let p = kind_codes(s.subrange(0, s.len() - 1), kind);
        if s[s.len() - 1].1 == kind {
            p.push(s[s.len() - 1].0)
        } else {
            p
        }
    }
}

impl Semester {
    pub fn new(limit: usize) -> (r: Self)
        ensures
            r@.modules.len() == 0,
            r@.limit == limit,
    {
        Semester { modules: Vec::new(), limit }
    }

    /// Adds a code, after the codes that do not sort after it.
    pub fn insert(&mut self, code: &str, kind: ModuleKind)
        ensures
            final(self)@ == inserted(old(self)@, code@, kind),
    {
        let ghost s = self@.modules;
        let mut i: usize = 0;
        let mut found = false;
        assert(s.subrange(0, s.len() as int) =~= s);
        while i < self.modules.len() && !found
            invariant
                s == self@.modules,
                i <= self.modules.len(),
                !found ==> insert_pos(s, code@) == i + insert_pos(s.subrange(i as int, s.len() as int), code@),
                found ==> insert_pos(s, code@) == i,
            decreases self.modules.len() - i + (if found { 0int } else { 1int }),
        {
            proof {
                let t = s.subrange(i as int, s.len() as int);
                assert(t.subrange(1, t.len() as int) =~= s.subrange(i + 1, s.len() as int));
                assert(t[0] == s[i as int]);
            }
            if code_before(code, self.modules[i].0.as_str()) {
                found = true;
            } else {
                i += 1;
            }
        }
        proof {
            if !found {
                assert(s.subrange(i as int, s.len() as int) =~= Seq::<(Seq<char>, ModuleKind)>::empty());
            }
        }
        self.modules.insert(i, (code.to_owned(), kind));
        assert(self@.modules =~= s.insert(i as int, (code@, kind)));
    }

    pub fn is_empty(&self) -> (r: bool)
        ensures
            r == (self@.modules.len() == 0),
    {
        self.modules.len() == 0
    }

    /// The codes of the given kind, in order.
    pub fn get_kind(&self, kind: ModuleKind) -> (r: Vec<String>)
        ensures
            string_views(r@) == kind_codes(self@.modules, kind),
    {
        let ghost s = self@.modules;
        let mut out: Vec<String> = Vec::new();
        let mut i: usize = 0;
        while i < self.modules.len()
            invariant
                s == self@.modules,
                i <= self.modules.len(),
                string_views(out@) == kind_codes(s.subrange(0, i as int), kind),
            decreases self.modules.len() - i,
        {
            proof {
                assert(s.subrange(0, i + 1).subrange(0, i as int) =~= s.subrange(0, i as int));
                assert(s[i as int] == (self.modules@[i as int].0@, self.modules@[i as int].1));
            }
            if self.modules[i].1 == kind {
                let ghost before_out = out@;
                out.push(self.modules[i].0.clone());
                assert(string_views(out@) =~= string_views(before_out).push(s[i as int].0));
            }
            i += 1;
        }
        assert(s.subrange(0, i as int) =~= s);
        out
    }

    /// The goal codes, in order.
    pub fn targets(&self) -> (r: Vec<String>)
        ensures
            string_views(r@) == kind_codes(self@.modules, ModuleKind::Target),
    {
        self.get_kind(ModuleKind::Target)
    }

    /// The committed codes, in order.
    pub fn commits(&self) -> (r: Vec<String>)
        ensures
            string_views(r@) == kind_codes(self@.modules, ModuleKind::Commit),
    {
        self.get_kind(ModuleKind::Commit)
    }

    /// The number of committed codes.
    pub fn count_commits(&self) -> (r: usize)
        ensures
            r == kind_codes(self@.modules, ModuleKind::Commit).len(),
    {
        self.commits().len()
    }

    /// Removes every code.
    pub fn clear(&mut self)
        ensures
            final(self)@.modules.len() == 0,
            final(self)@.limit == old(self)@.limit,
    {
        self.modules.clear();
    }

    fn duplicate(&self) -> (r: Semester)
        ensures
            r@ == self@,
    {
        let mut out: Vec<(String, ModuleKind)> = Vec::new();
        let mut i: usize = 0;
        while i < self.modules.len()
            invariant
                i <= self.modules.len(),
                out@.len() == i,
                forall|j: int| 0 <= j < i ==> (#[trigger] out@[j]).0@ == self.modules@[j].0@ && out@[j].1 == self.modules@[j].1,
            decreases self.modules.len() - i,
        {
            out.push((self.modules[i].0.clone(), self.modules[i].1));
            i += 1;
        }
        let r = Semester { modules: out, limit: self.limit };
        assert(r@.modules =~= self@.modules);
        r
    }
}

/// A year and a semester number within it, from 1 to 4.
#[derive(Debug, Clone, Copy, PartialEq, Eq, Structural)]
pub struct Period(i32, i32);

impl View for Period {
    type V = (i32, i32);

    closed spec fn view(&self) -> (i32, i32) {
        (self.0, self.1)
    }
}

/// The short name of a semester number.
pub fn sem(x: i32) -> (r: String)
    ensures
        x == 1 ==> r@ == "Sem 1"@,
        x == 2 ==> r@ == "Sem 2"@,
        x == 3 ==> r@ == "S.T.1"@,
        x == 4 ==> r@ == "S.T.2"@,
        !(1 <= x <= 4) ==> r@ == "[invalid semester]"@,
{
    let r = if x == 1 {
        "Sem 1"
    } else if x == 2 {
        "Sem 2"
    } else if x == 3 {
        "S.T.1"
    } else if x == 4 {
        "S.T.2"
    } else {
        "[invalid semester]"
    };
    r.to_owned()
}

/// The decimal text of an integer, with a leading '-' when negative.
pub open spec fn int_text(n: int) -> Seq<char> {
    if n < 0 {
        seq!['-'] + crate::text::digits_of((-n) as nat)
    } else {
        crate::text::digits_of(n as nat)
    }
}

impl Period {
    /// A period, when `sem` is from 1 to 4.
    pub fn new(year: i32, sem: i32) -> (r: Result<Self, Error>)
        ensures
            1 <= sem <= 4 ==> (r matches Ok(p) && p@ == (year, sem)),
            !(1 <= sem <= 4) ==> r matches Err(Error::InvalidSemester),
    {
        if !(1 <= sem && sem <= 4) {
            Err(Error::InvalidSemester)
        } else {
            Ok(Period(year, sem))
        }
    }

    pub fn year(&self) -> (r: i32)
        ensures
            r == self@.0,
    {
        self.0
    }

    pub fn sem(&self) -> (r: i32)
        ensures
            r == self@.1,
    {
        self.1
    }

    /// The academic year that starts in this year, as "<year>/<year + 1>".
    pub fn acad_year(&self) -> (r: String)
        ensures
            r@ == int_text(self@.0 as int) + seq!['/'] + int_text(self@.0 + 1),
    {
        let y = self.0 as i64;
        let mut s = crate::text::int_string(y);
        let slash = "/";
        proof { reveal_strlit("/"); }
        s.append(slash);
        let next = crate::text::int_string(y + 1);
        s.append(next.as_str());
        s
    }
}


/// Semesters of a plan are laid out year by year, four to a year.
pub open spec fn slot(year: int, sem: int) -> int {
    (year - 1) * 4 + sem - 1
}

pub open spec fn sem_views(v: Seq<Semester>) -> Seq<SemesterView> {
    v.map_values(|s: Semester| s@)
}

fn empty_semesters(n: usize) -> (r: Vec<Semester>)
    ensures
        r@.len() == n,
        forall|i: int| 0 <= i < n ==> (#[trigger] r@[i])@.modules.len() == 0 && r@[i]@.limit == 5,
{
    let mut out: Vec<Semester> = Vec::new();
    let mut i: usize = 0;
    while i < n
        invariant
            i <= n,
            out@.len() == i,
            forall|j: int| 0 <= j < i ==> (#[trigger] out@[j])@.modules.len() == 0 && out@[j]@.limit == 5,
        decreases n - i,
    {
        out.push(Semester::new(5));
        i += 1;
    }
    out
}

/// Collects the commitments and goals of a plan, semester by semester.
pub struct PlanBuilder {
    matric_year: usize,
    years: usize,
    semesters: Vec<Semester>,
}

impl PlanBuilder {
    /// A plan of `years` years, starting in `matric_year`, with nothing in
    /// it.
    pub fn new(matric_year: usize, years: usize) -> (r: Self)
        requires
            years <= usize::MAX / 4,
        ensures
            r.spec_years() == years,
            r.spec_matric_year() == matric_year,
            r.spec_semesters().len() == years * 4,
            forall|i: int| 0 <= i < years * 4 ==> (#[trigger] r.spec_semesters()[i]).modules.len() == 0,
    {
        PlanBuilder { matric_year, years, semesters: empty_semesters(years * 4) }
    }

    pub closed spec fn spec_years(&self) -> usize {
        self.years
    }

    pub closed spec fn spec_matric_year(&self) -> usize {
        self.matric_year
    }

    pub closed spec fn spec_semesters(&self) -> Seq<SemesterView> {
        sem_views(self.semesters@)
    }

    fn put(&mut self, year: usize, sem: usize, module_code: &str, kind: ModuleKind)
        requires
            1 <= year,
            1 <= sem <= 4,
            slot(year as int, sem as int) < old(self).spec_semesters().len(),
        ensures
            final(self).spec_years() == old(self).spec_years(),
            final(self).spec_matric_year() == old(self).spec_matric_year(),
            final(self).spec_semesters() == old(self).spec_semesters().update(
                slot(year as int, sem as int),
                inserted(old(self).spec_semesters()[slot(year as int, sem as int)], module_code@, kind),
            ),
    {
        assert(self.spec_semesters().len() == self.semesters@.len());
        assert((year - 1) * 4 + sem - 1 == slot(year as int, sem as int));
        let y = year - 1;
        assert(y * 4 < self.semesters@.len());
        let n = self.semesters.len();
        let base = y * 4;
        let i = base + (sem - 1);
        let mut s = Semester::new(0);
        self.semesters.set_and_swap(i, &mut s);
        s.insert(module_code, kind);
        self.semesters.set_and_swap(i, &mut s);
        assert(self.spec_semesters() =~= old(self).spec_semesters().update(
            i as int,
            inserted(old(self).spec_semesters()[i as int], module_code@, kind),
        ));
    }

    /// Commits to `module_code` in the given year and semester: it is done
    /// by then.
    pub fn commit(&mut self, year: usize, sem: usize, module_code: &str)
        requires
            1 <= year,
            1 <= sem <= 4,
            slot(year as int, sem as int) < old(self).spec_semesters().len(),
        ensures
            final(self).spec_years() == old(self).spec_years(),
            final(self).spec_matric_year() == old(self).spec_matric_year(),
            final(self).spec_semesters() == old(self).spec_semesters().update(
                slot(year as int, sem as int),
                inserted(old(self).spec_semesters()[slot(year as int, sem as int)], module_code@, ModuleKind::Commit),
            ),
    {
        self.put(year, sem, module_code, ModuleKind::Commit);
    }

    /// Sets `module_code` as a goal for the given year and semester.
    pub fn target(&mut self, year: usize, sem: usize, module_code: &str)
        requires
            1 <= year,
            1 <= sem <= 4,
            slot(year as int, sem as int) < old(self).spec_semesters().len(),
        ensures
            final(self).spec_years() == old(self).spec_years(),
            final(self).spec_matric_year() == old(self).spec_matric_year(),
            final(self).spec_semesters() == old(self).spec_semesters().update(
                slot(year as int, sem as int),
                inserted(old(self).spec_semesters()[slot(year as int, sem as int)], module_code@, ModuleKind::Target),
            ),
    {
        self.put(year, sem, module_code, ModuleKind::Target);
    }

    /// The goal codes of every semester, semester by semester.
    pub fn targets(&self) -> (r: Vec<String>)
        ensures
            string_views(r@) == kinds_upto(self.spec_semesters(), self.spec_semesters().len() as int, ModuleKind::Target),
    {
        kinds_of(&self.semesters, ModuleKind::Target)
    }

    /// The plan over the items of `sample_space`, which should hold every
    /// item that the goals lead to; the builder keeps no semesters.
    pub fn build(&mut self, sample_space: Vec<Module>) -> (r: Plan)
        ensures
            r@.years == old(self).spec_years(),
            r@.semesters == old(self).spec_semesters(),
            r@.remain == sample_space@.map_values(|m: Module| (m@.code, m@.tree)),
            r@.offered == sample_space@.map_values(|m: Module| (m@.code, m@.semesters)),
            r@.length == 0,
    {
        let mut remain: Vec<(String, PrereqTree)> = Vec::new();
        let mut offered: Vec<(String, Vec<usize>)> = Vec::new();
        let mut i: usize = 0;
        while i < sample_space.len()
            invariant
                i <= sample_space.len(),
                remain@.len() == i,
                offered@.len() == i,
                forall|j: int| 0 <= j < i ==> (#[trigger] remain@[j]).0@ == sample_space@[j]@.code && remain@[j].1@ == sample_space@[j]@.tree,
                forall|j: int| 0 <= j < i ==> (#[trigger] offered@[j]).0@ == sample_space@[j]@.code && offered@[j].1@ == sample_space@[j]@.semesters,
            decreases sample_space.len() - i,
        {
            let m = &sample_space[i];
            remain.push((m.to_code(), m.to_prereqtree()));
            offered.push((m.to_code(), m.to_semesters()));
            i += 1;
        }
        let mut semesters: Vec<Semester> = Vec::new();
        core::mem::swap(&mut semesters, &mut self.semesters);
        let r = Plan { years: self.years, length: 0, remain, semesters, offered };
        assert(r@.remain =~= sample_space@.map_values(|m: Module| (m@.code, m@.tree)));
        assert(r@.offered =~= sample_space@.map_values(|m: Module| (m@.code, m@.semesters)));
        r
    }
}

/// The codes of the given kind in the first `n` semesters, semester by
/// semester.
pub open spec fn kinds_upto(sems: Seq<SemesterView>, n: int, kind: ModuleKind) -> Seq<Seq<char>>
    decreases n,
{
    if n <= 0 {
        Seq::empty()
    } else {
        kinds_upto(sems, n - 1, kind) + kind_codes(sems[n - 1].modules, kind)
    }
}

fn kinds_of(sems: &Vec<Semester>, kind: ModuleKind) -> (r: Vec<String>)
    ensures
        string_views(r@) == kinds_upto(sem_views(sems@), sems@.len() as int, kind),
{
    let mut out: Vec<String> = Vec::new();
    let mut i: usize = 0;
    while i < sems.len()
        invariant
            i <= sems.len(),
            string_views(out@) == kinds_upto(sem_views(sems@), i as int, kind),
        decreases sems.len() - i,
    {
        let mut codes = sems[i].get_kind(kind);
        let ghost o = out@;
        let ghost c = codes@;
        out.append(&mut codes);
        assert(string_views(o + c) =~= string_views(o) + string_views(c));
        i += 1;
    }
    out
}

/// A plan: its semesters, the items still to place with their trees, the
/// periods in which each item is offered, and its length.
pub struct Plan {
    years: usize,
    semesters: Vec<Semester>,
    remain: Vec<(String, PrereqTree)>,
    offered: Vec<(String, Vec<usize>)>,
    length: usize,
}

pub struct PlanView {
    pub years: usize,
    pub semesters: Seq<SemesterView>,
    pub remain: Seq<(Seq<char>, Req)>,
    pub offered: Seq<(Seq<char>, Seq<usize>)>,
    pub length: usize,
}

impl View for Plan {
    type V = PlanView;

    closed spec fn view(&self) -> PlanView {
        PlanView {
            years: self.years,
            semesters: sem_views(self.semesters@),
            remain: pair_views(self.remain@),
            offered: self.offered@.map_values(|o: (String, Vec<usize>)| (o.0@, o.1@)),
            length: self.length,
        }
    }
}

/// The periods in which `code` is offered: those of its first entry.
pub open spec fn offered_for(offered: Seq<(Seq<char>, Seq<usize>)>, code: Seq<char>) -> Seq<usize>
    decreases offered.len(),
{
    if offered.len() == 0 {
        Seq::empty()
    } else if offered[0].0 == code {
        offered[0].1
    } else {
        offered_for(offered.subrange(1, offered.len() as int), code)
    }
}

/// Sort entries for items with their trees as given.
pub open spec fn start_views(s: Seq<(Seq<char>, Req)>) -> Seq<crate::topo::Entry> {
    s.map_values(|p: (Seq<char>, Req)| (p.0, p.1, p.1))
}

/// Every item still to place has its periods on record.
pub open spec fn plan_wf(p: PlanView) -> bool {
    forall|i: int| 0 <= i < p.remain.len() ==> exists|j: int|
        0 <= j < p.offered.len() && (#[trigger] p.offered[j]).0 == (#[trigger] p.remain[i]).0
}

/// The semesters where `tree`, with the commitments of every semester up to
/// and including it resolved, needs nothing more, and where the item is
/// offered.
pub open spec fn fork_slots(sems: Seq<SemesterView>, tree: Req, offered: Seq<usize>, n: int) -> Seq<int>
    decreases n,
{
    if n <= 0 {
        Seq::empty()
    } else {
        let p = fork_slots(sems, tree, offered, n - 1);
        let i = n - 1;
        if offered.contains((i % 4 + 1) as usize) && is_blank(
            resolve_fold(tree, kinds_upto(sems, n, ModuleKind::Commit)),
        ) {
            p.push(i)
        } else {
            p
        }
    }
}

fn copy_usizes(v: &Vec<usize>) -> (r: Vec<usize>)
    ensures
        r@ == v@,
{
    let mut out: Vec<usize> = Vec::new();
    let mut i: usize = 0;
    while i < v.len()
        invariant
            i <= v.len(),
            out@ == v@.subrange(0, i as int),
        decreases v.len() - i,
    {
        out.push(v[i]);
        assert(out@ =~= v@.subrange(0, i + 1));
        i += 1;
    }
    assert(out@ =~= v@);
    out
}

impl Plan {
    /// A plan of `years` years with nothing in it.
    pub fn new(years: usize) -> (r: Self)
        requires
            years <= usize::MAX / 4,
        ensures
            r@.years == years,
            r@.semesters.len() == years * 4,
            forall|i: int| 0 <= i < years * 4 ==> (#[trigger] r@.semesters[i]).modules.len() == 0,
            r@.remain.len() == 0,
            r@.offered.len() == 0,
            r@.length == 0,
    {
        let r = Plan {
            years,
            semesters: empty_semesters(years * 4),
            remain: Vec::new(),
            offered: Vec::new(),
            length: 0,
        };
        assert(r@.remain =~= Seq::<(Seq<char>, Req)>::empty());
        r
    }

    /// The number of semesters the plan takes.
    pub fn len(&self) -> (r: usize)
        ensures
            r == self@.length,
    {
        self.length
    }

    /// Every committed code, each once.
    pub fn commit_set(&self) -> (r: Vec<String>)
        ensures
            distinct(r@),
            code_set(r@) == kinds_upto(self@.semesters, self@.semesters.len() as int, ModuleKind::Commit).to_set(),
    {
        let all = self.flat();
        let mut out: Vec<String> = Vec::new();
        proof { crate::codes::lemma_code_set_empty(out@); }
        let mut i: usize = 0;
        while i < all.len()
            invariant
                i <= all.len(),
                distinct(out@),
                code_set(out@) == string_views(all@).subrange(0, i as int).to_set(),
            decreases all.len() - i,
        {
            push_new(&mut out, all[i].clone());
            proof {
                string_views(all@).subrange(0, i as int).lemma_push_to_set_commute(all@[i as int]@);
                assert(string_views(all@).subrange(0, i + 1) =~= string_views(all@).subrange(0, i as int).push(all@[i as int]@));
            }
            i += 1;
        }
        assert(string_views(all@).subrange(0, i as int) =~= string_views(all@));
        out
    }

    /// Every committed code, semester by semester.
    pub fn flat(&self) -> (r: Vec<String>)
        ensures
            string_views(r@) == kinds_upto(self@.semesters, self@.semesters.len() as int, ModuleKind::Commit),
    {
        kinds_of(&self.semesters, ModuleKind::Commit)
    }

    /// Each item still to place, with its tree and the periods it is
    /// offered in.
    pub fn data(&self) -> (r: Vec<(String, (PrereqTree, Vec<usize>))>)
        requires
            plan_wf(self@),
        ensures
            r@.len() == self@.remain.len(),
            forall|i: int| 0 <= i < r@.len() ==> (#[trigger] r@[i]).0@ == self@.remain[i].0 && r@[i].1.0@
                == self@.remain[i].1 && r@[i].1.1@ == offered_for(self@.offered, self@.remain[i].0),
    {
        let ghost ov = self@.offered;
        let mut out: Vec<(String, (PrereqTree, Vec<usize>))> = Vec::new();
        let mut i: usize = 0;
        while i < self.remain.len()
            invariant
                i <= self.remain.len(),
                ov == self@.offered,
                plan_wf(self@),
                out@.len() == i,
                forall|k: int| 0 <= k < i ==> (#[trigger] out@[k]).0@ == self@.remain[k].0 && out@[k].1.0@
                    == self@.remain[k].1 && out@[k].1.1@ == offered_for(ov, self@.remain[k].0),
            decreases self.remain.len() - i,
        {
            let code = &self.remain[i].0;
            assert(self@.remain[i as int].0 == code@);
            let mut j: usize = 0;
            let mut at: usize = self.offered.len();
            assert(ov.subrange(0, ov.len() as int) =~= ov);
            while j < self.offered.len() && at == self.offered.len()
                invariant
                    j <= self.offered.len(),
                    at <= self.offered.len(),
                    ov == self@.offered,
                    at == self.offered.len() ==> offered_for(ov, code@) == offered_for(ov.subrange(j as int, ov.len() as int), code@)
                        && forall|q: int| 0 <= q < j ==> ov[q].0 != code@,
                    at < self.offered.len() ==> at == j && ov[j as int].0 == code@
                        && offered_for(ov, code@) == offered_for(ov.subrange(j as int, ov.len() as int), code@),
                decreases self.offered.len() - j + (if at == self.offered.len() { 1int } else { 0int }),
            {
                proof {
                    let t = ov.subrange(j as int, ov.len() as int);
                    assert(t.subrange(1, t.len() as int) =~= ov.subrange(j + 1, ov.len() as int));
                    assert(t[0] == ov[j as int]);
                }
                if self.offered[j].0 == *code {
                    at = j;
                } else {
                    j += 1;
                }
            }
            proof {
                if at == self.offered.len() {
                    assert(ov.subrange(0, ov.len() as int) =~= ov);
                    let q = choose|q: int| 0 <= q < ov.len() && (#[trigger] ov[q]).0 == self@.remain[i as int].0;
                    assert(false);
                }
                let t = ov.subrange(at as int, ov.len() as int);
                assert(t[0] == ov[at as int]);
            }
            let sems = copy_usizes(&self.offered[at].1);
            out.push((code.clone(), (self.remain[i].1.clone(), sems)));
            i += 1;
        }
        out
    }

    /// Treats `module_code` as done in the tree of every item left.
    fn resolve(&mut self, module_code: &str)
        ensures
            final(self)@ == (PlanView {
                remain: old(self)@.remain.map_values(|e: (Seq<char>, Req)| (e.0, resolved(e.1, module_code@))),
                ..old(self)@
            }),
    {
        let mut out: Vec<(String, PrereqTree)> = Vec::new();
        let mut i: usize = 0;
        while i < self.remain.len()
            invariant
                i <= self.remain.len(),
                out@.len() == i,
                forall|k: int| 0 <= k < i ==> (#[trigger] out@[k]).0@ == self.remain@[k].0@ && out@[k].1@
                    == resolved(self.remain@[k].1@, module_code@),
            decreases self.remain.len() - i,
        {
            let e = &self.remain[i];
            out.push((e.0.clone(), e.1.resolved(module_code)));
            i += 1;
        }
        self.remain = out;
        assert(self@.remain =~= old(self)@.remain.map_values(|e: (Seq<char>, Req)| (e.0, resolved(e.1, module_code@))));
    }

    /// Puts the items left in topological order.
    pub fn topo_sort(&mut self)
        ensures
            final(self)@ == (PlanView { remain: topo_run(start_views(old(self)@.remain)).0, ..old(self)@ }),
    {
        let mut list: Vec<(String, PrereqTree)> = Vec::new();
        core::mem::swap(&mut list, &mut self.remain);
        assert(start(list@) =~= start_views(old(self)@.remain));
        self.remain = topological_order(list).0;
    }

    /// Whether items are left to place.
    pub fn has_remaining(&self) -> (r: bool)
        ensures
            r == (self@.remain.len() > 0),
    {
        self.remain.len() > 0
    }

    /// Takes the first item left (the last one takes its place), resolves
    /// its code in the rest and puts them back in topological order.
    pub fn pop(&mut self) -> (r: String)
        requires
            old(self)@.remain.len() > 0,
        ensures
            r@ == old(self)@.remain[0].0,
            final(self)@ == (PlanView {
                remain: topo_run(
                    start_views(
                        old(self)@.remain.update(0, old(self)@.remain.last()).drop_last().map_values(
                            |e: (Seq<char>, Req)| (e.0, resolved(e.1, r@)),
                        ),
                    ),
                ).0,
                ..old(self)@
            }),
    {
        let ghost before = self.remain@;
        let (code, _) = self.remain.swap_remove(0);
        assert(pair_views(self.remain@) =~= old(self)@.remain.update(0, old(self)@.remain.last()).drop_last());
        self.resolve(code.as_str());
        self.topo_sort();
        code
    }

    fn duplicate(&self) -> (r: Plan)
        ensures
            r@ == self@,
    {
        let mut semesters: Vec<Semester> = Vec::new();
        let mut i: usize = 0;
        while i < self.semesters.len()
            invariant
                i <= self.semesters.len(),
                semesters@.len() == i,
                forall|k: int| 0 <= k < i ==> (#[trigger] semesters@[k])@ == self.semesters@[k]@,
            decreases self.semesters.len() - i,
        {
            semesters.push(self.semesters[i].duplicate());
            i += 1;
        }
        let mut remain: Vec<(String, PrereqTree)> = Vec::new();
        let mut i: usize = 0;
        while i < self.remain.len()
            invariant
                i <= self.remain.len(),
                remain@.len() == i,
                forall|k: int| 0 <= k < i ==> (#[trigger] remain@[k]).0@ == self.remain@[k].0@ && remain@[k].1@ == self.remain@[k].1@,
            decreases self.remain.len() - i,
        {
            remain.push((self.remain[i].0.clone(), self.remain[i].1.clone()));
            i += 1;
        }
        let mut offered: Vec<(String, Vec<usize>)> = Vec::new();
        let mut i: usize = 0;
        while i < self.offered.len()
            invariant
                i <= self.offered.len(),
                offered@.len() == i,
                forall|k: int| 0 <= k < i ==> (#[trigger] offered@[k]).0@ == self.offered@[k].0@ && offered@[k].1@ == self.offered@[k].1@,
            decreases self.offered.len() - i,
        {
            offered.push((self.offered[i].0.clone(), copy_usizes(&self.offered[i].1)));
            i += 1;
        }
        let r = Plan { years: self.years, semesters, remain, offered, length: self.length };
        assert(r@.semesters =~= self@.semesters);
        assert(r@.remain =~= self@.remain);
        assert(r@.offered =~= self@.offered);
        r
    }

    /// Every copy of the plan with `module_code` committed in a semester
    /// where it is offered and where `tree`, with the commitments up to and
    /// including that semester resolved, needs nothing more.
    pub fn fork(&self, module_code: &str, tree: &PrereqTree, semesters_offered: &Vec<usize>) -> (r: Vec<Plan>)
        ensures
            r@.len() == fork_slots(self@.semesters, tree@, semesters_offered@, self@.semesters.len() as int).len(),
            forall|k: int| 0 <= k < r@.len() ==> {
                let i = fork_slots(self@.semesters, tree@, semesters_offered@, self@.semesters.len() as int)[k];
                (#[trigger] r@[k])@ == (PlanView {
                    semesters: self@.semesters.update(i, inserted(self@.semesters[i], module_code@, ModuleKind::Commit)),
                    ..self@
                })
            },
    {
        let ghost sems = self@.semesters;
        let mut t = tree.clone();
        let mut plans: Vec<Plan> = Vec::new();
        let mut i: usize = 0;
        while i < self.semesters.len()
            invariant
                i <= self.semesters.len(),
                sems == self@.semesters,
                t@ == resolve_fold(tree@, kinds_upto(sems, i as int, ModuleKind::Commit)),
                plans@.len() == fork_slots(sems, tree@, semesters_offered@, i as int).len(),
                forall|k: int| 0 <= k < plans@.len() ==> {
                    let s = fork_slots(sems, tree@, semesters_offered@, i as int)[k];
                    (#[trigger] plans@[k])@ == (PlanView {
                        semesters: sems.update(s, inserted(sems[s], module_code@, ModuleKind::Commit)),
                        ..self@
                    })
                },
            decreases self.semesters.len() - i,
        {
            let commits = self.semesters[i].commits();
            let ghost before = kinds_upto(sems, i as int, ModuleKind::Commit);
            let mut j: usize = 0;
            while j < commits.len()
                invariant
                    j <= commits.len(),
                    t@ == resolve_fold(tree@, before + string_views(commits@).subrange(0, j as int)),
                decreases commits.len() - j,
            {
                t.resolve(commits[j].as_str());
                proof {
                    let ds = before + string_views(commits@).subrange(0, j + 1);
                    assert(ds.subrange(0, ds.len() - 1) =~= before + string_views(commits@).subrange(0, j as int));
                    assert(ds[ds.len() - 1] == commits@[j as int]@);
                }
                j += 1;
            }
            proof {
                assert(string_views(commits@).subrange(0, j as int) =~= string_views(commits@));
                assert(sems[i as int] == self.semesters@[i as int]@);
            }
            let sem = i % CYCLE + 1;
            let offered = crate::codes::has_code(semesters_offered, &sem);
            proof {
                if offered {
                    let q = choose|q: int| 0 <= q < semesters_offered@.len() && #[trigger] semesters_offered@[q]@ == sem@;
                    assert(semesters_offered@[q] == sem);
                }
                if semesters_offered@.contains(sem) {
                    let q = choose|q: int| 0 <= q < semesters_offered@.len() && semesters_offered@[q] == sem;
                    assert(semesters_offered@[q]@ == sem@);
                }
            }
            if offered && t.is_empty() {
                let mut plan = self.duplicate();
                assert(sem_views(plan.semesters@).len() == plan.semesters@.len());
                let mut s = Semester::new(0);
                plan.semesters.set_and_swap(i, &mut s);
                s.insert(module_code, ModuleKind::Commit);
                plan.semesters.set_and_swap(i, &mut s);
                assert(plan@.semesters =~= sems.update(i as int, inserted(sems[i as int], module_code@, ModuleKind::Commit)));
                plans.push(plan);
            }
            i += 1;
        }
        plans
    }
}

} // verus!
