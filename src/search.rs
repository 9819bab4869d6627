use vstd::prelude::*;
use crate::path::{
    choice_codes, done_before, offered_in, string_views, takeable, valid, Module, Path, PathView,
};
use crate::text::before;

verus! {

/// Every code of `goals` is done or in progress in `p`.
pub open spec fn complete(p: PathView, goals: Seq<String>) -> bool {
    forall|i: int| 0 <= i < goals.len() ==> p.done.contains(#[trigger] goals[i]@) || p.doing.contains(
        goals[i]@,
    )
}

/// A finished schedule: valid, every goal committed, nothing in progress,
/// and within the horizon.
pub open spec fn finished(p: PathView, goals: Seq<String>, space: Seq<Module>, cap: usize, horizon: usize) -> bool {
    &&& valid(p, space, cap)
    &&& p.doing.len() == 0
    &&& p.period <= horizon
    &&& forall|i: int| 0 <= i < goals.len() ==> p.done.contains(#[trigger] goals[i]@)
}

pub proof fn lemma_done_before_prefix(record: Seq<Seq<Seq<char>>>, x: Seq<Seq<char>>, i: int)
    requires
        0 <= i <= record.len(),
    ensures
        done_before(record.push(x), i) == done_before(record, i),
    decreases i,
{
    if i > 0 {
        lemma_done_before_prefix(record, x, i - 1);
        assert(record.push(x)[i - 1] == record[i - 1]);
    }
}

pub proof fn lemma_choices_offered(space: Seq<Module>, p: PathView)
    ensures
        forall|k: int| 0 <= k < choice_codes(space, p).len() ==> offered_in(
            space,
            #[trigger] choice_codes(space, p)[k],
            p.period,
            p.done,
        ),
    decreases space.len(),
{
    if space.len() > 0 {
        let prefix = space.subrange(0, space.len() - 1);
        lemma_choices_offered(prefix, p);
        assert forall|k: int| 0 <= k < choice_codes(space, p).len() implies offered_in(
            space,
            #[trigger] choice_codes(space, p)[k],
            p.period,
            p.done,
        ) by {
            let c = choice_codes(space, p)[k];
            if k < choice_codes(prefix, p).len() {
                assert(c == choice_codes(prefix, p)[k]);
                let q = choose|q: int| 0 <= q < prefix.len() && (#[trigger] prefix[q]@).code == c
                    && crate::path::takeable(prefix[q]@, p.period, p.done);
                assert(space[q] == prefix[q]);
            } else {
                let q = space.len() - 1;
                assert((space[q]@).code == c);
            }
        };
    }
}

/// Advancing keeps a schedule valid.
pub proof fn lemma_valid_advance(p: PathView, q: PathView, space: Seq<Module>, cap: usize)
    requires
        valid(p, space, cap),
        q.record == p.record.push(p.doing),
        q.done == p.done.union(p.doing.to_set()),
        q.period == p.period + 1,
        q.doing.len() == 0,
    ensures
        valid(q, space, cap),
{
    lemma_done_before_prefix(p.record, p.doing, p.record.len() as int);
    assert(q.done == done_before(q.record, q.period as int));
    assert forall|i: int, c: Seq<char>| 0 <= i < q.record.len() && #[trigger] q.record[i].contains(c)
        implies offered_in(space, c, i as nat, done_before(q.record, i)) by {
        lemma_done_before_prefix(p.record, p.doing, i);
        if i < p.record.len() {
            assert(q.record[i] == p.record[i]);
        }
    };
}

/// Taking a code on offer, below the capacity, keeps a schedule valid.
pub proof fn lemma_valid_mark(p: PathView, q: PathView, space: Seq<Module>, cap: usize, c: Seq<char>)
    requires
        valid(p, space, cap),
        offered_in(space, c, p.period, p.done),
        p.doing.len() < cap,
        q.record == p.record,
        q.done == p.done,
        q.period == p.period,
        q.doing == p.doing.push(c),
    ensures
        valid(q, space, cap),
{
    assert forall|d: Seq<char>| #[trigger] q.doing.contains(d) implies offered_in(space, d, q.period, q.done) by {
        if d != c {
            let k = choose|k: int| 0 <= k < q.doing.len() && q.doing[k] == d;
            assert(p.doing[k] == d);
            assert(p.doing.contains(d));
        }
    };
}

/// The codes are in strictly increasing order.
pub open spec fn sorted_codes(t: Seq<Seq<char>>) -> bool {
    forall|i: int, j: int| 0 <= i < j < t.len() ==> before(#[trigger] t[i], #[trigger] t[j])
}

/// `w` is a schedule, period by period, each period's codes listed in
/// increasing order: every code may be taken in its period after the
/// earlier periods, and no period holds more than `cap` codes.
pub open spec fn schedule(w: Seq<Seq<Seq<char>>>, space: Seq<Module>, cap: usize) -> bool {
    forall|i: int| 0 <= i < w.len() ==> {
        &&& sorted_codes(#[trigger] w[i])
        &&& w[i].len() <= cap
        &&& forall|j: int| 0 <= j < w[i].len() ==> offered_in(space, #[trigger] w[i][j], i as nat, done_before(w, i))
    }
}

/// Every goal is taken somewhere in `w`.
pub open spec fn covers(w: Seq<Seq<Seq<char>>>, goals: Seq<String>) -> bool {
    forall|i: int| 0 <= i < goals.len() ==> done_before(w, w.len() as int).contains(#[trigger] goals[i]@)
}

/// The first `k` periods of `rec` hold those of `w`.
pub open spec fn dominated(rec: Seq<Seq<Seq<char>>>, w: Seq<Seq<Seq<char>>>, k: int) -> bool {
    &&& rec.len() == k
    &&& k <= w.len()
    &&& forall|i: int| 0 <= i < k ==> (#[trigger] w[i]).to_set().subset_of(rec[i].to_set())
}

/// Within the period in progress of `p`, the codes `t` can still all be
/// taken: each is on offer, they fit, and what is taken so far is a prefix
/// of them or holds them all.
pub open spec fn obligation(p: PathView, t: Seq<Seq<char>>, space: Seq<Module>, cap: usize, horizon: usize) -> bool {
    &&& sorted_codes(t)
    &&& t.len() <= cap
    &&& p.period < horizon
    &&& forall|j: int| 0 <= j < t.len() ==> offered_in(space, #[trigger] t[j], p.period, p.done)
    &&& ((p.doing.len() <= t.len() && p.doing == t.subrange(0, p.doing.len() as int)) || t.to_set().subset_of(
        p.doing.to_set(),
    ))
}

/// `rec2` is `rec` with one more period that holds the codes `t`.
pub open spec fn extends(rec2: Seq<Seq<Seq<char>>>, rec: Seq<Seq<Seq<char>>>, t: Seq<Seq<char>>) -> bool {
    &&& rec2.len() == rec.len() + 1
    &&& rec2.subrange(0, rec.len() as int) == rec
    &&& t.to_set().subset_of(rec2[rec.len() as int].to_set())
}

/// The search state of schedule `w` in period `i` with its first `j`
/// codes taken.
pub open spec fn state_at(w: Seq<Seq<Seq<char>>>, i: int, j: int) -> PathView {
    PathView { record: w.subrange(0, i), done: done_before(w, i), period: i as nat, doing: w[i].subrange(0, j) }
}

/// A schedule as the search builds it: its periods are listed in
/// increasing order, it takes every goal, no state before its very end
/// already holds every goal, and each period but the last is closed only
/// when full or when nothing more may join it.
pub open spec fn canonical(w: Seq<Seq<Seq<char>>>, space: Seq<Module>, cap: usize, goals: Seq<String>) -> bool {
    &&& schedule(w, space, cap)
    &&& covers(w, goals)
    &&& forall|i: int, j: int|
        0 <= i < w.len() && 0 <= j <= w[i].len() && !(i == w.len() - 1 && j == w[i].len()) ==> !complete(
            #[trigger] state_at(w, i, j),
            goals,
        )
    &&& forall|i: int| 0 <= i < w.len() - 1 ==> (#[trigger] w[i]).len() == cap || choice_codes(space, state_at(w, i, w[i].len() as int)).len() == 0
}

/// `p` with `d` taken in its period in progress instead.
pub open spec fn with_doing(p: PathView, d: Seq<Seq<char>>) -> PathView {
    PathView { doing: d, ..p }
}

/// Within the period in progress of `p`, exactly the codes `t` are to be
/// taken, and what is taken so far is a prefix of them: each is on offer,
/// no state before the end holds every goal, and the period then closes
/// (when `last` is false: full, or nothing more may join) or completes the
/// goals (when `last` is true).
pub open spec fn exact_obligation(
    p: PathView,
    t: Seq<Seq<char>>,
    space: Seq<Module>,
    cap: usize,
    horizon: usize,
    goals: Seq<String>,
    last: bool,
) -> bool {
    &&& sorted_codes(t)
    &&& t.len() <= cap
    &&& p.period < horizon
    &&& forall|j: int| 0 <= j < t.len() ==> offered_in(space, #[trigger] t[j], p.period, p.done)
    &&& p.doing.len() <= t.len() && p.doing == t.subrange(0, p.doing.len() as int)
    &&& forall|j: int|
        p.doing.len() <= j <= t.len() && !(last && j == t.len()) ==> !complete(
            #[trigger] with_doing(p, t.subrange(0, j)),
            goals,
        )
    &&& last ==> complete(with_doing(p, t), goals)
    &&& !last ==> t.len() == cap || choice_codes(space, with_doing(p, t)).len() == 0
}

/// A schedule with the periods `rec` and then `t` was found (when `last`)
/// or closed.
pub open spec fn reached(found: Seq<Path>, closed: Seq<Path>, rec: Seq<Seq<Seq<char>>>, t: Seq<Seq<char>>, last: bool) -> bool {
    if last {
        exists|f: int| 0 <= f < found.len() && (#[trigger] found[f])@.record == rec.push(t)
    } else {
        exists|q: int| 0 <= q < closed.len() && (#[trigger] closed[q])@.record == rec.push(t)
    }
}

pub proof fn lemma_reached_grows(
    f1: Seq<Path>,
    c1: Seq<Path>,
    f2: Seq<Path>,
    c2: Seq<Path>,
    rec: Seq<Seq<Seq<char>>>,
    t: Seq<Seq<char>>,
    last: bool,
)
    requires
        reached(f1, c1, rec, t, last),
        f1.len() <= f2.len(),
        c1.len() <= c2.len(),
        f1 == f2.subrange(0, f1.len() as int),
        c1 == c2.subrange(0, c1.len() as int),
    ensures
        reached(f2, c2, rec, t, last),
{
    if last {
        let f = choose|f: int| 0 <= f < f1.len() && (#[trigger] f1[f])@.record == rec.push(t);
        assert(f2[f] == f2.subrange(0, f1.len() as int)[f]);
    } else {
        let q = choose|q: int| 0 <= q < c1.len() && (#[trigger] c1[q])@.record == rec.push(t);
        assert(c2[q] == c2.subrange(0, c1.len() as int)[q]);
    }
}

/// What the search keeps of every state: the committed periods are in
/// increasing order, closed only when full or when nothing more could join,
/// and no state met so far held every goal.
pub open spec fn on_track(p: PathView, space: Seq<Module>, cap: usize, goals: Seq<String>) -> bool {
    &&& forall|i: int| 0 <= i < p.record.len() ==> sorted_codes(#[trigger] p.record[i])
    &&& forall|i: int, j: int|
        0 <= i < p.record.len() && 0 <= j <= p.record[i].len() ==> !complete(#[trigger] state_at(p.record, i, j), goals)
    &&& forall|i: int| 0 <= i < p.record.len() ==> (#[trigger] p.record[i]).len() == cap || choice_codes(
        space,
        state_at(p.record, i, p.record[i].len() as int),
    ).len() == 0
    &&& sorted_codes(p.doing)
    &&& forall|j: int| 0 <= j < p.doing.len() ==> !complete(#[trigger] with_doing(p, p.doing.subrange(0, j)), goals)
}

pub proof fn lemma_state_at_push(rec: Seq<Seq<Seq<char>>>, x: Seq<Seq<char>>, i: int, j: int)
    requires
        0 <= i < rec.len(),
    ensures
        state_at(rec.push(x), i, j) == state_at(rec, i, j),
{
    lemma_done_before_prefix(rec, x, i);
    assert(rec.push(x).subrange(0, i) =~= rec.subrange(0, i));
    assert(rec.push(x)[i] == rec[i]);
}

/// The state after closing the period of `p` sits at the end of the new
/// record.
pub proof fn lemma_state_at_last(p: PathView, q: PathView, j: int)
    requires
        p.record.len() == p.period,
        p.done == done_before(p.record, p.period as int),
        q.record == p.record.push(p.doing),
        0 <= j <= p.doing.len(),
    ensures
        state_at(q.record, p.period as int, j) == with_doing(p, p.doing.subrange(0, j)),
{
    let n = p.period as int;
    lemma_done_before_prefix(p.record, p.doing, n);
    assert(q.record.subrange(0, n) =~= p.record);
    assert(q.record[n] == p.doing);
}

proof fn lemma_choices_after(space: Seq<Module>, p: PathView)
    ensures
        forall|k: int| 0 <= k < choice_codes(space, p).len() ==> p.doing.len() == 0 || before(
            p.doing.last(),
            #[trigger] choice_codes(space, p)[k],
        ),
    decreases space.len(),
{
    if space.len() > 0 {
        let prefix = space.subrange(0, space.len() - 1);
        lemma_choices_after(prefix, p);
        assert forall|k: int| 0 <= k < choice_codes(space, p).len() implies p.doing.len() == 0 || before(
            p.doing.last(),
            #[trigger] choice_codes(space, p)[k],
        ) by {
            if k < choice_codes(prefix, p).len() {
                assert(choice_codes(space, p)[k] == choice_codes(prefix, p)[k]);
            }
        };
    }
}

proof fn lemma_advance_on_track(p: PathView, q: PathView, space: Seq<Module>, cap: usize, goals: Seq<String>)
    requires
        on_track(p, space, cap, goals),
        valid(p, space, cap),
        !complete(p, goals),
        p.doing.len() >= cap || choice_codes(space, p).len() == 0,
        q.record == p.record.push(p.doing),
        q.doing.len() == 0,
    ensures
        on_track(q, space, cap, goals),
{
    let n = p.period as int;
    assert forall|i: int| 0 <= i < q.record.len() implies sorted_codes(#[trigger] q.record[i]) by {
        if i < n {
            assert(q.record[i] == p.record[i]);
        }
    };
    assert forall|i: int, j: int| 0 <= i < q.record.len() && 0 <= j <= q.record[i].len() implies !complete(
        #[trigger] state_at(q.record, i, j),
        goals,
    ) by {
        if i < n {
            lemma_state_at_push(p.record, p.doing, i, j);
            assert(q.record[i] == p.record[i]);
        } else {
            lemma_state_at_last(p, q, j);
            if j == p.doing.len() {
                assert(p.doing.subrange(0, j) =~= p.doing);
                assert(with_doing(p, p.doing) == p);
            }
        }
    };
    assert forall|i: int| 0 <= i < q.record.len() implies (#[trigger] q.record[i]).len() == cap || choice_codes(
        space,
        state_at(q.record, i, q.record[i].len() as int),
    ).len() == 0 by {
        if i < n {
            lemma_state_at_push(p.record, p.doing, i, p.record[i].len() as int);
            assert(q.record[i] == p.record[i]);
        } else {
            lemma_state_at_last(p, q, p.doing.len() as int);
            assert(p.doing.subrange(0, p.doing.len() as int) =~= p.doing);
            assert(with_doing(p, p.doing) == p);
        }
    };
    assert(sorted_codes(q.doing));
}

proof fn lemma_found_canonical(p: PathView, q: PathView, space: Seq<Module>, cap: usize, goals: Seq<String>)
    requires
        on_track(p, space, cap, goals),
        valid(p, space, cap),
        valid(q, space, cap),
        complete(p, goals),
        q.record == p.record.push(p.doing),
        q.done == p.done.union(p.doing.to_set()),
        q.period == p.period + 1,
    ensures
        canonical(q.record, space, cap, goals),
{
    let w = q.record;
    let n = p.period as int;
    assert(schedule(w, space, cap)) by {
        assert forall|i: int| 0 <= i < w.len() implies {
            &&& sorted_codes(#[trigger] w[i])
            &&& w[i].len() <= cap
            &&& forall|j: int| 0 <= j < w[i].len() ==> offered_in(space, #[trigger] w[i][j], i as nat, done_before(w, i))
        } by {
            if i < n {
                assert(w[i] == p.record[i]);
            }
            assert forall|j: int| 0 <= j < w[i].len() implies offered_in(space, #[trigger] w[i][j], i as nat, done_before(w, i)) by {
                assert(w[i].contains(w[i][j]));
            };
        };
    };
    assert(covers(w, goals)) by {
        assert forall|g: int| 0 <= g < goals.len() implies done_before(w, w.len() as int).contains(#[trigger] goals[g]@) by {
            if !p.done.contains(goals[g]@) {
                assert(p.doing.to_set().contains(goals[g]@));
            }
        };
    };
    assert forall|i: int, j: int|
        0 <= i < w.len() && 0 <= j <= w[i].len() && !(i == w.len() - 1 && j == w[i].len()) implies !complete(
            #[trigger] state_at(w, i, j),
            goals,
        ) by {
        if i < n {
            lemma_state_at_push(p.record, p.doing, i, j);
        } else {
            lemma_state_at_last(p, q, j);
        }
    };
    assert forall|i: int| 0 <= i < w.len() - 1 implies (#[trigger] w[i]).len() == cap || choice_codes(
        space,
        state_at(w, i, w[i].len() as int),
    ).len() == 0 by {
        lemma_state_at_push(p.record, p.doing, i, p.record[i].len() as int);
        assert(w[i] == p.record[i]);
    };
}

proof fn lemma_mark_on_track(p: PathView, q: PathView, space: Seq<Module>, cap: usize, goals: Seq<String>, c: Seq<char>)
    requires
        on_track(p, space, cap, goals),
        !complete(p, goals),
        p.doing.len() == 0 || before(p.doing.last(), c),
        q.record == p.record,
        q.done == p.done,
        q.period == p.period,
        q.doing == p.doing.push(c),
    ensures
        on_track(q, space, cap, goals),
{
    let d = p.doing;
    assert forall|a: int, b: int| 0 <= a < b < q.doing.len() implies before(#[trigger] q.doing[a], #[trigger] q.doing[b]) by {
        if b == d.len() {
            if a < d.len() - 1 {
                assert(before(d[a], d[d.len() - 1]));
                crate::text::lemma_before_transitive(d[a], d[d.len() - 1], c);
            }
        } else {
            assert(q.doing[a] == d[a] && q.doing[b] == d[b]);
        }
    };
    assert forall|j: int| 0 <= j < q.doing.len() implies !complete(#[trigger] with_doing(q, q.doing.subrange(0, j)), goals) by {
        assert(q.doing.subrange(0, j) =~= d.subrange(0, j));
        assert(with_doing(q, q.doing.subrange(0, j)) == with_doing(p, d.subrange(0, j)));
        if j == d.len() {
            assert(d.subrange(0, j) =~= d);
            assert(with_doing(p, d) == p);
        }
    };
}

pub proof fn lemma_dominated_done(rec: Seq<Seq<Seq<char>>>, w: Seq<Seq<Seq<char>>>, k: int)
    requires
        0 <= k,
        dominated(rec, w, k),
    ensures
        done_before(w, k).subset_of(done_before(rec, k)),
    decreases k,
{
    if k > 0 {
        let r2 = rec.subrange(0, k - 1);
        assert(dominated(r2, w, k - 1)) by {
            assert forall|i: int| 0 <= i < k - 1 implies (#[trigger] w[i]).to_set().subset_of(r2[i].to_set()) by {
                assert(r2[i] == rec[i]);
            };
        };
        lemma_dominated_done(r2, w, k - 1);
        lemma_done_before_same(rec, r2, k - 1);
        assert(w[k - 1].to_set().subset_of(rec[k - 1].to_set()));
    }
}

/// `done_before` reads only the first `i` periods.
pub proof fn lemma_done_before_same(a: Seq<Seq<Seq<char>>>, b: Seq<Seq<Seq<char>>>, i: int)
    requires
        0 <= i <= a.len(),
        i <= b.len(),
        forall|j: int| 0 <= j < i ==> a[j] == b[j],
    ensures
        done_before(a, i) == done_before(b, i),
    decreases i,
{
    if i > 0 {
        lemma_done_before_same(a, b, i - 1);
    }
}

pub proof fn lemma_offered_monotone(space: Seq<Module>, c: Seq<char>, i: nat, d1: Set<Seq<char>>, d2: Set<Seq<char>>)
    requires
        offered_in(space, c, i, d1),
        d1.subset_of(d2),
    ensures
        offered_in(space, c, i, d2),
{
    let k = choose|k: int| 0 <= k < space.len() && (#[trigger] space[k]@).code == c && takeable(space[k]@, i, d1);
    crate::laws::lemma_satisfied_monotone(space[k]@.tree, d1, d2);
}

pub proof fn lemma_choice_member(space: Seq<Module>, p: PathView, c: Seq<char>)
    requires
        offered_in(space, c, p.period, p.done),
        p.doing.len() == 0 || before(p.doing.last(), c),
    ensures
        choice_codes(space, p).contains(c),
    decreases space.len(),
{
    let k = choose|k: int| 0 <= k < space.len() && (#[trigger] space[k]@).code == c && takeable(space[k]@, p.period, p.done);
    let prefix = space.subrange(0, space.len() - 1);
    if k == space.len() - 1 {
        assert(choice_codes(space, p).last() == c);
    } else {
        assert(prefix[k] == space[k]);
        lemma_choice_member(prefix, p, c);
        let i = choose|i: int| 0 <= i < choice_codes(prefix, p).len() && choice_codes(prefix, p)[i] == c;
        assert(choice_codes(space, p)[i] == c);
    }
}

/// Expands `p` within its period: a complete schedule is closed and kept in
/// `found`; one that can take nothing more, or is full, is closed and kept
/// in `closed`; otherwise each choice is taken in a copy, in order. Any
/// codes that `p` can still all take in its period end up, with `p`'s
/// periods before them, in some closed schedule, unless one was found.
#[verifier::loop_isolation(false)]
fn expand(
    p: Path,
    goals: &Vec<String>,
    space: &Vec<Module>,
    cap: usize,
    horizon: usize,
    found: &mut Vec<Path>,
    closed: &mut Vec<Path>,
)
    requires
        valid(p@, space@, cap),
        p@.period <= horizon < usize::MAX,
        p@.doing.len() == 0 ==> !complete(p@, goals@),
        p@.doing.len() > 0 ==> p@.period < horizon,
        on_track(p@, space@, cap, goals@),
        forall|i: int| 0 <= i < old(found)@.len() ==> finished(#[trigger] old(found)@[i]@, goals@, space@, cap, horizon)
            && old(found)@[i]@.period == p@.period + 1 && canonical(old(found)@[i]@.record, space@, cap, goals@),
        forall|i: int| 0 <= i < old(closed)@.len() ==> valid(#[trigger] old(closed)@[i]@, space@, cap)
            && old(closed)@[i]@.doing.len() == 0 && old(closed)@[i]@.period == p@.period + 1
            && !complete(old(closed)@[i]@, goals@) && on_track(old(closed)@[i]@, space@, cap, goals@),
    ensures
        forall|i: int| 0 <= i < final(found)@.len() ==> finished(#[trigger] final(found)@[i]@, goals@, space@, cap, horizon)
            && final(found)@[i]@.period == p@.period + 1 && canonical(final(found)@[i]@.record, space@, cap, goals@),
        forall|i: int| 0 <= i < final(closed)@.len() ==> valid(#[trigger] final(closed)@[i]@, space@, cap)
            && final(closed)@[i]@.doing.len() == 0 && final(closed)@[i]@.period == p@.period + 1
            && !complete(final(closed)@[i]@, goals@) && on_track(final(closed)@[i]@, space@, cap, goals@),
        old(found)@.len() <= final(found)@.len(),
        old(found)@ == final(found)@.subrange(0, old(found)@.len() as int),
        old(closed)@.len() <= final(closed)@.len(),
        old(closed)@ == final(closed)@.subrange(0, old(closed)@.len() as int),
        forall|t: Seq<Seq<char>>| #[trigger] obligation(p@, t, space@, cap, horizon) ==> final(found)@.len() > 0
            || exists|q: int| 0 <= q < final(closed)@.len() && extends(final(closed)@[q]@.record, p@.record, t),
        forall|t: Seq<Seq<char>>, last: bool| #[trigger] exact_obligation(p@, t, space@, cap, horizon, goals@, last)
            ==> reached(final(found)@, final(closed)@, p@.record, t, last),
    decreases cap - p@.doing.len(),
{
    if p.is_done(goals) {
        let mut q = p;
        q.next_sem();
        proof {
            lemma_valid_advance(p@, q@, space@, cap);
            assert forall|i: int| 0 <= i < goals@.len() implies q@.done.contains(#[trigger] goals@[i]@) by {
                if p@.doing.contains(goals@[i]@) {
                    assert(p@.doing.to_set().contains(goals@[i]@));
                }
            };
            assert(p@.doing.len() > 0);
            lemma_found_canonical(p@, q@, space@, cap, goals@);
        }
        let ghost fb = found@;
        found.push(q);
        proof {
            assert(old(closed)@ =~= closed@.subrange(0, old(closed)@.len() as int));
            assert(old(found)@ =~= found@.subrange(0, old(found)@.len() as int));
            assert forall|t: Seq<Seq<char>>, last: bool| #[trigger] exact_obligation(p@, t, space@, cap, horizon, goals@, last)
                implies reached(found@, closed@, p@.record, t, last) by {
                let dl = p@.doing.len() as int;
                assert(with_doing(p@, t.subrange(0, dl)) == p@);
                assert(last && dl == t.len());
                assert(p@.doing =~= t);
                assert(found@[fb.len() as int] == q);
            };
        }
        return;
    }
    if p.len() >= horizon {
        assert(old(closed)@ =~= closed@.subrange(0, old(closed)@.len() as int));
        assert(old(found)@ =~= found@.subrange(0, old(found)@.len() as int));
        return;
    }
    let choices = p.choices(space);
    if choices.len() == 0 || p.doing_count() >= cap {
        let mut q = p;
        q.next_sem();
        proof {
            lemma_valid_advance(p@, q@, space@, cap);
            assert forall|i: int| 0 <= i < goals@.len() && q@.done.contains(#[trigger] goals@[i]@)
                implies p@.done.contains(goals@[i]@) || p@.doing.contains(goals@[i]@) by {
                if !p@.done.contains(goals@[i]@) {
                    assert(p@.doing.to_set().contains(goals@[i]@));
                }
            };
            assert(!complete(q@, goals@));
            lemma_advance_on_track(p@, q@, space@, cap, goals@);
        }
        let ghost before_closed = closed@;
        closed.push(q);
        proof {
            assert(old(closed)@ =~= closed@.subrange(0, old(closed)@.len() as int));
            assert forall|t: Seq<Seq<char>>| #[trigger] obligation(p@, t, space@, cap, horizon) implies found@.len() > 0
                || exists|x: int| 0 <= x < closed@.len() && extends(closed@[x]@.record, p@.record, t) by {
                let dl = p@.doing.len() as int;
                if !t.to_set().subset_of(p@.doing.to_set()) {
                    if dl < t.len() {
                        // the next code of `t` would still be a choice
                        if dl > 0 {
                            assert(p@.doing.last() == t[dl - 1]);
                            assert(before(t[dl - 1], t[dl]));
                        }
                        lemma_choice_member(space@, p@, t[dl]);
                        assert(false);
                    } else {
                        assert(p@.doing =~= t);
                        assert(false);
                    }
                }
                let x = before_closed.len() as int;
                assert(closed@[x] == q);
                assert(q@.record.subrange(0, p@.record.len() as int) =~= p@.record);
            };
            assert(old(found)@ =~= found@.subrange(0, old(found)@.len() as int));
            assert forall|t: Seq<Seq<char>>, last: bool| #[trigger] exact_obligation(p@, t, space@, cap, horizon, goals@, last)
                implies reached(found@, closed@, p@.record, t, last) by {
                let dl = p@.doing.len() as int;
                if dl < t.len() {
                    if dl > 0 {
                        assert(p@.doing.last() == t[dl - 1]);
                        assert(before(t[dl - 1], t[dl]));
                    }
                    lemma_choice_member(space@, p@, t[dl]);
                    assert(false);
                }
                assert(p@.doing =~= t);
                assert(with_doing(p@, t) == p@);
                if last {
                    assert(false);
                }
                let x = before_closed.len() as int;
                assert(closed@[x] == q);
            };
        }
        return;
    }
    proof { lemma_choices_offered(space@, p@); }
    let ghost cv = string_views(choices@);
    let mut k: usize = 0;
    while k < choices.len()
        invariant
            k <= choices.len(),
            cv == string_views(choices@),
            cv == choice_codes(space@, p@),
            choices@.len() > 0,
            p@.doing.len() < cap,
            p@.period < horizon,
            forall|i: int| 0 <= i < found@.len() ==> finished(#[trigger] found@[i]@, goals@, space@, cap, horizon)
                && found@[i]@.period == p@.period + 1 && canonical(found@[i]@.record, space@, cap, goals@),
            forall|i: int| 0 <= i < closed@.len() ==> valid(#[trigger] closed@[i]@, space@, cap)
                && closed@[i]@.doing.len() == 0 && closed@[i]@.period == p@.period + 1
                && !complete(closed@[i]@, goals@) && on_track(closed@[i]@, space@, cap, goals@),
            old(found)@.len() <= found@.len(),
            old(found)@ == found@.subrange(0, old(found)@.len() as int),
            old(closed)@.len() <= closed@.len(),
            old(closed)@ == closed@.subrange(0, old(closed)@.len() as int),
            !complete(p@, goals@),
            forall|t: Seq<Seq<char>>, last: bool| #[trigger] exact_obligation(p@, t, space@, cap, horizon, goals@, last) && (
                exists|i: int| 0 <= i < k && p@.doing.len() < t.len() && cv[i] == t[p@.doing.len() as int])
                ==> reached(found@, closed@, p@.record, t, last),
            forall|t: Seq<Seq<char>>| #[trigger] obligation(p@, t, space@, cap, horizon) && (
                (t.to_set().subset_of(p@.doing.to_set()) && k > 0)
                || (exists|i: int| 0 <= i < k && p@.doing.len() < t.len() && cv[i] == t[p@.doing.len() as int]))
                ==> found@.len() > 0 || exists|q: int| 0 <= q < closed@.len() && extends(closed@[q]@.record, p@.record, t),
        decreases choices.len() - k,
    {
        let mut q = p.clone();
        q.mark(choices[k].as_str());
        let ghost c = cv[k as int];
        proof {
            assert(cv[k as int] == choices@[k as int]@);
            lemma_valid_mark(p@, q@, space@, cap, choices@[k as int]@);
            assert(q@.doing.len() > 0);
            lemma_choices_after(space@, p@);
            lemma_mark_on_track(p@, q@, space@, cap, goals@, choices@[k as int]@);
        }
        let ghost found_before = found@;
        let ghost closed_before = closed@;
        expand(q, goals, space, cap, horizon, found, closed);
        proof {
            assert(old(closed)@ =~= closed@.subrange(0, old(closed)@.len() as int)) by {
                assert forall|i: int| 0 <= i < old(closed)@.len() implies old(closed)@[i] == closed@[i] by {
                    assert(old(closed)@[i] == closed_before.subrange(0, old(closed)@.len() as int)[i]);
                    assert(closed_before[i] == closed@.subrange(0, closed_before.len() as int)[i]);
                };
            };
            assert(old(found)@ =~= found@.subrange(0, old(found)@.len() as int)) by {
                assert forall|i: int| 0 <= i < old(found)@.len() implies old(found)@[i] == found@[i] by {
                    assert(old(found)@[i] == found_before.subrange(0, old(found)@.len() as int)[i]);
                    assert(found_before[i] == found@.subrange(0, found_before.len() as int)[i]);
                };
            };
            assert forall|t: Seq<Seq<char>>, last: bool| #[trigger] exact_obligation(p@, t, space@, cap, horizon, goals@, last) && (
                exists|i: int| 0 <= i < k + 1 && p@.doing.len() < t.len() && cv[i] == t[p@.doing.len() as int])
                implies reached(found@, closed@, p@.record, t, last) by {
                let dl = p@.doing.len() as int;
                if exists|i: int| 0 <= i < k && p@.doing.len() < t.len() && cv[i] == t[dl] {
                    lemma_reached_grows(found_before, closed_before, found@, closed@, p@.record, t, last);
                } else {
                    assert(cv[k as int] == t[dl]);
                    assert(q@.doing =~= t.subrange(0, dl + 1));
                    assert forall|x: Seq<Seq<char>>| with_doing(q@, x) == with_doing(p@, x) by {};
                    assert(exact_obligation(q@, t, space@, cap, horizon, goals@, last));
                }
            };
            assert forall|t: Seq<Seq<char>>| #[trigger] obligation(p@, t, space@, cap, horizon) && (
                (t.to_set().subset_of(p@.doing.to_set()) && k + 1 > 0)
                || (exists|i: int| 0 <= i < k + 1 && p@.doing.len() < t.len() && cv[i] == t[p@.doing.len() as int]))
                implies found@.len() > 0 || exists|x: int| 0 <= x < closed@.len() && extends(closed@[x]@.record, p@.record, t) by {
                let dl = p@.doing.len() as int;
                let earlier = (t.to_set().subset_of(p@.doing.to_set()) && k > 0)
                    || (exists|i: int| 0 <= i < k && dl < t.len() && cv[i] == t[dl]);
                if earlier {
                    if found_before.len() == 0 {
                        let x = choose|x: int| 0 <= x < closed_before.len() && extends(closed_before[x]@.record, p@.record, t);
                        assert(closed@[x] == closed_before[x]) by {
                            assert(closed_before[x] == closed@.subrange(0, closed_before.len() as int)[x]);
                        };
                    }
                } else {
                    // this choice is the next code of `t`, or `t` is already taken
                    assert(q@.period == p@.period && q@.done == p@.done);
                    if t.to_set().subset_of(p@.doing.to_set()) {
                        assert(t.to_set().subset_of(q@.doing.to_set())) by {
                            assert forall|y: Seq<char>| t.to_set().contains(y) implies q@.doing.to_set().contains(y) by {
                                let z = choose|z: int| 0 <= z < p@.doing.len() && p@.doing[z] == y;
                                assert(q@.doing[z] == y);
                            };
                        };
                    } else {
                        assert(cv[k as int] == t[dl]);
                        assert(p@.doing.len() <= t.len() && p@.doing == t.subrange(0, dl));
                        assert(q@.doing =~= t.subrange(0, dl + 1));
                    }
                    assert(obligation(q@, t, space@, cap, horizon));
                }
            };
        }
        k += 1;
    }
    proof {
        assert forall|t: Seq<Seq<char>>, last: bool| #[trigger] exact_obligation(p@, t, space@, cap, horizon, goals@, last)
            implies reached(found@, closed@, p@.record, t, last) by {
            let dl = p@.doing.len() as int;
            if dl == t.len() {
                assert(p@.doing =~= t);
                assert(with_doing(p@, t) == p@);
                assert(false);
            }
            if dl > 0 {
                assert(p@.doing.last() == t[dl - 1]);
                assert(before(t[dl - 1], t[dl]));
            }
            lemma_choice_member(space@, p@, t[dl]);
            let i = choose|i: int| 0 <= i < cv.len() && cv[i] == t[dl];
        };
        assert forall|t: Seq<Seq<char>>| #[trigger] obligation(p@, t, space@, cap, horizon) implies found@.len() > 0
            || exists|x: int| 0 <= x < closed@.len() && extends(closed@[x]@.record, p@.record, t) by {
            let dl = p@.doing.len() as int;
            if !t.to_set().subset_of(p@.doing.to_set()) {
                if dl < t.len() {
                    if dl > 0 {
                        assert(p@.doing.last() == t[dl - 1]);
                        assert(before(t[dl - 1], t[dl]));
                    }
                    lemma_choice_member(space@, p@, t[dl]);
                    let i = choose|i: int| 0 <= i < cv.len() && cv[i] == t[dl];
                } else {
                    assert(p@.doing =~= t);
                }
            }
        };
    }
}

/// The minimal schedules for `goals` over the items of `sample_space`, with
/// at most `cap` codes a period and at most `horizon` periods, found by a
/// uniform-cost search: all schedules of one length are explored before any
/// longer one, so the first length at which some schedule is complete is
/// the one returned. Every schedule returned is valid and complete, all
/// have the same length, and no schedule within the horizon that takes
/// every goal is shorter. Empty exactly when no schedule fits the horizon.
pub fn find_minimal_schedules(goals: &Vec<String>, sample_space: &Vec<Module>, cap: usize, horizon: usize) -> (r: Vec<Path>)
    requires
        horizon < usize::MAX,
    ensures
        forall|i: int| 0 <= i < r@.len() ==> finished(#[trigger] r@[i]@, goals@, sample_space@, cap, horizon),
        forall|i: int, j: int| 0 <= i < r@.len() && 0 <= j < r@.len() ==> (#[trigger] r@[i]@).period
            == (#[trigger] r@[j]@).period,
        forall|w: Seq<Seq<Seq<char>>>| #[trigger] schedule(w, sample_space@, cap) && covers(w, goals@) && w.len() <= horizon
            ==> r@.len() > 0 && forall|i: int| 0 <= i < r@.len() ==> (#[trigger] r@[i]@).period <= w.len(),
        forall|w: Seq<Seq<Seq<char>>>| #[trigger] canonical(w, sample_space@, cap, goals@) && w.len() <= horizon && r@.len() > 0
            && r@[0]@.period == w.len() ==> exists|j: int| 0 <= j < r@.len() && (#[trigger] r@[j]@).record == w,
        forall|i: int, j: int| 0 <= i < r@.len() && 0 <= j < r@.len() && i != j ==> (#[trigger] r@[i]@).record
            != (#[trigger] r@[j]@).record,
        forall|i: int| 0 <= i < r@.len() ==> canonical((#[trigger] r@[i]@).record, sample_space@, cap, goals@),
{
    let start = Path::new();
    proof {
        assert(start@.doing.len() == 0);
        assert(start@.record.len() == 0);
        assert(done_before(start@.record, 0) == start@.done);
    }
    if start.is_done(goals) {
        let mut r: Vec<Path> = Vec::new();
        r.push(start);
        proof {
            assert forall|w: Seq<Seq<Seq<char>>>| #[trigger] canonical(w, sample_space@, cap, goals@) && w.len() <= horizon && r@.len() > 0
                && r@[0]@.period == w.len() implies exists|j: int| 0 <= j < r@.len() && (#[trigger] r@[j]@).record == w by {
                assert(w =~= r@[0]@.record);
            };
            let w0 = r@[0]@.record;
            assert(w0.len() == 0);
            assert(covers(w0, goals@)) by {
                assert forall|g: int| 0 <= g < goals@.len() implies done_before(w0, w0.len() as int).contains(#[trigger] goals@[g]@) by {
                    assert(start@.done.contains(goals@[g]@) || start@.doing.contains(goals@[g]@));
                };
            };
        }
        return r;
    }
    let mut level: Vec<Path> = Vec::new();
    level.push(start);
    let mut found: Vec<Path> = Vec::new();
    let mut k: usize = 0;
    proof {
        assert forall|w: Seq<Seq<Seq<char>>>| #[trigger] schedule(w, sample_space@, cap) && covers(w, goals@) && w.len() <= horizon
            implies 0 < w.len() && exists|i: int| 0 <= i < level@.len() && dominated(level@[i]@.record, w, 0) by {
            if w.len() == 0 {
                let g = choose|g: int| 0 <= g < goals@.len() && !(start@.done.contains(#[trigger] goals@[g]@) || start@.doing.contains(goals@[g]@));
                assert(done_before(w, 0).contains(goals@[g]@));
            }
            assert(dominated(level@[0]@.record, w, 0));
        };
        assert forall|w: Seq<Seq<Seq<char>>>| #[trigger] canonical(w, sample_space@, cap, goals@) && w.len() <= horizon
            implies exists|i: int| 0 <= i < level@.len() && level@[i]@.record == w.subrange(0, k as int) by {
            assert(level@[0]@.record =~= w.subrange(0, 0));
        };
    }
    while k <= horizon && found.len() == 0
        invariant
            horizon < usize::MAX,
            k <= horizon + 1,
            forall|i: int| 0 <= i < level@.len() ==> valid(#[trigger] level@[i]@, sample_space@, cap)
                && level@[i]@.doing.len() == 0 && level@[i]@.period == k
                && !complete(level@[i]@, goals@) && on_track(level@[i]@, sample_space@, cap, goals@),
            forall|i: int| 0 <= i < found@.len() ==> finished(#[trigger] found@[i]@, goals@, sample_space@, cap, horizon)
                && found@[i]@.period == k && canonical(found@[i]@.record, sample_space@, cap, goals@),
            forall|w: Seq<Seq<Seq<char>>>| #[trigger] schedule(w, sample_space@, cap) && covers(w, goals@) && w.len() <= horizon
                ==> (found@.len() == 0 ==> k < w.len() && exists|i: int| 0 <= i < level@.len() && dominated(level@[i]@.record, w, k as int))
                && (found@.len() > 0 ==> k <= w.len()),
            forall|w: Seq<Seq<Seq<char>>>| #[trigger] canonical(w, sample_space@, cap, goals@) && w.len() <= horizon
                ==> (found@.len() == 0 && k < w.len() ==> exists|i: int| 0 <= i < level@.len() && level@[i]@.record == w.subrange(0, k as int))
                && (found@.len() > 0 && k == w.len() ==> exists|j: int| 0 <= j < found@.len() && (#[trigger] found@[j]@).record == w),
        decreases horizon + 1 - k,
    {
        let mut closed: Vec<Path> = Vec::new();
        while level.len() > 0
            invariant
                k <= horizon < usize::MAX,
                forall|i: int| 0 <= i < level@.len() ==> valid(#[trigger] level@[i]@, sample_space@, cap)
                    && level@[i]@.doing.len() == 0 && level@[i]@.period == k
                    && !complete(level@[i]@, goals@) && on_track(level@[i]@, sample_space@, cap, goals@),
                forall|i: int| 0 <= i < found@.len() ==> finished(#[trigger] found@[i]@, goals@, sample_space@, cap, horizon)
                    && found@[i]@.period == k + 1 && canonical(found@[i]@.record, sample_space@, cap, goals@),
                forall|i: int| 0 <= i < closed@.len() ==> valid(#[trigger] closed@[i]@, sample_space@, cap)
                    && closed@[i]@.doing.len() == 0 && closed@[i]@.period == k + 1
                    && !complete(closed@[i]@, goals@) && on_track(closed@[i]@, sample_space@, cap, goals@),
                forall|w: Seq<Seq<Seq<char>>>| #[trigger] schedule(w, sample_space@, cap) && covers(w, goals@) && w.len() <= horizon
                    ==> k < w.len() && ((exists|i: int| 0 <= i < level@.len() && dominated(level@[i]@.record, w, k as int))
                    || found@.len() > 0
                    || exists|q: int| 0 <= q < closed@.len() && dominated(closed@[q]@.record, w, k + 1)),
            forall|w: Seq<Seq<Seq<char>>>| #[trigger] canonical(w, sample_space@, cap, goals@) && w.len() <= horizon && k < w.len()
                ==> (exists|i: int| 0 <= i < level@.len() && level@[i]@.record == w.subrange(0, k as int))
                || reached(found@, closed@, w.subrange(0, k as int), w[k as int], k + 1 == w.len()),
            decreases level.len(),
        {
            let ghost lv = level@;
            let ghost found_before = found@;
            let ghost closed_before = closed@;
            let p = level.pop().unwrap();
            proof {
                assert(p == lv[lv.len() - 1]);
                assert(forall|i: int| 0 <= i < level@.len() ==> level@[i] == lv[i]);
            }
            expand(p, goals, sample_space, cap, horizon, &mut found, &mut closed);
            proof {
                assert forall|w: Seq<Seq<Seq<char>>>| #[trigger] canonical(w, sample_space@, cap, goals@) && w.len() <= horizon && k < w.len()
                    implies (exists|i: int| 0 <= i < level@.len() && level@[i]@.record == w.subrange(0, k as int))
                    || reached(found@, closed@, w.subrange(0, k as int), w[k as int], k + 1 == w.len()) by {
                    let last = k + 1 == w.len();
                    let wk = w.subrange(0, k as int);
                    if exists|i: int| 0 <= i < level@.len() && level@[i]@.record == wk {
                    } else if reached(found_before, closed_before, wk, w[k as int], last) {
                        lemma_reached_grows(found_before, closed_before, found@, closed@, wk, w[k as int], last);
                    } else {
                        let i = choose|i: int| 0 <= i < lv.len() && lv[i]@.record == wk;
                        if i < lv.len() - 1 {
                            assert(level@[i] == lv[i]);
                            assert(false);
                        }
                        let t = w[k as int];
                        assert(schedule(w, sample_space@, cap));
                        assert(sorted_codes(t) && t.len() <= cap);
                        lemma_done_before_same(wk, w, k as int);
                        assert(p@.done == done_before(w, k as int));
                        assert forall|j: int| 0 <= j < t.len() implies offered_in(sample_space@, #[trigger] t[j], p@.period, p@.done) by {
                            assert(offered_in(sample_space@, w[k as int][j], k as nat, done_before(w, k as int)));
                        };
                        assert(p@.doing =~= t.subrange(0, 0));
                        assert forall|j: int| p@.doing.len() <= j <= t.len() && !(last && j == t.len()) implies !complete(
                            #[trigger] with_doing(p@, t.subrange(0, j)), goals@) by {
                            assert(with_doing(p@, t.subrange(0, j)) == state_at(w, k as int, j));
                        };
                        assert(with_doing(p@, t) == state_at(w, k as int, t.len() as int)) by {
                            assert(t.subrange(0, t.len() as int) =~= t);
                        };
                        if last {
                            assert(complete(with_doing(p@, t), goals@)) by {
                                assert forall|g: int| 0 <= g < goals@.len() implies with_doing(p@, t).done.contains(#[trigger] goals@[g]@)
                                    || with_doing(p@, t).doing.contains(goals@[g]@) by {
                                    assert(done_before(w, w.len() as int).contains(goals@[g]@));
                                    if !done_before(w, k as int).contains(goals@[g]@) {
                                        assert(w[k as int].to_set().contains(goals@[g]@));
                                    }
                                };
                            };
                        } else {
                            assert(t.len() == cap || choice_codes(sample_space@, state_at(w, k as int, t.len() as int)).len() == 0);
                        }
                        assert(exact_obligation(p@, t, sample_space@, cap, horizon, goals@, last));
                    }
                };
                assert forall|w: Seq<Seq<Seq<char>>>| #[trigger] schedule(w, sample_space@, cap) && covers(w, goals@) && w.len() <= horizon
                    implies k < w.len() && ((exists|i: int| 0 <= i < level@.len() && dominated(level@[i]@.record, w, k as int))
                    || found@.len() > 0
                    || exists|q: int| 0 <= q < closed@.len() && dominated(closed@[q]@.record, w, k + 1)) by {
                    if exists|i: int| 0 <= i < level@.len() && dominated(level@[i]@.record, w, k as int) {
                    } else if found@.len() > 0 {
                    } else if exists|q: int| 0 <= q < closed_before.len() && dominated(closed_before[q]@.record, w, k + 1) {
                        let q = choose|q: int| 0 <= q < closed_before.len() && dominated(closed_before[q]@.record, w, k + 1);
                        assert(closed@[q] == closed_before[q]) by {
                            assert(closed_before[q] == closed@.subrange(0, closed_before.len() as int)[q]);
                        };
                    } else {
                        // the witness of `w` was the state just expanded
                        let i = choose|i: int| 0 <= i < lv.len() && dominated(lv[i]@.record, w, k as int);
                        if i < lv.len() - 1 {
                            assert(level@[i] == lv[i]);
                            assert(false);
                        }
                        let t = w[k as int];
                        assert(sorted_codes(t) && t.len() <= cap);
                        lemma_dominated_done(p@.record, w, k as int);
                        assert forall|j: int| 0 <= j < t.len() implies offered_in(sample_space@, #[trigger] t[j], p@.period, p@.done) by {
                            assert(offered_in(sample_space@, w[k as int][j], k as nat, done_before(w, k as int)));
                            lemma_offered_monotone(sample_space@, t[j], k as nat, done_before(w, k as int), p@.done);
                        };
                        assert(p@.doing =~= t.subrange(0, 0));
                        assert(obligation(p@, t, sample_space@, cap, horizon));
                        let x = choose|x: int| 0 <= x < closed@.len() && extends(closed@[x]@.record, p@.record, t);
                        let rec2 = closed@[x]@.record;
                        assert forall|y: int| 0 <= y < k + 1 implies (#[trigger] w[y]).to_set().subset_of(rec2[y].to_set()) by {
                            if y < k {
                                assert(rec2[y] == rec2.subrange(0, k as int)[y]);
                            }
                        };
                        assert(dominated(rec2, w, k + 1));
                    }
                };
            }
        }
        proof {
            assert forall|w: Seq<Seq<Seq<char>>>| #[trigger] schedule(w, sample_space@, cap) && covers(w, goals@) && w.len() <= horizon
                implies (found@.len() == 0 ==> k + 1 < w.len() && exists|i: int| 0 <= i < closed@.len() && dominated(closed@[i]@.record, w, k + 1))
                && (found@.len() > 0 ==> k + 1 <= w.len()) by {
                if found@.len() == 0 {
                    let q = choose|q: int| 0 <= q < closed@.len() && dominated(closed@[q]@.record, w, k + 1);
                    if k + 1 == w.len() {
                        let c = closed@[q]@;
                        lemma_dominated_done(c.record, w, k + 1);
                        assert(complete(c, goals@)) by {
                            assert forall|g: int| 0 <= g < goals@.len() implies c.done.contains(#[trigger] goals@[g]@) || c.doing.contains(goals@[g]@) by {
                                assert(done_before(w, w.len() as int).contains(goals@[g]@));
                            };
                        };
                        assert(false);
                    }
                }
            };
        }
        proof {
            assert forall|w: Seq<Seq<Seq<char>>>| #[trigger] canonical(w, sample_space@, cap, goals@) && w.len() <= horizon
                implies (found@.len() == 0 && k + 1 < w.len() ==> exists|i: int| 0 <= i < closed@.len() && closed@[i]@.record == w.subrange(0, k + 1))
                && (found@.len() > 0 && k + 1 == w.len() ==> exists|j: int| 0 <= j < found@.len() && (#[trigger] found@[j]@).record == w) by {
                if k < w.len() {
                    let wk = w.subrange(0, k as int);
                    assert(wk.push(w[k as int]) =~= w.subrange(0, k + 1));
                    if k + 1 == w.len() {
                        assert(w.subrange(0, k + 1) =~= w);
                    }
                }
            };
        }
        level = closed;
        k += 1;
    }
    // keep each schedule once
    let mut r: Vec<Path> = Vec::new();
    let mut i: usize = 0;
    while i < found.len()
        invariant
            i <= found.len(),
            forall|a: int| 0 <= a < r@.len() ==> exists|b: int| 0 <= b < found@.len() && (#[trigger] r@[a])@ == found@[b]@,
            forall|b: int| 0 <= b < i ==> exists|a: int| 0 <= a < r@.len() && r@[a]@.record == (#[trigger] found@[b])@.record,
            forall|a: int, c: int| 0 <= a < r@.len() && 0 <= c < r@.len() && a != c ==> (#[trigger] r@[a]@).record
                != (#[trigger] r@[c]@).record,
        decreases found.len() - i,
    {
        let mut seen = false;
        let mut j: usize = 0;
        while j < r.len() && !seen
            invariant
                j <= r.len(),
                i < found.len(),
                !seen ==> forall|a: int| 0 <= a < j ==> (#[trigger] r@[a])@.record != found@[i as int]@.record,
                seen ==> j < r.len() && r@[j as int]@.record == found@[i as int]@.record,
            decreases r.len() - j + (if seen { 0int } else { 1int }),
        {
            if r[j].same_record(&found[i]) {
                seen = true;
            } else {
                j += 1;
            }
        }
        if !seen {
            let ghost rb = r@;
            r.push(found[i].clone());
            proof {
                assert forall|a: int| 0 <= a < r@.len() implies exists|b: int| 0 <= b < found@.len() && (#[trigger] r@[a])@ == found@[b]@ by {
                    if a < rb.len() {
                        assert(r@[a] == rb[a]);
                    } else {
                        assert(r@[a]@ == found@[i as int]@);
                    }
                };
                assert forall|b: int| 0 <= b < i + 1 implies exists|a: int| 0 <= a < r@.len() && r@[a]@.record == (#[trigger] found@[b])@.record by {
                    if b < i {
                        let a = choose|a: int| 0 <= a < rb.len() && rb[a]@.record == found@[b]@.record;
                        assert(r@[a] == rb[a]);
                    } else {
                        assert(r@[rb.len() as int]@.record == found@[b]@.record);
                    }
                };
                assert forall|a: int, c: int| 0 <= a < r@.len() && 0 <= c < r@.len() && a != c implies (#[trigger] r@[a]@).record
                    != (#[trigger] r@[c]@).record by {
                    if a < rb.len() && c < rb.len() {
                        assert(r@[a] == rb[a] && r@[c] == rb[c]);
                    } else if a < rb.len() {
                        assert(r@[a] == rb[a]);
                    } else if c < rb.len() {
                        assert(r@[c] == rb[c]);
                    }
                };
            }
        }
        i += 1;
    }
    proof {
        assert(i == found@.len());
        if found@.len() > 0 {
            let f0 = found@[0];
            assert(exists|a: int| 0 <= a < r@.len() && r@[a]@.record == f0@.record);
        }
    }
    r
}

} // verus!
