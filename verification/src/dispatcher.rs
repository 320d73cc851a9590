//! The dispatcher: an immutable, dependency-ordered execution plan over
//! registered systems.
//!
//! Building the plan validates the registrations and computes an order in
//! which every system comes after all of its named dependencies.  A tick
//! executes the systems in that order; systems with no ordering
//! constraint between them are serialized rather than rejected, and the
//! commutation law in `system` shows that the order chosen for systems
//! with disjoint write sets cannot change the result.

use vstd::prelude::*;
use crate::system::System;
use crate::system::apply_system;
use crate::world::World;
use crate::world::WorldModel;

verus! {

/// One system registration: the system, its unique name, and the names
/// of the systems that must run before it each tick.
pub struct Registration {
    pub system: System,
    pub name: String,
    pub deps: Vec<String>,
}

/// No two registrations share a name.
pub open spec fn names_unique(regs: Seq<Registration>) -> bool {
    forall|i: int, j: int|
        0 <= i < j < regs.len() ==> (#[trigger] regs[i].name@) != (#[trigger] regs[j].name@)
}

/// Some registration carries the name `n`.
pub open spec fn has_sys_name(regs: Seq<Registration>, n: Seq<char>) -> bool {
    exists|j: int| 0 <= j < regs.len() && (#[trigger] regs[j].name@) == n
}

/// Every dependency name of every registration is itself registered.
pub open spec fn deps_resolved(regs: Seq<Registration>) -> bool {
    forall|i: int, d: int|
        0 <= i < regs.len() && 0 <= d < regs[i].deps@.len()
            ==> has_sys_name(regs, (#[trigger] regs[i].deps@[d])@)
}

/// Some system named `n` stands at a position before `k` in the order.
pub open spec fn scheduled_before(
    regs: Seq<Registration>,
    order: Seq<usize>,
    k: int,
    n: Seq<char>,
) -> bool {
    exists|k2: int| 0 <= k2 < k && (#[trigger] regs[order[k2] as int].name@) == n
}

/// Registration `i` stands somewhere in the order.
pub open spec fn appears(order: Seq<usize>, i: int) -> bool {
    exists|k: int| 0 <= k < order.len() && (#[trigger] order[k]) as int == i
}

/// `order` is a valid schedule: a permutation of the registrations in
/// which every system comes after all of its named dependencies.
pub open spec fn sched_valid(regs: Seq<Registration>, order: Seq<usize>) -> bool {
    &&& order.len() == regs.len()
    &&& forall|k: int| 0 <= k < order.len() ==> (#[trigger] order[k]) < regs.len()
    &&& forall|k1: int, k2: int|
        0 <= k1 < k2 < order.len() ==> (#[trigger] order[k1]) != (#[trigger] order[k2])
    &&& forall|i: int| 0 <= i < regs.len() ==> #[trigger] appears(order, i)
    &&& forall|k: int, d: int|
        0 <= k < order.len() && 0 <= d < regs[order[k] as int].deps@.len()
            ==> scheduled_before(regs, order, k, (#[trigger] regs[order[k] as int].deps@[d])@)
}

/// The registrations admit a dependency-respecting order — the standard
/// characterization of an acyclic dependency graph on finitely many nodes.
pub open spec fn schedulable(regs: Seq<Registration>) -> bool {
    exists|order: Seq<usize>| sched_valid(regs, order)
}

/// A valid schedule respects every declared dependency edge: each system
/// stands after every system it names as a dependency.
pub proof fn lemma_schedule_respects_dependencies(
    regs: Seq<Registration>,
    order: Seq<usize>,
    k: int,
    d: int,
)
    requires
        sched_valid(regs, order),
        0 <= k < order.len(),
        0 <= d < regs[order[k] as int].deps@.len(),
    ensures
        scheduled_before(regs, order, k, regs[order[k] as int].deps@[d]@),
{
}

/// Registration `cycle[k]` names the next cycle member, wrapping around,
/// among its dependencies.
pub open spec fn cycle_step(regs: Seq<Registration>, cycle: Seq<int>, k: int) -> bool {
    exists|d: int|
        0 <= d < regs[cycle[k]].deps@.len() && (#[trigger] regs[cycle[k]].deps@[d])@
            == regs[cycle[(k + 1) % (cycle.len() as int)]].name@
}

/// The indices form a cycle in the dependency graph: each one depends,
/// by name, on the next, and the last on the first.
pub open spec fn is_dependency_cycle(regs: Seq<Registration>, cycle: Seq<int>) -> bool {
    &&& cycle.len() > 0
    &&& forall|k: int| 0 <= k < cycle.len() ==> 0 <= #[trigger] cycle[k] < regs.len()
    &&& forall|k: int| 0 <= k < cycle.len() ==> #[trigger] cycle_step(regs, cycle, k)
}

/// The position at which registration `i` stands in the order.
spec fn pos_of(order: Seq<usize>, i: int) -> int {
    choose|k: int| 0 <= k < order.len() && (order[k] as int) == i
}

proof fn lemma_pos_of(regs: Seq<Registration>, order: Seq<usize>, i: int)
    requires
        sched_valid(regs, order),
        0 <= i < regs.len(),
    ensures
        0 <= pos_of(order, i) < order.len(),
        (order[pos_of(order, i)] as int) == i,
{
    assert(appears(order, i));
}

/// Cycle member `k` has the least position among the first `m` members.
spec fn min_among(order: Seq<usize>, cycle: Seq<int>, m: int, k: int) -> bool {
    &&& 0 <= k < m
    &&& forall|k2: int|
        0 <= k2 < m ==> pos_of(order, cycle[k]) <= #[trigger] pos_of(order, cycle[k2])
}

/// Some cycle member's position is least among the first `m` members.
proof fn lemma_min_pos(regs: Seq<Registration>, order: Seq<usize>, cycle: Seq<int>, m: int)
    requires
        sched_valid(regs, order),
        is_dependency_cycle(regs, cycle),
        1 <= m <= cycle.len(),
    ensures
        exists|k: int| #[trigger] min_among(order, cycle, m, k),
    decreases m,
{
    if m == 1 {
        assert(min_among(order, cycle, m, 0));
    } else {
        lemma_min_pos(regs, order, cycle, m - 1);
        let k = choose|k: int| #[trigger] min_among(order, cycle, m - 1, k);
        if pos_of(order, cycle[m - 1]) < pos_of(order, cycle[k]) {
            assert(min_among(order, cycle, m, m - 1));
        } else {
            assert(min_among(order, cycle, m, k));
        }
    }
}

/// A cycle among the dependency names leaves no valid schedule: around
/// the cycle each member would have to stand before the previous one,
/// so some member would stand before the cycle's earliest position.
pub proof fn lemma_cycle_unschedulable(regs: Seq<Registration>, cycle: Seq<int>)
    requires
        names_unique(regs),
        is_dependency_cycle(regs, cycle),
    ensures
        !schedulable(regs),
{
    if schedulable(regs) {
        let order = choose|order: Seq<usize>| sched_valid(regs, order);
        let len = cycle.len() as int;
        lemma_min_pos(regs, order, cycle, len);
        let k = choose|k: int| #[trigger] min_among(order, cycle, len, k);
        assert(min_among(order, cycle, len, k));
        let i = cycle[k];
        let knext = (k + 1) % len;
        let j = cycle[knext];
        lemma_pos_of(regs, order, i);
        lemma_pos_of(regs, order, j);
        let p = pos_of(order, i);
        assert(cycle_step(regs, cycle, k));
        let d = choose|d: int|
            0 <= d < regs[i].deps@.len() && (#[trigger] regs[i].deps@[d])@ == regs[j].name@;
        assert(scheduled_before(regs, order, p, regs[i].deps@[d]@));
        let p2 = choose|p2: int| 0 <= p2 < p && regs[order[p2] as int].name@ == regs[i].deps@[d]@;
        assert(regs[order[p2] as int].name@ == regs[j].name@);
        if (order[p2] as int) != j {
            if (order[p2] as int) < j {
                assert(regs[order[p2] as int].name@ != regs[j].name@);
            } else {
                assert(regs[j].name@ != regs[order[p2] as int].name@);
            }
        }
        assert((order[p2] as int) == j);
        assert(pos_of(order, j) == p2) by {
            let pj = pos_of(order, j);
            if pj != p2 {
                if pj < p2 {
                    assert(order[pj] != order[p2]);
                } else {
                    assert(order[p2] != order[pj]);
                }
            }
        }
        assert(pos_of(order, cycle[k]) <= pos_of(order, cycle[knext]));
        assert(false);
    }
}

/// The name `n` is carried by some registration already marked done.
pub open spec fn dep_done(regs: Seq<Registration>, done: Seq<bool>, n: Seq<char>) -> bool {
    exists|j: int| 0 <= j < regs.len() && (#[trigger] regs[j].name@) == n && done[j]
}

/// All dependencies of registration `i` are marked done.
pub open spec fn all_deps_done(regs: Seq<Registration>, done: Seq<bool>, i: int) -> bool {
    forall|d: int|
        0 <= d < regs[i].deps@.len() ==> dep_done(regs, done, (#[trigger] regs[i].deps@[d])@)
}

/// How many entries of a sequence of flags are set.
pub open spec fn count_true(s: Seq<bool>) -> int
    decreases s.len(),
{
    if s.len() == 0 {
        0
    } else {
        count_true(s.drop_last()) + if s.last() {
            1int
        } else {
            0int
        }
    }
}

proof fn lemma_count_true_bounds(s: Seq<bool>)
    ensures
        0 <= count_true(s) <= s.len(),
    decreases s.len(),
{
    if s.len() > 0 {
        lemma_count_true_bounds(s.drop_last());
    }
}

proof fn lemma_count_true_all(s: Seq<bool>)
    requires
        count_true(s) == s.len(),
    ensures
        forall|i: int| 0 <= i < s.len() ==> s[i],
    decreases s.len(),
{
    if s.len() > 0 {
        lemma_count_true_bounds(s.drop_last());
        lemma_count_true_all(s.drop_last());
        assert forall|i: int| 0 <= i < s.len() implies s[i] by {
            if i < s.len() - 1 {
                assert(s.drop_last()[i]);
            }
        }
    }
}

proof fn lemma_count_true_update(s: Seq<bool>, i: int)
    requires
        0 <= i < s.len(),
        !s[i],
    ensures
        count_true(s.update(i, true)) == count_true(s) + 1,
    decreases s.len(),
{
    if i == s.len() - 1 {
        assert(s.update(i, true).drop_last() =~= s.drop_last());
    } else {
        assert(s.update(i, true).drop_last() =~= s.drop_last().update(i, true));
        lemma_count_true_update(s.drop_last(), i);
    }
}

/// In a state where some registration is not done and every one that is
/// not done still waits on a dependency that is not done, no valid
/// schedule can exist: the first such registration a schedule would run
/// would need an earlier one that is also stuck.
proof fn lemma_stuck_unschedulable(regs: Seq<Registration>, done: Seq<bool>)
    requires
        done.len() == regs.len(),
        exists|i: int| 0 <= i < regs.len() && !done[i],
        forall|i: int| 0 <= i < regs.len() && !(#[trigger] done[i]) ==> !all_deps_done(regs, done, i),
    ensures
        !schedulable(regs),
{
    if schedulable(regs) {
        let order = choose|order: Seq<usize>| sched_valid(regs, order);
        let i0 = choose|i: int| 0 <= i < regs.len() && !done[i];
        assert(appears(order, i0));
        let k0 = choose|k: int| 0 <= k < order.len() && (order[k] as int) == i0;
        lemma_sched_prefix_done(regs, done, order, order.len() - 1);
        assert(done[order[k0] as int]);
        assert(false);
    }
}

/// In such a stuck state, every position of a valid schedule up to `k`
/// must already be done — by strong induction along the order.
proof fn lemma_sched_prefix_done(
    regs: Seq<Registration>,
    done: Seq<bool>,
    order: Seq<usize>,
    k: int,
)
    requires
        sched_valid(regs, order),
        done.len() == regs.len(),
        forall|i: int| 0 <= i < regs.len() && !(#[trigger] done[i]) ==> !all_deps_done(regs, done, i),
        0 <= k < order.len(),
    ensures
        forall|k2: int| 0 <= k2 <= k ==> done[order[k2] as int],
    decreases k,
{
    if k > 0 {
        lemma_sched_prefix_done(regs, done, order, k - 1);
    }
    let i = order[k] as int;
    if !done[i] {
        assert(!all_deps_done(regs, done, i));
        let d = choose|d: int|
            0 <= d < regs[i].deps@.len() && !dep_done(regs, done, regs[i].deps@[d]@);
        assert(scheduled_before(regs, order, k, regs[i].deps@[d]@));
        let k2 = choose|k2: int|
            0 <= k2 < k && regs[order[k2] as int].name@ == regs[i].deps@[d]@;
        assert(done[order[k2] as int]);
        assert(dep_done(regs, done, regs[i].deps@[d]@));
        assert(false);
    }
}

/// Whether some registration carrying the name `n` is marked done.
fn name_done(regs: &Vec<Registration>, done: &Vec<bool>, n: &String) -> (r: bool)
    requires
        done.len() == regs.len(),
    ensures
        r == dep_done(regs@, done@, n@),
{
    let len = regs.len();
    for j in 0..len
        invariant
            len == regs.len(),
            done.len() == regs.len(),
            forall|j2: int| 0 <= j2 < j ==> !((#[trigger] regs@[j2].name@) == n@ && done@[j2]),
    {
        if done[j] && regs[j].name.eq(n) {
            proof {
                assert(regs@[j as int].name@ == n@ && done@[j as int]);
            }
            return true;
        }
    }
    false
}

/// Whether all dependencies of registration `i` are marked done.
fn deps_all_done(regs: &Vec<Registration>, done: &Vec<bool>, i: usize) -> (r: bool)
    requires
        done.len() == regs.len(),
        i < regs.len(),
    ensures
        r == all_deps_done(regs@, done@, i as int),
{
    let len = regs[i].deps.len();
    for d in 0..len
        invariant
            done.len() == regs.len(),
            i < regs.len(),
            len == regs@[i as int].deps@.len(),
            forall|d2: int|
                0 <= d2 < d ==> dep_done(regs@, done@, (#[trigger] regs@[i as int].deps@[d2])@),
    {
        if !name_done(regs, done, &regs[i].deps[d]) {
            return false;
        }
    }
    true
}

/// Computes a dependency-respecting order over the registrations, or
/// reports that none exists.
pub(crate) fn topo_sort(regs: &Vec<Registration>) -> (r: Option<Vec<usize>>)
    ensures
        r matches Some(order) ==> sched_valid(regs@, order@),
        r is None ==> !schedulable(regs@),
{
    let n = regs.len();
    let mut done: Vec<bool> = Vec::new();
    while done.len() < n
        invariant
            done.len() <= n,
            forall|j: int| 0 <= j < done.len() ==> !done@[j],
        decreases n - done.len(),
    {
        done.push(false);
    }
    let mut order: Vec<usize> = Vec::new();
    proof {
        assert(count_true(done@) == 0) by {
            lemma_count_all_false(done@);
        }
    }
    while order.len() < n
        invariant
            n == regs.len(),
            done.len() == n,
            order.len() <= n,
            count_true(done@) == order.len(),
            forall|k: int| 0 <= k < order.len() ==> (#[trigger] order@[k]) < n,
            forall|k: int| 0 <= k < order.len() ==> done@[order@[k] as int],
            forall|j: int| 0 <= j < n && done@[j] ==> #[trigger] appears(order@, j),
            forall|k1: int, k2: int|
                0 <= k1 < k2 < order.len() ==> (#[trigger] order@[k1]) != (#[trigger] order@[k2]),
            forall|k: int, d: int|
                0 <= k < order.len() && 0 <= d < regs@[order@[k] as int].deps@.len()
                    ==> scheduled_before(regs@, order@, k, (#[trigger] regs@[order@[k] as int].deps@[d])@),
        decreases n - order.len(),
    {
        let start = order.len();
        let ghost done0 = done@;
        let mut i: usize = 0;
        while i < n
            invariant
                n == regs.len(),
                done.len() == n,
                i <= n,
                start <= order.len() <= n,
                count_true(done@) == order.len(),
                forall|k: int| 0 <= k < order.len() ==> (#[trigger] order@[k]) < n,
                forall|k: int| 0 <= k < order.len() ==> done@[order@[k] as int],
                forall|j: int| 0 <= j < n && done@[j] ==> #[trigger] appears(order@, j),
                forall|k1: int, k2: int|
                    0 <= k1 < k2 < order.len() ==> (#[trigger] order@[k1]) != (#[trigger] order@[k2]),
                forall|k: int, d: int|
                    0 <= k < order.len() && 0 <= d < regs@[order@[k] as int].deps@.len()
                        ==> scheduled_before(regs@, order@, k, (#[trigger] regs@[order@[k] as int].deps@[d])@),
                order.len() == start ==> done@ == done0,
                order.len() == start ==> forall|i2: int|
                    0 <= i2 < i && !(#[trigger] done0[i2]) ==> !all_deps_done(regs@, done0, i2),
            decreases n - i,
        {
            if !done[i] && deps_all_done(regs, &done, i) {
                proof {
                    lemma_count_true_update(done@, i as int);
                    lemma_count_true_bounds(done@.update(i as int, true));
                    assert forall|k: int| 0 <= k < order.len()
                        implies (#[trigger] order@[k]) as int != i as int by {
                        assert(done@[order@[k] as int]);
                    }
                }
                let ghost done_before = done@;
                let ghost order0 = order@;
                done[i] = true;
                order.push(i);
                proof {
                    let p = order0.len() as int;
                    assert(order@ =~= order0.push(i));
                    assert(forall|k: int| 0 <= k < p ==> order@[k] == #[trigger] order0[k]);
                    assert(order@[p] == i);
                    assert forall|j: int| 0 <= j < n && done@[j]
                        implies #[trigger] appears(order@, j) by {
                        if j == i as int {
                            assert(0 <= p < order@.len() && (order@[p] as int) == j);
                        } else {
                            assert(done_before[j]);
                            assert(appears(order0, j));
                            let k = choose|k: int|
                                0 <= k < order0.len() && (order0[k] as int) == j;
                            assert(0 <= k < order@.len() && (order@[k] as int) == j);
                        }
                    }
                    assert forall|k: int, d: int|
                        0 <= k < order.len() && 0 <= d < regs@[order@[k] as int].deps@.len()
                            implies scheduled_before(
                            regs@,
                            order@,
                            k,
                            (#[trigger] regs@[order@[k] as int].deps@[d])@,
                        ) by {
                        if k < p {
                            assert(scheduled_before(
                                regs@,
                                order0,
                                k,
                                regs@[order0[k] as int].deps@[d]@,
                            ));
                            let k2 = choose|k2: int|
                                0 <= k2 < k && regs@[order0[k2] as int].name@
                                    == regs@[order0[k] as int].deps@[d]@;
                            assert(regs@[order@[k2] as int].name@
                                == regs@[order@[k] as int].deps@[d]@);
                        } else {
                            assert(dep_done(regs@, done_before, regs@[i as int].deps@[d]@));
                            let j = choose|j: int|
                                0 <= j < regs@.len() && regs@[j].name@
                                    == regs@[i as int].deps@[d]@ && done_before[j];
                            assert(appears(order0, j));
                            let k2 = choose|k2: int|
                                0 <= k2 < order0.len() && (order0[k2] as int) == j;
                            assert(regs@[order@[k2] as int].name@
                                == regs@[order@[k] as int].deps@[d]@);
                        }
                    }
                }
            }
            i = i + 1;
        }
        if order.len() == start {
            proof {
                lemma_count_true_bounds(done@);
                lemma_exists_false(done@);
                lemma_stuck_unschedulable(regs@, done@);
            }
            return None;
        }
    }
    proof {
        lemma_count_true_all(done@);
    }
    Some(order)
}

proof fn lemma_count_all_false(s: Seq<bool>)
    requires
        forall|j: int| 0 <= j < s.len() ==> !s[j],
    ensures
        count_true(s) == 0,
    decreases s.len(),
{
    if s.len() > 0 {
        lemma_count_all_false(s.drop_last());
    }
}

proof fn lemma_exists_false(s: Seq<bool>)
    requires
        count_true(s) < s.len(),
    ensures
        exists|i: int| 0 <= i < s.len() && !s[i],
    decreases s.len(),
{
    if s.len() > 0 {
        if !s.last() {
            assert(!s[s.len() - 1]);
        } else {
            lemma_count_true_bounds(s.drop_last());
            lemma_exists_false(s.drop_last());
            let i = choose|i: int| 0 <= i < s.drop_last().len() && !s.drop_last()[i];
            assert(!s[i]);
        }
    }
}

/// The effect of one tick: the systems of the schedule, in order.
pub open spec fn run_schedule(
    m: WorldModel,
    regs: Seq<Registration>,
    order: Seq<usize>,
) -> WorldModel
    decreases order.len(),
{
    if order.len() == 0 {
        m
    } else {
        apply_system(run_schedule(m, regs, order.drop_last()), regs[order.last() as int].system)
    }
}

/// The compiled execution plan: the registrations and a valid order over
/// them, immutable once built.
pub struct Dispatcher {
    regs: Vec<Registration>,
    order: Vec<usize>,
}

impl Dispatcher {
    /// The registrations the plan was built from, in registration order.
    pub closed spec fn registrations(self) -> Seq<Registration> {
        self.regs@
    }

    /// The execution order, as positions into the registrations.
    pub closed spec fn order(self) -> Seq<usize> {
        self.order@
    }

    /// The order is a valid schedule over the registrations.
    pub open spec fn wf(self) -> bool {
        sched_valid(self.registrations(), self.order())
    }

    pub(crate) fn new(regs: Vec<Registration>, order: Vec<usize>) -> (d: Dispatcher)
        requires
            sched_valid(regs@, order@),
        ensures
            d.registrations() == regs@,
            d.order() == order@,
            d.wf(),
    {
        Dispatcher { regs, order }
    }

    /// Executes the full schedule exactly once, blocking until every
    /// system has run; each system runs after all of its dependencies.
    pub fn dispatch(&self, world: &mut World)
        requires
            self.wf(),
            old(world)@.wf(),
        ensures
            final(world)@ == run_schedule(old(world)@, self.registrations(), self.order()),
            final(world)@.wf(),
            final(world)@.registered == old(world)@.registered,
            final(world)@.generations == old(world)@.generations,
            final(world)@.alive == old(world)@.alive,
    {
        proof {
            lemma_run_schedule_preserves_slots(old(world)@, self.registrations(), self.order());
        }
        let n = self.order.len();
        for k in 0..n
            invariant
                self.wf(),
                n == self.order.len(),
                world@ == run_schedule(old(world)@, self.registrations(), self.order().take(k as int)),
                world@.wf(),
        {
            let idx = self.order[k];
            proof {
                assert(self.order()[k as int] < self.regs@.len());
            }
            crate::system::run_system(world, &self.regs[idx].system);
            proof {
                assert(self.order().take(k + 1).drop_last() =~= self.order().take(k as int));
                assert(self.order().take(k + 1).last() == self.order()[k as int]);
            }
        }
        proof {
            assert(self.order().take(n as int) =~= self.order());
        }
    }
}

/// A tick only writes data: it never changes which component types are
/// registered, which entities are live, or the world's well-formedness.
pub proof fn lemma_run_schedule_preserves_slots(
    m: WorldModel,
    regs: Seq<Registration>,
    order: Seq<usize>,
)
    ensures
        run_schedule(m, regs, order).registered == m.registered,
        run_schedule(m, regs, order).generations == m.generations,
        run_schedule(m, regs, order).alive == m.alive,
        m.wf() ==> run_schedule(m, regs, order).wf(),
    decreases order.len(),
{
    if order.len() > 0 {
        lemma_run_schedule_preserves_slots(m, regs, order.drop_last());
        crate::system::lemma_ops_preserve_wf(
            run_schedule(m, regs, order.drop_last()),
            regs[order.last() as int].system.ops@,
        );
    }
}

/// A tick is deterministic in aggregate effect: from equal world states,
/// running the same schedule ends in equal world states, however the
/// execution of a tick is laid out internally.
pub proof fn lemma_tick_deterministic(
    m1: WorldModel,
    m2: WorldModel,
    regs: Seq<Registration>,
    order: Seq<usize>,
)
    requires
        m1 == m2,
    ensures
        run_schedule(m1, regs, order) == run_schedule(m2, regs, order),
{
}

} // verus!
