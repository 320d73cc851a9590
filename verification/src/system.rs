//! Systems: named units of per-tick logic.
//!
//! A system declares the component types and resources it reads and
//! writes, and its logic is a sequence of operations over the world's
//! data.  The operations are total and deterministic, so a tick's
//! aggregate effect is a function of the world's state alone, and two
//! systems whose write sets are disjoint commute.

use vstd::prelude::*;
use crate::world::Entity;
use crate::world::World;
use crate::world::WorldModel;

verus! {

/// One step of a system's logic.  Writes to a missing resource or
/// component create it; additions saturate at the largest value; a
/// component write to an entity that is not live, or under a component
/// type that is not registered, changes nothing.
#[derive(Clone, Copy, PartialEq, Eq, Structural, Debug)]
pub enum Op {
    /// Store a resource value, overwriting any earlier one.
    SetResource { res: u64, value: u64 },
    /// Add to a resource, treating a missing one as zero.
    AddResource { res: u64, delta: u64 },
    /// Attach a component value to an entity, overwriting any earlier one.
    SetComponent { comp: u64, entity: Entity, value: u64 },
    /// Add to an entity's component value, treating a missing one as zero.
    AddComponent { comp: u64, entity: Entity, delta: u64 },
}

/// A unit of per-tick logic together with its declared data access.
pub struct System {
    pub reads_components: Vec<u64>,
    pub writes_components: Vec<u64>,
    pub reads_resources: Vec<u64>,
    pub writes_resources: Vec<u64>,
    pub ops: Vec<Op>,
}

/// The component type an operation writes, if any.
pub open spec fn op_comp_target(op: Op) -> Option<u64> {
    match op {
        Op::SetComponent { comp, .. } => Some(comp),
        Op::AddComponent { comp, .. } => Some(comp),
        _ => None,
    }
}

/// The resource an operation touches, if any.
pub open spec fn op_res_target(op: Op) -> Option<u64> {
    match op {
        Op::SetResource { res, .. } => Some(res),
        Op::AddResource { res, .. } => Some(res),
        _ => None,
    }
}

/// A tag occurs in a declaration list.
pub open spec fn declares(s: Seq<u64>, t: u64) -> bool {
    exists|i: int| 0 <= i < s.len() && s[i] == t
}

/// Every operation of the system stays within its declared write sets.
pub open spec fn op_declared(s: System, op: Op) -> bool {
    &&& (op_comp_target(op) matches Some(c) ==> declares(s.writes_components@, c))
    &&& (op_res_target(op) matches Some(r) ==> declares(s.writes_resources@, r))
}

/// The system's logic only writes what its declaration announces.
pub open spec fn ops_declared(s: System) -> bool {
    forall|i: int| 0 <= i < s.ops@.len() ==> op_declared(s, #[trigger] s.ops@[i])
}

/// The effect of one operation on the world's state.
pub open spec fn apply_op(m: WorldModel, op: Op) -> WorldModel {
    match op {
        Op::SetResource { res, value } => WorldModel {
            resources: m.resources.insert(res, value),
            ..m
        },
        Op::AddResource { res, delta } => {
            let cur = if m.resources.contains_key(res) {
                m.resources[res]
            } else {
                0
            };
            WorldModel { resources: m.resources.insert(res, cur.saturating_add(delta)), ..m }
        },
        Op::SetComponent { comp, entity, value } => {
            if m.registered.contains(comp) && m.entity_alive(entity) {
                WorldModel { components: m.components.insert((comp, entity), value), ..m }
            } else {
                m
            }
        },
        Op::AddComponent { comp, entity, delta } => {
            if m.registered.contains(comp) && m.entity_alive(entity) {
                let cur = if m.components.contains_key((comp, entity)) {
                    m.components[(comp, entity)]
                } else {
                    0
                };
                WorldModel {
                    components: m.components.insert((comp, entity), cur.saturating_add(delta)),
                    ..m
                }
            } else {
                m
            }
        },
    }
}

/// The effect of a sequence of operations, applied left to right.
pub open spec fn apply_ops(m: WorldModel, ops: Seq<Op>) -> WorldModel
    decreases ops.len(),
{
    if ops.len() == 0 {
        m
    } else {
        apply_op(apply_ops(m, ops.drop_last()), ops.last())
    }
}

/// The effect of running one system: its operations in order.
pub open spec fn apply_system(m: WorldModel, s: System) -> WorldModel {
    apply_ops(m, s.ops@)
}

/// An operation preserves the world's well-formedness, and never
/// changes which component types are registered or which entities live.
pub proof fn lemma_op_preserves_wf(m: WorldModel, op: Op)
    ensures
        m.wf() ==> apply_op(m, op).wf(),
        apply_op(m, op).registered == m.registered,
        apply_op(m, op).generations == m.generations,
        apply_op(m, op).alive == m.alive,
{
}

/// A sequence of operations preserves well-formedness and the slots.
pub proof fn lemma_ops_preserve_wf(m: WorldModel, ops: Seq<Op>)
    ensures
        m.wf() ==> apply_ops(m, ops).wf(),
        apply_ops(m, ops).registered == m.registered,
        apply_ops(m, ops).generations == m.generations,
        apply_ops(m, ops).alive == m.alive,
    decreases ops.len(),
{
    if ops.len() > 0 {
        lemma_ops_preserve_wf(m, ops.drop_last());
        lemma_op_preserves_wf(apply_ops(m, ops.drop_last()), ops.last());
    }
}

/// Performs one operation on the world.
pub(crate) fn run_op(world: &mut World, op: &Op)
    requires
        old(world)@.wf(),
    ensures
        final(world)@ == apply_op(old(world)@, *op),
        final(world)@.wf(),
{
    proof {
        lemma_op_preserves_wf(old(world)@, *op);
    }
    match op {
        Op::SetResource { res, value } => {
            world.set_resource(*res, *value);
        },
        Op::AddResource { res, delta } => {
            let cur = match world.resource(*res) {
                Some(v) => v,
                None => 0,
            };
            world.set_resource(*res, cur.saturating_add(*delta));
        },
        Op::SetComponent { comp, entity, value } => {
            if world.is_registered(*comp) && world.entity_alive(*entity) {
                world.set_component(*comp, *entity, *value);
            }
        },
        Op::AddComponent { comp, entity, delta } => {
            if world.is_registered(*comp) && world.entity_alive(*entity) {
                let cur = match world.component(*comp, *entity) {
                    Some(v) => v,
                    None => 0,
                };
                world.set_component(*comp, *entity, cur.saturating_add(*delta));
            }
        },
    }
}

/// Runs one system's logic: its operations, in order.
pub(crate) fn run_system(world: &mut World, s: &System)
    requires
        old(world)@.wf(),
    ensures
        final(world)@ == apply_system(old(world)@, *s),
        final(world)@.wf(),
{
    let n = s.ops.len();
    for i in 0..n
        invariant
            n == s.ops.len(),
            world@ == apply_ops(old(world)@, s.ops@.take(i as int)),
            world@.wf(),
    {
        run_op(world, &s.ops[i]);
        proof {
            assert(s.ops@.take(i + 1).drop_last() =~= s.ops@.take(i as int));
            assert(s.ops@.take(i + 1).last() == s.ops@[i as int]);
        }
    }
    proof {
        assert(s.ops@.take(n as int) =~= s.ops@);
    }
}

/// Two operations touch no common target: they write neither the same
/// component type nor the same resource.
pub open spec fn ops_independent(o1: Op, o2: Op) -> bool {
    &&& !(op_comp_target(o1) matches Some(c1) && op_comp_target(o2) matches Some(c2)
        && c1 == c2)
    &&& !(op_res_target(o1) matches Some(r1) && op_res_target(o2) matches Some(r2)
        && r1 == r2)
}

/// Operations with no common target commute.
pub proof fn lemma_op_commute(m: WorldModel, o1: Op, o2: Op)
    requires
        ops_independent(o1, o2),
    ensures
        apply_op(apply_op(m, o1), o2) == apply_op(apply_op(m, o2), o1),
{
    assert(apply_op(apply_op(m, o1), o2) =~= apply_op(apply_op(m, o2), o1));
}

/// One operation commutes with a whole sequence it shares no target with.
proof fn lemma_op_ops_commute(m: WorldModel, o: Op, ops: Seq<Op>)
    requires
        forall|j: int| 0 <= j < ops.len() ==> ops_independent(o, #[trigger] ops[j]),
    ensures
        apply_ops(apply_op(m, o), ops) == apply_op(apply_ops(m, ops), o),
    decreases ops.len(),
{
    if ops.len() > 0 {
        lemma_op_ops_commute(m, o, ops.drop_last());
        lemma_op_commute(apply_ops(m, ops.drop_last()), o, ops.last());
    }
}

/// Sequences of operations with no common target commute.
proof fn lemma_ops_commute(m: WorldModel, a: Seq<Op>, b: Seq<Op>)
    requires
        forall|i: int, j: int|
            0 <= i < a.len() && 0 <= j < b.len()
                ==> ops_independent(#[trigger] a[i], #[trigger] b[j]),
    ensures
        apply_ops(apply_ops(m, a), b) == apply_ops(apply_ops(m, b), a),
    decreases a.len(),
{
    if a.len() > 0 {
        lemma_ops_commute(m, a.drop_last(), b);
        lemma_op_ops_commute(apply_ops(m, a.drop_last()), a.last(), b);
    }
}

/// The declared write sets of two systems are disjoint.
pub open spec fn writes_disjoint(s1: System, s2: System) -> bool {
    &&& forall|c: u64|
        !(#[trigger] declares(s1.writes_components@, c) && declares(s2.writes_components@, c))
    &&& forall|r: u64|
        !(#[trigger] declares(s1.writes_resources@, r) && declares(s2.writes_resources@, r))
}

/// Independent systems commute: two systems that stay within their
/// declared write sets, and whose write sets are disjoint, produce the
/// same world in either execution order.  The order a schedule picks for
/// systems with no ordering constraint therefore cannot change the
/// result of a tick.
pub proof fn lemma_independent_systems_commute(m: WorldModel, s1: System, s2: System)
    requires
        ops_declared(s1),
        ops_declared(s2),
        writes_disjoint(s1, s2),
    ensures
        apply_system(apply_system(m, s1), s2) == apply_system(apply_system(m, s2), s1),
{
    assert forall|i: int, j: int|
        0 <= i < s1.ops@.len() && 0 <= j < s2.ops@.len()
            implies ops_independent(#[trigger] s1.ops@[i], #[trigger] s2.ops@[j]) by {
        assert(op_declared(s1, s1.ops@[i]));
        assert(op_declared(s2, s2.ops@[j]));
    }
    lemma_ops_commute(m, s1.ops@, s2.ops@);
}

} // verus!
