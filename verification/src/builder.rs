//! Building an engine out of plugins.
//!
//! A `WorldBuilder` accumulates component-type registrations, resource
//! insertions and system registrations; `build` validates them and
//! finalizes a `World` and a `Dispatcher` into an `Engine`.  A `Plugin`
//! registers whatever it needs against the shared builder, and `Builder`
//! applies plugins in the order supplied.

use vstd::prelude::*;
use crate::dispatcher::Dispatcher;
use crate::dispatcher::Registration;
use crate::dispatcher::deps_resolved;
use crate::dispatcher::has_sys_name;
use crate::dispatcher::names_unique;
use crate::dispatcher::run_schedule;
use crate::dispatcher::sched_valid;
use crate::dispatcher::schedulable;
use crate::dispatcher::topo_sort;
use crate::system::Op;
use crate::system::System;
use crate::system::declares;
use crate::system::op_declared;
use crate::system::ops_declared;
use crate::world::Entity;
use crate::world::World;

verus! {

/// Why finalizing a builder failed.  Structural errors are resolved
/// entirely at build time: a successfully built engine is schedule-valid.
#[derive(Debug, PartialEq, Eq)]
pub enum BuildError {
    /// Two systems were registered under the same name.
    DuplicateName { name: String },
    /// A system names a dependency that no registration carries.
    UnknownDependency { system: String, dependency: String },
    /// A system declares access to a component type never registered.
    UnregisteredComponent { system: String, component: u64 },
    /// A system's logic writes a target its declaration does not announce.
    UndeclaredWrite { system: String },
    /// The dependency graph admits no dependency-respecting order.
    DependencyCycle,
}

/// Every component type the system declares, for reading or writing, is
/// in the registered set.
pub open spec fn sys_comps_registered(s: System, reg: Set<u64>) -> bool {
    &&& forall|j: int|
        0 <= j < s.reads_components@.len() ==> reg.contains(#[trigger] s.reads_components@[j])
    &&& forall|j: int|
        0 <= j < s.writes_components@.len() ==> reg.contains(#[trigger] s.writes_components@[j])
}

/// Every system's declared component accesses are registered.
pub open spec fn comps_registered(regs: Seq<Registration>, reg: Set<u64>) -> bool {
    forall|i: int| 0 <= i < regs.len() ==> sys_comps_registered((#[trigger] regs[i]).system, reg)
}

/// Every system's logic stays within its declared write sets.
pub open spec fn all_ops_declared(regs: Seq<Registration>) -> bool {
    forall|i: int| 0 <= i < regs.len() ==> ops_declared((#[trigger] regs[i]).system)
}

/// Some registration up to position `n` declares the resource `t`.
pub open spec fn res_accessed_upto(regs: Seq<Registration>, n: int, t: u64) -> bool {
    exists|i: int|
        0 <= i < n && (declares((#[trigger] regs[i]).system.reads_resources@, t) || declares(
            regs[i].system.writes_resources@,
            t,
        ))
}

/// Some registration declares the resource `t`, for reading or writing.
pub open spec fn res_accessed(regs: Seq<Registration>, t: u64) -> bool {
    res_accessed_upto(regs, regs.len() as int, t)
}

/// Everything `build` validates: unique names, resolved dependencies,
/// registered component accesses, declared writes, and an acyclic
/// dependency graph.
pub open spec fn build_ok(regs: Seq<Registration>, comps: Set<u64>) -> bool {
    &&& names_unique(regs)
    &&& deps_resolved(regs)
    &&& comps_registered(regs, comps)
    &&& all_ops_declared(regs)
    &&& schedulable(regs)
}

/// Whether the tag occurs in the list.
fn tags_contain(v: &Vec<u64>, t: u64) -> (r: bool)
    ensures
        r == declares(v@, t),
{
    let n = v.len();
    for j in 0..n
        invariant
            n == v.len(),
            forall|j2: int| 0 <= j2 < j ==> v@[j2] != t,
    {
        if v[j] == t {
            proof {
                assert(v@[j as int] == t);
            }
            return true;
        }
    }
    false
}

/// Whether some registration carries the name `n`.
fn name_registered(regs: &Vec<Registration>, n: &String) -> (r: bool)
    ensures
        r == has_sys_name(regs@, n@),
{
    let len = regs.len();
    for j in 0..len
        invariant
            len == regs.len(),
            forall|j2: int| 0 <= j2 < j ==> (#[trigger] regs@[j2].name@) != n@,
    {
        if regs[j].name == *n {
            proof {
                assert(regs@[j as int].name@ == n@);
            }
            return true;
        }
    }
    false
}

/// Finds a name registered twice, if any.
fn find_duplicate(regs: &Vec<Registration>) -> (r: Option<String>)
    ensures
        r is Some <==> !names_unique(regs@),
{
    let n = regs.len();
    for i in 0..n
        invariant
            n == regs.len(),
            forall|i2: int, j2: int|
                0 <= i2 < j2 < n && i2 < i
                    ==> (#[trigger] regs@[i2].name@) != (#[trigger] regs@[j2].name@),
    {
        let mut j: usize = i + 1;
        while j < n
            invariant
                n == regs.len(),
                i < j <= n,
                forall|i2: int, j2: int|
                    0 <= i2 < j2 < n && i2 < i
                        ==> (#[trigger] regs@[i2].name@) != (#[trigger] regs@[j2].name@),
                forall|j2: int|
                    i < j2 < j ==> (#[trigger] regs@[i as int].name@) != (#[trigger] regs@[j2].name@),
            decreases n - j,
        {
            if regs[i].name == regs[j].name {
                proof {
                    if names_unique(regs@) {
                        assert(regs@[i as int].name@ != regs@[j as int].name@);
                    }
                }
                return Some(regs[j].name.clone());
            }
            j = j + 1;
        }
    }
    None
}

/// Finds a dependency name that no registration carries, if any,
/// together with the system that asked for it.
fn find_unresolved(regs: &Vec<Registration>) -> (r: Option<(String, String)>)
    ensures
        r is Some <==> !deps_resolved(regs@),
{
    let n = regs.len();
    for i in 0..n
        invariant
            n == regs.len(),
            forall|i2: int, d: int|
                0 <= i2 < i && 0 <= d < regs@[i2].deps@.len()
                    ==> has_sys_name(regs@, (#[trigger] regs@[i2].deps@[d])@),
    {
        let m = regs[i].deps.len();
        for d in 0..m
            invariant
                n == regs.len(),
                i < n,
                m == regs@[i as int].deps@.len(),
                forall|i2: int, d2: int|
                    0 <= i2 < i && 0 <= d2 < regs@[i2].deps@.len()
                        ==> has_sys_name(regs@, (#[trigger] regs@[i2].deps@[d2])@),
                forall|d2: int|
                    0 <= d2 < d ==> has_sys_name(regs@, (#[trigger] regs@[i as int].deps@[d2])@),
        {
            if !name_registered(regs, &regs[i].deps[d]) {
                return Some((regs[i].name.clone(), regs[i].deps[d].clone()));
            }
        }
    }
    None
}

/// Finds a declared component access to an unregistered component type,
/// if any, together with the system that declared it.
fn find_unregistered_component(regs: &Vec<Registration>, world: &World) -> (r: Option<
    (String, u64),
>)
    ensures
        r is Some <==> !comps_registered(regs@, world@.registered),
{
    let n = regs.len();
    for i in 0..n
        invariant
            n == regs.len(),
            forall|i2: int|
                0 <= i2 < i ==> sys_comps_registered((#[trigger] regs@[i2]).system, world@.registered),
    {
        let nr = regs[i].system.reads_components.len();
        for j in 0..nr
            invariant
                n == regs.len(),
                i < n,
                nr == regs@[i as int].system.reads_components@.len(),
                forall|j2: int|
                    0 <= j2 < j ==> world@.registered.contains(
                        #[trigger] regs@[i as int].system.reads_components@[j2],
                    ),
        {
            if !world.is_registered(regs[i].system.reads_components[j]) {
                return Some((regs[i].name.clone(), regs[i].system.reads_components[j]));
            }
        }
        let nw = regs[i].system.writes_components.len();
        for j in 0..nw
            invariant
                n == regs.len(),
                i < n,
                nw == regs@[i as int].system.writes_components@.len(),
                forall|j2: int|
                    0 <= j2 < j ==> world@.registered.contains(
                        #[trigger] regs@[i as int].system.writes_components@[j2],
                    ),
                forall|j2: int|
                    0 <= j2 < regs@[i as int].system.reads_components@.len()
                        ==> world@.registered.contains(
                        #[trigger] regs@[i as int].system.reads_components@[j2],
                    ),
        {
            if !world.is_registered(regs[i].system.writes_components[j]) {
                return Some((regs[i].name.clone(), regs[i].system.writes_components[j]));
            }
        }
    }
    None
}

/// Finds a system whose logic writes a target outside its declared write
/// sets, if any.
fn find_undeclared(regs: &Vec<Registration>) -> (r: Option<String>)
    ensures
        r is Some <==> !all_ops_declared(regs@),
{
    let n = regs.len();
    for i in 0..n
        invariant
            n == regs.len(),
            forall|i2: int| 0 <= i2 < i ==> ops_declared((#[trigger] regs@[i2]).system),
    {
        let m = regs[i].system.ops.len();
        for o in 0..m
            invariant
                n == regs.len(),
                i < n,
                m == regs@[i as int].system.ops@.len(),
                forall|o2: int|
                    0 <= o2 < o ==> op_declared(
                        regs@[i as int].system,
                        #[trigger] regs@[i as int].system.ops@[o2],
                    ),
        {
            let ok = match regs[i].system.ops[o] {
                Op::SetResource { res, .. } => tags_contain(&regs[i].system.writes_resources, res),
                Op::AddResource { res, .. } => tags_contain(&regs[i].system.writes_resources, res),
                Op::SetComponent { comp, .. } => tags_contain(
                    &regs[i].system.writes_components,
                    comp,
                ),
                Op::AddComponent { comp, .. } => tags_contain(
                    &regs[i].system.writes_components,
                    comp,
                ),
            };
            if !ok {
                proof {
                    if all_ops_declared(regs@) {
                        assert(op_declared(regs@[i as int].system, regs@[i as int].system.ops@[o as int]));
                    }
                }
                return Some(regs[i].name.clone());
            }
        }
    }
    None
}
/// The map `m` extended with a zero-valued entry for every tag in
/// `tags` that it does not hold, taken front to back.
pub open spec fn with_defaults(m: Map<u64, u64>, tags: Seq<u64>) -> Map<u64, u64>
    decreases tags.len(),
{
    if tags.len() == 0 {
        m
    } else {
        let prev = with_defaults(m, tags.drop_last());
        if prev.contains_key(tags.last()) {
            prev
        } else {
            prev.insert(tags.last(), 0)
        }
    }
}

/// The resource map after `build`'s one-time setup: every resource some
/// registration declares, and nothing inserted, default-initialized.
pub open spec fn defaults_for_regs(m: Map<u64, u64>, regs: Seq<Registration>) -> Map<u64, u64>
    decreases regs.len(),
{
    if regs.len() == 0 {
        m
    } else {
        with_defaults(
            with_defaults(defaults_for_regs(m, regs.drop_last()), regs.last().system.reads_resources@),
            regs.last().system.writes_resources@,
        )
    }
}

/// What `with_defaults` holds: the keys grow by the listed tags, kept
/// values stay, and added values are zero.
pub proof fn lemma_with_defaults(m: Map<u64, u64>, tags: Seq<u64>)
    ensures
        forall|t: u64|
            #[trigger] with_defaults(m, tags).contains_key(t) <==> m.contains_key(t) || declares(
                tags,
                t,
            ),
        forall|t: u64|
            m.contains_key(t) ==> #[trigger] with_defaults(m, tags)[t] == m[t],
        forall|t: u64|
            !m.contains_key(t) && #[trigger] with_defaults(m, tags).contains_key(t)
                ==> with_defaults(m, tags)[t] == 0,
    decreases tags.len(),
{
    if tags.len() > 0 {
        lemma_with_defaults(m, tags.drop_last());
        let prev = with_defaults(m, tags.drop_last());
        let last = tags.last();
        assert(tags[tags.len() - 1] == last);
        assert forall|t: u64| #[trigger] with_defaults(m, tags).contains_key(t)
            implies m.contains_key(t) || declares(tags, t) by {
            if !m.contains_key(t) {
                if prev.contains_key(t) {
                    let w = choose|w: int|
                        0 <= w < tags.drop_last().len() && (#[trigger] tags.drop_last()[w]) == t;
                    assert(tags[w] == t);
                } else {
                    assert(t == last);
                }
            }
        }
        assert forall|t: u64| m.contains_key(t) || declares(tags, t)
            implies #[trigger] with_defaults(m, tags).contains_key(t) by {
            if m.contains_key(t) {
                assert(prev.contains_key(t));
            } else {
                let w = choose|w: int| 0 <= w < tags.len() && (#[trigger] tags[w]) == t;
                if w < tags.len() - 1 {
                    assert(tags.drop_last()[w] == t);
                    assert(prev.contains_key(t));
                } else {
                    assert(t == last);
                }
            }
        }
        assert forall|t: u64| m.contains_key(t)
            implies #[trigger] with_defaults(m, tags)[t] == m[t] by {
            assert(prev.contains_key(t));
            assert(prev[t] == m[t]);
            if !prev.contains_key(last) && t == last {
                assert(false);
            }
        }
        assert forall|t: u64|
            !m.contains_key(t) && #[trigger] with_defaults(m, tags).contains_key(t)
            implies with_defaults(m, tags)[t] == 0 by {
            if prev.contains_key(t) {
                assert(prev[t] == 0);
            }
        }
    }
}

/// One registration's worth of `defaults_for_regs`, unfolded.
pub proof fn lemma_res_accessed_step(regs: Seq<Registration>, t: u64)
    requires
        regs.len() > 0,
    ensures
        res_accessed(regs, t) <==> (res_accessed(regs.drop_last(), t) || declares(
            regs.last().system.reads_resources@,
            t,
        ) || declares(regs.last().system.writes_resources@, t)),
{
    if res_accessed(regs, t) {
        let w = choose|w: int|
            0 <= w < regs.len() && (declares((#[trigger] regs[w]).system.reads_resources@, t)
                || declares(regs[w].system.writes_resources@, t));
        if w < regs.len() - 1 {
            assert(regs.drop_last()[w] == regs[w]);
            assert(res_accessed(regs.drop_last(), t));
        }
    }
    if res_accessed(regs.drop_last(), t) {
        let w = choose|w: int|
            0 <= w < regs.drop_last().len() && (declares(
                (#[trigger] regs.drop_last()[w]).system.reads_resources@,
                t,
            ) || declares(regs.drop_last()[w].system.writes_resources@, t));
        assert(regs[w] == regs.drop_last()[w]);
        assert(res_accessed(regs, t));
    }
    if declares(regs.last().system.reads_resources@, t) || declares(
        regs.last().system.writes_resources@,
        t,
    ) {
        assert(regs[regs.len() - 1] == regs.last());
        assert(res_accessed(regs, t));
    }
}

/// What the one-time setup holds: the resource keys grow by exactly the
/// declared resources, inserted values stay, and defaulted values are
/// zero.
pub proof fn lemma_defaults_for_regs(m: Map<u64, u64>, regs: Seq<Registration>)
    ensures
        forall|t: u64|
            #[trigger] defaults_for_regs(m, regs).contains_key(t) <==> m.contains_key(t)
                || res_accessed(regs, t),
        forall|t: u64|
            m.contains_key(t) ==> #[trigger] defaults_for_regs(m, regs)[t] == m[t],
        forall|t: u64|
            !m.contains_key(t) && #[trigger] defaults_for_regs(m, regs).contains_key(t)
                ==> defaults_for_regs(m, regs)[t] == 0,
    decreases regs.len(),
{
    if regs.len() == 0 {
        assert forall|t: u64| !res_accessed(regs, t) by {
            if res_accessed(regs, t) {
                let w = choose|w: int|
                    0 <= w < regs.len() && (declares(
                        (#[trigger] regs[w]).system.reads_resources@,
                        t,
                    ) || declares(regs[w].system.writes_resources@, t));
            }
        }
    } else {
        let prev = defaults_for_regs(m, regs.drop_last());
        let mid = with_defaults(prev, regs.last().system.reads_resources@);
        lemma_defaults_for_regs(m, regs.drop_last());
        lemma_with_defaults(prev, regs.last().system.reads_resources@);
        lemma_with_defaults(mid, regs.last().system.writes_resources@);
        assert forall|t: u64| true implies (#[trigger] defaults_for_regs(m, regs).contains_key(t)
            <==> m.contains_key(t) || res_accessed(regs, t)) by {
            lemma_res_accessed_step(regs, t);
        }
    }
}

/// Default-initializes every resource some system declares but nothing
/// inserted: the one-time setup `build` performs against the world.
/// Resources carry plain words, whose default-construction rule gives
/// zero, so this never fails.
fn default_resources(world: &mut World, regs: &Vec<Registration>)
    requires
        old(world)@.wf(),
    ensures
        final(world)@.wf(),
        final(world)@.registered == old(world)@.registered,
        final(world)@.components == old(world)@.components,
        final(world)@.generations == old(world)@.generations,
        final(world)@.alive == old(world)@.alive,
        final(world)@.resources =~= defaults_for_regs(old(world)@.resources, regs@),
{
    let ghost base = world@;
    let n = regs.len();
    for i in 0..n
        invariant
            n == regs.len(),
            world@.wf(),
            world@.registered == base.registered,
            world@.components == base.components,
            world@.generations == base.generations,
            world@.alive == base.alive,
            world@.resources =~= defaults_for_regs(base.resources, regs@.take(i as int)),
    {
        let ghost prev = world@.resources;
        let ghost reads = regs@[i as int].system.reads_resources@;
        let ghost writes = regs@[i as int].system.writes_resources@;
        let nr = regs[i].system.reads_resources.len();
        let mut j: usize = 0;
        while j < nr
            invariant
                n == regs.len(),
                i < n,
                j <= nr,
                reads == regs@[i as int].system.reads_resources@,
                nr == reads.len(),
                world@.wf(),
                world@.registered == base.registered,
                world@.components == base.components,
                world@.generations == base.generations,
                world@.alive == base.alive,
                world@.resources =~= with_defaults(prev, reads.take(j as int)),
            decreases nr - j,
        {
            let t = regs[i].system.reads_resources[j];
            proof {
                assert(reads.take(j + 1).drop_last() =~= reads.take(j as int));
                assert(reads.take(j + 1).last() == reads[j as int]);
            }
            if world.resource(t).is_none() {
                world.set_resource(t, 0);
            }
            j = j + 1;
        }
        proof {
            assert(reads.take(nr as int) =~= reads);
        }
        let ghost mid = world@.resources;
        let nw = regs[i].system.writes_resources.len();
        let mut j: usize = 0;
        while j < nw
            invariant
                n == regs.len(),
                i < n,
                j <= nw,
                writes == regs@[i as int].system.writes_resources@,
                nw == writes.len(),
                world@.wf(),
                world@.registered == base.registered,
                world@.components == base.components,
                world@.generations == base.generations,
                world@.alive == base.alive,
                world@.resources =~= with_defaults(mid, writes.take(j as int)),
            decreases nw - j,
        {
            let t = regs[i].system.writes_resources[j];
            proof {
                assert(writes.take(j + 1).drop_last() =~= writes.take(j as int));
                assert(writes.take(j + 1).last() == writes[j as int]);
            }
            if world.resource(t).is_none() {
                world.set_resource(t, 0);
            }
            j = j + 1;
        }
        proof {
            assert(writes.take(nw as int) =~= writes);
            assert(regs@.take(i + 1).drop_last() =~= regs@.take(i as int));
            assert(regs@.take(i + 1).last() == regs@[i as int]);
        }
    }
    proof {
        assert(regs@.take(n as int) =~= regs@);
    }
}

/// An accumulator for a world and an execution plan in the making:
/// component types, resources, and named systems with dependencies.
/// Finalizing it with `build` consumes it.
pub struct WorldBuilder {
    components: Vec<u64>,
    resources: Vec<(u64, u64)>,
    systems: Vec<Registration>,
}

impl WorldBuilder {
    /// The component types registered so far.
    pub closed spec fn component_tags(self) -> Set<u64> {
        crate::world::tag_set(self.components@)
    }

    /// The resources inserted so far; a later insertion for a tag has
    /// overwritten an earlier one.
    pub closed spec fn resource_map(self) -> Map<u64, u64> {
        crate::world::assoc_map(self.resources@)
    }

    /// The system registrations so far, in registration order.
    pub closed spec fn registrations(self) -> Seq<Registration> {
        self.systems@
    }

    /// An empty builder: nothing registered, nothing inserted.
    pub fn new() -> (b: WorldBuilder)
        ensures
            b.component_tags() =~= Set::<u64>::empty(),
            b.resource_map() =~= Map::<u64, u64>::empty(),
            b.registrations() =~= Seq::<Registration>::empty(),
    {
        WorldBuilder { components: Vec::new(), resources: Vec::new(), systems: Vec::new() }
    }

    /// Registers a system under `name` with the named dependencies.
    /// Nothing is validated here: duplicate names, unknown dependencies
    /// and cycles surface at `build` time.
    pub fn with_system(&mut self, system: System, name: String, deps: Vec<String>)
        ensures
            final(self).registrations() =~= old(self).registrations().push(
                Registration { system, name, deps },
            ),
            final(self).component_tags() == old(self).component_tags(),
            final(self).resource_map() == old(self).resource_map(),
    {
        self.systems.push(Registration { system, name, deps });
    }

    /// Registers storage for a component type.  Registering the same tag
    /// twice is harmless: the set of registered types is unchanged.
    pub fn with_component(&mut self, comp: u64)
        ensures
            final(self).component_tags() =~= old(self).component_tags().insert(comp),
            final(self).resource_map() == old(self).resource_map(),
            final(self).registrations() == old(self).registrations(),
    {
        self.components.push(comp);
        proof {
            assert(self.components@.drop_last() =~= old(self).components@);
        }
    }

    /// Stores a singleton resource, silently replacing any earlier value
    /// of the same tag: last write wins.
    pub fn with_resource(&mut self, res: u64, value: u64)
        ensures
            final(self).resource_map() =~= old(self).resource_map().insert(res, value),
            final(self).component_tags() == old(self).component_tags(),
            final(self).registrations() == old(self).registrations(),
    {
        self.resources.push((res, value));
        proof {
            assert(self.resources@.drop_last() =~= old(self).resources@);
        }
    }

    /// Consumes the builder, validates the registrations, and finalizes
    /// the world and the execution plan into an engine.
    ///
    /// Succeeds exactly when the names are unique, every dependency
    /// resolves, every declared component access is registered, every
    /// system writes only what it declares, and the dependency graph is
    /// acyclic.  On success, every resource some system declares but
    /// nothing inserted is default-initialized to zero, and the world
    /// starts with no entities.
    pub fn build(self) -> (r: Result<Engine, BuildError>)
        ensures
            r is Ok <==> build_ok(self.registrations(), self.component_tags()),
            (r matches Ok(engine) ==> {
                &&& engine.wf()
                &&& engine.dispatcher.registrations() == self.registrations()
                &&& engine.world@.registered == self.component_tags()
                &&& engine.world@.components =~= Map::<(u64, Entity), u64>::empty()
                &&& engine.world@.generations =~= Seq::<u64>::empty()
                &&& engine.world@.alive =~= Seq::<bool>::empty()
                &&& forall|t: u64|
                    (#[trigger] engine.world@.resources.contains_key(t)) <==> (
                    self.resource_map().contains_key(t) || res_accessed(self.registrations(), t))
                &&& forall|t: u64|
                    self.resource_map().contains_key(t) ==> (#[trigger] engine.world@.resources[t])
                        == self.resource_map()[t]
                &&& forall|t: u64|
                    !self.resource_map().contains_key(t) && engine.world@.resources.contains_key(t)
                        ==> (#[trigger] engine.world@.resources[t]) == 0
            }),
            (r matches Err(e) ==> {
                &&& (!names_unique(self.registrations()) ==> e is DuplicateName)
                &&& (names_unique(self.registrations()) && !deps_resolved(self.registrations())
                    ==> e is UnknownDependency)
                &&& (names_unique(self.registrations()) && deps_resolved(self.registrations())
                    && !comps_registered(self.registrations(), self.component_tags())
                    ==> e is UnregisteredComponent)
                &&& (names_unique(self.registrations()) && deps_resolved(self.registrations())
                    && comps_registered(self.registrations(), self.component_tags())
                    && !all_ops_declared(self.registrations()) ==> e is UndeclaredWrite)
                &&& (names_unique(self.registrations()) && deps_resolved(self.registrations())
                    && comps_registered(self.registrations(), self.component_tags())
                    && all_ops_declared(self.registrations()) ==> e is DependencyCycle)
            }),
    {
        let WorldBuilder { components, resources, systems } = self;
        let mut world = World::empty();
        let nc = components.len();
        for i in 0..nc
            invariant
                nc == components.len(),
                world@.wf(),
                world@.registered =~= crate::world::tag_set(components@.take(i as int)),
                world@.resources =~= Map::<u64, u64>::empty(),
                world@.components =~= Map::<(u64, Entity), u64>::empty(),
                world@.generations =~= Seq::<u64>::empty(),
                world@.alive =~= Seq::<bool>::empty(),
        {
            world.register_component(components[i]);
            proof {
                assert(components@.take(i + 1).drop_last() =~= components@.take(i as int));
                assert(components@.take(i + 1).last() == components@[i as int]);
            }
        }
        proof {
            assert(components@.take(nc as int) =~= components@);
        }
        let nr = resources.len();
        for i in 0..nr
            invariant
                nr == resources.len(),
                world@.wf(),
                world@.registered =~= crate::world::tag_set(components@),
                world@.resources =~= crate::world::assoc_map(resources@.take(i as int)),
                world@.components =~= Map::<(u64, Entity), u64>::empty(),
                world@.generations =~= Seq::<u64>::empty(),
                world@.alive =~= Seq::<bool>::empty(),
        {
            let (t, v) = resources[i];
            world.set_resource(t, v);
            proof {
                assert(resources@.take(i + 1).drop_last() =~= resources@.take(i as int));
                assert(resources@.take(i + 1).last() == resources@[i as int]);
            }
        }
        proof {
            assert(resources@.take(nr as int) =~= resources@);
        }
        if let Some(name) = find_duplicate(&systems) {
            return Err(BuildError::DuplicateName { name });
        }
        if let Some((system, dependency)) = find_unresolved(&systems) {
            return Err(BuildError::UnknownDependency { system, dependency });
        }
        if let Some((system, component)) = find_unregistered_component(&systems, &world) {
            return Err(BuildError::UnregisteredComponent { system, component });
        }
        if let Some(system) = find_undeclared(&systems) {
            return Err(BuildError::UndeclaredWrite { system });
        }
        match topo_sort(&systems) {
            None => Err(BuildError::DependencyCycle),
            Some(order) => {
                let ghost inserted = world@.resources;
                default_resources(&mut world, &systems);
                proof {
                    lemma_defaults_for_regs(inserted, systems@);
                }
                Ok(Engine { world, dispatcher: Dispatcher::new(systems, order) })
            },
        }
    }
}

impl Default for WorldBuilder {
    /// The same empty builder `new` gives.
    fn default() -> (b: WorldBuilder)
        ensures
            b.component_tags() =~= Set::<u64>::empty(),
            b.resource_map() =~= Map::<u64, u64>::empty(),
            b.registrations() =~= Seq::<Registration>::empty(),
    {
        WorldBuilder::new()
    }
}

/// A plugin adds to the engine in the making: given the shared builder,
/// it registers whatever components, resources and systems it needs.
pub trait Plugin {
    fn setup(self, builder: &mut WorldBuilder);
}

/// The ready-to-simulate pairing of a world and a built dispatch plan;
/// `run` advances the simulation by one tick.
pub struct Engine {
    pub world: World,
    pub dispatcher: Dispatcher,
}

impl Engine {
    /// The world is well-formed and the plan is a valid schedule over its
    /// registrations.  `build` establishes this and `run` keeps it.
    pub open spec fn wf(self) -> bool {
        &&& self.world@.wf()
        &&& self.dispatcher.wf()
    }

    /// Advances the simulation by one tick: every system runs exactly
    /// once, after all of its dependencies.  The world it leaves behind
    /// is a function of the world it started from and the schedule, so
    /// repeated ticks from equal states end in equal states.
    pub fn run(&mut self)
        requires
            old(self).wf(),
        ensures
            final(self).wf(),
            final(self).dispatcher == old(self).dispatcher,
            final(self).world@ == run_schedule(
                old(self).world@,
                old(self).dispatcher.registrations(),
                old(self).dispatcher.order(),
            ),
            final(self).world@.registered == old(self).world@.registered,
            final(self).world@.generations == old(self).world@.generations,
            final(self).world@.alive == old(self).world@.alive,
    {
        self.dispatcher.dispatch(&mut self.world);
    }
}

/// The top-level entry point: applies plugins in the order supplied to a
/// shared builder, then finalizes into an engine.
pub struct Builder {
    world_builder: WorldBuilder,
}

impl Builder {
    /// The builder state the plugins applied so far have produced.
    pub closed spec fn state(self) -> WorldBuilder {
        self.world_builder
    }

    /// A builder with an empty world builder behind it.
    pub fn new() -> (b: Builder)
        ensures
            b.state().component_tags() =~= Set::<u64>::empty(),
            b.state().resource_map() =~= Map::<u64, u64>::empty(),
            b.state().registrations() =~= Seq::<Registration>::empty(),
    {
        Builder { world_builder: WorldBuilder::new() }
    }

    /// Applies one plugin's `setup` immediately against the shared world
    /// builder and returns the builder for chaining.  Plugins are applied
    /// in the order supplied: what a later plugin sees includes what
    /// earlier ones registered.
    pub fn with<P: Plugin>(self, plugin: P) -> Builder {
        let mut b = self;
        plugin.setup(&mut b.world_builder);
        b
    }

    /// Delegates to the world builder's `build`: validates everything
    /// accumulated and returns the finalized engine, or the first error.
    pub fn build(self) -> (r: Result<Engine, BuildError>)
        ensures
            r is Ok <==> build_ok(self.state().registrations(), self.state().component_tags()),
            (r matches Ok(engine) ==> {
                &&& engine.wf()
                &&& engine.dispatcher.registrations() == self.state().registrations()
                &&& engine.world@.registered == self.state().component_tags()
                &&& engine.world@.components =~= Map::<(u64, Entity), u64>::empty()
                &&& engine.world@.generations =~= Seq::<u64>::empty()
                &&& engine.world@.alive =~= Seq::<bool>::empty()
                &&& forall|t: u64|
                    (#[trigger] engine.world@.resources.contains_key(t)) <==> (
                    self.state().resource_map().contains_key(t) || res_accessed(
                        self.state().registrations(),
                        t,
                    ))
                &&& forall|t: u64|
                    self.state().resource_map().contains_key(t) ==> (
                    #[trigger] engine.world@.resources[t]) == self.state().resource_map()[t]
                &&& forall|t: u64|
                    !self.state().resource_map().contains_key(t)
                        && engine.world@.resources.contains_key(t) ==> (
                    #[trigger] engine.world@.resources[t]) == 0
            }),
            (r matches Err(e) ==> {
                &&& (!names_unique(self.state().registrations()) ==> e is DuplicateName)
                &&& (names_unique(self.state().registrations()) && !deps_resolved(
                    self.state().registrations(),
                ) ==> e is UnknownDependency)
                &&& (names_unique(self.state().registrations()) && deps_resolved(
                    self.state().registrations(),
                ) && !comps_registered(self.state().registrations(), self.state().component_tags())
                    ==> e is UnregisteredComponent)
                &&& (names_unique(self.state().registrations()) && deps_resolved(
                    self.state().registrations(),
                ) && comps_registered(self.state().registrations(), self.state().component_tags())
                    && !all_ops_declared(self.state().registrations()) ==> e is UndeclaredWrite)
                &&& (names_unique(self.state().registrations()) && deps_resolved(
                    self.state().registrations(),
                ) && comps_registered(self.state().registrations(), self.state().component_tags())
                    && all_ops_declared(self.state().registrations()) ==> e is DependencyCycle)
            }),
    {
        self.world_builder.build()
    }
}

impl Default for Builder {
    /// The same empty builder `new` gives.
    fn default() -> (b: Builder)
        ensures
            b.state().component_tags() =~= Set::<u64>::empty(),
            b.state().resource_map() =~= Map::<u64, u64>::empty(),
            b.state().registrations() =~= Seq::<Registration>::empty(),
    {
        Builder::new()
    }
}

} // verus!
