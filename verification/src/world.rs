//! The world: entities, per-entity component data, and singleton resources.
//!
//! Component types and resources are identified by numeric tags, and the
//! data attached to them is held as plain 64-bit words.  Entities are
//! generational handles: a slot index paired with the generation at which
//! the slot was issued, so that a destroyed handle can never be mistaken
//! for an entity created later in the same world.

use vstd::prelude::*;

verus! {

/// A handle to an entity: a slot index paired with the generation at which
/// the slot was issued.  Once the slot's generation has moved past the
/// handle's, the handle is dead for good and no later entity aliases it.
#[derive(Clone, Copy, PartialEq, Eq, Structural, Debug, Hash)]
pub struct Entity {
    pub index: usize,
    pub generation: u64,
}

/// The mathematical content of a `World`: which component types are
/// registered, the resource and component data, and the entity slots.
#[verifier::ext_equal]
pub struct WorldModel {
    pub registered: Set<u64>,
    pub resources: Map<u64, u64>,
    pub components: Map<(u64, Entity), u64>,
    pub generations: Seq<u64>,
    pub alive: Seq<bool>,
}

impl WorldModel {
    /// The handle `e` names the entity currently living in its slot.
    pub open spec fn entity_alive(self, e: Entity) -> bool {
        &&& e.index < self.alive.len()
        &&& self.alive[e.index as int]
        &&& self.generations[e.index as int] == e.generation
    }

    /// The handle `e` is retired: its slot exists and has either moved to a
    /// later generation or holds `e`'s generation dead.  A retired handle is
    /// dead and stays dead under every world operation.
    pub open spec fn retired(self, e: Entity) -> bool {
        &&& e.index < self.generations.len()
        &&& (self.generations[e.index as int] > e.generation
            || (self.generations[e.index as int] == e.generation
                && !self.alive[e.index as int]))
    }

    /// Well-formedness: the slot arrays line up, and component data is only
    /// attached to live entities under registered component types.
    pub open spec fn wf(self) -> bool {
        &&& self.generations.len() == self.alive.len()
        &&& forall|k: (u64, Entity)| #[trigger] self.components.contains_key(k)
                ==> self.entity_alive(k.1) && self.registered.contains(k.0)
    }
}

/// A retired handle never names a live entity: once an entity is
/// destroyed, its handle cannot alias any later entity, because its slot
/// only ever moves to later generations.
pub proof fn lemma_retired_never_alive(m: WorldModel, e: Entity)
    requires
        m.retired(e),
    ensures
        !m.entity_alive(e),
{
}

/// The set of tags occurring in a sequence.
pub open spec fn tag_set(s: Seq<u64>) -> Set<u64>
    decreases s.len(),
{
    if s.len() == 0 {
        Set::empty()
    } else {
        tag_set(s.drop_last()).insert(s.last())
    }
}

/// A tag is in `tag_set` exactly when it occurs in the sequence.
pub proof fn lemma_tag_set_contains(s: Seq<u64>, t: u64)
    ensures
        tag_set(s).contains(t) <==> exists|i: int| 0 <= i < s.len() && s[i] == t,
    decreases s.len(),
{
    if s.len() > 0 {
        lemma_tag_set_contains(s.drop_last(), t);
        if exists|i: int| 0 <= i < s.len() && s[i] == t {
            let i = choose|i: int| 0 <= i < s.len() && s[i] == t;
            if i < s.len() - 1 {
                assert(s.drop_last()[i] == t);
            }
            assert(tag_set(s).contains(t));
        }
        if tag_set(s).contains(t) && s.last() != t {
            let i = choose|i: int| 0 <= i < s.drop_last().len() && s.drop_last()[i] == t;
            assert(s[i] == t);
        }
    }
}

/// Builds a map from an association sequence; a later entry for a key
/// overrides an earlier one.
pub open spec fn assoc_map<K, V>(s: Seq<(K, V)>) -> Map<K, V>
    decreases s.len(),
{
    if s.len() == 0 {
        Map::empty()
    } else {
        assoc_map(s.drop_last()).insert(s.last().0, s.last().1)
    }
}

/// A key is in `assoc_map` exactly when some entry carries it.
pub proof fn lemma_assoc_map_contains<K, V>(s: Seq<(K, V)>, k: K)
    ensures
        assoc_map(s).contains_key(k) <==> exists|i: int| 0 <= i < s.len() && s[i].0 == k,
    decreases s.len(),
{
    if s.len() > 0 {
        lemma_assoc_map_contains(s.drop_last(), k);
        if exists|i: int| 0 <= i < s.len() && s[i].0 == k {
            let i = choose|i: int| 0 <= i < s.len() && s[i].0 == k;
            if i < s.len() - 1 {
                assert(s.drop_last()[i].0 == k);
            }
            assert(assoc_map(s).contains_key(k));
        }
        if assoc_map(s).contains_key(k) {
            if s.last().0 == k {
                assert(s[s.len() - 1].0 == k);
            } else {
                let i = choose|i: int| 0 <= i < s.drop_last().len() && s.drop_last()[i].0 == k;
                assert(s[i].0 == k);
            }
        }
    }
}

/// The entry for a key that no later entry shadows gives the key's value
/// in `assoc_map`.
pub proof fn lemma_assoc_map_at<K, V>(s: Seq<(K, V)>, k: K, i: int)
    requires
        0 <= i < s.len(),
        s[i].0 == k,
        forall|j: int| i < j < s.len() ==> s[j].0 != k,
    ensures
        assoc_map(s).contains_key(k),
        assoc_map(s)[k] == s[i].1,
    decreases s.len(),
{
    if i < s.len() - 1 {
        assert(s.drop_last()[i].0 == k);
        assert(forall|j: int| i < j < s.drop_last().len() ==> s.drop_last()[j].0 != k);
        lemma_assoc_map_at(s.drop_last(), k, i);
        assert(s.last().0 != k);
    }
}

/// Dropping all entries whose key satisfies `drop`, from the back.
pub open spec fn assoc_strip<K, V>(s: Seq<(K, V)>, drop: Set<K>) -> Seq<(K, V)>
    decreases s.len(),
{
    if s.len() == 0 {
        s
    } else if drop.contains(s.last().0) {
        assoc_strip(s.drop_last(), drop)
    } else {
        assoc_strip(s.drop_last(), drop).push(s.last())
    }
}

/// Stripping entries from the sequence removes their keys from the map.
pub proof fn lemma_assoc_strip<K, V>(s: Seq<(K, V)>, drop: Set<K>)
    ensures
        assoc_map(assoc_strip(s, drop)) =~= assoc_map(s).remove_keys(drop),
    decreases s.len(),
{
    if s.len() > 0 {
        lemma_assoc_strip(s.drop_last(), drop);
        if !drop.contains(s.last().0) {
            assert(assoc_strip(s, drop).drop_last() =~= assoc_strip(s.drop_last(), drop));
        }
    }
}

/// The full mutable simulation state: registered component types, singleton
/// resources, per-entity component data, and the entity slots.
///
/// Resource and component writes append to an association list whose later
/// entries shadow earlier ones, so an insertion is last-write-wins by
/// construction; the view collapses the list to a map.
pub struct World {
    registered: Vec<u64>,
    resources: Vec<(u64, u64)>,
    components: Vec<((u64, Entity), u64)>,
    generations: Vec<u64>,
    alive: Vec<bool>,
}

impl View for World {
    type V = WorldModel;

    closed spec fn view(&self) -> WorldModel {
        WorldModel {
            registered: tag_set(self.registered@),
            resources: assoc_map(self.resources@),
            components: assoc_map(self.components@),
            generations: self.generations@,
            alive: self.alive@,
        }
    }
}

impl World {
    /// A world with no entities, no data, and no registered component types.
    pub(crate) fn empty() -> (w: World)
        ensures
            w@ =~= (WorldModel {
                registered: Set::empty(),
                resources: Map::empty(),
                components: Map::empty(),
                generations: Seq::empty(),
                alive: Seq::empty(),
            }),
            w@.wf(),
    {
        let w = World {
            registered: Vec::new(),
            resources: Vec::new(),
            components: Vec::new(),
            generations: Vec::new(),
            alive: Vec::new(),
        };
        proof {
            assert(w@.registered =~= Set::<u64>::empty());
        }
        w
    }

    /// Registers a component type; registering the same tag again leaves the
    /// world's view unchanged.
    pub(crate) fn register_component(&mut self, comp: u64)
        ensures
            final(self)@ =~= (WorldModel { registered: old(self)@.registered.insert(comp), ..old(self)@ }),
            old(self)@.wf() ==> final(self)@.wf(),
    {
        self.registered.push(comp);
        proof {
            assert(self.registered@.drop_last() =~= old(self).registered@);
        }
    }

    /// Whether the component type `comp` is registered.
    pub fn is_registered(&self, comp: u64) -> (r: bool)
        ensures
            r == self@.registered.contains(comp),
    {
        let n = self.registered.len();
        for i in 0..n
            invariant
                n == self.registered.len(),
                forall|j: int| 0 <= j < i ==> self.registered@[j] != comp,
        {
            if self.registered[i] == comp {
                proof {
                    lemma_tag_set_contains(self.registered@, comp);
                    assert(self.registered@[i as int] == comp);
                }
                return true;
            }
        }
        proof {
            lemma_tag_set_contains(self.registered@, comp);
        }
        false
    }

    /// Stores the singleton resource `res`, overwriting any earlier value:
    /// last write wins.
    pub(crate) fn set_resource(&mut self, res: u64, value: u64)
        ensures
            final(self)@ =~= (WorldModel { resources: old(self)@.resources.insert(res, value), ..old(self)@ }),
            old(self)@.wf() ==> final(self)@.wf(),
    {
        self.resources.push((res, value));
        proof {
            assert(self.resources@.drop_last() =~= old(self).resources@);
        }
    }

    /// The current value of the singleton resource `res`, if present.
    pub fn resource(&self, res: u64) -> (r: Option<u64>)
        ensures
            r == if self@.resources.contains_key(res) {
                Some(self@.resources[res])
            } else {
                None::<u64>
            },
    {
        let n = self.resources.len();
        let mut i = n;
        while i > 0
            invariant
                n == self.resources.len(),
                i <= n,
                forall|j: int| i <= j < n ==> self.resources@[j].0 != res,
            decreases i,
        {
            i = i - 1;
            if self.resources[i].0 == res {
                proof {
                    lemma_assoc_map_at(self.resources@, res, i as int);
                }
                return Some(self.resources[i].1);
            }
        }
        proof {
            lemma_assoc_map_contains(self.resources@, res);
        }
        None
    }

    /// The component value of type `comp` attached to entity `e`, if any.
    pub fn component(&self, comp: u64, e: Entity) -> (r: Option<u64>)
        ensures
            r == if self@.components.contains_key((comp, e)) {
                Some(self@.components[(comp, e)])
            } else {
                None::<u64>
            },
    {
        let n = self.components.len();
        let mut i = n;
        while i > 0
            invariant
                n == self.components.len(),
                i <= n,
                forall|j: int| i <= j < n ==> self.components@[j].0 != (comp, e),
            decreases i,
        {
            i = i - 1;
            let (key, value) = self.components[i];
            if key.0 == comp && key.1 == e {
                proof {
                    assert(self.components@[i as int].0 == (comp, e));
                    lemma_assoc_map_at(self.components@, (comp, e), i as int);
                }
                return Some(value);
            }
        }
        proof {
            lemma_assoc_map_contains(self.components@, (comp, e));
        }
        None
    }

    /// Attaches component data to a live entity under a registered type.
    pub(crate) fn set_component(&mut self, comp: u64, e: Entity, value: u64)
        requires
            old(self)@.registered.contains(comp),
            old(self)@.entity_alive(e),
        ensures
            final(self)@ =~= (WorldModel {
                components: old(self)@.components.insert((comp, e), value),
                ..old(self)@
            }),
            old(self)@.wf() ==> final(self)@.wf(),
    {
        self.components.push(((comp, e), value));
        proof {
            assert(self.components@.drop_last() =~= old(self).components@);
        }
    }

    /// Allocates a fresh entity, reusing a dead slot at the next generation
    /// when one is available.  The returned handle is live, was not live
    /// before, carries no component data, and aliases no retired handle:
    /// every handle retired before stays retired.
    pub fn create_entity(&mut self) -> (e: Entity)
        requires
            old(self)@.wf(),
        ensures
            final(self)@.wf(),
            final(self)@.entity_alive(e),
            !old(self)@.entity_alive(e),
            final(self)@.registered == old(self)@.registered,
            final(self)@.resources == old(self)@.resources,
            final(self)@.components == old(self)@.components,
            forall|c: u64| !final(self)@.components.contains_key((c, e)),
            forall|e2: Entity| e2 != e
                ==> final(self)@.entity_alive(e2) == old(self)@.entity_alive(e2),
            forall|e2: Entity| old(self)@.retired(e2) ==> #[trigger] final(self)@.retired(e2),
    {
        let n = self.alive.len();
        let mut i: usize = 0;
        while i < n
            invariant
                old(self)@.wf(),
                *self == *old(self),
                n == self.alive.len(),
                n == self.generations.len(),
                i <= n,
            decreases n - i,
        {
            if !self.alive[i] && self.generations[i] < u64::MAX {
                let g = self.generations[i] + 1;
                self.generations[i] = g;
                self.alive[i] = true;
                let e = Entity { index: i, generation: g };
                proof {
                    assert(self@.components == old(self)@.components);
                    assert forall|c: u64| !self@.components.contains_key((c, e)) by {
                        if old(self)@.components.contains_key((c, e)) {
                            assert(old(self)@.entity_alive(e));
                        }
                    }
                    assert forall|k: (u64, Entity)| #[trigger] self@.components.contains_key(k)
                        implies self@.entity_alive(k.1) && self@.registered.contains(k.0) by {
                        assert(old(self)@.components.contains_key(k));
                        assert(old(self)@.entity_alive(k.1));
                        assert(k.1.index != i);
                    }
                }
                return e;
            }
            i = i + 1;
        }
        self.generations.push(0);
        self.alive.push(true);
        let e = Entity { index: n, generation: 0 };
        proof {
            assert(self@.components == old(self)@.components);
            assert forall|c: u64| !self@.components.contains_key((c, e)) by {
                if old(self)@.components.contains_key((c, e)) {
                    assert(old(self)@.entity_alive(e));
                }
            }
            assert forall|k: (u64, Entity)| #[trigger] self@.components.contains_key(k)
                implies self@.entity_alive(k.1) && self@.registered.contains(k.0) by {
                assert(old(self)@.components.contains_key(k));
                assert(old(self)@.entity_alive(k.1));
            }
        }
        e
    }

    /// Destroys a live entity, removing all of its component data; its
    /// handle is retired and can never name a later entity.  Deleting a
    /// handle that is not live leaves the world unchanged.
    pub fn delete_entity(&mut self, e: Entity)
        requires
            old(self)@.wf(),
        ensures
            final(self)@.wf(),
            final(self)@.registered == old(self)@.registered,
            final(self)@.resources == old(self)@.resources,
            old(self)@.entity_alive(e) ==> {
                &&& final(self)@.components =~= old(self)@.components.remove_keys(
                    Set::new(|k: (u64, Entity)| k.1 == e))
                &&& !final(self)@.entity_alive(e)
                &&& final(self)@.retired(e)
            },
            !old(self)@.entity_alive(e) ==> final(self)@ =~= old(self)@,
            forall|e2: Entity| e2 != e
                ==> final(self)@.entity_alive(e2) == old(self)@.entity_alive(e2),
            forall|e2: Entity| old(self)@.retired(e2) ==> #[trigger] final(self)@.retired(e2),
    {
        if !self.entity_alive(e) {
            return;
        }
        self.alive[e.index] = false;
        let ghost dropped = Set::new(|k: (u64, Entity)| k.1 == e);
        let n = self.components.len();
        let mut kept: Vec<((u64, Entity), u64)> = Vec::new();
        for i in 0..n
            invariant
                n == self.components.len(),
                dropped == Set::new(|k: (u64, Entity)| k.1 == e),
                kept@ =~= assoc_strip(self.components@.take(i as int), dropped),
        {
            let (key, value) = self.components[i];
            proof {
                assert(self.components@.take(i + 1).drop_last() =~= self.components@.take(i as int));
                assert(self.components@.take(i + 1).last() == self.components@[i as int]);
            }
            if !(key.1 == e) {
                kept.push((key, value));
                proof {
                    assert(!dropped.contains(self.components@.take(i + 1).last().0));
                    assert(kept@ =~= assoc_strip(self.components@.take(i + 1), dropped));
                }
            } else {
                proof {
                    assert(dropped.contains(self.components@.take(i + 1).last().0));
                    assert(kept@ =~= assoc_strip(self.components@.take(i + 1), dropped));
                }
            }
        }
        proof {
            assert(self.components@.take(n as int) =~= self.components@);
            lemma_assoc_strip(self.components@, dropped);
        }
        self.components = kept;
        proof {
            assert(self@.components =~= old(self)@.components.remove_keys(dropped));
            assert forall|k: (u64, Entity)| #[trigger] self@.components.contains_key(k)
                implies self@.entity_alive(k.1) && self@.registered.contains(k.0) by {
                assert(old(self)@.components.contains_key(k));
                assert(old(self)@.entity_alive(k.1));
                assert(k.1 != e);
                if k.1.index == e.index {
                    assert(k.1.generation == old(self)@.generations[e.index as int]);
                    assert(k.1 == e);
                }
            }
        }
    }

    /// Whether the handle `e` names a live entity.
    pub fn entity_alive(&self, e: Entity) -> (r: bool)
        requires
            self@.wf(),
        ensures
            r == self@.entity_alive(e),
    {
        e.index < self.alive.len() && self.alive[e.index]
            && self.generations[e.index] == e.generation
    }
}

} // verus!
