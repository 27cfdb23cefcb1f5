//! The replication filter: an archetype predicate plus a per-component-event
//! predicate deciding which entities and which of their components are
//! eligible for replication to a peer, per mutation kind.

use vstd::prelude::*;

use crate::component::{
    units_contain, units_map, units_unique, Component, ComponentUnit, EntityData, Value,
};
use crate::ids::EntityId;
use crate::model::WorldModel;
use crate::world::World;

verus! {

/// The mutation kind a component predicate is consulted for.
#[derive(Clone, Copy, PartialEq, Eq, Structural, Debug)]
pub enum WorldStreamCompEvent {
    Init,
    SetValue,
    Spawn,
    AddComponent,
    RemoveComponent,
}

/// A built-in component predicate kind.
#[derive(Clone, Debug)]
pub enum KeyRule {
    All,
    Only(Vec<Component>),
    Except(Vec<Component>),
}

impl KeyRule {
    pub open spec fn allows_spec(self, c: Component) -> bool {
        match self {
            KeyRule::All => true,
            KeyRule::Only(v) => v@.contains(c),
            KeyRule::Except(v) => !v@.contains(c),
        }
    }

    pub fn allows(&self, c: Component) -> (r: bool)
        ensures
            r == self.allows_spec(c),
    {
        match self {
            KeyRule::All => true,
            KeyRule::Only(v) => comps_contain(v, c),
            KeyRule::Except(v) => !comps_contain(v, c),
        }
    }

    /// A fresh copy admitting exactly the same components.
    pub fn duplicate(&self) -> (r: Self)
        ensures
            forall|c: Component| r.allows_spec(c) == self.allows_spec(c),
    {
        match self {
            KeyRule::All => KeyRule::All,
            KeyRule::Only(v) => KeyRule::Only(copy_comps(v)),
            KeyRule::Except(v) => KeyRule::Except(copy_comps(v)),
        }
    }
}

/// A fresh copy of a component vector.
pub fn copy_comps(v: &Vec<Component>) -> (r: Vec<Component>)
    ensures
        r@ == v@,
{
    let mut r: Vec<Component> = Vec::new();
    let mut i: usize = 0;
    while i < v.len()
        invariant
            i <= v@.len(),
            r@ == v@.take(i as int),
        decreases v@.len() - i,
    {
        r.push(v[i]);
        proof {
            assert(r@ =~= v@.take(i + 1));
        }
        i += 1;
    }
    proof {
        assert(v@.take(v@.len() as int) =~= v@);
    }
    r
}

/// Whether a component vector holds the given component.
pub fn comps_contain(v: &Vec<Component>, c: Component) -> (r: bool)
    ensures
        r == v@.contains(c),
{
    let mut i: usize = 0;
    while i < v.len()
        invariant
            forall|j: int| 0 <= j < i ==> v@[j] != c,
        decreases v@.len() - i,
    {
        if v[i] == c {
            return true;
        }
        i += 1;
    }
    false
}

/// Whether an id vector holds the given id.
pub fn ids_contain(v: &Vec<EntityId>, id: EntityId) -> (r: bool)
    ensures
        r == v@.contains(id),
{
    let mut i: usize = 0;
    while i < v.len()
        invariant
            forall|j: int| 0 <= j < i ==> v@[j] != id,
        decreases v@.len() - i,
    {
        if v[i] == id {
            return true;
        }
        i += 1;
    }
    false
}

/// The per-event component predicate: one rule per mutation kind, allowing
/// asymmetric policies (a component replicated on spawn but never updated
/// afterward).
#[derive(Clone, Debug)]
pub struct ComponentFilter {
    pub on_init: KeyRule,
    pub on_set: KeyRule,
    pub on_spawn: KeyRule,
    pub on_add: KeyRule,
    pub on_remove: KeyRule,
}

impl ComponentFilter {
    pub open spec fn allows_spec(self, c: Component, event: WorldStreamCompEvent) -> bool {
        match event {
            WorldStreamCompEvent::Init => self.on_init.allows_spec(c),
            WorldStreamCompEvent::SetValue => self.on_set.allows_spec(c),
            WorldStreamCompEvent::Spawn => self.on_spawn.allows_spec(c),
            WorldStreamCompEvent::AddComponent => self.on_add.allows_spec(c),
            WorldStreamCompEvent::RemoveComponent => self.on_remove.allows_spec(c),
        }
    }

    /// A filter admitting every component for every event.
    pub fn all() -> (r: Self)
        ensures
            forall|c: Component, e: WorldStreamCompEvent| r.allows_spec(c, e),
    {
        ComponentFilter {
            on_init: KeyRule::All,
            on_set: KeyRule::All,
            on_spawn: KeyRule::All,
            on_add: KeyRule::All,
            on_remove: KeyRule::All,
        }
    }

    /// One rule for every event.
    pub fn uniform(rule: KeyRule) -> (r: Self)
        ensures
            forall|c: Component, e: WorldStreamCompEvent| r.allows_spec(c, e) == rule.allows_spec(
                c,
            ),
    {
        ComponentFilter {
            on_init: rule.duplicate(),
            on_set: rule.duplicate(),
            on_spawn: rule.duplicate(),
            on_add: rule.duplicate(),
            on_remove: rule,
        }
    }

    pub fn allows(&self, c: Component, event: WorldStreamCompEvent) -> (r: bool)
        ensures
            r == self.allows_spec(c, event),
    {
        match event {
            WorldStreamCompEvent::Init => self.on_init.allows(c),
            WorldStreamCompEvent::SetValue => self.on_set.allows(c),
            WorldStreamCompEvent::Spawn => self.on_spawn.allows(c),
            WorldStreamCompEvent::AddComponent => self.on_add.allows(c),
            WorldStreamCompEvent::RemoveComponent => self.on_remove.allows(c),
        }
    }
}

/// The archetype predicate: an entity matches when its component signature
/// holds every required component and none of the excluded ones.
#[derive(Clone, Debug)]
pub struct ArchetypeFilter {
    pub incl: Vec<Component>,
    pub excl: Vec<Component>,
}

impl ArchetypeFilter {
    /// Whether a component signature matches.
    pub open spec fn matches_spec(self, dom: Set<Component>) -> bool {
        &&& forall|i: int| 0 <= i < self.incl@.len() ==> dom.contains(#[trigger] self.incl@[i])
        &&& forall|i: int| 0 <= i < self.excl@.len() ==> !dom.contains(#[trigger] self.excl@[i])
    }

    /// A filter matching every entity.
    pub fn all() -> (r: Self)
        ensures
            forall|dom: Set<Component>| r.matches_spec(dom),
            r.incl@.len() == 0,
    {
        ArchetypeFilter { incl: Vec::new(), excl: Vec::new() }
    }

    /// Whether the entity exists and its component signature matches.
    pub fn matches_entity(&self, world: &World, id: EntityId) -> (r: bool)
        requires
            world.inv(),
        ensures
            r == (world@.ents.dom().contains(id) && self.matches_spec(world@.ents[id].dom())),
    {
        let comps = match world.get_components(id) {
            Some(comps) => comps,
            None => {
                return false;
            },
        };
        let mut i: usize = 0;
        while i < self.incl.len()
            invariant
                forall|j: int|
                    0 <= j < i ==> world@.ents[id].dom().contains(#[trigger] self.incl@[j]),
            decreases self.incl@.len() - i,
        {
            if !comps_contain(&comps, self.incl[i]) {
                return false;
            }
            i += 1;
        }
        let mut i: usize = 0;
        while i < self.excl.len()
            invariant
                forall|j: int|
                    0 <= j < i ==> !world@.ents[id].dom().contains(#[trigger] self.excl@[j]),
            decreases self.excl@.len() - i,
        {
            if comps_contain(&comps, self.excl[i]) {
                return false;
            }
            i += 1;
        }
        true
    }
}

/// Two ids sit in two rows of the world's entity table in this order.
pub open spec fn id_pair_in_world_order(w: World, a: EntityId, b: EntityId) -> bool {
    exists|i1: int, i2: int|
        0 <= i1 < i2 < w.entities@.len() && #[trigger] crate::world::ent_id_at(w, i1) == a
            && #[trigger] crate::world::ent_id_at(w, i2) == b
}

/// Any two entries of the output stem from two rows of the world's entity
/// table in the same order.
pub open spec fn ids_in_world_order(w: World, out: Seq<EntityId>) -> bool {
    forall|k1: int, k2: int|
        #![trigger out[k1], out[k2]]
        0 <= k1 < k2 < out.len() ==> id_pair_in_world_order(w, out[k1], out[k2])
}

/// Two components sit in two slots of the entity in this order.
pub open spec fn comp_pair_in_world_order(w: World, id: EntityId, a: Component, b: Component) -> bool {
    exists|i1: int, i2: int|
        0 <= i1 < i2 < crate::world::n_comps(w, id) && #[trigger] crate::world::comp_at(w, id, i1)
            == a && #[trigger] crate::world::comp_at(w, id, i2) == b
}

/// Any two entries of the output stem from two component slots of the entity
/// in the same order.
pub open spec fn comps_in_world_order(w: World, id: EntityId, out: Seq<Component>) -> bool {
    forall|k1: int, k2: int|
        #![trigger out[k1], out[k2]]
        0 <= k1 < k2 < out.len() ==> comp_pair_in_world_order(w, id, out[k1], out[k2])
}

/// The replication policy of one peer: archetype predicate plus per-event
/// component predicate. Cloning the filter clones the handles, not the worlds
/// it is applied to.
#[derive(Clone, Debug)]
pub struct WorldStreamFilter {
    pub arch_filter: ArchetypeFilter,
    pub component_filter: ComponentFilter,
}

impl WorldStreamFilter {
    pub fn new(arch_filter: ArchetypeFilter, component_filter: ComponentFilter) -> (r: Self)
        ensures
            r.arch_filter == arch_filter,
            r.component_filter == component_filter,
    {
        WorldStreamFilter { arch_filter, component_filter }
    }

    /// Whether the component may be replicated for the given mutation kind.
    pub open spec fn allows(self, c: Component, event: WorldStreamCompEvent) -> bool {
        self.component_filter.allows_spec(c, event)
    }

    /// Whether an entity of the model is visible to this peer.
    pub open spec fn vis(self, m: WorldModel, id: EntityId) -> bool {
        m.ents.dom().contains(id) && self.arch_filter.matches_spec(m.ents[id].dom())
    }

    /// The components of an entity that a bootstrap (`Init`) snapshot carries.
    pub open spec fn vis_dom(self, m: WorldModel, id: EntityId) -> Set<Component> {
        Set::new(
            |c: Component|
                m.ents[id].dom().contains(c) && self.allows(c, WorldStreamCompEvent::Init),
        )
    }

    /// The visible values of an entity in a bootstrap snapshot.
    pub open spec fn vis_vals(self, m: WorldModel, id: EntityId) -> Map<Component, Value> {
        Map::new(|c: Component| self.vis_dom(m, id).contains(c), |c: Component| m.ents[id][c].value)
    }

    /// The filtered entity set of a world.
    pub fn all_entities(&self, world: &World) -> (r: Vec<EntityId>)
        requires
            world.inv(),
        ensures
            forall|id: EntityId| r@.contains(id) <==> self.vis(world@, id),
            forall|i: int, j: int| 0 <= i < j < r@.len() ==> r@[i] != r@[j],
            ids_in_world_order(*world, r@),
    {
        let ids = world.entity_ids();
        let mut r: Vec<EntityId> = Vec::new();
        let ghost mut srcs: Seq<int> = Seq::empty();
        let mut i: usize = 0;
        while i < ids.len()
            invariant
                i <= ids@.len(),
                ids@.len() == world.entities@.len(),
                forall|id: EntityId| r@.contains(id) <==> (exists|j: int|
                    0 <= j < i && ids@[j] == id && self.vis(world@, id)),
                forall|a: int, b: int| 0 <= a < b < r@.len() ==> r@[a] != r@[b],
                srcs.len() == r@.len(),
                forall|k: int|
                    0 <= k < srcs.len() ==> 0 <= #[trigger] srcs[k] < i
                        && crate::world::ent_id_at(*world, srcs[k]) == r@[k],
                forall|k1: int, k2: int|
                    0 <= k1 < k2 < srcs.len() ==> #[trigger] srcs[k1] < #[trigger] srcs[k2],
            decreases ids@.len() - i,
        {
            let ghost rpre = r@;
            if self.arch_filter.matches_entity(world, ids[i]) {
                proof {
                    srcs = srcs.push(i as int);
                }
                proof {
                    if rpre.contains(ids@[i as int]) {
                        let j = choose|j: int|
                            0 <= j < i && ids@[j] == ids@[i as int] && self.vis(
                                world@,
                                ids@[i as int],
                            );
                        assert(ids@[j] == ids@[i as int]);
                    }
                }
                r.push(ids[i]);
                proof {
                    assert forall|id: EntityId| r@.contains(id) implies (exists|j: int|
                        0 <= j < i + 1 && ids@[j] == id && self.vis(world@, id)) by {
                        if id == ids@[i as int] {
                            assert(ids@[i as int] == id && self.vis(world@, id));
                        } else {
                            assert(rpre.contains(id));
                        }
                    }
                    assert forall|id: EntityId|
                        (exists|j: int| 0 <= j < i + 1 && ids@[j] == id && self.vis(world@, id))
                            implies r@.contains(id) by {
                        if id != ids@[i as int] {
                            assert(rpre.contains(id));
                            let k = choose|k: int| 0 <= k < rpre.len() && rpre[k] == id;
                            assert(r@[k] == id);
                        } else {
                            assert(r@[r@.len() - 1] == id);
                        }
                    }
                }
            } else {
                proof {
                    assert forall|id: EntityId| r@.contains(id) implies (exists|j: int|
                        0 <= j < i + 1 && ids@[j] == id && self.vis(world@, id)) by {}
                    assert forall|id: EntityId|
                        (exists|j: int| 0 <= j < i + 1 && ids@[j] == id && self.vis(world@, id))
                            implies r@.contains(id) by {
                        let j = choose|j: int|
                            0 <= j < i + 1 && ids@[j] == id && self.vis(world@, id);
                        if j == i {
                            assert(!self.vis(world@, ids@[i as int]));
                        }
                    }
                }
                r.push(ids[i]);
                let _ = r.pop();
                proof {
                    assert(r@ =~= rpre);
                }
            }
            i += 1;
        }
        proof {
            assert forall|id: EntityId| r@.contains(id) implies self.vis(world@, id) by {}
            assert forall|id: EntityId| self.vis(world@, id) implies r@.contains(id) by {
                assert(ids@.contains(id));
                let j = choose|j: int| 0 <= j < ids@.len() && ids@[j] == id;
            }
            assert forall|k1: int, k2: int|
                #![trigger r@[k1], r@[k2]]
                0 <= k1 < k2 < r@.len() implies id_pair_in_world_order(
                *world,
                r@[k1],
                r@[k2],
            ) by {
                assert(0 <= srcs[k1] < srcs[k2] < world.entities@.len());
                assert(crate::world::ent_id_at(*world, srcs[k1]) == r@[k1]);
                assert(crate::world::ent_id_at(*world, srcs[k2]) == r@[k2]);
            }
        }
        r
    }

    /// The `Init`-visible component keys of an existing entity.
    pub fn get_entity_components(&self, world: &World, id: EntityId) -> (r: Vec<Component>)
        requires
            world.inv(),
            world@.ents.dom().contains(id),
        ensures
            forall|c: Component| r@.contains(c) <==> self.vis_dom(world@, id).contains(c),
            forall|i: int, j: int| 0 <= i < j < r@.len() ==> r@[i] != r@[j],
            comps_in_world_order(*world, id, r@),
    {
        let comps = world.get_components(id).unwrap();
        let mut r: Vec<Component> = Vec::new();
        let ghost mut srcs: Seq<int> = Seq::empty();
        let mut i: usize = 0;
        while i < comps.len()
            invariant
                i <= comps@.len(),
                comps@.len() == crate::world::n_comps(*world, id),
                forall|j: int|
                    0 <= j < comps@.len() ==> comps@[j] == crate::world::comp_at(*world, id, j),
                forall|c: Component| r@.contains(c) <==> (exists|j: int|
                    0 <= j < i && comps@[j] == c && self.vis_dom(world@, id).contains(c)),
                forall|a: int, b: int| 0 <= a < b < r@.len() ==> r@[a] != r@[b],
                srcs.len() == r@.len(),
                forall|k: int|
                    0 <= k < srcs.len() ==> 0 <= #[trigger] srcs[k] < i
                        && crate::world::comp_at(*world, id, srcs[k]) == r@[k],
                forall|k1: int, k2: int|
                    0 <= k1 < k2 < srcs.len() ==> #[trigger] srcs[k1] < #[trigger] srcs[k2],
            decreases comps@.len() - i,
        {
            let ghost rpre = r@;
            let c = comps[i];
            if self.component_filter.allows(c, WorldStreamCompEvent::Init) {
                proof {
                    srcs = srcs.push(i as int);
                }
                proof {
                    if rpre.contains(comps@[i as int]) {
                        let j = choose|j: int|
                            0 <= j < i && comps@[j] == comps@[i as int] && self.vis_dom(
                                world@,
                                id,
                            ).contains(comps@[i as int]);
                        assert(comps@[j] == comps@[i as int]);
                    }
                }
                r.push(c);
                proof {
                    assert forall|c2: Component| r@.contains(c2) implies (exists|j: int|
                        0 <= j < i + 1 && comps@[j] == c2 && self.vis_dom(world@, id).contains(
                            c2,
                        )) by {
                        if c2 == comps@[i as int] {
                            assert(comps@.contains(comps@[i as int]));
                            assert(self.vis_dom(world@, id).contains(c2));
                        } else {
                            assert(rpre.contains(c2));
                        }
                    }
                    assert forall|c2: Component|
                        (exists|j: int|
                            0 <= j < i + 1 && comps@[j] == c2 && self.vis_dom(world@, id).contains(
                                c2,
                            )) implies r@.contains(c2) by {
                        if c2 != comps@[i as int] {
                            assert(rpre.contains(c2));
                            let k = choose|k: int| 0 <= k < rpre.len() && rpre[k] == c2;
                            assert(r@[k] == c2);
                        } else {
                            assert(r@[r@.len() - 1] == c2);
                        }
                    }
                }
            } else {
                proof {
                    assert(!self.allows(comps@[i as int], WorldStreamCompEvent::Init));
                    assert forall|c2: Component|
                        (exists|j: int|
                            0 <= j < i + 1 && comps@[j] == c2 && self.vis_dom(world@, id).contains(
                                c2,
                            )) implies r@.contains(c2) by {
                        let j = choose|j: int|
                            0 <= j < i + 1 && comps@[j] == c2 && self.vis_dom(world@, id).contains(
                                c2,
                            );
                        if j == i {
                            assert(!self.vis_dom(world@, id).contains(comps@[i as int]));
                        }
                    }
                }
            }
            i += 1;
        }
        proof {
            assert forall|c: Component| self.vis_dom(world@, id).contains(c) implies r@.contains(
                c,
            ) by {
                assert(world@.ents[id].dom().contains(c));
                assert(comps@.contains(c));
                let j = choose|j: int| 0 <= j < comps@.len() && comps@[j] == c;
            }
            assert forall|k1: int, k2: int|
                #![trigger r@[k1], r@[k2]]
                0 <= k1 < k2 < r@.len() implies comp_pair_in_world_order(
                *world,
                id,
                r@[k1],
                r@[k2],
            ) by {
                assert(0 <= srcs[k1] < srcs[k2] < crate::world::n_comps(*world, id));
                assert(crate::world::comp_at(*world, id, srcs[k1]) == r@[k1]);
                assert(crate::world::comp_at(*world, id, srcs[k2]) == r@[k2]);
            }
        }
        r
    }

    /// The `Init`-visible units of an existing entity, with their current
    /// values.
    pub fn read_entity_components(&self, world: &World, id: EntityId) -> (r: Vec<ComponentUnit>)
        requires
            world.inv(),
            world@.ents.dom().contains(id),
        ensures
            units_unique(r@),
            units_map(r@) == self.vis_vals(world@, id),
    {
        let comps = self.get_entity_components(world, id);
        let mut r: Vec<ComponentUnit> = Vec::new();
        let mut i: usize = 0;
        while i < comps.len()
            invariant
                i <= comps@.len(),
                r@.len() == i,
                forall|j: int|
                    0 <= j < i ==> (#[trigger] r@[j]).component == comps@[j] && r@[j].value
                        == world@.ents[id][comps@[j]].value,
            decreases comps@.len() - i,
        {
            let c = comps[i];
            proof {
                assert(comps@.contains(c));
                assert(self.vis_dom(world@, id).contains(c));
            }
            let u = world.get_unit(id, c).unwrap();
            r.push(u);
            i += 1;
        }
        proof {
            assert forall|a: int, b: int| 0 <= a < b < r@.len() implies (
            #[trigger] r@[a]).component != (#[trigger] r@[b]).component by {
                assert(r@[a].component == comps@[a]);
                assert(r@[b].component == comps@[b]);
            }
            assert forall|c: Component| units_contain(r@, c) implies self.vis_dom(
                world@,
                id,
            ).contains(c) by {
                let j = choose|j: int| 0 <= j < r@.len() && (#[trigger] r@[j]).component == c;
                assert(comps@[j] == c);
                assert(comps@.contains(c));
            }
            assert forall|c: Component| self.vis_dom(world@, id).contains(c) implies units_contain(
                r@,
                c,
            ) by {
                assert(comps@.contains(c));
                let j = choose|j: int| 0 <= j < comps@.len() && comps@[j] == c;
                assert(r@[j].component == c);
            }
            assert forall|c: Component| units_contain(r@, c) implies r@[crate::component::units_idx_of(
                r@,
                c,
            )].value == world@.ents[id][c].value by {
                let j = crate::component::units_idx_of(r@, c);
                assert(0 <= j < r@.len() && r@[j].component == c);
                assert(comps@[j] == c);
            }
            assert(units_map(r@) =~= self.vis_vals(world@, id));
        }
        r
    }

    /// Restrict entity data to the components this filter admits for `event`.
    pub fn filter_data(&self, data: &EntityData, event: WorldStreamCompEvent) -> (r: EntityData)
        requires
            data.wf(),
        ensures
            r.wf(),
            r.map_view() == data.map_view().restrict(
                Set::new(|c: Component| self.allows(c, event)),
            ),
            forall|i: int|
                0 <= i < r.units@.len() ==> self.allows((#[trigger] r.units@[i]).component, event),
    {
        let mut r: Vec<ComponentUnit> = Vec::new();
        let mut i: usize = 0;
        while i < data.units.len()
            invariant
                i <= data.units@.len(),
                units_unique(r@),
                forall|c: Component| units_contain(r@, c) <==> (exists|j: int|
                    0 <= j < i && (#[trigger] data.units@[j]).component == c && self.allows(
                        c,
                        event,
                    )),
                forall|k: int|
                    0 <= k < r@.len() ==> exists|j: int|
                        0 <= j < i && data.units@[j] == #[trigger] r@[k],
            decreases data.units@.len() - i,
        {
            let ghost rpre = r@;
            let u = data.units[i];
            if self.component_filter.allows(u.component, event) {
                proof {
                    if units_contain(rpre, u.component) {
                        let j = choose|j: int|
                            0 <= j < i && (#[trigger] data.units@[j]).component == u.component
                                && self.allows(u.component, event);
                        assert(data.units@[j].component == data.units@[i as int].component);
                    }
                }
                r.push(u);
                proof {
                    assert forall|c: Component| units_contain(r@, c) implies (exists|j: int|
                        0 <= j < i + 1 && (#[trigger] data.units@[j]).component == c && self.allows(
                            c,
                            event,
                        )) by {
                        if c != u.component {
                            assert(units_contain(rpre, c));
                        } else {
                            assert(data.units@[i as int].component == c);
                        }
                    }
                    assert forall|c: Component|
                        (exists|j: int|
                            0 <= j < i + 1 && (#[trigger] data.units@[j]).component == c
                                && self.allows(c, event)) implies units_contain(r@, c) by {
                        if c != u.component {
                            assert(units_contain(rpre, c));
                            let k = choose|k: int|
                                0 <= k < rpre.len() && (#[trigger] rpre[k]).component == c;
                            assert(r@[k].component == c);
                        } else {
                            assert(r@[r@.len() - 1].component == c);
                        }
                    }
                    assert forall|a: int, b: int| 0 <= a < b < r@.len() implies (
                    #[trigger] r@[a]).component != (#[trigger] r@[b]).component by {
                        if b == r@.len() - 1 {
                            assert(!units_contain(rpre, u.component));
                            assert(rpre[a] == r@[a]);
                        }
                    }
                }
            } else {
                proof {
                    assert forall|c: Component|
                        (exists|j: int|
                            0 <= j < i + 1 && (#[trigger] data.units@[j]).component == c
                                && self.allows(c, event)) implies units_contain(r@, c) by {
                        let j = choose|j: int|
                            0 <= j < i + 1 && (#[trigger] data.units@[j]).component == c
                                && self.allows(c, event);
                        if j == i {
                            assert(!self.allows(data.units@[i as int].component, event));
                        }
                    }
                }
            }
            i += 1;
        }
        let out = EntityData { units: r };
        proof {
            assert forall|c: Component| units_contain(out.units@, c) implies units_map(
                out.units@,
            )[c] == data.map_view()[c] by {
                let k = crate::component::units_idx_of(out.units@, c);
                assert(0 <= k < out.units@.len() && out.units@[k].component == c);
                let j = choose|j: int|
                    0 <= j < data.units@.len() && data.units@[j] == #[trigger] out.units@[k];
                crate::component::lemma_units_idx_unique(data.units@, c, j);
                assert(units_contain(data.units@, c));
            }
            assert forall|c: Component| units_contain(out.units@, c) implies units_contain(
                data.units@,
                c,
            ) by {
                let j = choose|j: int|
                    0 <= j < data.units@.len() && (#[trigger] data.units@[j]).component == c
                        && self.allows(c, event);
            }
            assert forall|c: Component|
                units_contain(data.units@, c) && self.allows(c, event) implies units_contain(
                out.units@,
                c,
            ) by {
                let j = choose|j: int|
                    0 <= j < data.units@.len() && (#[trigger] data.units@[j]).component == c;
            }
            assert(out.map_view() =~= data.map_view().restrict(
                Set::new(|c: Component| self.allows(c, event)),
            ));
            assert forall|k: int| 0 <= k < out.units@.len() implies self.allows(
                (#[trigger] out.units@[k]).component,
                event,
            ) by {
                assert(units_contain(out.units@, out.units@[k].component));
            }
        }
        out
    }
}

impl Default for WorldStreamFilter {
    /// The all-pass policy: every entity and every component is replicated.
    fn default() -> (r: Self)
        ensures
            forall|m: WorldModel, id: EntityId| r.vis(m, id) == m.ents.dom().contains(id),
            forall|c: Component, e: WorldStreamCompEvent| r.allows(c, e),
    {
        WorldStreamFilter { arch_filter: ArchetypeFilter::all(), component_filter: ComponentFilter::all() }
    }
}


impl WorldStreamFilter {
    /// A full-state diff: one mirrored spawn per visible entity, carrying the
    /// bootstrap-visible component values. Used to bootstrap a newly
    /// connected peer.
    pub fn initial_diff(&self, world: &World) -> (r: crate::diff::WorldDiff)
        requires
            world.inv(),
        ensures
            r.wf(),
            forall|k: int|
                0 <= k < r.changes@.len() ==> {
                    &&& (#[trigger] r.changes@[k]) is Spawn
                    &&& r.changes@[k]->Spawn_0 is Some
                    &&& self.vis(world@, r.changes@[k]->Spawn_0->0)
                    &&& (r.changes@[k]->Spawn_1).wf()
                    &&& (r.changes@[k]->Spawn_1).map_view() == self.vis_vals(
                        world@,
                        r.changes@[k]->Spawn_0->0,
                    )
                },
            forall|k1: int, k2: int|
                0 <= k1 < k2 < r.changes@.len() ==> r.changes@[k1]->Spawn_0
                    != r.changes@[k2]->Spawn_0,
            forall|id: EntityId|
                #[trigger] self.vis(world@, id) ==> exists|k: int|
                    0 <= k < r.changes@.len() && (#[trigger] r.changes@[k]) is Spawn
                        && r.changes@[k]->Spawn_0 == Some(id),
            forall|k1: int, k2: int|
                #![trigger r.changes@[k1], r.changes@[k2]]
                0 <= k1 < k2 < r.changes@.len() ==> id_pair_in_world_order(
                    *world,
                    r.changes@[k1]->Spawn_0->0,
                    r.changes@[k2]->Spawn_0->0,
                ),
    {
        let ghost m = world@;
        let ids = self.all_entities(world);
        let ghost idseq = ids@;
        let mut changes: Vec<crate::diff::WorldChange> = Vec::new();
        let mut i: usize = 0;
        while i < ids.len()
            invariant
                i <= idseq.len(),
                changes@.len() == i,
                forall|k: int|
                    0 <= k < i ==> {
                        &&& (#[trigger] changes@[k]) is Spawn
                        &&& changes@[k]->Spawn_0 == Some(idseq[k])
                        &&& self.vis(m, idseq[k])
                        &&& (changes@[k]->Spawn_1).wf()
                        &&& (changes@[k]->Spawn_1).map_view() == self.vis_vals(m, idseq[k])
                    },
            decreases idseq.len() - i,
        {
            let id = ids[i];
            proof {
                assert(idseq.contains(id));
            }
            let units = self.read_entity_components(world, id);
            let data = EntityData { units };
            changes.push(crate::diff::WorldChange::Spawn(Some(id), data));
            i += 1;
        }
        proof {
            assert forall|id: EntityId| #[trigger] self.vis(m, id) implies exists|k: int|
                0 <= k < changes@.len() && (#[trigger] changes@[k]) is Spawn
                    && changes@[k]->Spawn_0 == Some(id) by {
                assert(idseq.contains(id));
                let j = choose|j: int| 0 <= j < idseq.len() && idseq[j] == id;
                assert(changes@[j] is Spawn && changes@[j]->Spawn_0 == Some(id));
            }
            assert forall|k1: int, k2: int|
                #![trigger changes@[k1], changes@[k2]]
                0 <= k1 < k2 < changes@.len() implies id_pair_in_world_order(
                *world,
                changes@[k1]->Spawn_0->0,
                changes@[k2]->Spawn_0->0,
            ) by {
                assert(id_pair_in_world_order(*world, idseq[k1], idseq[k2]));
                assert(changes@[k1]->Spawn_0->0 == idseq[k1]);
                assert(changes@[k2]->Spawn_0->0 == idseq[k2]);
            }
        }
        crate::diff::WorldDiff { changes }
    }
}

} // verus!
