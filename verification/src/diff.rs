//! World diffs: atomic world mutations (`WorldChange`) and ordered sequences
//! of them (`WorldDiff`), with builders, application, revert computation and
//! the two-world difference algorithm.

use vstd::prelude::*;

use crate::component::{Component, ComponentUnit, EntityData, Value};
use crate::filter::{comps_contain, ids_contain, WorldStreamCompEvent, WorldStreamFilter};
use crate::ids::EntityId;
use crate::model::{SlotM, WorldModel};
use crate::world::World;

verus! {

/// One atomic world mutation.
///
/// A `Spawn` with no explicit id means "assign a fresh id on apply"; with an
/// explicit id it recreates that exact id (used for mirrored entities).
#[derive(Clone, Debug, PartialEq)]
pub enum WorldChange {
    Spawn(Option<EntityId>, EntityData),
    Despawn(EntityId),
    AddComponents(EntityId, EntityData),
    RemoveComponents(EntityId, Vec<Component>),
    SetValue(EntityId, ComponentUnit),
}

/// The model-level meaning of one change: data reduced to the mapping it
/// denotes and component lists reduced to their key sets.
pub enum ChangeM {
    Spawn(Option<EntityId>, Map<Component, Value>),
    Despawn(EntityId),
    Add(EntityId, Map<Component, Value>),
    Remove(EntityId, Set<Component>),
    SetValue(EntityId, Component, Value),
}

impl WorldChange {
    /// Entity data and component lists in a change are well-formed.
    pub open spec fn wf(self) -> bool {
        match self {
            WorldChange::Spawn(_, data) => data.wf(),
            WorldChange::Despawn(_) => true,
            WorldChange::AddComponents(_, data) => data.wf(),
            WorldChange::RemoveComponents(_, comps) => true,
            WorldChange::SetValue(_, _) => true,
        }
    }

    /// The model-level meaning of this change.
    pub open spec fn model(self) -> ChangeM {
        match self {
            WorldChange::Spawn(id, data) => ChangeM::Spawn(id, data.map_view()),
            WorldChange::Despawn(id) => ChangeM::Despawn(id),
            WorldChange::AddComponents(id, data) => ChangeM::Add(id, data.map_view()),
            WorldChange::RemoveComponents(id, comps) => ChangeM::Remove(id, comps@.to_set()),
            WorldChange::SetValue(id, unit) => ChangeM::SetValue(id, unit.component, unit.value),
        }
    }

    pub fn is_set(&self) -> (r: bool)
        ensures
            r == (self is SetValue),
    {
        match self {
            WorldChange::SetValue(_, _) => true,
            _ => false,
        }
    }

    pub fn is_remove_components(&self) -> (r: bool)
        ensures
            r == (self is RemoveComponents),
    {
        match self {
            WorldChange::RemoveComponents(_, _) => true,
            _ => false,
        }
    }
}

/// The meaning of a sequence of changes.
pub open spec fn changes_model(cs: Seq<WorldChange>) -> Seq<ChangeM> {
    cs.map_values(|c: WorldChange| c.model())
}

/// The meaning of an optional change.
pub open spec fn opt_model(r: Option<WorldChange>) -> Option<ChangeM> {
    match r {
        Some(c) => Some(c.model()),
        None => None,
    }
}

/// The replicable ("extended") values of a slot map: what a despawn revert
/// captures.
pub open spec fn extended_values(inner: Map<Component, SlotM>) -> Map<Component, Value> {
    Map::new(
        |c: Component| inner.dom().contains(c) && c.extended,
        |c: Component| inner[c].value,
    )
}

/// The values an entity currently holds under the given components: what a
/// removal revert captures.
pub open spec fn restrict_values(m: WorldModel, id: EntityId, cs: Set<Component>) -> Map<
    Component,
    Value,
> {
    Map::new(
        |c: Component| m.ents.dom().contains(id) && m.ents[id].dom().contains(c) && cs.contains(c),
        |c: Component| m.ents[id][c].value,
    )
}

/// The machine-limit preconditions of applying one change: version headroom
/// and spawnable ids.
pub open spec fn change_applicable(m: WorldModel, c: ChangeM) -> bool {
    &&& m.ver < u64::MAX
    &&& match c {
        ChangeM::Spawn(opt, _) => match opt {
            Some(id) => crate::model::usable_id(id),
            None => m.next < u64::MAX,
        },
        _ => true,
    }
}

/// The soft-failure conditions: a mirrored spawn colliding with an existing
/// id, a component addition whose target entity is gone, or a value write
/// whose entity or slot is gone.
pub open spec fn change_soft_fails(m: WorldModel, c: ChangeM) -> bool {
    match c {
        ChangeM::Spawn(opt, _) => opt is Some && m.ents.dom().contains(opt->0),
        ChangeM::Add(id, _) => !m.ents.dom().contains(id),
        ChangeM::SetValue(id, comp, _) => !(m.ents.dom().contains(id) && m.ents[id].dom().contains(
            comp,
        )),
        _ => false,
    }
}

/// Applying one change to the model. Soft failures leave the model unchanged.
pub open spec fn apply_change_model(m: WorldModel, c: ChangeM, extra: Map<Component, Value>) -> WorldModel {
    match c {
        ChangeM::Spawn(opt, data) => match opt {
            Some(id) => if m.ents.dom().contains(id) {
                m
            } else {
                WorldModel {
                    ents: m.ents.insert(
                        id,
                        crate::model::slots_of_data(data.union_prefer_right(extra), m.ver + 1),
                    ),
                    ver: m.ver + 1,
                    next: crate::model::spawn_next(m, id),
                }
            },
            None => WorldModel {
                ents: m.ents.insert(
                    crate::model::fresh_id(m),
                    crate::model::slots_of_data(data.union_prefer_right(extra), m.ver + 1),
                ),
                ver: m.ver + 1,
                next: (m.next + 1) as u64,
            },
        },
        ChangeM::Despawn(id) => if m.ents.dom().contains(id) {
            WorldModel { ents: m.ents.remove(id), ver: m.ver, next: m.next }
        } else {
            m
        },
        ChangeM::Add(id, data) => if m.ents.dom().contains(id) {
            WorldModel {
                ents: m.ents.insert(
                    id,
                    m.ents[id].union_prefer_right(crate::model::slots_of_data(data, m.ver + 1)),
                ),
                ver: m.ver + 1,
                next: m.next,
            }
        } else {
            m
        },
        ChangeM::Remove(id, cs) => if m.ents.dom().contains(id) {
            WorldModel { ents: m.ents.insert(id, m.ents[id].remove_keys(cs)), ver: m.ver, next: m.next }
        } else {
            m
        },
        ChangeM::SetValue(id, comp, value) => if m.ents.dom().contains(id)
            && m.ents[id].dom().contains(comp) {
            WorldModel {
                ents: m.ents.insert(
                    id,
                    m.ents[id].insert(comp, SlotM { value, cver: m.ver + 1 }),
                ),
                ver: m.ver + 1,
                next: m.next,
            }
        } else {
            m
        },
    }
}

/// The inverse captured for one change, before or during its application.
pub open spec fn revert_change_model(m: WorldModel, c: ChangeM) -> Option<ChangeM> {
    match c {
        ChangeM::Spawn(opt, _) => match opt {
            Some(id) => Some(ChangeM::Despawn(id)),
            None => Some(ChangeM::Despawn(crate::model::fresh_id(m))),
        },
        ChangeM::Despawn(id) => if m.ents.dom().contains(id) {
            Some(ChangeM::Spawn(Some(id), extended_values(m.ents[id])))
        } else {
            None
        },
        ChangeM::Add(id, data) => Some(ChangeM::Remove(id, data.dom())),
        ChangeM::Remove(id, cs) => Some(ChangeM::Add(id, restrict_values(m, id, cs))),
        ChangeM::SetValue(id, comp, _) => if m.ents.dom().contains(id)
            && m.ents[id].dom().contains(comp) {
            Some(ChangeM::SetValue(id, comp, m.ents[id][comp].value))
        } else {
            None
        },
    }
}

/// Applying a sequence of changes in order.
pub open spec fn apply_seq_model(m: WorldModel, cs: Seq<ChangeM>, extra: Map<Component, Value>) -> WorldModel
    decreases cs.len(),
{
    if cs.len() == 0 {
        m
    } else {
        apply_seq_model(apply_change_model(m, cs[0], extra), cs.drop_first(), extra)
    }
}

/// Every change in the sequence is applicable when its turn comes.
pub open spec fn seq_applicable(m: WorldModel, cs: Seq<ChangeM>, extra: Map<Component, Value>) -> bool
    decreases cs.len(),
{
    if cs.len() == 0 {
        true
    } else {
        change_applicable(m, cs[0]) && seq_applicable(
            apply_change_model(m, cs[0], extra),
            cs.drop_first(),
            extra,
        )
    }
}

/// The per-change inverses in application order.
pub open spec fn collect_reverts(m: WorldModel, cs: Seq<ChangeM>, extra: Map<Component, Value>) -> Seq<ChangeM>
    decreases cs.len(),
{
    if cs.len() == 0 {
        Seq::empty()
    } else {
        let head = match revert_change_model(m, cs[0]) {
            Some(rc) => seq![rc],
            None => Seq::empty(),
        };
        head + collect_reverts(apply_change_model(m, cs[0], extra), cs.drop_first(), extra)
    }
}

/// The revert diff of a sequence: the per-change inverses in reverse order,
/// so that replaying it exactly undoes the original diff.
pub open spec fn revert_seq_model(m: WorldModel, cs: Seq<ChangeM>, extra: Map<Component, Value>) -> Seq<ChangeM> {
    collect_reverts(m, cs, extra).reverse()
}

impl WorldChange {
    /// Apply this change to the world.
    ///
    /// A mirrored spawn of an existing id, a component addition or removal on
    /// a missing entity, and a value write to a missing entity or slot are
    /// soft failures: the world is left unchanged (the caller may demand the
    /// spawn, addition and write failures not occur by passing
    /// `panic_on_error`). When a revert is requested, the inverse change is
    /// captured before or during application.
    pub fn apply(
        self,
        world: &mut World,
        spawned_extra_data: &EntityData,
        panic_on_error: bool,
        create_revert: bool,
    ) -> (r: Option<WorldChange>)
        requires
            old(world).inv(),
            self.wf(),
            spawned_extra_data.wf(),
            change_applicable(old(world)@, self.model()),
            panic_on_error ==> !change_soft_fails(old(world)@, self.model()),
        ensures
            final(world).inv(),
            final(world)@ == apply_change_model(
                old(world)@,
                self.model(),
                spawned_extra_data.map_view(),
            ),
            create_revert ==> opt_model(r) == revert_change_model(old(world)@, self.model()),
            !create_revert ==> r is None,
            r is Some ==> r->0.wf(),
    {
        let ghost m = old(world)@;
        match self {
            WorldChange::Spawn(opt, data) => {
                let merged = data.append(spawned_extra_data);
                match opt {
                    Some(id) => {
                        let ok = world.spawn_mirrored(id, merged);
                        if create_revert {
                            Some(WorldChange::Despawn(id))
                        } else {
                            None
                        }
                    },
                    None => {
                        let id = world.spawn(merged);
                        if create_revert {
                            Some(WorldChange::Despawn(id))
                        } else {
                            None
                        }
                    },
                }
            },
            WorldChange::Despawn(id) => {
                let res: Option<WorldChange> = if create_revert {
                    match world.get_components(id) {
                        Some(comps) => {
                            let mut ed = EntityData::new();
                            let mut k: usize = 0;
                            while k < comps.len()
                                invariant
                                    k <= comps@.len(),
                                    ed.wf(),
                                    forall|c: Component|
                                        ed.contains_comp(c) <==> (exists|j: int|
                                            0 <= j < k && comps@[j] == c && c.extended),
                                    forall|c: Component|
                                        ed.contains_comp(c) ==> ed.map_view()[c]
                                            == m.ents[id][c].value,
                                decreases comps@.len() - k,
                            {
                                let ghost edpre = ed;
                                let c = comps[k];
                                if c.extended {
                                    proof {
                                        assert(comps@.contains(c));
                                    }
                                    let u = world.get_unit(id, c).unwrap();
                                    ed.set_unit(u);
                                    proof {
                                        assert forall|c2: Component|
                                            ed.contains_comp(c2) implies (exists|j: int|
                                            0 <= j < k + 1 && comps@[j] == c2 && c2.extended) by {
                                            assert(ed.map_view().dom().contains(c2));
                                            if c2 != c {
                                                assert(edpre.map_view().dom().contains(c2));
                                                assert(edpre.contains_comp(c2));
                                            } else {
                                                assert(comps@[k as int] == c2 && c2.extended);
                                            }
                                        }
                                        assert forall|c2: Component|
                                            (exists|j: int|
                                                0 <= j < k + 1 && comps@[j] == c2
                                                    && c2.extended) implies ed.contains_comp(
                                            c2,
                                        ) by {
                                            if c2 != c {
                                                assert(edpre.contains_comp(c2));
                                                assert(edpre.map_view().dom().contains(c2));
                                                assert(ed.map_view().dom().contains(c2));
                                            } else {
                                                assert(ed.map_view().dom().contains(c2));
                                            }
                                        }
                                        assert forall|c2: Component|
                                            ed.contains_comp(c2) implies ed.map_view()[c2]
                                            == m.ents[id][c2].value by {
                                            if c2 != c {
                                                assert(ed.map_view().dom().contains(c2));
                                                assert(edpre.map_view().dom().contains(c2));
                                                assert(edpre.contains_comp(c2));
                                                assert(ed.map_view()[c2] == edpre.map_view()[c2]);
                                            } else {
                                                assert(ed.map_view()[c2] == u.value);
                                            }
                                        }
                                    }
                                } else {
                                    proof {
                                        assert forall|c2: Component|
                                            (exists|j: int|
                                                0 <= j < k + 1 && comps@[j] == c2
                                                    && c2.extended) implies ed.contains_comp(
                                            c2,
                                        ) by {
                                            let j = choose|j: int|
                                                0 <= j < k + 1 && comps@[j] == c2 && c2.extended;
                                            if j == k {
                                                assert(!comps@[k as int].extended);
                                            }
                                        }
                                    }
                                }
                                k += 1;
                            }
                            proof {
                                assert forall|c: Component|
                                    #[trigger] extended_values(m.ents[id]).dom().contains(
                                        c,
                                    ) implies ed.map_view().dom().contains(c) by {
                                    assert(m.ents[id].dom().contains(c));
                                    assert(comps@.contains(c));
                                    let j = choose|j: int|
                                        0 <= j < comps@.len() && comps@[j] == c;
                                    assert(ed.contains_comp(c));
                                }
                                assert forall|c: Component|
                                    #[trigger] ed.map_view().dom().contains(c) implies
                                    extended_values(m.ents[id]).dom().contains(c)
                                        && ed.map_view()[c] == extended_values(m.ents[id])[c] by {
                                    assert(ed.contains_comp(c));
                                    assert(exists|j: int|
                                        0 <= j < comps@.len() && comps@[j] == c && c.extended);
                                    let j = choose|j: int|
                                        0 <= j < comps@.len() && comps@[j] == c && c.extended;
                                    assert(comps@.contains(c));
                                    assert(m.ents[id].dom().contains(c));
                                    assert(ed.map_view()[c] == m.ents[id][c].value);
                                }
                                assert(ed.map_view() =~= extended_values(m.ents[id]));
                            }
                            Some(WorldChange::Spawn(Some(id), ed))
                        },
                        None => None,
                    }
                } else {
                    None
                };
                let _ = world.despawn(id);
                res
            },
            WorldChange::AddComponents(id, data) => {
                let res: Option<WorldChange> = if create_revert {
                    let comps = data.components();
                    proof {
                        assert(comps@.to_set() =~= data.map_view().dom());
                    }
                    Some(WorldChange::RemoveComponents(id, comps))
                } else {
                    None
                };
                if world.has_entity(id) {
                    world.add_components(id, data);
                }
                res
            },
            WorldChange::RemoveComponents(id, comps) => {
                let ghost cset = comps@.to_set();
                let res: Option<WorldChange> = if create_revert {
                    let mut ed = EntityData::new();
                    let mut k: usize = 0;
                    while k < comps.len()
                        invariant
                            k <= comps@.len(),
                            ed.wf(),
                            forall|c: Component|
                                ed.contains_comp(c) <==> (exists|j: int|
                                    0 <= j < k && comps@[j] == c && m.ents.dom().contains(id)
                                        && m.ents[id].dom().contains(c)),
                            forall|c: Component|
                                ed.contains_comp(c) ==> ed.map_view()[c] == m.ents[id][c].value,
                        decreases comps@.len() - k,
                    {
                        let ghost edpre = ed;
                        let c = comps[k];
                        match world.get_unit(id, c) {
                            Some(u) => {
                                ed.set_unit(u);
                                proof {
                                    assert forall|c2: Component|
                                        ed.contains_comp(c2) implies (exists|j: int|
                                        0 <= j < k + 1 && comps@[j] == c2 && m.ents.dom().contains(
                                            id,
                                        ) && m.ents[id].dom().contains(c2)) by {
                                        assert(ed.map_view().dom().contains(c2));
                                        if c2 != c {
                                            assert(edpre.map_view().dom().contains(c2));
                                            assert(edpre.contains_comp(c2));
                                        } else {
                                            assert(comps@[k as int] == c2);
                                        }
                                    }
                                    assert forall|c2: Component|
                                        (exists|j: int|
                                            0 <= j < k + 1 && comps@[j] == c2
                                                && m.ents.dom().contains(id)
                                                && m.ents[id].dom().contains(
                                                c2,
                                            )) implies ed.contains_comp(c2) by {
                                        if c2 != c {
                                            assert(edpre.contains_comp(c2));
                                            assert(edpre.map_view().dom().contains(c2));
                                            assert(ed.map_view().dom().contains(c2));
                                        } else {
                                            assert(ed.map_view().dom().contains(c2));
                                        }
                                    }
                                    assert forall|c2: Component|
                                        ed.contains_comp(c2) implies ed.map_view()[c2]
                                        == m.ents[id][c2].value by {
                                        if c2 != c {
                                            assert(ed.map_view().dom().contains(c2));
                                            assert(edpre.map_view().dom().contains(c2));
                                            assert(edpre.contains_comp(c2));
                                            assert(ed.map_view()[c2] == edpre.map_view()[c2]);
                                        } else {
                                            assert(ed.map_view()[c2] == u.value);
                                        }
                                    }
                                }
                            },
                            None => {
                                proof {
                                    assert forall|c2: Component|
                                        (exists|j: int|
                                            0 <= j < k + 1 && comps@[j] == c2
                                                && m.ents.dom().contains(id)
                                                && m.ents[id].dom().contains(
                                                c2,
                                            )) implies ed.contains_comp(c2) by {
                                        let j = choose|j: int|
                                            0 <= j < k + 1 && comps@[j] == c2
                                                && m.ents.dom().contains(id)
                                                && m.ents[id].dom().contains(c2);
                                        if j == k {
                                            assert(!(m.ents.dom().contains(id)
                                                && m.ents[id].dom().contains(comps@[k as int])));
                                        }
                                    }
                                }
                            },
                        }
                        k += 1;
                    }
                    proof {
                        assert forall|c: Component|
                            #[trigger] restrict_values(m, id, cset).dom().contains(c) implies
                            ed.map_view().dom().contains(c) by {
                            assert(cset.contains(c));
                            assert(comps@.contains(c));
                            let j = choose|j: int| 0 <= j < comps@.len() && comps@[j] == c;
                            assert(ed.contains_comp(c));
                        }
                        assert forall|c: Component|
                            #[trigger] ed.map_view().dom().contains(c) implies restrict_values(
                            m,
                            id,
                            cset,
                        ).dom().contains(c) && ed.map_view()[c] == restrict_values(m, id, cset)[c] by {
                            assert(ed.contains_comp(c));
                            assert(exists|j: int|
                                0 <= j < comps@.len() && comps@[j] == c && m.ents.dom().contains(id)
                                    && m.ents[id].dom().contains(c));
                            let j = choose|j: int|
                                0 <= j < comps@.len() && comps@[j] == c && m.ents.dom().contains(id)
                                    && m.ents[id].dom().contains(c);
                            assert(comps@.contains(c));
                            assert(cset.contains(c));
                            assert(ed.map_view()[c] == m.ents[id][c].value);
                        }
                        assert(ed.map_view() =~= restrict_values(m, id, cset));
                    }
                    Some(WorldChange::AddComponents(id, ed))
                } else {
                    None
                };
                proof {
                    assert(comps@.take(0).to_set() =~= Set::<Component>::empty());
                    if m.ents.dom().contains(id) {
                        assert(m.ents[id].remove_keys(comps@.take(0).to_set()) =~= m.ents[id]);
                        assert(m.ents.insert(
                            id,
                            m.ents[id].remove_keys(comps@.take(0).to_set()),
                        ) =~= m.ents);
                        assert(world@ =~= apply_change_model(
                            m,
                            ChangeM::Remove(id, comps@.take(0).to_set()),
                            spawned_extra_data.map_view(),
                        ));
                    }
                }
                let mut k: usize = 0;
                while k < comps.len()
                    invariant
                        k <= comps@.len(),
                        world.inv(),
                        world@ == apply_change_model(
                            m,
                            ChangeM::Remove(id, comps@.take(k as int).to_set()),
                            spawned_extra_data.map_view(),
                        ),
                    decreases comps@.len() - k,
                {
                    let ghost mpre = world@;
                    let c = comps[k];
                    let _ = world.remove_component(id, c);
                    proof {
                        assert(comps@.take(k + 1).to_set() =~= comps@.take(k as int).to_set().insert(
                            comps@[k as int],
                        )) by {
                            assert forall|x: Component|
                                comps@.take(k + 1).to_set().contains(x) implies comps@.take(
                                k as int,
                            ).to_set().insert(comps@[k as int]).contains(x) by {
                                let j = choose|j: int| 0 <= j < k + 1 && #[trigger] comps@.take(k + 1)[j] == x;
                                if j < k {
                                    assert(comps@.take(k as int)[j] == x);
                                    assert(comps@.take(k as int).to_set().contains(x));
                                }
                            }
                            assert forall|x: Component|
                                comps@.take(k as int).to_set().insert(
                                    comps@[k as int],
                                ).contains(x) implies comps@.take(k + 1).to_set().contains(x) by {
                                if x == comps@[k as int] {
                                    assert(comps@.take(k + 1)[k as int] == x);
                                } else {
                                    let j = choose|j: int|
                                        0 <= j < k && comps@.take(k as int)[j] == x;
                                    assert(comps@.take(k + 1)[j] == x);
                                }
                            }
                        }
                        if m.ents.dom().contains(id) {
                            assert(world@.ents =~= m.ents.insert(
                                id,
                                m.ents[id].remove_keys(comps@.take(k + 1).to_set()),
                            )) by {
                                assert(mpre.ents[id] =~= m.ents[id].remove_keys(
                                    comps@.take(k as int).to_set(),
                                ));
                                if mpre.ents[id].dom().contains(c) {
                                    assert(world@.ents[id] =~= m.ents[id].remove_keys(
                                        comps@.take(k + 1).to_set(),
                                    ));
                                } else {
                                    assert(world@.ents[id] =~= m.ents[id].remove_keys(
                                        comps@.take(k + 1).to_set(),
                                    ));
                                }
                            }
                        }
                        assert(world@ == apply_change_model(
                            m,
                            ChangeM::Remove(id, comps@.take(k + 1).to_set()),
                            spawned_extra_data.map_view(),
                        ));
                    }
                    k += 1;
                }
                proof {
                    assert(comps@.take(comps@.len() as int) =~= comps@);
                }
                res
            },
            WorldChange::SetValue(id, unit) => {
                match world.set_unit_at(id, unit) {
                    Some(prev) => if create_revert {
                        Some(WorldChange::SetValue(id, ComponentUnit::new(unit.component, prev)))
                    } else {
                        None
                    },
                    None => None,
                }
            },
        }
    }

    /// Re-apply the peer's predicates to an already-built change: drop it when
    /// the entity fails the archetype test, prune invisible components
    /// otherwise (a value write whose one component is pruned is dropped
    /// whole). Despawns are deliberately not filtered: a despawn for an
    /// entity the peer never saw is harmless and avoids an archetype lookup
    /// after the entity's data is gone.
    pub fn filter(&self, world: &World, filter: &WorldStreamFilter) -> (r: Option<WorldChange>)
        requires
            world.inv(),
            self.wf(),
            self is Spawn ==> self->Spawn_0 is Some,
        ensures
            filter_result_ok(*self, world@, *filter, r),
            r is Some ==> r->0.wf(),
    {
        match self {
            WorldChange::Spawn(opt, data) => {
                let id = *opt.as_ref().unwrap();
                if !filter.arch_filter.matches_entity(world, id) {
                    return None;
                }
                let filtered = filter.filter_data(data, WorldStreamCompEvent::Spawn);
                Some(WorldChange::Spawn(Some(id), filtered))
            },
            WorldChange::Despawn(id) => Some(WorldChange::Despawn(*id)),
            WorldChange::AddComponents(id, data) => {
                if !filter.arch_filter.matches_entity(world, *id) {
                    return None;
                }
                let filtered = filter.filter_data(data, WorldStreamCompEvent::AddComponent);
                Some(WorldChange::AddComponents(*id, filtered))
            },
            WorldChange::RemoveComponents(id, comps) => {
                if !filter.arch_filter.matches_entity(world, *id) {
                    return None;
                }
                let mut kept: Vec<Component> = Vec::new();
                let mut k: usize = 0;
                while k < comps.len()
                    invariant
                        k <= comps@.len(),
                        forall|c: Component| kept@.contains(c) <==> (exists|j: int|
                            0 <= j < k && comps@[j] == c && filter.allows(
                                c,
                                WorldStreamCompEvent::RemoveComponent,
                            )),
                    decreases comps@.len() - k,
                {
                    let ghost kpre = kept@;
                    let c = comps[k];
                    if filter.component_filter.allows(c, WorldStreamCompEvent::RemoveComponent) {
                        kept.push(c);
                        proof {
                            assert forall|c2: Component| kept@.contains(c2) implies (exists|j: int|
                                0 <= j < k + 1 && comps@[j] == c2 && filter.allows(
                                    c2,
                                    WorldStreamCompEvent::RemoveComponent,
                                )) by {
                                let p = choose|p: int| 0 <= p < kept@.len() && kept@[p] == c2;
                                if p < kpre.len() {
                                    assert(kpre.contains(c2));
                                } else {
                                    assert(comps@[k as int] == c2);
                                }
                            }
                            assert forall|c2: Component|
                                (exists|j: int|
                                    0 <= j < k + 1 && comps@[j] == c2 && filter.allows(
                                        c2,
                                        WorldStreamCompEvent::RemoveComponent,
                                    )) implies kept@.contains(c2) by {
                                if c2 == c {
                                    assert(kept@[kept@.len() - 1] == c2);
                                } else {
                                    let j = choose|j: int|
                                        0 <= j < k && comps@[j] == c2 && filter.allows(
                                            c2,
                                            WorldStreamCompEvent::RemoveComponent,
                                        );
                                    assert(kpre.contains(c2));
                                    let p = choose|p: int| 0 <= p < kpre.len() && kpre[p] == c2;
                                    assert(kept@[p] == c2);
                                }
                            }
                        }
                    } else {
                        proof {
                            assert forall|c2: Component|
                                (exists|j: int|
                                    0 <= j < k + 1 && comps@[j] == c2 && filter.allows(
                                        c2,
                                        WorldStreamCompEvent::RemoveComponent,
                                    )) implies kept@.contains(c2) by {
                                let j = choose|j: int|
                                    0 <= j < k + 1 && comps@[j] == c2 && filter.allows(
                                        c2,
                                        WorldStreamCompEvent::RemoveComponent,
                                    );
                                if j == k {
                                    assert(!filter.allows(
                                        comps@[k as int],
                                        WorldStreamCompEvent::RemoveComponent,
                                    ));
                                }
                            }
                        }
                    }
                    k += 1;
                }
                proof {
                    assert forall|c: Component| kept@.contains(c) implies (comps@.contains(c)
                        && filter.allows(c, WorldStreamCompEvent::RemoveComponent)) by {
                        let j = choose|j: int|
                            0 <= j < comps@.len() && comps@[j] == c && filter.allows(
                                c,
                                WorldStreamCompEvent::RemoveComponent,
                            );
                    }
                    assert forall|c: Component|
                        comps@.contains(c) && filter.allows(
                            c,
                            WorldStreamCompEvent::RemoveComponent,
                        ) implies kept@.contains(c) by {
                        let j = choose|j: int| 0 <= j < comps@.len() && comps@[j] == c;
                    }
                }
                Some(WorldChange::RemoveComponents(*id, kept))
            },
            WorldChange::SetValue(id, unit) => {
                if !filter.arch_filter.matches_entity(world, *id) {
                    return None;
                }
                if !filter.component_filter.allows(unit.component, WorldStreamCompEvent::SetValue)
                {
                    return None;
                }
                Some(WorldChange::SetValue(*id, *unit))
            },
        }
    }
}

/// What `WorldChange::filter` returns: dropped changes, kept changes and the
/// pruning applied to their data, per change kind.
pub open spec fn filter_result_ok(
    c: WorldChange,
    m: WorldModel,
    f: WorldStreamFilter,
    r: Option<WorldChange>,
) -> bool {
    match c {
        WorldChange::Spawn(opt, data) => {
            let id = opt->0;
            if f.vis(m, id) {
                &&& r is Some
                &&& r->0 is Spawn
                &&& r->0->Spawn_0 == Some(id)
                &&& (r->0->Spawn_1).map_view() == data.map_view().restrict(
                    Set::new(|c2: Component| f.allows(c2, WorldStreamCompEvent::Spawn)),
                )
            } else {
                r is None
            }
        },
        WorldChange::Despawn(id) => r == Some(WorldChange::Despawn(id)),
        WorldChange::AddComponents(id, data) => if f.vis(m, id) {
            &&& r is Some
            &&& r->0 is AddComponents
            &&& r->0->AddComponents_0 == id
            &&& (r->0->AddComponents_1).map_view() == data.map_view().restrict(
                Set::new(|c2: Component| f.allows(c2, WorldStreamCompEvent::AddComponent)),
            )
        } else {
            r is None
        },
        WorldChange::RemoveComponents(id, comps) => if f.vis(m, id) {
            &&& r is Some
            &&& r->0 is RemoveComponents
            &&& r->0->RemoveComponents_0 == id
            &&& forall|c2: Component|
                (r->0->RemoveComponents_1)@.contains(c2) <==> (comps@.contains(c2) && f.allows(
                    c2,
                    WorldStreamCompEvent::RemoveComponent,
                ))
        } else {
            r is None
        },
        WorldChange::SetValue(id, unit) => if f.vis(m, id) && f.allows(
            unit.component,
            WorldStreamCompEvent::SetValue,
        ) {
            r == Some(WorldChange::SetValue(id, unit))
        } else {
            r is None
        },
    }
}

/// An ordered sequence of world changes. Within one diff, despawns are
/// conventionally ordered before spawns to avoid id collisions when ids are
/// reused across a boundary.
#[derive(Debug, PartialEq)]
pub struct WorldDiff {
    pub changes: Vec<WorldChange>,
}

impl WorldDiff {
    /// Every change in the diff is well-formed.
    pub open spec fn wf(self) -> bool {
        forall|i: int| 0 <= i < self.changes@.len() ==> (#[trigger] self.changes@[i]).wf()
    }

    /// The model-level meaning of this diff.
    pub open spec fn model(self) -> Seq<ChangeM> {
        changes_model(self.changes@)
    }

    pub fn new() -> (r: Self)
        ensures
            r.changes@.len() == 0,
            r.wf(),
    {
        WorldDiff { changes: Vec::new() }
    }

    /// Append a value write to the diff being constructed.
    pub fn set(self, id: EntityId, component: Component, value: Value) -> (r: Self)
        ensures
            r.changes@ == self.changes@.push(
                WorldChange::SetValue(id, ComponentUnit { component, value }),
            ),
    {
        self.set_unit(id, ComponentUnit::new(component, value))
    }

    /// Append a single-component addition to the diff being constructed.
    pub fn add_component(self, id: EntityId, component: Component, value: Value) -> (r: Self)
        ensures
            r.changes@.len() == self.changes@.len() + 1,
            forall|i: int|
                0 <= i < self.changes@.len() ==> r.changes@[i] == #[trigger] self.changes@[i],
            r.changes@.last() is AddComponents,
            r.changes@.last()->AddComponents_0 == id,
            (r.changes@.last()->AddComponents_1).wf(),
            (r.changes@.last()->AddComponents_1).map_view() == Map::<Component, Value>::empty().insert(component, value),
    {
        self.add_unit(id, ComponentUnit::new(component, value))
    }

    /// Append a single-component removal to the diff being constructed.
    pub fn remove_component(self, id: EntityId, component: Component) -> (r: Self)
        ensures
            r.changes@.len() == self.changes@.len() + 1,
            forall|i: int|
                0 <= i < self.changes@.len() ==> r.changes@[i] == #[trigger] self.changes@[i],
            r.changes@.last() is RemoveComponents,
            r.changes@.last()->RemoveComponents_0 == id,
            (r.changes@.last()->RemoveComponents_1)@ == seq![component],
    {
        let mut this = self;
        let mut comps: Vec<Component> = Vec::new();
        comps.push(component);
        proof {
            assert(comps@ =~= seq![component]);
        }
        this.changes.push(WorldChange::RemoveComponents(id, comps));
        this
    }

    /// Append a removal of several components to the diff being constructed.
    pub fn remove_components_raw(self, id: EntityId, components: Vec<Component>) -> (r: Self)
        ensures
            r.changes@ == self.changes@.push(WorldChange::RemoveComponents(id, components)),
    {
        let mut this = self;
        this.changes.push(WorldChange::RemoveComponents(id, components));
        this
    }

    /// Append a value write, as a unit, to the diff being constructed.
    pub fn set_unit(self, id: EntityId, unit: ComponentUnit) -> (r: Self)
        ensures
            r.changes@ == self.changes@.push(WorldChange::SetValue(id, unit)),
    {
        let mut this = self;
        this.changes.push(WorldChange::SetValue(id, unit));
        this
    }

    /// Append a component addition, as a unit, to the diff being constructed.
    pub fn add_unit(self, id: EntityId, unit: ComponentUnit) -> (r: Self)
        ensures
            r.changes@.len() == self.changes@.len() + 1,
            forall|i: int|
                0 <= i < self.changes@.len() ==> r.changes@[i] == #[trigger] self.changes@[i],
            r.changes@.last() is AddComponents,
            r.changes@.last()->AddComponents_0 == id,
            (r.changes@.last()->AddComponents_1).wf(),
            (r.changes@.last()->AddComponents_1).map_view() == Map::<Component, Value>::empty().insert(unit.component, unit.value),
    {
        let mut this = self;
        let mut data = EntityData::new();
        data.set_unit(unit);
        this.changes.push(WorldChange::AddComponents(id, data));
        this
    }

    /// Append one despawn per given id to the diff being constructed.
    pub fn despawn(self, ids: Vec<EntityId>) -> (r: Self)
        ensures
            r.changes@.len() == self.changes@.len() + ids@.len(),
            forall|i: int|
                0 <= i < self.changes@.len() ==> r.changes@[i] == #[trigger] self.changes@[i],
            forall|i: int|
                0 <= i < ids@.len() ==> r.changes@[self.changes@.len() + i] == WorldChange::Despawn(
                    #[trigger] ids@[i],
                ),
    {
        let mut this = self;
        let ghost pre = this.changes@;
        let mut k: usize = 0;
        while k < ids.len()
            invariant
                k <= ids@.len(),
                this.changes@.len() == pre.len() + k,
                forall|i: int| 0 <= i < pre.len() ==> this.changes@[i] == #[trigger] pre[i],
                forall|i: int|
                    0 <= i < k ==> this.changes@[pre.len() + i] == WorldChange::Despawn(
                        #[trigger] ids@[i],
                    ),
            decreases ids@.len() - k,
        {
            this.changes.push(WorldChange::Despawn(ids[k]));
            k += 1;
        }
        this
    }

    pub fn is_empty(&self) -> (r: bool)
        ensures
            r == (self.changes@.len() == 0),
    {
        self.changes.len() == 0
    }

    /// Apply every change in order to the given world. When `create_revert`
    /// is set, the returned diff holds the per-change inverses assembled in
    /// reverse order, so that replaying it exactly undoes this diff.
    pub fn apply(
        self,
        world: &mut World,
        spawned_extra_data: EntityData,
        create_revert: bool,
    ) -> (r: Option<WorldDiff>)
        requires
            old(world).inv(),
            self.wf(),
            spawned_extra_data.wf(),
            seq_applicable(old(world)@, changes_model(self.changes@), spawned_extra_data.map_view()),
        ensures
            final(world).inv(),
            final(world)@ == apply_seq_model(
                old(world)@,
                changes_model(self.changes@),
                spawned_extra_data.map_view(),
            ),
            !create_revert ==> r is None,
            create_revert ==> r is Some && (r->0).wf() && changes_model((r->0).changes@)
                == revert_seq_model(
                old(world)@,
                changes_model(self.changes@),
                spawned_extra_data.map_view(),
            ),
    {
        let ghost m0 = old(world)@;
        let ghost models = changes_model(self.changes@);
        let ghost extra = spawned_extra_data.map_view();
        let mut collected: Vec<WorldChange> = Vec::new();
        let mut changes = self.changes;
        proof {
            assert(changes_model(collected@) + collect_reverts(world@, changes_model(changes@), extra)
                =~= collect_reverts(m0, models, extra));
        }
        while changes.len() > 0
            invariant
                world.inv(),
                forall|i: int| 0 <= i < changes@.len() ==> (#[trigger] changes@[i]).wf(),
                seq_applicable(world@, changes_model(changes@), extra),
                apply_seq_model(world@, changes_model(changes@), extra) == apply_seq_model(
                    m0,
                    models,
                    extra,
                ),
                create_revert ==> collect_reverts(m0, models, extra) == changes_model(collected@)
                    + collect_reverts(world@, changes_model(changes@), extra),
                !create_revert ==> collected@.len() == 0,
                forall|i: int| 0 <= i < collected@.len() ==> (#[trigger] collected@[i]).wf(),
            decreases changes@.len(),
        {
            let ghost mcur = world@;
            let ghost rest = changes_model(changes@);
            let change = changes.remove(0);
            proof {
                assert(rest[0] == change.model());
                assert(changes_model(changes@) =~= rest.drop_first());
            }
            let rev = change.apply(world, &spawned_extra_data, false, create_revert);
            match rev {
                Some(rc) => {
                    let ghost cpre = collected@;
                    collected.push(rc);
                    proof {
                        assert(changes_model(collected@) =~= changes_model(cpre).push(rc.model()));
                        assert(collect_reverts(mcur, rest, extra) =~= seq![rc.model()]
                            + collect_reverts(world@, rest.drop_first(), extra));
                        assert(changes_model(collected@) + collect_reverts(
                            world@,
                            changes_model(changes@),
                            extra,
                        ) =~= changes_model(cpre) + collect_reverts(mcur, rest, extra));
                    }
                },
                None => {
                    proof {
                        if create_revert {
                            assert(revert_change_model(mcur, rest[0]) is None);
                        }
                        assert(collect_reverts(mcur, rest, extra) =~= (match revert_change_model(
                            mcur,
                            rest[0],
                        ) {
                            Some(rc0) => seq![rc0],
                            None => Seq::<ChangeM>::empty(),
                        }) + collect_reverts(world@, rest.drop_first(), extra));
                        if create_revert {
                            assert(collect_reverts(mcur, rest, extra) =~= collect_reverts(
                                world@,
                                rest.drop_first(),
                                extra,
                            ));
                        }
                    }
                },
            }
        }
        if create_revert {
            proof {
                assert(changes_model(collected@) + collect_reverts(
                    world@,
                    changes_model(changes@),
                    extra,
                ) =~= changes_model(collected@));
                assert(changes_model(collected@) == collect_reverts(m0, models, extra));
            }
            let mut out: Vec<WorldChange> = Vec::new();
            let ghost coll = collected@;
            proof {
                assert(collected@ =~= coll.take(collected@.len() as int));
            }
            while collected.len() > 0
                invariant
                    collected@.len() + out@.len() == coll.len(),
                    collected@ == coll.take(collected@.len() as int),
                    forall|i: int| 0 <= i < out@.len() ==> out@[i] == coll[coll.len() - 1 - i],
                    forall|i: int| 0 <= i < coll.len() ==> (#[trigger] coll[i]).wf(),
                decreases collected@.len(),
            {
                proof {
                    assert(collected@[collected@.len() - 1] == coll[collected@.len() - 1]);
                }
                let c = collected.pop().unwrap();
                out.push(c);
                proof {
                    assert(collected@ =~= coll.take(collected@.len() as int));
                }
            }
            proof {
                assert forall|i: int| 0 <= i < out@.len() implies out@[i].wf() by {
                    assert(out@[i] == coll[coll.len() - 1 - i]);
                }
                assert forall|i: int|
                    0 <= i < changes_model(out@).len() implies #[trigger] changes_model(out@)[i]
                    == collect_reverts(m0, models, extra).reverse()[i] by {
                    assert(out@[i] == coll[coll.len() - 1 - i]);
                    assert(changes_model(coll)[coll.len() - 1 - i] == coll[coll.len() - 1
                        - i].model());
                }
                assert(changes_model(out@) =~= revert_seq_model(m0, models, extra));
            }
            Some(WorldDiff { changes: out })
        } else {
            None
        }
    }
}


impl Default for WorldDiff {
    /// An empty diff.
    fn default() -> (r: Self)
        ensures
            r.changes@.len() == 0,
            r.wf(),
    {
        WorldDiff { changes: Vec::new() }
    }
}

/// The components a two-world diff adds to an entity visible in both worlds:
/// visible in `to` but not in `from`, valued as in `to`.
pub open spec fn added_vals(
    f: WorldStreamFilter,
    mf: WorldModel,
    mt: WorldModel,
    id: EntityId,
) -> Map<Component, Value> {
    Map::new(
        |c: Component| f.vis_dom(mt, id).contains(c) && !f.vis_dom(mf, id).contains(c),
        |c: Component| mt.ents[id][c].value,
    )
}

/// The components a two-world diff removes from an entity visible in both
/// worlds: visible in `from` but no longer in `to`.
pub open spec fn removed_set(
    f: WorldStreamFilter,
    mf: WorldModel,
    mt: WorldModel,
    id: EntityId,
) -> Set<Component> {
    Set::new(
        |c: Component| f.vis_dom(mf, id).contains(c) && !f.vis_dom(mt, id).contains(c),
    )
}

/// The kind order within a two-world diff: despawns, then spawns, then
/// per-entity updates.
pub open spec fn change_rank(c: WorldChange) -> int {
    match c {
        WorldChange::Despawn(_) => 0,
        WorldChange::Spawn(_, _) => 1,
        _ => 2,
    }
}

/// The order of update kinds within one entity: additions, then removals,
/// then value writes.
pub open spec fn upd_rank(c: WorldChange) -> int {
    match c {
        WorldChange::AddComponents(_, _) => 0,
        WorldChange::RemoveComponents(_, _) => 1,
        WorldChange::SetValue(_, _) => 2,
        _ => 3,
    }
}

/// Per entity, a two-world diff emits added components first, then removed,
/// then changed.
pub open spec fn a2b_entity_ordered(cs: Seq<WorldChange>) -> bool {
    forall|k1: int, k2: int|
        0 <= k1 < k2 < cs.len() && change_rank(#[trigger] cs[k1]) == 2 && change_rank(
            #[trigger] cs[k2],
        ) == 2 && change_id(cs[k1]) == change_id(cs[k2]) ==> upd_rank(cs[k1]) <= upd_rank(cs[k2])
}

/// What one change of a two-world diff may say, given the filter and the two
/// worlds.
pub open spec fn a2b_change_ok(
    f: WorldStreamFilter,
    mf: WorldModel,
    mt: WorldModel,
    c: WorldChange,
) -> bool {
    match c {
        WorldChange::Despawn(id) => f.vis(mf, id) && !f.vis(mt, id),
        WorldChange::Spawn(opt, d) => {
            &&& opt is Some
            &&& f.vis(mt, opt->0)
            &&& !f.vis(mf, opt->0)
            &&& d.wf()
            &&& d.map_view() == f.vis_vals(mt, opt->0)
        },
        WorldChange::AddComponents(id, d) => {
            &&& f.vis(mf, id)
            &&& f.vis(mt, id)
            &&& d.wf()
            &&& d.map_view() == added_vals(f, mf, mt, id)
            &&& d.units@.len() > 0
        },
        WorldChange::RemoveComponents(id, comps) => {
            &&& f.vis(mf, id)
            &&& f.vis(mt, id)
            &&& comps@.to_set() == removed_set(f, mf, mt, id)
            &&& comps@.len() > 0
        },
        WorldChange::SetValue(id, u) => {
            &&& f.vis(mf, id)
            &&& f.vis(mt, id)
            &&& f.vis_dom(mf, id).contains(u.component)
            &&& f.vis_dom(mt, id).contains(u.component)
            &&& mf.ents[id][u.component].cver != mt.ents[id][u.component].cver
            &&& u.value == mt.ents[id][u.component].value
        },
    }
}

/// Two changes of one two-world diff never aim the same kind at the same
/// target.
pub open spec fn distinct_changes(c1: WorldChange, c2: WorldChange) -> bool {
    match (c1, c2) {
        (WorldChange::Despawn(a), WorldChange::Despawn(b)) => a != b,
        (WorldChange::Spawn(a, _), WorldChange::Spawn(b, _)) => a != b,
        (WorldChange::AddComponents(a, _), WorldChange::AddComponents(b, _)) => a != b,
        (WorldChange::RemoveComponents(a, _), WorldChange::RemoveComponents(b, _)) => a != b,
        (WorldChange::SetValue(a, u1), WorldChange::SetValue(b, u2)) => !(a == b && u1.component
            == u2.component),
        _ => true,
    }
}

/// The shape of a whole two-world diff: every change individually right, kinds
/// in order (despawns before spawns before updates), no duplicated target.
pub open spec fn a2b_changes_ok(
    f: WorldStreamFilter,
    mf: WorldModel,
    mt: WorldModel,
    cs: Seq<WorldChange>,
) -> bool {
    &&& forall|k: int| 0 <= k < cs.len() ==> a2b_change_ok(f, mf, mt, #[trigger] cs[k])
    &&& forall|k1: int, k2: int|
        0 <= k1 < k2 < cs.len() ==> change_rank(#[trigger] cs[k1]) <= change_rank(
            #[trigger] cs[k2],
        )
    &&& forall|k1: int, k2: int|
        0 <= k1 < k2 < cs.len() ==> distinct_changes(#[trigger] cs[k1], #[trigger] cs[k2])
}

/// Completeness of a two-world diff: every visible difference between the two
/// worlds is represented by some change.
pub open spec fn a2b_complete(
    f: WorldStreamFilter,
    mf: WorldModel,
    mt: WorldModel,
    cs: Seq<WorldChange>,
) -> bool {
    &&& forall|id: EntityId|
        #![trigger f.vis(mf, id), f.vis(mt, id)]
        f.vis(mf, id) && !f.vis(mt, id) ==> cs.contains(WorldChange::Despawn(id))
    &&& forall|id: EntityId|
        #![trigger f.vis(mt, id), f.vis(mf, id)]
        f.vis(mt, id) && !f.vis(mf, id) ==> exists|k: int|
            0 <= k < cs.len() && (#[trigger] cs[k]) is Spawn && cs[k]->Spawn_0 == Some(id)
    &&& forall|id: EntityId|
        #![trigger added_vals(f, mf, mt, id)]
        f.vis(mf, id) && f.vis(mt, id) && added_vals(f, mf, mt, id).dom() !~= Set::empty()
            ==> exists|k: int|
            0 <= k < cs.len() && (#[trigger] cs[k]) is AddComponents && cs[k]->AddComponents_0
                == id
    &&& forall|id: EntityId|
        #![trigger removed_set(f, mf, mt, id)]
        f.vis(mf, id) && f.vis(mt, id) && removed_set(f, mf, mt, id) !~= Set::empty()
            ==> exists|k: int|
            0 <= k < cs.len() && (#[trigger] cs[k]) is RemoveComponents
                && cs[k]->RemoveComponents_0 == id
    &&& forall|id: EntityId, c: Component|
        #![trigger f.vis_dom(mf, id).contains(c), f.vis_dom(mt, id).contains(c)]
        f.vis(mf, id) && f.vis(mt, id) && f.vis_dom(mf, id).contains(c) && f.vis_dom(
            mt,
            id,
        ).contains(c) && mf.ents[id][c].cver != mt.ents[id][c].cver ==> exists|k: int|
            0 <= k < cs.len() && (#[trigger] cs[k]) is SetValue && cs[k]->SetValue_0 == id
                && (cs[k]->SetValue_1).component == c
}


/// The entity a change aims at (for a fresh-id spawn: unspecified).
pub open spec fn change_id(c: WorldChange) -> EntityId {
    match c {
        WorldChange::Spawn(opt, _) => opt->0,
        WorldChange::Despawn(id) => id,
        WorldChange::AddComponents(id, _) => id,
        WorldChange::RemoveComponents(id, _) => id,
        WorldChange::SetValue(id, _) => id,
    }
}

/// The update changes (added, removed, changed) for one entity visible in
/// both worlds.
#[verifier::rlimit(100)]
fn entity_update_changes(
    filter: &WorldStreamFilter,
    from: &World,
    to: &World,
    id: EntityId,
) -> (upd: Vec<WorldChange>)
    requires
        from.inv(),
        to.inv(),
        filter.vis(from@, id),
        filter.vis(to@, id),
    ensures
        forall|k: int|
            0 <= k < upd@.len() ==> {
                &&& a2b_change_ok(*filter, from@, to@, #[trigger] upd@[k])
                &&& change_rank(upd@[k]) == 2
                &&& change_id(upd@[k]) == id
                &&& upd@[k].wf()
            },
        forall|k1: int, k2: int|
            0 <= k1 < k2 < upd@.len() ==> distinct_changes(
                #[trigger] upd@[k1],
                #[trigger] upd@[k2],
            ) && upd_rank(upd@[k1]) <= upd_rank(upd@[k2]),
        added_vals(*filter, from@, to@, id).dom() !~= Set::empty() ==> exists|k: int|
            0 <= k < upd@.len() && (#[trigger] upd@[k]) is AddComponents,
        removed_set(*filter, from@, to@, id) !~= Set::empty() ==> exists|k: int|
            0 <= k < upd@.len() && (#[trigger] upd@[k]) is RemoveComponents,
        forall|c: Component|
            #![trigger filter.vis_dom(from@, id).contains(c), filter.vis_dom(to@, id).contains(c)]
            filter.vis_dom(from@, id).contains(c) && filter.vis_dom(to@, id).contains(c)
                && from@.ents[id][c].cver != to@.ents[id][c].cver ==> exists|k: int|
                0 <= k < upd@.len() && (#[trigger] upd@[k]) is SetValue
                    && (upd@[k]->SetValue_1).component == c,
{
    let ghost mf = from@;
    let ghost mt = to@;
    let from_comps = filter.get_entity_components(from, id);
    let to_comps = filter.get_entity_components(to, id);
    let mut upd: Vec<WorldChange> = Vec::new();

    // Components newly visible in `to`, valued from `to`.
    let mut added = EntityData::new();
    let mut k: usize = 0;
    while k < to_comps.len()
        invariant
            k <= to_comps@.len(),
            added.wf(),
            forall|c: Component|
                added.contains_comp(c) <==> (exists|j: int|
                    0 <= j < k && to_comps@[j] == c && !from_comps@.contains(c)),
            forall|c: Component|
                added.contains_comp(c) ==> added.map_view()[c] == mt.ents[id][c].value,
        decreases to_comps@.len() - k,
    {
        let ghost apre = added;
        let c = to_comps[k];
        if !comps_contain(&from_comps, c) {
            proof {
                assert(to_comps@.contains(c));
                assert(filter.vis_dom(mt, id).contains(c));
            }
            let u = to.get_unit(id, c).unwrap();
            added.set_unit(u);
            proof {
                assert forall|c2: Component| added.contains_comp(c2) implies (exists|j: int|
                    0 <= j < k + 1 && to_comps@[j] == c2 && !from_comps@.contains(c2)) by {
                    assert(added.map_view().dom().contains(c2));
                    if c2 != c {
                        assert(apre.map_view().dom().contains(c2));
                        assert(apre.contains_comp(c2));
                    } else {
                        assert(to_comps@[k as int] == c2);
                    }
                }
                assert forall|c2: Component|
                    (exists|j: int|
                        0 <= j < k + 1 && to_comps@[j] == c2 && !from_comps@.contains(
                            c2,
                        )) implies added.contains_comp(c2) by {
                    if c2 != c {
                        assert(apre.contains_comp(c2));
                        assert(apre.map_view().dom().contains(c2));
                        assert(added.map_view().dom().contains(c2));
                    } else {
                        assert(added.map_view().dom().contains(c2));
                    }
                }
                assert forall|c2: Component| added.contains_comp(c2) implies added.map_view()[c2]
                    == mt.ents[id][c2].value by {
                    if c2 != c {
                        assert(added.map_view().dom().contains(c2));
                        assert(apre.map_view().dom().contains(c2));
                        assert(apre.contains_comp(c2));
                        assert(added.map_view()[c2] == apre.map_view()[c2]);
                    } else {
                        assert(added.map_view()[c2] == u.value);
                    }
                }
            }
        } else {
            proof {
                assert forall|c2: Component|
                    (exists|j: int|
                        0 <= j < k + 1 && to_comps@[j] == c2 && !from_comps@.contains(
                            c2,
                        )) implies added.contains_comp(c2) by {
                    let j = choose|j: int|
                        0 <= j < k + 1 && to_comps@[j] == c2 && !from_comps@.contains(c2);
                    if j == k {
                        assert(from_comps@.contains(to_comps@[k as int]));
                    }
                }
            }
        }
        k += 1;
    }
    proof {
        assert forall|c: Component|
            #[trigger] added_vals(*filter, mf, mt, id).dom().contains(c) implies
            added.map_view().dom().contains(c) by {
            assert(filter.vis_dom(mt, id).contains(c));
            assert(to_comps@.contains(c));
            let j = choose|j: int| 0 <= j < to_comps@.len() && to_comps@[j] == c;
            assert(!from_comps@.contains(c));
            assert(added.contains_comp(c));
        }
        assert forall|c: Component| #[trigger] added.map_view().dom().contains(c) implies
            added_vals(*filter, mf, mt, id).dom().contains(c) && added.map_view()[c] == added_vals(
            *filter,
            mf,
            mt,
            id,
        )[c] by {
            assert(added.contains_comp(c));
            let j = choose|j: int|
                0 <= j < to_comps@.len() && to_comps@[j] == c && !from_comps@.contains(c);
            assert(to_comps@.contains(c));
            assert(filter.vis_dom(mt, id).contains(c));
            assert(!filter.vis_dom(mf, id).contains(c));
        }
        assert(added.map_view() =~= added_vals(*filter, mf, mt, id));
    }
    let added_empty = added.is_empty();
    if !added_empty {
        upd.push(WorldChange::AddComponents(id, added));
    } else {
        proof {
            assert(added_vals(*filter, mf, mt, id).dom() =~= Set::<Component>::empty());
        }
    }

    // Components no longer visible in `to`.
    let mut removed: Vec<Component> = Vec::new();
    let mut k: usize = 0;
    while k < from_comps.len()
        invariant
            k <= from_comps@.len(),
            forall|c: Component|
                removed@.contains(c) <==> (exists|j: int|
                    0 <= j < k && from_comps@[j] == c && !to_comps@.contains(c)),
        decreases from_comps@.len() - k,
    {
        let ghost rpre = removed@;
        let c = from_comps[k];
        if !comps_contain(&to_comps, c) {
            removed.push(c);
            proof {
                assert forall|c2: Component| removed@.contains(c2) implies (exists|j: int|
                    0 <= j < k + 1 && from_comps@[j] == c2 && !to_comps@.contains(c2)) by {
                    let p = choose|p: int| 0 <= p < removed@.len() && removed@[p] == c2;
                    if p < rpre.len() {
                        assert(rpre.contains(c2));
                    } else {
                        assert(from_comps@[k as int] == c2);
                    }
                }
                assert forall|c2: Component|
                    (exists|j: int|
                        0 <= j < k + 1 && from_comps@[j] == c2 && !to_comps@.contains(
                            c2,
                        )) implies removed@.contains(c2) by {
                    if c2 == c {
                        assert(removed@[removed@.len() - 1] == c2);
                    } else {
                        assert(rpre.contains(c2));
                        let p = choose|p: int| 0 <= p < rpre.len() && rpre[p] == c2;
                        assert(removed@[p] == c2);
                    }
                }
            }
        } else {
            proof {
                assert forall|c2: Component|
                    (exists|j: int|
                        0 <= j < k + 1 && from_comps@[j] == c2 && !to_comps@.contains(
                            c2,
                        )) implies removed@.contains(c2) by {
                    let j = choose|j: int|
                        0 <= j < k + 1 && from_comps@[j] == c2 && !to_comps@.contains(c2);
                    if j == k {
                        assert(to_comps@.contains(from_comps@[k as int]));
                    }
                }
            }
        }
        k += 1;
    }
    proof {
        assert forall|c: Component| removed@.to_set().contains(c) implies #[trigger] removed_set(
            *filter,
            mf,
            mt,
            id,
        ).contains(c) by {
            let j = choose|j: int|
                0 <= j < from_comps@.len() && from_comps@[j] == c && !to_comps@.contains(c);
            assert(from_comps@.contains(c));
        }
        assert forall|c: Component|
            #[trigger] removed_set(*filter, mf, mt, id).contains(c) implies
            removed@.to_set().contains(c) by {
            assert(from_comps@.contains(c));
            let j = choose|j: int| 0 <= j < from_comps@.len() && from_comps@[j] == c;
            assert(removed@.contains(c));
        }
        assert(removed@.to_set() =~= removed_set(*filter, mf, mt, id));
    }
    let ghost upd_a = upd@;
    if removed.len() > 0 {
        proof {
            assert(removed@.to_set().contains(removed@[0]));
        }
        upd.push(WorldChange::RemoveComponents(id, removed));
    } else {
        proof {
            assert(removed@.to_set() =~= Set::<Component>::empty());
            assert(removed_set(*filter, mf, mt, id) =~= Set::<Component>::empty());
        }
    }

    // Components visible in both whose content version changed.
    let ghost upd_b = upd@;
    proof {
        assert(forall|p: int|
            0 <= p < upd_b.len() ==> (#[trigger] upd_b[p]) is AddComponents
                || upd_b[p] is RemoveComponents);
        assert(forall|p1: int, p2: int|
            0 <= p1 < p2 < upd_b.len() ==> distinct_changes(upd_b[p1], upd_b[p2]));
        assert(forall|p1: int, p2: int|
            0 <= p1 < p2 < upd_b.len() ==> upd_rank(upd_b[p1]) <= upd_rank(upd_b[p2]));
        assert(added_vals(*filter, mf, mt, id).dom() !~= Set::<Component>::empty() ==> upd_b[0]
            is AddComponents);
        assert(removed_set(*filter, mf, mt, id) !~= Set::<Component>::empty() ==> upd_b[upd_a.len()
            as int] is RemoveComponents);
        assert(forall|p: int|
            0 <= p < upd_b.len() ==> a2b_change_ok(*filter, mf, mt, #[trigger] upd_b[p])
                && change_id(upd_b[p]) == id && upd_b[p].wf());
    }
    let mut k: usize = 0;
    while k < to_comps.len()
        invariant
            k <= to_comps@.len(),
            upd@.len() >= upd_b.len(),
            forall|p: int| 0 <= p < upd_b.len() ==> upd@[p] == #[trigger] upd_b[p],
            forall|p: int|
                upd_b.len() <= p < upd@.len() ==> {
                    &&& (#[trigger] upd@[p]) is SetValue
                    &&& upd@[p]->SetValue_0 == id
                    &&& a2b_change_ok(*filter, mf, mt, upd@[p])
                    &&& exists|j: int| 0 <= j < k && to_comps@[j] == (upd@[p]->SetValue_1).component
                },
            forall|p1: int, p2: int|
                upd_b.len() <= p1 < p2 < upd@.len() ==> (upd@[p1]->SetValue_1).component != (
                upd@[p2]->SetValue_1).component,
            forall|j: int|
                0 <= j < k && from_comps@.contains(#[trigger] to_comps@[j]) && mf.ents[id][
                    to_comps@[j]
                ].cver != mt.ents[id][to_comps@[j]].cver ==> exists|p: int|
                    upd_b.len() <= p < upd@.len() && (#[trigger] upd@[p]) is SetValue && (
                    upd@[p]->SetValue_1).component == to_comps@[j],
        decreases to_comps@.len() - k,
    {
        let ghost upre = upd@;
        let c = to_comps[k];
        proof {
            assert(to_comps@.contains(c));
            assert(filter.vis_dom(mt, id).contains(c));
        }
        if comps_contain(&from_comps, c) {
            proof {
                assert(filter.vis_dom(mf, id).contains(c));
            }
            let fv = from.get_component_content_version(id, c).unwrap();
            let tv = to.get_component_content_version(id, c).unwrap();
            if fv != tv {
                let u = to.get_unit(id, c).unwrap();
                upd.push(WorldChange::SetValue(id, u));
                proof {
                    assert forall|p1: int, p2: int|
                        upd_b.len() <= p1 < p2 < upd@.len() implies (
                    upd@[p1]->SetValue_1).component != (upd@[p2]->SetValue_1).component by {
                        if p2 == upd@.len() - 1 {
                            let j = choose|j: int|
                                0 <= j < k && to_comps@[j] == (upre[p1]->SetValue_1).component;
                            assert(to_comps@[k as int] == c);
                        }
                    }
                    assert forall|j: int|
                        0 <= j < k + 1 && from_comps@.contains(#[trigger] to_comps@[j])
                            && mf.ents[id][to_comps@[j]].cver != mt.ents[id][to_comps@[j]].cver
                            implies exists|p: int|
                            upd_b.len() <= p < upd@.len() && (#[trigger] upd@[p]) is SetValue && (
                            upd@[p]->SetValue_1).component == to_comps@[j] by {
                        if j == k {
                            assert(upd@[upd@.len() - 1] is SetValue);
                            assert((upd@[upd@.len() - 1]->SetValue_1).component == to_comps@[j]);
                        } else {
                            let p = choose|p: int|
                                upd_b.len() <= p < upre.len() && (#[trigger] upre[p]) is SetValue
                                    && (upre[p]->SetValue_1).component == to_comps@[j];
                            assert(upd@[p] is SetValue);
                        }
                    }
                }
            } else {
                proof {
                    assert forall|j: int|
                        0 <= j < k + 1 && from_comps@.contains(#[trigger] to_comps@[j])
                            && mf.ents[id][to_comps@[j]].cver != mt.ents[id][to_comps@[j]].cver
                            implies exists|p: int|
                            upd_b.len() <= p < upd@.len() && (#[trigger] upd@[p]) is SetValue && (
                            upd@[p]->SetValue_1).component == to_comps@[j] by {
                        if j == k {
                            assert(mf.ents[id][to_comps@[k as int]].cver == fv);
                        }
                    }
                }
            }
        } else {
            proof {
                assert forall|j: int|
                    0 <= j < k + 1 && from_comps@.contains(#[trigger] to_comps@[j]) && mf.ents[id][
                        to_comps@[j]
                    ].cver != mt.ents[id][to_comps@[j]].cver implies exists|p: int|
                        upd_b.len() <= p < upd@.len() && (#[trigger] upd@[p]) is SetValue && (
                        upd@[p]->SetValue_1).component == to_comps@[j] by {
                    if j == k {
                        assert(from_comps@.contains(to_comps@[k as int]));
                    }
                }
            }
        }
        k += 1;
    }
    proof {
        assert forall|c: Component|
            filter.vis_dom(mf, id).contains(c) && filter.vis_dom(mt, id).contains(c)
                && from@.ents[id][c].cver != to@.ents[id][c].cver implies exists|k2: int|
                0 <= k2 < upd@.len() && (#[trigger] upd@[k2]) is SetValue
                    && (upd@[k2]->SetValue_1).component == c by {
            assert(to_comps@.contains(c));
            let j = choose|j: int| 0 <= j < to_comps@.len() && to_comps@[j] == c;
            assert(from_comps@.contains(c));
            let p = choose|p: int|
                upd_b.len() <= p < upd@.len() && (#[trigger] upd@[p]) is SetValue && (
                upd@[p]->SetValue_1).component == to_comps@[j];
        }
        assert forall|k1: int, k2: int| 0 <= k1 < k2 < upd@.len() implies distinct_changes(
            #[trigger] upd@[k1],
            #[trigger] upd@[k2],
        ) && upd_rank(upd@[k1]) <= upd_rank(upd@[k2]) by {
            if upd_b.len() <= k1 {
                assert((upd@[k1]->SetValue_1).component != (upd@[k2]->SetValue_1).component);
            } else if k2 < upd_b.len() {
                assert(upd@[k1] == upd_b[k1] && upd@[k2] == upd_b[k2]);
            } else {
                assert(upd@[k1] == upd_b[k1]);
                assert(upd@[k1] is AddComponents || upd@[k1] is RemoveComponents);
                assert(upd@[k2] is SetValue);
            }
        }
        if added_vals(*filter, mf, mt, id).dom() !~= Set::<Component>::empty() {
            assert(upd@[0] == upd_b[0]);
            assert(upd@[0] is AddComponents);
        }
        if removed_set(*filter, mf, mt, id) !~= Set::<Component>::empty() {
            assert(upd@[upd_a.len() as int] == upd_b[upd_a.len() as int]);
            assert(upd@[upd_a.len() as int] is RemoveComponents);
        }
    }
    upd
}


impl WorldDiff {
    /// The list of changes that take the `from` world to the `to` world when
    /// applied to `from`, restricted to the filter's visible entity and
    /// component set. Despawns are emitted before spawns across the whole
    /// diff; per entity, added components come first, then removed, then
    /// changed.
    #[verifier::rlimit(100)]
    pub fn from_a_to_b(filter: WorldStreamFilter, from: &World, to: &World) -> (r: WorldDiff)
        requires
            from.inv(),
            to.inv(),
        ensures
            r.wf(),
            a2b_changes_ok(filter, from@, to@, r.changes@),
            a2b_complete(filter, from@, to@, r.changes@),
            a2b_entity_ordered(r.changes@),
    {
        let ghost mf = from@;
        let ghost mt = to@;
        let from_entities = filter.all_entities(from);
        let to_entities = filter.all_entities(to);
        let ghost fe = from_entities@;
        let ghost te = to_entities@;
        let mut changes: Vec<WorldChange> = Vec::new();

        // Despawns: visible in `from`, no longer visible in `to`.
        let mut i: usize = 0;
        while i < from_entities.len()
            invariant
                i <= fe.len(),
                forall|k: int|
                    0 <= k < changes@.len() ==> {
                        &&& (#[trigger] changes@[k]) is Despawn
                        &&& a2b_change_ok(filter, mf, mt, changes@[k])
                        &&& exists|j: int| 0 <= j < i && fe[j] == change_id(changes@[k])
                    },
                forall|k1: int, k2: int|
                    0 <= k1 < k2 < changes@.len() ==> change_id(#[trigger] changes@[k1]) != change_id(
                        #[trigger] changes@[k2],
                    ),
                forall|j: int|
                    0 <= j < i && !filter.vis(mt, #[trigger] fe[j]) ==> changes@.contains(
                        WorldChange::Despawn(fe[j]),
                    ),
            decreases fe.len() - i,
        {
            let ghost cpre = changes@;
            let id = from_entities[i];
            proof {
                assert(fe.contains(id));
            }
            if !ids_contain(&to_entities, id) {
                changes.push(WorldChange::Despawn(id));
                proof {
                    assert forall|k1: int, k2: int|
                        0 <= k1 < k2 < changes@.len() implies change_id(
                        #[trigger] changes@[k1],
                    ) != change_id(#[trigger] changes@[k2]) by {
                        if k2 == changes@.len() - 1 {
                            let j = choose|j: int|
                                0 <= j < i && fe[j] == change_id(cpre[k1]);
                            assert(fe[i as int] == id);
                        }
                    }
                    assert forall|j: int|
                        0 <= j < i + 1 && !filter.vis(mt, #[trigger] fe[j]) implies
                        changes@.contains(WorldChange::Despawn(fe[j])) by {
                        if j < i {
                            assert(cpre.contains(WorldChange::Despawn(fe[j])));
                            let k = choose|k: int|
                                0 <= k < cpre.len() && cpre[k] == WorldChange::Despawn(fe[j]);
                            assert(changes@[k] == WorldChange::Despawn(fe[j]));
                        } else {
                            assert(changes@[changes@.len() - 1] == WorldChange::Despawn(fe[j]));
                        }
                    }
                }
            } else {
                proof {
                    assert forall|j: int|
                        0 <= j < i + 1 && !filter.vis(mt, #[trigger] fe[j]) implies
                        changes@.contains(WorldChange::Despawn(fe[j])) by {
                        if j == i {
                            assert(te.contains(fe[j]));
                        }
                    }
                }
            }
            i += 1;
        }
        let ghost n1 = changes@.len() as int;
        let ghost snap1 = changes@;

        // Spawns: visible in `to`, not visible in `from`, carrying the
        // bootstrap-visible component values from `to`.
        let mut i: usize = 0;
        while i < to_entities.len()
            invariant
                i <= te.len(),
                changes@.len() >= n1,
                changes@.take(n1) == snap1,
                forall|k: int| 0 <= k < n1 ==> changes@[k] == #[trigger] snap1[k],
                forall|k: int|
                    n1 <= k < changes@.len() ==> {
                        &&& (#[trigger] changes@[k]) is Spawn
                        &&& changes@[k].wf()
                        &&& a2b_change_ok(filter, mf, mt, changes@[k])
                        &&& exists|j: int| 0 <= j < i && changes@[k]->Spawn_0 == Some(id_at(te, j))
                    },
                forall|k1: int, k2: int|
                    n1 <= k1 < k2 < changes@.len() ==> change_id(#[trigger] changes@[k1])
                        != change_id(#[trigger] changes@[k2]),
                forall|j: int|
                    0 <= j < i && !filter.vis(mf, #[trigger] te[j]) ==> exists|k: int|
                        n1 <= k < changes@.len() && (#[trigger] changes@[k]) is Spawn
                            && changes@[k]->Spawn_0 == Some(te[j]),
            decreases te.len() - i,
        {
            let ghost cpre = changes@;
            let id = to_entities[i];
            proof {
                assert(te.contains(id));
            }
            if !ids_contain(&from_entities, id) {
                let units = filter.read_entity_components(to, id);
                let data = EntityData { units };
                changes.push(WorldChange::Spawn(Some(id), data));
                proof {
                    assert forall|k: int|
                        n1 <= k < changes@.len() implies {
                        &&& (#[trigger] changes@[k]) is Spawn
                        &&& changes@[k].wf()
                        &&& a2b_change_ok(filter, mf, mt, changes@[k])
                        &&& exists|j: int| 0 <= j < i + 1 && changes@[k]->Spawn_0 == Some(id_at(te, j))
                    } by {
                        if k < cpre.len() {
                            assert(changes@[k] == cpre[k]);
                            let j = choose|j: int|
                                0 <= j < i && cpre[k]->Spawn_0 == Some(id_at(te, j));
                            assert(changes@[k]->Spawn_0 == Some(id_at(te, j)));
                        } else {
                            assert(changes@[k] is Spawn);
                            assert(changes@[k]->Spawn_0 == Some(id_at(te, i as int)));
                        }
                    }
                    assert forall|k1: int, k2: int|
                        n1 <= k1 < k2 < changes@.len() implies change_id(
                        #[trigger] changes@[k1],
                    ) != change_id(#[trigger] changes@[k2]) by {
                        if k2 == changes@.len() - 1 {
                            let j = choose|j: int|
                                0 <= j < i && cpre[k1]->Spawn_0 == Some(id_at(te, j));
                            assert(change_id(changes@[k1]) == te[j]);
                        }
                    }
                    assert forall|j: int|
                        0 <= j < i + 1 && !filter.vis(mf, #[trigger] te[j]) implies exists|k: int|
                        n1 <= k < changes@.len() && (#[trigger] changes@[k]) is Spawn
                            && changes@[k]->Spawn_0 == Some(te[j]) by {
                        if j < i {
                            let k = choose|k: int|
                                n1 <= k < cpre.len() && (#[trigger] cpre[k]) is Spawn
                                    && cpre[k]->Spawn_0 == Some(te[j]);
                            assert(changes@[k] is Spawn && changes@[k]->Spawn_0 == Some(te[j]));
                        } else {
                            assert(changes@[changes@.len() - 1] is Spawn);
                        }
                    }
                }
            } else {
                proof {
                    assert forall|j: int|
                        0 <= j < i + 1 && !filter.vis(mf, #[trigger] te[j]) implies exists|k: int|
                        n1 <= k < changes@.len() && (#[trigger] changes@[k]) is Spawn
                            && changes@[k]->Spawn_0 == Some(te[j]) by {
                        if j == i {
                            assert(fe.contains(te[j]));
                        }
                    }
                }
            }
            i += 1;
        }
        let ghost n2 = changes@.len() as int;
        let ghost snap2 = changes@;

        // Per-entity updates for entities visible in both worlds.
        let mut i: usize = 0;
        while i < to_entities.len()
            invariant
                i <= te.len(),
                changes@.len() >= n2,
                forall|k: int| 0 <= k < n2 ==> changes@[k] == #[trigger] snap2[k],
                forall|k: int|
                    n2 <= k < changes@.len() ==> {
                        &&& change_rank(#[trigger] changes@[k]) == 2
                        &&& changes@[k].wf()
                        &&& a2b_change_ok(filter, mf, mt, changes@[k])
                        &&& exists|j: int|
                            0 <= j < i && change_id(changes@[k]) == id_at(te, j) && filter.vis(
                                mf,
                                id_at(te, j),
                            )
                    },
                forall|k1: int, k2: int|
                    n2 <= k1 < k2 < changes@.len() ==> distinct_changes(
                        #[trigger] changes@[k1],
                        #[trigger] changes@[k2],
                    ) && (change_id(changes@[k1]) == change_id(changes@[k2]) ==> upd_rank(
                        changes@[k1],
                    ) <= upd_rank(changes@[k2])),
                forall|j: int|
                    0 <= j < i && filter.vis(mf, #[trigger] te[j]) ==> {
                        &&& (added_vals(filter, mf, mt, te[j]).dom() !~= Set::empty()
                            ==> exists|k: int|
                            n2 <= k < changes@.len() && (#[trigger] changes@[k]) is AddComponents
                                && changes@[k]->AddComponents_0 == te[j])
                        &&& (removed_set(filter, mf, mt, te[j]) !~= Set::empty() ==> exists|k: int|
                            n2 <= k < changes@.len() && (#[trigger] changes@[k])
                                is RemoveComponents && changes@[k]->RemoveComponents_0 == te[j])
                        &&& (forall|c: Component|
                            filter.vis_dom(mf, te[j]).contains(c) && filter.vis_dom(
                                mt,
                                te[j],
                            ).contains(c) && mf.ents[te[j]][c].cver != mt.ents[te[j]][c].cver
                                ==> exists|k: int|
                                n2 <= k < changes@.len() && (#[trigger] changes@[k]) is SetValue
                                    && changes@[k]->SetValue_0 == te[j] && (
                                changes@[k]->SetValue_1).component == c)
                    },
            decreases te.len() - i,
        {
            let ghost cpre = changes@;
            let id = to_entities[i];
            proof {
                assert(te.contains(id));
            }
            if ids_contain(&from_entities, id) {
                proof {
                    assert(fe.contains(id));
                }
                let mut upd = entity_update_changes(&filter, from, to, id);
                let ghost useq = upd@;
                changes.append(&mut upd);
                proof {
                    assert(changes@ == cpre + useq);
                    assert forall|k: int|
                        n2 <= k < changes@.len() implies {
                        &&& change_rank(#[trigger] changes@[k]) == 2
                        &&& changes@[k].wf()
                        &&& a2b_change_ok(filter, mf, mt, changes@[k])
                        &&& exists|j: int|
                            0 <= j < i + 1 && change_id(changes@[k]) == id_at(te, j) && filter.vis(
                                mf,
                                id_at(te, j),
                            )
                    } by {
                        if k < cpre.len() {
                            assert(changes@[k] == cpre[k]);
                            let j = choose|j: int|
                                0 <= j < i && change_id(cpre[k]) == id_at(te, j) && filter.vis(
                                    mf,
                                    id_at(te, j),
                                );
                        } else {
                            assert(changes@[k] == useq[k - cpre.len()]);
                            assert(change_id(changes@[k]) == id_at(te, i as int) && filter.vis(
                                mf,
                                id_at(te, i as int),
                            ));
                        }
                    }
                    assert forall|k1: int, k2: int|
                        n2 <= k1 < k2 < changes@.len() implies distinct_changes(
                        #[trigger] changes@[k1],
                        #[trigger] changes@[k2],
                    ) && (change_id(changes@[k1]) == change_id(changes@[k2]) ==> upd_rank(
                        changes@[k1],
                    ) <= upd_rank(changes@[k2])) by {
                        if k2 < cpre.len() {
                        } else if k1 >= cpre.len() {
                            assert(changes@[k1] == useq[k1 - cpre.len()]);
                            assert(changes@[k2] == useq[k2 - cpre.len()]);
                        } else {
                            assert(changes@[k1] == cpre[k1]);
                            assert(changes@[k2] == useq[k2 - cpre.len()]);
                            let j = choose|j: int|
                                0 <= j < i && change_id(cpre[k1]) == id_at(te, j) && filter.vis(
                                    mf,
                                    id_at(te, j),
                                );
                            assert(change_id(changes@[k1]) == te[j]);
                            assert(change_id(changes@[k2]) == te[i as int]);
                            assert(te[j] != te[i as int]);
                        }
                    }
                    assert forall|j: int|
                        0 <= j < i + 1 && filter.vis(mf, #[trigger] te[j]) implies {
                        &&& (added_vals(filter, mf, mt, te[j]).dom() !~= Set::empty()
                            ==> exists|k: int|
                            n2 <= k < changes@.len() && (#[trigger] changes@[k]) is AddComponents
                                && changes@[k]->AddComponents_0 == te[j])
                        &&& (removed_set(filter, mf, mt, te[j]) !~= Set::empty() ==> exists|k: int|
                            n2 <= k < changes@.len() && (#[trigger] changes@[k])
                                is RemoveComponents && changes@[k]->RemoveComponents_0 == te[j])
                        &&& (forall|c: Component|
                            filter.vis_dom(mf, te[j]).contains(c) && filter.vis_dom(
                                mt,
                                te[j],
                            ).contains(c) && mf.ents[te[j]][c].cver != mt.ents[te[j]][c].cver
                                ==> exists|k: int|
                                n2 <= k < changes@.len() && (#[trigger] changes@[k]) is SetValue
                                    && changes@[k]->SetValue_0 == te[j] && (
                                changes@[k]->SetValue_1).component == c)
                    } by {
                        if j < i {
                            if added_vals(filter, mf, mt, te[j]).dom() !~= Set::<
                                Component,
                            >::empty() {
                                let k = choose|k: int|
                                    n2 <= k < cpre.len() && (#[trigger] cpre[k]) is AddComponents
                                        && cpre[k]->AddComponents_0 == te[j];
                                assert(changes@[k] == cpre[k]);
                            }
                            if removed_set(filter, mf, mt, te[j]) !~= Set::<Component>::empty() {
                                let k = choose|k: int|
                                    n2 <= k < cpre.len() && (#[trigger] cpre[k])
                                        is RemoveComponents && cpre[k]->RemoveComponents_0
                                        == te[j];
                                assert(changes@[k] == cpre[k]);
                            }
                            assert forall|c: Component|
                                filter.vis_dom(mf, te[j]).contains(c) && filter.vis_dom(
                                    mt,
                                    te[j],
                                ).contains(c) && mf.ents[te[j]][c].cver != mt.ents[te[j]][c].cver
                                    implies exists|k: int|
                                    n2 <= k < changes@.len() && (#[trigger] changes@[k])
                                        is SetValue && changes@[k]->SetValue_0 == te[j] && (
                                    changes@[k]->SetValue_1).component == c by {
                                let k = choose|k: int|
                                    n2 <= k < cpre.len() && (#[trigger] cpre[k]) is SetValue
                                        && cpre[k]->SetValue_0 == te[j] && (
                                    cpre[k]->SetValue_1).component == c;
                                assert(changes@[k] == cpre[k]);
                            }
                        } else {
                            if added_vals(filter, mf, mt, te[j]).dom() !~= Set::<
                                Component,
                            >::empty() {
                                let k = choose|k: int|
                                    0 <= k < useq.len() && (#[trigger] useq[k]) is AddComponents;
                                assert(changes@[cpre.len() + k] == useq[k]);
                                assert(change_id(useq[k]) == te[j]);
                            }
                            if removed_set(filter, mf, mt, te[j]) !~= Set::<Component>::empty() {
                                let k = choose|k: int|
                                    0 <= k < useq.len() && (#[trigger] useq[k])
                                        is RemoveComponents;
                                assert(changes@[cpre.len() + k] == useq[k]);
                                assert(change_id(useq[k]) == te[j]);
                            }
                            assert forall|c: Component|
                                filter.vis_dom(mf, te[j]).contains(c) && filter.vis_dom(
                                    mt,
                                    te[j],
                                ).contains(c) && mf.ents[te[j]][c].cver != mt.ents[te[j]][c].cver
                                    implies exists|k: int|
                                    n2 <= k < changes@.len() && (#[trigger] changes@[k])
                                        is SetValue && changes@[k]->SetValue_0 == te[j] && (
                                    changes@[k]->SetValue_1).component == c by {
                                let k = choose|k: int|
                                    0 <= k < useq.len() && (#[trigger] useq[k]) is SetValue && (
                                    useq[k]->SetValue_1).component == c;
                                assert(changes@[cpre.len() + k] == useq[k]);
                                assert(change_id(useq[k]) == te[j]);
                            }
                        }
                    }
                }
            }
            i += 1;
        }

        proof {
            assert forall|k1: int, k2: int|
                0 <= k1 < k2 < changes@.len() implies change_rank(#[trigger] changes@[k1])
                <= change_rank(#[trigger] changes@[k2]) by {
                if k1 < n1 {
                    assert(changes@[k1] == snap2[k1] && snap2[k1] == snap1[k1]);
                    assert(changes@[k1] is Despawn);
                } else if k1 < n2 {
                    assert(changes@[k1] == snap2[k1]);
                    assert(changes@[k1] is Spawn);
                    if k2 < n2 {
                        assert(changes@[k2] == snap2[k2]);
                        assert(changes@[k2] is Spawn);
                    }
                }
            }
            assert forall|k1: int, k2: int|
                0 <= k1 < k2 < changes@.len() implies distinct_changes(
                #[trigger] changes@[k1],
                #[trigger] changes@[k2],
            ) by {
                if k2 < n1 {
                    assert(changes@[k1] == snap2[k1] && snap2[k1] == snap1[k1]);
                    assert(changes@[k2] == snap2[k2] && snap2[k2] == snap1[k2]);
                    assert(change_id(changes@[k1]) != change_id(changes@[k2]));
                } else if n1 <= k1 && k2 < n2 {
                    assert(changes@[k1] == snap2[k1]);
                    assert(changes@[k2] == snap2[k2]);
                    assert(change_id(changes@[k1]) != change_id(changes@[k2]));
                } else if k1 < n1 && k2 < n2 {
                    assert(changes@[k1] == snap2[k1] && snap2[k1] == snap1[k1]);
                    assert(changes@[k1] is Despawn);
                    assert(changes@[k2] == snap2[k2]);
                    assert(changes@[k2] is Spawn);
                } else if k1 < n1 {
                    assert(changes@[k1] == snap2[k1] && snap2[k1] == snap1[k1]);
                    assert(changes@[k1] is Despawn);
                    assert(change_rank(changes@[k2]) == 2);
                } else if k1 < n2 {
                    assert(changes@[k1] == snap2[k1]);
                    assert(changes@[k1] is Spawn);
                    assert(change_rank(changes@[k2]) == 2);
                }
            }
            assert forall|k: int| 0 <= k < changes@.len() implies a2b_change_ok(
                filter,
                mf,
                mt,
                #[trigger] changes@[k],
            ) && changes@[k].wf() by {
                if k < n1 {
                    assert(changes@[k] == snap2[k] && snap2[k] == snap1[k]);
                    assert(changes@[k] is Despawn);
                } else if k < n2 {
                    assert(changes@[k] == snap2[k]);
                }
            }
            assert forall|k1: int, k2: int|
                0 <= k1 < k2 < changes@.len() && change_rank(#[trigger] changes@[k1]) == 2
                    && change_rank(#[trigger] changes@[k2]) == 2 && change_id(changes@[k1])
                    == change_id(changes@[k2]) implies upd_rank(changes@[k1]) <= upd_rank(
                changes@[k2],
            ) by {
                if k1 < n1 {
                    assert(changes@[k1] == snap2[k1] && snap2[k1] == snap1[k1]);
                    assert(changes@[k1] is Despawn);
                } else if k1 < n2 {
                    assert(changes@[k1] == snap2[k1]);
                    assert(changes@[k1] is Spawn);
                } else if k2 < n2 {
                    assert(changes@[k2] == snap2[k2]);
                }
            }
            assert forall|id: EntityId|
                filter.vis(mf, id) && !filter.vis(mt, id) implies changes@.contains(
                WorldChange::Despawn(id),
            ) by {
                assert(fe.contains(id));
                let j = choose|j: int| 0 <= j < fe.len() && fe[j] == id;
                assert(snap1.contains(WorldChange::Despawn(id)));
                let k = choose|k: int|
                    0 <= k < snap1.len() && snap1[k] == WorldChange::Despawn(id);
                assert(changes@[k] == snap2[k] && snap2[k] == snap1[k]);
            }
            assert forall|id: EntityId|
                filter.vis(mt, id) && !filter.vis(mf, id) implies exists|k: int|
                0 <= k < changes@.len() && (#[trigger] changes@[k]) is Spawn
                    && changes@[k]->Spawn_0 == Some(id) by {
                assert(te.contains(id));
                let j = choose|j: int| 0 <= j < te.len() && te[j] == id;
                let k = choose|k: int|
                    n1 <= k < snap2.len() && (#[trigger] snap2[k]) is Spawn && snap2[k]->Spawn_0
                        == Some(te[j]);
                assert(changes@[k] == snap2[k]);
            }
            assert forall|id: EntityId|
                filter.vis(mf, id) && filter.vis(mt, id) && added_vals(filter, mf, mt, id).dom()
                    !~= Set::<Component>::empty() implies exists|k: int|
                0 <= k < changes@.len() && (#[trigger] changes@[k]) is AddComponents
                    && changes@[k]->AddComponents_0 == id by {
                assert(te.contains(id));
                let j = choose|j: int| 0 <= j < te.len() && te[j] == id;
            }
            assert forall|id: EntityId|
                filter.vis(mf, id) && filter.vis(mt, id) && removed_set(filter, mf, mt, id)
                    !~= Set::<Component>::empty() implies exists|k: int|
                0 <= k < changes@.len() && (#[trigger] changes@[k]) is RemoveComponents
                    && changes@[k]->RemoveComponents_0 == id by {
                assert(te.contains(id));
                let j = choose|j: int| 0 <= j < te.len() && te[j] == id;
            }
            assert forall|id: EntityId, c: Component|
                filter.vis(mf, id) && filter.vis(mt, id) && #[trigger] filter.vis_dom(
                    mf,
                    id,
                ).contains(c) && #[trigger] filter.vis_dom(mt, id).contains(c)
                    && mf.ents[id][c].cver != mt.ents[id][c].cver implies exists|k: int|
                0 <= k < changes@.len() && (#[trigger] changes@[k]) is SetValue
                    && changes@[k]->SetValue_0 == id && (changes@[k]->SetValue_1).component
                    == c by {
                assert(te.contains(id));
                let j = choose|j: int| 0 <= j < te.len() && te[j] == id;
            }
        }
        WorldDiff { changes }
    }
}

/// The element of an id sequence at the given index.
pub open spec fn id_at(s: Seq<EntityId>, j: int) -> EntityId {
    s[j]
}

} // verus!

