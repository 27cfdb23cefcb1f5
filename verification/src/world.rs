//! The entity store: entities with versioned component slots, a global
//! version counter, a fresh-id counter, and the ordered shape-change log that
//! incremental replication reads.

use vstd::prelude::*;

use crate::component::{
    lemma_units_idx_unique, units_contain, units_map, units_unique, Component, ComponentUnit,
    EntityData, Value,
};
use crate::diff::WorldChange;
use crate::ids::EntityId;
use crate::model::{fresh_id, model_inv, slots_of_data, spawn_next, usable_id, SlotM, WorldModel};

verus! {

/// One stored component slot of an entity.
#[derive(Clone, Copy)]
pub struct Slot {
    pub component: Component,
    pub value: Value,
    pub cver: u64,
}

/// One stored entity.
pub struct WorldEntity {
    pub id: EntityId,
    pub slots: Vec<Slot>,
}

pub open spec fn slots_unique(s: Seq<Slot>) -> bool {
    forall|i: int, j: int|
        0 <= i < j < s.len() ==> (#[trigger] s[i]).component != (#[trigger] s[j]).component
}

pub open spec fn slots_contain(s: Seq<Slot>, c: Component) -> bool {
    exists|i: int| 0 <= i < s.len() && (#[trigger] s[i]).component == c
}

pub open spec fn slots_idx(s: Seq<Slot>, c: Component) -> int {
    choose|i: int| 0 <= i < s.len() && (#[trigger] s[i]).component == c
}

/// The slot mapping a sequence of slots denotes.
pub open spec fn slot_map(s: Seq<Slot>) -> Map<Component, SlotM> {
    Map::new(
        |c: Component| slots_contain(s, c),
        |c: Component|
            SlotM { value: s[slots_idx(s, c)].value, cver: s[slots_idx(s, c)].cver as nat },
    )
}

pub open spec fn ents_unique(s: Seq<WorldEntity>) -> bool {
    forall|i: int, j: int| 0 <= i < j < s.len() ==> (#[trigger] s[i]).id != (#[trigger] s[j]).id
}

pub open spec fn ents_contain(s: Seq<WorldEntity>, id: EntityId) -> bool {
    exists|i: int| 0 <= i < s.len() && (#[trigger] s[i]).id == id
}

pub open spec fn ents_idx(s: Seq<WorldEntity>, id: EntityId) -> int {
    choose|i: int| 0 <= i < s.len() && (#[trigger] s[i]).id == id
}

/// The entity mapping a sequence of entities denotes.
pub open spec fn ents_map(s: Seq<WorldEntity>) -> Map<EntityId, Map<Component, SlotM>> {
    Map::new(
        |id: EntityId| ents_contain(s, id),
        |id: EntityId| slot_map(s[ents_idx(s, id)].slots@),
    )
}

pub proof fn lemma_slots_idx_unique(s: Seq<Slot>, c: Component, i: int)
    requires
        slots_unique(s),
        0 <= i < s.len(),
        s[i].component == c,
    ensures
        slots_idx(s, c) == i,
{
    let j = slots_idx(s, c);
    assert(0 <= j < s.len() && s[j].component == c);
}

pub proof fn lemma_ents_idx_unique(s: Seq<WorldEntity>, id: EntityId, i: int)
    requires
        ents_unique(s),
        0 <= i < s.len(),
        s[i].id == id,
    ensures
        ents_idx(s, id) == i,
{
    let j = ents_idx(s, id);
    assert(0 <= j < s.len() && s[j].id == id);
}

proof fn lemma_slot_map_update(s: Seq<Slot>, i: int, slot: Slot)
    requires
        slots_unique(s),
        0 <= i < s.len(),
        s[i].component == slot.component,
    ensures
        slots_unique(s.update(i, slot)),
        slot_map(s.update(i, slot)) == slot_map(s).insert(
            slot.component,
            SlotM { value: slot.value, cver: slot.cver as nat },
        ),
{
    let t = s.update(i, slot);
    assert forall|a: int, b: int| 0 <= a < b < t.len() implies (#[trigger] t[a]).component != (
    #[trigger] t[b]).component by {
        assert(s[a].component == t[a].component || a == i);
        assert(s[b].component == t[b].component || b == i);
    }
    assert forall|c: Component| slots_contain(t, c) implies slots_contain(s, c) by {
        let j = choose|j: int| 0 <= j < t.len() && (#[trigger] t[j]).component == c;
        assert(s[j].component == t[j].component || j == i);
        assert(s[j].component == c);
    }
    assert forall|c: Component| slots_contain(s, c) implies slots_contain(t, c) by {
        let j = choose|j: int| 0 <= j < s.len() && (#[trigger] s[j]).component == c;
        assert(t[j].component == c);
    }
    assert forall|c: Component| slots_contain(s, c) && c != slot.component implies t[slots_idx(
        t,
        c,
    )] == s[slots_idx(s, c)] by {
        let j = slots_idx(s, c);
        assert(0 <= j < s.len() && s[j].component == c);
        assert(j != i);
        assert(t[j].component == c);
        lemma_slots_idx_unique(t, c, j);
    }
    assert(t[i].component == slot.component);
    lemma_slots_idx_unique(t, slot.component, i);
    assert(slot_map(t) =~= slot_map(s).insert(
        slot.component,
        SlotM { value: slot.value, cver: slot.cver as nat },
    ));
}

proof fn lemma_slot_map_push(s: Seq<Slot>, slot: Slot)
    requires
        slots_unique(s),
        !slots_contain(s, slot.component),
    ensures
        slots_unique(s.push(slot)),
        slot_map(s.push(slot)) == slot_map(s).insert(
            slot.component,
            SlotM { value: slot.value, cver: slot.cver as nat },
        ),
{
    let t = s.push(slot);
    let n = s.len() as int;
    assert forall|a: int, b: int| 0 <= a < b < t.len() implies (#[trigger] t[a]).component != (
    #[trigger] t[b]).component by {
        if b < n {
            assert(s[a].component != s[b].component);
        } else {
            assert(t[b] == slot);
            assert(t[a].component == s[a].component);
            assert(s[a].component != slot.component);
        }
    }
    assert forall|c: Component| slots_contain(t, c) && c != slot.component implies slots_contain(
        s,
        c,
    ) && t[slots_idx(t, c)] == s[slots_idx(s, c)] by {
        let j = choose|j: int| 0 <= j < t.len() && (#[trigger] t[j]).component == c;
        assert(j < n);
        assert(s[j].component == c);
        let k = slots_idx(s, c);
        assert(0 <= k < s.len() && s[k].component == c);
        assert(t[k].component == c);
        lemma_slots_idx_unique(t, c, k);
    }
    assert forall|c: Component| slots_contain(s, c) implies slots_contain(t, c) by {
        let j = choose|j: int| 0 <= j < s.len() && (#[trigger] s[j]).component == c;
        assert(t[j].component == c);
    }
    assert(t[n].component == slot.component);
    assert(slots_contain(t, slot.component));
    lemma_slots_idx_unique(t, slot.component, n);
    assert(slot_map(t) =~= slot_map(s).insert(
        slot.component,
        SlotM { value: slot.value, cver: slot.cver as nat },
    ));
}

proof fn lemma_slot_map_remove(s: Seq<Slot>, i: int)
    requires
        slots_unique(s),
        0 <= i < s.len(),
    ensures
        slots_unique(s.remove(i)),
        slot_map(s.remove(i)) == slot_map(s).remove(s[i].component),
{
    let t = s.remove(i);
    assert forall|a: int, b: int| 0 <= a < b < t.len() implies (#[trigger] t[a]).component != (
    #[trigger] t[b]).component by {
        let a2: int = if a < i {
            a
        } else {
            a + 1
        };
        let b2: int = if b < i {
            b
        } else {
            b + 1
        };
        assert(t[a] == s[a2] && t[b] == s[b2]);
    }
    assert forall|c: Component| slots_contain(t, c) implies slots_contain(s, c) && c
        != s[i].component by {
        let j = choose|j: int| 0 <= j < t.len() && (#[trigger] t[j]).component == c;
        let j2: int = if j < i {
            j
        } else {
            j + 1
        };
        assert(t[j] == s[j2]);
        assert(s[j2].component == c);
    }
    assert forall|c: Component| slots_contain(s, c) && c != s[i].component implies slots_contain(
        t,
        c,
    ) && t[slots_idx(t, c)] == s[slots_idx(s, c)] by {
        let j = slots_idx(s, c);
        assert(0 <= j < s.len() && s[j].component == c);
        assert(j != i);
        let j2: int = if j < i {
            j
        } else {
            j - 1
        };
        assert(t[j2] == s[j]);
        lemma_slots_idx_unique(t, c, j2);
    }
    assert(slot_map(t) =~= slot_map(s).remove(s[i].component));
}

proof fn lemma_ents_map_push(s: Seq<WorldEntity>, e: WorldEntity)
    requires
        ents_unique(s),
        !ents_contain(s, e.id),
    ensures
        ents_unique(s.push(e)),
        ents_map(s.push(e)) == ents_map(s).insert(e.id, slot_map(e.slots@)),
{
    let t = s.push(e);
    let n = s.len() as int;
    assert forall|a: int, b: int| 0 <= a < b < t.len() implies (#[trigger] t[a]).id != (
    #[trigger] t[b]).id by {
        if b < n {
            assert(s[a].id != s[b].id);
        } else {
            assert(t[b] == e);
            assert(t[a].id == s[a].id);
            assert(s[a].id != e.id);
        }
    }
    assert forall|id: EntityId| ents_contain(t, id) && id != e.id implies ents_contain(s, id)
        && t[ents_idx(t, id)] == s[ents_idx(s, id)] by {
        let j = choose|j: int| 0 <= j < t.len() && (#[trigger] t[j]).id == id;
        assert(j < n);
        assert(s[j].id == id);
        let k = ents_idx(s, id);
        assert(0 <= k < s.len() && s[k].id == id);
        assert(t[k].id == id);
        lemma_ents_idx_unique(t, id, k);
    }
    assert forall|id: EntityId| ents_contain(s, id) implies ents_contain(t, id) by {
        let j = choose|j: int| 0 <= j < s.len() && (#[trigger] s[j]).id == id;
        assert(t[j].id == id);
    }
    assert(t[n].id == e.id);
    assert(ents_contain(t, e.id));
    lemma_ents_idx_unique(t, e.id, n);
    assert(ents_map(t) =~= ents_map(s).insert(e.id, slot_map(e.slots@)));
}

proof fn lemma_ents_map_remove(s: Seq<WorldEntity>, i: int)
    requires
        ents_unique(s),
        0 <= i < s.len(),
    ensures
        ents_unique(s.remove(i)),
        ents_map(s.remove(i)) == ents_map(s).remove(s[i].id),
{
    let t = s.remove(i);
    assert forall|a: int, b: int| 0 <= a < b < t.len() implies (#[trigger] t[a]).id != (
    #[trigger] t[b]).id by {
        let a2: int = if a < i {
            a
        } else {
            a + 1
        };
        let b2: int = if b < i {
            b
        } else {
            b + 1
        };
        assert(t[a] == s[a2] && t[b] == s[b2]);
    }
    assert forall|id: EntityId| ents_contain(t, id) implies ents_contain(s, id) && id
        != s[i].id by {
        let j = choose|j: int| 0 <= j < t.len() && (#[trigger] t[j]).id == id;
        let j2: int = if j < i {
            j
        } else {
            j + 1
        };
        assert(t[j] == s[j2]);
        assert(s[j2].id == id);
    }
    assert forall|id: EntityId| ents_contain(s, id) && id != s[i].id implies ents_contain(t, id)
        && t[ents_idx(t, id)] == s[ents_idx(s, id)] by {
        let j = ents_idx(s, id);
        assert(0 <= j < s.len() && s[j].id == id);
        assert(j != i);
        let j2: int = if j < i {
            j
        } else {
            j - 1
        };
        assert(t[j2] == s[j]);
        lemma_ents_idx_unique(t, id, j2);
    }
    assert(ents_map(t) =~= ents_map(s).remove(s[i].id));
}

/// Slots built from well-formed units, all at version `v`, denote exactly the
/// data's mapping stamped at `v`.
proof fn lemma_slots_from_units(units: Seq<ComponentUnit>, v: u64, slots: Seq<Slot>)
    requires
        units_unique(units),
        slots.len() == units.len(),
        forall|k: int|
            0 <= k < slots.len() ==> (#[trigger] slots[k]).component == units[k].component
                && slots[k].value == units[k].value && slots[k].cver == v,
    ensures
        slots_unique(slots),
        slot_map(slots) == slots_of_data(units_map(units), v as nat),
{
    assert forall|c: Component| slots_contain(slots, c) implies units_contain(units, c) by {
        let j = choose|j: int| 0 <= j < slots.len() && (#[trigger] slots[j]).component == c;
        assert(units[j].component == c);
    }
    assert forall|c: Component| units_contain(units, c) implies slots_contain(slots, c) by {
        let j = choose|j: int| 0 <= j < units.len() && (#[trigger] units[j]).component == c;
        assert(slots[j].component == c);
    }
    assert forall|c: Component| units_contain(units, c) implies slot_map(slots)[c] == (SlotM {
        value: units_map(units)[c],
        cver: v as nat,
    }) by {
        let j = choose|j: int| 0 <= j < units.len() && (#[trigger] units[j]).component == c;
        lemma_units_idx_unique(units, c, j);
        assert(slots[j].component == c);
        lemma_slots_idx_unique(slots, c, j);
    }
    assert(slot_map(slots) =~= slots_of_data(units_map(units), v as nat));
}

/// A spawn entry in the shape log always carries an explicit id, and value
/// writes are never logged as shape events.
pub open spec fn log_entry_ok(c: WorldChange) -> bool {
    match c {
        WorldChange::Spawn(id, _) => id is Some,
        WorldChange::SetValue(_, _) => false,
        _ => true,
    }
}

/// The entity store. Entities are held in one stable-id-keyed table and an
/// entity's archetype is its component signature, re-resolved on every
/// access, so a stale archetype-local index cannot exist.
pub struct World {
    pub entities: Vec<WorldEntity>,
    pub version: u64,
    pub next_id: u64,
    pub shape_log: Vec<WorldChange>,
}

impl View for World {
    type V = WorldModel;

    open spec fn view(&self) -> WorldModel {
        WorldModel { ents: ents_map(self.entities@), ver: self.version as nat, next: self.next_id }
    }
}

impl World {
    /// Representation invariant: unique entity ids, unique slot keys per
    /// entity, slot versions bounded by the world version, locally tagged ids
    /// below the fresh counter, and a well-formed shape log.
    pub open spec fn inv(self) -> bool {
        &&& ents_unique(self.entities@)
        &&& forall|i: int|
            0 <= i < self.entities@.len() ==> slots_unique(
                (#[trigger] self.entities@[i]).slots@,
            )
        &&& forall|i: int, k: int|
            #![trigger self.entities@[i].slots@[k]]
            0 <= i < self.entities@.len() && 0 <= k < self.entities@[i].slots@.len() ==> 1
                <= self.entities@[i].slots@[k].cver <= self.version
        &&& forall|i: int|
            0 <= i < self.entities@.len() ==> ((#[trigger] self.entities@[i]).id.id1 == u64::MAX
                ==> self.entities@[i].id.id0 < self.next_id)
        &&& forall|k: int|
            0 <= k < self.shape_log@.len() ==> (#[trigger] self.shape_log@[k]).wf()
                && log_entry_ok(self.shape_log@[k])
    }

    /// The representation invariant implies the model invariant.
    pub proof fn lemma_model_inv(self)
        requires
            self.inv(),
        ensures
            model_inv(self@),
    {
        assert forall|id: EntityId, c: Component|
            self@.ents.dom().contains(id) && #[trigger] self@.ents[id].dom().contains(
                c,
            ) implies 1 <= self@.ents[id][c].cver <= self@.ver by {
            let i = ents_idx(self.entities@, id);
            assert(0 <= i < self.entities@.len() && self.entities@[i].id == id);
            let sl = self.entities@[i].slots@;
            let k = slots_idx(sl, c);
            assert(0 <= k < sl.len() && sl[k].component == c);
            assert(1 <= self.entities@[i].slots@[k].cver <= self.version);
        }
        assert forall|id: EntityId|
            #[trigger] self@.ents.dom().contains(id) && id.id1 == u64::MAX implies id.id0
            < self@.next by {
            let i = ents_idx(self.entities@, id);
            assert(0 <= i < self.entities@.len() && self.entities@[i].id == id);
        }
    }

    /// An empty world.
    pub fn new() -> (r: Self)
        ensures
            r.inv(),
            r@.ents == Map::<EntityId, Map<Component, SlotM>>::empty(),
            r@.ver == 0,
            r@.next == 0,
            r.shape_log@.len() == 0,
    {
        let r = World { entities: Vec::new(), version: 0, next_id: 0, shape_log: Vec::new() };
        proof {
            assert(r@.ents =~= Map::<EntityId, Map<Component, SlotM>>::empty());
        }
        r
    }

    /// The world's global version, bumped on every write.
    pub fn version(&self) -> (r: u64)
        ensures
            r == self@.ver,
    {
        self.version
    }

    /// Find the storage index of an entity.
    fn find_entity(&self, id: EntityId) -> (r: Option<usize>)
        requires
            self.inv(),
        ensures
            match r {
                Some(i) => i < self.entities@.len() && self.entities@[i as int].id == id
                    && ents_idx(self.entities@, id) == i && self@.ents.dom().contains(id),
                None => !self@.ents.dom().contains(id),
            },
    {
        let mut i: usize = 0;
        while i < self.entities.len()
            invariant
                forall|j: int| 0 <= j < i ==> (#[trigger] self.entities@[j]).id != id,
            decreases self.entities@.len() - i,
        {
            if self.entities[i].id == id {
                proof {
                    lemma_ents_idx_unique(self.entities@, id, i as int);
                }
                return Some(i);
            }
            i += 1;
        }
        proof {
            assert(!ents_contain(self.entities@, id));
        }
        None
    }

    /// Whether the entity exists.
    pub fn has_entity(&self, id: EntityId) -> (r: bool)
        requires
            self.inv(),
        ensures
            r == self@.ents.dom().contains(id),
    {
        self.find_entity(id).is_some()
    }

    /// All entity ids, each exactly once.
    pub fn entity_ids(&self) -> (r: Vec<EntityId>)
        requires
            self.inv(),
        ensures
            forall|id: EntityId| r@.contains(id) <==> self@.ents.dom().contains(id),
            forall|i: int, j: int| 0 <= i < j < r@.len() ==> r@[i] != r@[j],
            r@.len() == self.entities@.len(),
            forall|i: int| 0 <= i < r@.len() ==> r@[i] == (#[trigger] self.entities@[i]).id,
    {
        let mut r: Vec<EntityId> = Vec::new();
        let mut i: usize = 0;
        while i < self.entities.len()
            invariant
                i <= self.entities@.len(),
                r@.len() == i,
                forall|j: int| 0 <= j < i ==> r@[j] == (#[trigger] self.entities@[j]).id,
            decreases self.entities@.len() - i,
        {
            r.push(self.entities[i].id);
            i += 1;
        }
        proof {
            assert forall|id: EntityId| r@.contains(id) implies self@.ents.dom().contains(id) by {
                let k = choose|k: int| 0 <= k < r@.len() && r@[k] == id;
                assert(self.entities@[k].id == id);
            }
            assert forall|id: EntityId| self@.ents.dom().contains(id) implies r@.contains(id) by {
                let k = choose|k: int|
                    0 <= k < self.entities@.len() && (#[trigger] self.entities@[k]).id == id;
                assert(r@[k] == id);
            }
            assert forall|a: int, b: int| 0 <= a < b < r@.len() implies r@[a] != r@[b] by {
                assert(r@[a] == self.entities@[a].id);
                assert(r@[b] == self.entities@[b].id);
            }
        }
        r
    }

    /// The component keys of an entity, if it exists.
    pub fn get_components(&self, id: EntityId) -> (r: Option<Vec<Component>>)
        requires
            self.inv(),
        ensures
            r is Some <==> self@.ents.dom().contains(id),
            r is Some ==> {
                let v = r->0;
                &&& forall|c: Component| v@.contains(c) <==> self@.ents[id].dom().contains(c)
                &&& forall|i: int, j: int| 0 <= i < j < v@.len() ==> v@[i] != v@[j]
                &&& v@.len() == n_comps(*self, id)
                &&& forall|i: int| 0 <= i < v@.len() ==> v@[i] == comp_at(*self, id, i)
            },
    {
        let i = match self.find_entity(id) {
            Some(i) => i,
            None => {
                return None;
            },
        };
        let e = &self.entities[i];
        let ghost sl = e.slots@;
        let mut v: Vec<Component> = Vec::new();
        let mut k: usize = 0;
        while k < e.slots.len()
            invariant
                k <= sl.len(),
                e.slots@ == sl,
                v@.len() == k,
                forall|j: int| 0 <= j < k ==> v@[j] == (#[trigger] sl[j]).component,
            decreases sl.len() - k,
        {
            v.push(e.slots[k].component);
            k += 1;
        }
        proof {
            assert(slots_unique(sl));
            assert forall|c: Component| v@.contains(c) implies self@.ents[id].dom().contains(c) by {
                let j = choose|j: int| 0 <= j < v@.len() && v@[j] == c;
                assert(sl[j].component == c);
            }
            assert forall|c: Component| self@.ents[id].dom().contains(c) implies v@.contains(c) by {
                let j = choose|j: int| 0 <= j < sl.len() && (#[trigger] sl[j]).component == c;
                assert(v@[j] == c);
            }
            assert forall|a: int, b: int| 0 <= a < b < v@.len() implies v@[a] != v@[b] by {
                assert(v@[a] == sl[a].component);
                assert(v@[b] == sl[b].component);
            }
        }
        Some(v)
    }

    /// The unit stored for an entity's component, if both exist.
    pub fn get_unit(&self, id: EntityId, c: Component) -> (r: Option<ComponentUnit>)
        requires
            self.inv(),
        ensures
            r is Some <==> (self@.ents.dom().contains(id) && self@.ents[id].dom().contains(c)),
            r is Some ==> r->0 == (ComponentUnit { component: c, value: self@.ents[id][c].value }),
    {
        let i = match self.find_entity(id) {
            Some(i) => i,
            None => {
                return None;
            },
        };
        let e = &self.entities[i];
        let mut k: usize = 0;
        while k < e.slots.len()
            invariant
                forall|j: int| 0 <= j < k ==> (#[trigger] e.slots@[j]).component != c,
            decreases e.slots@.len() - k,
        {
            if e.slots[k].component == c {
                proof {
                    lemma_slots_idx_unique(e.slots@, c, k as int);
                }
                return Some(ComponentUnit { component: c, value: e.slots[k].value });
            }
            k += 1;
        }
        proof {
            assert(!slots_contain(e.slots@, c));
        }
        None
    }

    /// The content version of an entity's component slot, if both exist.
    pub fn get_component_content_version(&self, id: EntityId, c: Component) -> (r: Option<u64>)
        requires
            self.inv(),
        ensures
            r is Some <==> (self@.ents.dom().contains(id) && self@.ents[id].dom().contains(c)),
            r is Some ==> r->0 == self@.ents[id][c].cver,
    {
        let i = match self.find_entity(id) {
            Some(i) => i,
            None => {
                return None;
            },
        };
        let e = &self.entities[i];
        let mut k: usize = 0;
        while k < e.slots.len()
            invariant
                forall|j: int| 0 <= j < k ==> (#[trigger] e.slots@[j]).component != c,
            decreases e.slots@.len() - k,
        {
            if e.slots[k].component == c {
                proof {
                    lemma_slots_idx_unique(e.slots@, c, k as int);
                }
                return Some(e.slots[k].cver);
            }
            k += 1;
        }
        proof {
            assert(!slots_contain(e.slots@, c));
        }
        None
    }

    /// The number of shape-change events recorded so far.
    pub fn shape_log_len(&self) -> (r: usize)
        ensures
            r == self.shape_log@.len(),
    {
        self.shape_log.len()
    }

    /// One recorded shape-change event.
    pub fn shape_log_at(&self, i: usize) -> (r: &WorldChange)
        requires
            i < self.shape_log@.len(),
        ensures
            *r == self.shape_log@[i as int],
    {
        &self.shape_log[i]
    }

    /// Build the slot vector for fresh data, all stamped at version `v`.
    fn build_slots(data: &EntityData, v: u64) -> (r: Vec<Slot>)
        requires
            data.wf(),
        ensures
            slots_unique(r@),
            slot_map(r@) == slots_of_data(data.map_view(), v as nat),
            forall|k: int| 0 <= k < r@.len() ==> (#[trigger] r@[k]).cver == v,
    {
        let mut r: Vec<Slot> = Vec::new();
        let mut k: usize = 0;
        while k < data.units.len()
            invariant
                k <= data.units@.len(),
                r@.len() == k,
                forall|j: int|
                    0 <= j < k ==> (#[trigger] r@[j]).component == data.units@[j].component
                        && r@[j].value == data.units@[j].value && r@[j].cver == v,
            decreases data.units@.len() - k,
        {
            r.push(
                Slot { component: data.units[k].component, value: data.units[k].value, cver: v },
            );
            k += 1;
        }
        proof {
            lemma_slots_from_units(data.units@, v, r@);
        }
        r
    }

    /// Spawn a new entity with a locally assigned fresh id.
    pub fn spawn(&mut self, data: EntityData) -> (r: EntityId)
        requires
            old(self).inv(),
            data.wf(),
            old(self)@.ver < u64::MAX,
            old(self)@.next < u64::MAX,
        ensures
            final(self).inv(),
            r == fresh_id(old(self)@),
            !old(self)@.ents.dom().contains(r),
            final(self)@.ents == old(self)@.ents.insert(
                r,
                slots_of_data(data.map_view(), old(self)@.ver + 1),
            ),
            final(self)@.ver == old(self)@.ver + 1,
            final(self)@.next == old(self)@.next + 1,
            final(self).shape_log@ == old(self).shape_log@.push(
                WorldChange::Spawn(Some(r), data),
            ),
    {
        let id = EntityId { id0: self.next_id, id1: u64::MAX };
        proof {
            if ents_contain(self.entities@, id) {
                let i = choose|i: int|
                    0 <= i < self.entities@.len() && (#[trigger] self.entities@[i]).id == id;
                assert(self.entities@[i].id.id0 < self.next_id);
            }
        }
        self.next_id = self.next_id + 1;
        self.version = self.version + 1;
        let slots = Self::build_slots(&data, self.version);
        let ghost pre_ents = self.entities@;
        self.entities.push(WorldEntity { id, slots });
        self.shape_log.push(WorldChange::Spawn(Some(id), data));
        proof {
            lemma_ents_map_push(pre_ents, self.entities@.last());
            assert(self.entities@.drop_last() =~= pre_ents);
            assert(self.entities@ =~= pre_ents.push(self.entities@.last()));
        }
        id
    }

    /// Spawn an entity with an explicit (mirrored) id. Returns false and
    /// leaves the world unchanged if the id already exists.
    pub fn spawn_mirrored(&mut self, id: EntityId, data: EntityData) -> (r: bool)
        requires
            old(self).inv(),
            data.wf(),
            usable_id(id),
            old(self)@.ver < u64::MAX,
        ensures
            final(self).inv(),
            r == !old(self)@.ents.dom().contains(id),
            !r ==> *final(self) == *old(self),
            r ==> {
                &&& final(self)@.ents == old(self)@.ents.insert(
                    id,
                    slots_of_data(data.map_view(), old(self)@.ver + 1),
                )
                &&& final(self)@.ver == old(self)@.ver + 1
                &&& final(self)@.next == spawn_next(old(self)@, id)
                &&& final(self).shape_log@ == old(self).shape_log@.push(
                    WorldChange::Spawn(Some(id), data),
                )
            },
    {
        if self.find_entity(id).is_some() {
            return false;
        }
        if id.id1 == u64::MAX && id.id0 >= self.next_id {
            self.next_id = id.id0 + 1;
        }
        self.version = self.version + 1;
        let slots = Self::build_slots(&data, self.version);
        let ghost pre_ents = self.entities@;
        self.entities.push(WorldEntity { id, slots });
        self.shape_log.push(WorldChange::Spawn(Some(id), data));
        proof {
            lemma_ents_map_push(pre_ents, self.entities@.last());
            assert(self.entities@.drop_last() =~= pre_ents);
            assert(self.entities@ =~= pre_ents.push(self.entities@.last()));
        }
        true
    }

    /// Remove an entity entirely. Returns false if it does not exist.
    pub fn despawn(&mut self, id: EntityId) -> (r: bool)
        requires
            old(self).inv(),
        ensures
            final(self).inv(),
            r == old(self)@.ents.dom().contains(id),
            !r ==> *final(self) == *old(self),
            r ==> {
                &&& final(self)@.ents == old(self)@.ents.remove(id)
                &&& final(self)@.ver == old(self)@.ver
                &&& final(self)@.next == old(self)@.next
                &&& final(self).shape_log@ == old(self).shape_log@.push(WorldChange::Despawn(id))
            },
    {
        let i = match self.find_entity(id) {
            Some(i) => i,
            None => {
                return false;
            },
        };
        let ghost pre_ents = self.entities@;
        let _ = self.entities.remove(i);
        self.shape_log.push(WorldChange::Despawn(id));
        proof {
            lemma_ents_map_remove(pre_ents, i as int);
        }
        true
    }

    /// Add (or overwrite) the components in `data` on an existing entity.
    pub fn add_components(&mut self, id: EntityId, data: EntityData)
        requires
            old(self).inv(),
            data.wf(),
            old(self)@.ents.dom().contains(id),
            old(self)@.ver < u64::MAX,
        ensures
            final(self).inv(),
            final(self)@.ents == old(self)@.ents.insert(
                id,
                old(self)@.ents[id].union_prefer_right(
                    slots_of_data(data.map_view(), old(self)@.ver + 1),
                ),
            ),
            final(self)@.ver == old(self)@.ver + 1,
            final(self)@.next == old(self)@.next,
            final(self).shape_log@ == old(self).shape_log@.push(
                WorldChange::AddComponents(id, data),
            ),
    {
        let i = self.find_entity(id).unwrap();
        self.version = self.version + 1;
        let v = self.version;
        let ghost pre_ents = self.entities@;
        let ghost inner0 = slot_map(pre_ents[i as int].slots@);
        let mut e = self.entities.remove(i);
        proof {
            lemma_ents_map_remove(pre_ents, i as int);
        }
        let ghost dseq = data.units@;
        let mut k: usize = 0;
        while k < data.units.len()
            invariant
                slots_unique(e.slots@),
                e.id == id,
                k <= dseq.len(),
                data.units@ == dseq,
                units_unique(dseq),
                slot_map(e.slots@) == inner0.union_prefer_right(
                    slots_of_data(units_map(dseq.take(k as int)), v as nat),
                ),
                forall|j: int|
                    0 <= j < e.slots@.len() ==> 1 <= (#[trigger] e.slots@[j]).cver <= v,
            decreases dseq.len() - k,
        {
            let u = data.units[k];
            let slot = Slot { component: u.component, value: u.value, cver: v };
            let ghost pre_slots = e.slots@;
            let mut f: usize = 0;
            let mut updated = false;
            while f < e.slots.len()
                invariant
                    e.id == id,
                    e.slots@ == pre_slots,
                    !updated,
                    forall|j: int| 0 <= j < f ==> (#[trigger] pre_slots[j]).component != u.component,
                decreases pre_slots.len() - f,
            {
                if e.slots[f].component == u.component {
                    e.slots.set(f, slot);
                    proof {
                        lemma_slot_map_update(pre_slots, f as int, slot);
                    }
                    updated = true;
                    break ;
                }
                f += 1;
            }
            if !updated {
                proof {
                    assert(!slots_contain(pre_slots, u.component));
                    lemma_slot_map_push(pre_slots, slot);
                }
                e.slots.push(slot);
            }
            proof {
                assert(units_unique(dseq.take(k as int)));
                assert(!units_contain(dseq.take(k as int), u.component)) by {
                    if units_contain(dseq.take(k as int), u.component) {
                        let j = choose|j: int|
                            0 <= j < k && (#[trigger] dseq.take(k as int)[j]).component
                                == u.component;
                        assert(dseq[j].component == dseq[k as int].component);
                    }
                }
                crate::component::lemma_units_map_push(dseq.take(k as int), u);
                assert(dseq.take(k + 1) =~= dseq.take(k as int).push(u));
                assert(slot_map(e.slots@) =~= inner0.union_prefer_right(
                    slots_of_data(units_map(dseq.take(k + 1)), v as nat),
                ));
            }
            k += 1;
        }
        let ghost mid_ents = self.entities@;
        self.entities.push(e);
        self.shape_log.push(WorldChange::AddComponents(id, data));
        proof {
            assert(dseq.take(dseq.len() as int) =~= dseq);
            assert(!ents_contain(mid_ents, id)) by {
                if ents_contain(mid_ents, id) {
                    assert(ents_map(mid_ents).dom().contains(id));
                }
            }
            lemma_ents_map_push(mid_ents, self.entities@.last());
            assert(self.entities@.drop_last() =~= mid_ents);
            assert(self.entities@ =~= mid_ents.push(self.entities@.last()));
            assert(final(self)@.ents =~= old(self)@.ents.insert(
                id,
                old(self)@.ents[id].union_prefer_right(
                    slots_of_data(data.map_view(), old(self)@.ver + 1),
                ),
            ));
        }
    }

    /// Remove one component slot from an entity. Returns false and leaves the
    /// world unchanged if the entity or the slot is missing.
    pub fn remove_component(&mut self, id: EntityId, c: Component) -> (r: bool)
        requires
            old(self).inv(),
        ensures
            final(self).inv(),
            r == (old(self)@.ents.dom().contains(id) && old(self)@.ents[id].dom().contains(c)),
            !r ==> *final(self) == *old(self),
            r ==> {
                &&& final(self)@.ents == old(self)@.ents.insert(id, old(self)@.ents[id].remove(c))
                &&& final(self)@.ver == old(self)@.ver
                &&& final(self)@.next == old(self)@.next
                &&& final(self).shape_log@.len() == old(self).shape_log@.len() + 1
                &&& forall|j: int|
                    0 <= j < old(self).shape_log@.len() ==> final(self).shape_log@[j] == old(
                        self,
                    ).shape_log@[j]
                &&& is_remove_entry(final(self).shape_log@.last(), id, c)
            },
    {
        let i = match self.find_entity(id) {
            Some(i) => i,
            None => {
                return false;
            },
        };
        let ghost pre_ents = self.entities@;
        let ghost sl = pre_ents[i as int].slots@;
        let mut k: usize = 0;
        let mut found: Option<usize> = None;
        while k < self.entities[i].slots.len()
            invariant
                *self == *old(self),
                i < self.entities@.len(),
                found is None,
                forall|j: int| 0 <= j < k ==> (#[trigger] sl[j]).component != c,
            decreases sl.len() - k,
        {
            if self.entities[i].slots[k].component == c {
                found = Some(k);
                break ;
            }
            k += 1;
        }
        let k = match found {
            Some(k) => k,
            None => {
                proof {
                    assert(!slots_contain(sl, c));
                }
                return false;
            },
        };
        proof {
            assert(slots_contain(sl, c));
        }
        let mut e = self.entities.remove(i);
        proof {
            lemma_ents_map_remove(pre_ents, i as int);
        }
        let _ = e.slots.remove(k);
        proof {
            lemma_slot_map_remove(sl, k as int);
            lemma_slots_idx_unique(sl, c, k as int);
        }
        let ghost mid_ents = self.entities@;
        self.entities.push(e);
        let mut cs: Vec<Component> = Vec::new();
        cs.push(c);
        self.shape_log.push(WorldChange::RemoveComponents(id, cs));
        proof {
            assert(!ents_contain(mid_ents, id)) by {
                if ents_contain(mid_ents, id) {
                    assert(ents_map(mid_ents).dom().contains(id));
                }
            }
            lemma_ents_map_push(mid_ents, self.entities@.last());
            assert(self.entities@.drop_last() =~= mid_ents);
            assert(self.entities@ =~= mid_ents.push(self.entities@.last()));
            assert(final(self)@.ents =~= old(self)@.ents.insert(
                id,
                old(self)@.ents[id].remove(c),
            ));
        }
        true
    }

    /// Overwrite the value of an existing component slot, bumping its content
    /// version. Returns the previous value, or `None` (leaving the world
    /// unchanged) if the entity or the slot is missing.
    pub fn set_unit_at(&mut self, id: EntityId, unit: ComponentUnit) -> (r: Option<Value>)
        requires
            old(self).inv(),
            old(self)@.ver < u64::MAX,
        ensures
            final(self).inv(),
            r is Some <==> (old(self)@.ents.dom().contains(id)
                && old(self)@.ents[id].dom().contains(unit.component)),
            r is None ==> *final(self) == *old(self),
            r is Some ==> {
                &&& r->0 == old(self)@.ents[id][unit.component].value
                &&& final(self)@.ents == old(self)@.ents.insert(
                    id,
                    old(self)@.ents[id].insert(
                        unit.component,
                        SlotM { value: unit.value, cver: old(self)@.ver + 1 },
                    ),
                )
                &&& final(self)@.ver == old(self)@.ver + 1
                &&& final(self)@.next == old(self)@.next
                &&& final(self).shape_log@ == old(self).shape_log@
            },
    {
        let i = match self.find_entity(id) {
            Some(i) => i,
            None => {
                return None;
            },
        };
        let ghost pre_ents = self.entities@;
        let ghost sl = pre_ents[i as int].slots@;
        let mut k: usize = 0;
        let mut found: Option<usize> = None;
        while k < self.entities[i].slots.len()
            invariant
                *self == *old(self),
                i < self.entities@.len(),
                found is None,
                forall|j: int| 0 <= j < k ==> (#[trigger] sl[j]).component != unit.component,
            decreases sl.len() - k,
        {
            if self.entities[i].slots[k].component == unit.component {
                found = Some(k);
                break ;
            }
            k += 1;
        }
        let k = match found {
            Some(k) => k,
            None => {
                proof {
                    assert(!slots_contain(sl, unit.component));
                }
                return None;
            },
        };
        proof {
            assert(slots_contain(sl, unit.component));
            lemma_slots_idx_unique(sl, unit.component, k as int);
        }
        self.version = self.version + 1;
        let v = self.version;
        let mut e = self.entities.remove(i);
        proof {
            lemma_ents_map_remove(pre_ents, i as int);
        }
        let prev = e.slots[k].value;
        let slot = Slot { component: unit.component, value: unit.value, cver: v };
        e.slots.set(k, slot);
        proof {
            lemma_slot_map_update(sl, k as int, slot);
        }
        let ghost mid_ents = self.entities@;
        self.entities.push(e);
        proof {
            assert(!ents_contain(mid_ents, id)) by {
                if ents_contain(mid_ents, id) {
                    assert(ents_map(mid_ents).dom().contains(id));
                }
            }
            lemma_ents_map_push(mid_ents, self.entities@.last());
            assert(self.entities@.drop_last() =~= mid_ents);
            assert(self.entities@ =~= mid_ents.push(self.entities@.last()));
            assert(final(self)@.ents =~= old(self)@.ents.insert(
                id,
                old(self)@.ents[id].insert(
                    unit.component,
                    SlotM { value: unit.value, cver: old(self)@.ver + 1 },
                ),
            ));
        }
        Some(prev)
    }
}

/// The id stored at one row of the entity table.
pub open spec fn ent_id_at(w: World, i: int) -> EntityId {
    w.entities@[i].id
}

/// The number of component slots an entity holds.
pub open spec fn n_comps(w: World, id: EntityId) -> int {
    w.entities@[ents_idx(w.entities@, id)].slots@.len() as int
}

/// The component key stored at one slot of an entity.
pub open spec fn comp_at(w: World, id: EntityId, i: int) -> Component {
    w.entities@[ents_idx(w.entities@, id)].slots@[i].component
}

/// The given change is a removal of exactly the one component from the entity.
pub open spec fn is_remove_entry(chg: WorldChange, id: EntityId, c: Component) -> bool {
    match chg {
        WorldChange::RemoveComponents(i, cs) => i == id && cs@ == seq![c],
        _ => false,
    }
}

} // verus!
