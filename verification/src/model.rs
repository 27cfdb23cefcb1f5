//! The mathematical model of a world: a map from entity id to its component
//! slots, each slot carrying a value and a content version, plus the world's
//! global version and its fresh-id counter.

use vstd::prelude::*;

use crate::component::{Component, Value};
use crate::ids::EntityId;

verus! {

/// A component slot: the stored value and the content version of its last
/// write.
#[verifier::ext_equal]
pub struct SlotM {
    pub value: Value,
    pub cver: nat,
}

/// The state of a world, abstracted from its storage layout.
#[verifier::ext_equal]
pub struct WorldModel {
    pub ents: Map<EntityId, Map<Component, SlotM>>,
    pub ver: nat,
    pub next: u64,
}

/// The id that the next locally assigned spawn receives.
pub open spec fn fresh_id(m: WorldModel) -> EntityId {
    EntityId { id0: m.next, id1: u64::MAX }
}

/// The fresh-id counter after a mirrored spawn of `id`: a locally tagged id
/// at or above the counter pushes it past that id.
pub open spec fn spawn_next(m: WorldModel, id: EntityId) -> u64 {
    if id.id1 == u64::MAX && id.id0 >= m.next {
        (id.id0 + 1) as u64
    } else {
        m.next
    }
}

/// Every id except the very last locally assignable one can be spawned.
pub open spec fn usable_id(id: EntityId) -> bool {
    !(id.id0 == u64::MAX && id.id1 == u64::MAX)
}

/// The slot map that fresh data receives when written at version `v`.
pub open spec fn slots_of_data(d: Map<Component, Value>, v: nat) -> Map<Component, SlotM> {
    Map::new(|c: Component| d.dom().contains(c), |c: Component| SlotM { value: d[c], cver: v })
}

/// Model-level well-formedness: slot versions never exceed the world version,
/// versions are positive, and locally tagged ids stay below the counter.
pub open spec fn model_inv(m: WorldModel) -> bool {
    &&& forall|id: EntityId, c: Component|
        #![trigger m.ents[id].dom().contains(c)]
        m.ents.dom().contains(id) && m.ents[id].dom().contains(c) ==> 1 <= m.ents[id][c].cver
            <= m.ver
    &&& forall|id: EntityId|
        #[trigger] m.ents.dom().contains(id) && id.id1 == u64::MAX ==> id.id0 < m.next
}

/// Two worlds hold the same entities, components and values (versions and
/// counters aside).
pub open spec fn content_eq(a: WorldModel, b: WorldModel) -> bool {
    &&& forall|id: EntityId| a.ents.dom().contains(id) == #[trigger] b.ents.dom().contains(id)
    &&& forall|id: EntityId, c: Component|
        #![trigger a.ents[id].dom().contains(c)]
        #![trigger b.ents[id].dom().contains(c)]
        a.ents.dom().contains(id) ==> (a.ents[id].dom().contains(c) == b.ents[id].dom().contains(c)
            && (a.ents[id].dom().contains(c) ==> a.ents[id][c].value == b.ents[id][c].value))
}

} // verus!
