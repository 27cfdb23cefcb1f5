//! The incremental stream producer: a per-peer replication cursor that turns
//! the world's shape-change log and per-slot content versions into one
//! minimal diff per replication tick.

use vstd::prelude::*;

use crate::component::{Component, ComponentUnit};
use crate::diff::{filter_result_ok, WorldChange, WorldDiff};
use crate::ids::EntityId;
use crate::filter::{WorldStreamCompEvent, WorldStreamFilter};
use crate::model::WorldModel;
use crate::world::World;

verus! {

/// What one change produced by `next_diff` may say: every non-despawn change
/// aims at an entity passing the archetype predicate, with every component
/// passing the predicate of its mutation kind, and every emitted value write
/// is newer than the stream's previous high-water version and carries the
/// world's current value. Despawns are forwarded unconditionally.
pub open spec fn stream_change_ok(
    f: WorldStreamFilter,
    m: WorldModel,
    ver0: u64,
    c: WorldChange,
) -> bool {
    match c {
        WorldChange::Despawn(_) => true,
        WorldChange::Spawn(opt, d) => {
            &&& opt is Some
            &&& f.vis(m, opt->0)
            &&& forall|i: int|
                0 <= i < d.units@.len() ==> f.allows(
                    (#[trigger] d.units@[i]).component,
                    WorldStreamCompEvent::Spawn,
                )
        },
        WorldChange::AddComponents(id, d) => {
            &&& f.vis(m, id)
            &&& forall|i: int|
                0 <= i < d.units@.len() ==> f.allows(
                    (#[trigger] d.units@[i]).component,
                    WorldStreamCompEvent::AddComponent,
                )
        },
        WorldChange::RemoveComponents(id, comps) => {
            &&& f.vis(m, id)
            &&& forall|i: int|
                0 <= i < comps@.len() ==> f.allows(
                    #[trigger] comps@[i],
                    WorldStreamCompEvent::RemoveComponent,
                )
        },
        WorldChange::SetValue(id, u) => {
            &&& f.vis(m, id)
            &&& f.allows(u.component, WorldStreamCompEvent::SetValue)
            &&& m.ents[id].dom().contains(u.component)
            &&& m.ents[id][u.component].cver > ver0
            &&& u.value == m.ents[id][u.component].value
        },
    }
}

/// The element of an id sequence at the given index.
pub open spec fn id_at_seq(s: Seq<EntityId>, p: int) -> EntityId {
    s[p]
}

/// The element of a component sequence at the given index.
pub open spec fn comp_at_seq(s: Seq<Component>, q: int) -> Component {
    s[q]
}

/// Every shape event in the log window is accounted for: either the filter
/// drops it, or some emitted change is its filtered form.
pub open spec fn shape_covered(
    log: Seq<WorldChange>,
    lo: int,
    m: WorldModel,
    f: WorldStreamFilter,
    changes: Seq<WorldChange>,
) -> bool {
    forall|j: int|
        lo <= j < log.len() ==> (filter_result_ok(#[trigger] log[j], m, f, None) || exists|k: int|
            0 <= k < changes.len() && filter_result_ok(log[j], m, f, Some(#[trigger] changes[k])))
}

/// Two kept shape changes stem from two log entries in the same order.
pub open spec fn shape_order_kept(
    log: Seq<WorldChange>,
    lo: int,
    m: WorldModel,
    f: WorldStreamFilter,
    c1: WorldChange,
    c2: WorldChange,
) -> bool {
    exists|j1: int, j2: int|
        lo <= j1 < j2 < log.len() && #[trigger] filter_result_ok(log[j1], m, f, Some(c1))
            && #[trigger] filter_result_ok(log[j2], m, f, Some(c2))
}


/// The filtered form of a well-formed shape-log entry is a sound stream
/// change for any high-water version: shape entries never carry value
/// writes, so the version plays no part.
proof fn lemma_filtered_change_ok(
    e: WorldChange,
    m: WorldModel,
    f: WorldStreamFilter,
    ver0: u64,
    fc: WorldChange,
)
    requires
        e.wf(),
        crate::world::log_entry_ok(e),
        filter_result_ok(e, m, f, Some(fc)),
    ensures
        stream_change_ok(f, m, ver0, fc),
        !(fc is SetValue),
{
    match e {
        WorldChange::Spawn(opt, d) => {
            assert(fc is Spawn);
            let d2 = fc->Spawn_1;
            assert forall|j: int| 0 <= j < d2.units@.len() implies f.allows(
                (#[trigger] d2.units@[j]).component,
                WorldStreamCompEvent::Spawn,
            ) by {
                assert(d2.contains_comp(d2.units@[j].component));
                assert(d2.map_view().dom().contains(d2.units@[j].component));
            }
        },
        WorldChange::Despawn(_) => {},
        WorldChange::AddComponents(id, d) => {
            assert(fc is AddComponents);
            let d2 = fc->AddComponents_1;
            assert forall|j: int| 0 <= j < d2.units@.len() implies f.allows(
                (#[trigger] d2.units@[j]).component,
                WorldStreamCompEvent::AddComponent,
            ) by {
                assert(d2.contains_comp(d2.units@[j].component));
                assert(d2.map_view().dom().contains(d2.units@[j].component));
            }
        },
        WorldChange::RemoveComponents(id, comps) => {
            assert(fc is RemoveComponents);
            let c2 = fc->RemoveComponents_1;
            assert forall|j: int| 0 <= j < c2@.len() implies f.allows(
                #[trigger] c2@[j],
                WorldStreamCompEvent::RemoveComponent,
            ) by {
                assert(c2@.contains(c2@[j]));
            }
        },
        WorldChange::SetValue(_, _) => {
            assert(false);
        },
    }
}

/// A value write is due for replication: the entity is visible, the slot is
/// admitted for replication on writes, and it was written after the stream's
/// high-water version.
pub open spec fn set_due(
    f: WorldStreamFilter,
    m: WorldModel,
    ver0: u64,
    id: EntityId,
    c: Component,
) -> bool {
    &&& f.vis(m, id)
    &&& f.allows(c, WorldStreamCompEvent::SetValue)
    &&& m.ents[id].dom().contains(c)
    &&& m.ents[id][c].cver > ver0
}

/// The changes hold the value write of the given slot with its current value.
pub open spec fn set_emitted(
    changes: Seq<WorldChange>,
    m: WorldModel,
    id: EntityId,
    c: Component,
) -> bool {
    exists|k: int|
        0 <= k < changes.len() && #[trigger] changes[k] == WorldChange::SetValue(
            id,
            ComponentUnit { component: c, value: m.ents[id][c].value },
        )
}

/// The per-peer replication cursor: a read position into the world's
/// shape-change log, the peer's filter, and the high-water version below
/// which value changes have already been replicated.
#[derive(Clone, Debug)]
pub struct WorldStream {
    pub filter: WorldStreamFilter,
    pub log_cursor: usize,
    pub version: u64,
}

impl WorldStream {
    pub fn new(filter: WorldStreamFilter) -> (r: Self)
        ensures
            r.filter == filter,
            r.log_cursor == 0,
            r.version == 0,
    {
        WorldStream { filter, log_cursor: 0, version: 0 }
    }

    pub fn filter(&self) -> (r: &WorldStreamFilter)
        ensures
            r == &self.filter,
    {
        &self.filter
    }

    /// Read the shape-change window of the log and pass each event through
    /// the peer's filter, keeping log order.
    #[verifier::rlimit(100)]
    fn collect_shape_changes(
        filter: &WorldStreamFilter,
        world: &World,
        cursor0: usize,
        ver0: Ghost<u64>,
    ) -> (r: Vec<WorldChange>)
        requires
            world.inv(),
        ensures
            forall|k: int|
                0 <= k < r@.len() ==> stream_change_ok(*filter, world@, ver0@, #[trigger] r@[k])
                    && (#[trigger] r@[k]).wf() && !((#[trigger] r@[k]) is SetValue),
            cursor0 >= world.shape_log@.len() ==> r@.len() == 0,
            shape_covered(world.shape_log@, cursor0 as int, world@, *filter, r@),
            forall|k1: int, k2: int|
                #![trigger r@[k1], r@[k2]]
                0 <= k1 < k2 < r@.len() ==> shape_order_kept(
                    world.shape_log@,
                    cursor0 as int,
                    world@,
                    *filter,
                    r@[k1],
                    r@[k2],
                ),
    {
        let ghost m = world@;
        let ghost f = *filter;
        let ghost ver0 = ver0@;
        let ghost log = world.shape_log@;
        proof {
            world.lemma_model_inv();
        }
        let mut changes: Vec<WorldChange> = Vec::new();
        let ghost mut srcs: Seq<int> = Seq::empty();
        let log_len = world.shape_log_len();
        let mut i: usize = cursor0;
        while i < log_len
            invariant
                cursor0 <= i,
                log_len == log.len(),
                log == world.shape_log@,
                forall|k: int|
                    0 <= k < changes@.len() ==> stream_change_ok(
                        f,
                        m,
                        ver0,
                        #[trigger] changes@[k],
                    ) && (#[trigger] changes@[k]).wf() && !((#[trigger] changes@[k]) is SetValue),
                cursor0 >= log.len() ==> changes@.len() == 0,
                srcs.len() == changes@.len(),
                forall|k: int|
                    0 <= k < srcs.len() ==> cursor0 <= #[trigger] srcs[k] < i && srcs[k]
                        < log.len() && filter_result_ok(log[srcs[k]], m, f, Some(changes@[k])),
                forall|k1: int, k2: int|
                    0 <= k1 < k2 < srcs.len() ==> #[trigger] srcs[k1] < #[trigger] srcs[k2],
                forall|j: int|
                    cursor0 <= j < i ==> (filter_result_ok(#[trigger] log[j], m, f, None)
                        || exists|k: int|
                        0 <= k < changes@.len() && filter_result_ok(
                            log[j],
                            m,
                            f,
                            Some(#[trigger] changes@[k]),
                        )),
            decreases log_len - i,
        {
            let ghost cpre = changes@;
            let entry = world.shape_log_at(i);
            match entry.filter(world, filter) {
                Some(fc) => {
                    proof {
                        let e = log[i as int];
                        assert(e.wf() && crate::world::log_entry_ok(e));
                        lemma_filtered_change_ok(e, m, f, ver0, fc);
                    }
                    changes.push(fc);
                    proof {
                        srcs = srcs.push(i as int);
                        assert(filter_result_ok(
                            log[srcs[srcs.len() - 1]],
                            m,
                            f,
                            Some(changes@[changes@.len() - 1]),
                        ));
                        assert forall|j: int|
                            cursor0 <= j < i + 1 implies (filter_result_ok(
                            #[trigger] log[j],
                            m,
                            f,
                            None,
                        ) || exists|k: int|
                            0 <= k < changes@.len() && filter_result_ok(
                                log[j],
                                m,
                                f,
                                Some(#[trigger] changes@[k]),
                            )) by {
                            if j == i {
                                assert(filter_result_ok(
                                    log[j],
                                    m,
                                    f,
                                    Some(changes@[changes@.len() - 1]),
                                ));
                            } else if !filter_result_ok(log[j], m, f, None) {
                                let k = choose|k: int|
                                    0 <= k < cpre.len() && filter_result_ok(
                                        log[j],
                                        m,
                                        f,
                                        Some(#[trigger] cpre[k]),
                                    );
                                assert(changes@[k] == cpre[k]);
                                assert(filter_result_ok(log[j], m, f, Some(changes@[k])));
                            }
                        }
                    }
                },
                None => {
                    proof {
                        assert forall|j: int|
                            cursor0 <= j < i + 1 implies (filter_result_ok(
                            #[trigger] log[j],
                            m,
                            f,
                            None,
                        ) || exists|k: int|
                            0 <= k < changes@.len() && filter_result_ok(
                                log[j],
                                m,
                                f,
                                Some(#[trigger] changes@[k]),
                            )) by {
                            if j == i {
                                assert(filter_result_ok(log[j], m, f, None));
                            }
                        }
                    }
                },
            }
            i += 1;
        }
        proof {
            assert forall|k1: int, k2: int|
                #![trigger changes@[k1], changes@[k2]]
                0 <= k1 < k2 < changes@.len() implies shape_order_kept(
                log,
                cursor0 as int,
                m,
                f,
                changes@[k1],
                changes@[k2],
            ) by {
                assert(cursor0 <= srcs[k1] < srcs[k2] < log.len());
                assert(filter_result_ok(log[srcs[k1]], m, f, Some(changes@[k1])));
                assert(filter_result_ok(log[srcs[k2]], m, f, Some(changes@[k2])));
            }
            assert(shape_covered(log, cursor0 as int, m, f, changes@));
        }
        changes
    }

    /// The minimal diff since the last call: shape changes read from the
    /// world's event log and passed through the peer's filter, merged with
    /// one value write per component slot written since the stream's
    /// high-water version. Calling it again with no intervening world
    /// mutation yields an empty diff.
    #[verifier::rlimit(100)]
    pub fn next_diff(&mut self, world: &World) -> (r: WorldDiff)
        requires
            world.inv(),
        ensures
            final(self).filter == old(self).filter,
            final(self).log_cursor == world.shape_log@.len(),
            final(self).version == world@.ver,
            r.wf(),
            forall|k: int|
                0 <= k < r.changes@.len() ==> stream_change_ok(
                    old(self).filter,
                    world@,
                    old(self).version,
                    #[trigger] r.changes@[k],
                ),
            (old(self).log_cursor == world.shape_log@.len() && old(self).version == world@.ver)
                ==> r.changes@.len() == 0,
            shape_covered(
                world.shape_log@,
                old(self).log_cursor as int,
                world@,
                old(self).filter,
                r.changes@,
            ),
            forall|id: EntityId, c: Component|
                #[trigger] set_due(old(self).filter, world@, old(self).version, id, c)
                    ==> set_emitted(r.changes@, world@, id, c),
            forall|k1: int, k2: int|
                0 <= k1 < k2 < r.changes@.len() && (#[trigger] r.changes@[k1]) is SetValue && (
                #[trigger] r.changes@[k2]) is SetValue ==> !(r.changes@[k1]->SetValue_0
                    == r.changes@[k2]->SetValue_0 && (r.changes@[k1]->SetValue_1).component == (
                r.changes@[k2]->SetValue_1).component),
            forall|k1: int, k2: int|
                0 <= k1 < k2 < r.changes@.len() && (#[trigger] r.changes@[k1]) is SetValue ==> (
                #[trigger] r.changes@[k2]) is SetValue,
            forall|k1: int, k2: int|
                0 <= k1 < k2 < r.changes@.len() && !((#[trigger] r.changes@[k1]) is SetValue)
                    && !((#[trigger] r.changes@[k2]) is SetValue) ==> shape_order_kept(
                    world.shape_log@,
                    old(self).log_cursor as int,
                    world@,
                    old(self).filter,
                    r.changes@[k1],
                    r.changes@[k2],
                ),
    {
        let ghost m = world@;
        let ghost f = self.filter;
        let ghost ver0 = self.version;
        proof {
            world.lemma_model_inv();
        }
        let log_len = world.shape_log_len();
        let mut changes = Self::collect_shape_changes(
            &self.filter,
            world,
            self.log_cursor,
            Ghost(ver0),
        );
        self.log_cursor = log_len;
        let ghost shape_changes = changes@;

        // Value changes: every slot admitted for replication on write whose
        // content version exceeds the stream's high-water version.
        let ids = world.entity_ids();
        let mut j: usize = 0;
        while j < ids.len()
            invariant
                j <= ids@.len(),
                changes@.len() >= shape_changes.len(),
                forall|k: int|
                    0 <= k < shape_changes.len() ==> changes@[k] == #[trigger] shape_changes[k],
                forall|k: int|
                    0 <= k < changes@.len() ==> stream_change_ok(
                        f,
                        m,
                        ver0,
                        #[trigger] changes@[k],
                    ) && (#[trigger] changes@[k]).wf(),
                (old(self).log_cursor == world.shape_log@.len() && old(self).version == world@.ver)
                    ==> changes@.len() == 0,
                self.filter == f,
                self.version == ver0,
                forall|p: int, c: Component|
                    #![trigger set_due(f, m, ver0, ids@[p], c)]
                    0 <= p < j && set_due(f, m, ver0, ids@[p], c) ==> set_emitted(
                        changes@,
                        m,
                        ids@[p],
                        c,
                    ),
                forall|j2: int|
                    old(self).log_cursor <= j2 < world.shape_log@.len() ==> (filter_result_ok(
                        #[trigger] world.shape_log@[j2],
                        m,
                        f,
                        None,
                    ) || exists|k: int|
                        0 <= k < shape_changes.len() && filter_result_ok(
                            world.shape_log@[j2],
                            m,
                            f,
                            Some(#[trigger] shape_changes[k]),
                        )),
                forall|k: int|
                    0 <= k < shape_changes.len() ==> !((#[trigger] changes@[k]) is SetValue),
                forall|k: int|
                    shape_changes.len() <= k < changes@.len() ==> (#[trigger] changes@[k])
                        is SetValue && (exists|p: int|
                        0 <= p < j && changes@[k]->SetValue_0 == id_at_seq(ids@, p)),
                forall|k1: int, k2: int|
                    shape_changes.len() <= k1 < k2 < changes@.len() ==> !(
                    (#[trigger] changes@[k1])->SetValue_0 == (#[trigger] changes@[k2])->SetValue_0
                        && (changes@[k1]->SetValue_1).component == (
                    changes@[k2]->SetValue_1).component),
            decreases ids@.len() - j,
        {
            let id = ids[j];
            proof {
                assert(ids@.contains(id));
            }
            if self.filter.arch_filter.matches_entity(world, id) {
                let comps = world.get_components(id).unwrap();
                proof {
                    assert forall|p: int| 0 <= p < comps@.len() implies m.ents[id].dom().contains(
                        #[trigger] comps@[p],
                    ) by {
                        assert(comps@.contains(comps@[p]));
                    }
                }
                let ghost inner_start = changes@.len() as int;
                let mut k: usize = 0;
                while k < comps.len()
                    invariant
                        k <= comps@.len(),
                        changes@.len() >= shape_changes.len(),
                        forall|p: int|
                            0 <= p < shape_changes.len() ==> changes@[p] == #[trigger] shape_changes[p],
                        forall|p: int|
                            0 <= p < changes@.len() ==> stream_change_ok(
                                f,
                                m,
                                ver0,
                                #[trigger] changes@[p],
                            ) && (#[trigger] changes@[p]).wf(),
                        (old(self).log_cursor == world.shape_log@.len() && old(self).version
                            == world@.ver) ==> changes@.len() == 0,
                        self.filter == f,
                        self.version == ver0,
                        m.ents.dom().contains(id),
                        f.vis(m, id),
                        forall|p: int| 0 <= p < comps@.len() ==> m.ents[id].dom().contains(
                            #[trigger] comps@[p],
                        ),
                        forall|p: int, c: Component|
                            #![trigger set_due(f, m, ver0, ids@[p], c)]
                            0 <= p < j && set_due(f, m, ver0, ids@[p], c) ==> set_emitted(
                                changes@,
                                m,
                                ids@[p],
                                c,
                            ),
                        forall|q: int|
                            0 <= q < k && set_due(f, m, ver0, id, #[trigger] comps@[q])
                                ==> set_emitted(changes@, m, id, comps@[q]),
                        inner_start <= changes@.len(),
                        shape_changes.len() <= inner_start,
                        forall|p: int|
                            0 <= p < shape_changes.len() ==> !((#[trigger] changes@[p])
                                is SetValue),
                        forall|p: int|
                            shape_changes.len() <= p < inner_start ==> (#[trigger] changes@[p])
                                is SetValue && (exists|p2: int|
                                0 <= p2 < j && changes@[p]->SetValue_0 == id_at_seq(ids@, p2)),
                        forall|p: int|
                            inner_start <= p < changes@.len() ==> (#[trigger] changes@[p])
                                is SetValue && changes@[p]->SetValue_0 == id && (exists|q2: int|
                                0 <= q2 < k && (changes@[p]->SetValue_1).component == comp_at_seq(
                                    comps@,
                                    q2,
                                )),
                        forall|p1: int, p2: int|
                            shape_changes.len() <= p1 < p2 < changes@.len() ==> !(
                            (#[trigger] changes@[p1])->SetValue_0 == (
                            #[trigger] changes@[p2])->SetValue_0 && (
                            changes@[p1]->SetValue_1).component == (
                            changes@[p2]->SetValue_1).component),
                    decreases comps@.len() - k,
                {
                    let ghost cpre = changes@;
                    let c = comps[k];
                    proof {
                        assert(comps@.contains(c));
                    }
                    let mut pushed = false;
                    if self.filter.component_filter.allows(c, WorldStreamCompEvent::SetValue) {
                        let cver = world.get_component_content_version(id, c).unwrap();
                        if cver > self.version {
                            proof {
                                if old(self).version == world@.ver {
                                    assert(m.ents[id][c].cver <= m.ver);
                                    assert(false);
                                }
                            }
                            let u = world.get_unit(id, c).unwrap();
                            changes.push(WorldChange::SetValue(id, u));
                            pushed = true;
                        }
                    }
                    proof {
                        if pushed {
                            assert forall|p1: int, p2: int|
                                shape_changes.len() <= p1 < p2 < changes@.len() implies !(
                                (#[trigger] changes@[p1])->SetValue_0 == (
                                #[trigger] changes@[p2])->SetValue_0 && (
                                changes@[p1]->SetValue_1).component == (
                                changes@[p2]->SetValue_1).component) by {
                                if p2 == changes@.len() - 1 {
                                    if p1 < inner_start {
                                        let p3 = choose|p3: int|
                                            0 <= p3 < j && cpre[p1]->SetValue_0 == id_at_seq(
                                                ids@,
                                                p3,
                                            );
                                        assert(ids@[p3] != ids@[j as int]);
                                        assert(changes@[p1] == cpre[p1]);
                                    } else {
                                        let q2 = choose|q2: int|
                                            0 <= q2 < k && (cpre[p1]->SetValue_1).component
                                                == comp_at_seq(comps@, q2);
                                        assert(comps@[q2] != comps@[k as int]);
                                        assert(changes@[p1] == cpre[p1]);
                                    }
                                } else {
                                    assert(changes@[p1] == cpre[p1] && changes@[p2] == cpre[p2]);
                                }
                            }
                            assert forall|p: int|
                                inner_start <= p < changes@.len() implies (#[trigger] changes@[p])
                                is SetValue && changes@[p]->SetValue_0 == id && (exists|q2: int|
                                0 <= q2 < k + 1 && (changes@[p]->SetValue_1).component
                                    == comp_at_seq(comps@, q2)) by {
                                if p == changes@.len() - 1 {
                                    assert((changes@[p]->SetValue_1).component == comp_at_seq(
                                        comps@,
                                        k as int,
                                    ));
                                } else {
                                    assert(changes@[p] == cpre[p]);
                                    let q2 = choose|q2: int|
                                        0 <= q2 < k && (cpre[p]->SetValue_1).component
                                            == comp_at_seq(comps@, q2);
                                }
                            }
                        }
                        assert forall|idx: EntityId, c2: Component|
                            set_emitted(cpre, m, idx, c2) implies set_emitted(
                            changes@,
                            m,
                            idx,
                            c2,
                        ) by {
                            let p = choose|p: int|
                                0 <= p < cpre.len() && #[trigger] cpre[p] == WorldChange::SetValue(
                                    idx,
                                    ComponentUnit { component: c2, value: m.ents[idx][c2].value },
                                );
                            assert(changes@[p] == cpre[p]);
                        }
                        assert forall|q: int|
                            0 <= q < k + 1 && set_due(f, m, ver0, id, #[trigger] comps@[q])
                                implies set_emitted(changes@, m, id, comps@[q]) by {
                            if q == k {
                                assert(pushed);
                                assert(changes@[changes@.len() - 1] == WorldChange::SetValue(
                                    id,
                                    ComponentUnit {
                                        component: c,
                                        value: m.ents[id][c].value,
                                    },
                                ));
                            }
                        }
                    }
                    k += 1;
                }
                proof {
                    assert forall|p: int, c: Component|
                        0 <= p < j + 1 && #[trigger] set_due(f, m, ver0, ids@[p], c) implies
                        set_emitted(changes@, m, ids@[p], c) by {
                        if p == j {
                            assert(m.ents[ids@[p]].dom().contains(c));
                            assert(comps@.contains(c));
                            let q = choose|q: int| 0 <= q < comps@.len() && comps@[q] == c;
                        }
                    }
                    assert forall|p: int|
                        shape_changes.len() <= p < changes@.len() implies (#[trigger] changes@[p])
                        is SetValue && (exists|p2: int|
                        0 <= p2 < j + 1 && changes@[p]->SetValue_0 == id_at_seq(ids@, p2)) by {
                        if p < inner_start {
                            let p2 = choose|p2: int|
                                0 <= p2 < j && changes@[p]->SetValue_0 == id_at_seq(ids@, p2);
                        } else {
                            assert(changes@[p]->SetValue_0 == id_at_seq(ids@, j as int));
                        }
                    }
                }
            } else {
                proof {
                    assert forall|p: int, c: Component|
                        0 <= p < j + 1 && #[trigger] set_due(f, m, ver0, ids@[p], c) implies
                        set_emitted(changes@, m, ids@[p], c) by {
                        if p == j {
                            assert(!f.vis(m, ids@[p]));
                        }
                    }
                    assert forall|p: int|
                        shape_changes.len() <= p < changes@.len() implies (#[trigger] changes@[p])
                        is SetValue && (exists|p2: int|
                        0 <= p2 < j + 1 && changes@[p]->SetValue_0 == id_at_seq(ids@, p2)) by {
                        let p2 = choose|p2: int|
                            0 <= p2 < j && changes@[p]->SetValue_0 == id_at_seq(ids@, p2);
                    }
                }
            }
            j += 1;
        }
        proof {
            assert forall|id: EntityId, c: Component|
                #[trigger] set_due(f, m, ver0, id, c) implies set_emitted(changes@, m, id, c) by {
                assert(ids@.contains(id));
                let p = choose|p: int| 0 <= p < ids@.len() && ids@[p] == id;
                assert(set_due(f, m, ver0, ids@[p], c));
            }
            assert(shape_covered(
                world.shape_log@,
                old(self).log_cursor as int,
                m,
                f,
                changes@,
            )) by {
                assert forall|j2: int|
                    old(self).log_cursor <= j2 < world.shape_log@.len() implies (filter_result_ok(
                    #[trigger] world.shape_log@[j2],
                    m,
                    f,
                    None,
                ) || exists|k: int|
                    0 <= k < changes@.len() && filter_result_ok(
                        world.shape_log@[j2],
                        m,
                        f,
                        Some(#[trigger] changes@[k]),
                    )) by {
                    if !filter_result_ok(world.shape_log@[j2], m, f, None) {
                        let k = choose|k: int|
                            0 <= k < shape_changes.len() && filter_result_ok(
                                world.shape_log@[j2],
                                m,
                                f,
                                Some(#[trigger] shape_changes[k]),
                            );
                        assert(changes@[k] == shape_changes[k]);
                        assert(filter_result_ok(world.shape_log@[j2], m, f, Some(changes@[k])));
                    }
                }
            }
        }
        proof {
            assert forall|k1: int, k2: int|
                0 <= k1 < k2 < changes@.len() && (#[trigger] changes@[k1]) is SetValue && (
                #[trigger] changes@[k2]) is SetValue implies !(changes@[k1]->SetValue_0
                    == changes@[k2]->SetValue_0 && (changes@[k1]->SetValue_1).component == (
                changes@[k2]->SetValue_1).component) by {
                assert(shape_changes.len() <= k1);
            }
            assert forall|k1: int, k2: int|
                0 <= k1 < k2 < changes@.len() && (#[trigger] changes@[k1])
                    is SetValue implies (#[trigger] changes@[k2]) is SetValue by {
                assert(shape_changes.len() <= k1);
            }
            assert forall|k1: int, k2: int|
                0 <= k1 < k2 < changes@.len() && !((#[trigger] changes@[k1]) is SetValue) && !((
                #[trigger] changes@[k2]) is SetValue) implies shape_order_kept(
                world.shape_log@,
                old(self).log_cursor as int,
                m,
                f,
                changes@[k1],
                changes@[k2],
            ) by {
                assert(k2 < shape_changes.len());
                assert(changes@[k1] == shape_changes[k1] && changes@[k2] == shape_changes[k2]);
            }
        }
        self.version = world.version();
        WorldDiff { changes }
    }
}

} // verus!
