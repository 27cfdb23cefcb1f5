//! The library's laws: applying a computed two-world diff reproduces the
//! target world's visible state, and replaying a revert diff restores the
//! world a diff was applied to. `replicate_world` packages the first law as
//! a verified compute-and-apply step.

use vstd::prelude::*;

use crate::component::{Component, Value};
use crate::diff::{
    apply_change_model, apply_seq_model, change_applicable, changes_model, collect_reverts,
    revert_change_model, revert_seq_model, seq_applicable, ChangeM, WorldChange,
};
use crate::ids::EntityId;
use crate::filter::WorldStreamFilter;
use crate::model::{content_eq, fresh_id, model_inv, usable_id, SlotM, WorldModel};

verus! {

/// Every component slot of the model is marked replicable, so a despawn
/// revert loses nothing.
pub open spec fn all_extended_model(m: WorldModel) -> bool {
    forall|id: EntityId, c: Component|
        #![trigger m.ents[id].dom().contains(c)]
        m.ents.dom().contains(id) && m.ents[id].dom().contains(c) ==> c.extended
}

/// Every component a change or the extra spawn data introduces is marked
/// replicable.
pub open spec fn change_data_extended(c: ChangeM) -> bool {
    match c {
        ChangeM::Spawn(_, data) => forall|c2: Component|
            #[trigger] data.dom().contains(c2) ==> c2.extended,
        ChangeM::Add(_, data) => forall|c2: Component|
            #[trigger] data.dom().contains(c2) ==> c2.extended,
        _ => true,
    }
}

pub open spec fn changes_data_extended(cs: Seq<ChangeM>) -> bool {
    forall|k: int| 0 <= k < cs.len() ==> change_data_extended(#[trigger] cs[k])
}

pub open spec fn extra_extended(extra: Map<Component, Value>) -> bool {
    forall|c: Component| #[trigger] extra.dom().contains(c) ==> c.extended
}

/// One change can be exactly undone: a mirrored spawn hits no existing id,
/// and added components do not overwrite existing slots (whose prior values a
/// removal revert would not restore).
pub open spec fn change_revertible(m: WorldModel, c: ChangeM) -> bool {
    match c {
        ChangeM::Spawn(opt, _) => opt is Some ==> !m.ents.dom().contains(opt->0),
        ChangeM::Add(id, data) => forall|c2: Component|
            #[trigger] data.dom().contains(c2) ==> !(m.ents.dom().contains(id)
                && m.ents[id].dom().contains(c2)),
        _ => true,
    }
}

/// Every change of the sequence is revertible when its turn comes.
pub open spec fn seq_revertible(m: WorldModel, cs: Seq<ChangeM>, extra: Map<Component, Value>) -> bool
    decreases cs.len(),
{
    if cs.len() == 0 {
        true
    } else {
        change_revertible(m, cs[0]) && seq_revertible(
            apply_change_model(m, cs[0], extra),
            cs.drop_first(),
            extra,
        )
    }
}

/// Applying a concatenation applies the two parts in turn.
pub proof fn lemma_apply_seq_concat(
    m: WorldModel,
    a: Seq<ChangeM>,
    b: Seq<ChangeM>,
    extra: Map<Component, Value>,
)
    ensures
        apply_seq_model(m, a + b, extra) == apply_seq_model(apply_seq_model(m, a, extra), b, extra),
    decreases a.len(),
{
    if a.len() == 0 {
        assert(a + b =~= b);
    } else {
        assert((a + b)[0] == a[0]);
        assert((a + b).drop_first() =~= a.drop_first() + b);
        lemma_apply_seq_concat(apply_change_model(m, a[0], extra), a.drop_first(), b, extra);
    }
}

pub proof fn lemma_content_eq_refl(a: WorldModel)
    ensures
        content_eq(a, a),
{
}

pub proof fn lemma_content_eq_trans(a: WorldModel, b: WorldModel, c: WorldModel)
    requires
        content_eq(a, b),
        content_eq(b, c),
    ensures
        content_eq(a, c),
{
    assert forall|id: EntityId, c2: Component|
        a.ents.dom().contains(id) implies (#[trigger] a.ents[id].dom().contains(c2)
        == #[trigger] c.ents[id].dom().contains(c2) && (a.ents[id].dom().contains(c2)
        ==> a.ents[id][c2].value == c.ents[id][c2].value)) by {
        assert(b.ents.dom().contains(id));
        assert(a.ents[id].dom().contains(c2) == b.ents[id].dom().contains(c2));
        assert(b.ents[id].dom().contains(c2) == c.ents[id].dom().contains(c2));
    }
}

/// Applying the same non-fresh-spawn change to two content-equal worlds
/// yields content-equal worlds.
pub proof fn lemma_apply_congruent(
    a: WorldModel,
    b: WorldModel,
    c: ChangeM,
    ea: Map<Component, Value>,
    eb: Map<Component, Value>,
)
    requires
        content_eq(a, b),
        !(c is Spawn && c->Spawn_0 is None),
        forall|c2: Component| ea.dom().contains(c2) == eb.dom().contains(c2),
        forall|c2: Component| #[trigger] ea.dom().contains(c2) ==> ea[c2] == eb[c2],
    ensures
        content_eq(apply_change_model(a, c, ea), apply_change_model(b, c, eb)),
{
    let a2 = apply_change_model(a, c, ea);
    let b2 = apply_change_model(b, c, eb);
    match c {
        ChangeM::Spawn(opt, data) => {
            let id = opt->0;
            assert(a.ents.dom().contains(id) == b.ents.dom().contains(id));
            if !a.ents.dom().contains(id) {
                assert forall|id2: EntityId|
                    a2.ents.dom().contains(id2) == #[trigger] b2.ents.dom().contains(id2) by {}
                assert forall|id2: EntityId, c2: Component|
                    a2.ents.dom().contains(id2) implies (#[trigger] a2.ents[id2].dom().contains(c2)
                    == #[trigger] b2.ents[id2].dom().contains(c2) && (a2.ents[id2].dom().contains(
                    c2,
                ) ==> a2.ents[id2][c2].value == b2.ents[id2][c2].value)) by {
                    if id2 == id {
                        assert(data.union_prefer_right(ea).dom().contains(c2)
                            == data.union_prefer_right(eb).dom().contains(c2));
                        if data.union_prefer_right(ea).dom().contains(c2) {
                            assert(data.union_prefer_right(ea)[c2] == data.union_prefer_right(
                                eb,
                            )[c2]);
                        }
                    } else {
                        assert(a.ents.dom().contains(id2));
                    }
                }
            }
        },
        ChangeM::Despawn(id) => {
            assert forall|id2: EntityId|
                a2.ents.dom().contains(id2) == #[trigger] b2.ents.dom().contains(id2) by {}
            assert forall|id2: EntityId, c2: Component|
                a2.ents.dom().contains(id2) implies (#[trigger] a2.ents[id2].dom().contains(c2)
                == #[trigger] b2.ents[id2].dom().contains(c2) && (a2.ents[id2].dom().contains(c2)
                ==> a2.ents[id2][c2].value == b2.ents[id2][c2].value)) by {
                assert(a.ents.dom().contains(id2));
            }
        },
        ChangeM::Add(id, data) => {
            assert(a.ents.dom().contains(id) == b.ents.dom().contains(id));
            assert forall|id2: EntityId|
                a2.ents.dom().contains(id2) == #[trigger] b2.ents.dom().contains(id2) by {}
            assert forall|id2: EntityId, c2: Component|
                a2.ents.dom().contains(id2) implies (#[trigger] a2.ents[id2].dom().contains(c2)
                == #[trigger] b2.ents[id2].dom().contains(c2) && (a2.ents[id2].dom().contains(c2)
                ==> a2.ents[id2][c2].value == b2.ents[id2][c2].value)) by {
                assert(a.ents.dom().contains(id2));
                if a.ents.dom().contains(id) && id2 == id {
                    assert(a.ents[id].dom().contains(c2) == b.ents[id].dom().contains(c2));
                }
            }
        },
        ChangeM::Remove(id, cs) => {
            assert(a.ents.dom().contains(id) == b.ents.dom().contains(id));
            assert forall|id2: EntityId|
                a2.ents.dom().contains(id2) == #[trigger] b2.ents.dom().contains(id2) by {}
            assert forall|id2: EntityId, c2: Component|
                a2.ents.dom().contains(id2) implies (#[trigger] a2.ents[id2].dom().contains(c2)
                == #[trigger] b2.ents[id2].dom().contains(c2) && (a2.ents[id2].dom().contains(c2)
                ==> a2.ents[id2][c2].value == b2.ents[id2][c2].value)) by {
                assert(a.ents.dom().contains(id2));
                if a.ents.dom().contains(id) && id2 == id {
                    assert(a.ents[id].dom().contains(c2) == b.ents[id].dom().contains(c2));
                }
            }
        },
        ChangeM::SetValue(id, comp, value) => {
            assert(a.ents.dom().contains(id) == b.ents.dom().contains(id));
            if a.ents.dom().contains(id) {
                assert(a.ents[id].dom().contains(comp) == b.ents[id].dom().contains(comp));
            }
            assert forall|id2: EntityId|
                a2.ents.dom().contains(id2) == #[trigger] b2.ents.dom().contains(id2) by {}
            assert forall|id2: EntityId, c2: Component|
                a2.ents.dom().contains(id2) implies (#[trigger] a2.ents[id2].dom().contains(c2)
                == #[trigger] b2.ents[id2].dom().contains(c2) && (a2.ents[id2].dom().contains(c2)
                ==> a2.ents[id2][c2].value == b2.ents[id2][c2].value)) by {
                assert(a.ents.dom().contains(id2));
                if a.ents.dom().contains(id) && id2 == id {
                    assert(a.ents[id].dom().contains(c2) == b.ents[id].dom().contains(c2));
                }
            }
        },
    }
}

/// Model well-formedness is preserved by applying an applicable change.
pub proof fn lemma_apply_preserves_model_inv(m: WorldModel, c: ChangeM, extra: Map<Component, Value>)
    requires
        model_inv(m),
        change_applicable(m, c),
    ensures
        model_inv(apply_change_model(m, c, extra)),
{
    let m2 = apply_change_model(m, c, extra);
    assert forall|id: EntityId, c2: Component|
        m2.ents.dom().contains(id) && #[trigger] m2.ents[id].dom().contains(c2) implies 1
        <= m2.ents[id][c2].cver <= m2.ver by {
        if m.ents.dom().contains(id) && m.ents[id].dom().contains(c2) {
            assert(1 <= m.ents[id][c2].cver <= m.ver);
        }
    }
    assert forall|id: EntityId|
        #[trigger] m2.ents.dom().contains(id) && id.id1 == u64::MAX implies id.id0 < m2.next by {
        if m.ents.dom().contains(id) {
            assert(id.id0 < m.next);
            assert(m.next <= m2.next) by {
                match c {
                    ChangeM::Spawn(opt, _) => {
                        if opt is Some {
                            assert(usable_id(opt->0));
                        }
                    },
                    _ => {},
                }
            }
        } else {
            match c {
                ChangeM::Spawn(opt, _) => {
                    if opt is None {
                        assert(id == fresh_id(m));
                        assert(m.next < u64::MAX);
                    } else {
                        assert(id == opt->0);
                        assert(usable_id(id));
                        assert(id.id0 < u64::MAX);
                    }
                },
                _ => {},
            }
        }
    }
}

/// Replicable marking of every slot is preserved when the applied data is
/// itself replicable-only.
pub proof fn lemma_apply_preserves_extended(m: WorldModel, c: ChangeM, extra: Map<Component, Value>)
    requires
        all_extended_model(m),
        change_data_extended(c),
        extra_extended(extra),
    ensures
        all_extended_model(apply_change_model(m, c, extra)),
{
    let m2 = apply_change_model(m, c, extra);
    assert forall|id: EntityId, c2: Component|
        m2.ents.dom().contains(id) && #[trigger] m2.ents[id].dom().contains(c2) implies
        c2.extended by {
        if m.ents.dom().contains(id) && m.ents[id].dom().contains(c2) {
        } else {
            match c {
                ChangeM::Spawn(opt, data) => {
                    assert(data.union_prefer_right(extra).dom().contains(c2));
                },
                ChangeM::Add(id3, data) => {
                    assert(data.dom().contains(c2));
                },
                _ => {},
            }
        }
    }
}

/// Undoing one applied change restores the world's content.
pub proof fn lemma_revert_one(m: WorldModel, c: ChangeM, extra: Map<Component, Value>)
    requires
        model_inv(m),
        all_extended_model(m),
        change_revertible(m, c),
        change_applicable(m, c),
        revert_change_model(m, c) is Some,
    ensures
        content_eq(
            apply_change_model(
                apply_change_model(m, c, extra),
                revert_change_model(m, c)->0,
                Map::empty(),
            ),
            m,
        ),
{
    let m1 = apply_change_model(m, c, extra);
    let rc = revert_change_model(m, c)->0;
    let m2 = apply_change_model(m1, rc, Map::empty());
    match c {
        ChangeM::Spawn(opt, data) => {
            let id = if opt is Some {
                opt->0
            } else {
                fresh_id(m)
            };
            if opt is None {
                if m.ents.dom().contains(fresh_id(m)) {
                    assert(fresh_id(m).id0 < m.next);
                    assert(false);
                }
            }
            assert(!m.ents.dom().contains(id));
            assert(m1.ents == m.ents.insert(
                id,
                crate::model::slots_of_data(data.union_prefer_right(extra), m.ver + 1),
            ));
            assert(rc == ChangeM::Despawn(id));
            assert(m2.ents =~= m.ents);
        },
        ChangeM::Despawn(id) => {
            assert(m.ents.dom().contains(id));
            let inner = m.ents[id];
            assert(rc == ChangeM::Spawn(Some(id), crate::diff::extended_values(inner)));
            assert(m1.ents == m.ents.remove(id));
            let restored = crate::model::slots_of_data(
                crate::diff::extended_values(inner).union_prefer_right(Map::empty()),
                m1.ver + 1,
            );
            assert(m2.ents == m1.ents.insert(id, restored));
            assert forall|id2: EntityId|
                m2.ents.dom().contains(id2) == #[trigger] m.ents.dom().contains(id2) by {}
            assert forall|id2: EntityId, c2: Component|
                m2.ents.dom().contains(id2) implies (#[trigger] m2.ents[id2].dom().contains(c2)
                == #[trigger] m.ents[id2].dom().contains(c2) && (m2.ents[id2].dom().contains(c2)
                ==> m2.ents[id2][c2].value == m.ents[id2][c2].value)) by {
                if id2 == id {
                    assert(crate::diff::extended_values(inner).union_prefer_right(
                        Map::<Component, Value>::empty(),
                    ).dom() =~= crate::diff::extended_values(inner).dom());
                    if m.ents[id].dom().contains(c2) {
                        assert(c2.extended);
                        assert(crate::diff::extended_values(inner).dom().contains(c2));
                    }
                    if restored.dom().contains(c2) {
                        assert(inner.dom().contains(c2));
                        assert(restored[c2].value == inner[c2].value);
                    }
                }
            }
        },
        ChangeM::Add(id, data) => {
            assert(rc == ChangeM::Remove(id, data.dom()));
            if !m.ents.dom().contains(id) {
                assert(m1 == m);
                assert(m2 == m1);
                lemma_content_eq_refl(m);
            } else {
                let inner = m.ents[id];
                assert(m1.ents == m.ents.insert(
                    id,
                    inner.union_prefer_right(crate::model::slots_of_data(data, m.ver + 1)),
                ));
                assert(m1.ents.dom().contains(id));
                assert(m2.ents == m1.ents.insert(id, m1.ents[id].remove_keys(data.dom())));
                assert forall|id2: EntityId|
                    m2.ents.dom().contains(id2) == #[trigger] m.ents.dom().contains(id2) by {}
                assert forall|id2: EntityId, c2: Component|
                    m2.ents.dom().contains(id2) implies (#[trigger] m2.ents[id2].dom().contains(
                    c2,
                ) == #[trigger] m.ents[id2].dom().contains(c2) && (m2.ents[id2].dom().contains(c2)
                    ==> m2.ents[id2][c2].value == m.ents[id2][c2].value)) by {
                    if id2 == id {
                        if data.dom().contains(c2) {
                            assert(!inner.dom().contains(c2));
                        }
                    }
                }
            }
        },
        ChangeM::Remove(id, cset) => {
            assert(rc == ChangeM::Add(id, crate::diff::restrict_values(m, id, cset)));
            if m.ents.dom().contains(id) {
                let inner = m.ents[id];
                assert(m1.ents == m.ents.insert(id, inner.remove_keys(cset)));
                assert(m1.ents.dom().contains(id));
                assert(m2.ents == m1.ents.insert(
                    id,
                    m1.ents[id].union_prefer_right(
                        crate::model::slots_of_data(
                            crate::diff::restrict_values(m, id, cset),
                            m1.ver + 1,
                        ),
                    ),
                ));
                assert forall|id2: EntityId|
                    m2.ents.dom().contains(id2) == #[trigger] m.ents.dom().contains(id2) by {}
                assert forall|id2: EntityId, c2: Component|
                    m2.ents.dom().contains(id2) implies (#[trigger] m2.ents[id2].dom().contains(c2)
                    == #[trigger] m.ents[id2].dom().contains(c2) && (m2.ents[id2].dom().contains(
                    c2,
                ) ==> m2.ents[id2][c2].value == m.ents[id2][c2].value)) by {}
            } else {
                assert(m1 == m);
                assert(crate::diff::restrict_values(m, id, cset).dom() =~= Set::<
                    Component,
                >::empty());
                assert(m2 == m1);
                lemma_content_eq_refl(m);
            }
        },
        ChangeM::SetValue(id, comp, value) => {
            assert(m.ents.dom().contains(id) && m.ents[id].dom().contains(comp));
            let inner = m.ents[id];
            assert(rc == ChangeM::SetValue(id, comp, inner[comp].value));
            assert(m1.ents == m.ents.insert(
                id,
                inner.insert(comp, SlotM { value, cver: m.ver + 1 }),
            ));
            assert(m2.ents == m1.ents.insert(
                id,
                m1.ents[id].insert(comp, SlotM { value: inner[comp].value, cver: m1.ver + 1 }),
            ));
            assert forall|id2: EntityId|
                m2.ents.dom().contains(id2) == #[trigger] m.ents.dom().contains(id2) by {}
            assert forall|id2: EntityId, c2: Component|
                m2.ents.dom().contains(id2) implies (#[trigger] m2.ents[id2].dom().contains(c2)
                == #[trigger] m.ents[id2].dom().contains(c2) && (m2.ents[id2].dom().contains(c2)
                ==> m2.ents[id2][c2].value == m.ents[id2][c2].value)) by {}
        },
    }
}

/// Revert idempotence: applying a diff with reverts requested, then applying
/// the returned revert diff, restores the world's content, for all change
/// kinds including chained spawn-then-set within the same diff. It asks that
/// every slot be replicable (a despawn revert captures only replicable
/// values), that mirrored spawns hit no existing id, and that added
/// components do not overwrite existing slots.
pub proof fn lemma_revert_restores(m: WorldModel, cs: Seq<ChangeM>, extra: Map<Component, Value>)
    requires
        model_inv(m),
        all_extended_model(m),
        extra_extended(extra),
        changes_data_extended(cs),
        seq_applicable(m, cs, extra),
        seq_revertible(m, cs, extra),
    ensures
        content_eq(
            apply_seq_model(
                apply_seq_model(m, cs, extra),
                revert_seq_model(m, cs, extra),
                Map::empty(),
            ),
            m,
        ),
    decreases cs.len(),
{
    let fwd = apply_seq_model(m, cs, extra);
    if cs.len() == 0 {
        assert(collect_reverts(m, cs, extra) =~= Seq::<ChangeM>::empty());
        assert(revert_seq_model(m, cs, extra) =~= Seq::<ChangeM>::empty());
        lemma_content_eq_refl(m);
    } else {
        let c = cs[0];
        let rest = cs.drop_first();
        let m1 = apply_change_model(m, c, extra);
        lemma_apply_preserves_model_inv(m, c, extra);
        lemma_apply_preserves_extended(m, c, extra);
        assert(changes_data_extended(rest)) by {
            assert forall|k: int| 0 <= k < rest.len() implies change_data_extended(
                #[trigger] rest[k],
            ) by {
                assert(rest[k] == cs[k + 1]);
            }
        }
        lemma_revert_restores(m1, rest, extra);
        let head = match revert_change_model(m, c) {
            Some(rc) => seq![rc],
            None => Seq::<ChangeM>::empty(),
        };
        assert(collect_reverts(m, cs, extra) == head + collect_reverts(m1, rest, extra));
        assert(revert_seq_model(m, cs, extra) =~= revert_seq_model(m1, rest, extra) + head.reverse())
            by {
            assert((head + collect_reverts(m1, rest, extra)).reverse() =~= collect_reverts(
                m1,
                rest,
                extra,
            ).reverse() + head.reverse());
        }
        lemma_apply_seq_concat(fwd, revert_seq_model(m1, rest, extra), head.reverse(), Map::empty());
        let x = apply_seq_model(fwd, revert_seq_model(m1, rest, extra), Map::empty());
        assert(content_eq(x, m1));
        match revert_change_model(m, c) {
            Some(rc) => {
                assert(head.reverse() =~= seq![rc]);
                let y = apply_change_model(x, rc, Map::empty());
                assert(seq![rc].len() == 1);
                assert(seq![rc][0] == rc);
                assert(apply_seq_model(x, seq![rc], Map::empty()) == apply_seq_model(
                    y,
                    seq![rc].drop_first(),
                    Map::empty(),
                ));
                assert(seq![rc].drop_first().len() == 0);
                assert(apply_seq_model(x, seq![rc], Map::empty()) == y);
                assert(!(rc is Spawn && rc->Spawn_0 is None));
                lemma_apply_congruent(x, m1, rc, Map::empty(), Map::empty());
                lemma_revert_one(m, c, extra);
                lemma_content_eq_trans(
                    apply_change_model(x, rc, Map::empty()),
                    apply_change_model(m1, rc, Map::empty()),
                    m,
                );
            },
            None => {
                assert(head.reverse() =~= Seq::<ChangeM>::empty());
                assert(apply_seq_model(x, head.reverse(), Map::empty()) == x);
                match c {
                    ChangeM::Despawn(id) => {
                        assert(!m.ents.dom().contains(id));
                        assert(m1 == m);
                    },
                    ChangeM::SetValue(id, comp, _) => {
                        assert(m1 == m);
                    },
                    _ => {
                        assert(false);
                    },
                }
            },
        }
    }
}

/// Despawn-before-spawn ordering: in a diff produced by the two-world
/// difference, every despawn precedes every spawn.
pub proof fn lemma_despawns_before_spawns(
    f: crate::filter::WorldStreamFilter,
    mf: WorldModel,
    mt: WorldModel,
    cs: Seq<WorldChange>,
)
    requires
        crate::diff::a2b_changes_ok(f, mf, mt, cs),
    ensures
        forall|k1: int, k2: int|
            0 <= k1 < k2 < cs.len() && (#[trigger] cs[k1]) is Spawn ==> !((#[trigger] cs[k2])
                is Despawn),
{
    assert forall|k1: int, k2: int|
        0 <= k1 < k2 < cs.len() && (#[trigger] cs[k1]) is Spawn implies !((#[trigger] cs[k2])
        is Despawn) by {
        assert(crate::diff::change_rank(cs[k1]) <= crate::diff::change_rank(cs[k2]));
    }
}


/// Two worlds look the same to a peer: the same visible entities, and for
/// each the same bootstrap-visible components and values.
pub open spec fn visible_eq(f: WorldStreamFilter, a: WorldModel, b: WorldModel) -> bool {
    &&& forall|id: EntityId|
        #![trigger f.vis(a, id)]
        #![trigger f.vis(b, id)]
        f.vis(a, id) == f.vis(b, id)
    &&& forall|id: EntityId, c: Component|
        #![trigger f.vis_dom(a, id).contains(c)]
        #![trigger f.vis_dom(b, id).contains(c)]
        f.vis(a, id) && f.vis(b, id) ==> (f.vis_dom(a, id).contains(c) == f.vis_dom(
            b,
            id,
        ).contains(c) && (f.vis_dom(a, id).contains(c) ==> a.ents[id][c].value
            == b.ents[id][c].value))
}

pub open spec fn proc_despawn(cs: Seq<WorldChange>, p: int, id: EntityId) -> bool {
    exists|k: int| 0 <= k < p && #[trigger] cs[k] == WorldChange::Despawn(id)
}

pub open spec fn proc_spawn(cs: Seq<WorldChange>, p: int, id: EntityId) -> bool {
    exists|k: int| 0 <= k < p && (#[trigger] cs[k]) is Spawn && cs[k]->Spawn_0 == Some(id)
}

pub open spec fn proc_add(cs: Seq<WorldChange>, p: int, id: EntityId) -> bool {
    exists|k: int|
        0 <= k < p && (#[trigger] cs[k]) is AddComponents && cs[k]->AddComponents_0 == id
}

pub open spec fn proc_remove(cs: Seq<WorldChange>, p: int, id: EntityId) -> bool {
    exists|k: int|
        0 <= k < p && (#[trigger] cs[k]) is RemoveComponents && cs[k]->RemoveComponents_0 == id
}

pub open spec fn proc_set(cs: Seq<WorldChange>, p: int, id: EntityId, c: Component) -> bool {
    exists|k: int|
        0 <= k < p && (#[trigger] cs[k]) is SetValue && cs[k]->SetValue_0 == id && (
        cs[k]->SetValue_1).component == c
}

/// The state of one entity row after the first `p` changes of a two-world
/// diff were applied.
pub open spec fn row_ok(
    f: WorldStreamFilter,
    mf: WorldModel,
    mt: WorldModel,
    cs: Seq<WorldChange>,
    p: int,
    mid: WorldModel,
    id: EntityId,
) -> bool {
    if f.vis(mf, id) && !f.vis(mt, id) {
        &&& mid.ents.dom().contains(id) == !proc_despawn(cs, p, id)
        &&& (mid.ents.dom().contains(id) ==> mid.ents[id] == mf.ents[id])
    } else if f.vis(mt, id) && !f.vis(mf, id) {
        mid.ents.dom().contains(id) == proc_spawn(cs, p, id)
    } else if f.vis(mf, id) && f.vis(mt, id) {
        mid.ents.dom().contains(id)
    } else {
        &&& mid.ents.dom().contains(id) == mf.ents.dom().contains(id)
        &&& (mid.ents.dom().contains(id) ==> mid.ents[id] == mf.ents[id])
    }
}

/// The state of one component cell after the first `p` changes of a
/// two-world diff were applied.
pub open spec fn cell_ok(
    f: WorldStreamFilter,
    mf: WorldModel,
    mt: WorldModel,
    cs: Seq<WorldChange>,
    p: int,
    mid: WorldModel,
    id: EntityId,
    c: Component,
) -> bool {
    if f.vis(mf, id) && f.vis(mt, id) {
        let fvd = f.vis_dom(mf, id);
        let tvd = f.vis_dom(mt, id);
        if tvd.contains(c) && !fvd.contains(c) {
            &&& mid.ents[id].dom().contains(c) == (mf.ents[id].dom().contains(c) || proc_add(
                cs,
                p,
                id,
            ))
            &&& (proc_add(cs, p, id) ==> mid.ents[id][c].value == mt.ents[id][c].value)
            &&& (!proc_add(cs, p, id) && mf.ents[id].dom().contains(c) ==> mid.ents[id][c].value
                == mf.ents[id][c].value)
        } else if fvd.contains(c) && !tvd.contains(c) {
            &&& mid.ents[id].dom().contains(c) == !proc_remove(cs, p, id)
            &&& (!proc_remove(cs, p, id) ==> mid.ents[id][c].value == mf.ents[id][c].value)
        } else if fvd.contains(c) && tvd.contains(c) {
            if mf.ents[id][c].cver != mt.ents[id][c].cver {
                &&& mid.ents[id].dom().contains(c)
                &&& (proc_set(cs, p, id, c) ==> mid.ents[id][c].value == mt.ents[id][c].value)
                &&& (!proc_set(cs, p, id, c) ==> mid.ents[id][c].value == mf.ents[id][c].value)
            } else {
                &&& mid.ents[id].dom().contains(c)
                &&& mid.ents[id][c].value == mf.ents[id][c].value
            }
        } else {
            &&& mid.ents[id].dom().contains(c) == mf.ents[id].dom().contains(c)
            &&& (mid.ents[id].dom().contains(c) ==> mid.ents[id][c].value
                == mf.ents[id][c].value)
        }
    } else if f.vis(mt, id) && !f.vis(mf, id) {
        mid.ents.dom().contains(id) ==> ((mid.ents[id].dom().contains(c) == f.vis_dom(
            mt,
            id,
        ).contains(c)) && (mid.ents[id].dom().contains(c) ==> mid.ents[id][c].value
            == mt.ents[id][c].value))
    } else {
        true
    }
}

/// The whole mid-application state of a two-world diff.
pub open spec fn rt_inv(
    f: WorldStreamFilter,
    mf: WorldModel,
    mt: WorldModel,
    cs: Seq<WorldChange>,
    p: int,
    mid: WorldModel,
) -> bool {
    &&& forall|id: EntityId| #[trigger] row_ok(f, mf, mt, cs, p, mid, id)
    &&& forall|id: EntityId, c: Component| #[trigger] cell_ok(f, mf, mt, cs, p, mid, id, c)
}

/// How each processed-prefix predicate grows by one position.
proof fn lemma_proc_step(cs: Seq<WorldChange>, p: int)
    requires
        0 <= p < cs.len(),
    ensures
        forall|id: EntityId|
            #![trigger proc_despawn(cs, p + 1, id)]
            proc_despawn(cs, p + 1, id) == (proc_despawn(cs, p, id) || cs[p]
                == WorldChange::Despawn(id)),
        forall|id: EntityId|
            #![trigger proc_spawn(cs, p + 1, id)]
            proc_spawn(cs, p + 1, id) == (proc_spawn(cs, p, id) || (cs[p] is Spawn
                && cs[p]->Spawn_0 == Some(id))),
        forall|id: EntityId|
            #![trigger proc_add(cs, p + 1, id)]
            proc_add(cs, p + 1, id) == (proc_add(cs, p, id) || (cs[p] is AddComponents
                && cs[p]->AddComponents_0 == id)),
        forall|id: EntityId|
            #![trigger proc_remove(cs, p + 1, id)]
            proc_remove(cs, p + 1, id) == (proc_remove(cs, p, id) || (cs[p] is RemoveComponents
                && cs[p]->RemoveComponents_0 == id)),
        forall|id: EntityId, c: Component|
            #![trigger proc_set(cs, p + 1, id, c)]
            proc_set(cs, p + 1, id, c) == (proc_set(cs, p, id, c) || (cs[p] is SetValue
                && cs[p]->SetValue_0 == id && (cs[p]->SetValue_1).component == c)),
{
    assert forall|id: EntityId|
        #[trigger] proc_despawn(cs, p + 1, id) implies (proc_despawn(cs, p, id) || cs[p]
        == WorldChange::Despawn(id)) by {
        let k = choose|k: int| 0 <= k < p + 1 && #[trigger] cs[k] == WorldChange::Despawn(id);
        if k < p {
            assert(proc_despawn(cs, p, id));
        }
    }
    assert forall|id: EntityId|
        (proc_despawn(cs, p, id) || cs[p] == WorldChange::Despawn(id)) implies #[trigger]
        proc_despawn(cs, p + 1, id) by {
        if proc_despawn(cs, p, id) {
            let k = choose|k: int| 0 <= k < p && #[trigger] cs[k] == WorldChange::Despawn(id);
            assert(0 <= k < p + 1 && cs[k] == WorldChange::Despawn(id));
        } else {
            assert(0 <= p < p + 1 && cs[p] == WorldChange::Despawn(id));
        }
    }
    assert forall|id: EntityId|
        #[trigger] proc_spawn(cs, p + 1, id) implies (proc_spawn(cs, p, id) || (cs[p] is Spawn
        && cs[p]->Spawn_0 == Some(id))) by {
        let k = choose|k: int|
            0 <= k < p + 1 && (#[trigger] cs[k]) is Spawn && cs[k]->Spawn_0 == Some(id);
        if k < p {
            assert(proc_spawn(cs, p, id));
        }
    }
    assert forall|id: EntityId|
        (proc_spawn(cs, p, id) || (cs[p] is Spawn && cs[p]->Spawn_0 == Some(id))) implies
        #[trigger] proc_spawn(cs, p + 1, id) by {
        if proc_spawn(cs, p, id) {
            let k = choose|k: int|
                0 <= k < p && (#[trigger] cs[k]) is Spawn && cs[k]->Spawn_0 == Some(id);
            assert(0 <= k < p + 1 && cs[k] is Spawn && cs[k]->Spawn_0 == Some(id));
        } else {
            assert(0 <= p < p + 1 && cs[p] is Spawn && cs[p]->Spawn_0 == Some(id));
        }
    }
    assert forall|id: EntityId|
        #[trigger] proc_add(cs, p + 1, id) implies (proc_add(cs, p, id) || (cs[p]
        is AddComponents && cs[p]->AddComponents_0 == id)) by {
        let k = choose|k: int|
            0 <= k < p + 1 && (#[trigger] cs[k]) is AddComponents && cs[k]->AddComponents_0 == id;
        if k < p {
            assert(proc_add(cs, p, id));
        }
    }
    assert forall|id: EntityId|
        (proc_add(cs, p, id) || (cs[p] is AddComponents && cs[p]->AddComponents_0 == id)) implies
        #[trigger] proc_add(cs, p + 1, id) by {
        if proc_add(cs, p, id) {
            let k = choose|k: int|
                0 <= k < p && (#[trigger] cs[k]) is AddComponents && cs[k]->AddComponents_0 == id;
            assert(0 <= k < p + 1 && cs[k] is AddComponents && cs[k]->AddComponents_0 == id);
        } else {
            assert(0 <= p < p + 1 && cs[p] is AddComponents && cs[p]->AddComponents_0 == id);
        }
    }
    assert forall|id: EntityId|
        #[trigger] proc_remove(cs, p + 1, id) implies (proc_remove(cs, p, id) || (cs[p]
        is RemoveComponents && cs[p]->RemoveComponents_0 == id)) by {
        let k = choose|k: int|
            0 <= k < p + 1 && (#[trigger] cs[k]) is RemoveComponents
                && cs[k]->RemoveComponents_0 == id;
        if k < p {
            assert(proc_remove(cs, p, id));
        }
    }
    assert forall|id: EntityId|
        (proc_remove(cs, p, id) || (cs[p] is RemoveComponents && cs[p]->RemoveComponents_0
            == id)) implies #[trigger] proc_remove(cs, p + 1, id) by {
        if proc_remove(cs, p, id) {
            let k = choose|k: int|
                0 <= k < p && (#[trigger] cs[k]) is RemoveComponents
                    && cs[k]->RemoveComponents_0 == id;
            assert(0 <= k < p + 1 && cs[k] is RemoveComponents && cs[k]->RemoveComponents_0 == id);
        } else {
            assert(0 <= p < p + 1 && cs[p] is RemoveComponents && cs[p]->RemoveComponents_0 == id);
        }
    }
    assert forall|id: EntityId, c: Component|
        #[trigger] proc_set(cs, p + 1, id, c) implies (proc_set(cs, p, id, c) || (cs[p]
        is SetValue && cs[p]->SetValue_0 == id && (cs[p]->SetValue_1).component == c)) by {
        let k = choose|k: int|
            0 <= k < p + 1 && (#[trigger] cs[k]) is SetValue && cs[k]->SetValue_0 == id && (
            cs[k]->SetValue_1).component == c;
        if k < p {
            assert(proc_set(cs, p, id, c));
        }
    }
    assert forall|id: EntityId, c: Component|
        (proc_set(cs, p, id, c) || (cs[p] is SetValue && cs[p]->SetValue_0 == id && (
        cs[p]->SetValue_1).component == c)) implies #[trigger] proc_set(cs, p + 1, id, c) by {
        if proc_set(cs, p, id, c) {
            let k = choose|k: int|
                0 <= k < p && (#[trigger] cs[k]) is SetValue && cs[k]->SetValue_0 == id && (
                cs[k]->SetValue_1).component == c;
            assert(0 <= k < p + 1 && cs[k] is SetValue && cs[k]->SetValue_0 == id && (
            cs[k]->SetValue_1).component == c);
        } else {
            assert(0 <= p < p + 1 && cs[p] is SetValue && cs[p]->SetValue_0 == id && (
            cs[p]->SetValue_1).component == c);
        }
    }
}


/// One step of applying a two-world diff preserves the mid-application
/// state.
#[verifier::rlimit(100)]
proof fn lemma_rt_step(
    f: WorldStreamFilter,
    mf: WorldModel,
    mt: WorldModel,
    cs: Seq<WorldChange>,
    p: int,
    mid: WorldModel,
)
    requires
        crate::diff::a2b_changes_ok(f, mf, mt, cs),
        0 <= p < cs.len(),
        rt_inv(f, mf, mt, cs, p, mid),
    ensures
        rt_inv(
            f,
            mf,
            mt,
            cs,
            p + 1,
            apply_change_model(mid, cs[p].model(), Map::empty()),
        ),
{
    lemma_proc_step(cs, p);
    let mid2 = apply_change_model(mid, cs[p].model(), Map::empty());
    assert(crate::diff::a2b_change_ok(f, mf, mt, cs[p]));
    match cs[p] {
        WorldChange::Despawn(id0) => {
            assert(!proc_despawn(cs, p, id0)) by {
                if proc_despawn(cs, p, id0) {
                    let k = choose|k: int|
                        0 <= k < p && #[trigger] cs[k] == WorldChange::Despawn(id0);
                    assert(crate::diff::distinct_changes(cs[k], cs[p]));
                }
            }
            assert(row_ok(f, mf, mt, cs, p, mid, id0));
            assert(mid.ents.dom().contains(id0));
            assert(mid2.ents == mid.ents.remove(id0));
            assert forall|id: EntityId| #[trigger] row_ok(f, mf, mt, cs, p + 1, mid2, id) by {
                assert(row_ok(f, mf, mt, cs, p, mid, id));
            }
            assert forall|id: EntityId, c: Component| #[trigger] cell_ok(
                f,
                mf,
                mt,
                cs,
                p + 1,
                mid2,
                id,
                c,
            ) by {
                assert(cell_ok(f, mf, mt, cs, p, mid, id, c));
                assert(row_ok(f, mf, mt, cs, p, mid, id));
            }
        },
        WorldChange::Spawn(opt, d) => {
            let id0 = opt->0;
            assert(!proc_spawn(cs, p, id0)) by {
                if proc_spawn(cs, p, id0) {
                    let k = choose|k: int|
                        0 <= k < p && (#[trigger] cs[k]) is Spawn && cs[k]->Spawn_0 == Some(id0);
                    assert(crate::diff::distinct_changes(cs[k], cs[p]));
                }
            }
            assert(row_ok(f, mf, mt, cs, p, mid, id0));
            assert(!mid.ents.dom().contains(id0));
            let row = crate::model::slots_of_data(
                d.map_view().union_prefer_right(Map::empty()),
                mid.ver + 1,
            );
            assert(mid2.ents == mid.ents.insert(id0, row));
            assert(d.map_view().union_prefer_right(Map::<Component, Value>::empty()).dom()
                =~= d.map_view().dom());
            assert forall|c: Component|
                #[trigger] d.map_view().dom().contains(c) implies d.map_view().union_prefer_right(
                Map::<Component, Value>::empty(),
            )[c] == d.map_view()[c] by {}
            assert forall|id: EntityId| #[trigger] row_ok(f, mf, mt, cs, p + 1, mid2, id) by {
                assert(row_ok(f, mf, mt, cs, p, mid, id));
            }
            assert forall|id: EntityId, c: Component| #[trigger] cell_ok(
                f,
                mf,
                mt,
                cs,
                p + 1,
                mid2,
                id,
                c,
            ) by {
                assert(cell_ok(f, mf, mt, cs, p, mid, id, c));
                assert(row_ok(f, mf, mt, cs, p, mid, id));
                if id == id0 {
                    assert(f.vis(mt, id0) && !f.vis(mf, id0));
                    assert(d.map_view() == f.vis_vals(mt, id0));
                    assert(mid2.ents[id0] == row);
                    assert(row.dom().contains(c) == f.vis_dom(mt, id0).contains(c));
                    if row.dom().contains(c) {
                        assert(row[c].value == f.vis_vals(mt, id0)[c]);
                        assert(row[c].value == mt.ents[id0][c].value);
                    }
                }
            }
        },
        WorldChange::AddComponents(id0, d) => {
            assert(!proc_add(cs, p, id0)) by {
                if proc_add(cs, p, id0) {
                    let k = choose|k: int|
                        0 <= k < p && (#[trigger] cs[k]) is AddComponents
                            && cs[k]->AddComponents_0 == id0;
                    assert(crate::diff::distinct_changes(cs[k], cs[p]));
                }
            }
            assert(f.vis(mf, id0) && f.vis(mt, id0));
            assert(row_ok(f, mf, mt, cs, p, mid, id0));
            assert(mid.ents.dom().contains(id0));
            let addm = crate::model::slots_of_data(d.map_view(), mid.ver + 1);
            assert(mid2.ents == mid.ents.insert(id0, mid.ents[id0].union_prefer_right(addm)));
            assert(d.map_view() == crate::diff::added_vals(f, mf, mt, id0));
            assert forall|id: EntityId| #[trigger] row_ok(f, mf, mt, cs, p + 1, mid2, id) by {
                assert(row_ok(f, mf, mt, cs, p, mid, id));
            }
            assert forall|id: EntityId, c: Component| #[trigger] cell_ok(
                f,
                mf,
                mt,
                cs,
                p + 1,
                mid2,
                id,
                c,
            ) by {
                assert(cell_ok(f, mf, mt, cs, p, mid, id, c));
                assert(row_ok(f, mf, mt, cs, p, mid, id));
                if id == id0 {
                    let fvd = f.vis_dom(mf, id0);
                    let tvd = f.vis_dom(mt, id0);
                    assert(addm.dom().contains(c) == (tvd.contains(c) && !fvd.contains(c)));
                    if tvd.contains(c) && !fvd.contains(c) {
                        assert(mid2.ents[id0].dom().contains(c));
                        assert(mid2.ents[id0][c] == addm[c]);
                        assert(mid2.ents[id0][c].value == mt.ents[id0][c].value);
                    } else {
                        assert(mid2.ents[id0].dom().contains(c) == mid.ents[id0].dom().contains(
                            c,
                        ));
                        if mid.ents[id0].dom().contains(c) {
                            assert(mid2.ents[id0][c] == mid.ents[id0][c]);
                        }
                    }
                }
            }
        },
        WorldChange::RemoveComponents(id0, comps) => {
            assert(!proc_remove(cs, p, id0)) by {
                if proc_remove(cs, p, id0) {
                    let k = choose|k: int|
                        0 <= k < p && (#[trigger] cs[k]) is RemoveComponents
                            && cs[k]->RemoveComponents_0 == id0;
                    assert(crate::diff::distinct_changes(cs[k], cs[p]));
                }
            }
            assert(f.vis(mf, id0) && f.vis(mt, id0));
            assert(row_ok(f, mf, mt, cs, p, mid, id0));
            assert(mid.ents.dom().contains(id0));
            let cset = comps@.to_set();
            assert(cset == crate::diff::removed_set(f, mf, mt, id0));
            assert(mid2.ents == mid.ents.insert(id0, mid.ents[id0].remove_keys(cset)));
            assert forall|id: EntityId| #[trigger] row_ok(f, mf, mt, cs, p + 1, mid2, id) by {
                assert(row_ok(f, mf, mt, cs, p, mid, id));
            }
            assert forall|id: EntityId, c: Component| #[trigger] cell_ok(
                f,
                mf,
                mt,
                cs,
                p + 1,
                mid2,
                id,
                c,
            ) by {
                assert(cell_ok(f, mf, mt, cs, p, mid, id, c));
                assert(row_ok(f, mf, mt, cs, p, mid, id));
                if id == id0 {
                    let fvd = f.vis_dom(mf, id0);
                    let tvd = f.vis_dom(mt, id0);
                    assert(cset.contains(c) == (fvd.contains(c) && !tvd.contains(c)));
                    if cset.contains(c) {
                        assert(!mid2.ents[id0].dom().contains(c));
                    } else {
                        assert(mid2.ents[id0].dom().contains(c) == mid.ents[id0].dom().contains(
                            c,
                        ));
                        if mid.ents[id0].dom().contains(c) {
                            assert(mid2.ents[id0][c] == mid.ents[id0][c]);
                        }
                    }
                }
            }
        },
        WorldChange::SetValue(id0, u) => {
            let c0 = u.component;
            assert(f.vis(mf, id0) && f.vis(mt, id0));
            assert(f.vis_dom(mf, id0).contains(c0) && f.vis_dom(mt, id0).contains(c0));
            assert(mf.ents[id0][c0].cver != mt.ents[id0][c0].cver);
            assert(row_ok(f, mf, mt, cs, p, mid, id0));
            assert(mid.ents.dom().contains(id0));
            assert(cell_ok(f, mf, mt, cs, p, mid, id0, c0));
            assert(mid.ents[id0].dom().contains(c0));
            assert(mid2.ents == mid.ents.insert(
                id0,
                mid.ents[id0].insert(c0, SlotM { value: u.value, cver: mid.ver + 1 }),
            ));
            assert forall|id: EntityId| #[trigger] row_ok(f, mf, mt, cs, p + 1, mid2, id) by {
                assert(row_ok(f, mf, mt, cs, p, mid, id));
            }
            assert forall|id: EntityId, c: Component| #[trigger] cell_ok(
                f,
                mf,
                mt,
                cs,
                p + 1,
                mid2,
                id,
                c,
            ) by {
                assert(cell_ok(f, mf, mt, cs, p, mid, id, c));
                assert(row_ok(f, mf, mt, cs, p, mid, id));
                if id == id0 {
                    if c == c0 {
                        assert(mid2.ents[id0].dom().contains(c0));
                        assert(mid2.ents[id0][c0].value == u.value);
                        assert(u.value == mt.ents[id0][c0].value);
                    } else {
                        assert(mid2.ents[id0].dom().contains(c) == mid.ents[id0].dom().contains(
                            c,
                        ));
                        if mid.ents[id0].dom().contains(c) {
                            assert(mid2.ents[id0][c] == mid.ents[id0][c]);
                        }
                    }
                }
            }
        },
    }
}


/// Before any change is applied, the `from` world itself satisfies the
/// mid-application state, provided no entity hidden in `from` is visible in
/// `to`.
proof fn lemma_rt_base(f: WorldStreamFilter, mf: WorldModel, mt: WorldModel, cs: Seq<WorldChange>)
    requires
        forall|id: EntityId|
            f.vis(mt, id) && #[trigger] mf.ents.dom().contains(id) ==> f.vis(mf, id),
    ensures
        rt_inv(f, mf, mt, cs, 0, mf),
{
    assert forall|id: EntityId| #[trigger] row_ok(f, mf, mt, cs, 0, mf, id) by {
        if f.vis(mt, id) && !f.vis(mf, id) {
            if mf.ents.dom().contains(id) {
                assert(f.vis(mf, id));
            }
            assert(!proc_spawn(cs, 0, id));
        }
    }
    assert forall|id: EntityId, c: Component| #[trigger] cell_ok(f, mf, mt, cs, 0, mf, id, c) by {
        if f.vis(mf, id) && !f.vis(mt, id) {
        } else if f.vis(mt, id) && !f.vis(mf, id) {
            if mf.ents.dom().contains(id) {
                assert(f.vis(mf, id));
            }
        } else if f.vis(mf, id) && f.vis(mt, id) {
            let fvd = f.vis_dom(mf, id);
            if fvd.contains(c) {
                assert(mf.ents[id].dom().contains(c));
            }
        }
    }
}

/// Applying the remaining suffix of a two-world diff carries the
/// mid-application state to the end.
proof fn lemma_rt_run(
    f: WorldStreamFilter,
    mf: WorldModel,
    mt: WorldModel,
    cs: Seq<WorldChange>,
    p: int,
    mid: WorldModel,
)
    requires
        crate::diff::a2b_changes_ok(f, mf, mt, cs),
        0 <= p <= cs.len(),
        rt_inv(f, mf, mt, cs, p, mid),
    ensures
        rt_inv(
            f,
            mf,
            mt,
            cs,
            cs.len() as int,
            apply_seq_model(mid, changes_model(cs).skip(p), Map::empty()),
        ),
    decreases cs.len() - p,
{
    let ms = changes_model(cs).skip(p);
    if p == cs.len() {
        assert(ms =~= Seq::<ChangeM>::empty());
    } else {
        assert(ms[0] == changes_model(cs)[p]);
        assert(changes_model(cs)[p] == cs[p].model());
        lemma_rt_step(f, mf, mt, cs, p, mid);
        let mid2 = apply_change_model(mid, cs[p].model(), Map::empty());
        assert(ms.drop_first() =~= changes_model(cs).skip(p + 1));
        lemma_rt_run(f, mf, mt, cs, p + 1, mid2);
    }
}

/// After a complete two-world diff is applied, the result looks to the peer
/// exactly like the `to` world.
#[verifier::rlimit(100)]
proof fn lemma_rt_final(
    f: WorldStreamFilter,
    mf: WorldModel,
    mt: WorldModel,
    cs: Seq<WorldChange>,
    m2: WorldModel,
)
    requires
        crate::diff::a2b_changes_ok(f, mf, mt, cs),
        crate::diff::a2b_complete(f, mf, mt, cs),
        rt_inv(f, mf, mt, cs, cs.len() as int, m2),
        forall|id: EntityId, c: Component|
            #![trigger f.vis_dom(mf, id).contains(c), f.vis_dom(mt, id).contains(c)]
            f.vis(mf, id) && f.vis(mt, id) && f.vis_dom(mf, id).contains(c) && f.vis_dom(
                mt,
                id,
            ).contains(c) && mf.ents[id][c].cver == mt.ents[id][c].cver ==> mf.ents[id][c].value
                == mt.ents[id][c].value,
        forall|i: int|
            0 <= i < f.arch_filter.incl@.len() ==> f.allows(
                #[trigger] f.arch_filter.incl@[i],
                crate::filter::WorldStreamCompEvent::Init,
            ),
    ensures
        visible_eq(f, m2, mt),
{
    let n = cs.len() as int;
    // Membership of each cell of `m2`, by class.
    assert forall|id: EntityId| #[trigger] f.vis(m2, id) == #[trigger] f.vis(mt, id) by {
        assert(row_ok(f, mf, mt, cs, n, m2, id));
        if f.vis(mf, id) && !f.vis(mt, id) {
            assert(cs.contains(WorldChange::Despawn(id)));
            let k = choose|k: int| 0 <= k < n && #[trigger] cs[k] == WorldChange::Despawn(id);
            assert(proc_despawn(cs, n, id));
            assert(!m2.ents.dom().contains(id));
        } else if f.vis(mt, id) && !f.vis(mf, id) {
            let k = choose|k: int|
                0 <= k < n && (#[trigger] cs[k]) is Spawn && cs[k]->Spawn_0 == Some(id);
            assert(proc_spawn(cs, n, id));
            assert(m2.ents.dom().contains(id));
            assert forall|i: int|
                0 <= i < f.arch_filter.incl@.len() implies m2.ents[id].dom().contains(
                #[trigger] f.arch_filter.incl@[i],
            ) by {
                let c = f.arch_filter.incl@[i];
                assert(mt.ents[id].dom().contains(c));
                assert(f.vis_dom(mt, id).contains(c));
                assert(cell_ok(f, mf, mt, cs, n, m2, id, c));
            }
            assert forall|i: int|
                0 <= i < f.arch_filter.excl@.len() implies !m2.ents[id].dom().contains(
                #[trigger] f.arch_filter.excl@[i],
            ) by {
                let c = f.arch_filter.excl@[i];
                assert(!mt.ents[id].dom().contains(c));
                assert(!f.vis_dom(mt, id).contains(c));
                assert(cell_ok(f, mf, mt, cs, n, m2, id, c));
            }
            assert(f.arch_filter.matches_spec(m2.ents[id].dom()));
        } else if f.vis(mf, id) && f.vis(mt, id) {
            assert(m2.ents.dom().contains(id));
            assert forall|i: int|
                0 <= i < f.arch_filter.incl@.len() implies m2.ents[id].dom().contains(
                #[trigger] f.arch_filter.incl@[i],
            ) by {
                let c = f.arch_filter.incl@[i];
                assert(mt.ents[id].dom().contains(c));
                assert(f.vis_dom(mt, id).contains(c));
                assert(cell_ok(f, mf, mt, cs, n, m2, id, c));
                let tvd = f.vis_dom(mt, id);
                let fvd = f.vis_dom(mf, id);
                if tvd.contains(c) && !fvd.contains(c) {
                    assert(crate::diff::added_vals(f, mf, mt, id).dom().contains(c));
                    assert(crate::diff::added_vals(f, mf, mt, id).dom() !~= Set::<
                        Component,
                    >::empty());
                    let k = choose|k: int|
                        0 <= k < n && (#[trigger] cs[k]) is AddComponents
                            && cs[k]->AddComponents_0 == id;
                    assert(proc_add(cs, n, id));
                } else {
                    assert(mf.ents[id].dom().contains(c));
                }
            }
            assert forall|i: int|
                0 <= i < f.arch_filter.excl@.len() implies !m2.ents[id].dom().contains(
                #[trigger] f.arch_filter.excl@[i],
            ) by {
                let c = f.arch_filter.excl@[i];
                assert(!mt.ents[id].dom().contains(c));
                assert(!mf.ents[id].dom().contains(c));
                assert(!f.vis_dom(mt, id).contains(c));
                assert(!f.vis_dom(mf, id).contains(c));
                assert(cell_ok(f, mf, mt, cs, n, m2, id, c));
            }
            assert(f.arch_filter.matches_spec(m2.ents[id].dom()));
        } else {
            assert(m2.ents.dom().contains(id) == mf.ents.dom().contains(id));
            if m2.ents.dom().contains(id) {
                assert(m2.ents[id] == mf.ents[id]);
                assert(m2.ents[id].dom() =~= mf.ents[id].dom());
            }
            assert(f.vis(m2, id) == f.vis(mf, id));
        }
    }
    assert forall|id: EntityId, c: Component|
        f.vis(m2, id) && f.vis(mt, id) implies (#[trigger] f.vis_dom(m2, id).contains(c)
        == #[trigger] f.vis_dom(mt, id).contains(c) && (f.vis_dom(m2, id).contains(c)
        ==> m2.ents[id][c].value == mt.ents[id][c].value)) by {
        assert(row_ok(f, mf, mt, cs, n, m2, id));
        assert(cell_ok(f, mf, mt, cs, n, m2, id, c));
        if f.vis(mt, id) && !f.vis(mf, id) {
            // spawned entity: the row carries exactly the bootstrap-visible
            // values of `to`
        } else if f.vis(mf, id) && f.vis(mt, id) {
            let fvd = f.vis_dom(mf, id);
            let tvd = f.vis_dom(mt, id);
            if f.allows(c, crate::filter::WorldStreamCompEvent::Init) {
                if tvd.contains(c) && !fvd.contains(c) {
                    assert(crate::diff::added_vals(f, mf, mt, id).dom().contains(c));
                    assert(crate::diff::added_vals(f, mf, mt, id).dom() !~= Set::<
                        Component,
                    >::empty());
                    let k = choose|k: int|
                        0 <= k < n && (#[trigger] cs[k]) is AddComponents
                            && cs[k]->AddComponents_0 == id;
                    assert(proc_add(cs, n, id));
                    assert(m2.ents[id].dom().contains(c));
                    assert(m2.ents[id][c].value == mt.ents[id][c].value);
                } else if fvd.contains(c) && !tvd.contains(c) {
                    assert(crate::diff::removed_set(f, mf, mt, id).contains(c));
                    assert(crate::diff::removed_set(f, mf, mt, id) !~= Set::<Component>::empty());
                    let k = choose|k: int|
                        0 <= k < n && (#[trigger] cs[k]) is RemoveComponents
                            && cs[k]->RemoveComponents_0 == id;
                    assert(proc_remove(cs, n, id));
                    assert(!m2.ents[id].dom().contains(c));
                    assert(!mt.ents[id].dom().contains(c));
                } else if fvd.contains(c) && tvd.contains(c) {
                    if mf.ents[id][c].cver != mt.ents[id][c].cver {
                        let k = choose|k: int|
                            0 <= k < n && (#[trigger] cs[k]) is SetValue && cs[k]->SetValue_0 == id
                                && (cs[k]->SetValue_1).component == c;
                        assert(proc_set(cs, n, id, c));
                        assert(m2.ents[id][c].value == mt.ents[id][c].value);
                    } else {
                        assert(mf.ents[id][c].value == mt.ents[id][c].value);
                    }
                } else {
                    assert(!mf.ents[id].dom().contains(c));
                    assert(!mt.ents[id].dom().contains(c));
                    assert(!m2.ents[id].dom().contains(c));
                }
            }
        }
    }
}

/// Round trip: for any two worlds, applying the diff computed between them
/// to the first yields a world observably equal to the second under the
/// filter: the same visible entities with the same visible component values.
/// It asks that no entity existing but hidden in the first world be visible
/// in the second (such an entity would collide with its own mirrored spawn),
/// that slots visible in both worlds with equal content versions hold equal
/// values (the difference is computed by version comparison), and that every
/// archetype-required component be bootstrap-visible.
pub proof fn lemma_diff_round_trip(
    f: WorldStreamFilter,
    mf: WorldModel,
    mt: WorldModel,
    cs: Seq<WorldChange>,
)
    requires
        crate::diff::a2b_changes_ok(f, mf, mt, cs),
        crate::diff::a2b_complete(f, mf, mt, cs),
        forall|id: EntityId|
            f.vis(mt, id) && #[trigger] mf.ents.dom().contains(id) ==> f.vis(mf, id),
        forall|id: EntityId, c: Component|
            #![trigger f.vis_dom(mf, id).contains(c), f.vis_dom(mt, id).contains(c)]
            f.vis(mf, id) && f.vis(mt, id) && f.vis_dom(mf, id).contains(c) && f.vis_dom(
                mt,
                id,
            ).contains(c) && mf.ents[id][c].cver == mt.ents[id][c].cver ==> mf.ents[id][c].value
                == mt.ents[id][c].value,
        forall|i: int|
            0 <= i < f.arch_filter.incl@.len() ==> f.allows(
                #[trigger] f.arch_filter.incl@[i],
                crate::filter::WorldStreamCompEvent::Init,
            ),
    ensures
        visible_eq(f, apply_seq_model(mf, changes_model(cs), Map::empty()), mt),
{
    lemma_rt_base(f, mf, mt, cs);
    assert(changes_model(cs).skip(0) =~= changes_model(cs));
    lemma_rt_run(f, mf, mt, cs, 0, mf);
    lemma_rt_final(
        f,
        mf,
        mt,
        cs,
        apply_seq_model(mf, changes_model(cs), Map::empty()),
    );
}


/// Applying one change raises the world version by at most one.
proof fn lemma_apply_ver_bound(m: WorldModel, c: ChangeM, extra: Map<Component, Value>)
    ensures
        apply_change_model(m, c, extra).ver <= m.ver + 1,
{
}

/// From any mid-application state on, the rest of a two-world diff is
/// applicable, given version headroom and spawnable ids.
proof fn lemma_a2b_applicable_from(
    f: WorldStreamFilter,
    mf: WorldModel,
    mt: WorldModel,
    cs: Seq<WorldChange>,
    p: int,
    mid: WorldModel,
)
    requires
        crate::diff::a2b_changes_ok(f, mf, mt, cs),
        0 <= p <= cs.len(),
        rt_inv(f, mf, mt, cs, p, mid),
        mid.ver + (cs.len() - p) <= u64::MAX,
        forall|id: EntityId|
            #![trigger f.vis(mt, id), f.vis(mf, id)]
            f.vis(mt, id) && !f.vis(mf, id) ==> usable_id(id),
    ensures
        seq_applicable(mid, changes_model(cs).skip(p), Map::empty()),
    decreases cs.len() - p,
{
    let ms = changes_model(cs).skip(p);
    if p < cs.len() {
        assert(ms[0] == changes_model(cs)[p]);
        assert(changes_model(cs)[p] == cs[p].model());
        assert(crate::diff::a2b_change_ok(f, mf, mt, cs[p]));
        assert(change_applicable(mid, cs[p].model()));
        lemma_rt_step(f, mf, mt, cs, p, mid);
        lemma_apply_ver_bound(mid, cs[p].model(), Map::empty());
        let mid2 = apply_change_model(mid, cs[p].model(), Map::empty());
        assert(ms.drop_first() =~= changes_model(cs).skip(p + 1));
        lemma_a2b_applicable_from(f, mf, mt, cs, p + 1, mid2);
    }
}

/// A two-world diff is applicable to the world it was computed from, given
/// version headroom, spawnable ids, and no entity hidden in `from` that is
/// visible in `to`.
pub proof fn lemma_a2b_applicable(
    f: WorldStreamFilter,
    mf: WorldModel,
    mt: WorldModel,
    cs: Seq<WorldChange>,
)
    requires
        crate::diff::a2b_changes_ok(f, mf, mt, cs),
        mf.ver + cs.len() <= u64::MAX,
        forall|id: EntityId|
            f.vis(mt, id) && #[trigger] mf.ents.dom().contains(id) ==> f.vis(mf, id),
        forall|id: EntityId|
            #![trigger f.vis(mt, id), f.vis(mf, id)]
            f.vis(mt, id) && !f.vis(mf, id) ==> usable_id(id),
    ensures
        seq_applicable(mf, changes_model(cs), Map::empty()),
{
    lemma_rt_base(f, mf, mt, cs);
    lemma_a2b_applicable_from(f, mf, mt, cs, 0, mf);
    assert(changes_model(cs).skip(0) =~= changes_model(cs));
}


/// Compute the visible difference to `to` and apply it to `from`: afterwards
/// `from` is observably equal to `to` under the filter. Returns false (and
/// leaves `from` unchanged) only when the world's version counter lacks the
/// headroom to apply the computed diff, whose existence and length the
/// failure clause then attests.
pub fn replicate_world(
    filter: crate::filter::WorldStreamFilter,
    from: &mut crate::world::World,
    to: &crate::world::World,
) -> (r: bool)
    requires
        old(from).inv(),
        to.inv(),
        forall|id: EntityId|
            filter.vis(to@, id) && #[trigger] old(from)@.ents.dom().contains(id) ==> filter.vis(
                old(from)@,
                id,
            ),
        forall|id: EntityId|
            #![trigger filter.vis(to@, id), filter.vis(old(from)@, id)]
            filter.vis(to@, id) && !filter.vis(old(from)@, id) ==> usable_id(id),
        forall|id: EntityId, c: Component|
            #![trigger filter.vis_dom(old(from)@, id).contains(c), filter.vis_dom(to@, id).contains(c)]
            filter.vis(old(from)@, id) && filter.vis(to@, id) && filter.vis_dom(
                old(from)@,
                id,
            ).contains(c) && filter.vis_dom(to@, id).contains(c) && old(from)@.ents[id][c].cver
                == to@.ents[id][c].cver ==> old(from)@.ents[id][c].value == to@.ents[id][c].value,
        forall|i: int|
            0 <= i < filter.arch_filter.incl@.len() ==> filter.allows(
                #[trigger] filter.arch_filter.incl@[i],
                crate::filter::WorldStreamCompEvent::Init,
            ),
    ensures
        final(from).inv(),
        r ==> visible_eq(filter, final(from)@, to@),
        !r ==> *final(from) == *old(from),
        !r ==> exists|cs: Seq<WorldChange>|
            #[trigger] crate::diff::a2b_changes_ok(filter, old(from)@, to@, cs)
                && crate::diff::a2b_complete(filter, old(from)@, to@, cs) && u64::MAX - old(
                from,
            )@.ver < cs.len(),
{
    let ghost mf = from@;
    let ghost mt = to@;
    let ghost gfilter = filter;
    let diff = crate::diff::WorldDiff::from_a_to_b(filter, from, to);
    let n = diff.changes.len();
    if u64::MAX - from.version() < (n as u64) {
        proof {
            assert(crate::diff::a2b_changes_ok(gfilter, mf, mt, diff.changes@)
                && crate::diff::a2b_complete(gfilter, mf, mt, diff.changes@) && u64::MAX - mf.ver
                < diff.changes@.len());
        }
        return false;
    }
    proof {
        lemma_a2b_applicable(gfilter, mf, mt, diff.changes@);
    }
    let ghost cs = diff.changes@;
    let extra = crate::component::EntityData::new();
    let _ = diff.apply(from, extra, false);
    proof {
        lemma_diff_round_trip(gfilter, mf, mt, cs);
    }
    true
}

} // verus!
