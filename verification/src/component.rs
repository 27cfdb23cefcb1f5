//! The component registry's value model: a component is a registry key plus
//! its replication capability, a value is one of a closed set of plain kinds,
//! and an entity's data is an ordered mapping from component to value.

use vstd::prelude::*;

verus! {

/// A typed, registry-resolved key identifying a single attribute slot of an
/// entity. `extended` records whether values under this key are meant to be
/// replicated to peers.
#[derive(PartialEq, Eq, Structural, Clone, Copy, Hash, Debug)]
pub struct Component {
    pub index: u32,
    pub extended: bool,
}

/// A component value, type-erased into a closed set of plain kinds.
#[derive(PartialEq, Eq, Structural, Clone, Copy, Debug)]
pub enum Value {
    Empty,
    Bool(bool),
    I64(i64),
    U64(u64),
    Vec3(i64, i64, i64),
}

/// A (component, value) pair.
#[derive(PartialEq, Eq, Structural, Clone, Copy, Debug)]
pub struct ComponentUnit {
    pub component: Component,
    pub value: Value,
}

impl ComponentUnit {
    pub fn new(component: Component, value: Value) -> (r: Self)
        ensures
            r.component == component && r.value == value,
    {
        Self { component, value }
    }
}

/// Component keys of the units are pairwise distinct.
pub open spec fn units_unique(s: Seq<ComponentUnit>) -> bool {
    forall|i: int, j: int|
        0 <= i < j < s.len() ==> (#[trigger] s[i]).component != (#[trigger] s[j]).component
}

pub open spec fn units_contain(s: Seq<ComponentUnit>, c: Component) -> bool {
    exists|i: int| 0 <= i < s.len() && (#[trigger] s[i]).component == c
}

pub open spec fn units_idx_of(s: Seq<ComponentUnit>, c: Component) -> int {
    choose|i: int| 0 <= i < s.len() && (#[trigger] s[i]).component == c
}

/// The mapping a sequence of units denotes.
pub open spec fn units_map(s: Seq<ComponentUnit>) -> Map<Component, Value> {
    Map::new(|c: Component| units_contain(s, c), |c: Component| s[units_idx_of(s, c)].value)
}

/// An ordered mapping from component to value for a single entity.
#[derive(Clone, Debug, PartialEq)]
pub struct EntityData {
    pub units: Vec<ComponentUnit>,
}

impl EntityData {
    pub open spec fn wf(self) -> bool {
        units_unique(self.units@)
    }

    pub open spec fn contains_comp(self, c: Component) -> bool {
        units_contain(self.units@, c)
    }

    /// The mapping this data denotes.
    pub open spec fn map_view(self) -> Map<Component, Value> {
        units_map(self.units@)
    }

    pub fn new() -> (r: Self)
        ensures
            r.wf(),
            r.map_view() == Map::<Component, Value>::empty(),
            r.units@.len() == 0,
    {
        let r = Self { units: Vec::new() };
        proof {
            assert(r.map_view() =~= Map::<Component, Value>::empty());
        }
        r
    }

    pub fn len(&self) -> (r: usize)
        ensures
            r == self.units@.len(),
    {
        self.units.len()
    }

    pub fn is_empty(&self) -> (r: bool)
        ensures
            r == (self.units@.len() == 0),
            r ==> self.map_view().dom() =~= Set::<Component>::empty(),
            !r ==> self.map_view().dom() !~= Set::<Component>::empty(),
    {
        proof {
            if self.units@.len() > 0 {
                assert(units_contain(self.units@, self.units@[0].component));
                assert(self.map_view().dom().contains(self.units@[0].component));
            }
        }
        self.units.len() == 0
    }

    /// Insert the unit, replacing any existing value under the same component.
    pub fn set_unit(&mut self, unit: ComponentUnit)
        requires
            old(self).wf(),
        ensures
            final(self).wf(),
            final(self).map_view() == old(self).map_view().insert(unit.component, unit.value),
    {
        let ghost pre = old(self).units@;
        let mut i: usize = 0;
        while i < self.units.len()
            invariant
                self.units@ == pre,
                forall|j: int| 0 <= j < i ==> (#[trigger] pre[j]).component != unit.component,
            decreases self.units@.len() - i,
        {
            if self.units[i].component == unit.component {
                self.units.set(i, unit);
                proof {
                    lemma_units_map_update(pre, i as int, unit);
                }
                return ;
            }
            i += 1;
        }
        self.units.push(unit);
        proof {
            assert(!units_contain(pre, unit.component));
            lemma_units_map_push(pre, unit);
        }
    }

    /// Insert a value under a component, replacing any existing one.
    pub fn set_raw(&mut self, component: Component, value: Value)
        requires
            old(self).wf(),
        ensures
            final(self).wf(),
            final(self).map_view() == old(self).map_view().insert(component, value),
    {
        self.set_unit(ComponentUnit { component, value });
    }

    /// Merge `other` into `self`; on conflicting components `other` wins.
    pub fn append(self, other: &Self) -> (r: Self)
        requires
            self.wf(),
            other.wf(),
        ensures
            r.wf(),
            r.map_view() == self.map_view().union_prefer_right(other.map_view()),
    {
        let ghost oseq = other.units@;
        let mut r = self;
        let mut i: usize = 0;
        while i < other.units.len()
            invariant
                r.wf(),
                other.units@ == oseq,
                i <= oseq.len(),
                r.map_view() == self.map_view().union_prefer_right(units_map(oseq.take(i as int))),
            decreases oseq.len() - i,
        {
            r.set_unit(other.units[i]);
            proof {
                let pre = oseq.take(i as int);
                let u = oseq[i as int];
                assert(units_unique(pre)) by {
                    assert(forall|a: int, b: int|
                        0 <= a < b < pre.len() ==> (#[trigger] pre[a]).component != (
                        #[trigger] pre[b]).component);
                }
                assert(!units_contain(pre, u.component)) by {
                    if units_contain(pre, u.component) {
                        let j = choose|j: int|
                            0 <= j < pre.len() && (#[trigger] pre[j]).component == u.component;
                        assert(oseq[j].component == oseq[i as int].component);
                    }
                }
                lemma_units_map_push(pre, u);
                assert(oseq.take(i + 1) =~= pre.push(u));
                assert(r.map_view() =~= self.map_view().union_prefer_right(
                    units_map(oseq.take(i + 1)),
                ));
            }
            i += 1;
        }
        proof {
            assert(oseq.take(oseq.len() as int) =~= oseq);
            assert(r.map_view() =~= self.map_view().union_prefer_right(other.map_view()));
        }
        r
    }

    /// The component keys of this data, in order.
    pub fn components(&self) -> (r: Vec<Component>)
        requires
            self.wf(),
        ensures
            r@.len() == self.units@.len(),
            forall|i: int| 0 <= i < r@.len() ==> r@[i] == (#[trigger] self.units@[i]).component,
            forall|c: Component| r@.contains(c) <==> self.map_view().dom().contains(c),
            forall|i: int, j: int| 0 <= i < j < r@.len() ==> r@[i] != r@[j],
    {
        let mut r: Vec<Component> = Vec::new();
        let mut i: usize = 0;
        while i < self.units.len()
            invariant
                i <= self.units@.len(),
                r@.len() == i,
                forall|j: int| 0 <= j < i ==> r@[j] == (#[trigger] self.units@[j]).component,
            decreases self.units@.len() - i,
        {
            r.push(self.units[i].component);
            i += 1;
        }
        proof {
            assert forall|c: Component| r@.contains(c) implies self.map_view().dom().contains(
                c,
            ) by {
                let k = choose|k: int| 0 <= k < r@.len() && r@[k] == c;
                assert(self.units@[k].component == c);
            }
            assert forall|c: Component| self.map_view().dom().contains(c) implies r@.contains(
                c,
            ) by {
                let k = choose|k: int|
                    0 <= k < self.units@.len() && (#[trigger] self.units@[k]).component == c;
                assert(r@[k] == c);
            }
            assert forall|a: int, b: int| 0 <= a < b < r@.len() implies r@[a] != r@[b] by {
                assert(r@[a] == self.units@[a].component);
                assert(r@[b] == self.units@[b].component);
            }
        }
        r
    }

    /// The unit stored under `c`, if any.
    pub fn get_unit(&self, c: Component) -> (r: Option<ComponentUnit>)
        requires
            self.wf(),
        ensures
            r is Some <==> self.map_view().dom().contains(c),
            r is Some ==> r->0 == (ComponentUnit { component: c, value: self.map_view()[c] }),
    {
        let mut i: usize = 0;
        while i < self.units.len()
            invariant
                forall|j: int| 0 <= j < i ==> (#[trigger] self.units@[j]).component != c,
            decreases self.units@.len() - i,
        {
            if self.units[i].component == c {
                proof {
                    assert(units_contain(self.units@, c));
                    lemma_units_idx_unique(self.units@, c, i as int);
                }
                return Some(self.units[i]);
            }
            i += 1;
        }
        proof {
            assert(!units_contain(self.units@, c));
        }
        None
    }
}

/// With unique keys, any index holding `c` is the looked-up one.
pub proof fn lemma_units_idx_unique(s: Seq<ComponentUnit>, c: Component, i: int)
    requires
        units_unique(s),
        0 <= i < s.len(),
        s[i].component == c,
    ensures
        units_idx_of(s, c) == i,
{
    let j = units_idx_of(s, c);
    assert(0 <= j < s.len() && s[j].component == c);
}

/// Updating the entry at `i` with a unit of the same component updates the map.
pub proof fn lemma_units_map_update(s: Seq<ComponentUnit>, i: int, unit: ComponentUnit)
    requires
        units_unique(s),
        0 <= i < s.len(),
        s[i].component == unit.component,
    ensures
        units_unique(s.update(i, unit)),
        units_map(s.update(i, unit)) == units_map(s).insert(unit.component, unit.value),
{
    let t = s.update(i, unit);
    assert forall|a: int, b: int| 0 <= a < b < t.len() implies (#[trigger] t[a]).component != (
    #[trigger] t[b]).component by {
        assert(s[a].component == t[a].component || a == i);
        assert(s[b].component == t[b].component || b == i);
    }
    assert forall|c: Component| units_contain(t, c) implies units_contain(s, c) by {
        let j = choose|j: int| 0 <= j < t.len() && (#[trigger] t[j]).component == c;
        assert(s[j].component == t[j].component || j == i);
        assert(s[j].component == c);
    }
    assert forall|c: Component| units_contain(s, c) implies units_contain(t, c) by {
        let j = choose|j: int| 0 <= j < s.len() && (#[trigger] s[j]).component == c;
        assert(t[j].component == c);
    }
    assert forall|c: Component| units_contain(s, c) && c != unit.component implies
        t[units_idx_of(t, c)].value == s[units_idx_of(s, c)].value by {
        let j = units_idx_of(s, c);
        assert(0 <= j < s.len() && s[j].component == c);
        assert(j != i);
        assert(t[j].component == c);
        lemma_units_idx_unique(t, c, j);
    }
    assert(t[i].component == unit.component);
    lemma_units_idx_unique(t, unit.component, i);
    assert(units_map(t) =~= units_map(s).insert(unit.component, unit.value));
}

/// Pushing a unit with a fresh component inserts it into the map.
pub proof fn lemma_units_map_push(s: Seq<ComponentUnit>, unit: ComponentUnit)
    requires
        units_unique(s),
        !units_contain(s, unit.component),
    ensures
        units_unique(s.push(unit)),
        units_map(s.push(unit)) == units_map(s).insert(unit.component, unit.value),
{
    let t = s.push(unit);
    let n = s.len() as int;
    assert forall|a: int, b: int| 0 <= a < b < t.len() implies (#[trigger] t[a]).component != (
    #[trigger] t[b]).component by {
        if b < n {
            assert(s[a].component != s[b].component);
        } else {
            assert(t[b] == unit);
            assert(t[a].component == s[a].component);
            assert(s[a].component != unit.component);
        }
    }
    assert forall|c: Component| units_contain(t, c) && c != unit.component implies units_contain(
        s,
        c,
    ) && t[units_idx_of(t, c)].value == s[units_idx_of(s, c)].value by {
        let j = choose|j: int| 0 <= j < t.len() && (#[trigger] t[j]).component == c;
        assert(j < n);
        assert(s[j].component == c);
        let k = units_idx_of(s, c);
        assert(0 <= k < s.len() && s[k].component == c);
        assert(t[k].component == c);
        lemma_units_idx_unique(t, c, k);
    }
    assert forall|c: Component| units_contain(s, c) implies units_contain(t, c) by {
        let j = choose|j: int| 0 <= j < s.len() && (#[trigger] s[j]).component == c;
        assert(t[j].component == c);
    }
    assert(t[n].component == unit.component);
    assert(units_contain(t, unit.component));
    lemma_units_idx_unique(t, unit.component, n);
    assert(units_map(t) =~= units_map(s).insert(unit.component, unit.value));
}

} // verus!
