//! The per-type component store: an insertion-ordered sequence of
//! (entity, component) records, addressed by index-based locators.

use vstd::prelude::*;
use crate::entity::EntityId;

verus! {

/// A run-time token standing for one concrete component type.
///
/// The heterogeneous registry is keyed by these tokens: callers assign one
/// token per conceptual component type and must keep the assignment
/// injective, so that two different component types never share a token.
pub type TypeKey = u64;

/// A relationship between an entity and one component value.
#[derive(Clone, Copy)]
pub struct EntityMeta<C> {
    pub entity: EntityId,
    pub component: C,
}

/// The positions, in ascending order, of the records of `s` that belong to
/// entity `e`. These are the index-based locators the entity index keeps.
pub open spec fn positions_of<C>(s: Seq<EntityMeta<C>>, e: EntityId) -> Seq<int>
    decreases s.len(),
{
    if s.len() == 0 {
        Seq::empty()
    } else {
        let p = positions_of(s.drop_last(), e);
        if s.last().entity == e {
            p.push(s.len() - 1)
        } else {
            p
        }
    }
}

/// The components of the records of `s` that belong to entity `e`, in
/// insertion order.
pub open spec fn components_for<C>(s: Seq<EntityMeta<C>>, e: EntityId) -> Seq<C>
    decreases s.len(),
{
    if s.len() == 0 {
        Seq::empty()
    } else {
        let p = components_for(s.drop_last(), e);
        if s.last().entity == e {
            p.push(s.last().component)
        } else {
            p
        }
    }
}

/// Whether a list of executable locators denotes exactly the given list of
/// positions.
pub open spec fn locs_match(locs: Seq<usize>, pos: Seq<int>) -> bool {
    &&& locs.len() == pos.len()
    &&& forall|t: int| 0 <= t < locs.len() ==> #[trigger] locs[t] as int == pos[t]
}

/// Appending one record extends the positions and components of its entity
/// by exactly that record, and leaves every other entity's view unchanged.
pub broadcast proof fn lemma_positions_push<C>(s: Seq<EntityMeta<C>>, m: EntityMeta<C>, e: EntityId)
    ensures
        #[trigger] positions_of(s.push(m), e) == if m.entity == e {
            positions_of(s, e).push(s.len() as int)
        } else {
            positions_of(s, e)
        },
{
    assert(s.push(m).drop_last() =~= s);
    assert(s.push(m).last() == m);
}

/// The component counterpart of `lemma_positions_push`.
pub broadcast proof fn lemma_components_push<C>(s: Seq<EntityMeta<C>>, m: EntityMeta<C>, e: EntityId)
    ensures
        #[trigger] components_for(s.push(m), e) == if m.entity == e {
            components_for(s, e).push(m.component)
        } else {
            components_for(s, e)
        },
{
    assert(s.push(m).drop_last() =~= s);
    assert(s.push(m).last() == m);
}

/// Replacing the component of one record, without touching its entity,
/// leaves every entity's locator positions unchanged.
pub broadcast proof fn lemma_positions_update<C>(s: Seq<EntityMeta<C>>, j: int, m: EntityMeta<C>, e: EntityId)
    requires
        0 <= j < s.len(),
        m.entity == s[j].entity,
    ensures
        #[trigger] positions_of(s.update(j, m), e) == positions_of(s, e),
    decreases s.len(),
{
    let su = s.update(j, m);
    if s.len() > 0 {
        if j == s.len() - 1 {
            assert(su.drop_last() =~= s.drop_last());
            assert(su.last().entity == s.last().entity);
        } else {
            lemma_positions_update(s.drop_last(), j, m, e);
            assert(su.drop_last() =~= s.drop_last().update(j, m));
            assert(su.last() == s.last());
        }
    }
}

/// The positions of an entity's records are in bounds, strictly increasing,
/// belong to that entity, and line up one-for-one with its components.
pub proof fn lemma_positions_facts<C>(s: Seq<EntityMeta<C>>, e: EntityId)
    ensures
        positions_of(s, e).len() == components_for(s, e).len(),
        forall|t: int| 0 <= t < positions_of(s, e).len() ==> 0 <= #[trigger] positions_of(s, e)[t]
            < s.len(),
        forall|t: int| 0 <= t < positions_of(s, e).len() ==> s[#[trigger] positions_of(s, e)[t]].entity
            == e,
        forall|t: int| 0 <= t < positions_of(s, e).len() ==> s[#[trigger] positions_of(s, e)[t]].component
            == components_for(s, e)[t],
        forall|t1: int, t2: int|
            #![trigger positions_of(s, e)[t1], positions_of(s, e)[t2]]
            0 <= t1 < t2 < positions_of(s, e).len() ==> positions_of(s, e)[t1] < positions_of(
                s,
                e,
            )[t2],
    decreases s.len(),
{
    if s.len() > 0 {
        lemma_positions_facts(s.drop_last(), e);
        assert forall|t: int| 0 <= t < positions_of(s.drop_last(), e).len() implies s[#[trigger]
            positions_of(s.drop_last(), e)[t]] == s.drop_last()[positions_of(s.drop_last(), e)[t]] by {}
    }
}

/// An entity has no positions in `s` exactly when no record of `s` belongs
/// to it.
pub proof fn lemma_positions_empty<C>(s: Seq<EntityMeta<C>>, e: EntityId)
    ensures
        positions_of(s, e).len() == 0 <==> (forall|j: int| 0 <= j < s.len() ==> s[j].entity != e),
    decreases s.len(),
{
    if s.len() > 0 {
        lemma_positions_empty(s.drop_last(), e);
        assert forall|j: int| 0 <= j < s.drop_last().len() implies s.drop_last()[j] == s[j] by {}
        if positions_of(s, e).len() == 0 {
            assert(s.last() == s[s.len() - 1]);
        }
    }
}

/// Replacing the component at an entity's `t`-th position updates exactly
/// the `t`-th element of that entity's component sequence, and no other
/// entity's sequence at all.
pub proof fn lemma_components_update<C>(s: Seq<EntityMeta<C>>, e: EntityId, t: int, c: C)
    requires
        0 <= t < positions_of(s, e).len(),
    ensures
        components_for(
            s.update(positions_of(s, e)[t], (EntityMeta { entity: e, component: c })),
            e,
        ) == components_for(s, e).update(t, c),
        forall|e2: EntityId| e2 != e ==> components_for(
            s.update(positions_of(s, e)[t], (EntityMeta { entity: e, component: c })),
            e2,
        ) == components_for(s, e2),
    decreases s.len(),
{
    lemma_positions_facts(s, e);
    let m = EntityMeta { entity: e, component: c };
    let j = positions_of(s, e)[t];
    let su = s.update(j, m);
    let s0 = s.drop_last();
    let last = s.len() - 1;
    if j == last {
        assert(s.last().entity == e);
        assert(positions_of(s, e) == positions_of(s0, e).push(last));
        assert(t == positions_of(s, e).len() - 1) by {
            lemma_positions_facts(s0, e);
            if t < positions_of(s, e).len() - 1 {
                assert(positions_of(s, e)[t] == positions_of(s0, e)[t]);
                assert(positions_of(s0, e)[t] < s0.len());
            }
        }
        assert(su =~= s0.push(m));
        lemma_components_push(s0, m, e);
        assert(components_for(su, e) == components_for(s0, e).push(c));
        assert(components_for(s, e) == components_for(s0, e).push(s.last().component));
        assert(components_for(su, e) =~= components_for(s, e).update(t, c));
        assert forall|e2: EntityId| e2 != e implies components_for(su, e2) == components_for(
            s,
            e2,
        ) by {
            lemma_components_push(s0, m, e2);
            assert(components_for(su, e2) == components_for(s0, e2));
            assert(components_for(s, e2) == components_for(s0, e2));
        }
    } else {
        assert(0 <= j < last);
        assert(t < positions_of(s0, e).len() && positions_of(s0, e)[t] == j) by {
            lemma_positions_facts(s0, e);
            if s.last().entity == e {
                assert(positions_of(s, e) == positions_of(s0, e).push(last));
            } else {
                assert(positions_of(s, e) == positions_of(s0, e));
            }
        }
        lemma_components_update(s0, e, t, c);
        let su0 = s0.update(j, m);
        assert(su.drop_last() =~= su0);
        assert(su.last() == s.last());
        assert(components_for(su0, e) == components_for(s0, e).update(t, c));
        if s.last().entity == e {
            assert(components_for(su, e) == components_for(su0, e).push(s.last().component));
            assert(components_for(s, e) == components_for(s0, e).push(s.last().component));
            lemma_positions_facts(s0, e);
            assert(t < components_for(s0, e).len());
            assert(components_for(su, e) =~= components_for(s, e).update(t, c));
        } else {
            assert(components_for(su, e) == components_for(su0, e));
            assert(components_for(s, e) == components_for(s0, e));
        }
        assert forall|e2: EntityId| e2 != e implies components_for(su, e2) == components_for(
            s,
            e2,
        ) by {
            assert(components_for(su0, e2) == components_for(s0, e2));
            if s.last().entity == e2 {
                assert(components_for(su, e2) == components_for(su0, e2).push(
                    s.last().component,
                ));
                assert(components_for(s, e2) == components_for(s0, e2).push(s.last().component));
            } else {
                assert(components_for(su, e2) == components_for(su0, e2));
                assert(components_for(s, e2) == components_for(s0, e2));
            }
        }
    }
}

/// Owns all live records of one component type, contiguous and in insertion
/// order. A locator for a record is its index; later appends never move
/// existing records, so locators stay valid until the whole store is
/// dropped.
pub struct ComponentStore<C> {
    pub(crate) records: Vec<EntityMeta<C>>,
}

impl<C> ComponentStore<C> {
    /// The records of this store, in insertion order.
    pub closed spec fn view(&self) -> Seq<EntityMeta<C>> {
        self.records@
    }

    pub fn new() -> (s: ComponentStore<C>)
        ensures
            s@ == Seq::<EntityMeta<C>>::empty(),
    {
        ComponentStore { records: Vec::new() }
    }

    pub fn len(&self) -> (n: usize)
        ensures
            n == self@.len(),
    {
        self.records.len()
    }

    /// Append a record and hand back its locator. Earlier locators keep
    /// pointing at the records they were issued for.
    pub fn append(&mut self, entity: EntityId, component: C) -> (loc: usize)
        ensures
            final(self)@ == old(self)@.push((EntityMeta { entity, component })),
            loc == old(self)@.len(),
    {
        let loc = self.records.len();
        self.records.push(EntityMeta { entity, component });
        loc
    }

    /// Read the record a locator points at.
    pub fn resolve(&self, loc: usize) -> (r: &EntityMeta<C>)
        requires
            loc < self@.len(),
        ensures
            *r == self@[loc as int],
    {
        &self.records[loc]
    }

    /// Borrow the component of the record a locator points at, for mutation
    /// in place; the record keeps its entity and its position.
    pub fn resolve_mut(&mut self, loc: usize) -> (r: &mut C)
        requires
            loc < old(self)@.len(),
        ensures
            *r == old(self)@[loc as int].component,
            final(self)@ == old(self)@.update(
                loc as int,
                (EntityMeta { entity: old(self)@[loc as int].entity, component: *final(r) }),
            ),
    {
        &mut self.records[loc].component
    }
}

impl<C: Copy> ComponentStore<C> {
    /// A snapshot of all records, in insertion order.
    pub fn iterate(&self) -> (r: Vec<EntityMeta<C>>)
        ensures
            r@ == self@,
    {
        let n = self.records.len();
        let mut out: Vec<EntityMeta<C>> = Vec::new();
        let mut i: usize = 0;
        while i < n
            invariant
                n == self.records@.len(),
                0 <= i <= n,
                out@ =~= self.records@.subrange(0, i as int),
            decreases n - i,
        {
            out.push(self.records[i]);
            i = i + 1;
        }
        proof {
            assert(out@ =~= self@);
        }
        out
    }
}

} // verus!
