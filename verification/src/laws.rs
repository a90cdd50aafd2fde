//! The laws of the component manager, stated over the spec-level view that
//! its contracts use and proved once and for all.

use vstd::prelude::*;
use crate::entity::EntityId;
use crate::manager::ComponentManager;
use crate::store::EntityMeta;
use crate::store::TypeKey;
use crate::store::components_for;
use crate::store::positions_of;

verus! {

broadcast use crate::store::lemma_components_push;

/// One mutating operation of the manager, as its contracts describe it.
pub enum StoreOp<C> {
    Insert(EntityId, TypeKey, C),
    Remove(TypeKey),
}

/// The effect of one operation on the manager's view: exactly what
/// `ComponentManager::insert` and `ComponentManager::remove` promise of it.
pub open spec fn apply_op<C>(
    m: Map<TypeKey, Seq<EntityMeta<C>>>,
    op: StoreOp<C>,
) -> Map<TypeKey, Seq<EntityMeta<C>>> {
    match op {
        StoreOp::Insert(e, k, c) => m.insert(
            k,
            (if m.dom().contains(k) {
                m[k]
            } else {
                Seq::empty()
            }).push((EntityMeta { entity: e, component: c })),
        ),
        StoreOp::Remove(k) => m.remove(k),
    }
}

/// The effect of a whole sequence of operations, applied left to right.
pub open spec fn apply_ops<C>(
    m: Map<TypeKey, Seq<EntityMeta<C>>>,
    ops: Seq<StoreOp<C>>,
) -> Map<TypeKey, Seq<EntityMeta<C>>>
    decreases ops.len(),
{
    if ops.len() == 0 {
        m
    } else {
        apply_op(apply_ops(m, ops.drop_last()), ops.last())
    }
}

/// The records a sequence of operations leaves behind for type `k`: those
/// inserted for `k` after the last removal of `k`, in insertion order.
pub open spec fn live_records<C>(ops: Seq<StoreOp<C>>, k: TypeKey) -> Seq<EntityMeta<C>>
    decreases ops.len(),
{
    if ops.len() == 0 {
        Seq::empty()
    } else {
        match ops.last() {
            StoreOp::Insert(e, k2, c) => if k2 == k {
                live_records(ops.drop_last(), k).push(EntityMeta { entity: e, component: c })
            } else {
                live_records(ops.drop_last(), k)
            },
            StoreOp::Remove(k2) => if k2 == k {
                Seq::empty()
            } else {
                live_records(ops.drop_last(), k)
            },
        }
    }
}

/// The law behind type-wide queries: starting from a fresh manager, after
/// any sequence of inserts and removes the view holds, for each type,
/// exactly the records inserted for it and not yet removed, in insertion
/// order and regardless of which entities own them. `find` returns exactly
/// this sequence (so in particular exactly this multiset), and the type is
/// contained exactly while at least one such record is live.
pub proof fn lemma_store_tracks_history<C>(ops: Seq<StoreOp<C>>, k: TypeKey)
    ensures
        apply_ops(Map::<TypeKey, Seq<EntityMeta<C>>>::empty(), ops).dom().contains(k)
            <==> live_records(ops, k).len() > 0,
        apply_ops(Map::<TypeKey, Seq<EntityMeta<C>>>::empty(), ops).dom().contains(k)
            ==> apply_ops(Map::<TypeKey, Seq<EntityMeta<C>>>::empty(), ops)[k] == live_records(
            ops,
            k,
        ),
    decreases ops.len(),
{
    let empty = Map::<TypeKey, Seq<EntityMeta<C>>>::empty();
    if ops.len() > 0 {
        let front = ops.drop_last();
        lemma_store_tracks_history(front, k);
        let prev = apply_ops(empty, front);
        match ops.last() {
            StoreOp::Insert(e, k2, c) => {
                if k2 == k {
                    if !prev.dom().contains(k) {
                        assert(live_records(front, k) =~= Seq::<EntityMeta<C>>::empty());
                    }
                } else {
                    assert(apply_ops(empty, ops).dom().contains(k) == prev.dom().contains(k));
                }
            },
            StoreOp::Remove(k2) => {
            },
        }
    }
}

/// The law that each `insert` is one `apply_op` step, so that
/// `lemma_store_tracks_history` speaks about real call chains.
pub proof fn lemma_insert_is_op<C>(
    pre: ComponentManager<C>,
    post: ComponentManager<C>,
    id: EntityId,
    key: TypeKey,
    c: C,
)
    requires
        post@ == pre@.insert(key, pre.records_of(key).push((EntityMeta { entity: id, component: c }))),
    ensures
        post@ == apply_op(pre@, StoreOp::Insert(id, key, c)),
{
}

/// The law that each `remove` is one `apply_op` step.
pub proof fn lemma_remove_is_op<C>(pre: ComponentManager<C>, post: ComponentManager<C>, key: TypeKey)
    requires
        post@ == pre@.remove(key),
    ensures
        post@ == apply_op(pre@, StoreOp::Remove(key)),
{
}

/// The law behind per-entity queries: an inserted component appears at the
/// end of exactly its own entity's component sequence for that type
/// (`find_for` and `get` read that sequence); every other entity's sequence,
/// and every other type, is untouched.
pub proof fn lemma_insert_visible_for_entity<C>(
    pre: ComponentManager<C>,
    post: ComponentManager<C>,
    id: EntityId,
    key: TypeKey,
    c: C,
)
    requires
        post@ == pre@.insert(key, pre.records_of(key).push((EntityMeta { entity: id, component: c }))),
    ensures
        post.entity_components(key, id) == pre.entity_components(key, id).push(c),
        forall|e2: EntityId| e2 != id ==> post.entity_components(key, e2)
            == pre.entity_components(key, e2),
        forall|k2: TypeKey| k2 != key ==> post.records_of(k2) == pre.records_of(k2),
{
    let m = EntityMeta { entity: id, component: c };
    assert(post.records_of(key) == pre.records_of(key).push(m));
}

/// The law behind whole-type removal: after `remove`, the type is gone from
/// the view, no entity owns a component of it any more, and a subsequent
/// insert starts a fresh store holding exactly the one new record.
pub proof fn lemma_remove_then_insert_starts_fresh<C>(
    pre: ComponentManager<C>,
    mid: ComponentManager<C>,
    post: ComponentManager<C>,
    id: EntityId,
    key: TypeKey,
    c: C,
)
    requires
        mid@ == pre@.remove(key),
        post@ == mid@.insert(key, mid.records_of(key).push((EntityMeta { entity: id, component: c }))),
    ensures
        !mid@.dom().contains(key),
        forall|e: EntityId| mid.entity_components(key, e) == Seq::<C>::empty(),
        post@[key] == Seq::<EntityMeta<C>>::empty().push((EntityMeta { entity: id, component: c })),
{
    assert forall|e: EntityId| mid.entity_components(key, e) == Seq::<C>::empty() by {
        assert(mid.records_of(key) == Seq::<EntityMeta<C>>::empty());
        assert(components_for(Seq::<EntityMeta<C>>::empty(), e) == Seq::<C>::empty());
    }
}

/// The law behind `get_mut` and `find_for_mut`: writing through the borrow
/// they hand out replaces exactly the `i`-th component of that entity's
/// sequence — what `get` and `find_for` later return — and leaves every
/// other entity's sequence unchanged.
pub proof fn lemma_mutation_visible<C>(
    pre: ComponentManager<C>,
    post: ComponentManager<C>,
    id: EntityId,
    key: TypeKey,
    i: int,
    c: C,
)
    requires
        pre@.dom().contains(key),
        0 <= i < pre.entity_components(key, id).len(),
        post@ == pre@.insert(
            key,
            pre@[key].update(
                positions_of(pre@[key], id)[i],
                (EntityMeta { entity: id, component: c }),
            ),
        ),
    ensures
        post.entity_components(key, id) == pre.entity_components(key, id).update(i, c),
        forall|e2: EntityId| e2 != id ==> post.entity_components(key, e2)
            == pre.entity_components(key, e2),
{
    crate::store::lemma_positions_facts(pre@[key], id);
    crate::store::lemma_components_update(pre@[key], id, i, c);
    assert(post.records_of(key) == pre@[key].update(
        positions_of(pre@[key], id)[i],
        (EntityMeta { entity: id, component: c }),
    ));
}

} // verus!
