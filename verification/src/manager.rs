//! The component manager: the façade that owns the per-type stores and the
//! per-entity index and is the only mutator of either.

use vstd::prelude::*;
use crate::entity::EntityId;
use crate::index::EntityIndex;
use crate::store::ComponentStore;
use crate::store::EntityMeta;
use crate::store::TypeKey;
use crate::store::components_for;
use crate::store::locs_match;
use crate::store::positions_of;

verus! {

broadcast use crate::store::lemma_positions_push, crate::store::lemma_components_push, crate::store::lemma_positions_update;

/// One slot of the type registry: the store of all records of one type.
pub(crate) struct TypeEntry<C> {
    pub(crate) key: TypeKey,
    pub(crate) store: ComponentStore<C>,
}

/// No type key occurs twice in the registry.
pub(crate) open spec fn keys_unique<C>(stores: Seq<TypeEntry<C>>) -> bool {
    forall|i: int, j: int|
        #![trigger stores[i].key, stores[j].key]
        0 <= i < stores.len() && 0 <= j < stores.len() && stores[i].key == stores[j].key ==> i
            == j
}

/// The registry as a map from type key to that type's records.
pub(crate) open spec fn store_view<C>(stores: Seq<TypeEntry<C>>) -> Map<TypeKey, Seq<EntityMeta<C>>> {
    Map::new(
        |k: TypeKey| exists|i: int| 0 <= i < stores.len() && stores[i].key == k,
        |k: TypeKey| stores[choose|i: int| 0 <= i < stores.len() && stores[i].key == k].store@,
    )
}

/// A concrete registry position determines the view at its key.
pub(crate) proof fn lemma_store_at<C>(stores: Seq<TypeEntry<C>>, i: int)
    requires
        keys_unique(stores),
        0 <= i < stores.len(),
    ensures
        store_view(stores).dom().contains(stores[i].key),
        store_view(stores)[stores[i].key] == stores[i].store@,
{
    let k = stores[i].key;
    assert(exists|a: int| 0 <= a < stores.len() && stores[a].key == k);
    let c = choose|a: int| 0 <= a < stores.len() && stores[a].key == k;
    assert(c == i);
}

/// Replacing one registry slot with a store of the same key updates the view
/// at exactly that key.
pub(crate) broadcast proof fn lemma_store_view_update<C>(stores: Seq<TypeEntry<C>>, i: int, ne: TypeEntry<C>)
    requires
        keys_unique(stores),
        0 <= i < stores.len(),
        ne.key == stores[i].key,
    ensures
        #[trigger] store_view(stores.update(i, ne)) == store_view(stores).insert(ne.key, ne.store@),
        keys_unique(stores.update(i, ne)),
{
    let post = stores.update(i, ne);
    assert forall|a: int| 0 <= a < post.len() implies post[a].key == stores[a].key by {}
    assert(store_view(post) =~= store_view(stores).insert(ne.key, ne.store@)) by {
        assert forall|k: TypeKey| store_view(stores).insert(ne.key, ne.store@).dom().contains(k)
            implies store_view(post).dom().contains(k) by {
            if k == ne.key {
                assert(post[i].key == k);
            } else {
                let a = choose|a: int| 0 <= a < stores.len() && stores[a].key == k;
                assert(post[a].key == k);
            }
        }
        assert forall|k: TypeKey| store_view(post).dom().contains(k) implies store_view(
            stores,
        ).insert(ne.key, ne.store@).dom().contains(k) by {
            let a = choose|a: int| 0 <= a < post.len() && post[a].key == k;
            assert(stores[a].key == k);
        }
        assert forall|k: TypeKey| store_view(post).dom().contains(k) implies store_view(post)[k]
            == store_view(stores).insert(ne.key, ne.store@)[k] by {
            let a = choose|a: int| 0 <= a < post.len() && post[a].key == k;
            if k == ne.key {
                assert(a == i);
            } else {
                assert(a != i);
                assert(stores[a].key == k);
                let b = choose|b: int| 0 <= b < stores.len() && stores[b].key == k;
                assert(b == a);
            }
        }
    }
}

/// Appending a slot for a key the registry does not hold yet adds exactly
/// that key to the view.
pub(crate) proof fn lemma_store_view_push<C>(stores: Seq<TypeEntry<C>>, ne: TypeEntry<C>)
    requires
        keys_unique(stores),
        forall|a: int| 0 <= a < stores.len() ==> stores[a].key != ne.key,
    ensures
        store_view(stores.push(ne)) == store_view(stores).insert(ne.key, ne.store@),
        keys_unique(stores.push(ne)),
        !store_view(stores).dom().contains(ne.key),
{
    let post = stores.push(ne);
    let last = stores.len() as int;
    assert(post[last] == ne);
    assert forall|a: int| 0 <= a < stores.len() implies post[a] == stores[a] by {}
    assert(!store_view(stores).dom().contains(ne.key)) by {
        if store_view(stores).dom().contains(ne.key) {
            let a = choose|a: int| 0 <= a < stores.len() && stores[a].key == ne.key;
        }
    }
    assert(store_view(post) =~= store_view(stores).insert(ne.key, ne.store@)) by {
        assert forall|k: TypeKey| store_view(stores).insert(ne.key, ne.store@).dom().contains(k)
            implies store_view(post).dom().contains(k) by {
            if k == ne.key {
                assert(post[last].key == k);
            } else {
                let a = choose|a: int| 0 <= a < stores.len() && stores[a].key == k;
                assert(post[a].key == k);
            }
        }
        assert forall|k: TypeKey| store_view(post).dom().contains(k) implies store_view(
            stores,
        ).insert(ne.key, ne.store@).dom().contains(k) by {
            let a = choose|a: int| 0 <= a < post.len() && post[a].key == k;
            if a < last {
                assert(stores[a].key == k);
            }
        }
        assert forall|k: TypeKey| store_view(post).dom().contains(k) implies store_view(post)[k]
            == store_view(stores).insert(ne.key, ne.store@)[k] by {
            let a = choose|a: int| 0 <= a < post.len() && post[a].key == k;
            if k == ne.key {
                assert(a == last);
            } else {
                assert(a < last);
                assert(stores[a].key == k);
                let b = choose|b: int| 0 <= b < stores.len() && stores[b].key == k;
                assert(b == a);
            }
        }
    }
}

/// Removing one registry slot removes exactly its key from the view.
pub(crate) proof fn lemma_store_view_remove<C>(stores: Seq<TypeEntry<C>>, i: int)
    requires
        keys_unique(stores),
        0 <= i < stores.len(),
    ensures
        store_view(stores.remove(i)) == store_view(stores).remove(stores[i].key),
        keys_unique(stores.remove(i)),
{
    let post = stores.remove(i);
    let k0 = stores[i].key;
    let shift = |a: int| if a < i { a } else { a + 1 };
    assert forall|a: int| 0 <= a < post.len() implies post[a] == stores[shift(a)] by {}
    assert(keys_unique(post)) by {
        assert forall|a: int, b: int|
            0 <= a < post.len() && 0 <= b < post.len() && post[a].key == post[b].key implies a
            == b by {
            assert(stores[shift(a)].key == stores[shift(b)].key);
        }
    }
    assert(store_view(post) =~= store_view(stores).remove(k0)) by {
        assert forall|k: TypeKey| store_view(stores).remove(k0).dom().contains(k) implies
            store_view(post).dom().contains(k) by {
            let a = choose|a: int| 0 <= a < stores.len() && stores[a].key == k;
            assert(a != i);
            let na = if a < i { a } else { a - 1 };
            assert(shift(na) == a);
            assert(post[na].key == k);
        }
        assert forall|k: TypeKey| store_view(post).dom().contains(k) implies store_view(
            stores,
        ).remove(k0).dom().contains(k) by {
            let a = choose|a: int| 0 <= a < post.len() && post[a].key == k;
            assert(stores[shift(a)].key == k);
            assert(shift(a) != i);
        }
        assert forall|k: TypeKey| store_view(post).dom().contains(k) implies store_view(post)[k]
            == store_view(stores).remove(k0)[k] by {
            let a = choose|a: int| 0 <= a < post.len() && post[a].key == k;
            assert(stores[shift(a)].key == k);
            let b = choose|b: int| 0 <= b < stores.len() && stores[b].key == k;
            assert(b == shift(a));
        }
    }
}

/// Manages the relationships between entities and components.
///
/// The structure is dual-indexed: a registry of per-type stores answers
/// type-wide queries by a direct scan, and a per-entity index of locators
/// answers per-entity queries without scanning the store. The manager is the
/// only mutator of both, and mutates them only together.
///
/// Queries follow the strict policy: asking about a type that was never
/// inserted (or has been removed) is a caller error, ruled out by the
/// queries' preconditions rather than answered as empty — `contains` tells a
/// caller which of the two cases it is in. An entity with no components of
/// an existing type, by contrast, is an ordinary empty answer.
pub struct ComponentManager<C> {
    pub(crate) stores: Vec<TypeEntry<C>>,
    pub(crate) index: EntityIndex,
}

impl<C> ComponentManager<C> {
    /// The whole structure, seen as a map from type key to the
    /// insertion-ordered records of that type.
    pub closed spec fn view(&self) -> Map<TypeKey, Seq<EntityMeta<C>>> {
        store_view(self.stores@)
    }

    /// The records of type `k`, or the empty sequence if `k` was never
    /// inserted (or was removed).
    pub open spec fn records_of(self, k: TypeKey) -> Seq<EntityMeta<C>> {
        if self@.dom().contains(k) {
            self@[k]
        } else {
            Seq::empty()
        }
    }

    /// The components of type `k` owned by entity `e`, in insertion order.
    pub open spec fn entity_components(self, k: TypeKey, e: EntityId) -> Seq<C> {
        components_for(self.records_of(k), e)
    }

    /// Internal validity, tying the index to the stores: every bucket's
    /// locators are exactly the positions of that entity's records in that
    /// type's store, and every record is covered by a bucket.
    pub closed spec fn wf(self) -> bool {
        &&& keys_unique(self.stores@)
        &&& self.index.wf()
        &&& forall|i: int| 0 <= i < self.stores@.len() ==> #[trigger] self.stores@[i].store@.len()
            > 0
        &&& forall|e: EntityId, k: TypeKey|
            #[trigger] self.index.has_bucket(e, k) ==> self@.dom().contains(k) && locs_match(
                self.index.locs(e, k),
                positions_of(self@[k], e),
            ) && self.index.locs(e, k).len() > 0
        &&& forall|i: int, j: int|
            0 <= i < self.stores@.len() && 0 <= j < self.stores@[i].store@.len()
                ==> self.index.has_bucket(
                #[trigger] self.stores@[i].store@[j].entity,
                self.stores@[i].key,
            )
    }

    pub fn new() -> (m: ComponentManager<C>)
        ensures
            m.wf(),
            m@ == Map::<TypeKey, Seq<EntityMeta<C>>>::empty(),
    {
        let m = ComponentManager { stores: Vec::new(), index: EntityIndex::new() };
        proof {
            assert(m@ =~= Map::<TypeKey, Seq<EntityMeta<C>>>::empty());
        }
        m
    }

    /// Find the registry slot of `key`, if there is one.
    pub(crate) fn find_store_index(&self, key: TypeKey) -> (r: Option<usize>)
        requires
            self.wf(),
        ensures
            match r {
                Some(i) => i < self.stores@.len() && self.stores@[i as int].key == key
                    && self@.dom().contains(key) && self@[key] == self.stores@[i as int].store@,
                None => !self@.dom().contains(key),
            },
    {
        let n = self.stores.len();
        let mut i: usize = 0;
        while i < n
            invariant
                self.wf(),
                n == self.stores@.len(),
                0 <= i <= n,
                forall|a: int| 0 <= a < i ==> self.stores@[a].key != key,
            decreases n - i,
        {
            if self.stores[i].key == key {
                proof {
                    lemma_store_at(self.stores@, i as int);
                }
                return Some(i);
            }
            i = i + 1;
        }
        proof {
            assert(!self@.dom().contains(key)) by {
                if self@.dom().contains(key) {
                    let a = choose|a: int| 0 <= a < self.stores@.len() && self.stores@[a].key
                        == key;
                }
            }
        }
        None
    }

    /// Whether any component of type `key` is currently stored.
    pub fn contains(&self, key: TypeKey) -> (r: bool)
        requires
            self.wf(),
        ensures
            r == self@.dom().contains(key),
    {
        self.find_store_index(key).is_some()
    }

    /// Associate one more component of type `key` with entity `id`. There is
    /// no uniqueness constraint: every insert appends one record, and the
    /// records of one (entity, type) pair accumulate in insertion order.
    pub fn insert(&mut self, id: EntityId, key: TypeKey, component: C)
        requires
            old(self).wf(),
        ensures
            final(self).wf(),
            final(self)@ == old(self)@.insert(
                key,
                old(self).records_of(key).push((EntityMeta { entity: id, component })),
            ),
    {
        let ghost m = EntityMeta { entity: id, component };
        let ghost s = old(self).records_of(key);
        let loc: usize;
        let sio = self.find_store_index(key);
        match sio {
            Some(si) => {
                let entry = &mut self.stores[si];
                loc = entry.store.append(id, component);
                proof {
                    lemma_store_view_update(
                        old(self).stores@,
                        si as int,
                        self.stores@[si as int],
                    );
                }
            },
            None => {
                proof {
                    assert forall|a: int| 0 <= a < old(self).stores@.len() implies old(
                        self,
                    ).stores@[a].key != key by {
                        if old(self).stores@[a].key == key {
                            assert(old(self)@.dom().contains(key));
                        }
                    }
                }
                let mut store = ComponentStore::new();
                loc = store.append(id, component);
                self.stores.push(TypeEntry { key, store });
                proof {
                    lemma_store_view_push(old(self).stores@, self.stores@.last());
                }
            },
        }
        proof {
            assert(self@ == old(self)@.insert(key, s.push(m)));
            assert(keys_unique(self.stores@));
        }
        self.index.register(id, key, loc);
        proof {
            lemma_insert_wf(*old(self), *self, m, key, loc);
        }
    }
}

impl<C> ComponentManager<C> {
    /// Remove every component of type `key`: the whole store is dropped and
    /// every entity's bucket for `key` is pruned, in the same step. Returns
    /// whether a store for `key` existed; `false` is the normal "nothing to
    /// remove" outcome, not an error.
    pub fn remove(&mut self, key: TypeKey) -> (r: bool)
        requires
            old(self).wf(),
        ensures
            final(self).wf(),
            r == old(self)@.dom().contains(key),
            final(self)@ == old(self)@.remove(key),
    {
        let sio = self.find_store_index(key);
        match sio {
            Some(si) => {
                self.stores.remove(si);
                proof {
                    lemma_store_view_remove(old(self).stores@, si as int);
                }
                self.index.prune(key);
                proof {
                    lemma_remove_wf(*old(self), *self, key);
                }
                true
            },
            None => {
                proof {
                    assert(old(self)@.remove(key) =~= old(self)@);
                }
                false
            },
        }
    }

    /// Borrow, for mutation in place, the component of record `i` of type
    /// `key` (in insertion order, across all entities). The record keeps its
    /// entity and its position; only its component changes.
    pub fn find_mut(&mut self, key: TypeKey, i: usize) -> (r: &mut C)
        requires
            old(self).wf(),
            old(self)@.dom().contains(key),
            i < old(self)@[key].len(),
        ensures
            *r == old(self)@[key][i as int].component,
            final(self)@ == old(self)@.insert(
                key,
                old(self)@[key].update(
                    i as int,
                    (EntityMeta {
                        entity: old(self)@[key][i as int].entity,
                        component: *final(r),
                    }),
                ),
            ),
            final(self).wf(),
    {
        broadcast use lemma_store_view_update;

        let sio = self.find_store_index(key);
        let si = sio.unwrap();
        let entry = &mut self.stores[si];
        entry.store.resolve_mut(i)
    }

    /// Borrow, for mutation in place, the `i`-th component of type `key`
    /// owned by entity `id` (in insertion order). The view changes at
    /// exactly the record that holds that component.
    pub fn find_for_mut(&mut self, key: TypeKey, id: EntityId, i: usize) -> (r: &mut C)
        requires
            old(self).wf(),
            old(self)@.dom().contains(key),
            i < old(self).entity_components(key, id).len(),
        ensures
            *r == old(self).entity_components(key, id)[i as int],
            final(self)@ == old(self)@.insert(
                key,
                old(self)@[key].update(
                    positions_of(old(self)@[key], id)[i as int],
                    (EntityMeta { entity: id, component: *final(r) }),
                ),
            ),
            final(self).wf(),
    {
        broadcast use lemma_store_view_update;

        let sio = self.find_store_index(key);
        let si = sio.unwrap();
        proof {
            crate::store::lemma_positions_facts(self@[key], id);
            let p0 = positions_of(self@[key], id)[0];
            assert(self.stores@[si as int].store@[p0].entity == id);
            assert(self.index.has_bucket(id, key));
        }
        let locs = self.index.lookup(id, key);
        let lv = locs.unwrap();
        let ghost pos = positions_of(self@[key], id);
        proof {
            assert(locs_match(lv@, pos));
            assert(lv@[i as int] as int == pos[i as int]);
        }
        let j = lv[i];
        let entry = &mut self.stores[si];
        entry.store.resolve_mut(j)
    }

    /// Borrow, for mutation in place, the first component of type `key`
    /// owned by entity `id`.
    pub fn get_mut(&mut self, key: TypeKey, id: EntityId) -> (r: &mut C)
        requires
            old(self).wf(),
            old(self)@.dom().contains(key),
            old(self).entity_components(key, id).len() > 0,
        ensures
            *r == old(self).entity_components(key, id)[0],
            final(self)@ == old(self)@.insert(
                key,
                old(self)@[key].update(
                    positions_of(old(self)@[key], id)[0],
                    (EntityMeta { entity: id, component: *final(r) }),
                ),
            ),
            final(self).wf(),
    {
        self.find_for_mut(key, id, 0)
    }

    /// The entities that currently own at least one component of type
    /// `key`, each listed once, in no specified order; empty when `key` was
    /// never inserted or was removed.
    pub fn find_entities_for_type(&self, key: TypeKey) -> (r: Vec<EntityId>)
        requires
            self.wf(),
        ensures
            r@.no_duplicates(),
            forall|e: EntityId| #[trigger] r@.contains(e) <==> (self@.dom().contains(key)
                && self.entity_components(key, e).len() > 0),
    {
        let r = self.index.entities_with(key);
        proof {
            assert forall|e: EntityId| #[trigger] r@.contains(e) <==> (self@.dom().contains(key)
                && self.entity_components(key, e).len() > 0) by {
                crate::store::lemma_positions_facts(self.records_of(key), e);
                crate::store::lemma_positions_empty(self.records_of(key), e);
                if self.index.has_bucket(e, key) {
                    assert(self@.dom().contains(key));
                    assert(locs_match(self.index.locs(e, key), positions_of(self@[key], e)));
                    assert(positions_of(self@[key], e).len() > 0);
                }
                if self@.dom().contains(key) && self.entity_components(key, e).len() > 0 {
                    let p0 = positions_of(self@[key], e)[0];
                    let a = choose|a: int| 0 <= a < self.stores@.len() && self.stores@[a].key
                        == key;
                    lemma_store_at(self.stores@, a);
                    assert(self.stores@[a].store@[p0].entity == e);
                    assert(self.index.has_bucket(e, key));
                }
            }
        }
        r
    }
}

impl<C: Copy> ComponentManager<C> {
    /// All records of type `key`, in insertion order across all entities.
    pub fn find(&self, key: TypeKey) -> (r: Vec<EntityMeta<C>>)
        requires
            self.wf(),
            self@.dom().contains(key),
        ensures
            r@ == self@[key],
    {
        let sio = self.find_store_index(key);
        let si = sio.unwrap();
        let entry = &self.stores[si];
        entry.store.iterate()
    }

    /// The components of type `key` owned by entity `id`, in insertion
    /// order; empty when the entity owns none, which is distinct from `key`
    /// never having been inserted at all (that case is ruled out up front).
    pub fn find_for(&self, key: TypeKey, id: EntityId) -> (r: Vec<C>)
        requires
            self.wf(),
            self@.dom().contains(key),
        ensures
            r@ == self.entity_components(key, id),
    {
        let sio = self.find_store_index(key);
        let si = sio.unwrap();
        proof {
            crate::store::lemma_positions_facts(self@[key], id);
            crate::store::lemma_positions_empty(self@[key], id);
        }
        let locs = self.index.lookup(id, key);
        match locs {
            None => {
                proof {
                    assert forall|j: int| 0 <= j < self@[key].len() implies self@[key][j].entity
                        != id by {
                        if self@[key][j].entity == id {
                            assert(self.stores@[si as int].store@[j].entity == id);
                            assert(self.index.has_bucket(id, key));
                        }
                    }
                    assert(self.entity_components(key, id) =~= Seq::<C>::empty());
                }
                Vec::new()
            },
            Some(lv) => {
                let n = lv.len();
                let mut out: Vec<C> = Vec::new();
                let mut t: usize = 0;
                while t < n
                    invariant
                        self.wf(),
                        self@.dom().contains(key),
                        si < self.stores@.len(),
                        self.stores@[si as int].key == key,
                        self@[key] == self.stores@[si as int].store@,
                        lv@ == self.index.locs(id, key),
                        locs_match(lv@, positions_of(self@[key], id)),
                        n == lv@.len(),
                        0 <= t <= n,
                        out@.len() == t,
                        forall|u: int| 0 <= u < t ==> out@[u] == self.entity_components(
                            key,
                            id,
                        )[u],
                    decreases n - t,
                {
                    proof {
                        crate::store::lemma_positions_facts(self@[key], id);
                    }
                    let j = lv[t];
                    let entry = &self.stores[si];
                    let meta = entry.store.resolve(j);
                    out.push(meta.component);
                    t = t + 1;
                }
                proof {
                    crate::store::lemma_positions_facts(self@[key], id);
                    assert(out@ =~= self.entity_components(key, id));
                }
                out
            },
        }
    }

    /// The first component of type `key` owned by entity `id`.
    pub fn get(&self, key: TypeKey, id: EntityId) -> (r: C)
        requires
            self.wf(),
            self@.dom().contains(key),
            self.entity_components(key, id).len() > 0,
        ensures
            r == self.entity_components(key, id)[0],
    {
        let sio = self.find_store_index(key);
        let si = sio.unwrap();
        proof {
            crate::store::lemma_positions_facts(self@[key], id);
            let p0 = positions_of(self@[key], id)[0];
            assert(self.stores@[si as int].store@[p0].entity == id);
            assert(self.index.has_bucket(id, key));
        }
        let locs = self.index.lookup(id, key);
        let lv = locs.unwrap();
        let j = lv[0];
        let entry = &self.stores[si];
        let meta = entry.store.resolve(j);
        meta.component
    }
}

/// Re-establishes the manager invariant after `remove` drops the store of
/// `key` and prunes the index.
proof fn lemma_remove_wf<C>(pre: ComponentManager<C>, post: ComponentManager<C>, key: TypeKey)
    requires
        pre.wf(),
        keys_unique(post.stores@),
        store_view(post.stores@) == pre@.remove(key),
        post.index.wf(),
        forall|e: EntityId| !post.index.has_bucket(e, key),
        forall|e: EntityId, k2: TypeKey| k2 != key ==> #[trigger] post.index.has_bucket(e, k2)
            == pre.index.has_bucket(e, k2),
        forall|e: EntityId, k2: TypeKey| k2 != key ==> #[trigger] post.index.locs(e, k2)
            == pre.index.locs(e, k2),
    ensures
        post.wf(),
{
    let v = post@;
    assert forall|e: EntityId, k: TypeKey| #[trigger] post.index.has_bucket(e, k) implies
        v.dom().contains(k) && locs_match(post.index.locs(e, k), positions_of(v[k], e))
            && post.index.locs(e, k).len() > 0 by {
        assert(k != key);
        assert(pre.index.has_bucket(e, k));
        assert(v[k] == pre@[k]);
    }
    assert forall|i: int, j: int|
        0 <= i < post.stores@.len() && 0 <= j < post.stores@[i].store@.len() implies
        post.index.has_bucket(
            #[trigger] post.stores@[i].store@[j].entity,
            post.stores@[i].key,
        ) by {
        let ki = post.stores@[i].key;
        lemma_store_at(post.stores@, i);
        assert(ki != key);
        assert(post.stores@[i].store@ == pre@[ki]);
        let a = choose|a: int| 0 <= a < pre.stores@.len() && pre.stores@[a].key == ki;
        lemma_store_at(pre.stores@, a);
        assert(pre.stores@[a].store@[j].entity == post.stores@[i].store@[j].entity);
        assert(pre.index.has_bucket(post.stores@[i].store@[j].entity, ki));
    }
    assert forall|i: int| 0 <= i < post.stores@.len() implies #[trigger] post.stores@[i].store@.len()
        > 0 by {
        let ki = post.stores@[i].key;
        lemma_store_at(post.stores@, i);
        assert(post.stores@[i].store@ == pre@[ki]);
        let a = choose|a: int| 0 <= a < pre.stores@.len() && pre.stores@[a].key == ki;
        lemma_store_at(pre.stores@, a);
    }
}

/// The positions of `id` in the records of `key` are empty when no bucket
/// covers them; packaged for use inside `insert`.
proof fn lemma_positions_facts_for_insert<C>(pre: ComponentManager<C>, key: TypeKey, id: EntityId)
    requires
        pre.wf(),
    ensures
        !pre.index.has_bucket(id, key) ==> positions_of(pre.records_of(key), id)
            == Seq::<int>::empty(),
        !pre.index.has_bucket(id, key) ==> pre.index.locs(id, key) == Seq::<usize>::empty(),
        pre.index.has_bucket(id, key) ==> pre@.dom().contains(key) && locs_match(
            pre.index.locs(id, key),
            positions_of(pre@[key], id),
        ),
{
    if !pre.index.has_bucket(id, key) {
        pre.index.lemma_locs_empty(id, key);
        let s = pre.records_of(key);
        crate::store::lemma_positions_empty(s, id);
        if pre@.dom().contains(key) {
            assert forall|j: int| 0 <= j < s.len() implies s[j].entity != id by {
                if s[j].entity == id {
                    let a = choose|a: int| 0 <= a < pre.stores@.len() && pre.stores@[a].key
                        == key;
                    lemma_store_at(pre.stores@, a);
                    assert(pre.stores@[a].store@[j].entity == id);
                }
            }
        }
    }
}

/// Re-establishes the manager invariant after the two-step mutation that
/// `insert` performs: append `m` to the store of `key`, then register the
/// new locator.
proof fn lemma_insert_wf<C>(
    pre: ComponentManager<C>,
    post: ComponentManager<C>,
    m: EntityMeta<C>,
    key: TypeKey,
    loc: usize,
)
    requires
        pre.wf(),
        keys_unique(post.stores@),
        store_view(post.stores@) == pre@.insert(key, pre.records_of(key).push(m)),
        loc == pre.records_of(key).len(),
        post.index.wf(),
        post.index.has_bucket(m.entity, key),
        post.index.locs(m.entity, key) == pre.index.locs(m.entity, key).push(loc),
        forall|e2: EntityId, k2: TypeKey| !(e2 == m.entity && k2 == key)
            ==> #[trigger] post.index.has_bucket(e2, k2) == pre.index.has_bucket(e2, k2),
        forall|e2: EntityId, k2: TypeKey| !(e2 == m.entity && k2 == key)
            ==> #[trigger] post.index.locs(e2, k2) == pre.index.locs(e2, k2),
    ensures
        post.wf(),
{
    let s = pre.records_of(key);
    let v = post@;
    lemma_positions_facts_for_insert(pre, key, m.entity);
    assert(v[key] == s.push(m));
    // Every bucket's locators still match that entity's positions.
    assert forall|e: EntityId, k: TypeKey| #[trigger] post.index.has_bucket(e, k) implies
        v.dom().contains(k) && locs_match(post.index.locs(e, k), positions_of(v[k], e))
            && post.index.locs(e, k).len() > 0 by {
        if e == m.entity && k == key {
            assert(positions_of(s.push(m), e) == positions_of(s, e).push(s.len() as int));
            if pre.index.has_bucket(e, key) {
                assert(s == pre@[key]);
                assert(locs_match(pre.index.locs(e, key), positions_of(s, e)));
            } else {
                assert(pre.index.locs(e, key) == Seq::<usize>::empty());
                assert(positions_of(s, e) == Seq::<int>::empty());
            }
            let pl = post.index.locs(e, key);
            let pp = positions_of(s, e).push(s.len() as int);
            assert(locs_match(pl, pp)) by {
                assert(pl.len() == pp.len());
                assert forall|t: int| 0 <= t < pl.len() implies #[trigger] pl[t] as int
                    == pp[t] by {
                    if t < pl.len() - 1 {
                        assert(pl[t] == pre.index.locs(e, key)[t]);
                    }
                }
            }
        } else {
            assert(pre.index.has_bucket(e, k));
            assert(pre@.dom().contains(k));
            if k == key {
                assert(s == pre@[key]);
                assert(positions_of(s.push(m), e) == positions_of(s, e));
            } else {
                assert(v[k] == pre@[k]);
            }
        }
    }
    // Every record is still covered by a bucket.
    assert forall|i: int, j: int|
        0 <= i < post.stores@.len() && 0 <= j < post.stores@[i].store@.len() implies
        post.index.has_bucket(
            #[trigger] post.stores@[i].store@[j].entity,
            post.stores@[i].key,
        ) by {
        let ki = post.stores@[i].key;
        lemma_store_at(post.stores@, i);
        assert(post.stores@[i].store@ == v[ki]);
        let rec = post.stores@[i].store@[j];
        if ki == key {
            if j < s.len() {
                assert(rec == s[j]);
                assert(pre@.dom().contains(key));
                let a = choose|a: int| 0 <= a < pre.stores@.len() && pre.stores@[a].key == key;
                lemma_store_at(pre.stores@, a);
                assert(pre.stores@[a].store@[j].entity == rec.entity);
                assert(pre.index.has_bucket(rec.entity, key));
                if rec.entity != m.entity {
                    assert(post.index.has_bucket(rec.entity, key));
                }
            } else {
                assert(rec == m);
            }
        } else {
            assert(v[ki] == pre@[ki]);
            assert(pre@.dom().contains(ki));
            let a = choose|a: int| 0 <= a < pre.stores@.len() && pre.stores@[a].key == ki;
            lemma_store_at(pre.stores@, a);
            assert(pre.stores@[a].store@[j].entity == rec.entity);
            assert(pre.index.has_bucket(rec.entity, ki));
        }
    }
    // Every store is still nonempty.
    assert forall|i: int| 0 <= i < post.stores@.len() implies #[trigger] post.stores@[i].store@.len()
        > 0 by {
        let ki = post.stores@[i].key;
        lemma_store_at(post.stores@, i);
        if ki == key {
            assert(post.stores@[i].store@ == s.push(m));
        } else {
            assert(post.stores@[i].store@ == pre@[ki]);
            assert(pre@.dom().contains(ki));
            let a = choose|a: int| 0 <= a < pre.stores@.len() && pre.stores@[a].key == ki;
            lemma_store_at(pre.stores@, a);
        }
    }
}

} // verus!
