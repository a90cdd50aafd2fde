//! The per-entity back-reference index: for each entity, an ordered list of
//! locators into each type's component store.

use vstd::prelude::*;
use crate::entity::EntityId;
use crate::store::TypeKey;

verus! {

/// The locators of one entity's records of one component type, in insertion
/// order.
pub(crate) struct TypeBucket {
    pub(crate) key: TypeKey,
    pub(crate) locators: Vec<usize>,
}

/// All of one entity's buckets, one per component type it has records of.
pub(crate) struct EntityEntry {
    pub(crate) entity: EntityId,
    pub(crate) buckets: Vec<TypeBucket>,
}

/// Whether bucket `j` of `en` is the one for type `k`.
pub(crate) open spec fn entry_bucket_at(en: EntityEntry, k: TypeKey, j: int) -> bool {
    &&& 0 <= j < en.buckets@.len()
    &&& en.buckets@[j].key == k
}

/// Whether `en` holds a bucket for type `k`.
pub(crate) open spec fn entry_has(en: EntityEntry, k: TypeKey) -> bool {
    exists|j: int| entry_bucket_at(en, k, j)
}

/// The locators `en` holds for type `k`, empty if it has no such bucket.
pub(crate) open spec fn entry_locs(en: EntityEntry, k: TypeKey) -> Seq<usize> {
    if entry_has(en, k) {
        en.buckets@[choose|j: int| entry_bucket_at(en, k, j)].locators@
    } else {
        Seq::empty()
    }
}

/// Within one entry, each type key occurs at most once.
pub(crate) open spec fn entry_wf(en: EntityEntry) -> bool {
    forall|a: int, b: int|
        entry_bucket_at(en, #[trigger] en.buckets@[a].key, a) && entry_bucket_at(
            en,
            #[trigger] en.buckets@[b].key,
            b,
        ) && en.buckets@[a].key == en.buckets@[b].key ==> a == b
}

/// A concrete bucket position determines the entry-level lookup.
pub(crate) proof fn lemma_entry_pins(en: EntityEntry, k: TypeKey, j: int)
    requires
        entry_wf(en),
        entry_bucket_at(en, k, j),
    ensures
        entry_has(en, k),
        entry_locs(en, k) == en.buckets@[j].locators@,
{
    let c = choose|j2: int| entry_bucket_at(en, k, j2);
    assert(c == j);
}

/// Appending a bucket for a new key keeps the old lookups and adds the new
/// one.
pub(crate) proof fn lemma_entry_push_bucket(pre: EntityEntry, post: EntityEntry, k: TypeKey, loc: usize)
    requires
        entry_wf(pre),
        !entry_has(pre, k),
        post.buckets@.len() == pre.buckets@.len() + 1,
        forall|b: int| 0 <= b < pre.buckets@.len() ==> post.buckets@[b] == pre.buckets@[b],
        post.buckets@.last().key == k,
        post.buckets@.last().locators@ == seq![loc],
    ensures
        entry_wf(post),
        entry_has(post, k),
        entry_locs(post, k) == Seq::<usize>::empty().push(loc),
        forall|k2: TypeKey| k2 != k ==> entry_has(post, k2) == entry_has(pre, k2),
        forall|k2: TypeKey| k2 != k ==> entry_locs(post, k2) == entry_locs(pre, k2),
{
    let last = pre.buckets@.len() as int;
    assert(entry_bucket_at(post, k, last));
    assert(entry_wf(post)) by {
        assert forall|a: int, b: int|
            entry_bucket_at(post, post.buckets@[a].key, a) && entry_bucket_at(
                post,
                post.buckets@[b].key,
                b,
            ) && post.buckets@[a].key == post.buckets@[b].key implies a == b by {
            if a < last && b < last {
                assert(entry_bucket_at(pre, pre.buckets@[a].key, a));
                assert(entry_bucket_at(pre, pre.buckets@[b].key, b));
            } else if a < last && b == last {
                assert(entry_bucket_at(pre, k, a));
            } else if a == last && b < last {
                assert(entry_bucket_at(pre, k, b));
            }
        }
    }
    lemma_entry_pins(post, k, last);
    assert forall|k2: TypeKey| k2 != k implies entry_has(post, k2) == entry_has(pre, k2)
        && entry_locs(post, k2) == entry_locs(pre, k2) by {
        if entry_has(pre, k2) {
            let j = choose|j: int| entry_bucket_at(pre, k2, j);
            assert(entry_bucket_at(post, k2, j));
            lemma_entry_pins(post, k2, j);
            lemma_entry_pins(pre, k2, j);
        } else {
            if entry_has(post, k2) {
                let j = choose|j: int| entry_bucket_at(post, k2, j);
                assert(j != last);
                assert(entry_bucket_at(pre, k2, j));
            }
        }
    }
}

/// Replacing the locators of the bucket for `k` changes that lookup and no
/// other.
pub(crate) proof fn lemma_entry_set_bucket(pre: EntityEntry, post: EntityEntry, k: TypeKey, j: int)
    requires
        entry_wf(pre),
        entry_bucket_at(pre, k, j),
        post.buckets@.len() == pre.buckets@.len(),
        forall|b: int| 0 <= b < pre.buckets@.len() && b != j ==> post.buckets@[b]
            == pre.buckets@[b],
        post.buckets@[j].key == k,
    ensures
        entry_wf(post),
        entry_has(post, k),
        entry_locs(post, k) == post.buckets@[j].locators@,
        entry_locs(pre, k) == pre.buckets@[j].locators@,
        forall|k2: TypeKey| k2 != k ==> entry_has(post, k2) == entry_has(pre, k2),
        forall|k2: TypeKey| k2 != k ==> entry_locs(post, k2) == entry_locs(pre, k2),
{
    assert forall|b: int| 0 <= b < post.buckets@.len() implies post.buckets@[b].key
        == pre.buckets@[b].key by {}
    assert(entry_wf(post)) by {
        assert forall|a: int, b: int|
            entry_bucket_at(post, post.buckets@[a].key, a) && entry_bucket_at(
                post,
                post.buckets@[b].key,
                b,
            ) && post.buckets@[a].key == post.buckets@[b].key implies a == b by {
            assert(entry_bucket_at(pre, pre.buckets@[a].key, a));
            assert(entry_bucket_at(pre, pre.buckets@[b].key, b));
        }
    }
    assert(entry_bucket_at(post, k, j));
    lemma_entry_pins(post, k, j);
    lemma_entry_pins(pre, k, j);
    assert forall|k2: TypeKey| k2 != k implies entry_has(post, k2) == entry_has(pre, k2)
        && entry_locs(post, k2) == entry_locs(pre, k2) by {
        if entry_has(pre, k2) {
            let b = choose|b: int| entry_bucket_at(pre, k2, b);
            assert(b != j);
            assert(entry_bucket_at(post, k2, b));
            lemma_entry_pins(post, k2, b);
            lemma_entry_pins(pre, k2, b);
        } else {
            if entry_has(post, k2) {
                let b = choose|b: int| entry_bucket_at(post, k2, b);
                assert(b != j);
                assert(entry_bucket_at(pre, k2, b));
            }
        }
    }
}

/// Removing the bucket for `k` clears that lookup and keeps every other.
pub(crate) proof fn lemma_entry_remove_bucket(pre: EntityEntry, post: EntityEntry, k: TypeKey, j: int)
    requires
        entry_wf(pre),
        entry_bucket_at(pre, k, j),
        post.buckets@ == pre.buckets@.remove(j),
    ensures
        entry_wf(post),
        !entry_has(post, k),
        forall|k2: TypeKey| k2 != k ==> entry_has(post, k2) == entry_has(pre, k2),
        forall|k2: TypeKey| k2 != k ==> entry_locs(post, k2) == entry_locs(pre, k2),
{
    let shift = |b: int| if b < j { b } else { b + 1 };
    assert forall|b: int| 0 <= b < post.buckets@.len() implies post.buckets@[b]
        == pre.buckets@[shift(b)] by {}
    assert(entry_wf(post)) by {
        assert forall|a: int, b: int|
            entry_bucket_at(post, post.buckets@[a].key, a) && entry_bucket_at(
                post,
                post.buckets@[b].key,
                b,
            ) && post.buckets@[a].key == post.buckets@[b].key implies a == b by {
            assert(entry_bucket_at(pre, pre.buckets@[shift(a)].key, shift(a)));
            assert(entry_bucket_at(pre, pre.buckets@[shift(b)].key, shift(b)));
        }
    }
    assert(!entry_has(post, k)) by {
        if entry_has(post, k) {
            let b = choose|b: int| entry_bucket_at(post, k, b);
            assert(entry_bucket_at(pre, k, shift(b)));
            assert(shift(b) == j);
        }
    }
    assert forall|k2: TypeKey| k2 != k implies entry_has(post, k2) == entry_has(pre, k2)
        && entry_locs(post, k2) == entry_locs(pre, k2) by {
        if entry_has(pre, k2) {
            let b = choose|b: int| entry_bucket_at(pre, k2, b);
            assert(b != j);
            let nb = if b < j { b } else { b - 1 };
            assert(shift(nb) == b);
            assert(entry_bucket_at(post, k2, nb));
            lemma_entry_pins(post, k2, nb);
            lemma_entry_pins(pre, k2, b);
        } else {
            if entry_has(post, k2) {
                let b = choose|b: int| entry_bucket_at(post, k2, b);
                assert(entry_bucket_at(pre, k2, shift(b)));
            }
        }
    }
}

/// Maps each entity to its per-type ordered lists of locators. The index
/// never resolves a locator itself; the component manager is the only party
/// that mutates the index and the stores, and it does so together.
pub struct EntityIndex {
    pub(crate) entries: Vec<EntityEntry>,
}

impl EntityIndex {
    /// Whether entry `i` is the one of entity `e`.
    pub(crate) open spec fn entity_at(self, e: EntityId, i: int) -> bool {
        &&& 0 <= i < self.entries@.len()
        &&& self.entries@[i].entity == e
    }

    /// Whether the index knows entity `e` at all.
    pub closed spec fn has_entity(self, e: EntityId) -> bool {
        exists|i: int| self.entity_at(e, i)
    }

    /// The entry of entity `e` (meaningful only when `has_entity(e)`).
    pub(crate) open spec fn entry_of(self, e: EntityId) -> EntityEntry {
        self.entries@[choose|i: int| self.entity_at(e, i)]
    }

    /// Whether entity `e` has a bucket for type `k`.
    pub closed spec fn has_bucket(self, e: EntityId, k: TypeKey) -> bool {
        self.has_entity(e) && entry_has(self.entry_of(e), k)
    }

    /// The locators of entity `e` for type `k`, empty if it has no bucket.
    pub closed spec fn locs(self, e: EntityId, k: TypeKey) -> Seq<usize> {
        if self.has_bucket(e, k) {
            entry_locs(self.entry_of(e), k)
        } else {
            Seq::empty()
        }
    }

    /// Internal validity: entities occur at most once, and each entry is
    /// itself well formed.
    pub closed spec fn wf(self) -> bool {
        &&& forall|i: int, j: int|
            self.entity_at(#[trigger] self.entries@[i].entity, i) && self.entity_at(
                #[trigger] self.entries@[j].entity,
                j,
            ) && self.entries@[i].entity == self.entries@[j].entity ==> i == j
        &&& forall|i: int| 0 <= i < self.entries@.len() ==> entry_wf(#[trigger] self.entries@[i])
    }

    /// Without a bucket there are no locators.
    pub(crate) proof fn lemma_locs_empty(self, e: EntityId, k: TypeKey)
        requires
            !self.has_bucket(e, k),
        ensures
            self.locs(e, k) == Seq::<usize>::empty(),
    {
    }

    /// A concrete entry position determines the entity-level lookup.
    pub(crate) proof fn lemma_entity_pins(self, e: EntityId, i: int)
        requires
            self.wf(),
            self.entity_at(e, i),
        ensures
            self.has_entity(e),
            self.entry_of(e) == self.entries@[i],
    {
        let c = choose|i2: int| self.entity_at(e, i2);
        assert(c == i);
    }

    pub fn new() -> (ix: EntityIndex)
        ensures
            ix.wf(),
            forall|e: EntityId, k: TypeKey| !ix.has_bucket(e, k),
            forall|e: EntityId, k: TypeKey| ix.locs(e, k) == Seq::<usize>::empty(),
    {
        EntityIndex { entries: Vec::new() }
    }

    /// Append `loc` to the bucket of `(e, k)`, creating the entry and the
    /// bucket as needed; per-bucket insertion order is preserved, and no
    /// other pair's locators change.
    pub fn register(&mut self, e: EntityId, k: TypeKey, loc: usize)
        requires
            old(self).wf(),
        ensures
            final(self).wf(),
            final(self).has_bucket(e, k),
            final(self).locs(e, k) == old(self).locs(e, k).push(loc),
            forall|e2: EntityId, k2: TypeKey| !(e2 == e && k2 == k)
                ==> #[trigger] final(self).has_bucket(e2, k2) == old(self).has_bucket(e2, k2),
            forall|e2: EntityId, k2: TypeKey| !(e2 == e && k2 == k)
                ==> #[trigger] final(self).locs(e2, k2) == old(self).locs(e2, k2),
    {
        let n = self.entries.len();
        let mut i: usize = 0;
        while i < n
            invariant
                *self == *old(self),
                old(self).wf(),
                n == self.entries@.len(),
                0 <= i <= n,
                forall|a: int| 0 <= a < i ==> self.entries@[a].entity != e,
            decreases n - i,
        {
            if self.entries[i].entity == e {
                let bn = self.entries[i].buckets.len();
                let mut bj: usize = 0;
                while bj < bn
                    invariant
                        *self == *old(self),
                        old(self).wf(),
                        i < self.entries@.len(),
                        self.entries@[i as int].entity == e,
                        bn == self.entries@[i as int].buckets@.len(),
                        0 <= bj <= bn,
                        forall|b: int| 0 <= b < bj ==> self.entries@[i as int].buckets@[b].key
                            != k,
                    decreases bn - bj,
                {
                    if self.entries[i].buckets[bj].key == k {
                        let ghost pre_en = self.entries@[i as int];
                        let entry = &mut self.entries[i];
                        let bucket = &mut entry.buckets[bj];
                        bucket.locators.push(loc);
                        proof {
                            old(self).lemma_entity_pins(e, i as int);
                            lemma_entry_set_bucket(pre_en, self.entries@[i as int], k, bj as int);
                            lemma_index_set_entry(*old(self), *self, i as int);
                            lemma_entry_pins(pre_en, k, bj as int);
                        }
                        return ;
                    }
                    bj = bj + 1;
                }
                let ghost pre_en = self.entries@[i as int];
                proof {
                    old(self).lemma_entity_pins(e, i as int);
                    assert(!entry_has(pre_en, k)) by {
                        if entry_has(pre_en, k) {
                            let b = choose|b: int| entry_bucket_at(pre_en, k, b);
                        }
                    }
                }
                let mut locators: Vec<usize> = Vec::new();
                locators.push(loc);
                let entry = &mut self.entries[i];
                entry.buckets.push(TypeBucket { key: k, locators });
                proof {
                    assert(self.entries@[i as int].buckets@.last().locators@ =~= seq![loc]);
                    lemma_entry_push_bucket(pre_en, self.entries@[i as int], k, loc);
                    lemma_index_set_entry(*old(self), *self, i as int);
                    assert(old(self).locs(e, k) =~= Seq::<usize>::empty());
                    assert(self.locs(e, k) =~= old(self).locs(e, k).push(loc));
                }
                return ;
            }
            i = i + 1;
        }
        proof {
            assert(!old(self).has_entity(e)) by {
                if old(self).has_entity(e) {
                    let a = choose|a: int| old(self).entity_at(e, a);
                }
            }
        }
        let mut locators: Vec<usize> = Vec::new();
        locators.push(loc);
        let mut buckets: Vec<TypeBucket> = Vec::new();
        buckets.push(TypeBucket { key: k, locators });
        self.entries.push(EntityEntry { entity: e, buckets });
        proof {
            let en = self.entries@.last();
            assert(en.buckets@.len() == 1);
            assert(entry_bucket_at(en, k, 0));
            assert(entry_wf(en));
            lemma_index_push_entry(*old(self), *self);
            lemma_entry_pins(en, k, 0);
            assert(en.buckets@[0].locators@ =~= seq![loc]);
            assert(old(self).locs(e, k) =~= Seq::<usize>::empty());
            assert(self.locs(e, k) =~= old(self).locs(e, k).push(loc));
        }
    }

    /// Look up the ordered locators of `(e, k)`; `None` when the entity has
    /// no bucket for that type.
    pub fn lookup(&self, e: EntityId, k: TypeKey) -> (r: Option<&Vec<usize>>)
        requires
            self.wf(),
        ensures
            match r {
                Some(v) => self.has_bucket(e, k) && v@ == self.locs(e, k),
                None => !self.has_bucket(e, k),
            },
    {
        let n = self.entries.len();
        let mut i: usize = 0;
        while i < n
            invariant
                self.wf(),
                n == self.entries@.len(),
                0 <= i <= n,
                forall|a: int| 0 <= a < i ==> self.entries@[a].entity != e,
            decreases n - i,
        {
            if self.entries[i].entity == e {
                proof {
                    self.lemma_entity_pins(e, i as int);
                }
                let bn = self.entries[i].buckets.len();
                let mut bj: usize = 0;
                while bj < bn
                    invariant
                        self.wf(),
                        i < self.entries@.len(),
                        self.entries@[i as int].entity == e,
                        self.entry_of(e) == self.entries@[i as int],
                        self.has_entity(e),
                        bn == self.entries@[i as int].buckets@.len(),
                        0 <= bj <= bn,
                        forall|b: int| 0 <= b < bj ==> self.entries@[i as int].buckets@[b].key
                            != k,
                    decreases bn - bj,
                {
                    if self.entries[i].buckets[bj].key == k {
                        proof {
                            lemma_entry_pins(self.entries@[i as int], k, bj as int);
                        }
                        let entry = &self.entries[i];
                        let bucket = &entry.buckets[bj];
                        return Some(&bucket.locators);
                    }
                    bj = bj + 1;
                }
                proof {
                    assert(!entry_has(self.entries@[i as int], k)) by {
                        if entry_has(self.entries@[i as int], k) {
                            let b = choose|b: int| entry_bucket_at(self.entries@[i as int], k, b);
                        }
                    }
                }
                return None;
            }
            i = i + 1;
        }
        proof {
            assert(!self.has_entity(e)) by {
                if self.has_entity(e) {
                    let a = choose|a: int| self.entity_at(e, a);
                }
            }
        }
        None
    }

    /// Remove the bucket for type `k` from every entity; every other type's
    /// locators are untouched.
    pub fn prune(&mut self, k: TypeKey)
        requires
            old(self).wf(),
        ensures
            final(self).wf(),
            forall|e: EntityId| !final(self).has_bucket(e, k),
            forall|e: EntityId, k2: TypeKey| k2 != k ==> #[trigger] final(self).has_bucket(e, k2)
                == old(self).has_bucket(e, k2),
            forall|e: EntityId, k2: TypeKey| k2 != k ==> #[trigger] final(self).locs(e, k2)
                == old(self).locs(e, k2),
    {
        let n = self.entries.len();
        let mut i: usize = 0;
        while i < n
            invariant
                old(self).wf(),
                self.wf(),
                n == self.entries@.len(),
                old(self).entries@.len() == n,
                0 <= i <= n,
                forall|a: int| 0 <= a < n
                    ==> self.entries@[a].entity == old(self).entries@[a].entity,
                forall|a: int| i <= a < n ==> self.entries@[a] == old(self).entries@[a],
                forall|a: int| 0 <= a < i ==> !entry_has(#[trigger] self.entries@[a], k),
                forall|e: EntityId, k2: TypeKey| k2 != k ==> #[trigger] self.has_bucket(e, k2)
                    == old(self).has_bucket(e, k2),
                forall|e: EntityId, k2: TypeKey| k2 != k
                    ==> #[trigger] self.locs(e, k2) == old(self).locs(e, k2),
            decreases n - i,
        {
            let bn = self.entries[i].buckets.len();
            let mut bj: usize = 0;
            let mut found: bool = false;
            while bj < bn && !found
                invariant
                    i < self.entries@.len(),
                    bn == self.entries@[i as int].buckets@.len(),
                    0 <= bj <= bn,
                    found ==> bj < bn && self.entries@[i as int].buckets@[bj as int].key == k,
                    !found ==> forall|b: int| 0 <= b < bj ==> self.entries@[i as int].buckets@[b].key
                        != k,
                decreases bn - bj + (if found { 0int } else { 1int }),
            {
                if self.entries[i].buckets[bj].key == k {
                    found = true;
                } else {
                    bj = bj + 1;
                }
            }
            let ghost cur = *self;
            if found {
                let entry = &mut self.entries[i];
                entry.buckets.remove(bj);
                proof {
                    lemma_entry_remove_bucket(cur.entries@[i as int], self.entries@[i as int], k, bj as int);
                    lemma_index_set_entry(cur, *self, i as int);
                    assert forall|e: EntityId, k2: TypeKey| k2 != k implies #[trigger] self.locs(
                        e,
                        k2,
                    ) == old(self).locs(e, k2) && self.has_bucket(e, k2) == old(self).has_bucket(
                        e,
                        k2,
                    ) by {
                        if e == cur.entries@[i as int].entity {
                            assert(cur.has_bucket(e, k2) == old(self).has_bucket(e, k2));
                            assert(cur.locs(e, k2) == old(self).locs(e, k2));
                        }
                    }
                }
            } else {
                proof {
                    assert(!entry_has(self.entries@[i as int], k)) by {
                        if entry_has(self.entries@[i as int], k) {
                            let b = choose|b: int| entry_bucket_at(self.entries@[i as int], k, b);
                        }
                    }
                }
            }
            i = i + 1;
        }
        proof {
            assert forall|e: EntityId| !self.has_bucket(e, k) by {
                if self.has_entity(e) {
                    let a = choose|a: int| self.entity_at(e, a);
                    self.lemma_entity_pins(e, a);
                }
            }
        }
    }

    /// The entities that have at least one bucket for type `k`, each listed
    /// once, in index order.
    pub fn entities_with(&self, k: TypeKey) -> (r: Vec<EntityId>)
        requires
            self.wf(),
        ensures
            r@.no_duplicates(),
            forall|e: EntityId| #[trigger] r@.contains(e) <==> self.has_bucket(e, k),
    {
        let n = self.entries.len();
        let mut out: Vec<EntityId> = Vec::new();
        let mut i: usize = 0;
        while i < n
            invariant
                self.wf(),
                n == self.entries@.len(),
                0 <= i <= n,
                out@.no_duplicates(),
                forall|e: EntityId| #[trigger] out@.contains(e) <==> exists|a: int|
                    0 <= a < i && self.entries@[a].entity == e && entry_has(
                        #[trigger] self.entries@[a],
                        k,
                    ),
            decreases n - i,
        {
            let bn = self.entries[i].buckets.len();
            let mut bj: usize = 0;
            let mut found: bool = false;
            while bj < bn && !found
                invariant
                    i < self.entries@.len(),
                    bn == self.entries@[i as int].buckets@.len(),
                    0 <= bj <= bn,
                    found ==> bj < bn && self.entries@[i as int].buckets@[bj as int].key == k,
                    !found ==> forall|b: int| 0 <= b < bj
                        ==> self.entries@[i as int].buckets@[b].key != k,
                decreases bn - bj + (if found { 0int } else { 1int }),
            {
                if self.entries[i].buckets[bj].key == k {
                    found = true;
                } else {
                    bj = bj + 1;
                }
            }
            let ghost ent = self.entries@[i as int].entity;
            let ghost prev = out@;
            if found {
                proof {
                    assert(!out@.contains(ent)) by {
                        if out@.contains(ent) {
                            let a = choose|a: int|
                                0 <= a < i && self.entries@[a].entity == ent && entry_has(
                                    self.entries@[a],
                                    k,
                                );
                            assert(self.entity_at(ent, a));
                            assert(self.entity_at(ent, i as int));
                        }
                    }
                }
                out.push(self.entries[i].entity);
                proof {
                    assert(entry_bucket_at(self.entries@[i as int], k, bj as int));
                    assert forall|e: EntityId| #[trigger] out@.contains(e) <==> (prev.contains(e)
                        || e == ent) by {
                        if out@.contains(e) {
                            let t = choose|t: int| 0 <= t < out@.len() && out@[t] == e;
                            if t < prev.len() {
                                assert(prev[t] == e);
                            }
                        }
                        if prev.contains(e) {
                            let t = choose|t: int| 0 <= t < prev.len() && prev[t] == e;
                            assert(out@[t] == e);
                        }
                        if e == ent {
                            assert(out@[out@.len() - 1] == e);
                        }
                    }
                }
            } else {
                proof {
                    assert(!entry_has(self.entries@[i as int], k)) by {
                        if entry_has(self.entries@[i as int], k) {
                            let b = choose|b: int| entry_bucket_at(self.entries@[i as int], k, b);
                        }
                    }
                }
            }
            proof {
                assert forall|e: EntityId| #[trigger] out@.contains(e) implies exists|a: int|
                    0 <= a < i + 1 && self.entries@[a].entity == e && entry_has(
                        #[trigger] self.entries@[a],
                        k,
                    ) by {
                    if prev.contains(e) {
                        let a = choose|a: int|
                            0 <= a < i && self.entries@[a].entity == e && entry_has(
                                self.entries@[a],
                                k,
                            );
                        assert(0 <= a < i + 1 && self.entries@[a].entity == e && entry_has(
                            self.entries@[a],
                            k,
                        ));
                    } else {
                        assert(self.entries@[i as int].entity == e && entry_has(
                            self.entries@[i as int],
                            k,
                        ));
                    }
                }
                assert forall|e: EntityId|
                    (exists|a: int|
                        0 <= a < i + 1 && self.entries@[a].entity == e && entry_has(
                            #[trigger] self.entries@[a],
                            k,
                        )) implies out@.contains(e) by {
                    let a = choose|a: int|
                        0 <= a < i + 1 && self.entries@[a].entity == e && entry_has(
                            self.entries@[a],
                            k,
                        );
                    if a < i {
                        assert(prev.contains(e));
                    }
                }
            }
            i = i + 1;
        }
        proof {
            assert forall|e: EntityId| #[trigger] out@.contains(e) <==> self.has_bucket(e, k) by {
                if out@.contains(e) {
                    let a = choose|a: int|
                        0 <= a < n && self.entries@[a].entity == e && entry_has(
                            self.entries@[a],
                            k,
                        );
                    self.lemma_entity_pins(e, a);
                }
                if self.has_bucket(e, k) {
                    let a = choose|a: int| self.entity_at(e, a);
                    self.lemma_entity_pins(e, a);
                }
            }
        }
        out
    }
}

/// Replacing entry `i` with a well-formed entry of the same entity rewires
/// that entity's lookups to the new entry and keeps every other entity's.
pub(crate) proof fn lemma_index_set_entry(pre: EntityIndex, post: EntityIndex, i: int)
    requires
        pre.wf(),
        0 <= i < pre.entries@.len(),
        post.entries@.len() == pre.entries@.len(),
        forall|a: int| 0 <= a < pre.entries@.len() && a != i ==> post.entries@[a]
            == pre.entries@[a],
        post.entries@[i].entity == pre.entries@[i].entity,
        entry_wf(post.entries@[i]),
    ensures
        post.wf(),
        forall|k: TypeKey| post.has_bucket(pre.entries@[i].entity, k) == entry_has(
            post.entries@[i],
            k,
        ),
        forall|k: TypeKey| #[trigger] post.locs(pre.entries@[i].entity, k) == if entry_has(
            post.entries@[i],
            k,
        ) {
            entry_locs(post.entries@[i], k)
        } else {
            Seq::<usize>::empty()
        },
        forall|k: TypeKey| pre.has_bucket(pre.entries@[i].entity, k) == entry_has(
            pre.entries@[i],
            k,
        ),
        forall|k: TypeKey| #[trigger] pre.locs(pre.entries@[i].entity, k) == if entry_has(
            pre.entries@[i],
            k,
        ) {
            entry_locs(pre.entries@[i], k)
        } else {
            Seq::<usize>::empty()
        },
        forall|e: EntityId, k: TypeKey| e != pre.entries@[i].entity ==> #[trigger] post.has_bucket(
            e,
            k,
        ) == pre.has_bucket(e, k),
        forall|e: EntityId, k: TypeKey| e != pre.entries@[i].entity ==> #[trigger] post.locs(e, k)
            == pre.locs(e, k),
{
    let ent = pre.entries@[i].entity;
    assert forall|a: int| 0 <= a < post.entries@.len() implies post.entries@[a].entity
        == pre.entries@[a].entity by {}
    assert(post.wf());
    post.lemma_entity_pins(ent, i);
    pre.lemma_entity_pins(ent, i);
    assert forall|e: EntityId, k: TypeKey| e != ent implies post.has_bucket(e, k)
        == pre.has_bucket(e, k) && post.locs(e, k) == pre.locs(e, k) by {
        if pre.has_entity(e) {
            let a = choose|a: int| pre.entity_at(e, a);
            assert(a != i);
            assert(post.entity_at(e, a));
            post.lemma_entity_pins(e, a);
            pre.lemma_entity_pins(e, a);
        } else {
            assert(!post.has_entity(e)) by {
                if post.has_entity(e) {
                    let a = choose|a: int| post.entity_at(e, a);
                    assert(pre.entity_at(e, a));
                }
            }
        }
    }
}

/// Appending an entry for a new entity adds that entity's lookups and keeps
/// every other entity's.
pub(crate) proof fn lemma_index_push_entry(pre: EntityIndex, post: EntityIndex)
    requires
        pre.wf(),
        forall|a: int| 0 <= a < pre.entries@.len() ==> pre.entries@[a].entity
            != post.entries@.last().entity,
        post.entries@.len() == pre.entries@.len() + 1,
        forall|a: int| 0 <= a < pre.entries@.len() ==> post.entries@[a] == pre.entries@[a],
        entry_wf(post.entries@.last()),
    ensures
        post.wf(),
        forall|k: TypeKey| post.has_bucket(post.entries@.last().entity, k) == entry_has(
            post.entries@.last(),
            k,
        ),
        forall|k: TypeKey| #[trigger] post.locs(post.entries@.last().entity, k) == if entry_has(
            post.entries@.last(),
            k,
        ) {
            entry_locs(post.entries@.last(), k)
        } else {
            Seq::<usize>::empty()
        },
        forall|k: TypeKey| !pre.has_bucket(post.entries@.last().entity, k),
        forall|k: TypeKey| pre.locs(post.entries@.last().entity, k) == Seq::<usize>::empty(),
        forall|e: EntityId, k: TypeKey| e != post.entries@.last().entity ==> #[trigger] post.has_bucket(
            e,
            k,
        ) == pre.has_bucket(e, k),
        forall|e: EntityId, k: TypeKey| e != post.entries@.last().entity ==> #[trigger] post.locs(
            e,
            k,
        ) == pre.locs(e, k),
{
    let last = pre.entries@.len() as int;
    let ent = post.entries@.last().entity;
    assert(post.wf()) by {
        assert forall|a: int, b: int|
            post.entity_at(post.entries@[a].entity, a) && post.entity_at(
                post.entries@[b].entity,
                b,
            ) && post.entries@[a].entity == post.entries@[b].entity implies a == b by {
            if a < last && b < last {
                assert(pre.entity_at(pre.entries@[a].entity, a));
                assert(pre.entity_at(pre.entries@[b].entity, b));
            }
        }
    }
    assert(post.entity_at(ent, last));
    post.lemma_entity_pins(ent, last);
    assert(!pre.has_entity(ent)) by {
        if pre.has_entity(ent) {
            let a = choose|a: int| pre.entity_at(ent, a);
            assert(pre.entries@[a].entity != ent);
        }
    }
    assert forall|e: EntityId, k: TypeKey| e != ent implies post.has_bucket(e, k)
        == pre.has_bucket(e, k) && post.locs(e, k) == pre.locs(e, k) by {
        if pre.has_entity(e) {
            let a = choose|a: int| pre.entity_at(e, a);
            assert(post.entity_at(e, a));
            post.lemma_entity_pins(e, a);
            pre.lemma_entity_pins(e, a);
        } else {
            assert(!post.has_entity(e)) by {
                if post.has_entity(e) {
                    let a = choose|a: int| post.entity_at(e, a);
                    assert(a != last);
                    assert(pre.entity_at(e, a));
                }
            }
        }
    }
}

} // verus!
