//! Entity identifiers, their allocator, and the optional name registry.

use vstd::prelude::*;

verus! {

/// An opaque unique identifier for a game object; it carries no data of its
/// own and exists only to key components.
pub type EntityId = u64;

/// One name-to-entity binding in the registry.
pub(crate) struct NamedEntity {
    pub(crate) name: String,
    pub(crate) id: EntityId,
}

/// Issues unique entity identifiers and keeps track of named entities.
///
/// Identifiers are allocated from a counter owned by this manager, so
/// independent managers allocate independently; ids from one manager are
/// monotonically increasing and never reused.
pub struct EntityManager {
    pub(crate) id_counter: EntityId,
    pub(crate) named_entities: Vec<NamedEntity>,
}

impl EntityManager {
    /// The value of the allocation counter: every id handed out so far is
    /// at most this value, and the next id will be exactly one above it.
    pub closed spec fn counter(self) -> EntityId {
        self.id_counter
    }

    /// The name registry as a map from name (a sequence of characters) to
    /// the entity id most recently registered under that name.
    pub closed spec fn names(self) -> Map<Seq<char>, EntityId> {
        Map::new(
            |n: Seq<char>|
                exists|i: int|
                    0 <= i < self.named_entities@.len() && self.named_entities@[i].name@ == n,
            |n: Seq<char>|
                self.named_entities@[choose|i: int|
                    0 <= i < self.named_entities@.len() && self.named_entities@[i].name@ == n].id,
        )
    }

    /// Internal validity: no name occurs twice in the registry.
    pub closed spec fn wf(self) -> bool {
        forall|i: int, j: int|
            0 <= i < self.named_entities@.len() && 0 <= j < self.named_entities@.len()
                && self.named_entities@[i].name@ == self.named_entities@[j].name@ ==> i == j
    }

    pub fn new() -> (m: EntityManager)
        ensures
            m.wf(),
            m.counter() == 0,
            m.names() == Map::<Seq<char>, EntityId>::empty(),
    {
        let m = EntityManager { id_counter: 0, named_entities: Vec::new() };
        proof {
            assert(m.names() =~= Map::<Seq<char>, EntityId>::empty());
        }
        m
    }

    /// Generate a fresh entity id, one greater than every id this manager
    /// has handed out before.
    pub fn create(&mut self) -> (id: EntityId)
        requires
            old(self).wf(),
            old(self).counter() < u64::MAX,
        ensures
            final(self).wf(),
            id == old(self).counter() + 1,
            final(self).counter() == id,
            final(self).names() == old(self).names(),
    {
        self.id_counter = self.id_counter + 1;
        proof {
            assert(self.names() =~= old(self).names());
        }
        self.id_counter
    }

    /// Generate a fresh entity id and register it under `name`; a name that
    /// was already registered is silently rebound to the new id.
    pub fn create_named(&mut self, name: &str) -> (id: EntityId)
        requires
            old(self).wf(),
            old(self).counter() < u64::MAX,
        ensures
            final(self).wf(),
            id == old(self).counter() + 1,
            final(self).counter() == id,
            final(self).names() == old(self).names().insert(name@, id),
    {
        let id = self.create();
        let key: String = name.to_owned();
        let ghost pre = *self;
        let n = self.named_entities.len();
        let mut i: usize = 0;
        while i < n
            invariant
                pre == *self,
                pre.wf(),
                pre.counter() == id,
                id == old(self).counter() + 1,
                pre.names() == old(self).names(),
                n == self.named_entities@.len(),
                key@ == name@,
                0 <= i <= n,
                forall|j: int| 0 <= j < i ==> self.named_entities@[j].name@ != name@,
            decreases n - i,
        {
            if self.named_entities[i].name == key {
                self.named_entities[i].id = id;
                proof {
                    lemma_rebind_updates_names(pre, *self, i as int, name@, id);
                }
                return id;
            }
            i = i + 1;
        }
        self.named_entities.push(NamedEntity { name: key, id });
        proof {
            lemma_push_updates_names(pre, *self, name@, id);
        }
        id
    }

    /// Look up the entity id registered under `name`; a miss returns the
    /// key itself as the failure value.
    pub fn get_named(&self, name: &str) -> (r: Result<EntityId, String>)
        requires
            self.wf(),
        ensures
            match r {
                Ok(id) => self.names().dom().contains(name@) && id == self.names()[name@],
                Err(missing) => !self.names().dom().contains(name@) && missing@ == name@,
            },
    {
        let key: String = name.to_owned();
        let n = self.named_entities.len();
        let mut i: usize = 0;
        while i < n
            invariant
                n == self.named_entities@.len(),
                key@ == name@,
                0 <= i <= n,
                self.wf(),
                forall|j: int| 0 <= j < i ==> self.named_entities@[j].name@ != name@,
            decreases n - i,
        {
            if self.named_entities[i].name == key {
                proof {
                    let c = choose|t: int|
                        0 <= t < self.named_entities@.len() && self.named_entities@[t].name@
                            == name@;
                    assert(c == i as int);
                }
                return Ok(self.named_entities[i].id);
            }
            i = i + 1;
        }
        Err(key)
    }
}

/// Rebinding an existing name in place updates the registry map at exactly
/// that name.
proof fn lemma_rebind_updates_names(pre: EntityManager, post: EntityManager, i: int, n: Seq<char>, id: EntityId)
    requires
        pre.wf(),
        0 <= i < pre.named_entities@.len(),
        pre.named_entities@[i].name@ == n,
        post.named_entities@ == pre.named_entities@.update(
            i,
            (NamedEntity { name: pre.named_entities@[i].name, id }),
        ),
    ensures
        post.wf(),
        post.names() == pre.names().insert(n, id),
{
    assert forall|a: int| 0 <= a < post.named_entities@.len() implies post.named_entities@[a].name@
        == pre.named_entities@[a].name@ by {}
    assert(post.names() =~= pre.names().insert(n, id)) by {
        assert forall|m: Seq<char>| pre.names().insert(n, id).dom().contains(m) implies
            post.names().dom().contains(m) by {
            if m == n {
                assert(post.named_entities@[i].name@ == m);
            } else {
                let w = choose|t: int|
                    0 <= t < pre.named_entities@.len() && pre.named_entities@[t].name@ == m;
                assert(post.named_entities@[w].name@ == m);
            }
        }
        assert forall|m: Seq<char>| post.names().dom().contains(m) implies
            pre.names().insert(n, id).dom().contains(m) by {
            let w = choose|t: int|
                0 <= t < post.named_entities@.len() && post.named_entities@[t].name@ == m;
            if m != n {
                assert(pre.named_entities@[w].name@ == m);
            }
        }
        assert forall|m: Seq<char>| post.names().dom().contains(m) implies post.names()[m]
            == pre.names().insert(n, id)[m] by {
            let w = choose|t: int|
                0 <= t < post.named_entities@.len() && post.named_entities@[t].name@ == m;
            if m == n {
                assert(w == i);
            } else {
                assert(pre.named_entities@[w].name@ == m);
                let v = choose|t: int|
                    0 <= t < pre.named_entities@.len() && pre.named_entities@[t].name@ == m;
                assert(v == w);
                assert(w != i);
            }
        }
    }
}

/// Registering a name that is not yet present appends a binding and updates
/// the registry map at exactly that name.
proof fn lemma_push_updates_names(pre: EntityManager, post: EntityManager, n: Seq<char>, id: EntityId)
    requires
        pre.wf(),
        forall|j: int| 0 <= j < pre.named_entities@.len() ==> pre.named_entities@[j].name@ != n,
        post.named_entities@.len() == pre.named_entities@.len() + 1,
        forall|j: int| 0 <= j < pre.named_entities@.len() ==> post.named_entities@[j]
            == pre.named_entities@[j],
        post.named_entities@.last().name@ == n,
        post.named_entities@.last().id == id,
    ensures
        post.wf(),
        post.names() == pre.names().insert(n, id),
{
    let len = pre.named_entities@.len() as int;
    assert(post.names() =~= pre.names().insert(n, id)) by {
        assert forall|m: Seq<char>| pre.names().insert(n, id).dom().contains(m) implies
            post.names().dom().contains(m) by {
            if m == n {
                assert(post.named_entities@[len].name@ == m);
            } else {
                let w = choose|t: int|
                    0 <= t < pre.named_entities@.len() && pre.named_entities@[t].name@ == m;
                assert(post.named_entities@[w].name@ == m);
            }
        }
        assert forall|m: Seq<char>| post.names().dom().contains(m) implies
            pre.names().insert(n, id).dom().contains(m) by {
            let w = choose|t: int|
                0 <= t < post.named_entities@.len() && post.named_entities@[t].name@ == m;
            if m != n && w < len {
                assert(pre.named_entities@[w].name@ == m);
            }
        }
        assert forall|m: Seq<char>| post.names().dom().contains(m) implies post.names()[m]
            == pre.names().insert(n, id)[m] by {
            let w = choose|t: int|
                0 <= t < post.named_entities@.len() && post.named_entities@[t].name@ == m;
            if m == n {
                assert(w == len);
            } else {
                assert(w < len);
                assert(pre.named_entities@[w].name@ == m);
                let v = choose|t: int|
                    0 <= t < pre.named_entities@.len() && pre.named_entities@[t].name@ == m;
                assert(v == w);
            }
        }
    }
}

/// Exactly what one `create` call promises of the counter: it moves from
/// `c0` to `c1` and hands out `id`.
pub open spec fn create_step(c0: EntityId, c1: EntityId, id: EntityId) -> bool {
    &&& c0 < u64::MAX
    &&& c1 == c0 + 1
    &&& id == c1
}

/// The law that fresh ids are pairwise distinct: along any chain of `create`
/// calls on one manager, where each call starts from the counter the previous
/// call left behind, the returned ids never repeat.
///
/// `counters` holds the counter before the first call and after each call;
/// `ids[t]` is the id returned by the call that moved the counter from
/// `counters[t]` to `counters[t + 1]`.
pub proof fn lemma_create_ids_pairwise_distinct(counters: Seq<EntityId>, ids: Seq<EntityId>)
    requires
        counters.len() == ids.len() + 1,
        forall|t: int| 0 <= t < ids.len() ==> #[trigger] create_step(
            counters[t],
            counters[t + 1],
            ids[t],
        ),
    ensures
        forall|a: int, b: int| 0 <= a < b < ids.len() ==> ids[a] != ids[b],
{
    assert forall|a: int, b: int| 0 <= a < b < ids.len() implies ids[a] != ids[b] by {
        lemma_counters_increase(counters, ids, a + 1, b);
        assert(create_step(counters[a], counters[a + 1], ids[a]));
        assert(create_step(counters[b], counters[b + 1], ids[b]));
    }
}

/// Helper for the distinctness law: the counter values only grow along the
/// chain of calls.
proof fn lemma_counters_increase(counters: Seq<EntityId>, ids: Seq<EntityId>, a: int, b: int)
    requires
        counters.len() == ids.len() + 1,
        forall|t: int| 0 <= t < ids.len() ==> #[trigger] create_step(
            counters[t],
            counters[t + 1],
            ids[t],
        ),
        0 <= a <= b < counters.len(),
    ensures
        counters[a] <= counters[b],
    decreases b - a,
{
    if a < b {
        lemma_counters_increase(counters, ids, a, b - 1);
        let t = b - 1;
        assert(create_step(counters[t], counters[t + 1], ids[t]));
    }
}

} // verus!
