//! Replicated component data in transit: per-entity component blobs, the
//! per-tick update message, the client-side snapshot store with its
//! retention window, and the server-side per-client outbox.

use vstd::prelude::*;

verus! {

use crate::ordmap::{
    deep_pairs,
    deep_view,
    entries_sorted,
    entries_to_map,
    lemma_deep_view,
    lemma_entries_to_map_contains,
    lemma_entries_to_map_value,
    OrdMap,
};
use crate::tick::NetworkTick;
use crate::SNAPSHOT_RETAIN_BUFFER;

/// Ordered mapping from replicate id to the encoded bytes of one
/// component. Merging is key-wise last-writer-wins.
pub struct ComponentsUpdate {
    data: OrdMap<Vec<u8>>,
}

impl View for ComponentsUpdate {
    type V = Map<u64, Seq<u8>>;

    closed spec fn view(&self) -> Map<u64, Seq<u8>> {
        deep_view(self.data)
    }
}

impl ComponentsUpdate {
    /// The (replicate id, bytes) pairs in ascending id order.
    pub closed spec fn pairs(self) -> Seq<(u64, Seq<u8>)> {
        deep_pairs(self.data)
    }

    pub closed spec fn wf(self) -> bool {
        self.data.wf()
    }

    /// The pairs are sorted by id, carry exactly the keys of the view,
    /// denote it, and fit the machine.
    pub proof fn lemma_pairs(self)
        requires
            self.wf(),
        ensures
            entries_sorted(self.pairs()),
            self@ == entries_to_map(self.pairs()),
            self.pairs().len() <= usize::MAX,
            forall|i: int|
                0 <= i < self.pairs().len() ==> self@.contains_key((#[trigger] self.pairs()[i]).0)
                    && self@[self.pairs()[i].0] == self.pairs()[i].1
                    && self.pairs()[i].1.len() <= usize::MAX,
            forall|k: u64| #[trigger]
                self@.contains_key(k) ==> exists|i: int|
                    0 <= i < self.pairs().len() && (#[trigger] self.pairs()[i]).0 == k,
    {
        lemma_deep_view(self.data);
        self.data.lemma_len_bounded();
        assert forall|i: int| 0 <= i < self.pairs().len() implies self@.contains_key((
        #[trigger] self.pairs()[i]).0) && self@[self.pairs()[i].0] == self.pairs()[i].1
            && self.pairs()[i].1.len() <= usize::MAX by {
            lemma_entries_to_map_value(self.pairs(), i);
            let v = self.data.entry_seq()[i].1;
            assert(vstd::std_specs::vec::spec_vec_len(&v) == v@.len());
            assert(self.pairs()[i].1 == v@);
        }
        assert forall|k: u64| #[trigger] self@.contains_key(k) implies exists|i: int|
            0 <= i < self.pairs().len() && (#[trigger] self.pairs()[i]).0 == k by {
            lemma_entries_to_map_contains(self.pairs(), k);
        }
    }

    pub fn new() -> (r: Self)
        ensures
            r.wf(),
            r@ == Map::<u64, Seq<u8>>::empty(),
            r.pairs() == Seq::<(u64, Seq<u8>)>::empty(),
    {
        let r = ComponentsUpdate { data: OrdMap::new() };
        proof {
            assert(r.pairs() =~= Seq::<(u64, Seq<u8>)>::empty());
        }
        r
    }

    pub fn len(&self) -> (r: usize)
        requires
            self.wf(),
        ensures
            r == self.pairs().len(),
    {
        self.data.len()
    }

    pub fn is_empty(&self) -> (r: bool)
        requires
            self.wf(),
        ensures
            r <==> self.pairs().len() == 0,
    {
        self.data.is_empty()
    }

    /// The replicate id of the pair at an index.
    pub fn id_at(&self, i: usize) -> (r: u64)
        requires
            self.wf(),
            i < self.pairs().len(),
        ensures
            r == self.pairs()[i as int].0,
    {
        self.data.key_at(i)
    }

    /// The encoded bytes of the pair at an index.
    pub fn data_at(&self, i: usize) -> (r: &Vec<u8>)
        requires
            self.wf(),
            i < self.pairs().len(),
        ensures
            r@ == self.pairs()[i as int].1,
    {
        self.data.value_at(i)
    }

    pub fn get(&self, id: u64) -> (r: Option<&Vec<u8>>)
        requires
            self.wf(),
        ensures
            r is Some <==> self@.contains_key(id),
            r matches Some(v) ==> v@ == self@[id],
    {
        proof {
            lemma_deep_view(self.data);
        }
        self.data.get(id)
    }

    pub fn insert(&mut self, id: u64, bytes: Vec<u8>)
        requires
            old(self).wf(),
        ensures
            final(self).wf(),
            final(self)@ == old(self)@.insert(id, bytes@),
    {
        proof {
            lemma_deep_view(self.data);
        }
        self.data.insert(id, bytes);
        proof {
            lemma_deep_view(self.data);
            assert(final(self)@ =~= old(self)@.insert(id, bytes@));
        }
    }

    /// An independent copy carrying the same bytes.
    pub fn duplicate(&self) -> (r: Self)
        requires
            self.wf(),
        ensures
            r.wf(),
            r@ == self@,
    {
        proof {
            self.lemma_pairs();
        }
        let mut r = ComponentsUpdate::new();
        let n = self.len();
        let mut i: usize = 0;
        while i < n
            invariant
                self.wf(),
                n == self.pairs().len(),
                i <= n,
                r.wf(),
                r@ == entries_to_map(self.pairs().take(i as int)),
            decreases n - i,
        {
            let id = self.id_at(i);
            let data = self.data_at(i);
            r.insert(id, copy_bytes(data));
            proof {
                let t = self.pairs().take(i as int + 1);
                assert(t.drop_last() =~= self.pairs().take(i as int));
                assert(t.last() == self.pairs()[i as int]);
            }
            i = i + 1;
        }
        proof {
            assert(self.pairs().take(n as int) =~= self.pairs());
            self.lemma_pairs();
        }
        r
    }

    /// Merge `other` into `self`: keys of `other` win on overlap.
    pub fn apply(&mut self, other: ComponentsUpdate)
        requires
            old(self).wf(),
            other.wf(),
        ensures
            final(self).wf(),
            final(self)@ == old(self)@.union_prefer_right(other@),
    {
        proof {
            lemma_deep_view(self.data);
            lemma_deep_view(other.data);
        }
        self.data.merge(other.data);
        proof {
            lemma_deep_view(self.data);
            assert(final(self)@ =~= old(self)@.union_prefer_right(other@));
        }
    }
}

/// An independent copy of a byte run.
fn copy_bytes(data: &Vec<u8>) -> (r: Vec<u8>)
    ensures
        r@ == data@,
{
    let n = data.len();
    let mut r: Vec<u8> = Vec::new();
    let mut k: usize = 0;
    while k < n
        invariant
            n == data@.len(),
            k <= n,
            r@ == data@.take(k as int),
        decreases n - k,
    {
        r.push(data[k]);
        proof {
            assert(data@.take(k as int + 1) =~= data@.take(k as int).push(data@[k as int]));
        }
        k = k + 1;
    }
    proof {
        assert(data@.take(n as int) =~= data@);
    }
    r
}

/// What the per-entity component map looks like after one blob is set:
/// the entity's existing components, or none, with the blob written.
pub open spec fn spec_components_with(
    entities: Map<u64, Map<u64, Seq<u8>>>,
    entity: u64,
    id: u64,
    bytes: Seq<u8>,
) -> Map<u64, Seq<u8>> {
    (if entities.contains_key(entity) {
        entities[entity]
    } else {
        Map::<u64, Seq<u8>>::empty()
    }).insert(id, bytes)
}

/// Key-wise merge of two per-entity maps: entities present in both merge
/// their component maps with `b` winning per component; others carry over.
pub open spec fn merge_entities(
    a: Map<u64, Map<u64, Seq<u8>>>,
    b: Map<u64, Map<u64, Seq<u8>>>,
) -> Map<u64, Map<u64, Seq<u8>>> {
    Map::new(
        |e: u64| a.contains_key(e) || b.contains_key(e),
        |e: u64|
            if a.contains_key(e) && b.contains_key(e) {
                a[e].union_prefer_right(b[e])
            } else if b.contains_key(e) {
                b[e]
            } else {
                a[e]
            },
    )
}

/// Ordered mapping from server entity to its component update. Merging is
/// key-wise: shared entities merge their component maps, new entities are
/// inserted.
pub struct EntityUpdate {
    data: OrdMap<ComponentsUpdate>,
}

impl View for EntityUpdate {
    type V = Map<u64, Map<u64, Seq<u8>>>;

    closed spec fn view(&self) -> Map<u64, Map<u64, Seq<u8>>> {
        deep_view(self.data)
    }
}

impl EntityUpdate {
    pub closed spec fn wf(self) -> bool {
        self.data.wf() && forall|k: u64| #[trigger]
            self.data@.contains_key(k) ==> self.data@[k].wf()
    }

    /// The (server entity, component map) pairs in ascending entity order.
    pub closed spec fn pairs(self) -> Seq<(u64, Map<u64, Seq<u8>>)> {
        deep_pairs(self.data)
    }

    /// The canonical (replicate id, bytes) pairs of the component update
    /// held for the entity at an index.
    pub closed spec fn component_pairs_at(self, i: int) -> Seq<(u64, Seq<u8>)> {
        self.data.entry_seq()[i].1.pairs()
    }

    /// The pairs are sorted by entity, carry exactly the keys of the
    /// view, denote it, and each component map has a canonical, machine
    /// bounded entry sequence.
    pub proof fn lemma_pairs(self)
        requires
            self.wf(),
        ensures
            entries_sorted(self.pairs()),
            self@ == entries_to_map(self.pairs()),
            self.pairs().len() <= usize::MAX,
            forall|i: int|
                0 <= i < self.pairs().len() ==> self@.contains_key((#[trigger] self.pairs()[i]).0)
                    && self@[self.pairs()[i].0] == self.pairs()[i].1,
            forall|k: u64| #[trigger]
                self@.contains_key(k) ==> exists|i: int|
                    0 <= i < self.pairs().len() && (#[trigger] self.pairs()[i]).0 == k,
            forall|i: int|
                0 <= i < self.pairs().len() ==> entries_sorted(
                    #[trigger] self.component_pairs_at(i),
                ) && entries_to_map(self.component_pairs_at(i)) == self.pairs()[i].1
                    && self.component_pairs_at(i).len() <= usize::MAX && (forall|j: int|
                    0 <= j < self.component_pairs_at(i).len() ==> (
                    #[trigger] self.component_pairs_at(i)[j]).1.len() <= usize::MAX),
    {
        lemma_deep_view(self.data);
        self.data.lemma_len_bounded();
        assert forall|i: int| 0 <= i < self.pairs().len() implies self@.contains_key((
        #[trigger] self.pairs()[i]).0) && self@[self.pairs()[i].0] == self.pairs()[i].1 by {
            lemma_entries_to_map_value(self.pairs(), i);
        }
        assert forall|k: u64| #[trigger] self@.contains_key(k) implies exists|i: int|
            0 <= i < self.pairs().len() && (#[trigger] self.pairs()[i]).0 == k by {
            lemma_entries_to_map_contains(self.pairs(), k);
        }
        assert forall|i: int| 0 <= i < self.pairs().len() implies entries_sorted(
            #[trigger] self.component_pairs_at(i),
        ) && entries_to_map(self.component_pairs_at(i)) == self.pairs()[i].1
            && self.component_pairs_at(i).len() <= usize::MAX && (forall|j: int|
            0 <= j < self.component_pairs_at(i).len() ==> (
            #[trigger] self.component_pairs_at(i)[j]).1.len() <= usize::MAX) by {
            self.data.lemma_at(i);
            let cu = self.data.entry_seq()[i].1;
            assert(cu.wf());
            cu.lemma_pairs();
            assert(self.pairs()[i].1 == cu@);
            assert(self.component_pairs_at(i) == cu.pairs());
        }
    }

    pub fn new() -> (r: Self)
        ensures
            r.wf(),
            r@ == Map::<u64, Map<u64, Seq<u8>>>::empty(),
            r.pairs() == Seq::<(u64, Map<u64, Seq<u8>>)>::empty(),
    {
        let r = EntityUpdate { data: OrdMap::new() };
        proof {
            assert(r.pairs() =~= Seq::<(u64, Map<u64, Seq<u8>>)>::empty());
        }
        r
    }

    pub fn len(&self) -> (r: usize)
        requires
            self.wf(),
        ensures
            r == self.pairs().len(),
    {
        self.data.len()
    }

    pub fn is_empty(&self) -> (r: bool)
        requires
            self.wf(),
        ensures
            r <==> self.pairs().len() == 0,
            r ==> self@ =~= Map::<u64, Map<u64, Seq<u8>>>::empty(),
    {
        let e = self.data.is_empty();
        proof {
            if e {
                assert(self@ =~= Map::<u64, Map<u64, Seq<u8>>>::empty());
            }
        }
        e
    }

    /// The server entity of the pair at an index.
    pub fn entity_at(&self, i: usize) -> (r: u64)
        requires
            self.wf(),
            i < self.pairs().len(),
        ensures
            r == self.pairs()[i as int].0,
            self@.contains_key(r),
            self@[r] == self.pairs()[i as int].1,
    {
        proof {
            self.lemma_pairs();
        }
        self.data.key_at(i)
    }

    /// The component update of the pair at an index.
    pub fn components_at(&self, i: usize) -> (r: &ComponentsUpdate)
        requires
            self.wf(),
            i < self.pairs().len(),
        ensures
            r.wf(),
            r@ == self.pairs()[i as int].1,
    {
        proof {
            lemma_deep_view(self.data);
            self.data.lemma_at(i as int);
            assert(self.pairs()[i as int] == (
                self.data.entry_seq()[i as int].0,
                self.data.entry_seq()[i as int].1@,
            ));
        }
        self.data.value_at(i)
    }

    pub fn get(&self, entity: u64) -> (r: Option<&ComponentsUpdate>)
        requires
            self.wf(),
        ensures
            r is Some <==> self@.contains_key(entity),
            r matches Some(v) ==> v.wf() && v@ == self@[entity],
    {
        proof {
            lemma_deep_view(self.data);
        }
        self.data.get(entity)
    }

    pub fn clear(&mut self)
        ensures
            final(self).wf(),
            final(self)@ == Map::<u64, Map<u64, Seq<u8>>>::empty(),
            final(self).pairs() == Seq::<(u64, Map<u64, Seq<u8>>)>::empty(),
    {
        self.data.clear();
        proof {
            assert(final(self).pairs() =~= Seq::<(u64, Map<u64, Seq<u8>>)>::empty());
        }
    }

    /// The protocol identity of the entity-update wire format.
    pub fn protocol_id() -> (r: u64)
        ensures
            r == 1,
    {
        1
    }

    /// An independent copy carrying the same data.
    pub fn duplicate(&self) -> (r: Self)
        requires
            self.wf(),
        ensures
            r.wf(),
            r@ == self@,
    {
        proof {
            self.lemma_pairs();
        }
        let mut r = EntityUpdate::new();
        let n = self.len();
        let mut i: usize = 0;
        while i < n
            invariant
                self.wf(),
                n == self.pairs().len(),
                i <= n,
                r.wf(),
                r@ == entries_to_map(self.pairs().take(i as int)),
            decreases n - i,
        {
            let entity = self.entity_at(i);
            let components = self.components_at(i);
            r.insert_entity(entity, components.duplicate());
            proof {
                let t = self.pairs().take(i as int + 1);
                assert(t.drop_last() =~= self.pairs().take(i as int));
                assert(t.last() == self.pairs()[i as int]);
            }
            i = i + 1;
        }
        proof {
            assert(self.pairs().take(n as int) =~= self.pairs());
            self.lemma_pairs();
        }
        r
    }

    /// Set one entity's whole component update.
    pub fn insert_entity(&mut self, entity: u64, components: ComponentsUpdate)
        requires
            old(self).wf(),
            components.wf(),
        ensures
            final(self).wf(),
            final(self)@ == old(self)@.insert(entity, components@),
    {
        proof {
            lemma_deep_view(self.data);
        }
        self.data.insert(entity, components);
        proof {
            lemma_deep_view(self.data);
            assert(final(self)@ =~= old(self)@.insert(entity, components@));
        }
    }

    /// Write one encoded component blob for one entity, creating the
    /// entity's component map if it is new.
    pub fn insert_component(&mut self, entity: u64, id: u64, bytes: Vec<u8>)
        requires
            old(self).wf(),
        ensures
            final(self).wf(),
            final(self)@ == old(self)@.insert(
                entity,
                spec_components_with(old(self)@, entity, id, bytes@),
            ),
    {
        proof {
            lemma_deep_view(self.data);
        }
        let mut components = match self.data.remove(entity) {
            Some(c) => c,
            None => ComponentsUpdate::new(),
        };
        components.insert(id, bytes);
        proof {
            lemma_deep_view(self.data);
        }
        self.data.insert(entity, components);
        proof {
            lemma_deep_view(self.data);
            assert(final(self)@ =~= old(self)@.insert(
                entity,
                spec_components_with(old(self)@, entity, id, bytes@),
            ));
        }
    }

    /// Merge `other` into `self`: shared entities merge their component
    /// maps with `other` winning per component, new entities are inserted.
    pub fn apply(&mut self, other: EntityUpdate)
        requires
            old(self).wf(),
            other.wf(),
        ensures
            final(self).wf(),
            final(self)@ == merge_entities(old(self)@, other@),
    {
        let ghost a = self@;
        let ghost b = other@;
        let mut rest = other;
        proof {
            assert(b.remove_keys(rest@.dom()) =~= Map::<u64, Map<u64, Seq<u8>>>::empty());
            assert(self@ =~= merge_entities(a, b.remove_keys(rest@.dom())));
        }
        loop
            invariant
                self.wf(),
                rest.wf(),
                forall|k: u64| #[trigger]
                    rest@.contains_key(k) ==> b.contains_key(k) && rest@[k] == b[k],
                self@ == merge_entities(a, b.remove_keys(rest@.dom())),
            ensures
                self.wf(),
                self@ == merge_entities(a, b),
            decreases rest.data.entry_seq().len(),
        {
            let ghost rest_prev = rest@;
            let ghost self_prev = self@;
            proof {
                lemma_deep_view(rest.data);
            }
            let popped = rest.data.pop_last();
            match popped {
                Some((entity, components)) => {
                    proof {
                        lemma_deep_view(rest.data);
                        assert(rest_prev.contains_key(entity));
                        assert(components@ == rest_prev[entity]);
                        assert(rest@ =~= rest_prev.remove(entity));
                        lemma_deep_view(self.data);
                    }
                    let ghost data_prev = self.data@;
                    let merged = match self.data.remove(entity) {
                        Some(mut mine) => {
                            proof {
                                assert(self_prev.contains_key(entity));
                                assert(mine@ == self_prev[entity]);
                                assert(a.contains_key(entity));
                                assert(self_prev[entity] == a[entity]);
                            }
                            mine.apply(components);
                            mine
                        },
                        None => {
                            proof {
                                assert(!self_prev.contains_key(entity));
                                assert(!a.contains_key(entity));
                            }
                            components
                        },
                    };
                    self.data.insert(entity, merged);
                    proof {
                        lemma_deep_view(self.data);
                        assert(self.data@ == data_prev.remove(entity).insert(entity, merged));
                        assert forall|k: u64|
                            k != entity && #[trigger] self@.contains_key(k) implies self_prev.contains_key(
                            k,
                        ) && self@[k] == self_prev[k] by {
                            assert(self.data@.contains_key(k));
                            assert(data_prev.contains_key(k));
                            assert(self.data@[k] == data_prev[k]);
                        }
                        assert forall|k: u64|
                            k != entity && self_prev.contains_key(k) implies #[trigger] self@.contains_key(
                            k,
                        ) by {
                            assert(data_prev.contains_key(k));
                            assert(self.data@.contains_key(k));
                        }
                        assert(self@.contains_key(entity));
                        assert(self@[entity] == merged@);
                        assert(b.contains_key(entity));
                        assert(merged@ == (if a.contains_key(entity) {
                            a[entity].union_prefer_right(b[entity])
                        } else {
                            b[entity]
                        }));
                        assert(self@ =~= merge_entities(a, b.remove_keys(rest@.dom())));
                    }
                },
                None => {
                    proof {
                        assert(rest.data.entry_seq().len() == 0);
                        assert(deep_pairs(rest.data).len() == 0);
                        assert(rest@ =~= Map::<u64, Map<u64, Seq<u8>>>::empty());
                        assert(b.remove_keys(rest@.dom()) =~= b);
                        assert(self@ =~= merge_entities(a, b));
                    }
                    break ;
                },
            }
        }
    }
}

/// Merging per-entity maps is associative.
pub proof fn lemma_merge_entities_assoc(
    a: Map<u64, Map<u64, Seq<u8>>>,
    b: Map<u64, Map<u64, Seq<u8>>>,
    c: Map<u64, Map<u64, Seq<u8>>>,
)
    ensures
        merge_entities(merge_entities(a, b), c) == merge_entities(a, merge_entities(b, c)),
{
    assert forall|e: u64|
        merge_entities(merge_entities(a, b), c).contains_key(e) implies #[trigger] merge_entities(
        merge_entities(a, b), c)[e] == merge_entities(a, merge_entities(b, c))[e] by {
        if merge_entities(merge_entities(a, b), c)[e] != merge_entities(
            a,
            merge_entities(b, c),
        )[e] {
            assert(merge_entities(merge_entities(a, b), c)[e] =~= merge_entities(
                a,
                merge_entities(b, c),
            )[e]);
        }
    }
    assert(merge_entities(merge_entities(a, b), c) =~= merge_entities(a, merge_entities(b, c)));
}

/// Two per-entity maps agree where they overlap: any component carried by
/// both for the same entity carries the same bytes.
pub open spec fn entities_agree(
    a: Map<u64, Map<u64, Seq<u8>>>,
    b: Map<u64, Map<u64, Seq<u8>>>,
) -> bool {
    forall|e: u64, c: u64|
        a.contains_key(e) && b.contains_key(e) && a[e].contains_key(c) && b[e].contains_key(c)
            ==> #[trigger] a[e][c] == #[trigger] b[e][c]
}

/// Merging per-entity maps is commutative when the two sides agree on
/// their overlap — as two update messages for the same tick from the same
/// server do. Without that agreement the later writer wins and order
/// matters.
pub proof fn lemma_merge_entities_comm(
    a: Map<u64, Map<u64, Seq<u8>>>,
    b: Map<u64, Map<u64, Seq<u8>>>,
)
    requires
        entities_agree(a, b),
    ensures
        merge_entities(a, b) == merge_entities(b, a),
{
    assert forall|e: u64|
        merge_entities(a, b).contains_key(e) implies #[trigger] merge_entities(a, b)[e]
        == merge_entities(b, a)[e] by {
        if a.contains_key(e) && b.contains_key(e) {
            assert(a[e].union_prefer_right(b[e]) =~= b[e].union_prefer_right(a[e]));
        }
    }
    assert(merge_entities(a, b) =~= merge_entities(b, a));
}

/// Pushing two same-tick messages onto the same state yields the same
/// result in either order, provided the messages agree on their overlap.
pub proof fn lemma_same_tick_push_commutes(
    base: Map<u64, Map<u64, Seq<u8>>>,
    m1: Map<u64, Map<u64, Seq<u8>>>,
    m2: Map<u64, Map<u64, Seq<u8>>>,
)
    requires
        entities_agree(m1, m2),
    ensures
        merge_entities(merge_entities(base, m1), m2) == merge_entities(
            merge_entities(base, m2),
            m1,
        ),
{
    lemma_merge_entities_assoc(base, m1, m2);
    lemma_merge_entities_assoc(base, m2, m1);
    lemma_merge_entities_comm(m1, m2);
}

/// One update message: the server tick it was assembled on and the
/// per-entity component data selected for that tick.
pub struct UpdateMessage {
    pub tick: NetworkTick,
    pub entity_update: EntityUpdate,
}

impl View for UpdateMessage {
    type V = Map<u64, Map<u64, Seq<u8>>>;

    open spec fn view(&self) -> Map<u64, Map<u64, Seq<u8>>> {
        self.entity_update@
    }
}

impl UpdateMessage {
    pub open spec fn wf(self) -> bool {
        self.entity_update.wf()
    }

    pub fn new(tick: NetworkTick, entity_update: EntityUpdate) -> (r: Self)
        ensures
            r.tick == tick,
            r.entity_update == entity_update,
    {
        UpdateMessage { tick, entity_update }
    }

    /// Merge another message for the same tick into this one. Applying a
    /// message of a different tick is a protocol violation and is ruled
    /// out by contract.
    pub fn apply(&mut self, other: UpdateMessage)
        requires
            old(self).wf(),
            other.wf(),
            other.tick.spec_tick() == old(self).tick.spec_tick(),
        ensures
            final(self).wf(),
            final(self).tick == old(self).tick,
            final(self)@ == merge_entities(old(self)@, other@),
    {
        self.entity_update.apply(other.entity_update);
    }
}

/// The client-side snapshot store: received update messages keyed by
/// tick. Messages for the same tick merge; the store retains only ticks
/// within `SNAPSHOT_RETAIN_BUFFER` of the newest stored tick.
pub struct UpdateMessages {
    data: OrdMap<UpdateMessage>,
}

impl View for UpdateMessages {
    type V = Map<u64, Map<u64, Map<u64, Seq<u8>>>>;

    closed spec fn view(&self) -> Map<u64, Map<u64, Map<u64, Seq<u8>>>> {
        deep_view(self.data)
    }
}

impl UpdateMessages {
    pub closed spec fn wf(self) -> bool {
        self.data.wf() && forall|k: u64| #[trigger]
            self.data@.contains_key(k) ==> self.data@[k].wf() && self.data@[k].tick.spec_tick()
                == k
    }

    pub fn new() -> (r: Self)
        ensures
            r.wf(),
            r@ == Map::<u64, Map<u64, Map<u64, Seq<u8>>>>::empty(),
    {
        let r = UpdateMessages { data: OrdMap::new() };
        proof {
            assert(deep_pairs(r.data).len() == 0);
        }
        r
    }

    /// The stored message for a tick, if one is stored.
    pub fn get(&self, tick: &NetworkTick) -> (r: Option<&UpdateMessage>)
        requires
            self.wf(),
        ensures
            r is Some <==> self@.contains_key(tick.spec_tick()),
            r matches Some(m) ==> m.wf() && m.tick.spec_tick() == tick.spec_tick() && m@
                == self@[tick.spec_tick()],
    {
        proof {
            lemma_deep_view(self.data);
        }
        self.data.get(tick.tick())
    }

    /// The newest stored tick, if the store is not empty.
    pub fn latest(&self) -> (r: Option<NetworkTick>)
        requires
            self.wf(),
        ensures
            r is None ==> forall|k: u64| !self@.contains_key(k),
            r matches Some(t) ==> self@.contains_key(t.spec_tick()) && forall|k: u64|
                self@.contains_key(k) ==> k <= t.spec_tick(),
    {
        proof {
            lemma_deep_view(self.data);
        }
        match self.data.max_key() {
            Some(m) => Some(NetworkTick::new(m)),
            None => None,
        }
    }

    /// Insert a message, merging into the stored message of the same tick
    /// if there is one. Messages stored under other ticks are untouched.
    pub fn push(&mut self, message: UpdateMessage)
        requires
            old(self).wf(),
            message.wf(),
        ensures
            final(self).wf(),
            final(self)@.contains_key(message.tick.spec_tick()),
            forall|k: u64|
                k != message.tick.spec_tick() ==> ((#[trigger] final(self)@.contains_key(k))
                    <==> old(self)@.contains_key(k)),
            forall|k: u64|
                k != message.tick.spec_tick() && old(self)@.contains_key(k)
                    ==> #[trigger] final(self)@[k] == old(self)@[k],
            old(self)@.contains_key(message.tick.spec_tick())
                ==> final(self)@[message.tick.spec_tick()] == merge_entities(
                old(self)@[message.tick.spec_tick()],
                message@,
            ),
            !old(self)@.contains_key(message.tick.spec_tick())
                ==> final(self)@[message.tick.spec_tick()] == message@,
    {
        let t = message.tick.tick();
        proof {
            lemma_deep_view(self.data);
        }
        let ghost data_prev = self.data@;
        let ghost self_prev = self@;
        let merged = match self.data.remove(t) {
            Some(mut existing) => {
                proof {
                    assert(existing@ == self_prev[t]);
                }
                existing.apply(message);
                existing
            },
            None => message,
        };
        self.data.insert(t, merged);
        proof {
            lemma_deep_view(self.data);
            assert(self.data@ == data_prev.remove(t).insert(t, merged));
            assert forall|k: u64|
                k != t && #[trigger] self@.contains_key(k) implies self_prev.contains_key(k)
                && self@[k] == self_prev[k] by {
                assert(self.data@.contains_key(k));
                assert(data_prev.contains_key(k));
                assert(self.data@[k] == data_prev[k]);
            }
            assert forall|k: u64|
                k != t && self_prev.contains_key(k) implies #[trigger] self@.contains_key(k) by {
                assert(data_prev.contains_key(k));
                assert(self.data@.contains_key(k));
            }
            assert(self@.contains_key(t));
            assert(self@[t] == merged@);
        }
    }

    /// Evict every stored tick that has fallen out of the retention
    /// window behind the newest stored tick.
    pub fn retain(&mut self)
        requires
            old(self).wf(),
        ensures
            final(self).wf(),
            forall|k: u64| #[trigger]
                final(self)@.contains_key(k) ==> old(self)@.contains_key(k)
                    && final(self)@[k] == old(self)@[k],
            forall|k1: u64, k2: u64|
                #![trigger final(self)@.contains_key(k1), final(self)@.contains_key(k2)]
                final(self)@.contains_key(k1) && final(self)@.contains_key(k2) ==> k2 < k1
                    + SNAPSHOT_RETAIN_BUFFER,
            forall|k: u64|
                old(self)@.contains_key(k) && (forall|k2: u64|
                    old(self)@.contains_key(k2) ==> k2 < k + SNAPSHOT_RETAIN_BUFFER)
                    ==> #[trigger] final(self)@.contains_key(k),
    {
        proof {
            lemma_deep_view(self.data);
        }
        let ghost data_prev = self.data@;
        let ghost self_prev = self@;
        match self.data.max_key() {
            None => {
                proof {
                    assert forall|k: u64| !self@.contains_key(k) by {}
                }
            },
            Some(newest) => {
                let lo = if newest >= SNAPSHOT_RETAIN_BUFFER {
                    newest - SNAPSHOT_RETAIN_BUFFER + 1
                } else {
                    0
                };
                self.data.retain_ge(lo);
                proof {
                    lemma_deep_view(self.data);
                    assert forall|k: u64| #[trigger]
                        self@.contains_key(k) implies self_prev.contains_key(k) && self@[k]
                        == self_prev[k] by {
                        assert(self.data@.contains_key(k));
                        assert(data_prev.contains_key(k));
                        assert(self.data@[k] == data_prev[k]);
                    }
                    assert forall|k1: u64, k2: u64|
                        #![trigger self@.contains_key(k1), self@.contains_key(k2)]
                        self@.contains_key(k1) && self@.contains_key(k2) implies k2 < k1
                        + SNAPSHOT_RETAIN_BUFFER by {
                        assert(self.data@.contains_key(k1));
                        assert(self.data@.contains_key(k2));
                        assert(k1 >= lo);
                        assert(data_prev.contains_key(k2));
                        assert(k2 <= newest);
                    }
                    assert forall|k: u64|
                        self_prev.contains_key(k) && (forall|k2: u64|
                            self_prev.contains_key(k2) ==> k2 < k + SNAPSHOT_RETAIN_BUFFER)
                        implies #[trigger] self@.contains_key(k) by {
                        assert(data_prev.contains_key(k));
                        assert(self_prev.contains_key(newest));
                        assert(newest < k + SNAPSHOT_RETAIN_BUFFER);
                        assert(k >= lo);
                        assert(self.data@.contains_key(k));
                    }
                }
            },
        }
    }
}

/// What the per-client outbox looks like for one client after one blob
/// is queued for one of its entities.
pub open spec fn spec_outbox_with(
    clients: Map<u64, Map<u64, Map<u64, Seq<u8>>>>,
    client: u64,
    entity: u64,
    id: u64,
    bytes: Seq<u8>,
) -> Map<u64, Map<u64, Seq<u8>>> {
    let base = if clients.contains_key(client) {
        clients[client]
    } else {
        Map::<u64, Map<u64, Seq<u8>>>::empty()
    };
    base.insert(entity, spec_components_with(base, entity, id, bytes))
}

/// The server-side pending outbox: one entity update per client,
/// accumulated during a tick and cleared after sending.
pub struct ClientEntityUpdates {
    data: OrdMap<EntityUpdate>,
}

impl View for ClientEntityUpdates {
    type V = Map<u64, Map<u64, Map<u64, Seq<u8>>>>;

    closed spec fn view(&self) -> Map<u64, Map<u64, Map<u64, Seq<u8>>>> {
        deep_view(self.data)
    }
}

impl ClientEntityUpdates {
    pub closed spec fn wf(self) -> bool {
        self.data.wf() && forall|k: u64| #[trigger]
            self.data@.contains_key(k) ==> self.data@[k].wf()
    }

    /// The (client, entity update) pairs in ascending client order.
    pub closed spec fn pairs(self) -> Seq<(u64, Map<u64, Map<u64, Seq<u8>>>)> {
        deep_pairs(self.data)
    }

    pub fn new() -> (r: Self)
        ensures
            r.wf(),
            r@ == Map::<u64, Map<u64, Map<u64, Seq<u8>>>>::empty(),
            r.pairs() == Seq::<(u64, Map<u64, Map<u64, Seq<u8>>>)>::empty(),
    {
        let r = ClientEntityUpdates { data: OrdMap::new() };
        proof {
            assert(r.pairs() =~= Seq::<(u64, Map<u64, Map<u64, Seq<u8>>>)>::empty());
        }
        r
    }

    pub fn len(&self) -> (r: usize)
        requires
            self.wf(),
        ensures
            r == self.pairs().len(),
    {
        self.data.len()
    }

    /// The client id of the pair at an index.
    pub fn client_at(&self, i: usize) -> (r: u64)
        requires
            self.wf(),
            i < self.pairs().len(),
        ensures
            r == self.pairs()[i as int].0,
            self@.contains_key(r),
            self@[r] == self.pairs()[i as int].1,
    {
        proof {
            lemma_deep_view(self.data);
            lemma_entries_to_map_value(self.pairs(), i as int);
        }
        self.data.key_at(i)
    }

    /// The pending entity update of the pair at an index.
    pub fn update_at(&self, i: usize) -> (r: &EntityUpdate)
        requires
            self.wf(),
            i < self.pairs().len(),
        ensures
            r.wf(),
            r@ == self.pairs()[i as int].1,
    {
        proof {
            lemma_deep_view(self.data);
            self.data.lemma_at(i as int);
            assert(self.pairs()[i as int] == (
                self.data.entry_seq()[i as int].0,
                self.data.entry_seq()[i as int].1@,
            ));
        }
        self.data.value_at(i)
    }

    pub fn get(&self, client: u64) -> (r: Option<&EntityUpdate>)
        requires
            self.wf(),
        ensures
            r is Some <==> self@.contains_key(client),
            r matches Some(v) ==> v.wf() && v@ == self@[client],
    {
        proof {
            lemma_deep_view(self.data);
        }
        self.data.get(client)
    }

    /// Make sure a client has a pending entry, so that a tick's outbound
    /// message is sent to it even when nothing was selected.
    pub fn ensure_client(&mut self, client: u64)
        requires
            old(self).wf(),
        ensures
            final(self).wf(),
            old(self)@.contains_key(client) ==> final(self)@ == old(self)@,
            !old(self)@.contains_key(client) ==> final(self)@ == old(self)@.insert(
                client,
                Map::<u64, Map<u64, Seq<u8>>>::empty(),
            ),
    {
        proof {
            lemma_deep_view(self.data);
        }
        if !self.data.contains_key(client) {
            self.data.insert(client, EntityUpdate::new());
            proof {
                lemma_deep_view(self.data);
                assert(final(self)@ =~= old(self)@.insert(
                    client,
                    Map::<u64, Map<u64, Seq<u8>>>::empty(),
                ));
            }
        } else {
            proof {
                lemma_deep_view(self.data);
                assert(final(self)@ =~= old(self)@);
            }
        }
    }

    /// Queue one encoded component blob for one entity of one client.
    pub fn insert_component(&mut self, client: u64, entity: u64, id: u64, bytes: Vec<u8>)
        requires
            old(self).wf(),
        ensures
            final(self).wf(),
            final(self)@ == old(self)@.insert(
                client,
                spec_outbox_with(old(self)@, client, entity, id, bytes@),
            ),
    {
        proof {
            lemma_deep_view(self.data);
        }
        let ghost data_prev = self.data@;
        let ghost self_prev = self@;
        let mut entry = match self.data.remove(client) {
            Some(e) => {
                proof {
                    assert(e@ == self_prev[client]);
                }
                e
            },
            None => EntityUpdate::new(),
        };
        entry.insert_component(entity, id, bytes);
        self.data.insert(client, entry);
        proof {
            lemma_deep_view(self.data);
            assert(self.data@ == data_prev.remove(client).insert(client, entry));
            assert forall|k: u64|
                k != client && #[trigger] self@.contains_key(k) implies self_prev.contains_key(k)
                && self@[k] == self_prev[k] by {
                assert(self.data@.contains_key(k));
                assert(data_prev.contains_key(k));
                assert(self.data@[k] == data_prev[k]);
            }
            assert forall|k: u64|
                k != client && self_prev.contains_key(k) implies #[trigger] self@.contains_key(
                k,
            ) by {
                assert(data_prev.contains_key(k));
                assert(self.data@.contains_key(k));
            }
            assert(self@.contains_key(client));
            assert(self@[client] == entry@);
            assert(self@ =~= old(self)@.insert(
                client,
                spec_outbox_with(old(self)@, client, entity, id, bytes@),
            ));
        }
    }

    /// Drop every pending entry, after a tick's messages have been sent.
    pub fn clear(&mut self)
        ensures
            final(self).wf(),
            final(self)@ == Map::<u64, Map<u64, Map<u64, Seq<u8>>>>::empty(),
    {
        self.data.clear();
        proof {
            assert(deep_pairs(final(self).data).len() == 0);
        }
    }
}

} // verus!
