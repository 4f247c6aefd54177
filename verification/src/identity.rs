//! The client-side entity identity map: server entity to local entity,
//! with spawn-on-first-sight, lazy liveness checks, cleanup, and
//! disconnect. The hosting world is modelled by the handles the runtime
//! needs from it: spawning a fresh entity, despawning, and liveness.

use vstd::prelude::*;

verus! {

use crate::ordmap::OrdMap;

/// The runtime's model of the hosting entity world: a set of live local
/// entity handles and a fresh-handle counter. Handles are never reused,
/// so a spawned handle is distinct from every handle seen before.
pub struct LocalWorld {
    next: u64,
    live: OrdMap<()>,
}

impl LocalWorld {
    /// The live local entities.
    pub closed spec fn live_set(self) -> Map<u64, ()> {
        self.live@
    }

    /// The next handle to be handed out; every handle ever handed out is
    /// below it.
    pub closed spec fn spec_next(self) -> u64 {
        self.next
    }

    pub closed spec fn wf(self) -> bool {
        self.live.wf() && forall|e: u64| #[trigger]
            self.live@.contains_key(e) ==> e < self.next
    }

    pub fn new() -> (r: Self)
        ensures
            r.wf(),
            r.live_set() == Map::<u64, ()>::empty(),
            r.spec_next() == 0,
    {
        LocalWorld { next: 0, live: OrdMap::new() }
    }

    /// Spawn a fresh local entity and return its handle.
    pub fn spawn(&mut self) -> (r: u64)
        requires
            old(self).wf(),
            old(self).spec_next() < u64::MAX,
        ensures
            final(self).wf(),
            r == old(self).spec_next(),
            !old(self).live_set().contains_key(r),
            final(self).live_set() == old(self).live_set().insert(r, ()),
            final(self).spec_next() == old(self).spec_next() + 1,
    {
        let e = self.next;
        self.live.insert(e, ());
        self.next = self.next + 1;
        e
    }

    /// Despawn a local entity; a handle that is not live is ignored.
    pub fn despawn(&mut self, e: u64)
        requires
            old(self).wf(),
        ensures
            final(self).wf(),
            final(self).live_set() == old(self).live_set().remove(e),
            final(self).spec_next() == old(self).spec_next(),
    {
        self.live.remove(e);
    }

    /// Whether a local entity is live.
    pub fn contains(&self, e: u64) -> (r: bool)
        requires
            self.wf(),
        ensures
            r <==> self.live_set().contains_key(e),
    {
        self.live.contains_key(e)
    }
}

/// The mapping of server entities to local entities on one client.
pub struct ServerEntities {
    data: OrdMap<u64>,
}

impl View for ServerEntities {
    type V = Map<u64, u64>;

    closed spec fn view(&self) -> Map<u64, u64> {
        self.data@
    }
}

/// No two server entities map to the same local entity.
pub open spec fn injective(m: Map<u64, u64>) -> bool {
    forall|s1: u64, s2: u64|
        m.contains_key(s1) && m.contains_key(s2) && s1 != s2 ==> #[trigger] m[s1]
            != #[trigger] m[s2]
}

impl ServerEntities {
    pub closed spec fn wf(self) -> bool {
        self.data.wf()
    }

    /// Every mapped local entity was handed out by the world: the
    /// invariant that keeps freshly spawned handles out of the map.
    pub open spec fn consistent_with(self, world: LocalWorld) -> bool {
        forall|s: u64| #[trigger] self@.contains_key(s) ==> self@[s] < world.spec_next()
    }

    pub fn new() -> (r: Self)
        ensures
            r.wf(),
            r@ == Map::<u64, u64>::empty(),
    {
        ServerEntities { data: OrdMap::new() }
    }

    /// The existing local entity for a server entity, or a freshly
    /// spawned one, recorded on first sight.
    pub fn spawn_or_get(&mut self, world: &mut LocalWorld, server_entity: u64) -> (r: u64)
        requires
            old(self).wf(),
            old(world).wf(),
            old(self).consistent_with(*old(world)),
            injective(old(self)@),
            old(world).spec_next() < u64::MAX,
        ensures
            final(self).wf(),
            final(world).wf(),
            final(self).consistent_with(*final(world)),
            injective(final(self)@),
            final(self)@.contains_key(server_entity),
            r == final(self)@[server_entity],
            old(self)@.contains_key(server_entity) ==> final(self)@ == old(self)@ && *final(world)
                == *old(world) && r == old(self)@[server_entity],
            !old(self)@.contains_key(server_entity) ==> final(self)@ == old(self)@.insert(
                server_entity,
                r,
            ) && !old(world).live_set().contains_key(r) && final(world).live_set() == old(
                world,
            ).live_set().insert(r, ()) && final(world).spec_next() == old(world).spec_next() + 1,
    {
        match self.data.get(server_entity) {
            Some(e) => *e,
            None => {
                let fresh = world.spawn();
                self.data.insert(server_entity, fresh);
                proof {
                    assert forall|s1: u64, s2: u64|
                        self@.contains_key(s1) && self@.contains_key(s2) && s1 != s2 implies
                        #[trigger] self@[s1] != #[trigger] self@[s2] by {}
                }
                fresh
            },
        }
    }

    /// The local entity for a server entity, only if it is still live.
    pub fn get(&self, world: &LocalWorld, server_entity: u64) -> (r: Option<u64>)
        requires
            self.wf(),
            world.wf(),
        ensures
            r is Some <==> self@.contains_key(server_entity) && world.live_set().contains_key(
                self@[server_entity],
            ),
            r matches Some(e) ==> e == self@[server_entity],
    {
        match self.data.get(server_entity) {
            Some(e) => {
                if world.contains(*e) {
                    Some(*e)
                } else {
                    None
                }
            },
            None => None,
        }
    }

    /// Prune every entry whose local entity is no longer live. Returns
    /// whether anything was pruned. Afterwards every mapped local entity
    /// is live.
    pub fn clean(&mut self, world: &LocalWorld) -> (r: bool)
        requires
            old(self).wf(),
            world.wf(),
        ensures
            final(self).wf(),
            forall|s: u64|
                #![trigger final(self)@.contains_key(s)]
                final(self)@.contains_key(s) <==> (old(self)@.contains_key(s)
                    && world.live_set().contains_key(old(self)@[s])),
            forall|s: u64| #[trigger]
                final(self)@.contains_key(s) ==> final(self)@[s] == old(self)@[s],
            r <==> exists|s: u64| #[trigger]
                old(self)@.contains_key(s) && !world.live_set().contains_key(old(self)@[s]),
    {
        let ghost b = self@;
        let mut kept: OrdMap<u64> = OrdMap::new();
        let mut pruned = false;
        loop
            invariant
                self.wf(),
                kept.wf(),
                world.wf(),
                forall|s: u64| #[trigger]
                    self@.contains_key(s) ==> b.contains_key(s) && self@[s] == b[s],
                forall|s: u64|
                    #![trigger kept@.contains_key(s)]
                    kept@.contains_key(s) <==> (b.contains_key(s) && !self@.contains_key(s)
                        && world.live_set().contains_key(b[s])),
                forall|s: u64| #[trigger]
                    kept@.contains_key(s) ==> kept@[s] == b[s],
                pruned <==> exists|s: u64| #[trigger]
                    b.contains_key(s) && !self@.contains_key(s)
                        && !world.live_set().contains_key(b[s]),
            ensures
                kept.wf(),
                forall|s: u64|
                    #![trigger kept@.contains_key(s)]
                    kept@.contains_key(s) <==> (b.contains_key(s)
                        && world.live_set().contains_key(b[s])),
                forall|s: u64| #[trigger]
                    kept@.contains_key(s) ==> kept@[s] == b[s],
                pruned <==> exists|s: u64| #[trigger]
                    b.contains_key(s) && !world.live_set().contains_key(b[s]),
            decreases self.data.entry_seq().len(),
        {
            let ghost rest_prev = self@;
            let popped = self.data.pop_last();
            match popped {
                Some((server_entity, local)) => {
                    proof {
                        assert(rest_prev.contains_key(server_entity));
                        assert(local == b[server_entity]);
                    }
                    if world.contains(local) {
                        kept.insert(server_entity, local);
                    } else {
                        pruned = true;
                    }
                },
                None => {
                    break ;
                },
            }
        }
        self.data = kept;
        pruned
    }

    /// Despawn every mapped local entity that is still live and empty
    /// the map: the client is starting fresh.
    pub fn disconnect(&mut self, world: &mut LocalWorld)
        requires
            old(self).wf(),
            old(world).wf(),
        ensures
            final(self).wf(),
            final(world).wf(),
            final(self)@ == Map::<u64, u64>::empty(),
            final(world).spec_next() == old(world).spec_next(),
            forall|e: u64|
                #![trigger final(world).live_set().contains_key(e)]
                final(world).live_set().contains_key(e) <==> (old(
                    world,
                ).live_set().contains_key(e) && !(exists|s: u64| #[trigger]
                    old(self)@.contains_key(s) && old(self)@[s] == e)),
    {
        let ghost b = self@;
        loop
            invariant
                self.wf(),
                world.wf(),
                forall|s: u64| #[trigger]
                    self@.contains_key(s) ==> b.contains_key(s) && self@[s] == b[s],
                world.spec_next() == old(world).spec_next(),
                forall|e: u64|
                    #![trigger world.live_set().contains_key(e)]
                    world.live_set().contains_key(e) <==> (old(
                        world,
                    ).live_set().contains_key(e) && !(exists|s: u64| #[trigger]
                        b.contains_key(s) && !self@.contains_key(s) && b[s] == e)),
            ensures
                self.wf(),
                world.wf(),
                forall|s: u64| !self@.contains_key(s),
                world.spec_next() == old(world).spec_next(),
                forall|e: u64|
                    #![trigger world.live_set().contains_key(e)]
                    world.live_set().contains_key(e) <==> (old(
                        world,
                    ).live_set().contains_key(e) && !(exists|s: u64| #[trigger]
                        b.contains_key(s) && b[s] == e)),
            decreases self.data.entry_seq().len(),
        {
            let ghost rest_prev = self@;
            let popped = self.data.pop_last();
            match popped {
                Some((server_entity, local)) => {
                    proof {
                        assert(rest_prev.contains_key(server_entity));
                        assert(local == b[server_entity]);
                    }
                    world.despawn(local);
                },
                None => {
                    break ;
                },
            }
        }
    }
}

} // verus!
