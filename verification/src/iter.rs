//! Ordered traversals over the resources registered under one trait
//! marker, resolving each registry entry against the live store on demand.
//!
//! Both traversals walk the registry in entry order and yield, per entry,
//! either the resolved resource (still stored) or an explicit absent
//! marker (the entry went stale: its resource was removed without being
//! unregistered).  A stale entry never ends the traversal early and never
//! shrinks the registry.  The read-only traversal snapshots the registry
//! once at construction; the mutable traversal re-fetches it on every
//! step, mirroring a host whose access discipline forbids holding a
//! registry view and a resource view mutably at once — so it observes
//! registrations and unregistrations made between steps.

use vstd::prelude::*;

use crate::registry::{ResourceId, TraitData};
use crate::world::{TraitKey, TypeKey, World};

verus! {

/// Read-only traversal: a snapshot of the registry taken at construction,
/// walked by a cursor.
pub struct TraitResourceIterator {
    snapshot: Vec<TraitData<TypeKey>>,
    cursor: usize,
}

impl TraitResourceIterator {
    /// The snapshot entries, in traversal order.
    pub closed spec fn entries(self) -> Seq<TraitData<TypeKey>> {
        self.snapshot@
    }

    /// How many steps were already taken.
    pub closed spec fn cursor(self) -> int {
        self.cursor as int
    }

    pub(crate) fn from_snapshot(snapshot: Vec<TraitData<TypeKey>>) -> (it: Self)
        ensures
            it.entries() == snapshot@,
            it.cursor() == 0,
    {
        TraitResourceIterator { snapshot, cursor: 0 }
    }

    /// One traversal step: `None` when the snapshot is exhausted, and
    /// otherwise `Some(resolved)` for the next entry — the resource's
    /// current value when its identity is still stored in `world`, or the
    /// explicit absent marker when the entry went stale.
    pub fn next<'a, V>(&mut self, world: &'a World<V>) -> (step: Option<Option<&'a V>>)
        requires
            world.wf(),
        ensures
            final(self).entries() == old(self).entries(),
            step is None <==> old(self).cursor() >= old(self).entries().len(),
            step is None ==> final(self).cursor() == old(self).cursor(),
            step is Some ==> final(self).cursor() == old(self).cursor() + 1,
            step matches Some(resolved) ==> {
                let d = old(self).entries()[old(self).cursor()];
                &&& resolved is Some <==> world.present(d.resource_id)
                &&& resolved matches Some(v) ==> *v == world.value_at(d.resource_id)
            },
    {
        if self.cursor >= self.snapshot.len() {
            return None;
        }
        let d = self.snapshot[self.cursor];
        self.cursor += 1;
        Some(world.get_by_id(d.resource_id))
    }
}

/// Mutable traversal: a cursor over the live registry, re-fetched from
/// the store on every step.  The step yields the storage identity of a
/// still-stored resource, which the caller resolves with `get_mut_by_id`
/// for exclusive access; the host analogue requires exclusive store
/// access for its whole lifetime for exactly this reason.
pub struct TraitResourceIteratorMut {
    trait_key: TraitKey,
    cursor: usize,
}

impl TraitResourceIteratorMut {
    /// The trait marker being traversed.
    pub closed spec fn trait_key(self) -> TraitKey {
        self.trait_key
    }

    /// How many steps were already taken.
    pub closed spec fn cursor(self) -> int {
        self.cursor as int
    }

    pub(crate) fn for_trait(trait_key: TraitKey) -> (it: Self)
        ensures
            it.trait_key() == trait_key,
            it.cursor() == 0,
    {
        TraitResourceIteratorMut { trait_key, cursor: 0 }
    }

    /// One traversal step against the live registry: `None` once the
    /// cursor reaches the registry's current entry count, or immediately
    /// when the registry no longer exists; otherwise `Some(resolved)`,
    /// where `resolved` is the identity of the entry's resource when still
    /// stored (its adapter provably matches that identity's concrete type,
    /// which is what makes the host's unchecked cast sound here), or the
    /// explicit absent marker for a stale entry.
    pub fn next<V>(&mut self, world: &World<V>) -> (step: Option<Option<ResourceId>>)
        requires
            world.wf(),
        ensures
            final(self).trait_key() == old(self).trait_key(),
            ({
                let t = old(self).trait_key();
                if !world.has_registry(t) || old(self).cursor() >= world.reg_entries(t).len() {
                    step is None && final(self).cursor() == old(self).cursor()
                } else {
                    let d = world.reg_entries(t)[old(self).cursor()];
                    &&& final(self).cursor() == old(self).cursor() + 1
                    &&& step == Some(
                        if world.present(d.resource_id) {
                            Some(d.resource_id)
                        } else {
                            None::<ResourceId>
                        },
                    )
                    &&& step matches Some(Some(id)) ==> world.present(id) && world.type_of_id(id)
                        == d.adapter
                }
            }),
    {
        let reg = match world.get_registry(self.trait_key) {
            Some(reg) => reg,
            None => {
                return None;
            },
        };
        if self.cursor >= reg.len() {
            return None;
        }
        let d = *reg.get(self.cursor);
        self.cursor += 1;
        proof {
            crate::world::lemma_registry_state(*world, self.trait_key);
        }
        if world.get_by_id(d.resource_id).is_some() {
            Some(Some(d.resource_id))
        } else {
            Some(None)
        }
    }
}

impl<V> World<V> {
    /// Read-only traversal over the resources registered under
    /// `trait_key`, in registry entry order, against a snapshot of the
    /// registry taken now; an absent registry gives the empty traversal.
    pub fn get_resources_trait(&self, trait_key: TraitKey) -> (it: TraitResourceIterator)
        requires
            self.wf(),
        ensures
            it.entries() == (if self.has_registry(trait_key) {
                self.reg_entries(trait_key)
            } else {
                Seq::<TraitData<TypeKey>>::empty()
            }),
            it.cursor() == 0,
    {
        let mut snapshot: Vec<TraitData<TypeKey>> = Vec::new();
        match self.get_registry(trait_key) {
            Some(reg) => {
                let n = reg.len();
                let mut k: usize = 0;
                while k < n
                    invariant
                        n == reg.entries().len(),
                        k <= n,
                        snapshot@ == reg.entries().subrange(0, k as int),
                    decreases n - k,
                {
                    snapshot.push(*reg.get(k));
                    proof {
                        assert(snapshot@ =~= reg.entries().subrange(0, k as int + 1));
                    }
                    k += 1;
                }
                proof {
                    assert(snapshot@ =~= reg.entries());
                }
            },
            None => {
                proof {
                    assert(snapshot@ =~= Seq::<TraitData<TypeKey>>::empty());
                }
            },
        }
        TraitResourceIterator::from_snapshot(snapshot)
    }

    /// Mutable traversal over the resources registered under `trait_key`:
    /// a cursor that re-fetches the live registry on each step, so the
    /// caller can mutate resolved resources (and even the registrations)
    /// between steps.
    pub fn get_resources_trait_mut(&self, trait_key: TraitKey) -> (it: TraitResourceIteratorMut)
        requires
            self.wf(),
        ensures
            it.trait_key() == trait_key,
            it.cursor() == 0,
    {
        TraitResourceIteratorMut::for_trait(trait_key)
    }
}

} // verus!
