//! The resource-trait extension surface: the registration and traversal
//! operations, uniformly available whether the caller holds the store
//! directly or an application-level handle that wraps it.

use vstd::prelude::*;

use crate::iter::{TraitResourceIterator, TraitResourceIteratorMut};
use crate::registry::{TraitData, seq_register, seq_unregister};
use crate::world::{
    TraitKey, TypeKey, World, registries_same_except, same_identities, same_values,
};

verus! {

/// An application-level handle around the store, offering the same
/// resource-trait operations through [`TraitResourceExt`].
pub struct App<V> {
    pub world: World<V>,
}

impl<V> App<V> {
    /// A handle around an empty store.
    pub fn new() -> (app: Self)
        ensures
            app.world.wf(),
            forall|tk: TypeKey| !(#[trigger] app.world.has_type(tk)),
            forall|id: crate::registry::ResourceId| !(#[trigger] app.world.present(id)),
            forall|t: TraitKey| !(#[trigger] app.world.has_registry(t)),
    {
        App { world: World::new() }
    }
}

/// The operations this system adds to a store or to a handle wrapping
/// one, stated over the wrapped store (`store()`).  Their contracts are
/// those of the store's own operations.
pub trait TraitResourceExt<V>: Sized {
    /// The store the operations act on.
    spec fn store(&self) -> World<V>;

    /// Stores `value` as `type_key`'s singleton (overwriting any prior
    /// one) and registers it under `trait_key`.  No failure modes.
    fn insert_resource_as(&mut self, trait_key: TraitKey, type_key: TypeKey, value: V)
        requires
            old(self).store().wf(),
        ensures
            final(self).store().wf(),
            final(self).store().is_stored(type_key),
            final(self).store().value_at(final(self).store().id_of(type_key)) == value,
            old(self).store().has_type(type_key) ==> final(self).store().id_of(type_key) == old(
                self,
            ).store().id_of(type_key),
            forall|tk2: TypeKey|
                tk2 != type_key ==> (#[trigger] final(self).store().has_type(tk2) <==> old(
                    self,
                ).store().has_type(tk2)),
            forall|id: crate::registry::ResourceId|
                id != final(self).store().id_of(type_key)
                    ==> (#[trigger] final(self).store().present(id) <==> old(self).store().present(
                    id,
                )),
            forall|id: crate::registry::ResourceId|
                id != final(self).store().id_of(type_key) && old(self).store().present(id)
                    ==> #[trigger] final(self).store().value_at(id) == old(self).store().value_at(
                    id,
                ),
            registries_same_except(old(self).store(), final(self).store(), trait_key),
            final(self).store().has_registry(trait_key),
            final(self).store().reg_entries(trait_key) == (if old(self).store().has_registry(
                trait_key,
            ) {
                seq_register(
                    old(self).store().reg_entries(trait_key),
                    (TraitData {
                        resource_id: final(self).store().id_of(type_key),
                        adapter: type_key,
                    }),
                )
            } else {
                seq![
                    (TraitData {
                        resource_id: final(self).store().id_of(type_key),
                        adapter: type_key,
                    })
                ]
            }),
            final(self).store().is_registered(trait_key, final(self).store().id_of(type_key)),
    ;

    /// Stores the caller-supplied default value of `type_key` and
    /// registers it under `trait_key`.
    fn init_resource_as(&mut self, trait_key: TraitKey, type_key: TypeKey, default_value: V)
        requires
            old(self).store().wf(),
        ensures
            final(self).store().wf(),
            final(self).store().is_stored(type_key),
            final(self).store().value_at(final(self).store().id_of(type_key)) == default_value,
            old(self).store().has_type(type_key) ==> final(self).store().id_of(type_key) == old(
                self,
            ).store().id_of(type_key),
            registries_same_except(old(self).store(), final(self).store(), trait_key),
            final(self).store().has_registry(trait_key),
            final(self).store().reg_entries(trait_key) == (if old(self).store().has_registry(
                trait_key,
            ) {
                seq_register(
                    old(self).store().reg_entries(trait_key),
                    (TraitData {
                        resource_id: final(self).store().id_of(type_key),
                        adapter: type_key,
                    }),
                )
            } else {
                seq![
                    (TraitData {
                        resource_id: final(self).store().id_of(type_key),
                        adapter: type_key,
                    })
                ]
            }),
            final(self).store().is_registered(trait_key, final(self).store().id_of(type_key)),
    ;

    /// Registers the already-stored singleton of `type_key` under
    /// `trait_key`; re-registration is a no-op in effect.
    fn register_resource_as(&mut self, trait_key: TraitKey, type_key: TypeKey)
        requires
            old(self).store().wf(),
            old(self).store().is_stored(type_key),
        ensures
            final(self).store().wf(),
            same_identities(old(self).store(), final(self).store()),
            same_values(old(self).store(), final(self).store()),
            registries_same_except(old(self).store(), final(self).store(), trait_key),
            final(self).store().has_registry(trait_key),
            final(self).store().reg_entries(trait_key) == (if old(self).store().has_registry(
                trait_key,
            ) {
                seq_register(
                    old(self).store().reg_entries(trait_key),
                    (TraitData {
                        resource_id: old(self).store().id_of(type_key),
                        adapter: type_key,
                    }),
                )
            } else {
                seq![
                    (TraitData {
                        resource_id: old(self).store().id_of(type_key),
                        adapter: type_key,
                    })
                ]
            }),
            final(self).store().is_registered(trait_key, old(self).store().id_of(type_key)),
    ;

    /// Read-only traversal over the resources registered under
    /// `trait_key`, against a snapshot of the registry taken now.
    fn get_resources_trait(&self, trait_key: TraitKey) -> (it: TraitResourceIterator)
        requires
            self.store().wf(),
        ensures
            it.entries() == (if self.store().has_registry(trait_key) {
                self.store().reg_entries(trait_key)
            } else {
                Seq::<TraitData<TypeKey>>::empty()
            }),
            it.cursor() == 0,
    ;

    /// Mutable traversal over the resources registered under `trait_key`,
    /// re-fetching the live registry on each step.
    fn get_resources_trait_mut(&self, trait_key: TraitKey) -> (it: TraitResourceIteratorMut)
        requires
            self.store().wf(),
        ensures
            it.trait_key() == trait_key,
            it.cursor() == 0,
    ;

    /// Removes `type_key`'s entry from `trait_key`'s registry if present,
    /// destroying an emptied registry; otherwise a silent no-op.
    fn unregister_resource_from_trait(&mut self, trait_key: TraitKey, type_key: TypeKey)
        requires
            old(self).store().wf(),
        ensures
            final(self).store().wf(),
            same_identities(old(self).store(), final(self).store()),
            same_values(old(self).store(), final(self).store()),
            registries_same_except(old(self).store(), final(self).store(), trait_key),
            old(self).store().has_type(type_key) && old(self).store().has_registry(trait_key)
                ==> ({
                let remaining = seq_unregister(
                    old(self).store().reg_entries(trait_key),
                    old(self).store().id_of(type_key),
                );
                &&& remaining.len() == 0 ==> !final(self).store().has_registry(trait_key)
                &&& remaining.len() > 0 ==> final(self).store().has_registry(trait_key)
                    && final(self).store().reg_entries(trait_key) == remaining
            }),
    ;
}

impl<V> TraitResourceExt<V> for World<V> {
    open spec fn store(&self) -> World<V> {
        *self
    }

    fn insert_resource_as(&mut self, trait_key: TraitKey, type_key: TypeKey, value: V) {
        World::insert_resource_as(self, trait_key, type_key, value);
    }

    fn init_resource_as(&mut self, trait_key: TraitKey, type_key: TypeKey, default_value: V) {
        World::init_resource_as(self, trait_key, type_key, default_value);
    }

    fn register_resource_as(&mut self, trait_key: TraitKey, type_key: TypeKey) {
        World::register_resource_as(self, trait_key, type_key);
    }

    fn get_resources_trait(&self, trait_key: TraitKey) -> TraitResourceIterator {
        World::get_resources_trait(self, trait_key)
    }

    fn get_resources_trait_mut(&self, trait_key: TraitKey) -> TraitResourceIteratorMut {
        World::get_resources_trait_mut(self, trait_key)
    }

    fn unregister_resource_from_trait(&mut self, trait_key: TraitKey, type_key: TypeKey) {
        World::unregister_resource_from_trait(self, trait_key, type_key);
    }
}

impl<V> TraitResourceExt<V> for App<V> {
    open spec fn store(&self) -> World<V> {
        self.world
    }

    fn insert_resource_as(&mut self, trait_key: TraitKey, type_key: TypeKey, value: V) {
        World::insert_resource_as(&mut self.world, trait_key, type_key, value);
    }

    fn init_resource_as(&mut self, trait_key: TraitKey, type_key: TypeKey, default_value: V) {
        World::init_resource_as(&mut self.world, trait_key, type_key, default_value);
    }

    fn register_resource_as(&mut self, trait_key: TraitKey, type_key: TypeKey) {
        World::register_resource_as(&mut self.world, trait_key, type_key);
    }

    fn get_resources_trait(&self, trait_key: TraitKey) -> TraitResourceIterator {
        World::get_resources_trait(&self.world, trait_key)
    }

    fn get_resources_trait_mut(&self, trait_key: TraitKey) -> TraitResourceIteratorMut {
        World::get_resources_trait_mut(&self.world, trait_key)
    }

    fn unregister_resource_from_trait(&mut self, trait_key: TraitKey, type_key: TypeKey) {
        World::unregister_resource_from_trait(&mut self.world, trait_key, type_key);
    }
}

} // verus!
