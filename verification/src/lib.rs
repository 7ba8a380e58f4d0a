//! Trait-indexed access to singleton resources of a store.
//!
//! A store keeps at most one value per concrete resource type and hands each
//! type a stable storage identity.  This library maintains, per trait marker,
//! a registry of the resources that were registered as implementing that
//! trait, and offers ordered traversals that resolve each registry entry
//! against the live store, yielding an explicit absent marker for entries
//! whose backing resource has been removed without unregistration.

pub mod ext;
pub mod iter;
pub mod registry;
pub mod world;
