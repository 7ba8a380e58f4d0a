use bevy_trait_resource::iter::TraitResourceIterator;
use bevy_trait_resource::registry::ResourceId;
use bevy_trait_resource::world::{TraitKey, TypeKey, World};

// Two trait markers, mirroring an increment interface and a string
// interface, and three concrete type keys.
fn increment_trait() -> TraitKey {
    TraitKey(1)
}

fn increment_string_trait() -> TraitKey {
    TraitKey(2)
}

fn number_value_resource() -> TypeKey {
    TypeKey(10)
}

fn number_value_resource2() -> TypeKey {
    TypeKey(11)
}

fn third_resource() -> TypeKey {
    TypeKey(12)
}

// The application-defined resource values: one per concrete type key.
#[derive(Clone, Debug, PartialEq, Eq)]
enum Res {
    Number { value: i32 },
    Number2 { string_value: String, value: i32 },
}

fn value_of(r: &Res) -> i32 {
    match r {
        Res::Number { value } => *value,
        Res::Number2 { value, .. } => *value,
    }
}

fn string_value_of(r: &Res) -> String {
    match r {
        Res::Number { .. } => String::new(),
        Res::Number2 { string_value, .. } => string_value.clone(),
    }
}

// The increment system: one mutable traversal round over the increment
// trait, bumping `value` on every resource still stored.
fn increment_value_test_system(world: &mut World<Res>) {
    let mut it = world.get_resources_trait_mut(increment_trait());
    loop {
        match it.next(world) {
            None => break,
            Some(None) => {}
            Some(Some(id)) => match world.get_mut_by_id(id) {
                Res::Number { value } => *value += 1,
                Res::Number2 { value, .. } => *value += 1,
            },
        }
    }
}

// The string-increment system over the string trait.
fn increment_string_value_test_system(world: &mut World<Res>) {
    let mut it = world.get_resources_trait_mut(increment_string_trait());
    loop {
        match it.next(world) {
            None => break,
            Some(None) => {}
            Some(Some(id)) => {
                if let Res::Number2 { string_value, .. } = world.get_mut_by_id(id) {
                    let i: i32 = string_value.parse().unwrap();
                    *string_value = (i + 1).to_string();
                }
            }
        }
    }
}

#[test]
fn increment() {
    let mut world: World<Res> = World::new();
    world.init_resource_as(increment_trait(), number_value_resource(), Res::Number { value: 0 });

    increment_value_test_system(&mut world);
    increment_value_test_system(&mut world);

    assert_eq!(value_of(world.resource(number_value_resource())), 2);
}

#[test]
fn increment_multiple() {
    let mut world: World<Res> = World::new();
    world.init_resource_as(increment_trait(), number_value_resource(), Res::Number { value: 0 });
    world.insert_resource_as(
        increment_trait(),
        number_value_resource2(),
        Res::Number2 { string_value: "0".to_owned(), value: 3 },
    );

    increment_value_test_system(&mut world);
    increment_value_test_system(&mut world);

    assert_eq!(value_of(world.resource(number_value_resource())), 2);

    assert_eq!(value_of(world.resource(number_value_resource2())), 5);
    assert_eq!(string_value_of(world.resource(number_value_resource2())), "0");
}

#[test]
fn getting_removed_resource_should_not_panic() {
    let mut world: World<Res> = World::new();
    world.init_resource_as(increment_trait(), number_value_resource(), Res::Number { value: 0 });
    world.insert_resource_as(
        increment_trait(),
        number_value_resource2(),
        Res::Number2 { string_value: "1".to_owned(), value: 3 },
    );

    increment_value_test_system(&mut world);

    assert_eq!(value_of(world.resource(number_value_resource())), 1);

    assert_eq!(value_of(world.resource(number_value_resource2())), 4);
    assert_eq!(string_value_of(world.resource(number_value_resource2())), "1");

    world.remove_resource(number_value_resource2());

    increment_value_test_system(&mut world);

    assert_eq!(value_of(world.resource(number_value_resource())), 2);
    assert!(world.get_resource(number_value_resource2()).is_none());
}

#[test]
fn register_resource_trait() {
    let mut world: World<Res> = World::new();
    world.init_resource(number_value_resource(), Res::Number { value: 0 });
    world.register_resource_as(increment_trait(), number_value_resource());

    increment_value_test_system(&mut world);
    assert_eq!(value_of(world.resource(number_value_resource())), 1);

    increment_value_test_system(&mut world);
    assert_eq!(value_of(world.resource(number_value_resource())), 2);
}

#[test]
fn register_multiple_traits_on_resource() {
    let mut world: World<Res> = World::new();
    world.init_resource(
        number_value_resource2(),
        Res::Number2 { string_value: "0".to_owned(), value: 0 },
    );
    world.register_resource_as(increment_trait(), number_value_resource2());
    world.register_resource_as(increment_string_trait(), number_value_resource2());

    increment_value_test_system(&mut world);
    increment_string_value_test_system(&mut world);
    assert_eq!(value_of(world.resource(number_value_resource2())), 1);
    assert_eq!(string_value_of(world.resource(number_value_resource2())), "1");

    increment_value_test_system(&mut world);
    increment_string_value_test_system(&mut world);
    assert_eq!(value_of(world.resource(number_value_resource2())), 2);
    assert_eq!(string_value_of(world.resource(number_value_resource2())), "2");
}

#[test]
fn unregister_trait_from_resource() {
    let mut world: World<Res> = World::new();
    world.init_resource(number_value_resource(), Res::Number { value: 0 });
    world.init_resource(
        number_value_resource2(),
        Res::Number2 { string_value: "0".to_owned(), value: 0 },
    );

    world.register_resource_as(increment_string_trait(), number_value_resource2());
    world.register_resource_as(increment_trait(), number_value_resource2());
    world.register_resource_as(increment_trait(), number_value_resource());

    match world.get_registry(increment_trait()) {
        Some(registry) => {
            assert_eq!(registry.len(), 2);
        }
        None => panic!("Registry should exist"),
    }

    world.unregister_resource_from_trait(increment_trait(), number_value_resource2());

    match world.get_registry(increment_trait()) {
        Some(registry) => {
            assert_eq!(registry.len(), 1);
        }
        None => panic!("Registry should exist"),
    }

    world.unregister_resource_from_trait(increment_trait(), number_value_resource());

    assert!(world.get_registry(increment_trait()).is_none());
    assert!(world.get_registry(increment_string_trait()).is_some());
}

// Registering when no value of the type was ever stored is refused and
// leaves the store untouched; the host-facing fatal variant treats the
// same condition as a caller logic error.
#[test]
fn registering_missing_resource_is_refused() {
    let mut world: World<Res> = World::new();

    let registered = world.try_register_resource_as(increment_trait(), number_value_resource());

    assert!(!registered);
    assert!(world.get_registry(increment_trait()).is_none());
    assert!(world.get_resource(number_value_resource()).is_none());
    assert!(world.resource_id(number_value_resource()).is_none());

    // After the value exists, the same registration succeeds.
    world.insert_resource(number_value_resource(), Res::Number { value: 7 });
    assert!(world.try_register_resource_as(increment_trait(), number_value_resource()));
    assert!(world.get_registry(increment_trait()).is_some());
}

// Registering the same concrete type twice under one trait keeps a single
// entry: traversal length counts distinct types, not registration calls.
#[test]
fn register_twice_keeps_single_entry() {
    let mut world: World<Res> = World::new();
    world.insert_resource(number_value_resource(), Res::Number { value: 4 });
    world.register_resource_as(increment_trait(), number_value_resource());
    world.register_resource_as(increment_trait(), number_value_resource());

    assert_eq!(world.get_registry(increment_trait()).unwrap().len(), 1);

    let mut steps: usize = 0;
    let mut it = world.get_resources_trait(increment_trait());
    while let Some(step) = it.next(&world) {
        assert!(step.is_some());
        steps += 1;
    }
    assert_eq!(steps, 1);
}

// A replace-in-place keeps the original traversal position.
#[test]
fn reregistering_keeps_position() {
    let mut world: World<Res> = World::new();
    world.insert_resource_as(
        increment_trait(),
        number_value_resource(),
        Res::Number { value: 1 },
    );
    world.insert_resource_as(
        increment_trait(),
        number_value_resource2(),
        Res::Number2 { string_value: "x".to_owned(), value: 2 },
    );
    // Re-register the first type: its entry is replaced in place, not
    // moved to the back.
    world.register_resource_as(increment_trait(), number_value_resource());

    let mut seen: Vec<i32> = Vec::new();
    let mut it = world.get_resources_trait(increment_trait());
    while let Some(step) = it.next(&world) {
        seen.push(value_of(step.unwrap()));
    }
    assert_eq!(seen, vec![1, 2]);
}

// A resource removed from the store without unregistration surfaces as an
// explicit absent marker in traversal order, and the registry keeps its
// entry count.
#[test]
fn stale_entry_yields_absent_marker() {
    let mut world: World<Res> = World::new();
    world.insert_resource_as(
        increment_trait(),
        number_value_resource(),
        Res::Number { value: 0 },
    );
    world.insert_resource_as(
        increment_trait(),
        number_value_resource2(),
        Res::Number2 { string_value: "0".to_owned(), value: 0 },
    );

    world.remove_resource(number_value_resource2());

    let mut it = world.get_resources_trait(increment_trait());
    let first = it.next(&world).unwrap();
    assert!(first.is_some());
    let second = it.next(&world).unwrap();
    assert!(second.is_none());
    assert!(it.next(&world).is_none());

    assert_eq!(world.get_registry(increment_trait()).unwrap().len(), 2);
}

// Mutating through a traversal step is observable through a direct typed
// fetch afterwards, and vice versa: the two views alias the same storage.
#[test]
fn traversal_mutation_aliases_typed_fetch() {
    let mut world: World<Res> = World::new();
    world.insert_resource_as(
        increment_trait(),
        number_value_resource(),
        Res::Number { value: 41 },
    );

    let mut it = world.get_resources_trait_mut(increment_trait());
    let id: ResourceId = it.next(&world).unwrap().unwrap();
    if let Res::Number { value } = world.get_mut_by_id(id) {
        *value += 1;
    }
    assert_eq!(value_of(world.resource(number_value_resource())), 42);

    // The other direction: a typed overwrite is seen by the id-keyed view.
    world.insert_resource(number_value_resource(), Res::Number { value: 5 });
    assert_eq!(value_of(world.get_by_id(id).unwrap()), 5);
}

// Unregistering one trait leaves the other trait's registration and the
// stored value untouched.
#[test]
fn unregister_keeps_other_trait_and_value() {
    let mut world: World<Res> = World::new();
    world.init_resource(third_resource(), Res::Number { value: 9 });
    world.register_resource_as(increment_trait(), third_resource());
    world.register_resource_as(increment_string_trait(), third_resource());

    world.unregister_resource_from_trait(increment_trait(), third_resource());

    assert!(world.get_registry(increment_trait()).is_none());
    assert_eq!(world.get_registry(increment_string_trait()).unwrap().len(), 1);
    assert_eq!(value_of(world.resource(third_resource())), 9);
}

// Unregistering is idempotent, identity-keyed, and a silent no-op for a
// pair never registered or a type the store never saw; it still removes
// the entry of a resource that was removed from the store directly.
#[test]
fn unregister_is_idempotent_and_identity_keyed() {
    let mut world: World<Res> = World::new();

    // Type never seen at all: nothing happens.
    world.unregister_resource_from_trait(increment_trait(), number_value_resource());
    assert!(world.get_registry(increment_trait()).is_none());

    world.insert_resource_as(
        increment_trait(),
        number_value_resource(),
        Res::Number { value: 0 },
    );
    // Pair never registered under the other trait: nothing happens.
    world.unregister_resource_from_trait(increment_string_trait(), number_value_resource());
    assert!(world.get_registry(increment_trait()).is_some());

    // Removing the resource from the store does not unregister it, and a
    // later unregistration still finds the entry by identity.
    world.remove_resource(number_value_resource());
    assert_eq!(world.get_registry(increment_trait()).unwrap().len(), 1);
    world.unregister_resource_from_trait(increment_trait(), number_value_resource());
    assert!(world.get_registry(increment_trait()).is_none());

    // Unregistering again stays a no-op.
    world.unregister_resource_from_trait(increment_trait(), number_value_resource());
    assert!(world.get_registry(increment_trait()).is_none());
}

// `init_resource` keeps a stored value, while the initialising
// registration overwrites like an insertion does.
#[test]
fn init_keeps_stored_value() {
    let mut world: World<Res> = World::new();
    world.insert_resource(number_value_resource(), Res::Number { value: 5 });
    world.init_resource(number_value_resource(), Res::Number { value: 0 });
    assert_eq!(value_of(world.resource(number_value_resource())), 5);

    world.init_resource_as(increment_trait(), number_value_resource(), Res::Number { value: 0 });
    assert_eq!(value_of(world.resource(number_value_resource())), 0);
}

// The read-only traversal snapshots the registry at construction; the
// mutable traversal re-fetches it each step and so observes registrations
// made between steps.
#[test]
fn snapshot_traversal_versus_live_traversal() {
    let mut world: World<Res> = World::new();
    world.insert_resource_as(
        increment_trait(),
        number_value_resource(),
        Res::Number { value: 0 },
    );

    let mut snap: TraitResourceIterator = world.get_resources_trait(increment_trait());
    let mut live = world.get_resources_trait_mut(increment_trait());

    assert!(snap.next(&world).unwrap().is_some());
    assert!(live.next(&world).unwrap().is_some());

    world.insert_resource_as(
        increment_trait(),
        number_value_resource2(),
        Res::Number2 { string_value: "0".to_owned(), value: 0 },
    );

    // The snapshot is exhausted after its one entry; the live traversal
    // sees the second registration.
    assert!(snap.next(&world).is_none());
    assert!(live.next(&world).unwrap().is_some());
    assert!(live.next(&world).is_none());
}

// Traversals over a trait with no registry are empty immediately.
#[test]
fn empty_traversal_without_registry() {
    let mut world: World<Res> = World::new();
    let mut snap = world.get_resources_trait(increment_trait());
    assert!(snap.next(&world).is_none());

    let mut live = world.get_resources_trait_mut(increment_trait());
    assert!(live.next(&mut world).is_none());
}
