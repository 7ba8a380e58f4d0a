use bevy_trait_resource::ext::{App, TraitResourceExt};
use bevy_trait_resource::world::{TraitKey, TypeKey};

#[derive(Clone, Debug, PartialEq, Eq)]
struct Counter {
    value: i32,
}

// The same operations are available through an application-level handle
// wrapping the store as on the store directly.
#[test]
fn app_handle_registration_and_traversal() {
    let mut app: App<Counter> = App::new();
    app.init_resource_as(TraitKey(1), TypeKey(10), Counter { value: 0 });
    app.insert_resource_as(TraitKey(1), TypeKey(11), Counter { value: 40 });

    let mut it = app.get_resources_trait_mut(TraitKey(1));
    loop {
        match it.next(&app.world) {
            None => break,
            Some(None) => {}
            Some(Some(id)) => {
                app.world.get_mut_by_id(id).value += 2;
            }
        }
    }
    assert_eq!(app.world.resource(TypeKey(10)).value, 2);
    assert_eq!(app.world.resource(TypeKey(11)).value, 42);

    app.unregister_resource_from_trait(TraitKey(1), TypeKey(10));
    app.unregister_resource_from_trait(TraitKey(1), TypeKey(11));
    assert!(app.world.get_registry(TraitKey(1)).is_none());
    // Unregistration never removes the values themselves.
    assert!(app.world.get_resource(TypeKey(10)).is_some());
    assert!(app.world.get_resource(TypeKey(11)).is_some());
}

// The trait surface on the store itself resolves to the same behaviour.
#[test]
fn world_trait_surface_matches_inherent() {
    let mut app: App<Counter> = App::new();
    TraitResourceExt::insert_resource_as(
        &mut app.world,
        TraitKey(7),
        TypeKey(1),
        Counter { value: 5 },
    );
    assert_eq!(app.world.get_registry(TraitKey(7)).unwrap().len(), 1);
    TraitResourceExt::unregister_resource_from_trait(&mut app.world, TraitKey(7), TypeKey(1));
    assert!(app.world.get_registry(TraitKey(7)).is_none());
}
