use tuber::resources::{InMemoryStore, ResourceStore};

#[test]
fn store_then_get_round_trip() {
    let mut store: InMemoryStore<u32> = InMemoryStore::new();
    store.store("k", 5);
    assert_eq!(store.get("k"), Some(&5));
    store.remove("k");
    assert_eq!(store.get("k"), None);
}

#[test]
fn store_replaces_existing_value() {
    let mut store: InMemoryStore<u32> = InMemoryStore::new();
    store.store("k", 1);
    store.store("k", 2);
    assert_eq!(store.get("k"), Some(&2));
}

#[test]
fn get_mut_edits_the_stored_value() {
    let mut store: InMemoryStore<u32> = InMemoryStore::new();
    store.store("k", 1);
    *store.get_mut("k").unwrap() = 7;
    assert_eq!(store.get("k"), Some(&7));
    assert!(store.get_mut("absent").is_none());
}

#[test]
fn distinct_paths_are_independent() {
    let mut store: InMemoryStore<&'static str> = InMemoryStore::new();
    store.store("textures/hero", "hero");
    store.store("textures/foe", "foe");
    store.remove("textures/hero");
    assert_eq!(store.get("textures/hero"), None);
    assert_eq!(store.get("textures/foe"), Some(&"foe"));
}

#[test]
fn the_capability_trait_is_usable_through_generics() {
    fn fill<S: ResourceStore<u32>>(store: &mut S) {
        store.store("a", 1);
        store.store("b", 2);
        store.remove("a");
    }

    let mut store: InMemoryStore<u32> = InMemoryStore::new();
    fill(&mut store);
    assert_eq!(store.get("a"), None);
    assert_eq!(store.get("b"), Some(&2));
}
