use bevy_cleanup::app::Cleanup;
use bevy_cleanup::model::{Entity, Marker};
use bevy_cleanup::store::Store;

const RED: Marker = Marker { id: 7 };
const BLUE: Marker = Marker { id: 8 };

#[test]
fn new_store_is_empty() {
    let store = Store::new();
    assert_eq!(0, store.len());
    assert!(!store.contains(Entity { index: 0 }));
    assert!(store.query(RED).is_empty());
}

#[test]
fn spawn_gives_fresh_identifiers() {
    let mut store = Store::new();
    let a = store.spawn(vec![RED]);
    let b = store.spawn(vec![]);
    assert_eq!(Entity { index: 0 }, a);
    assert_eq!(Entity { index: 1 }, b);
    store.despawn_recursive(a);
    let c = store.spawn(vec![RED]);
    assert_eq!(Entity { index: 2 }, c);
    assert!(!store.contains(a));
    assert_eq!(2, store.len());
}

#[test]
fn spawn_child_needs_a_live_parent() {
    let mut store = Store::new();
    let a = store.spawn(vec![]);
    let b = store.spawn_child(a, vec![BLUE]);
    assert_eq!(Some(Entity { index: 1 }), b);
    assert_eq!(Some(a), store.parent(b.unwrap()));
    assert_eq!(None, store.parent(a));

    store.despawn_recursive(a);
    assert_eq!(None, store.spawn_child(a, vec![]));
    assert_eq!(None, store.spawn_child(Entity { index: 99 }, vec![]));
    assert_eq!(0, store.len());
    assert_eq!(None, store.parent(b.unwrap()));
}

#[test]
fn markers_are_read_back() {
    let mut store = Store::new();
    let a = store.spawn(vec![RED, BLUE]);
    let b = store.spawn(vec![BLUE]);
    assert!(store.has_marker(a, RED));
    assert!(store.has_marker(a, BLUE));
    assert!(!store.has_marker(b, RED));
    assert!(!store.has_marker(Entity { index: 5 }, RED));
    store.despawn_recursive(a);
    assert!(!store.has_marker(a, RED));
}

#[test]
fn query_finds_the_live_tagged_in_spawn_order() {
    let mut store = Store::new();
    let a = store.spawn(vec![RED]);
    let b = store.spawn(vec![BLUE]);
    let c = store.spawn_child(b, vec![BLUE, RED]).unwrap();
    let d = store.spawn(vec![RED, RED]);
    assert_eq!(vec![a, c, d], store.query(RED));
    assert_eq!(vec![b, c], store.query(BLUE));
    store.despawn_recursive(b);
    assert_eq!(vec![a, d], store.query(RED));
    assert!(store.query(BLUE).is_empty());
}

#[test]
fn despawn_recursive_takes_the_whole_subtree() {
    let mut store = Store::new();
    let root = store.spawn(vec![]);
    let left = store.spawn_child(root, vec![]).unwrap();
    let right = store.spawn_child(root, vec![]).unwrap();
    let leaf = store.spawn_child(left, vec![]).unwrap();
    let deep = store.spawn_child(leaf, vec![]).unwrap();
    let other = store.spawn(vec![]);

    store.despawn_recursive(left);
    assert!(store.contains(root));
    assert!(store.contains(right));
    assert!(store.contains(other));
    assert!(!store.contains(left));
    assert!(!store.contains(leaf));
    assert!(!store.contains(deep));
    assert_eq!(3, store.len());
}

#[test]
fn despawning_a_missing_entity_is_a_no_op() {
    let mut store = Store::new();
    let a = store.spawn(vec![RED]);
    let b = store.spawn_child(a, vec![]).unwrap();
    store.despawn_recursive(Entity { index: 17 });
    assert_eq!(2, store.len());
    store.despawn_recursive(b);
    store.despawn_recursive(b);
    assert_eq!(1, store.len());
    assert!(store.contains(a));
}

#[test]
fn cleanup_despawns_every_tagged_subtree() {
    let mut store = Store::new();
    let a = store.spawn(vec![RED]);
    let a1 = store.spawn_child(a, vec![]).unwrap();
    let b = store.spawn(vec![BLUE]);
    let b1 = store.spawn_child(b, vec![RED]).unwrap();
    let b2 = store.spawn_child(b1, vec![BLUE]).unwrap();
    let b3 = store.spawn_child(b, vec![]).unwrap();

    store.cleanup(RED);
    assert!(!store.contains(a));
    assert!(!store.contains(a1));
    assert!(store.contains(b));
    assert!(!store.contains(b1));
    assert!(!store.contains(b2));
    assert!(store.contains(b3));
    assert_eq!(2, store.len());
}

#[test]
fn cleanup_twice_is_cleanup_once() {
    let mut store = Store::new();
    let a = store.spawn(vec![RED]);
    store.spawn_child(a, vec![]);
    let keep = store.spawn(vec![BLUE]);
    store.cleanup(RED);
    assert_eq!(1, store.len());
    store.cleanup(RED);
    assert_eq!(1, store.len());
    assert!(store.contains(keep));
    assert!(store.has_marker(keep, BLUE));
}

#[test]
fn cleanup_of_an_unused_marker_changes_nothing() {
    let mut store = Store::new();
    let a = store.spawn(vec![BLUE]);
    let b = store.spawn_child(a, vec![]).unwrap();
    store.cleanup(RED);
    assert_eq!(2, store.len());
    assert!(store.has_marker(a, BLUE));
    assert_eq!(Some(a), store.parent(b));

    let mut empty = Store::new();
    empty.cleanup(RED);
    assert_eq!(0, empty.len());
}

#[test]
fn a_marker_stands_for_itself() {
    assert_eq!(RED, RED.marker());
    assert_ne!(RED.marker(), BLUE.marker());
}
