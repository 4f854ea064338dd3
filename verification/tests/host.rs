use bevy::app::App;
use bevy::ecs::component::{Component, TableStorage};
use bevy::ecs::entity::Entity;
use bevy::ecs::query::With;
use bevy::ecs::schedule::{NextState, OnEnter, OnExit, States};
use bevy::ecs::system::{Commands, Query};
use bevy::ecs::world::World;
use bevy::hierarchy::{BuildWorldChildren, Children, Parent};
use bevy_cleanup::host::{
    all_before_last_generation, despawn_each, subtrees_before_last_generation, try_despawn_each,
    LAST_GENERATION,
};

#[derive(Debug, Clone, Copy, PartialEq, Eq, Hash)]
enum AppState {
    Menu,
    Game,
}

impl Default for AppState {
    fn default() -> Self {
        AppState::Menu
    }
}

impl States for AppState {}

struct CleanupMenu;

impl Component for CleanupMenu {
    type Storage = TableStorage;
}

struct CleanupGame;

impl Component for CleanupGame {
    type Storage = TableStorage;
}

fn cleanup<C: Component>(mut commands: Commands, query: Query<Entity, With<C>>) {
    let targets: Vec<u64> = query.iter().map(|e| e.to_bits()).collect();
    commands.add(move |world: &mut World| {
        assert!(try_despawn_each(world, &targets));
    });
}

fn tagged<C: Component>(world: &mut World) -> Vec<u64> {
    let mut query = world.query_filtered::<Entity, With<C>>();
    query.iter(world).map(|e| e.to_bits()).collect()
}

fn ids(world: &World) -> Vec<Entity> {
    world.iter_entities().map(|e| e.id()).collect()
}

fn setup_menu(world: &mut World) {
    world.spawn(CleanupMenu);
}

fn setup_game(world: &mut World) {
    world.spawn(CleanupGame);
    world.spawn(CleanupGame);
}

fn bevy_app() -> App {
    let mut app = App::new();
    app.add_state::<AppState>()
        .add_systems(OnExit(AppState::Menu), cleanup::<CleanupMenu>)
        .add_systems(OnExit(AppState::Game), cleanup::<CleanupGame>)
        .add_systems(OnEnter(AppState::Menu), setup_menu)
        .add_systems(OnEnter(AppState::Game), setup_game);
    app
}

#[test]
fn world_remove_on_exit() {
    let mut app = bevy_app();
    assert_eq!(0, app.world.entities().len());

    app.update();
    assert_eq!(1, app.world.entities().len());

    app.insert_resource(NextState(Some(AppState::Game)));
    app.update();
    assert_eq!(2, app.world.entities().len());

    app.insert_resource(NextState(Some(AppState::Menu)));
    app.update();
    assert_eq!(1, app.world.entities().len());
}

#[test]
fn world_remove_on_reenter() {
    let mut app = bevy_app();
    assert_eq!(0, app.world.entities().len());

    app.update();
    assert_eq!(1, app.world.entities().len());

    app.insert_resource(NextState(Some(AppState::Menu)));
    app.update();
    assert_eq!(1, app.world.entities().len());
}

#[test]
fn despawn_each_takes_the_subtrees() {
    let mut world = World::new();
    let parent = world.spawn(CleanupMenu).id();
    let first = world.spawn_empty().id();
    let second = world.spawn_empty().id();
    let grandchild = world.spawn_empty().id();
    let bystander = world.spawn(CleanupGame).id();
    world.entity_mut(parent).push_children(&[first, second]);
    world.entity_mut(first).add_child(grandchild);
    assert_eq!(5, world.entities().len());

    despawn_each(&mut world, &vec![parent.to_bits()]);
    assert!(!world.entities().contains(parent));
    assert!(!world.entities().contains(first));
    assert!(!world.entities().contains(second));
    assert!(!world.entities().contains(grandchild));
    assert!(world.entities().contains(bystander));
    assert_eq!(1, world.entities().len());
}

#[test]
fn despawn_each_keeps_what_lies_above() {
    let mut world = World::new();
    let root = world.spawn_empty().id();
    let middle = world.spawn_empty().id();
    let sibling = world.spawn_empty().id();
    let leaf = world.spawn_empty().id();
    world.entity_mut(root).push_children(&[middle, sibling]);
    world.entity_mut(middle).add_child(leaf);

    despawn_each(&mut world, &vec![middle.to_bits()]);
    assert!(world.entities().contains(root));
    assert!(world.entities().contains(sibling));
    assert!(!world.entities().contains(middle));
    assert!(!world.entities().contains(leaf));
    let children: Vec<Entity> = world.get::<Children>(root).unwrap().iter().copied().collect();
    assert_eq!(vec![sibling], children);
    assert_eq!(root, world.get::<Parent>(sibling).unwrap().get());
}

#[test]
fn despawn_each_passes_over_the_missing() {
    let mut world = World::new();
    let parent = world.spawn_empty().id();
    let child = world.spawn_empty().id();
    let other = world.spawn_empty().id();
    world.entity_mut(parent).add_child(child);

    despawn_each(&mut world, &vec![parent.to_bits(), child.to_bits(), parent.to_bits()]);
    assert_eq!(1, world.entities().len());
    assert!(world.entities().contains(other));

    despawn_each(&mut world, &vec![Entity::from_raw(4000).to_bits()]);
    assert_eq!(1, world.entities().len());
}

#[test]
fn despawn_each_of_nothing_changes_nothing() {
    let mut world = World::new();
    let parent = world.spawn(CleanupMenu).id();
    let child = world.spawn_empty().id();
    world.entity_mut(parent).add_child(child);

    despawn_each(&mut world, &Vec::new());
    assert_eq!(2, world.entities().len());
    let none = tagged::<CleanupGame>(&mut world);
    assert!(none.is_empty());
    assert!(try_despawn_each(&mut world, &none));
    assert_eq!(2, world.entities().len());
    assert!(world.entities().contains(parent));
    assert!(world.entities().contains(child));
}

#[test]
fn despawn_each_in_any_order() {
    let mut world = World::new();
    let a = world.spawn_empty().id();
    let b = world.spawn_empty().id();
    let c = world.spawn_empty().id();
    let d = world.spawn_empty().id();
    world.entity_mut(a).add_child(b);
    world.entity_mut(b).add_child(c);

    despawn_each(&mut world, &vec![c.to_bits(), a.to_bits(), b.to_bits()]);
    assert_eq!(1, world.entities().len());
    assert!(world.entities().contains(d));
}

#[test]
fn try_despawn_each_takes_the_tagged_subtrees() {
    let mut world = World::new();
    let parent = world.spawn(CleanupMenu).id();
    let child = world.spawn_empty().id();
    let other = world.spawn(CleanupGame).id();
    world.entity_mut(parent).add_child(child);

    let targets = tagged::<CleanupMenu>(&mut world);
    assert_eq!(vec![parent.to_bits()], targets);
    assert!(try_despawn_each(&mut world, &targets));
    assert_eq!(vec![other], ids(&world));
}

#[test]
fn reserved_identifiers_may_get_their_entities() {
    let mut world = World::new();
    let parent = world.spawn_empty().id();
    let child = world.spawn_empty().id();
    let other = world.spawn_empty().id();
    world.entity_mut(parent).add_child(child);
    let reserved = world.entities().reserve_entity();
    assert!(world.get_entity(reserved).is_none());

    assert!(try_despawn_each(&mut world, &vec![parent.to_bits()]));
    assert!(world.get_entity(parent).is_none());
    assert!(world.get_entity(child).is_none());
    assert!(world.get_entity(other).is_some());
    for id in ids(&world) {
        assert!(id == other || id == reserved);
    }
}

#[test]
fn a_target_of_the_last_generation_is_refused() {
    let mut world = World::new();
    let last = Entity::from_bits(LAST_GENERATION);
    assert_eq!(u32::MAX, last.generation());
    assert!(world.get_or_spawn(last).is_some());
    let other = world.spawn_empty().id();

    assert!(!try_despawn_each(&mut world, &vec![other.to_bits(), last.to_bits()]));
    assert!(world.get_entity(last).is_some());
    assert!(world.get_entity(other).is_some());
    assert_eq!(2, world.entities().len());
}

#[test]
fn a_child_of_the_last_generation_is_refused() {
    let mut world = World::new();
    let last = Entity::from_bits(LAST_GENERATION + 5);
    assert!(world.get_or_spawn(last).is_some());
    let parent = world.spawn_empty().id();
    world.entity_mut(parent).add_child(last);
    let before = world.entities().len();

    assert!(!try_despawn_each(&mut world, &vec![parent.to_bits()]));
    assert!(world.get_entity(last).is_some());
    assert!(world.get_entity(parent).is_some());
    assert_eq!(before, world.entities().len());
}

#[test]
fn an_unlisted_entity_of_the_last_generation_is_no_obstacle() {
    let mut world = World::new();
    let last = Entity::from_bits(LAST_GENERATION);
    assert!(world.get_or_spawn(last).is_some());
    let parent = world.spawn_empty().id();
    let child = world.spawn_empty().id();
    world.entity_mut(parent).add_child(child);

    assert!(try_despawn_each(&mut world, &vec![parent.to_bits()]));
    assert!(world.get_entity(last).is_some());
    assert!(world.get_entity(parent).is_none());
    assert!(world.get_entity(child).is_none());
}

#[test]
fn last_generation_bound() {
    assert_eq!(0xFFFF_FFFF_0000_0000, LAST_GENERATION);
    assert!(all_before_last_generation(&vec![]));
    assert!(all_before_last_generation(&vec![0, 7, LAST_GENERATION - 1]));
    assert!(!all_before_last_generation(&vec![0, LAST_GENERATION, 7]));
    assert!(!all_before_last_generation(&vec![u64::MAX]));
}

#[test]
fn a_last_generation_child_elsewhere_is_no_obstacle() {
    let mut world = World::new();
    let last = Entity::from_bits(LAST_GENERATION + 3);
    assert!(world.get_or_spawn(last).is_some());
    let elsewhere = world.spawn_empty().id();
    world.entity_mut(elsewhere).add_child(last);
    let parent = world.spawn_empty().id();
    let child = world.spawn_empty().id();
    world.entity_mut(parent).add_child(child);

    assert!(subtrees_before_last_generation(&world, &vec![parent.to_bits()]));
    assert!(!subtrees_before_last_generation(&world, &vec![elsewhere.to_bits()]));
    assert!(try_despawn_each(&mut world, &vec![parent.to_bits()]));
    assert!(world.get_entity(parent).is_none());
    assert!(world.get_entity(child).is_none());
    assert!(world.get_entity(elsewhere).is_some());
    assert!(world.get_entity(last).is_some());
}

#[test]
fn a_last_generation_grandchild_is_found() {
    let mut world = World::new();
    let last = Entity::from_bits(LAST_GENERATION + 1);
    assert!(world.get_or_spawn(last).is_some());
    let root = world.spawn_empty().id();
    let middle = world.spawn_empty().id();
    let side = world.spawn_empty().id();
    world.entity_mut(root).push_children(&[side, middle]);
    world.entity_mut(middle).add_child(last);

    assert!(!subtrees_before_last_generation(&world, &vec![root.to_bits()]));
    assert!(!subtrees_before_last_generation(&world, &vec![side.to_bits(), middle.to_bits()]));
    assert!(subtrees_before_last_generation(&world, &vec![side.to_bits()]));
    assert!(subtrees_before_last_generation(&world, &vec![]));
    assert!(!try_despawn_each(&mut world, &vec![root.to_bits()]));
    assert_eq!(4, world.entities().len());
    assert!(try_despawn_each(&mut world, &vec![side.to_bits()]));
    assert_eq!(3, world.entities().len());
}

#[test]
fn a_hierarchy_that_loops_is_walked_once() {
    let mut world = World::new();
    let a = world.spawn_empty().id();
    let b = world.spawn_empty().id();
    let c = world.spawn_empty().id();
    let other = world.spawn_empty().id();
    world.entity_mut(a).add_child(b);
    world.entity_mut(b).add_child(c);
    world.entity_mut(c).add_child(a);

    let targets = vec![b.to_bits(), b.to_bits()];
    assert!(subtrees_before_last_generation(&world, &targets));
    assert!(try_despawn_each(&mut world, &targets));
    assert_eq!(vec![other], ids(&world));
}

#[test]
fn targets_without_entities_are_walked() {
    let mut world = World::new();
    let a = world.spawn_empty().id();
    let gone = world.spawn_empty().id();
    assert!(world.despawn(gone));

    let targets = vec![gone.to_bits(), Entity::from_raw(900).to_bits(), a.to_bits()];
    assert!(subtrees_before_last_generation(&world, &targets));
    assert!(try_despawn_each(&mut world, &targets));
    assert_eq!(0, world.entities().len());
    assert!(!subtrees_before_last_generation(&world, &vec![u64::MAX]));
    assert!(!try_despawn_each(&mut world, &vec![u64::MAX]));
}
