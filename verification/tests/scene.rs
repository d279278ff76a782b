use scene_graph::basic::{Roster, Tag};
use scene_graph::component::{Component, ComponentRef};
use scene_graph::component_manager::{ComponentManager, Hook};
use scene_graph::entity::Entity;
use scene_graph::identifier::Identifier;
use scene_graph::scene::Scene;
use scene_graph::world::World;

const SOME: u64 = 7;

fn some_component() -> Tag {
    Tag::new(Identifier::new(SOME), Identifier::new(SOME))
}

fn some_manager<'a>(world: &'a World<Tag>, scene: &Scene) -> Option<&'a Roster> {
    scene.manager(world, Identifier::new(SOME))
}

#[test]
fn test_scene() {
    let mut world: World<Tag> = World::new();
    let scene = Scene::new(&mut world);
    let grandparent = Entity::new(&mut world);
    let parent = Entity::new(&mut world);
    let child = Entity::new(&mut world);

    grandparent.add_component(&mut world, some_component());
    parent.add_component(&mut world, some_component());
    child.add_component(&mut world, some_component());

    parent.add_child(&mut world, child);
    grandparent.add_child(&mut world, parent);

    scene.add_entity(&mut world, grandparent);

    scene.init(&mut world);

    let id = Identifier::new(SOME);
    assert_eq!(grandparent.has_component(&world, id), true);
    assert_eq!(parent.has_component(&world, id), true);
    assert_eq!(child.has_component(&world, id), true);

    let some_component = grandparent.get_component(&world, id).unwrap();
    assert_eq!(world.component(some_component).identifier(), id);

    // Only the grandparent is a root of the scene; its descendants live in
    // the scene through it.
    assert_eq!(scene.has_entity(&world, grandparent), true);
    assert_eq!(scene.has_entity(&world, parent), false);
    assert_eq!(scene.has_entity(&world, child), false);
    assert_eq!(grandparent.scene(&world), Some(scene));
    assert_eq!(parent.scene(&world), Some(scene));
    assert_eq!(child.scene(&world), Some(scene));

    scene.update(&mut world);

    grandparent.remove_component(&mut world, id);
    parent.remove_component(&mut world, id);
    child.remove_component(&mut world, id);

    assert_eq!(grandparent.has_component(&world, id), false);
    assert_eq!(parent.has_component(&world, id), false);
    assert_eq!(child.has_component(&world, id), false);

    // The child is no root: removing it from the scene changes nothing.
    scene.remove_entity(&mut world, child);

    assert_eq!(parent.has_child(&world, child), true);
    assert_eq!(scene.has_entity(&world, child), false);
    assert_eq!(child.scene(&world), Some(scene));

    scene.remove_entity(&mut world, grandparent);

    assert_eq!(scene.has_entity(&world, grandparent), false);
    assert_eq!(scene.has_entity(&world, parent), false);
    assert_eq!(grandparent.has_child(&world, parent), true);
    assert_eq!(grandparent.scene(&world), None);
    assert_eq!(parent.scene(&world), None);
    assert_eq!(child.scene(&world), None);
}

#[test]
fn entity_moves_between_scenes() {
    let mut world: World<Tag> = World::new();
    let first = Scene::new(&mut world);
    let second = Scene::new(&mut world);
    assert!(first != second);
    let entity = Entity::new(&mut world);

    first.add_entity(&mut world, entity);
    assert_eq!(first.has_entity(&world, entity), true);
    assert_eq!(second.has_entity(&world, entity), false);

    second.add_entity(&mut world, entity);
    assert_eq!(first.has_entity(&world, entity), false);
    assert_eq!(second.has_entity(&world, entity), true);
    assert_eq!(entity.scene(&world), Some(second));
}

#[test]
fn components_move_with_their_entity() {
    let mut world: World<Tag> = World::new();
    let first = Scene::new(&mut world);
    let second = Scene::new(&mut world);
    let parent = Entity::new(&mut world);
    let child = Entity::new(&mut world);
    parent.add_child(&mut world, child);
    let c = child.add_component(&mut world, some_component()).unwrap();
    first.init(&mut world);

    first.add_entity(&mut world, parent);
    assert_eq!(some_manager(&world, &first).unwrap().contains(c), true);
    assert_eq!(some_manager(&world, &first).unwrap().count(Hook::Init), 1);
    assert!(some_manager(&world, &second).is_none());

    second.add_entity(&mut world, parent);
    assert!(some_manager(&world, &first).is_none());
    assert_eq!(some_manager(&world, &second).unwrap().contains(c), true);
    assert_eq!(some_manager(&world, &second).unwrap().count(Hook::Init), 0);
    assert_eq!(some_manager(&world, &second).unwrap().scene(), Some(second));
    assert_eq!(child.scene(&world), Some(second));
}

#[test]
fn adding_an_entity_twice_changes_nothing() {
    let mut world: World<Tag> = World::new();
    let scene = Scene::new(&mut world);
    let first = Entity::new(&mut world);
    let second = Entity::new(&mut world);
    scene.add_entity(&mut world, first);
    scene.add_entity(&mut world, second);
    assert_eq!(scene.entities(&world), vec![first, second]);
    scene.add_entity(&mut world, first);
    assert_eq!(scene.entities(&world), vec![first, second]);
    scene.add_entity(&mut world, first).add_entity(&mut world, second);
    assert_eq!(scene.entities(&world), vec![first, second]);
}

#[test]
fn removing_a_root_detaches_its_descendants() {
    let mut world: World<Tag> = World::new();
    let scene = Scene::new(&mut world);
    let grandparent = Entity::new(&mut world);
    let parent = Entity::new(&mut world);
    let child = Entity::new(&mut world);
    grandparent.add_child(&mut world, parent);
    parent.add_child(&mut world, child);
    scene.add_entity(&mut world, grandparent);
    assert_eq!(child.scene(&world), Some(scene));

    scene.remove_entity(&mut world, grandparent);

    assert_eq!(scene.has_entity(&world, grandparent), false);
    assert_eq!(scene.has_entity(&world, parent), false);
    assert_eq!(scene.has_entity(&world, child), false);
    assert_eq!(grandparent.scene(&world), None);
    assert_eq!(parent.scene(&world), None);
    assert_eq!(child.scene(&world), None);
    assert_eq!(grandparent.has_child(&world, parent), true);
    assert_eq!(parent.has_child(&world, child), true);
    assert_eq!(child.parent(&world), Some(parent));
    assert_eq!(scene.entities(&world), Vec::<Entity>::new());
}

#[test]
fn removing_an_absent_entity_changes_nothing() {
    let mut world: World<Tag> = World::new();
    let scene = Scene::new(&mut world);
    let root = Entity::new(&mut world);
    let stranger = Entity::new(&mut world);
    scene.add_entity(&mut world, root);
    scene.remove_entity(&mut world, stranger);
    assert_eq!(scene.entities(&world), vec![root]);
    assert_eq!(stranger.scene(&world), None);
}

#[test]
fn manager_is_initialized_when_it_joins_an_initialized_scene() {
    let mut world: World<Tag> = World::new();
    let scene = Scene::new(&mut world);
    let entity = Entity::new(&mut world);
    scene.add_entity(&mut world, entity);
    scene.init(&mut world);
    assert_eq!(scene.is_initialized(&world), true);
    assert!(some_manager(&world, &scene).is_none());

    entity.add_component(&mut world, some_component());

    let manager = some_manager(&world, &scene).unwrap();
    assert_eq!(manager.count(Hook::Init), 1);
    assert_eq!(manager.count(Hook::Update), 0);
    assert_eq!(manager.count(Hook::Destroy), 0);
    assert_eq!(manager.identifier(), Identifier::new(SOME));
    assert_eq!(manager.scene(), Some(scene));
    assert_eq!(manager.is_empty(), false);

    entity.remove_component(&mut world, Identifier::new(SOME));
    assert!(some_manager(&world, &scene).is_none());
    assert_eq!(scene.has_manager(&world, Identifier::new(SOME)), false);
}

#[test]
fn manager_is_initialized_again_after_it_was_destroyed() {
    let mut world: World<Tag> = World::new();
    let scene = Scene::new(&mut world);
    let entity = Entity::new(&mut world);
    scene.add_entity(&mut world, entity);
    scene.init(&mut world);

    entity.add_component(&mut world, some_component());
    scene.update(&mut world);
    scene.update(&mut world);
    assert_eq!(some_manager(&world, &scene).unwrap().count(Hook::Init), 1);
    assert_eq!(some_manager(&world, &scene).unwrap().count(Hook::Update), 2);

    entity.remove_component(&mut world, Identifier::new(SOME));
    assert!(some_manager(&world, &scene).is_none());

    entity.add_component(&mut world, some_component());
    assert_eq!(some_manager(&world, &scene).unwrap().count(Hook::Init), 1);
    assert_eq!(some_manager(&world, &scene).unwrap().count(Hook::Update), 0);
}

#[test]
fn init_reaches_each_manager_once() {
    let mut world: World<Tag> = World::new();
    let scene = Scene::new(&mut world);
    let entity = Entity::new(&mut world);
    scene.add_entity(&mut world, entity);
    entity.add_component(&mut world, some_component());
    assert_eq!(some_manager(&world, &scene).unwrap().count(Hook::Init), 0);
    assert_eq!(scene.is_initialized(&world), false);

    scene.init(&mut world);
    scene.init(&mut world);
    scene.init(&mut world).update(&mut world);

    assert_eq!(some_manager(&world, &scene).unwrap().count(Hook::Init), 1);
    assert_eq!(some_manager(&world, &scene).unwrap().count(Hook::Update), 1);
}

#[test]
fn update_before_init_is_allowed() {
    let mut world: World<Tag> = World::new();
    let scene = Scene::new(&mut world);
    let entity = Entity::new(&mut world);
    scene.add_entity(&mut world, entity);
    entity.add_component(&mut world, some_component());
    scene.update(&mut world);
    assert_eq!(some_manager(&world, &scene).unwrap().count(Hook::Init), 0);
    assert_eq!(some_manager(&world, &scene).unwrap().count(Hook::Update), 1);
}

#[test]
fn three_levels_share_one_manager() {
    let mut world: World<Tag> = World::new();
    let scene = Scene::new(&mut world);
    let grandparent = Entity::new(&mut world);
    let parent = Entity::new(&mut world);
    let child = Entity::new(&mut world);
    grandparent.add_child(&mut world, parent);
    parent.add_child(&mut world, child);
    let a = grandparent.add_component(&mut world, some_component()).unwrap();
    let b = parent.add_component(&mut world, some_component()).unwrap();
    let c = child.add_component(&mut world, some_component()).unwrap();

    scene.add_entity(&mut world, grandparent);
    scene.init(&mut world);

    let id = Identifier::new(SOME);
    {
        let manager = some_manager(&world, &scene).unwrap();
        assert_eq!(manager.count(Hook::Init), 1);
        assert!(manager.contains(a) && manager.contains(b) && manager.contains(c));
    }
    assert_eq!(scene.has_entity(&world, grandparent), true);
    assert_eq!(grandparent.scene(&world), Some(scene));
    assert_eq!(parent.scene(&world), Some(scene));
    assert_eq!(child.scene(&world), Some(scene));

    scene.update(&mut world);
    assert_eq!(some_manager(&world, &scene).unwrap().count(Hook::Update), 1);

    grandparent.remove_component(&mut world, id);
    assert_eq!(scene.has_manager(&world, id), true);
    parent.remove_component(&mut world, id);
    assert_eq!(scene.has_manager(&world, id), true);
    child.remove_component(&mut world, id);
    assert_eq!(scene.has_manager(&world, id), false);
}

#[test]
fn one_component_of_each_identifier() {
    let mut world: World<Tag> = World::new();
    let entity = Entity::new(&mut world);
    let first = entity.add_component(&mut world, some_component());
    let second = entity.add_component(&mut world, some_component());
    assert!(first.is_some());
    assert_eq!(second, None);
    let other = entity.add_component(&mut world, Tag::new(Identifier::new(8), Identifier::new(SOME)));
    assert!(other.is_some());
    assert_eq!(entity.get_component(&world, Identifier::new(SOME)), first);
    assert_eq!(entity.get_component(&world, Identifier::new(8)), other);
    assert_eq!(entity.get_component(&world, Identifier::new(9)), None);
    assert_eq!(world.component(first.unwrap()).entity(), Some(entity));
    assert_eq!(entity.remove_component(&mut world, Identifier::new(9)), None);
    assert_eq!(entity.remove_component(&mut world, Identifier::new(SOME)), first);
    assert_eq!(world.component(first.unwrap()).entity(), None);
}

#[test]
fn kinds_may_share_a_manager() {
    let mut world: World<Tag> = World::new();
    let scene = Scene::new(&mut world);
    let entity = Entity::new(&mut world);
    scene.add_entity(&mut world, entity);
    let a = entity.add_component(&mut world, Tag::new(Identifier::new(1), Identifier::new(SOME))).unwrap();
    let b = entity.add_component(&mut world, Tag::new(Identifier::new(2), Identifier::new(SOME))).unwrap();
    assert_eq!(world.component(a).manager_identifier(), Identifier::new(SOME));
    let manager = some_manager(&world, &scene).unwrap();
    assert!(manager.contains(a) && manager.contains(b));
    entity.remove_component(&mut world, Identifier::new(1));
    assert_eq!(scene.has_manager(&world, Identifier::new(SOME)), true);
    entity.remove_component(&mut world, Identifier::new(2));
    assert_eq!(scene.has_manager(&world, Identifier::new(SOME)), false);
}

#[test]
fn managers_are_kept_by_identifier() {
    let mut world: World<Tag> = World::new();
    let scene = Scene::new(&mut world);
    let entity = Entity::new(&mut world);
    scene.add_entity(&mut world, entity);
    for tag in [5u64, 3, 9, 1] {
        entity.add_component(&mut world, Tag::new(Identifier::new(tag), Identifier::new(tag)));
    }
    scene.init(&mut world).update(&mut world);
    for tag in [1u64, 3, 5, 9] {
        let manager = scene.manager(&world, Identifier::new(tag)).unwrap();
        assert_eq!(manager.identifier().tag(), tag);
        assert_eq!(manager.count(Hook::Init), 1);
        assert_eq!(manager.count(Hook::Update), 1);
    }
    assert!(scene.manager(&world, Identifier::new(4)).is_none());
    entity.remove_component(&mut world, Identifier::new(3));
    assert!(scene.manager(&world, Identifier::new(3)).is_none());
    assert!(scene.manager(&world, Identifier::new(5)).is_some());
}

#[test]
fn add_child_refuses_a_cycle() {
    let mut world: World<Tag> = World::new();
    let top = Entity::new(&mut world);
    let middle = Entity::new(&mut world);
    let bottom = Entity::new(&mut world);
    top.add_child(&mut world, middle);
    middle.add_child(&mut world, bottom);
    bottom.add_child(&mut world, top);
    assert_eq!(top.parent(&world), None);
    assert_eq!(bottom.has_child(&world, top), false);
    top.add_child(&mut world, top);
    assert_eq!(top.has_child(&world, top), false);
    top.add_child(&mut world, middle);
    assert_eq!(middle.parent(&world), Some(top));
}

#[test]
fn add_child_brings_the_child_into_the_scene() {
    let mut world: World<Tag> = World::new();
    let scene = Scene::new(&mut world);
    let other = Scene::new(&mut world);
    let root = Entity::new(&mut world);
    let child = Entity::new(&mut world);
    let c = child.add_component(&mut world, some_component()).unwrap();
    scene.add_entity(&mut world, root);
    other.add_entity(&mut world, child);
    assert_eq!(some_manager(&world, &other).unwrap().contains(c), true);

    root.add_child(&mut world, child);

    assert_eq!(child.scene(&world), Some(scene));
    assert_eq!(child.parent(&world), Some(root));
    assert_eq!(other.has_entity(&world, child), false);
    assert!(some_manager(&world, &other).is_none());
    assert_eq!(some_manager(&world, &scene).unwrap().contains(c), true);

    root.remove_child(&mut world, child);
    assert_eq!(child.scene(&world), None);
    assert_eq!(child.parent(&world), None);
    assert_eq!(root.has_child(&world, child), false);
    assert!(some_manager(&world, &scene).is_none());
}

#[test]
fn moving_within_a_scene_keeps_the_managers() {
    let mut world: World<Tag> = World::new();
    let scene = Scene::new(&mut world);
    let a = Entity::new(&mut world);
    let b = Entity::new(&mut world);
    a.add_component(&mut world, some_component());
    scene.add_entity(&mut world, a);
    scene.add_entity(&mut world, b);
    scene.init(&mut world);
    scene.update(&mut world);

    b.add_child(&mut world, a);

    assert_eq!(scene.entities(&world), vec![b]);
    assert_eq!(a.scene(&world), Some(scene));
    let manager = some_manager(&world, &scene).unwrap();
    assert_eq!(manager.count(Hook::Init), 1);
    assert_eq!(manager.count(Hook::Update), 1);
}

#[test]
fn adding_a_child_of_another_tree_makes_it_a_root() {
    let mut world: World<Tag> = World::new();
    let scene = Scene::new(&mut world);
    let parent = Entity::new(&mut world);
    let child = Entity::new(&mut world);
    parent.add_child(&mut world, child);

    scene.add_entity(&mut world, child);

    assert_eq!(scene.has_entity(&world, child), true);
    assert_eq!(child.parent(&world), None);
    assert_eq!(parent.has_child(&world, child), false);
    assert_eq!(parent.scene(&world), None);
}

#[test]
fn identifiers_are_ordered_by_their_tags() {
    let low = Identifier::new(1);
    let high = Identifier::new(2);
    assert!(low.precedes(&high));
    assert!(!high.precedes(&low));
    assert!(!low.precedes(&low));
    assert!(low.same(&Identifier::new(1)));
    assert!(!low.same(&high));
    assert_eq!(low, Identifier::new(1));
    assert_eq!(high.tag(), 2);
}

#[test]
fn managers_are_listed_in_ascending_order() {
    let mut world: World<Tag> = World::new();
    let scene = Scene::new(&mut world);
    let entity = Entity::new(&mut world);
    scene.add_entity(&mut world, entity);
    assert_eq!(scene.manager_identifiers(&world), Vec::<Identifier>::new());
    for tag in [5u64, 3, 9, 1] {
        entity.add_component(&mut world, Tag::new(Identifier::new(tag), Identifier::new(tag)));
    }
    let expected: Vec<Identifier> = [1u64, 3, 5, 9].iter().map(|t| Identifier::new(*t)).collect();
    assert_eq!(scene.manager_identifiers(&world), expected);
    entity.remove_component(&mut world, Identifier::new(5));
    let expected: Vec<Identifier> = [1u64, 3, 9].iter().map(|t| Identifier::new(*t)).collect();
    assert_eq!(scene.manager_identifiers(&world), expected);
}

#[test]
fn scene_registers_a_component_directly() {
    let mut world: World<Tag> = World::new();
    let scene = Scene::new(&mut world);
    let entity = Entity::new(&mut world);
    let c = entity.add_component(&mut world, some_component()).unwrap();
    assert!(some_manager(&world, &scene).is_none());

    scene.add_component(&mut world, c);
    assert_eq!(some_manager(&world, &scene).unwrap().contains(c), true);
    assert_eq!(some_manager(&world, &scene).unwrap().count(Hook::Init), 0);
    scene.add_component(&mut world, c);
    assert_eq!(some_manager(&world, &scene).unwrap().contains(c), true);

    scene.remove_component(&mut world, c);
    assert!(some_manager(&world, &scene).is_none());
    scene.remove_component(&mut world, c);
    assert!(some_manager(&world, &scene).is_none());
}

#[test]
fn new_entity_is_alone() {
    let mut world: World<Tag> = World::new();
    let scene = Scene::new(&mut world);
    let entity = Entity::new(&mut world);
    let other = Entity::new(&mut world);
    assert!(entity != other);
    assert_eq!(entity.scene(&world), None);
    assert_eq!(entity.parent(&world), None);
    assert_eq!(entity.has_child(&world, other), false);
    assert_eq!(entity.has_component(&world, Identifier::new(SOME)), false);
    assert_eq!(scene.has_entity(&world, entity), false);
    assert_eq!(scene.is_initialized(&world), false);
    assert_eq!(scene.entities(&world), Vec::<Entity>::new());
}

#[test]
fn roster_counts_its_calls() {
    let mut roster = Roster::new(Identifier::new(SOME));
    assert_eq!(roster.is_empty(), true);
    assert_eq!(roster.scene(), None);
    assert_eq!(roster.identifier(), Identifier::new(SOME));
    let held = ComponentRef { index: 4 };
    roster.add_component(held);
    roster.add_component(held);
    assert_eq!(roster.contains(held), true);
    assert_eq!(roster.contains(ComponentRef { index: 5 }), false);
    assert_eq!(roster.is_empty(), false);
    roster.remove_component(ComponentRef { index: 5 });
    assert_eq!(roster.contains(held), true);
    roster.remove_component(held);
    assert_eq!(roster.contains(held), false);
    assert_eq!(roster.is_empty(), true);
    roster.set_scene(Some(Scene { index: 2 }));
    assert_eq!(roster.scene(), Some(Scene { index: 2 }));
    roster.init();
    roster.update();
    roster.update();
    roster.destroy();
    assert_eq!(roster.count(Hook::Init), 1);
    assert_eq!(roster.count(Hook::Update), 2);
    assert_eq!(roster.count(Hook::Destroy), 1);
}
