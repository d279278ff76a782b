use vstd::prelude::*;
use crate::component::{Component, ComponentRef};
use crate::component_manager::{ComponentManager, Hook};
use crate::entity::Entity;
use crate::identifier::Identifier;
use crate::registry::{holds, lemma_position, lemma_same_keys, position, SlotView};
use crate::world::World;

verus! {

/// A handle to a scene stored in a world.
#[derive(Clone, Copy, Debug, PartialEq, Eq, Structural, Hash)]
pub struct Scene {
    pub index: usize,
}

impl Scene {
    /// Makes an empty scene in `world`: not initialized, with no entities and
    /// no managers.
    pub fn new<C: Component>(world: &mut World<C>) -> (scene: Scene)
        requires
            old(world).wf(),
        ensures
            final(world).wf(),
            !old(world)@.has_scene(scene),
            final(world)@.has_scene(scene),
            final(world)@ == old(world)@.with_new_scene(),
    {
        proof {
            world@.lemma_new_scene_wf();
        }
        world.new_scene()
    }

    /// Whether `init` has been called on this scene.
    pub fn is_initialized<C: Component>(&self, world: &World<C>) -> (b: bool)
        requires
            world@.has_scene(*self),
        ensures
            b == world@.scene(*self).initialized,
    {
        world.is_initialized(*self)
    }

    /// The roots of this scene, in the order in which they were attached.
    pub fn entities<C: Component>(&self, world: &World<C>) -> (roots: Vec<Entity>)
        requires
            world@.has_scene(*self),
        ensures
            roots@ == world@.scene(*self).roots,
    {
        let n = world.root_count(*self);
        let mut roots: Vec<Entity> = Vec::new();
        let mut i: usize = 0;
        while i < n
            invariant
                world@.has_scene(*self),
                n == world@.scene(*self).roots.len(),
                i <= n,
                roots@ == world@.scene(*self).roots.take(i as int),
            decreases n - i,
        {
            roots.push(world.root_at(*self, i));
            proof {
                assert(roots@ =~= world@.scene(*self).roots.take(i + 1));
            }
            i += 1;
        }
        proof {
            assert(roots@ =~= world@.scene(*self).roots);
        }
        roots
    }

    /// The identifiers under which this scene has a manager, in the order in
    /// which `init` and `update` visit the managers: ascending.
    pub fn manager_identifiers<C: Component>(&self, world: &World<C>) -> (keys: Vec<Identifier>)
        requires
            world.structured(),
            world@.has_scene(*self),
        ensures
            keys@.to_set() == world@.scene(*self).managers.dom(),
            forall|i: int, j: int| 0 <= i < j < keys@.len() ==> keys@[i].below(keys@[j]),
    {
        let registry = &world.scenes[self.index].registry;
        let n = registry.len();
        let mut keys: Vec<Identifier> = Vec::new();
        let mut i: usize = 0;
        while i < n
            invariant
                registry.inv(),
                n == registry.entries().len(),
                i <= n,
                keys@.len() == i,
                forall|k: int| 0 <= k < i ==> keys@[k] == (#[trigger] registry.entries()[k]).key,
            decreases n - i,
        {
            keys.push(registry.key_at(i));
            i += 1;
        }
        proof {
            let entries = registry.entries();
            assert forall|a: int, b: int| 0 <= a < b < keys@.len() implies keys@[a].below(
                keys@[b],
            ) by {
                assert(entries[a].key.below(entries[b].key));
            }
            assert forall|k: Identifier| keys@.to_set().contains(k) == registry.managers().dom().contains(
                k,
            ) by {
                if keys@.contains(k) {
                    let a = keys@.index_of(k);
                    assert(entries[a].key == k);
                }
                if holds(entries, k) {
                    let a = position(entries, k);
                    assert(keys@[a] == k);
                }
            }
            assert(keys@.to_set() =~= world@.scene(*self).managers.dom());
        }
        keys
    }

    /// The manager registered under `id` in this scene, if there is one.
    pub fn manager<'a, C: Component>(&self, world: &'a World<C>, id: Identifier) -> (r: Option<
        &'a C::Manager,
    >)
        requires
            world.structured(),
            world@.has_scene(*self),
        ensures
            r is Some == world@.scene(*self).has_manager(id),
            r is Some ==> r->0@ == world@.scene(*self).managers[id],
    {
        let (i, found) = world.scenes[self.index].registry.search(id);
        if found {
            Some(&world.scenes[self.index].registry.slots[i].manager)
        } else {
            None
        }
    }

    /// Whether a manager is registered under `id` in this scene.
    pub fn has_manager<C: Component>(&self, world: &World<C>, id: Identifier) -> (b: bool)
        requires
            world.structured(),
            world@.has_scene(*self),
        ensures
            b == world@.scene(*self).has_manager(id),
    {
        world.scenes[self.index].registry.search(id).1
    }

    /// The place of `entity` among the roots of this scene.
    pub(crate) fn position<C: Component>(&self, world: &World<C>, entity: Entity) -> (r: Option<
        usize,
    >)
        requires
            world@.has_scene(*self),
        ensures
            match r {
                Some(i) => i < world@.scene(*self).roots.len() && world@.scene(*self).roots[i as int]
                    == entity,
                None => !world@.scene(*self).roots.contains(entity),
            },
    {
        let n = world.root_count(*self);
        let mut i: usize = 0;
        while i < n
            invariant
                world@.has_scene(*self),
                n == world@.scene(*self).roots.len(),
                i <= n,
                forall|k: int| 0 <= k < i ==> world@.scene(*self).roots[k] != entity,
            decreases n - i,
        {
            if world.root_at(*self, i) == entity {
                return Some(i);
            }
            i += 1;
        }
        None
    }

    /// Whether `entity` is a root of this scene. Descendants of a root live in
    /// the scene too, but are not among its roots.
    pub fn has_entity<C: Component>(&self, world: &World<C>, entity: Entity) -> (b: bool)
        requires
            world@.has_scene(*self),
        ensures
            b == world@.scene(*self).roots.contains(entity),
    {
        self.position(world, entity).is_some()
    }

    /// Strikes `entity` from the roots of this scene and takes its descendants
    /// out of the scene. Tells whether the entity was a root.
    pub(crate) fn remove_root<C: Component>(&self, world: &mut World<C>, entity: Entity) -> (removed:
        bool)
        requires
            old(world).structured(),
            old(world)@.has_scene(*self),
            old(world)@.has_entity(entity),
        ensures
            final(world).structured(),
            removed == old(world)@.scene(*self).roots.contains(entity),
            final(world)@ == if removed {
                old(world)@.unrooted(*self, entity).released(
                    *self,
                    old(world)@.subtree(entity).remove(entity),
                    Set::empty(),
                )
            } else {
                old(world)@
            },
    {
        match self.position(world, entity) {
            Some(i) => {
                let ghost before = world@;
                world.remove_root_at(*self, i);
                proof {
                    let roots = before.scene(*self).roots;
                    assert(roots.no_duplicates());
                    assert(roots[i as int] == entity);
                    assert(roots.index_of(entity) == i);
                    assert(world@ == before.unrooted(*self, entity));
                    before.lemma_unrooted_structured(*self, entity);
                }
                entity.remove_scene_children(world, *self);
                true
            },
            None => false,
        }
    }

    /// Attaches an entity to this scene. Nothing happens if the entity lives
    /// in this scene already. Else the entity leaves the scene and the parent
    /// it had, becomes the last root of this scene, and it and all its
    /// descendants join the scene, their components with them.
    pub fn add_entity<C: Component>(&self, world: &mut World<C>, entity: Entity) -> (scene:
        &Self)
        requires
            old(world).wf(),
            old(world)@.has_scene(*self),
            old(world)@.has_entity(entity),
        ensures
            *scene == *self,
            final(world).wf(),
            final(world)@ == old(world)@.add_entity(*self, entity),
    {
        let ghost before = world@;
        match world.scene_of(entity) {
            Some(s) => {
                if s == *self {
                    return self;
                }
            },
            None => {},
        }
        proof {
            before.lemma_detached(entity);
            before.lemma_add_entity_wf(*self, entity);
        }
        entity.detach(world);
        let ghost loose = world@;
        world.push_root(*self, entity);
        proof {
            let put = world@;
            assert(put == loose.rooted(*self, entity));
            loose.lemma_rooted_structured(*self, entity);
        }
        entity.set_scene(world, *self);
        self
    }

    /// Removes a root of this scene: the entity is struck from the roots, and
    /// it and all its descendants leave the scene, their components with
    /// them. The tree below the entity stays as it is. Nothing happens if the
    /// entity is not a root of this scene.
    pub fn remove_entity<C: Component>(&self, world: &mut World<C>, entity: Entity) -> (scene:
        &Self)
        requires
            old(world).wf(),
            old(world)@.has_scene(*self),
            old(world)@.has_entity(entity),
        ensures
            *scene == *self,
            final(world).wf(),
            final(world)@ == old(world)@.remove_entity(*self, entity),
    {
        let ghost before = world@;
        if self.remove_root(world, entity) {
            proof {
                let middle = before.unrooted(*self, entity);
                let rest = before.subtree(entity).remove(entity);
                before.lemma_unrooted_structured(*self, entity);
                assert(middle.registry_sound(*self));
                middle.lemma_released_twice(*self, rest, Set::empty(), set![entity], Set::empty());
                before.lemma_descends_self(entity);
                assert(rest.union(set![entity]) =~= before.subtree(entity));
                assert(Set::<ComponentRef>::empty().union(Set::empty()) =~= Set::<
                    ComponentRef,
                >::empty());
            }
            entity.remove_scene(world, *self);
        }
        proof {
            before.lemma_remove_entity_wf(*self, entity);
        }
        self
    }

    /// Adds a component to the registry of this scene. The manager for the
    /// component's kind is made by the component's factory if the scene has
    /// none. If the scene is initialized and the manager is not, the manager
    /// is initialized before the call returns.
    pub fn add_component<C: Component>(&self, world: &mut World<C>, component: ComponentRef)
        requires
            old(world).structured(),
            old(world)@.has_scene(*self),
            old(world)@.has_component(component),
        ensures
            final(world).structured(),
            final(world)@ == old(world)@.register(*self, component),
    {
        proof {
            world@.lemma_register_structured(*self, component);
        }
        let k = world.components[component.index].manager_identifier();
        let (i, found) = world.scenes[self.index].registry.search(k);
        if !found {
            let mut manager = world.components[component.index].new_manager();
            manager.set_scene(Some(*self));
            world.scenes[self.index].registry.insert_at(i, k, manager);
        }
        world.scenes[self.index].registry.add_component_at(i, component);
        if world.scenes[self.index].initialized && !world.scenes[self.index].registry.is_ready_at(i) {
            world.scenes[self.index].registry.mark_ready_at(i);
            world.scenes[self.index].registry.dispatch_at(i, Hook::Init);
        }
        proof {
            let before = old(world).scenes@[self.index as int];
            let now = world.scenes@[self.index as int];
            let expected = before@.with_component(*self, k, component);
            lemma_position(now.registry.entries(), i as int);
            assert(now@.managers =~= expected.managers);
            assert(now@.ready =~= expected.ready);
            world.lemma_scene_replaced(*old(world), *self);
        }
    }

    /// Removes a component from the registry of this scene. If that empties
    /// the manager of the component's kind, the manager is destroyed and
    /// dropped from the registry, and its initialization mark is cleared.
    /// Nothing happens if the scene has no manager for the component's kind.
    pub fn remove_component<C: Component>(&self, world: &mut World<C>, component: ComponentRef)
        requires
            old(world).structured(),
            old(world)@.has_scene(*self),
            old(world)@.has_component(component),
        ensures
            final(world).structured(),
            final(world)@ == old(world)@.unregister(*self, component),
    {
        proof {
            world@.lemma_unregister_structured(*self, component);
        }
        let k = world.components[component.index].manager_identifier();
        let (i, found) = world.scenes[self.index].registry.search(k);
        if found {
            world.scenes[self.index].registry.remove_component_at(i, component);
            if world.scenes[self.index].registry.is_empty_at(i) {
                world.scenes[self.index].registry.dispatch_at(i, Hook::Destroy);
                world.scenes[self.index].registry.set_scene_at(i, None);
                let manager = world.scenes[self.index].registry.remove_at(i);
                assert(manager@.components =~= Set::empty());
                let ghost retired = old(world)@.scene(*self).retired.insert(
                    k,
                    old(world)@.scene(*self).retired_of(k).push(manager@),
                );
                world.scenes[self.index].retired = Ghost(retired);
            }
            proof {
                let before = old(world).scenes@[self.index as int];
                let now = world.scenes@[self.index as int];
                let expected = before@.without_component(k, component);
                assert(now@.managers =~= expected.managers);
                assert(now@.ready =~= expected.ready);
                assert(now@.retired =~= expected.retired);
                world.lemma_scene_replaced(*old(world), *self);
            }
        } else {
            proof {
                assert(world@.scenes =~= old(world)@.scenes.update(
                    self.index as int,
                    old(world)@.scene(*self),
                ));
            }
        }
    }

    /// Initializes every manager of this scene that has not been initialized
    /// yet, and marks the scene itself initialized. Managers that join later
    /// are initialized as they join.
    pub fn init<C: Component>(&self, world: &mut World<C>) -> (scene: &Self)
        requires
            old(world).wf(),
            old(world)@.has_scene(*self),
        ensures
            *scene == *self,
            final(world).wf(),
            final(world)@ == old(world)@.init(*self),
    {
        let ghost before = *world;
        proof {
            before@.lemma_init_wf(*self);
        }
        world.scenes[self.index].initialized = true;
        let n = world.scenes[self.index].registry.len();
        let mut i: usize = 0;
        while i < n
            invariant
                i <= n,
                before.inv(),
                before@.has_scene(*self),
                n == before.scenes@[self.index as int].registry.entries().len(),
                world.entities == before.entities,
                world.levels == before.levels,
                world.components == before.components,
                world.scenes@.len() == before.scenes@.len(),
                forall|j: int|
                    0 <= j < before.scenes@.len() && j != self.index ==> world.scenes@[j]
                        == before.scenes@[j],
                world.scenes@[self.index as int].initialized,
                world.scenes@[self.index as int].roots == before.scenes@[self.index as int].roots,
                world.scenes@[self.index as int].retired
                    == before.scenes@[self.index as int].retired,
                world.scenes@[self.index as int].registry.inv(),
                world.scenes@[self.index as int].registry.entries().len() == n,
                forall|j: int|
                    0 <= j < i ==> (#[trigger] world.scenes@[self.index as int].registry.entries()[j])
                        == booted(before.scenes@[self.index as int].registry.entries()[j]),
                forall|j: int|
                    i <= j < n ==> (#[trigger] world.scenes@[self.index as int].registry.entries()[j])
                        == before.scenes@[self.index as int].registry.entries()[j],
            decreases n - i,
        {
            if !world.scenes[self.index].registry.is_ready_at(i) {
                world.scenes[self.index].registry.mark_ready_at(i);
                world.scenes[self.index].registry.dispatch_at(i, Hook::Init);
            }
            i += 1;
        }
        proof {
            let entries = before.scenes@[self.index as int].registry.entries();
            let after = world.scenes@[self.index as int].registry.entries();
            let expected = before@.scene(*self).init();
            lemma_same_keys(entries, after);
            assert(world.scenes@[self.index as int]@.managers =~= expected.managers);
            assert(world.scenes@[self.index as int]@.ready =~= expected.ready);
            world.lemma_scene_replaced(before, *self);
        }
        self
    }

    /// Updates every manager of this scene once, in the order of their
    /// identifiers.
    pub fn update<C: Component>(&self, world: &mut World<C>) -> (scene: &Self)
        requires
            old(world).wf(),
            old(world)@.has_scene(*self),
        ensures
            *scene == *self,
            final(world).wf(),
            final(world)@ == old(world)@.update(*self),
    {
        let ghost before = *world;
        proof {
            before@.lemma_update_wf(*self);
        }
        let n = world.scenes[self.index].registry.len();
        let mut i: usize = 0;
        while i < n
            invariant
                i <= n,
                before.inv(),
                before@.has_scene(*self),
                n == before.scenes@[self.index as int].registry.entries().len(),
                world.entities == before.entities,
                world.levels == before.levels,
                world.components == before.components,
                world.scenes@.len() == before.scenes@.len(),
                forall|j: int|
                    0 <= j < before.scenes@.len() && j != self.index ==> world.scenes@[j]
                        == before.scenes@[j],
                world.scenes@[self.index as int].initialized
                    == before.scenes@[self.index as int].initialized,
                world.scenes@[self.index as int].roots == before.scenes@[self.index as int].roots,
                world.scenes@[self.index as int].retired
                    == before.scenes@[self.index as int].retired,
                world.scenes@[self.index as int].registry.inv(),
                world.scenes@[self.index as int].registry.entries().len() == n,
                forall|j: int|
                    0 <= j < i ==> (#[trigger] world.scenes@[self.index as int].registry.entries()[j])
                        == ticked(before.scenes@[self.index as int].registry.entries()[j]),
                forall|j: int|
                    i <= j < n ==> (#[trigger] world.scenes@[self.index as int].registry.entries()[j])
                        == before.scenes@[self.index as int].registry.entries()[j],
            decreases n - i,
        {
            world.scenes[self.index].registry.dispatch_at(i, Hook::Update);
            i += 1;
        }
        proof {
            let entries = before.scenes@[self.index as int].registry.entries();
            let after = world.scenes@[self.index as int].registry.entries();
            let expected = before@.scene(*self).update();
            lemma_same_keys(entries, after);
            assert(world.scenes@[self.index as int]@.managers =~= expected.managers);
            assert(world.scenes@[self.index as int]@.ready =~= expected.ready);
            world.lemma_scene_replaced(before, *self);
        }
        self
    }
}

/// An entry after `init` has passed over it.
pub(crate) open spec fn booted(entry: SlotView) -> SlotView {
    if entry.ready {
        entry
    } else {
        SlotView { manager: entry.manager.after(Hook::Init), ready: true, ..entry }
    }
}

/// An entry after `update` has passed over it.
pub(crate) open spec fn ticked(entry: SlotView) -> SlotView {
    SlotView { manager: entry.manager.after(Hook::Update), ..entry }
}

} // verus!
