use vstd::prelude::*;
use crate::component::{Component, ComponentRef};
use crate::forest_lemmas::lemma_distinct_bounded;
use crate::identifier::Identifier;
use crate::lists::{
    lemma_remove_member, lemma_rest_of_list, lemma_subrange_one_more, lemma_take_one_more,
};
use crate::scene::Scene;
use crate::world::World;

verus! {

/// A handle to an entity stored in a world.
#[derive(Clone, Copy, Debug, PartialEq, Eq, Structural, Hash)]
pub struct Entity {
    pub index: usize,
}

impl Entity {
    /// Makes an entity in `world`: in no scene, with no parent, no children
    /// and no components.
    pub fn new<C: Component>(world: &mut World<C>) -> (entity: Entity)
        requires
            old(world).wf(),
        ensures
            final(world).wf(),
            !old(world)@.has_entity(entity),
            final(world)@.has_entity(entity),
            final(world)@ == old(world)@.with_new_entity(),
    {
        proof {
            world@.lemma_new_entity_wf();
        }
        world.new_entity()
    }

    /// The scene that this entity lives in, if any.
    pub fn scene<C: Component>(&self, world: &World<C>) -> (scene: Option<Scene>)
        requires
            world@.has_entity(*self),
        ensures
            scene == world@.entity(*self).scene,
    {
        world.scene_of(*self)
    }

    /// The parent of this entity, if any.
    pub fn parent<C: Component>(&self, world: &World<C>) -> (parent: Option<Entity>)
        requires
            world@.has_entity(*self),
        ensures
            parent == world@.entity(*self).parent,
    {
        world.parent_of(*self)
    }

    /// Whether `child` is a child of this entity.
    pub fn has_child<C: Component>(&self, world: &World<C>, child: Entity) -> (b: bool)
        requires
            world@.has_entity(*self),
        ensures
            b == world@.entity(*self).children.contains(child),
    {
        world.child_position(*self, child).is_some()
    }

    /// The place of the component with identifier `id` among the components
    /// of this entity.
    pub(crate) fn find_component<C: Component>(&self, world: &World<C>, id: Identifier) -> (r:
        Option<usize>)
        requires
            world@.attached(),
            world@.has_entity(*self),
        ensures
            r is Some == world@.holds_kind(*self, id),
            r is Some ==> r->0 == world@.kind_position(*self, id),
    {
        let n = world.component_count(*self);
        let mut i: usize = 0;
        while i < n
            invariant
                world@.attached(),
                world@.has_entity(*self),
                n == world@.entity(*self).components.len(),
                i <= n,
                forall|k: int|
                    0 <= k < i ==> world@.component(
                        #[trigger] world@.entity(*self).components[k],
                    ).identifier != id,
            decreases n - i,
        {
            let c = world.component_at(*self, i);
            proof {
                assert(world@.component_listed(*self, i as int));
            }
            if world.component(c).identifier().same(&id) {
                proof {
                    world@.lemma_kind_position(*self, i as int);
                }
                return Some(i);
            }
            i += 1;
        }
        None
    }

    /// Whether this entity has a component with identifier `id`.
    pub fn has_component<C: Component>(&self, world: &World<C>, id: Identifier) -> (b: bool)
        requires
            world.wf(),
            world@.has_entity(*self),
        ensures
            b == world@.holds_kind(*self, id),
    {
        self.find_component(world, id).is_some()
    }

    /// The component of this entity with identifier `id`, if it has one.
    pub fn get_component<C: Component>(&self, world: &World<C>, id: Identifier) -> (r: Option<
        ComponentRef,
    >)
        requires
            world.wf(),
            world@.has_entity(*self),
        ensures
            r is Some == world@.holds_kind(*self, id),
            r is Some ==> r->0 == world@.component_of(*self, id) && world@.has_component(r->0),
    {
        match self.find_component(world, id) {
            Some(i) => {
                proof {
                    assert(world@.component_listed(*self, i as int));
                }
                Some(world.component_at(*self, i))
            },
            None => None,
        }
    }

    /// Attaches a component to this entity and hands out its handle. The
    /// component joins the registry of the scene that the entity lives in, if
    /// any. If the entity has a component of the same identifier already,
    /// nothing changes and the component is dropped.
    pub fn add_component<C: Component>(&self, world: &mut World<C>, component: C) -> (r: Option<
        ComponentRef,
    >)
        requires
            old(world).wf(),
            old(world)@.has_entity(*self),
        ensures
            final(world).wf(),
            r is None == old(world)@.holds_kind(*self, component@.identifier),
            match r {
                Some(c) => !old(world)@.has_component(c) && final(world)@.has_component(c)
                    && final(world)@ == old(world)@.attach(*self, c, component@),
                None => final(world)@ == old(world)@,
            },
    {
        let ghost before = world@;
        let ghost given = component@;
        let id = component.identifier();
        if self.find_component(world, id).is_some() {
            return None;
        }
        let mut component = component;
        component.set_entity(Some(*self));
        let c = world.insert_component(component);
        world.push_component_ref(*self, c);
        proof {
            before.lemma_attach_wf(*self, c, given);
        }
        match world.scene_of(*self) {
            Some(scene) => {
                proof {
                    assert(before.scene_known(*self));
                }
                scene.add_component(world, c);
            },
            None => {},
        }
        Some(c)
    }

    /// Takes the component with identifier `id` off this entity and hands out
    /// its handle. The component leaves the registry of the scene that the
    /// entity lives in, if any. Nothing happens if the entity has no such
    /// component.
    pub fn remove_component<C: Component>(&self, world: &mut World<C>, id: Identifier) -> (r:
        Option<ComponentRef>)
        requires
            old(world).wf(),
            old(world)@.has_entity(*self),
        ensures
            final(world).wf(),
            r is Some == old(world)@.holds_kind(*self, id),
            r is Some ==> r->0 == old(world)@.component_of(*self, id),
            final(world)@ == old(world)@.unattach(*self, id),
    {
        let ghost before = world@;
        proof {
            before.lemma_unattach_wf(*self, id);
        }
        match self.find_component(world, id) {
            Some(i) => {
                let c = world.component_at(*self, i);
                proof {
                    assert(before.component_listed(*self, i as int));
                    assert(before.scene_known(*self));
                }
                world.remove_component_ref_at(*self, i);
                world.set_entity_of(c, None);
                match world.scene_of(*self) {
                    Some(scene) => {
                        scene.remove_component(world, c);
                    },
                    None => {},
                }
                Some(c)
            },
            None => None,
        }
    }

    /// This entity and all its descendants, each once, this entity first and
    /// every other one after its parent.
    pub(crate) fn subtree<C: Component>(&self, world: &World<C>) -> (list: Vec<Entity>)
        requires
            world@.tree_linked(),
            world@.has_entity(*self),
        ensures
            list@.len() >= 1,
            list@[0] == *self,
            list@.no_duplicates(),
            list@.to_set() == world@.subtree(*self),
            forall|k: int| 0 <= k < list@.len() ==> world@.has_entity(#[trigger] list@[k]),
    {
        let mut list: Vec<Entity> = Vec::new();
        list.push(*self);
        let mut i: usize = 0;
        // For each member but the first, the place of its parent in the list;
        // for each member that has been dealt with, the place of its first child.
        let ghost mut from: Seq<int> = seq![0int];
        let ghost mut first: Seq<int> = Seq::empty();
        proof {
            world@.lemma_descends_self(*self);
        }
        while i < list.len()
            invariant
                world@.tree_linked(),
                world@.has_entity(*self),
                i <= list@.len(),
                list@.len() >= 1,
                list@[0] == *self,
                list@.no_duplicates(),
                from.len() == list@.len(),
                first.len() == i,
                forall|k: int|
                    0 <= k < list@.len() ==> world@.has_entity(#[trigger] list@[k])
                        && world@.descends(list@[k], *self),
                forall|k: int|
                    1 <= k < list@.len() ==> 0 <= #[trigger] from[k] < i && world@.entity(
                        list@[k],
                    ).parent == Some(list@[from[k]]),
                forall|k: int|
                    0 <= k < i ==> 0 <= #[trigger] first[k] && first[k] + world@.entity(
                        list@[k],
                    ).children.len() <= list@.len(),
                forall|k: int, c: int|
                    0 <= k < i && 0 <= c < world@.entity(list@[k]).children.len() ==> list@[first[k]
                        + c] == #[trigger] world@.entity(list@[k]).children[c],
            decreases world@.entities.len() - i,
        {
            proof {
                lemma_distinct_bounded(list@, world@.entities.len());
            }
            let x = list[i];
            let n = world.child_count(x);
            let ghost start = list@;
            let mut j: usize = 0;
            while j < n
                invariant
                    world@.tree_linked(),
                    world@.has_entity(*self),
                    i < start.len(),
                    x == start[i as int],
                    world@.has_entity(x),
                    world@.descends(x, *self),
                    n == world@.entity(x).children.len(),
                    j <= n,
                    list@.len() == start.len() + j,
                    from.len() == list@.len(),
                    start.len() >= 1,
                    start[0] == *self,
                    forall|k: int| 0 <= k < start.len() ==> #[trigger] list@[k] == start[k],
                    forall|k: int|
                        start.len() <= k < list@.len() ==> #[trigger] list@[k] == world@.entity(
                            x,
                        ).children[k - start.len()],
                    list@.no_duplicates(),
                    forall|k: int|
                        0 <= k < list@.len() ==> world@.has_entity(#[trigger] list@[k])
                            && world@.descends(list@[k], *self),
                    forall|k: int|
                        1 <= k < start.len() ==> 0 <= #[trigger] from[k] < i && world@.entity(
                            list@[k],
                        ).parent == Some(list@[from[k]]),
                    forall|k: int| start.len() <= k < list@.len() ==> #[trigger] from[k] == i,
                decreases n - j,
            {
                let c = world.child_at(x, j);
                proof {
                    let w = world@;
                    assert(w.entity(x).children[j as int] == c);
                    assert(w.child_linked(x, j as int));
                    assert(w.parent_linked(c));
                    assert(w.entity(x).children.no_duplicates());
                    w.lemma_descends_child(c, x, *self);
                    assert forall|m: int| 0 <= m < list@.len() implies list@[m] != c by {
                        if list@[m] == c {
                            if m >= start.len() {
                                assert(w.entity(x).children[m - start.len()] == w.entity(
                                    x,
                                ).children[j as int]);
                            } else if m == 0 {
                                w.lemma_descends_level(x, *self);
                            } else {
                                assert(list@[from[m]] == list@[i as int]);
                            }
                        }
                    }
                    from = from.push(i as int);
                }
                list.push(c);
                j += 1;
            }
            proof {
                first = first.push(start.len() as int);
                let w = world@;
                assert forall|k: int| 1 <= k < list@.len() implies 0 <= #[trigger] from[k] < i + 1
                    && w.entity(list@[k]).parent == Some(list@[from[k]]) by {
                    if k >= start.len() {
                        assert(list@[k] == w.entity(x).children[k - start.len()]);
                        assert(w.child_linked(x, k - start.len()));
                    }
                }
                assert forall|k: int, c: int|
                    0 <= k < i + 1 && 0 <= c < w.entity(list@[k]).children.len() implies list@[first[k]
                    + c] == #[trigger] w.entity(list@[k]).children[c] by {
                    if k < i {
                        assert(list@[first[k] + c] == start[first[k] + c]);
                    } else {
                        assert(list@[start.len() + c] == w.entity(x).children[c]);
                    }
                }
            }
            i += 1;
        }
        proof {
            let w = world@;
            assert forall|k: int, c: int|
                0 <= k < list@.len() && 0 <= c < w.entity(list@[k]).children.len() implies list@.contains(
                #[trigger] w.entity(list@[k]).children[c],
            ) by {
                assert(list@[first[k] + c] == w.entity(list@[k]).children[c]);
            }
            w.lemma_listed_subtree(list@, *self);
        }
        list
    }

    /// Takes this entity alone out of `scene`: its components leave the
    /// registry of the scene, and its scene reference is cleared.
    pub(crate) fn remove_scene<C: Component>(&self, world: &mut World<C>, scene: Scene)
        requires
            old(world).structured(),
            old(world)@.has_scene(scene),
            old(world)@.has_entity(*self),
        ensures
            final(world).structured(),
            final(world)@ == old(world)@.released(scene, set![*self], Set::empty()),
    {
        let ghost before = world@;
        proof {
            assert(before.registry_sound(scene));
            before.lemma_released_structured(scene, set![*self], Set::empty());
        }
        let ghost listed = before.entity(*self).components;
        let n = world.component_count(*self);
        let mut j: usize = 0;
        proof {
            before.lemma_released_nothing(scene);
            assert(listed.take(0).to_set() =~= Set::<ComponentRef>::empty());
        }
        while j < n
            invariant
                world.structured(),
                before.has_scene(scene),
                before.has_entity(*self),
                before.attached(),
                before.registry_sound(scene),
                listed == before.entity(*self).components,
                n == listed.len(),
                j <= n,
                world@ == before.released(scene, Set::empty(), listed.take(j as int).to_set()),
            decreases n - j,
        {
            let c = world.component_at(*self, j);
            proof {
                assert(c == listed[j as int]);
                assert(before.component_listed(*self, j as int));
                before.lemma_released_component(
                    scene,
                    Set::empty(),
                    listed.take(j as int).to_set(),
                    c,
                );
                lemma_take_one_more(listed, j as int);
            }
            scene.remove_component(world, c);
            j += 1;
        }
        world.set_scene_of(*self, None);
        proof {
            assert(listed.take(n as int) =~= listed);
            before.lemma_released_entity(scene, Set::empty(), *self);
            assert(Set::<Entity>::empty().insert(*self) =~= set![*self]);
        }
    }

    /// Brings this entity alone into `scene`: its components join the registry
    /// of the scene, and its scene reference is set.
    pub(crate) fn join_scene<C: Component>(&self, world: &mut World<C>, scene: Scene)
        requires
            old(world).structured(),
            old(world)@.has_scene(scene),
            old(world)@.has_entity(*self),
        ensures
            final(world).structured(),
            final(world)@ == old(world)@.admitted(scene, set![*self], Set::empty()),
    {
        let ghost before = world@;
        proof {
            before.lemma_admitted_structured(scene, set![*self], Set::empty());
        }
        let ghost listed = before.entity(*self).components;
        let n = world.component_count(*self);
        let mut j: usize = 0;
        proof {
            before.lemma_admitted_nothing(scene);
            assert(listed.take(0).to_set() =~= Set::<ComponentRef>::empty());
        }
        while j < n
            invariant
                world.structured(),
                before.has_scene(scene),
                before.has_entity(*self),
                before.attached(),
                listed == before.entity(*self).components,
                n == listed.len(),
                j <= n,
                world@ == before.admitted(scene, Set::empty(), listed.take(j as int).to_set()),
            decreases n - j,
        {
            let c = world.component_at(*self, j);
            proof {
                assert(c == listed[j as int]);
                assert(before.component_listed(*self, j as int));
                before.lemma_admitted_component(
                    scene,
                    Set::empty(),
                    listed.take(j as int).to_set(),
                    c,
                );
                lemma_take_one_more(listed, j as int);
            }
            scene.add_component(world, c);
            j += 1;
        }
        world.set_scene_of(*self, Some(scene));
        proof {
            assert(listed.take(n as int) =~= listed);
            before.lemma_admitted_entity(scene, Set::empty(), *self);
            assert(Set::<Entity>::empty().insert(*self) =~= set![*self]);
        }
    }

    /// Whether this entity is `ancestor` or one of its descendants.
    pub(crate) fn descends_from<C: Component>(&self, world: &World<C>, ancestor: Entity) -> (b:
        bool)
        requires
            world@.tree_linked(),
            world@.has_entity(*self),
        ensures
            b == world@.descends(*self, ancestor),
    {
        let mut current = *self;
        loop
            invariant
                world@.tree_linked(),
                world@.has_entity(current),
                world@.descends(*self, ancestor) == world@.descends(current, ancestor),
            decreases world@.entity(current).level,
        {
            if current == ancestor {
                proof {
                    world@.lemma_descends_self(ancestor);
                }
                return true;
            }
            match world.parent_of(current) {
                Some(p) => {
                    proof {
                        assert(world@.parent_linked(current));
                        if world@.descends(current, ancestor) {
                            world@.lemma_descends_parent(current, ancestor);
                        }
                        if world@.descends(p, ancestor) {
                            world@.lemma_descends_child(current, p, ancestor);
                        }
                    }
                    current = p;
                },
                None => {
                    proof {
                        if world@.descends(current, ancestor) {
                            world@.lemma_descends_parent(current, ancestor);
                        }
                    }
                    return false;
                },
            }
        }
    }

    /// Cuts this entity from its parent, if it has one.
    pub(crate) fn unlink<C: Component>(&self, world: &mut World<C>)
        requires
            old(world).structured(),
            old(world)@.has_entity(*self),
        ensures
            final(world).structured(),
            final(world)@ == old(world)@.unlinked(*self),
    {
        let ghost before = world@;
        proof {
            before.lemma_unlinked(*self);
            assert(before.parent_linked(*self));
        }
        match world.parent_of(*self) {
            Some(p) => {
                match world.child_position(p, *self) {
                    Some(i) => {
                        proof {
                            assert(before.entity(p).children.no_duplicates());
                            lemma_remove_member(before.entity(p).children, i as int);
                        }
                        world.remove_child_at(p, i);
                        world.set_parent_of(*self, None);
                    },
                    None => {
                        assert(false);
                    },
                }
            },
            None => {},
        }
    }

    /// Makes `child` the last child of this entity. Nothing happens if `child`
    /// is this entity, one of its ancestors, or one of its children already.
    /// If the two live in the same scene, or both in none, only the tree
    /// changes; else `child` and its descendants leave the scene they lived
    /// in and join the scene of this entity.
    pub fn add_child<C: Component>(&self, world: &mut World<C>, child: Entity) -> (entity: &Self)
        requires
            old(world).wf(),
            old(world)@.has_entity(*self),
            old(world)@.has_entity(child),
        ensures
            *entity == *self,
            final(world).wf(),
            final(world)@ == old(world)@.add_child(*self, child),
    {
        let ghost before = world@;
        proof {
            before.lemma_add_child_wf(*self, child);
            before.lemma_unlinked(child);
            before.lemma_detached(child);
            assert(before.scene_known(child));
            assert(before.scene_known(*self));
        }
        if child == *self || self.descends_from(world, child) {
            return self;
        }
        match world.parent_of(child) {
            Some(p) => {
                if p == *self {
                    return self;
                }
            },
            None => {},
        }
        let home = world.scene_of(*self);
        let same = match (world.scene_of(child), home) {
            (Some(a), Some(b)) => a == b,
            (None, None) => true,
            _ => false,
        };
        if same {
            child.unlink(world);
            match home {
                Some(scene) => {
                    let ghost cut = world@;
                    match scene.position(world, child) {
                        Some(i) => {
                            proof {
                                assert(cut.scene(scene).roots.no_duplicates());
                                lemma_remove_member(cut.scene(scene).roots, i as int);
                            }
                            world.remove_root_at(scene, i);
                        },
                        None => {},
                    }
                    assert(world@ == cut.unrooted(scene, child));
                },
                None => {},
            }
            assert(world@ == before.lifted(child));
            world.link(*self, child);
        } else {
            child.detach(world);
            let ghost loose = world@;
            proof {
                assert(!loose.descends(*self, child)) by {
                    if loose.descends(*self, child) {
                        assert(loose.subtree(child).contains(*self));
                        assert(before.subtree(child).contains(*self));
                    }
                }
                loose.lemma_linked(*self, child);
            }
            world.link(*self, child);
            match home {
                Some(scene) => {
                    child.set_scene(world, scene);
                },
                None => {},
            }
        }
        self
    }

    /// Takes `child` from under this entity: it becomes the root of a tree of
    /// its own, and it and its descendants leave the scene they lived in.
    /// Nothing happens if `child` is not a child of this entity.
    pub fn remove_child<C: Component>(&self, world: &mut World<C>, child: Entity) -> (entity:
        &Self)
        requires
            old(world).wf(),
            old(world)@.has_entity(*self),
            old(world)@.has_entity(child),
        ensures
            *entity == *self,
            final(world).wf(),
            final(world)@ == old(world)@.remove_child(*self, child),
    {
        match world.parent_of(child) {
            Some(p) => {
                if p == *self {
                    child.detach(world);
                }
            },
            None => {},
        }
        self
    }

    /// Makes this entity the root of a tree of its own that lives in no scene:
    /// it is cut from its parent and struck from the roots of its scene, and
    /// it and all its descendants leave that scene.
    pub(crate) fn detach<C: Component>(&self, world: &mut World<C>)
        requires
            old(world).wf(),
            old(world)@.has_entity(*self),
        ensures
            final(world).wf(),
            final(world)@ == old(world)@.detached(*self),
    {
        let ghost before = world@;
        proof {
            before.lemma_unlinked(*self);
            before.lemma_detached(*self);
            assert(before.scene_known(*self));
        }
        self.unlink(world);
        assert(world@ == before.unlinked(*self));
        match world.scene_of(*self) {
            Some(scene) => {
                let ghost cut = world@;
                match scene.position(world, *self) {
                    Some(i) => {
                        proof {
                            assert(cut.scene(scene).roots.no_duplicates());
                            lemma_remove_member(cut.scene(scene).roots, i as int);
                        }
                        world.remove_root_at(scene, i);
                    },
                    None => {},
                }
                assert(world@ == cut.unrooted(scene, *self));
                proof {
                    cut.lemma_unrooted_structured(scene, *self);
                }
                let list = self.subtree(world);
                proof {
                    assert(list@.subrange(0, list@.len() as int) =~= list@);
                }
                release_each(world, scene, &list, 0);
            },
            None => {},
        }
    }

    /// Takes the descendants of this entity out of `scene`, but not the entity
    /// itself: the tree stays as it is, and each descendant loses its scene
    /// reference and its components' place in the registry.
    pub(crate) fn remove_scene_children<C: Component>(&self, world: &mut World<C>, scene: Scene)
        requires
            old(world).structured(),
            old(world)@.has_scene(scene),
            old(world)@.has_entity(*self),
        ensures
            final(world).structured(),
            final(world)@ == old(world)@.released(
                scene,
                old(world)@.subtree(*self).remove(*self),
                Set::empty(),
            ),
    {
        let list = self.subtree(world);
        proof {
            lemma_rest_of_list(list@);
        }
        release_each(world, scene, &list, 1);
    }

    /// Brings this entity and all its descendants into `scene`: each of them
    /// gets the scene reference, and its components join the registry.
    pub(crate) fn set_scene<C: Component>(&self, world: &mut World<C>, scene: Scene)
        requires
            old(world).structured(),
            old(world)@.has_scene(scene),
            old(world)@.has_entity(*self),
        ensures
            final(world).structured(),
            final(world)@ == old(world)@.admitted(
                scene,
                old(world)@.subtree(*self),
                Set::empty(),
            ),
    {
        let list = self.subtree(world);
        proof {
            assert(list@.subrange(0, list@.len() as int) =~= list@);
        }
        admit_each(world, scene, &list, 0);
    }
}

/// Takes the entities of `list` from place `from` on out of `scene`, one by
/// one.
pub(crate) fn release_each<C: Component>(
    world: &mut World<C>,
    scene: Scene,
    list: &Vec<Entity>,
    from: usize,
)
    requires
        old(world).structured(),
        old(world)@.has_scene(scene),
        from <= list@.len(),
        forall|k: int| 0 <= k < list@.len() ==> old(world)@.has_entity(#[trigger] list@[k]),
    ensures
        final(world).structured(),
        final(world)@ == old(world)@.released(
            scene,
            list@.subrange(from as int, list@.len() as int).to_set(),
            Set::empty(),
        ),
{
    let ghost before = world@;
    let mut i: usize = from;
    proof {
        assert(before.registry_sound(scene));
        before.lemma_released_nothing(scene);
        assert(list@.subrange(from as int, from as int).to_set() =~= Set::<Entity>::empty());
    }
    while i < list.len()
        invariant
            world.structured(),
            before.has_scene(scene),
            before.attached(),
            before.registry_sound(scene),
            from <= i <= list@.len(),
            forall|k: int| 0 <= k < list@.len() ==> before.has_entity(#[trigger] list@[k]),
            world@ == before.released(
                scene,
                list@.subrange(from as int, i as int).to_set(),
                Set::empty(),
            ),
        decreases list@.len() - i,
    {
        let x = list[i];
        proof {
            let group = list@.subrange(from as int, i as int).to_set();
            before.lemma_released_keeps(scene, group, Set::empty());
            before.lemma_released_twice(scene, group, Set::empty(), set![x], Set::empty());
            lemma_subrange_one_more(list@, from as int, i as int);
            assert(group.union(set![x]) =~= group.insert(x));
            assert(Set::<ComponentRef>::empty().union(Set::empty()) =~= Set::<
                ComponentRef,
            >::empty());
        }
        x.remove_scene(world, scene);
        i += 1;
    }
}

/// Brings the entities of `list` from place `from` on into `scene`, one by
/// one.
pub(crate) fn admit_each<C: Component>(
    world: &mut World<C>,
    scene: Scene,
    list: &Vec<Entity>,
    from: usize,
)
    requires
        old(world).structured(),
        old(world)@.has_scene(scene),
        from <= list@.len(),
        forall|k: int| 0 <= k < list@.len() ==> old(world)@.has_entity(#[trigger] list@[k]),
    ensures
        final(world).structured(),
        final(world)@ == old(world)@.admitted(
            scene,
            list@.subrange(from as int, list@.len() as int).to_set(),
            Set::empty(),
        ),
{
    let ghost before = world@;
    let mut i: usize = from;
    proof {
        before.lemma_admitted_nothing(scene);
        assert(list@.subrange(from as int, from as int).to_set() =~= Set::<Entity>::empty());
    }
    while i < list.len()
        invariant
            world.structured(),
            before.has_scene(scene),
            before.attached(),
            from <= i <= list@.len(),
            forall|k: int| 0 <= k < list@.len() ==> before.has_entity(#[trigger] list@[k]),
            world@ == before.admitted(
                scene,
                list@.subrange(from as int, i as int).to_set(),
                Set::empty(),
            ),
        decreases list@.len() - i,
    {
        let x = list[i];
        proof {
            let group = list@.subrange(from as int, i as int).to_set();
            before.lemma_admitted_keeps(scene, group, Set::empty());
            before.lemma_admitted_twice(scene, group, Set::empty(), set![x], Set::empty());
            lemma_subrange_one_more(list@, from as int, i as int);
            assert(group.union(set![x]) =~= group.insert(x));
            assert(Set::<ComponentRef>::empty().union(Set::empty()) =~= Set::<
                ComponentRef,
            >::empty());
        }
        x.join_scene(world, scene);
        i += 1;
    }
}

} // verus!
