use vstd::prelude::*;
use crate::component::{Component, ComponentRef};
use crate::component_manager::{ComponentManager, ManagerView};
use crate::entity::Entity;
use crate::identifier::Identifier;
use crate::model::{among, EntityView, SceneView, WorldView};
use crate::registry::Registry;
use crate::scene::Scene;

verus! {

pub(crate) struct EntityData {
    pub(crate) scene: Option<Scene>,
    pub(crate) parent: Option<Entity>,
    pub(crate) children: Vec<Entity>,
    pub(crate) components: Vec<ComponentRef>,
}

pub(crate) struct SceneData<M: ComponentManager> {
    pub(crate) initialized: bool,
    pub(crate) roots: Vec<Entity>,
    pub(crate) registry: Registry<M>,
    pub(crate) retired: Ghost<Map<Identifier, Seq<ManagerView>>>,
}

impl<M: ComponentManager> SceneData<M> {
    pub(crate) open spec fn view(&self) -> SceneView {
        SceneView {
            initialized: self.initialized,
            roots: self.roots@,
            managers: self.registry.managers(),
            ready: self.registry.ready(),
            retired: self.retired@,
        }
    }
}

/// The arena that owns every entity, scene and component.
///
/// Nothing is ever taken out of a world, so a handle that a world gave out
/// stays valid for it.
pub struct World<C: Component> {
    pub(crate) entities: Vec<EntityData>,
    pub(crate) scenes: Vec<SceneData<C::Manager>>,
    pub(crate) components: Vec<C>,
    pub(crate) levels: Ghost<Seq<nat>>,
}

impl<C: Component> World<C> {
    pub(crate) open spec fn entity_view(&self, i: int) -> EntityView {
        EntityView {
            scene: self.entities@[i].scene,
            parent: self.entities@[i].parent,
            children: self.entities@[i].children@,
            components: self.entities@[i].components@,
            level: self.levels@[i],
        }
    }

    /// The model of this world.
    pub open(crate) spec fn view(&self) -> WorldView {
        WorldView {
            entities: Seq::new(self.entities@.len(), |i: int| self.entity_view(i)),
            scenes: Seq::new(self.scenes@.len(), |i: int| self.scenes@[i]@),
            components: Seq::new(self.components@.len(), |i: int| self.components@[i]@),
        }
    }

    /// What holds of the representation whatever the model is: every registry
    /// is in order.
    pub open(crate) spec fn inv(&self) -> bool {
        &&& self.levels@.len() == self.entities@.len()
        &&& forall|i: int| 0 <= i < self.scenes@.len() ==> (#[trigger] self.scenes@[i]).registry.inv()
    }

    /// The world is well formed: its representation is in order, and its
    /// model is well formed.
    pub open(crate) spec fn wf(&self) -> bool {
        self.inv() && self@.wf()
    }

    /// What holds of a world between any two steps of an operation: all that
    /// `wf` asks but that entities, roots and registries are in step.
    pub open(crate) spec fn structured(&self) -> bool {
        self.inv() && self@.structured()
    }

    /// A well-formed world is structured.
    pub proof fn lemma_wf_structured(&self)
        requires
            self.wf(),
        ensures
            self.structured(),
    {
    }

    /// An empty world.
    pub fn new() -> (world: Self)
        ensures
            world.wf(),
            world@ == WorldView::empty(),
    {
        let world = World {
            entities: Vec::new(),
            scenes: Vec::new(),
            components: Vec::new(),
            levels: Ghost(Seq::empty()),
        };
        assert(world@.entities =~= Seq::empty());
        assert(world@.scenes =~= Seq::empty());
        assert(world@.components =~= Seq::empty());
        world
    }

    pub(crate) proof fn lemma_entity_replaced(&self, before: Self, e: Entity)
        requires
            before@.has_entity(e),
            self.entities@.len() == before.entities@.len(),
            self.levels@.len() == before.levels@.len(),
            forall|i: int|
                0 <= i < before.entities@.len() && i != e.index ==> self.entity_view(i)
                    == before.entity_view(i),
            self.scenes == before.scenes,
            self.components == before.components,
        ensures
            self@ == before@.with_entity(e, self.entity_view(e.index as int)),
            self.inv() == before.inv(),
    {
        assert(self@.entities =~= before@.entities.update(
            e.index as int,
            self.entity_view(e.index as int),
        ));
        assert(self@.scenes =~= before@.scenes);
        assert(self@.components =~= before@.components);
    }

    pub(crate) proof fn lemma_scene_replaced(&self, before: Self, s: Scene)
        requires
            before@.has_scene(s),
            before.inv(),
            self.scenes@.len() == before.scenes@.len(),
            forall|i: int|
                0 <= i < before.scenes@.len() && i != s.index ==> self.scenes@[i]
                    == before.scenes@[i],
            self.scenes@[s.index as int].registry.inv(),
            self.entities == before.entities,
            self.levels == before.levels,
            self.components == before.components,
        ensures
            self@ == before@.with_scene(s, self.scenes@[s.index as int]@),
            self.inv(),
    {
        assert(self@.scenes =~= before@.scenes.update(
            s.index as int,
            self.scenes@[s.index as int]@,
        ));
        assert(self@.entities =~= before@.entities);
        assert(self@.components =~= before@.components);
    }

    // Entities.

    pub(crate) fn new_entity(&mut self) -> (e: Entity)
        requires
            old(self).inv(),
        ensures
            final(self).inv(),
            e.index == old(self)@.entities.len(),
            final(self)@ == (WorldView {
                entities: old(self)@.entities.push(EntityView::lone()),
                ..old(self)@
            }),
    {
        let index = self.entities.len();
        self.entities.push(
            EntityData { scene: None, parent: None, children: Vec::new(), components: Vec::new() },
        );
        self.levels = Ghost(self.levels@.push(0));
        proof {
            assert(self@.entities =~= old(self)@.entities.push(EntityView::lone()));
        }
        Entity { index }
    }

    pub(crate) fn scene_of(&self, e: Entity) -> (scene: Option<Scene>)
        requires
            self@.has_entity(e),
        ensures
            scene == self@.entity(e).scene,
    {
        self.entities[e.index].scene
    }

    pub(crate) fn parent_of(&self, e: Entity) -> (parent: Option<Entity>)
        requires
            self@.has_entity(e),
        ensures
            parent == self@.entity(e).parent,
    {
        self.entities[e.index].parent
    }

    pub(crate) fn child_count(&self, e: Entity) -> (n: usize)
        requires
            self@.has_entity(e),
        ensures
            n == self@.entity(e).children.len(),
    {
        self.entities[e.index].children.len()
    }

    pub(crate) fn child_at(&self, e: Entity, i: usize) -> (child: Entity)
        requires
            self@.has_entity(e),
            i < self@.entity(e).children.len(),
        ensures
            child == self@.entity(e).children[i as int],
    {
        self.entities[e.index].children[i]
    }

    /// The place of `child` among the children of `e`.
    pub(crate) fn child_position(&self, e: Entity, child: Entity) -> (r: Option<usize>)
        requires
            self@.has_entity(e),
        ensures
            match r {
                Some(i) => i < self@.entity(e).children.len() && self@.entity(e).children[i as int]
                    == child,
                None => !self@.entity(e).children.contains(child),
            },
    {
        let n = self.child_count(e);
        let mut i: usize = 0;
        while i < n
            invariant
                self@.has_entity(e),
                n == self@.entity(e).children.len(),
                i <= n,
                forall|k: int| 0 <= k < i ==> self@.entity(e).children[k] != child,
            decreases n - i,
        {
            if self.child_at(e, i) == child {
                return Some(i);
            }
            i += 1;
        }
        None
    }

    pub(crate) fn component_count(&self, e: Entity) -> (n: usize)
        requires
            self@.has_entity(e),
        ensures
            n == self@.entity(e).components.len(),
    {
        self.entities[e.index].components.len()
    }

    pub(crate) fn component_at(&self, e: Entity, i: usize) -> (c: ComponentRef)
        requires
            self@.has_entity(e),
            i < self@.entity(e).components.len(),
        ensures
            c == self@.entity(e).components[i as int],
    {
        self.entities[e.index].components[i]
    }

    pub(crate) fn set_scene_of(&mut self, e: Entity, scene: Option<Scene>)
        requires
            old(self)@.has_entity(e),
        ensures
            final(self).inv() == old(self).inv(),
            final(self)@ == old(self)@.with_entity(
                e,
                EntityView { scene, ..old(self)@.entity(e) },
            ),
    {
        self.entities[e.index].scene = scene;
        proof {
            self.lemma_entity_replaced(*old(self), e);
        }
    }

    pub(crate) fn set_parent_of(&mut self, e: Entity, parent: Option<Entity>)
        requires
            old(self)@.has_entity(e),
        ensures
            final(self).inv() == old(self).inv(),
            final(self)@ == old(self)@.with_entity(
                e,
                EntityView { parent, ..old(self)@.entity(e) },
            ),
    {
        self.entities[e.index].parent = parent;
        proof {
            self.lemma_entity_replaced(*old(self), e);
        }
    }

    pub(crate) fn remove_child_at(&mut self, e: Entity, i: usize)
        requires
            old(self)@.has_entity(e),
            i < old(self)@.entity(e).children.len(),
        ensures
            final(self).inv() == old(self).inv(),
            final(self)@ == old(self)@.with_entity(
                e,
                EntityView {
                    children: old(self)@.entity(e).children.remove(i as int),
                    ..old(self)@.entity(e)
                },
            ),
    {
        self.entities[e.index].children.remove(i);
        proof {
            self.lemma_entity_replaced(*old(self), e);
        }
    }

    /// Makes the parentless `child` the last child of `e` and lifts the
    /// levels of `child` and its descendants above that of `e`.
    pub(crate) fn link(&mut self, e: Entity, child: Entity)
        requires
            old(self).inv(),
            old(self)@.has_entity(e),
            old(self)@.has_entity(child),
            e != child,
        ensures
            final(self).inv(),
            final(self)@ == old(self)@.linked(e, child),
    {
        let ghost before = self@;
        let ghost group = before.subtree(child);
        let ghost lift = before.entity(e).level + 1;
        self.entities[e.index].children.push(child);
        self.entities[child.index].parent = Some(e);
        self.levels = Ghost(
            Seq::new(
                before.entities.len(),
                |i: int|
                    if among(group, i) {
                        before.entities[i].level + lift
                    } else {
                        before.entities[i].level
                    },
            ),
        );
        proof {
            assert(self@.entities =~= before.linked(e, child).entities);
            assert(self@.scenes =~= before.scenes);
            assert(self@.components =~= before.components);
        }
    }

    pub(crate) fn push_component_ref(&mut self, e: Entity, c: ComponentRef)
        requires
            old(self)@.has_entity(e),
        ensures
            final(self).inv() == old(self).inv(),
            final(self)@ == old(self)@.with_entity(
                e,
                EntityView {
                    components: old(self)@.entity(e).components.push(c),
                    ..old(self)@.entity(e)
                },
            ),
    {
        self.entities[e.index].components.push(c);
        proof {
            self.lemma_entity_replaced(*old(self), e);
        }
    }

    pub(crate) fn remove_component_ref_at(&mut self, e: Entity, i: usize)
        requires
            old(self)@.has_entity(e),
            i < old(self)@.entity(e).components.len(),
        ensures
            final(self).inv() == old(self).inv(),
            final(self)@ == old(self)@.with_entity(
                e,
                EntityView {
                    components: old(self)@.entity(e).components.remove(i as int),
                    ..old(self)@.entity(e)
                },
            ),
    {
        self.entities[e.index].components.remove(i);
        proof {
            self.lemma_entity_replaced(*old(self), e);
        }
    }

    // Components.

    pub(crate) fn insert_component(&mut self, component: C) -> (c: ComponentRef)
        ensures
            final(self).inv() == old(self).inv(),
            c.index == old(self)@.components.len(),
            final(self)@ == (WorldView {
                components: old(self)@.components.push(component@),
                ..old(self)@
            }),
    {
        let index = self.components.len();
        self.components.push(component);
        proof {
            assert(self@.components =~= old(self)@.components.push(component@));
            assert(self@.entities =~= old(self)@.entities);
        }
        ComponentRef { index }
    }

    /// The component that `c` names.
    pub fn component(&self, c: ComponentRef) -> (component: &C)
        requires
            self@.has_component(c),
        ensures
            component@ == self@.component(c),
    {
        &self.components[c.index]
    }

    pub(crate) fn set_entity_of(&mut self, c: ComponentRef, entity: Option<Entity>)
        requires
            old(self)@.has_component(c),
        ensures
            final(self).inv() == old(self).inv(),
            final(self)@ == old(self)@.with_component(
                c,
                old(self)@.component(c).with_entity(entity),
            ),
    {
        self.components[c.index].set_entity(entity);
        proof {
            assert(self@.components =~= old(self)@.components.update(
                c.index as int,
                old(self)@.component(c).with_entity(entity),
            ));
            assert(self@.entities =~= old(self)@.entities);
        }
    }

    // Scenes.

    pub(crate) fn new_scene(&mut self) -> (s: Scene)
        requires
            old(self).inv(),
        ensures
            final(self).inv(),
            s.index == old(self)@.scenes.len(),
            final(self)@ == (WorldView {
                scenes: old(self)@.scenes.push(SceneView::empty()),
                ..old(self)@
            }),
    {
        let index = self.scenes.len();
        self.scenes.push(
            SceneData {
                initialized: false,
                roots: Vec::new(),
                registry: Registry::new(),
                retired: Ghost(Map::empty()),
            },
        );
        proof {
            assert(self@.scenes =~= old(self)@.scenes.push(SceneView::empty()));
            assert(self@.entities =~= old(self)@.entities);
        }
        Scene { index }
    }

    pub(crate) fn is_initialized(&self, s: Scene) -> (b: bool)
        requires
            self@.has_scene(s),
        ensures
            b == self@.scene(s).initialized,
    {
        self.scenes[s.index].initialized
    }

    pub(crate) fn root_count(&self, s: Scene) -> (n: usize)
        requires
            self@.has_scene(s),
        ensures
            n == self@.scene(s).roots.len(),
    {
        self.scenes[s.index].roots.len()
    }

    pub(crate) fn root_at(&self, s: Scene, i: usize) -> (e: Entity)
        requires
            self@.has_scene(s),
            i < self@.scene(s).roots.len(),
        ensures
            e == self@.scene(s).roots[i as int],
    {
        self.scenes[s.index].roots[i]
    }

    pub(crate) fn push_root(&mut self, s: Scene, e: Entity)
        requires
            old(self).inv(),
            old(self)@.has_scene(s),
        ensures
            final(self).inv(),
            final(self)@ == old(self)@.with_scene(
                s,
                SceneView { roots: old(self)@.scene(s).roots.push(e), ..old(self)@.scene(s) },
            ),
    {
        self.scenes[s.index].roots.push(e);
        proof {
            self.lemma_scene_replaced(*old(self), s);
        }
    }

    pub(crate) fn remove_root_at(&mut self, s: Scene, i: usize)
        requires
            old(self).inv(),
            old(self)@.has_scene(s),
            i < old(self)@.scene(s).roots.len(),
        ensures
            final(self).inv(),
            final(self)@ == old(self)@.with_scene(
                s,
                SceneView {
                    roots: old(self)@.scene(s).roots.remove(i as int),
                    ..old(self)@.scene(s)
                },
            ),
    {
        self.scenes[s.index].roots.remove(i);
        proof {
            self.lemma_scene_replaced(*old(self), s);
        }
    }
}

} // verus!
