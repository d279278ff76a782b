use vstd::prelude::*;
use crate::component::{ComponentRef, ComponentView};
use crate::component_manager::{Hook, ManagerView};
use crate::entity::Entity;
use crate::identifier::Identifier;
use crate::scene::Scene;

verus! {

/// The model of one entity.
pub struct EntityView {
    /// The scene that the entity lives in, if any.
    pub scene: Option<Scene>,
    pub parent: Option<Entity>,
    pub children: Seq<Entity>,
    /// The components attached to the entity, in the order of attachment.
    pub components: Seq<ComponentRef>,
    /// A rank that grows strictly from parent to child. It witnesses that the
    /// parent links form a forest.
    pub level: nat,
}

/// The model of one scene.
pub struct SceneView {
    pub initialized: bool,
    /// The entities attached to the scene directly, in the order of attachment.
    pub roots: Seq<Entity>,
    /// The registry: the manager registered under each identifier.
    pub managers: Map<Identifier, ManagerView>,
    /// The identifiers whose manager has been initialized.
    pub ready: Set<Identifier>,
    /// For each identifier, the managers that were destroyed under it, as they
    /// were when the scene dropped them, oldest first.
    pub retired: Map<Identifier, Seq<ManagerView>>,
}

/// The model of a world.
pub struct WorldView {
    pub entities: Seq<EntityView>,
    pub scenes: Seq<SceneView>,
    pub components: Seq<ComponentView>,
}

impl SceneView {
    pub open spec fn empty() -> SceneView {
        SceneView {
            initialized: false,
            roots: Seq::empty(),
            managers: Map::empty(),
            ready: Set::empty(),
            retired: Map::empty(),
        }
    }

    pub open spec fn has_manager(self, k: Identifier) -> bool {
        self.managers.dom().contains(k)
    }

    pub open spec fn retired_of(self, k: Identifier) -> Seq<ManagerView> {
        if self.retired.dom().contains(k) {
            self.retired[k]
        } else {
            Seq::empty()
        }
    }

    /// The scene after component `c`, whose manager identifier is `k`, has been
    /// added to it. `s` is the scene's own handle.
    pub open spec fn with_component(self, s: Scene, k: Identifier, c: ComponentRef) -> SceneView {
        let base = if self.has_manager(k) {
            self.managers[k]
        } else {
            ManagerView::fresh(k).with_scene(Some(s))
        };
        let boot = self.initialized && !self.ready.contains(k);
        let joined = base.with_component(c);
        SceneView {
            managers: self.managers.insert(
                k,
                if boot {
                    joined.after(Hook::Init)
                } else {
                    joined
                },
            ),
            ready: if boot {
                self.ready.insert(k)
            } else {
                self.ready
            },
            ..self
        }
    }

    /// The scene after component `c`, whose manager identifier is `k`, has been
    /// removed from it.
    pub open spec fn without_component(self, k: Identifier, c: ComponentRef) -> SceneView {
        if !self.has_manager(k) {
            self
        } else {
            let rest = self.managers[k].without_component(c);
            if rest.vacant() {
                SceneView {
                    managers: self.managers.remove(k),
                    ready: self.ready.remove(k),
                    retired: self.retired.insert(k, self.retired_of(k).push(rest.retired())),
                    ..self
                }
            } else {
                SceneView { managers: self.managers.insert(k, rest), ..self }
            }
        }
    }

    /// The scene after `init`: it is initialized, and so is every manager
    /// that was not; each of those has received one more call, `init`.
    pub open spec fn init(self) -> SceneView {
        SceneView {
            initialized: true,
            managers: Map::new(
                |k: Identifier| self.has_manager(k),
                |k: Identifier|
                    if self.ready.contains(k) {
                        self.managers[k]
                    } else {
                        self.managers[k].after(Hook::Init)
                    },
            ),
            ready: self.ready.union(self.managers.dom()),
            ..self
        }
    }

    /// The scene after `update`: every manager has received one more call,
    /// `update`.
    pub open spec fn update(self) -> SceneView {
        SceneView {
            managers: Map::new(
                |k: Identifier| self.has_manager(k),
                |k: Identifier| self.managers[k].after(Hook::Update),
            ),
            ..self
        }
    }
}

/// The entity at place `i` of a world belongs to `group`.
pub open spec fn among(group: Set<Entity>, i: int) -> bool {
    0 <= i <= usize::MAX && group.contains(Entity { index: i as usize })
}

impl EntityView {
    /// An entity as it is created: in no scene, with no parent, no children
    /// and no components.
    pub open spec fn lone() -> EntityView {
        EntityView {
            scene: None,
            parent: None,
            children: Seq::empty(),
            components: Seq::empty(),
            level: 0,
        }
    }
}

impl WorldView {
    pub open spec fn empty() -> WorldView {
        WorldView { entities: Seq::empty(), scenes: Seq::empty(), components: Seq::empty() }
    }

    #[verifier::inline]
    pub open spec fn has_entity(self, e: Entity) -> bool {
        e.index < self.entities.len()
    }

    #[verifier::inline]
    pub open spec fn has_scene(self, s: Scene) -> bool {
        s.index < self.scenes.len()
    }

    #[verifier::inline]
    pub open spec fn has_component(self, c: ComponentRef) -> bool {
        c.index < self.components.len()
    }

    #[verifier::inline]
    pub open spec fn entity(self, e: Entity) -> EntityView {
        self.entities[e.index as int]
    }

    #[verifier::inline]
    pub open spec fn scene(self, s: Scene) -> SceneView {
        self.scenes[s.index as int]
    }

    #[verifier::inline]
    pub open spec fn component(self, c: ComponentRef) -> ComponentView {
        self.components[c.index as int]
    }

    pub open spec fn with_entity(self, e: Entity, entity: EntityView) -> WorldView {
        WorldView { entities: self.entities.update(e.index as int, entity), ..self }
    }

    pub open spec fn with_scene(self, s: Scene, scene: SceneView) -> WorldView {
        WorldView { scenes: self.scenes.update(s.index as int, scene), ..self }
    }

    pub open spec fn with_component(self, c: ComponentRef, component: ComponentView) -> WorldView {
        WorldView { components: self.components.update(c.index as int, component), ..self }
    }

    /// The identifier of the manager that aggregates component `c`.
    #[verifier::inline]
    pub open spec fn key_of(self, c: ComponentRef) -> Identifier {
        self.component(c).manager_identifier
    }

    /// The world after component `c` has been added to the registry of scene
    /// `s`: the manager for the component's kind is created if the scene has
    /// none, takes the component in, and is initialized on the spot if the
    /// scene is initialized and the manager is not.
    pub open spec fn register(self, s: Scene, c: ComponentRef) -> WorldView {
        self.with_scene(s, self.scene(s).with_component(s, self.key_of(c), c))
    }

    /// The world after `Scene::init` on scene `s`: the scene is initialized,
    /// and so is every manager of it that was not; each of those has received
    /// one more call, `init`.
    pub open spec fn init(self, s: Scene) -> WorldView {
        self.with_scene(s, self.scene(s).init())
    }

    /// The world after `Scene::update` on scene `s`: every manager of the
    /// scene has received one more call, `update`.
    pub open spec fn update(self, s: Scene) -> WorldView {
        self.with_scene(s, self.scene(s).update())
    }

    /// The world after a new scene has been made.
    pub open spec fn with_new_scene(self) -> WorldView {
        WorldView { scenes: self.scenes.push(SceneView::empty()), ..self }
    }

    /// The world after a new entity has been made.
    pub open spec fn with_new_entity(self) -> WorldView {
        WorldView { entities: self.entities.push(EntityView::lone()), ..self }
    }

    /// The world after component `c` has been removed from the registry of
    /// scene `s`: the manager for the component's kind lets it go and, if that
    /// leaves it empty, is destroyed and dropped from the registry together
    /// with its initialization mark.
    pub open spec fn unregister(self, s: Scene, c: ComponentRef) -> WorldView {
        self.with_scene(s, self.scene(s).without_component(self.key_of(c), c))
    }

    // The forest.

    /// The `n`-th ancestor of `x`; `x` itself for `n == 0`.
    pub open spec fn ancestor(self, x: Entity, n: nat) -> Option<Entity>
        decreases n,
    {
        if n == 0 {
            Some(x)
        } else if !self.has_entity(x) {
            None
        } else {
            match self.entity(x).parent {
                Some(p) => self.ancestor(p, (n - 1) as nat),
                None => None,
            }
        }
    }

    /// `x` is `e` or one of its descendants.
    pub open spec fn descends(self, x: Entity, e: Entity) -> bool {
        exists|n: nat| self.ancestor(x, n) == Some(e)
    }

    /// `e` and all its descendants.
    pub open spec fn subtree(self, e: Entity) -> Set<Entity> {
        Set::new(|x: Entity| self.has_entity(x) && self.descends(x, e))
    }

    /// The components attached to the entities of `group`.
    pub open spec fn components_of(self, group: Set<Entity>) -> Set<ComponentRef> {
        Set::new(
            |c: ComponentRef|
                self.has_component(c) && match self.component(c).entity {
                    Some(e) => group.contains(e),
                    None => false,
                },
        )
    }

    // Registries in bulk.

    /// The components in `set` that the manager registered under `k`
    /// aggregates.
    pub open spec fn share(self, set: Set<ComponentRef>, k: Identifier) -> Set<ComponentRef> {
        Set::new(|c: ComponentRef| set.contains(c) && self.has_component(c) && self.key_of(c) == k)
    }

    /// What the manager registered under `k` in scene `s` holds once it has let
    /// go of the components in `gone`.
    pub open spec fn remainder(self, s: Scene, gone: Set<ComponentRef>, k: Identifier) -> Set<
        ComponentRef,
    > {
        self.scene(s).managers[k].components.difference(self.share(gone, k))
    }

    /// The manager registered under `k` in scene `s` outlives the removal of
    /// the components in `gone`.
    pub open spec fn outlives(self, s: Scene, gone: Set<ComponentRef>, k: Identifier) -> bool {
        self.scene(s).has_manager(k) && exists|c: ComponentRef|
            self.remainder(s, gone, k).contains(c)
    }

    /// Scene `s` after the components in `gone` have been removed from its
    /// registry: each manager lets go of its share, and a manager that is left
    /// empty is destroyed and dropped.
    pub open spec fn dismissed(self, s: Scene, gone: Set<ComponentRef>) -> SceneView {
        let scene = self.scene(s);
        SceneView {
            managers: Map::new(
                |k: Identifier| self.outlives(s, gone, k),
                |k: Identifier|
                    ManagerView { components: self.remainder(s, gone, k), ..scene.managers[k] },
            ),
            ready: Set::new(|k: Identifier| scene.ready.contains(k) && self.outlives(s, gone, k)),
            retired: Map::new(
                |k: Identifier|
                    scene.retired.dom().contains(k) || (scene.has_manager(k) && !self.outlives(
                        s,
                        gone,
                        k,
                    )),
                |k: Identifier|
                    if scene.has_manager(k) && !self.outlives(s, gone, k) {
                        scene.retired_of(k).push(scene.managers[k].retired())
                    } else {
                        scene.retired[k]
                    },
            ),
            ..scene
        }
    }

    /// Some component in `added` belongs to the manager registered under `k`.
    pub open spec fn touches(self, added: Set<ComponentRef>, k: Identifier) -> bool {
        exists|c: ComponentRef| self.share(added, k).contains(c)
    }

    /// Scene `s` after the components in `added` have been added to its
    /// registry: each manager takes its share in, and a manager that the scene
    /// lacked is created, and initialized if the scene is.
    pub open spec fn enrolled(self, s: Scene, added: Set<ComponentRef>) -> SceneView {
        let scene = self.scene(s);
        SceneView {
            managers: Map::new(
                |k: Identifier| scene.has_manager(k) || self.touches(added, k),
                |k: Identifier|
                    if !self.touches(added, k) {
                        scene.managers[k]
                    } else {
                        let base = if scene.has_manager(k) {
                            scene.managers[k]
                        } else {
                            ManagerView::fresh(k).with_scene(Some(s))
                        };
                        ManagerView {
                            components: base.components.union(self.share(added, k)),
                            history: if scene.initialized && !scene.ready.contains(k) {
                                base.history.push(Hook::Init)
                            } else {
                                base.history
                            },
                            ..base
                        }
                    },
            ),
            ready: Set::new(
                |k: Identifier|
                    scene.ready.contains(k) || (scene.initialized && self.touches(added, k)),
            ),
            ..scene
        }
    }

    /// The world after the entities in `group` have left scene `s`, and the
    /// components in `extra` with them: the entities are in no scene any more,
    /// and the registry of `s` has let go of their components.
    pub open spec fn released(
        self,
        s: Scene,
        group: Set<Entity>,
        extra: Set<ComponentRef>,
    ) -> WorldView {
        WorldView {
            entities: Seq::new(
                self.entities.len(),
                |i: int|
                    if among(group, i) {
                        EntityView { scene: None, ..self.entities[i] }
                    } else {
                        self.entities[i]
                    },
            ),
            scenes: self.scenes.update(
                s.index as int,
                self.dismissed(s, self.components_of(group).union(extra)),
            ),
            ..self
        }
    }

    /// The world after the entities in `group` have joined scene `s`, and the
    /// components in `extra` with them.
    pub open spec fn admitted(
        self,
        s: Scene,
        group: Set<Entity>,
        extra: Set<ComponentRef>,
    ) -> WorldView {
        WorldView {
            entities: Seq::new(
                self.entities.len(),
                |i: int|
                    if among(group, i) {
                        EntityView { scene: Some(s), ..self.entities[i] }
                    } else {
                        self.entities[i]
                    },
            ),
            scenes: self.scenes.update(
                s.index as int,
                self.enrolled(s, self.components_of(group).union(extra)),
            ),
            ..self
        }
    }

    // Invariants.

    /// The scene that `e` refers to is in the world.
    pub open spec fn scene_known(self, e: Entity) -> bool {
        match self.entity(e).scene {
            Some(s) => self.has_scene(s),
            None => true,
        }
    }

    /// Every handle that the world stores names something in the world, and
    /// no scene lists a root twice.
    pub open spec fn handles_valid(self) -> bool {
        &&& forall|e: Entity| self.has_entity(e) ==> #[trigger] self.scene_known(e)
        &&& forall|s: Scene, i: int|
            self.has_scene(s) && 0 <= i < self.scene(s).roots.len() ==> self.has_entity(
                #[trigger] self.scene(s).roots[i],
            )
        &&& forall|s: Scene| self.has_scene(s) ==> (#[trigger] self.scene(s).roots.no_duplicates())
    }

    /// The `i`-th child of `e` is in the world and has `e` for its parent.
    pub open spec fn child_linked(self, e: Entity, i: int) -> bool {
        let c = self.entity(e).children[i];
        self.has_entity(c) && self.entity(c).parent == Some(e)
    }

    /// The parent of `c`, if it has one, is in the world, lists `c` among its
    /// children and has a lower level.
    pub open spec fn parent_linked(self, c: Entity) -> bool {
        match self.entity(c).parent {
            Some(p) => self.has_entity(p) && self.entity(p).children.contains(c) && self.entity(
                p,
            ).level < self.entity(c).level,
            None => true,
        }
    }

    /// Parents and children agree, no entity is listed twice, and the links
    /// form a forest.
    pub open spec fn tree_linked(self) -> bool {
        &&& forall|e: Entity, i: int|
            self.has_entity(e) && 0 <= i < self.entity(e).children.len()
                ==> #[trigger] self.child_linked(e, i)
        &&& forall|c: Entity| self.has_entity(c) ==> #[trigger] self.parent_linked(c)
        &&& forall|e: Entity|
            self.has_entity(e) ==> (#[trigger] self.entity(e).children.no_duplicates())
    }

    /// The `i`-th component of `e` is in the world and is attached to `e`.
    pub open spec fn component_listed(self, e: Entity, i: int) -> bool {
        let c = self.entity(e).components[i];
        self.has_component(c) && self.component(c).entity == Some(e)
    }

    /// The entity that `c` is attached to, if any, is in the world and lists
    /// `c` among its components.
    pub open spec fn component_held(self, c: ComponentRef) -> bool {
        match self.component(c).entity {
            Some(e) => self.has_entity(e) && self.entity(e).components.contains(c),
            None => true,
        }
    }

    /// The `i`-th and the `j`-th component of `e` differ in their identifiers.
    pub open spec fn kinds_differ(self, e: Entity, i: int, j: int) -> bool {
        self.component(self.entity(e).components[i]).identifier != self.component(
            self.entity(e).components[j],
        ).identifier
    }

    /// Entities and components agree on what is attached to what, and an entity
    /// has at most one component of each identifier.
    pub open spec fn attached(self) -> bool {
        &&& forall|e: Entity, i: int|
            self.has_entity(e) && 0 <= i < self.entity(e).components.len()
                ==> #[trigger] self.component_listed(e, i)
        &&& forall|c: ComponentRef| self.has_component(c) ==> #[trigger] self.component_held(c)
        &&& forall|e: Entity, i: int, j: int|
            self.has_entity(e) && 0 <= i < j < self.entity(e).components.len()
                ==> #[trigger] self.kinds_differ(e, i, j)
    }

    /// The registry of scene `s` is sound: each manager carries the identifier
    /// it is registered under, is owned by `s`, holds at least one component
    /// and only components of its kind, has received `init` once if it is
    /// marked initialized and never if it is not, and never `destroy`; only
    /// registered managers are marked initialized, and all of them are once
    /// the scene is; and each manager that was destroyed received `destroy`
    /// once, as its last call.
    pub open spec fn registry_sound(self, s: Scene) -> bool {
        let scene = self.scene(s);
        &&& forall|k: Identifier| #[trigger]
            scene.has_manager(k) ==> scene.managers[k].identifier == k && scene.managers[k].scene
                == Some(s) && !scene.managers[k].vacant() && scene.managers[k].in_service(
                scene.ready.contains(k),
            )
        &&& forall|k: Identifier, i: int|
            scene.retired.dom().contains(k) && 0 <= i < scene.retired[k].len() ==> (
            #[trigger] scene.retired[k][i]).at_rest(k)
        &&& forall|k: Identifier, c: ComponentRef|
            scene.has_manager(k) && #[trigger] scene.managers[k].components.contains(c)
                ==> self.has_component(c) && self.key_of(c) == k
        &&& forall|k: Identifier| #[trigger] scene.ready.contains(k) ==> scene.has_manager(k)
        &&& scene.initialized ==> forall|k: Identifier| #[trigger]
            scene.has_manager(k) ==> scene.ready.contains(k)
    }

    /// What holds of a world between any two steps of an operation.
    pub open spec fn structured(self) -> bool {
        &&& self.handles_valid()
        &&& self.tree_linked()
        &&& self.attached()
        &&& forall|s: Scene| self.has_scene(s) ==> #[trigger] self.registry_sound(s)
    }

    /// `c` lives where its parent lives, if it has one.
    pub open spec fn follows_parent(self, c: Entity) -> bool {
        match self.entity(c).parent {
            Some(p) => self.entity(c).scene == self.entity(p).scene,
            None => true,
        }
    }

    /// `e` is a root of `s` exactly if it has no parent and lives in `s`.
    pub open spec fn root_agrees(self, s: Scene, e: Entity) -> bool {
        self.scene(s).roots.contains(e) <==> self.entity(e).parent is None && self.entity(e).scene
            == Some(s)
    }

    /// A child lives where its parent lives, and the roots of a scene are the
    /// parentless entities that live in it.
    pub open spec fn resident(self) -> bool {
        &&& forall|c: Entity| self.has_entity(c) ==> #[trigger] self.follows_parent(c)
        &&& forall|s: Scene, e: Entity|
            self.has_scene(s) && self.has_entity(e) ==> #[trigger] self.root_agrees(s, e)
    }

    /// What `resident` asks, but for the roots' agreement with `e`: the state
    /// of a world while `e` moves.
    pub open spec fn resident_but(self, e: Entity) -> bool {
        &&& forall|c: Entity| self.has_entity(c) ==> #[trigger] self.follows_parent(c)
        &&& forall|s: Scene, x: Entity|
            self.has_scene(s) && self.has_entity(x) && x != e ==> #[trigger] self.root_agrees(s, x)
    }

    /// Component `c` is held by the manager of its kind in scene `s`.
    pub open spec fn registered(self, s: Scene, c: ComponentRef) -> bool {
        self.scene(s).has_manager(self.key_of(c)) && self.scene(s).managers[self.key_of(
            c,
        )].components.contains(c)
    }

    /// Component `c` is attached to an entity that lives in scene `s`.
    pub open spec fn live_in(self, s: Scene, c: ComponentRef) -> bool {
        match self.component(c).entity {
            Some(e) => self.has_entity(e) && self.entity(e).scene == Some(s),
            None => false,
        }
    }

    /// The registry of each scene holds exactly the components that are live in
    /// the scene.
    pub open spec fn coherent(self) -> bool {
        forall|s: Scene, c: ComponentRef|
            self.has_scene(s) && self.has_component(c) ==> (#[trigger] self.registered(s, c)
                <==> self.live_in(s, c))
    }

    /// The world is well formed.
    pub open spec fn wf(self) -> bool {
        &&& self.structured()
        &&& self.resident()
        &&& self.coherent()
    }

    // Operations on entities.

    /// The world after `e` has been struck from the roots of scene `s`.
    pub open spec fn unrooted(self, s: Scene, e: Entity) -> WorldView {
        let scene = self.scene(s);
        if scene.roots.contains(e) {
            self.with_scene(
                s,
                SceneView { roots: scene.roots.remove(scene.roots.index_of(e)), ..scene },
            )
        } else {
            self
        }
    }

    /// The world after `e` has been put at the end of the roots of scene `s`.
    pub open spec fn rooted(self, s: Scene, e: Entity) -> WorldView {
        self.with_scene(s, SceneView { roots: self.scene(s).roots.push(e), ..self.scene(s) })
    }

    /// The world after `e` has been cut from its parent, if it has one.
    pub open spec fn unlinked(self, e: Entity) -> WorldView {
        match self.entity(e).parent {
            Some(p) => self.with_entity(
                p,
                EntityView {
                    children: self.entity(p).children.remove(self.entity(p).children.index_of(e)),
                    ..self.entity(p)
                },
            ).with_entity(e, EntityView { parent: None, ..self.entity(e) }),
            None => self,
        }
    }

    /// The world after `Scene::remove_entity`: if `e` is a root of `s`, it is
    /// struck from the roots, and it and all its descendants leave the scene.
    /// The tree below `e` stays as it is.
    pub open spec fn remove_entity(self, s: Scene, e: Entity) -> WorldView {
        if self.scene(s).roots.contains(e) {
            self.unrooted(s, e).released(s, self.subtree(e), Set::empty())
        } else {
            self
        }
    }

    /// The world after `e` has been made a tree of its own that lives in no
    /// scene: it is cut from its parent and struck from the roots of its
    /// scene, and it and all its descendants leave that scene.
    pub open spec fn detached(self, e: Entity) -> WorldView {
        match self.entity(e).scene {
            Some(s) => self.unlinked(e).unrooted(s, e).released(s, self.subtree(e), Set::empty()),
            None => self.unlinked(e),
        }
    }

    /// The world after `Scene::add_entity`: nothing changes if `e` lives in
    /// `s` already; else `e` leaves where it was, becomes the last root of
    /// `s`, and it and all its descendants join the scene.
    pub open spec fn add_entity(self, s: Scene, e: Entity) -> WorldView {
        if self.entity(e).scene == Some(s) {
            self
        } else {
            self.detached(e).rooted(s, e).admitted(s, self.subtree(e), Set::empty())
        }
    }

    // Operations on components.

    /// Entity `e` has a component with identifier `id`.
    pub open spec fn holds_kind(self, e: Entity, id: Identifier) -> bool {
        exists|i: int|
            0 <= i < self.entity(e).components.len() && self.component(
                #[trigger] self.entity(e).components[i],
            ).identifier == id
    }

    /// The place of the component with identifier `id` among the components
    /// of `e`.
    pub open spec fn kind_position(self, e: Entity, id: Identifier) -> int {
        choose|i: int|
            0 <= i < self.entity(e).components.len() && self.component(
                #[trigger] self.entity(e).components[i],
            ).identifier == id
    }

    /// The component of `e` with identifier `id`.
    pub open spec fn component_of(self, e: Entity, id: Identifier) -> ComponentRef {
        self.entity(e).components[self.kind_position(e, id)]
    }

    /// The world after a new component, stored as `c`, has been attached to
    /// `e`: the component refers to `e`, `e` lists it last, and it is added to
    /// the registry of the scene that `e` lives in, if any.
    pub open spec fn attach(self, e: Entity, c: ComponentRef, component: ComponentView) -> WorldView {
        let stored = WorldView {
            components: self.components.push(component.with_entity(Some(e))),
            ..self
        }.with_entity(
            e,
            EntityView { components: self.entity(e).components.push(c), ..self.entity(e) },
        );
        match self.entity(e).scene {
            Some(s) => stored.register(s, c),
            None => stored,
        }
    }

    /// The world after the component with identifier `id` has been taken off
    /// `e`: `e` does not list it any more, it refers to no entity, and it is
    /// removed from the registry of the scene that `e` lives in, if any.
    /// Nothing changes if `e` has no such component.
    pub open spec fn unattach(self, e: Entity, id: Identifier) -> WorldView {
        if !self.holds_kind(e, id) {
            self
        } else {
            let i = self.kind_position(e, id);
            let c = self.entity(e).components[i];
            let loose = self.with_entity(
                e,
                EntityView { components: self.entity(e).components.remove(i), ..self.entity(e) },
            ).with_component(c, self.component(c).with_entity(None));
            match self.entity(e).scene {
                Some(s) => loose.unregister(s, c),
                None => loose,
            }
        }
    }

    // Operations on the forest.

    /// The world after the parentless `c` has become the last child of `p`.
    /// The levels of `c` and its descendants are lifted above that of `p`.
    pub open spec fn linked(self, p: Entity, c: Entity) -> WorldView {
        let lift = self.entity(p).level + 1;
        WorldView {
            entities: Seq::new(
                self.entities.len(),
                |i: int|
                    {
                        let x = self.entities[i];
                        let level = if among(self.subtree(c), i) {
                            x.level + lift
                        } else {
                            x.level
                        };
                        if i == p.index {
                            EntityView { children: x.children.push(c), level, ..x }
                        } else if i == c.index {
                            EntityView { parent: Some(p), level, ..x }
                        } else {
                            EntityView { level, ..x }
                        }
                    },
            ),
            ..self
        }
    }

    /// The world after `c` has been taken from where it stands in the forest,
    /// without leaving its scene: cut from its parent, or struck from the
    /// roots of its scene.
    pub open spec fn lifted(self, c: Entity) -> WorldView {
        match self.entity(c).scene {
            Some(s) => self.unlinked(c).unrooted(s, c),
            None => self.unlinked(c),
        }
    }

    /// The world after `Entity::add_child`. Nothing changes if `c` is `p`, an
    /// ancestor of `p`, or a child of `p` already. Else `c` becomes the last
    /// child of `p`. If the two live in the same scene, or both in none, no
    /// registry changes; else `c` and its descendants leave the scene they
    /// lived in and join that of `p`.
    pub open spec fn add_child(self, p: Entity, c: Entity) -> WorldView {
        if c == p || self.descends(p, c) || self.entity(c).parent == Some(p) {
            self
        } else if self.entity(c).scene == self.entity(p).scene {
            self.lifted(c).linked(p, c)
        } else {
            let tied = self.detached(c).linked(p, c);
            match self.entity(p).scene {
                Some(s) => tied.admitted(s, self.subtree(c), Set::empty()),
                None => tied,
            }
        }
    }

    /// The world after `Entity::remove_child`: if `c` is a child of `p`, it
    /// becomes the root of a tree of its own, and it and its descendants leave
    /// the scene they lived in.
    pub open spec fn remove_child(self, p: Entity, c: Entity) -> WorldView {
        if self.entity(c).parent == Some(p) {
            self.detached(c)
        } else {
            self
        }
    }
}

} // verus!
