use vstd::prelude::*;
use crate::component::{ComponentRef, ComponentView};
use crate::component_manager::{lemma_occurrences_push, Hook};
use crate::entity::Entity;
use crate::identifier::Identifier;
use crate::lists::{lemma_push_member, lemma_remove_member};
use crate::model::{among, EntityView, SceneView, WorldView};
use crate::scene::Scene;

verus! {

impl WorldView {
    /// A release keeps a world structured.
    pub proof fn lemma_released_structured(
        self,
        s: Scene,
        group: Set<Entity>,
        extra: Set<ComponentRef>,
    )
        requires
            self.structured(),
            self.has_scene(s),
        ensures
            self.released(s, group, extra).structured(),
    {
        let after = self.released(s, group, extra);
        assert(self.registry_sound(s));
        self.lemma_released_keeps(s, group, extra);
        assert(after.handles_valid()) by {
            assert forall|e: Entity| after.has_entity(e) implies #[trigger] after.scene_known(e) by {
                assert(self.scene_known(e));
            }
            assert forall|q: Scene, i: int|
                after.has_scene(q) && 0 <= i < after.scene(q).roots.len() implies after.has_entity(
                #[trigger] after.scene(q).roots[i],
            ) by {
                assert(self.has_entity(self.scene(q).roots[i]));
            }
            assert forall|q: Scene| after.has_scene(q) implies (#[trigger] after.scene(
                q,
            ).roots.no_duplicates()) by {
                assert(self.scene(q).roots.no_duplicates());
            }
        }
        assert forall|q: Scene| after.has_scene(q) implies #[trigger] after.registry_sound(q) by {
            if q != s {
                assert(self.registry_sound(q));
                assert(after.scene(q) == self.scene(q));
            }
        }
    }

    /// An admission keeps a world structured.
    pub proof fn lemma_admitted_structured(
        self,
        s: Scene,
        group: Set<Entity>,
        extra: Set<ComponentRef>,
    )
        requires
            self.structured(),
            self.has_scene(s),
        ensures
            self.admitted(s, group, extra).structured(),
    {
        let after = self.admitted(s, group, extra);
        let added = self.components_of(group).union(extra);
        self.lemma_admitted_keeps(s, group, extra);
        assert(after.handles_valid()) by {
            assert forall|e: Entity| after.has_entity(e) implies #[trigger] after.scene_known(e) by {
                assert(self.scene_known(e));
            }
            assert forall|q: Scene, i: int|
                after.has_scene(q) && 0 <= i < after.scene(q).roots.len() implies after.has_entity(
                #[trigger] after.scene(q).roots[i],
            ) by {
                assert(self.has_entity(self.scene(q).roots[i]));
            }
            assert forall|q: Scene| after.has_scene(q) implies (#[trigger] after.scene(
                q,
            ).roots.no_duplicates()) by {
                assert(self.scene(q).roots.no_duplicates());
            }
        }
        assert forall|q: Scene| after.has_scene(q) implies #[trigger] after.registry_sound(q) by {
            assert(self.registry_sound(q));
            if q != s {
                assert(after.scene(q) == self.scene(q));
            } else {
                let scene = after.scene(s);
                let was = self.scene(s);
                assert forall|k: Identifier| #[trigger] scene.has_manager(k) implies scene.managers[k].identifier
                    == k && scene.managers[k].scene == Some(s) && !scene.managers[k].vacant()
                    && scene.managers[k].in_service(scene.ready.contains(k)) by {
                    if self.touches(added, k) {
                        let c = choose|c: ComponentRef| self.share(added, k).contains(c);
                        assert(scene.managers[k].components.contains(c));
                        if was.has_manager(k) {
                            lemma_occurrences_push(was.managers[k].history, Hook::Init, Hook::Init);
                            lemma_occurrences_push(
                                was.managers[k].history,
                                Hook::Init,
                                Hook::Destroy,
                            );
                        } else {
                            assert(!was.ready.contains(k));
                            lemma_occurrences_push(Seq::empty(), Hook::Init, Hook::Init);
                            lemma_occurrences_push(Seq::empty(), Hook::Init, Hook::Destroy);
                        }
                    } else {
                        assert(was.has_manager(k));
                    }
                }
                assert forall|k: Identifier, i: int|
                    scene.retired.dom().contains(k) && 0 <= i < scene.retired[k].len() implies (
                #[trigger] scene.retired[k][i]).at_rest(k) by {
                    assert(was.retired[k][i].at_rest(k));
                }
                assert forall|k: Identifier, c: ComponentRef|
                    scene.has_manager(k) && #[trigger] scene.managers[k].components.contains(
                        c,
                    ) implies after.has_component(c) && after.key_of(c) == k by {
                    if was.has_manager(k) && was.managers[k].components.contains(c) {
                    } else {
                        assert(self.touches(added, k));
                        assert(self.share(added, k).contains(c));
                    }
                }
                assert forall|k: Identifier| #[trigger] scene.ready.contains(k) implies scene.has_manager(
                    k,
                ) by {
                    if was.ready.contains(k) {
                        assert(was.has_manager(k));
                    }
                }
                if scene.initialized {
                    assert forall|k: Identifier| #[trigger] scene.has_manager(k) implies scene.ready.contains(
                        k,
                    ) by {
                        if was.has_manager(k) {
                            assert(was.ready.contains(k));
                        }
                    }
                }
            }
        }
    }

    proof fn lemma_ancestor_scene(self, x: Entity, e: Entity, n: nat)
        requires
            forall|c: Entity| self.has_entity(c) ==> #[trigger] self.follows_parent(c),
            self.has_entity(x),
            self.tree_linked(),
            self.ancestor(x, n) == Some(e),
        ensures
            self.entity(x).scene == self.entity(e).scene,
        decreases n,
    {
        if n > 0 {
            let p = self.entity(x).parent->0;
            assert(self.follows_parent(x));
            assert(self.parent_linked(x));
            self.lemma_ancestor_scene(p, e, (n - 1) as nat);
        }
    }

    /// Where every child lives where its parent lives, a whole subtree lives
    /// where its root lives.
    pub proof fn lemma_subtree_scene(self, e: Entity)
        requires
            forall|c: Entity| self.has_entity(c) ==> #[trigger] self.follows_parent(c),
            self.tree_linked(),
        ensures
            forall|x: Entity| #[trigger]
                self.subtree(e).contains(x) ==> self.has_entity(x) && self.entity(x).scene
                    == self.entity(e).scene,
    {
        assert forall|x: Entity| #[trigger] self.subtree(e).contains(x) implies self.has_entity(x)
            && self.entity(x).scene == self.entity(e).scene by {
            let n = choose|n: nat| self.ancestor(x, n) == Some(e);
            self.lemma_ancestor_scene(x, e, n);
        }
    }

    /// Releasing entities that live in `s` keeps the registries in step with
    /// the entities.
    pub proof fn lemma_released_coherent(self, s: Scene, group: Set<Entity>)
        requires
            self.structured(),
            self.coherent(),
            self.has_scene(s),
            forall|x: Entity| #[trigger]
                group.contains(x) ==> self.has_entity(x) && self.entity(x).scene == Some(s),
        ensures
            self.released(s, group, Set::empty()).coherent(),
    {
        let after = self.released(s, group, Set::empty());
        let gone = self.components_of(group).union(Set::empty());
        assert(self.registry_sound(s));
        assert forall|q: Scene, c: ComponentRef|
            after.has_scene(q) && after.has_component(c) implies (#[trigger] after.registered(q, c)
            <==> after.live_in(q, c)) by {
            assert(self.registered(q, c) <==> self.live_in(q, c));
            assert(self.component_held(c));
            let k = self.key_of(c);
            if q == s {
                if self.registered(s, c) && !gone.contains(c) {
                    assert(self.remainder(s, gone, k).contains(c));
                }
                if after.registered(s, c) {
                    assert(self.outlives(s, gone, k));
                    assert(self.remainder(s, gone, k).contains(c));
                }
            } else {
                assert(after.scene(q) == self.scene(q));
            }
        }
    }

    /// Admitting entities that live nowhere keeps the registries in step with
    /// the entities.
    pub proof fn lemma_admitted_coherent(self, s: Scene, group: Set<Entity>)
        requires
            self.structured(),
            self.coherent(),
            self.has_scene(s),
            forall|x: Entity| #[trigger]
                group.contains(x) ==> self.has_entity(x) && self.entity(x).scene is None,
        ensures
            self.admitted(s, group, Set::empty()).coherent(),
    {
        let after = self.admitted(s, group, Set::empty());
        let added = self.components_of(group).union(Set::empty());
        assert forall|q: Scene, c: ComponentRef|
            after.has_scene(q) && after.has_component(c) implies (#[trigger] after.registered(q, c)
            <==> after.live_in(q, c)) by {
            assert(self.registered(q, c) <==> self.live_in(q, c));
            assert(self.component_held(c));
            let k = self.key_of(c);
            if q == s {
                if added.contains(c) {
                    assert(self.share(added, k).contains(c));
                    assert(self.touches(added, k));
                }
                if after.registered(s, c) && !self.registered(s, c) {
                    if self.touches(added, k) {
                        assert(self.share(added, k).contains(c));
                    }
                }
            } else {
                assert(after.scene(q) == self.scene(q));
            }
        }
    }

    /// Whether an entity that has a parent is in the subtree of a parentless
    /// `e` goes by its parent.
    pub proof fn lemma_subtree_by_parent(self, e: Entity, c: Entity)
        requires
            self.tree_linked(),
            self.has_entity(e),
            self.has_entity(c),
            self.entity(e).parent is None,
            self.entity(c).parent is Some,
        ensures
            self.subtree(e).contains(c) == self.subtree(e).contains(self.entity(c).parent->0),
    {
        let p = self.entity(c).parent->0;
        assert(self.parent_linked(c));
        if self.subtree(e).contains(c) {
            self.lemma_descends_parent(c, e);
        }
        if self.subtree(e).contains(p) {
            self.lemma_descends_child(c, p, e);
        }
    }

    /// Of the parentless entities only `e` is in the subtree of `e`.
    pub proof fn lemma_subtree_top(self, e: Entity, x: Entity)
        requires
            self.has_entity(x),
            self.entity(x).parent is None,
        ensures
            self.subtree(e).contains(x) == (x == e),
    {
        if self.subtree(e).contains(x) && x != e {
            self.lemma_descends_parent(x, e);
        }
        if x == e {
            self.lemma_descends_self(e);
        }
    }

    /// Once a parentless entity has been struck from all roots, releasing its
    /// subtree leaves every entity where the roots and the parents say.
    pub proof fn lemma_released_resident(self, s: Scene, e: Entity)
        requires
            self.tree_linked(),
            self.resident_but(e),
            self.has_scene(s),
            self.has_entity(e),
            self.entity(e).parent is None,
            forall|q: Scene| self.has_scene(q) ==> !(#[trigger] self.scene(q).roots.contains(e)),
        ensures
            self.released(s, self.subtree(e), Set::empty()).resident(),
    {
        let group = self.subtree(e);
        let after = self.released(s, group, Set::empty());
        assert forall|c: Entity| after.has_entity(c) implies #[trigger] after.follows_parent(c) by {
            assert(self.follows_parent(c));
            if self.entity(c).parent is Some {
                self.lemma_subtree_by_parent(e, c);
                assert(self.parent_linked(c));
            }
        }
        assert forall|q: Scene, x: Entity|
            after.has_scene(q) && after.has_entity(x) implies #[trigger] after.root_agrees(q, x) by {
            assert(after.scene(q).roots == self.scene(q).roots);
            if x == e {
                self.lemma_descends_self(e);
                assert(!self.scene(q).roots.contains(e));
            } else {
                assert(self.root_agrees(q, x));
                if self.entity(x).parent is None {
                    self.lemma_subtree_top(e, x);
                }
            }
        }
    }

    /// Once a parentless entity that lives nowhere has been made a root of `s`
    /// alone, admitting its subtree leaves every entity where the roots and the
    /// parents say.
    pub proof fn lemma_admitted_resident(self, s: Scene, e: Entity)
        requires
            self.tree_linked(),
            self.resident_but(e),
            self.has_scene(s),
            self.has_entity(e),
            self.entity(e).parent is None,
            forall|q: Scene|
                self.has_scene(q) ==> (#[trigger] self.scene(q).roots.contains(e)) == (q == s),
        ensures
            self.admitted(s, self.subtree(e), Set::empty()).resident(),
    {
        let group = self.subtree(e);
        let after = self.admitted(s, group, Set::empty());
        assert forall|c: Entity| after.has_entity(c) implies #[trigger] after.follows_parent(c) by {
            assert(self.follows_parent(c));
            if self.entity(c).parent is Some {
                self.lemma_subtree_by_parent(e, c);
                assert(self.parent_linked(c));
            }
        }
        assert forall|q: Scene, x: Entity|
            after.has_scene(q) && after.has_entity(x) implies #[trigger] after.root_agrees(q, x) by {
            assert(after.scene(q).roots == self.scene(q).roots);
            if x == e {
                self.lemma_descends_self(e);
                assert(self.scene(q).roots.contains(e) == (q == s));
            } else {
                assert(self.root_agrees(q, x));
                if self.entity(x).parent is None {
                    self.lemma_subtree_top(e, x);
                }
            }
        }
    }

    /// Worlds that differ in their roots only are structured and coherent
    /// together, as far as the roots allow.
    pub proof fn lemma_roots_changed(self, other: WorldView)
        requires
            self.structured(),
            other.entities == self.entities,
            other.components == self.components,
            other.scenes.len() == self.scenes.len(),
            forall|q: Scene|
                #![trigger other.scene(q)]
                #![trigger self.scene(q)]
                self.has_scene(q) ==> other.scene(q).managers == self.scene(q).managers
                    && other.scene(q).ready == self.scene(q).ready && other.scene(q).initialized
                    == self.scene(q).initialized && other.scene(q).retired == self.scene(
                    q,
                ).retired,
            forall|q: Scene, i: int|
                other.has_scene(q) && 0 <= i < other.scene(q).roots.len() ==> other.has_entity(
                    #[trigger] other.scene(q).roots[i],
                ),
            forall|q: Scene|
                other.has_scene(q) ==> (#[trigger] other.scene(q).roots.no_duplicates()),
        ensures
            other.structured(),
            self.coherent() ==> other.coherent(),
            forall|e: Entity| self.subtree(e) == other.subtree(e),
            forall|c: Entity| self.has_entity(c) ==> #[trigger] other.follows_parent(c)
                == self.follows_parent(c),
    {
        assert(other.handles_valid()) by {
            assert forall|e: Entity| other.has_entity(e) implies #[trigger] other.scene_known(e) by {
                assert(self.scene_known(e));
            }
        }
        self.lemma_same_links(other);
        self.lemma_same_attachments(other);
        assert forall|q: Scene| other.has_scene(q) implies #[trigger] other.registry_sound(q) by {
            assert(self.registry_sound(q));
            self.lemma_same_registry(other, q);
        }
        if self.coherent() {
            assert forall|q: Scene, c: ComponentRef|
                other.has_scene(q) && other.has_component(c) implies (#[trigger] other.registered(
                q,
                c,
            ) <==> other.live_in(q, c)) by {
                assert(self.registered(q, c) <==> self.live_in(q, c));
            }
        }
        assert forall|e: Entity| self.subtree(e) == other.subtree(e) by {
            self.lemma_subtree_agrees(other, e);
        }
        assert forall|c: Entity| self.has_entity(c) implies #[trigger] other.follows_parent(c)
            == self.follows_parent(c) by {}
    }

    /// `Scene::remove_entity` keeps a world well formed.
    pub proof fn lemma_remove_entity_wf(self, s: Scene, e: Entity)
        requires
            self.wf(),
            self.has_scene(s),
            self.has_entity(e),
        ensures
            self.remove_entity(s, e).wf(),
    {
        if self.scene(s).roots.contains(e) {
            let roots = self.scene(s).roots;
            let i = roots.index_of(e);
            let middle = self.unrooted(s, e);
            let after = self.remove_entity(s, e);
            assert(roots.no_duplicates());
            lemma_remove_member(roots, i);
            assert forall|q: Scene, j: int|
                middle.has_scene(q) && 0 <= j < middle.scene(q).roots.len() implies middle.has_entity(
                #[trigger] middle.scene(q).roots[j],
            ) by {
                if q == s {
                    let j0 = if j < i { j } else { j + 1 };
                    assert(middle.scene(q).roots[j] == roots[j0]);
                    assert(self.has_entity(self.scene(s).roots[j0]));
                } else {
                    assert(self.has_entity(self.scene(q).roots[j]));
                }
            }
            assert forall|q: Scene| middle.has_scene(q) implies (#[trigger] middle.scene(
                q,
            ).roots.no_duplicates()) by {
                assert(self.scene(q).roots.no_duplicates());
            }
            self.lemma_roots_changed(middle);
            assert(self.root_agrees(s, e));
            assert(middle.resident_but(e)) by {
                assert forall|c: Entity| middle.has_entity(c) implies #[trigger] middle.follows_parent(
                    c,
                ) by {
                    assert(self.follows_parent(c));
                }
                assert forall|q: Scene, x: Entity|
                    middle.has_scene(q) && middle.has_entity(x) && x != e implies #[trigger] middle.root_agrees(
                    q,
                    x,
                ) by {
                    assert(self.root_agrees(q, x));
                }
            }
            assert forall|q: Scene| middle.has_scene(q) implies !(#[trigger] middle.scene(
                q,
            ).roots.contains(e)) by {
                assert(self.root_agrees(q, e));
            }
            self.lemma_subtree_scene(e);
            middle.lemma_released_structured(s, self.subtree(e), Set::empty());
            middle.lemma_released_coherent(s, self.subtree(e));
            middle.lemma_released_resident(s, e);
        }
    }

    /// Cutting an entity from its parent keeps a world structured and leaves
    /// everything but that one link as it was.
    pub proof fn lemma_unlinked(self, e: Entity)
        requires
            self.structured(),
            self.has_entity(e),
        ensures
            self.unlinked(e).structured(),
            self.unlinked(e).entities.len() == self.entities.len(),
            self.unlinked(e).scenes == self.scenes,
            self.unlinked(e).components == self.components,
            self.unlinked(e).entity(e).parent is None,
            self.unlinked(e).subtree(e) == self.subtree(e),
            self.coherent() ==> self.unlinked(e).coherent(),
            forall|x: Entity|
                self.has_entity(x) ==> (#[trigger] self.unlinked(e).entity(x)).scene
                    == self.entity(x).scene && self.unlinked(e).entity(x).components
                    == self.entity(x).components && self.unlinked(e).entity(x).level
                    == self.entity(x).level,
            forall|x: Entity|
                self.has_entity(x) && x != e ==> (#[trigger] self.unlinked(e).entity(x)).parent
                    == self.entity(x).parent,
    {
        let after = self.unlinked(e);
        assert(self.parent_linked(e));
        if self.entity(e).parent is Some {
            let p = self.entity(e).parent->0;
            let kids = self.entity(p).children;
            let i = kids.index_of(e);
            assert(kids.no_duplicates());
            lemma_remove_member(kids, i);
            assert(p != e);
            assert(after.entity(p).children == kids.remove(i));
            assert forall|x: Entity| self.has_entity(x) && x != p implies (#[trigger] after.entity(
                x,
            )).children == self.entity(x).children by {}
            assert(after.tree_linked()) by {
                assert forall|x: Entity, j: int|
                    after.has_entity(x) && 0 <= j < after.entity(x).children.len() implies #[trigger] after.child_linked(
                    x,
                    j,
                ) by {
                    if x == p {
                        let j0 = if j < i { j } else { j + 1 };
                        assert(after.entity(p).children[j] == kids[j0]);
                        assert(self.child_linked(p, j0));
                        assert(kids[j0] != e);
                    } else {
                        assert(self.child_linked(x, j));
                        assert(self.entity(x).children[j] != e);
                    }
                }
                assert forall|c: Entity| after.has_entity(c) implies #[trigger] after.parent_linked(
                    c,
                ) by {
                    assert(self.parent_linked(c));
                    if c != e && self.entity(c).parent == Some(p) {
                        assert(kids.remove(i).contains(c));
                    }
                }
                assert forall|x: Entity| after.has_entity(x) implies (#[trigger] after.entity(
                    x,
                ).children.no_duplicates()) by {
                    assert(self.entity(x).children.no_duplicates());
                }
            }
            assert(after.handles_valid()) by {
                assert forall|x: Entity| after.has_entity(x) implies #[trigger] after.scene_known(
                    x,
                ) by {
                    assert(self.scene_known(x));
                }
                assert forall|q: Scene, j: int|
                    after.has_scene(q) && 0 <= j < after.scene(q).roots.len() implies after.has_entity(
                    #[trigger] after.scene(q).roots[j],
                ) by {
                    assert(self.has_entity(self.scene(q).roots[j]));
                }
            }
            self.lemma_same_attachments(after);
            assert forall|q: Scene| after.has_scene(q) implies #[trigger] after.registry_sound(q) by {
                assert(self.registry_sound(q));
                self.lemma_same_registry(after, q);
            }
            if self.coherent() {
                assert forall|q: Scene, c: ComponentRef|
                    after.has_scene(q) && after.has_component(c) implies (#[trigger] after.registered(
                    q,
                    c,
                ) <==> after.live_in(q, c)) by {
                    assert(self.registered(q, c) <==> self.live_in(q, c));
                }
            }
            self.lemma_subtree_agrees(after, e);
        }
    }

    /// Detaching an entity keeps a world well formed and leaves the entity the
    /// root of a tree of its own that lives in no scene.
    pub proof fn lemma_detached(self, e: Entity)
        requires
            self.wf(),
            self.has_entity(e),
        ensures
            self.detached(e).wf(),
            self.detached(e).entities.len() == self.entities.len(),
            self.detached(e).scenes.len() == self.scenes.len(),
            self.detached(e).components == self.components,
            self.detached(e).entity(e).parent is None,
            self.detached(e).subtree(e) == self.subtree(e),
            forall|x: Entity| #[trigger]
                self.subtree(e).contains(x) ==> self.detached(e).entity(x).scene is None,
            forall|q: Scene|
                self.has_scene(q) ==> !(#[trigger] self.detached(e).scene(q).roots.contains(e)),
    {
        let cut = self.unlinked(e);
        let after = self.detached(e);
        self.lemma_unlinked(e);
        self.lemma_subtree_scene(e);
        self.lemma_descends_self(e);
        assert(self.scene_known(e));
        assert forall|c: Entity| cut.has_entity(c) implies #[trigger] cut.follows_parent(c) by {
            assert(self.follows_parent(c));
            if c != e && self.entity(c).parent is Some {
                assert(self.parent_linked(c));
            }
        }
        match self.entity(e).scene {
            None => {
                assert forall|q: Scene, x: Entity|
                    cut.has_scene(q) && cut.has_entity(x) implies #[trigger] cut.root_agrees(q, x) by {
                    assert(self.root_agrees(q, x));
                }
                assert forall|q: Scene| self.has_scene(q) implies !(#[trigger] after.scene(
                    q,
                ).roots.contains(e)) by {
                    assert(self.root_agrees(q, e));
                }
            },
            Some(s) => {
                let roots = self.scene(s).roots;
                let struck = cut.unrooted(s, e);
                assert(roots.no_duplicates());
                if roots.contains(e) {
                    let i = roots.index_of(e);
                    lemma_remove_member(roots, i);
                    assert forall|q: Scene, j: int|
                        struck.has_scene(q) && 0 <= j < struck.scene(q).roots.len() implies struck.has_entity(
                        #[trigger] struck.scene(q).roots[j],
                    ) by {
                        if q == s {
                            let j0 = if j < i { j } else { j + 1 };
                            assert(struck.scene(q).roots[j] == roots[j0]);
                            assert(self.has_entity(self.scene(s).roots[j0]));
                        } else {
                            assert(self.has_entity(self.scene(q).roots[j]));
                        }
                    }
                    assert forall|q: Scene| struck.has_scene(q) implies (#[trigger] struck.scene(
                        q,
                    ).roots.no_duplicates()) by {
                        assert(self.scene(q).roots.no_duplicates());
                    }
                }
                cut.lemma_roots_changed(struck);
                assert(struck.resident_but(e)) by {
                    assert forall|c: Entity| struck.has_entity(c) implies #[trigger] struck.follows_parent(
                        c,
                    ) by {
                        assert(cut.follows_parent(c));
                    }
                    assert forall|q: Scene, x: Entity|
                        struck.has_scene(q) && struck.has_entity(x) && x != e implies #[trigger] struck.root_agrees(
                        q,
                        x,
                    ) by {
                        assert(self.root_agrees(q, x));
                    }
                }
                assert forall|q: Scene| struck.has_scene(q) implies !(#[trigger] struck.scene(
                    q,
                ).roots.contains(e)) by {
                    assert(self.root_agrees(q, e));
                }
                assert(struck.subtree(e) == self.subtree(e));
                assert forall|x: Entity| #[trigger]
                    self.subtree(e).contains(x) implies struck.has_entity(x) && struck.entity(
                    x,
                ).scene == Some(s) by {}
                struck.lemma_released_structured(s, self.subtree(e), Set::empty());
                struck.lemma_released_coherent(s, self.subtree(e));
                struck.lemma_released_resident(s, e);
                struck.lemma_subtree_agrees(after, e);
                assert forall|x: Entity| #[trigger]
                    self.subtree(e).contains(x) implies after.entity(x).scene is None by {
                    assert(among(self.subtree(e), x.index as int));
                }
            },
        }
    }

    /// `Scene::add_entity` keeps a world well formed.
    pub proof fn lemma_add_entity_wf(self, s: Scene, e: Entity)
        requires
            self.wf(),
            self.has_scene(s),
            self.has_entity(e),
        ensures
            self.add_entity(s, e).wf(),
    {
        if self.entity(e).scene != Some(s) {
            let loose = self.detached(e);
            let put = loose.rooted(s, e);
            let group = self.subtree(e);
            self.lemma_detached(e);
            let roots = loose.scene(s).roots;
            assert(roots.no_duplicates());
            assert(!roots.contains(e));
            lemma_push_member(roots, e);
            assert forall|q: Scene, j: int|
                put.has_scene(q) && 0 <= j < put.scene(q).roots.len() implies put.has_entity(
                #[trigger] put.scene(q).roots[j],
            ) by {
                if q == s && j == roots.len() {
                } else {
                    assert(loose.has_entity(loose.scene(q).roots[j]));
                }
            }
            assert forall|q: Scene| put.has_scene(q) implies (#[trigger] put.scene(
                q,
            ).roots.no_duplicates()) by {
                assert(loose.scene(q).roots.no_duplicates());
            }
            loose.lemma_roots_changed(put);
            assert(put.resident_but(e)) by {
                assert forall|c: Entity| put.has_entity(c) implies #[trigger] put.follows_parent(
                    c,
                ) by {
                    assert(loose.follows_parent(c));
                }
                assert forall|q: Scene, x: Entity|
                    put.has_scene(q) && put.has_entity(x) && x != e implies #[trigger] put.root_agrees(
                    q,
                    x,
                ) by {
                    assert(loose.root_agrees(q, x));
                }
            }
            assert forall|q: Scene| put.has_scene(q) implies (#[trigger] put.scene(
                q,
            ).roots.contains(e)) == (q == s) by {
                assert(!loose.scene(q).roots.contains(e));
            }
            assert(put.subtree(e) == group);
            assert forall|x: Entity| #[trigger] group.contains(x) implies put.has_entity(x)
                && put.entity(x).scene is None by {
                assert(loose.entity(x).scene is None);
            }
            put.lemma_admitted_structured(s, group, Set::empty());
            put.lemma_admitted_coherent(s, group);
            put.lemma_admitted_resident(s, e);
        }
    }

    /// `Scene::add_component` keeps a world structured.
    pub proof fn lemma_register_structured(self, s: Scene, c: ComponentRef)
        requires
            self.structured(),
            self.has_scene(s),
            self.has_component(c),
        ensures
            self.register(s, c).structured(),
    {
        self.lemma_admitted_nothing(s);
        self.lemma_admitted_component(s, Set::empty(), Set::empty(), c);
        self.lemma_admitted_structured(s, Set::empty(), Set::empty().insert(c));
    }

    /// `Scene::remove_component` keeps a world structured.
    pub proof fn lemma_unregister_structured(self, s: Scene, c: ComponentRef)
        requires
            self.structured(),
            self.has_scene(s),
            self.has_component(c),
        ensures
            self.unregister(s, c).structured(),
    {
        assert(self.registry_sound(s));
        self.lemma_released_nothing(s);
        self.lemma_released_component(s, Set::empty(), Set::empty(), c);
        self.lemma_released_structured(s, Set::empty(), Set::empty().insert(c));
    }

    /// A world stays well formed when the managers of one scene change in
    /// nothing but their histories, and managers get initialized.
    pub proof fn lemma_managers_called(self, other: WorldView, s: Scene)
        requires
            self.wf(),
            self.has_scene(s),
            other == self.with_scene(s, other.scene(s)),
            other.scene(s).roots == self.scene(s).roots,
            other.scene(s).retired == self.scene(s).retired,
            other.scene(s).managers.dom() == self.scene(s).managers.dom(),
            forall|k: Identifier| #[trigger]
                self.scene(s).has_manager(k) ==> other.scene(s).managers[k].identifier
                    == self.scene(s).managers[k].identifier && other.scene(s).managers[k].scene
                    == self.scene(s).managers[k].scene && other.scene(s).managers[k].components
                    == self.scene(s).managers[k].components && other.scene(
                    s,
                ).managers[k].in_service(other.scene(s).ready.contains(k)),
            forall|k: Identifier| #[trigger]
                other.scene(s).ready.contains(k) ==> self.scene(s).has_manager(k),
            other.scene(s).initialized ==> forall|k: Identifier| #[trigger]
                self.scene(s).has_manager(k) ==> other.scene(s).ready.contains(k),
        ensures
            other.wf(),
    {
        let mine = self.scene(s);
        let theirs = other.scene(s);
        assert(other.handles_valid()) by {
            assert forall|e: Entity| other.has_entity(e) implies #[trigger] other.scene_known(e) by {
                assert(self.scene_known(e));
            }
            assert forall|q: Scene, j: int|
                other.has_scene(q) && 0 <= j < other.scene(q).roots.len() implies other.has_entity(
                #[trigger] other.scene(q).roots[j],
            ) by {
                assert(self.has_entity(self.scene(q).roots[j]));
            }
            assert forall|q: Scene| other.has_scene(q) implies (#[trigger] other.scene(
                q,
            ).roots.no_duplicates()) by {
                assert(self.scene(q).roots.no_duplicates());
            }
        }
        self.lemma_same_links(other);
        self.lemma_same_attachments(other);
        assert forall|q: Scene| other.has_scene(q) implies #[trigger] other.registry_sound(q) by {
            assert(self.registry_sound(q));
            if q == s {
                assert forall|k: Identifier| #[trigger] theirs.has_manager(k) implies theirs.managers[k].identifier
                    == k && theirs.managers[k].scene == Some(s) && !theirs.managers[k].vacant()
                    && theirs.managers[k].in_service(theirs.ready.contains(k)) by {
                    assert(mine.has_manager(k));
                }
                assert forall|k: Identifier, i: int|
                    theirs.retired.dom().contains(k) && 0 <= i < theirs.retired[k].len() implies (
                #[trigger] theirs.retired[k][i]).at_rest(k) by {
                    assert(mine.retired[k][i].at_rest(k));
                }
                assert forall|k: Identifier, c: ComponentRef|
                    theirs.has_manager(k) && #[trigger] theirs.managers[k].components.contains(
                        c,
                    ) implies other.has_component(c) && other.key_of(c) == k by {
                    assert(mine.has_manager(k) && mine.managers[k].components.contains(c));
                }
                assert forall|k: Identifier| #[trigger] theirs.ready.contains(k) implies theirs.has_manager(
                    k,
                ) by {
                    assert(mine.has_manager(k));
                }
                if theirs.initialized {
                    assert forall|k: Identifier| #[trigger] theirs.has_manager(k) implies theirs.ready.contains(
                        k,
                    ) by {
                        assert(mine.has_manager(k));
                    }
                }
            } else {
                assert(other.scene(q) == self.scene(q));
            }
        }
        assert(other.resident()) by {
            assert forall|c: Entity| other.has_entity(c) implies #[trigger] other.follows_parent(
                c,
            ) by {
                assert(self.follows_parent(c));
            }
            assert forall|q: Scene, x: Entity|
                other.has_scene(q) && other.has_entity(x) implies #[trigger] other.root_agrees(
                q,
                x,
            ) by {
                assert(self.root_agrees(q, x));
            }
        }
        assert forall|q: Scene, c: ComponentRef|
            other.has_scene(q) && other.has_component(c) implies (#[trigger] other.registered(q, c)
            <==> other.live_in(q, c)) by {
            assert(self.registered(q, c) <==> self.live_in(q, c));
            if q == s {
                let k = self.key_of(c);
                if mine.has_manager(k) {
                    assert(theirs.managers[k].components == mine.managers[k].components);
                }
            }
        }
    }

    /// `Scene::init` keeps a world well formed.
    pub proof fn lemma_init_wf(self, s: Scene)
        requires
            self.wf(),
            self.has_scene(s),
        ensures
            self.init(s).wf(),
    {
        let other = self.with_scene(s, self.scene(s).init());
        assert(self.registry_sound(s));
        assert(other.scene(s).managers.dom() =~= self.scene(s).managers.dom());
        assert forall|k: Identifier| #[trigger] self.scene(s).has_manager(k) implies other.scene(
            s,
        ).managers[k].in_service(other.scene(s).ready.contains(k)) by {
            lemma_occurrences_push(self.scene(s).managers[k].history, Hook::Init, Hook::Init);
            lemma_occurrences_push(self.scene(s).managers[k].history, Hook::Init, Hook::Destroy);
        }
        self.lemma_managers_called(other, s);
    }

    /// `Scene::update` keeps a world well formed.
    pub proof fn lemma_update_wf(self, s: Scene)
        requires
            self.wf(),
            self.has_scene(s),
        ensures
            self.update(s).wf(),
    {
        let other = self.with_scene(s, self.scene(s).update());
        assert(self.registry_sound(s));
        assert(other.scene(s).managers.dom() =~= self.scene(s).managers.dom());
        assert forall|k: Identifier| #[trigger] self.scene(s).has_manager(k) implies other.scene(
            s,
        ).managers[k].in_service(other.scene(s).ready.contains(k)) by {
            lemma_occurrences_push(self.scene(s).managers[k].history, Hook::Update, Hook::Init);
            lemma_occurrences_push(self.scene(s).managers[k].history, Hook::Update, Hook::Destroy);
        }
        self.lemma_managers_called(other, s);
    }

    /// A new scene keeps a world well formed.
    pub proof fn lemma_new_scene_wf(self)
        requires
            self.wf(),
        ensures
            self.with_new_scene().wf(),
    {
        let other = WorldView { scenes: self.scenes.push(SceneView::empty()), ..self };
        let fresh = Scene { index: self.scenes.len() as usize };
        assert(other.handles_valid()) by {
            assert forall|e: Entity| other.has_entity(e) implies #[trigger] other.scene_known(e) by {
                assert(self.scene_known(e));
            }
            assert forall|q: Scene, j: int|
                other.has_scene(q) && 0 <= j < other.scene(q).roots.len() implies other.has_entity(
                #[trigger] other.scene(q).roots[j],
            ) by {
                if self.has_scene(q) {
                    assert(self.has_entity(self.scene(q).roots[j]));
                }
            }
            assert forall|q: Scene| other.has_scene(q) implies (#[trigger] other.scene(
                q,
            ).roots.no_duplicates()) by {
                if self.has_scene(q) {
                    assert(self.scene(q).roots.no_duplicates());
                }
            }
        }
        self.lemma_same_links(other);
        self.lemma_same_attachments(other);
        assert forall|q: Scene| other.has_scene(q) implies #[trigger] other.registry_sound(q) by {
            if self.has_scene(q) {
                assert(self.registry_sound(q));
                self.lemma_same_registry(other, q);
            }
        }
        assert(other.resident()) by {
            assert forall|c: Entity| other.has_entity(c) implies #[trigger] other.follows_parent(
                c,
            ) by {
                assert(self.follows_parent(c));
            }
            assert forall|q: Scene, x: Entity|
                other.has_scene(q) && other.has_entity(x) implies #[trigger] other.root_agrees(
                q,
                x,
            ) by {
                if self.has_scene(q) {
                    assert(self.root_agrees(q, x));
                } else {
                    assert(self.scene_known(x));
                }
            }
        }
        assert forall|q: Scene, c: ComponentRef|
            other.has_scene(q) && other.has_component(c) implies (#[trigger] other.registered(q, c)
            <==> other.live_in(q, c)) by {
            if self.has_scene(q) {
                assert(self.registered(q, c) <==> self.live_in(q, c));
            } else {
                assert(self.component_held(c));
                if self.component(c).entity is Some {
                    assert(self.scene_known(self.component(c).entity->0));
                }
            }
        }
    }

    /// A new entity keeps a world well formed.
    pub proof fn lemma_new_entity_wf(self)
        requires
            self.wf(),
        ensures
            self.with_new_entity().wf(),
    {
        let other = WorldView { entities: self.entities.push(EntityView::lone()), ..self };
        assert(other.handles_valid()) by {
            assert forall|e: Entity| other.has_entity(e) implies #[trigger] other.scene_known(e) by {
                if self.has_entity(e) {
                    assert(self.scene_known(e));
                }
            }
            assert forall|q: Scene, j: int|
                other.has_scene(q) && 0 <= j < other.scene(q).roots.len() implies other.has_entity(
                #[trigger] other.scene(q).roots[j],
            ) by {
                assert(self.has_entity(self.scene(q).roots[j]));
            }
            assert forall|q: Scene| other.has_scene(q) implies (#[trigger] other.scene(
                q,
            ).roots.no_duplicates()) by {
                assert(self.scene(q).roots.no_duplicates());
            }
        }
        assert(other.tree_linked()) by {
            assert forall|e: Entity, i: int|
                other.has_entity(e) && 0 <= i < other.entity(e).children.len() implies #[trigger] other.child_linked(
                e,
                i,
            ) by {
                assert(self.child_linked(e, i));
            }
            assert forall|c: Entity| other.has_entity(c) implies #[trigger] other.parent_linked(
                c,
            ) by {
                if self.has_entity(c) {
                    assert(self.parent_linked(c));
                }
            }
            assert forall|e: Entity| other.has_entity(e) implies (#[trigger] other.entity(
                e,
            ).children.no_duplicates()) by {
                if self.has_entity(e) {
                    assert(self.entity(e).children.no_duplicates());
                }
            }
        }
        assert(other.attached()) by {
            assert forall|e: Entity, i: int|
                other.has_entity(e) && 0 <= i < other.entity(e).components.len() implies #[trigger] other.component_listed(
                e,
                i,
            ) by {
                assert(self.component_listed(e, i));
            }
            assert forall|c: ComponentRef| other.has_component(c) implies #[trigger] other.component_held(
                c,
            ) by {
                assert(self.component_held(c));
            }
            assert forall|e: Entity, i: int, j: int|
                other.has_entity(e) && 0 <= i < j < other.entity(e).components.len() implies #[trigger] other.kinds_differ(
                e,
                i,
                j,
            ) by {
                assert(self.kinds_differ(e, i, j));
            }
        }
        assert forall|q: Scene| other.has_scene(q) implies #[trigger] other.registry_sound(q) by {
            assert(self.registry_sound(q));
            self.lemma_same_registry(other, q);
        }
        assert(other.resident()) by {
            assert forall|c: Entity| other.has_entity(c) implies #[trigger] other.follows_parent(
                c,
            ) by {
                if self.has_entity(c) {
                    assert(self.follows_parent(c));
                    assert(self.parent_linked(c));
                }
            }
            assert forall|q: Scene, x: Entity|
                other.has_scene(q) && other.has_entity(x) implies #[trigger] other.root_agrees(
                q,
                x,
            ) by {
                if self.has_entity(x) {
                    assert(self.root_agrees(q, x));
                } else {
                    if self.scene(q).roots.contains(x) {
                        let j = self.scene(q).roots.index_of(x);
                        assert(self.has_entity(self.scene(q).roots[j]));
                    }
                }
            }
        }
        assert forall|q: Scene, c: ComponentRef|
            other.has_scene(q) && other.has_component(c) implies (#[trigger] other.registered(q, c)
            <==> other.live_in(q, c)) by {
            assert(self.registered(q, c) <==> self.live_in(q, c));
            assert(self.component_held(c));
        }
    }

    /// Striking a root keeps a world structured.
    pub proof fn lemma_unrooted_structured(self, s: Scene, e: Entity)
        requires
            self.structured(),
            self.has_scene(s),
        ensures
            self.unrooted(s, e).structured(),
            self.unrooted(s, e).subtree(e) == self.subtree(e),
            self.unrooted(s, e).entities == self.entities,
            self.unrooted(s, e).components == self.components,
            self.coherent() ==> self.unrooted(s, e).coherent(),
    {
        let other = self.unrooted(s, e);
        let roots = self.scene(s).roots;
        if roots.contains(e) {
            let i = roots.index_of(e);
            assert(roots.no_duplicates());
            lemma_remove_member(roots, i);
            assert forall|q: Scene, j: int|
                other.has_scene(q) && 0 <= j < other.scene(q).roots.len() implies other.has_entity(
                #[trigger] other.scene(q).roots[j],
            ) by {
                if q == s {
                    let j0 = if j < i { j } else { j + 1 };
                    assert(other.scene(q).roots[j] == roots[j0]);
                    assert(self.has_entity(self.scene(s).roots[j0]));
                } else {
                    assert(self.has_entity(self.scene(q).roots[j]));
                }
            }
            assert forall|q: Scene| other.has_scene(q) implies (#[trigger] other.scene(
                q,
            ).roots.no_duplicates()) by {
                assert(self.scene(q).roots.no_duplicates());
            }
            self.lemma_roots_changed(other);
        }
    }

    /// A new root keeps a world structured.
    pub proof fn lemma_rooted_structured(self, s: Scene, e: Entity)
        requires
            self.structured(),
            self.has_scene(s),
            self.has_entity(e),
            !self.scene(s).roots.contains(e),
        ensures
            self.rooted(s, e).structured(),
            self.rooted(s, e).subtree(e) == self.subtree(e),
    {
        let other = self.rooted(s, e);
        let roots = self.scene(s).roots;
        assert(roots.no_duplicates());
        lemma_push_member(roots, e);
        assert forall|q: Scene, j: int|
            other.has_scene(q) && 0 <= j < other.scene(q).roots.len() implies other.has_entity(
            #[trigger] other.scene(q).roots[j],
        ) by {
            if q == s && j == roots.len() {
            } else {
                assert(self.has_entity(self.scene(q).roots[j]));
            }
        }
        assert forall|q: Scene| other.has_scene(q) implies (#[trigger] other.scene(
            q,
        ).roots.no_duplicates()) by {
            assert(self.scene(q).roots.no_duplicates());
        }
        self.lemma_roots_changed(other);
    }

    /// What `register` does to who is registered where.
    pub proof fn lemma_register_effect(self, s: Scene, c: ComponentRef)
        requires
            self.has_scene(s),
            self.has_component(c),
            forall|q: Scene| self.has_scene(q) ==> #[trigger] self.registry_sound(q),
        ensures
            forall|q: Scene, d: ComponentRef|
                self.has_scene(q) && self.has_component(d) ==> #[trigger] self.register(
                    s,
                    c,
                ).registered(q, d) == (self.registered(q, d) || (q == s && d == c)),
    {
        let after = self.register(s, c);
        assert forall|q: Scene, d: ComponentRef|
            self.has_scene(q) && self.has_component(d) implies #[trigger] after.registered(q, d)
            == (self.registered(q, d) || (q == s && d == c)) by {
            if q != s {
                assert(after.scene(q) == self.scene(q));
            }
        }
    }

    /// What `unregister` does to who is registered where.
    pub proof fn lemma_unregister_effect(self, s: Scene, c: ComponentRef)
        requires
            self.has_scene(s),
            self.has_component(c),
            forall|q: Scene| self.has_scene(q) ==> #[trigger] self.registry_sound(q),
        ensures
            forall|q: Scene, d: ComponentRef|
                self.has_scene(q) && self.has_component(d) ==> #[trigger] self.unregister(
                    s,
                    c,
                ).registered(q, d) == (self.registered(q, d) && !(q == s && d == c)),
    {
        let after = self.unregister(s, c);
        let k = self.key_of(c);
        assert(self.registry_sound(s));
        assert forall|q: Scene, d: ComponentRef|
            self.has_scene(q) && self.has_component(d) implies #[trigger] after.registered(q, d)
            == (self.registered(q, d) && !(q == s && d == c)) by {
            if q != s {
                assert(after.scene(q) == self.scene(q));
            } else if self.scene(s).has_manager(k) {
                let rest = self.scene(s).managers[k].without_component(c);
                if self.key_of(d) == k && d != c && self.registered(s, d) {
                    assert(rest.components.contains(d));
                }
            }
        }
    }

    /// Attaching a new component keeps a world well formed.
    pub proof fn lemma_attach_wf(self, e: Entity, c: ComponentRef, component: ComponentView)
        requires
            self.wf(),
            self.has_entity(e),
            c.index == self.components.len(),
            !self.holds_kind(e, component.identifier),
        ensures
            self.attach(e, c, component).wf(),
            ({
                let stored = WorldView {
                    components: self.components.push(component.with_entity(Some(e))),
                    ..self
                }.with_entity(
                    e,
                    EntityView { components: self.entity(e).components.push(c), ..self.entity(e) },
                );
                stored.structured()
            }),
    {
        let listed = self.entity(e).components;
        let stored = WorldView {
            components: self.components.push(component.with_entity(Some(e))),
            ..self
        }.with_entity(e, EntityView { components: listed.push(c), ..self.entity(e) });
        let after = self.attach(e, c, component);
        assert(stored.handles_valid()) by {
            assert forall|x: Entity| stored.has_entity(x) implies #[trigger] stored.scene_known(x) by {
                assert(self.scene_known(x));
            }
            assert forall|q: Scene, j: int|
                stored.has_scene(q) && 0 <= j < stored.scene(q).roots.len() implies stored.has_entity(
                #[trigger] stored.scene(q).roots[j],
            ) by {
                assert(self.has_entity(self.scene(q).roots[j]));
            }
            assert forall|q: Scene| stored.has_scene(q) implies (#[trigger] stored.scene(
                q,
            ).roots.no_duplicates()) by {
                assert(self.scene(q).roots.no_duplicates());
            }
        }
        self.lemma_same_links(stored);
        assert(stored.attached()) by {
            assert forall|x: Entity, i: int|
                stored.has_entity(x) && 0 <= i < stored.entity(x).components.len() implies #[trigger] stored.component_listed(
                x,
                i,
            ) by {
                if x == e && i == listed.len() {
                } else {
                    assert(self.component_listed(x, i));
                }
            }
            assert forall|d: ComponentRef| stored.has_component(d) implies #[trigger] stored.component_held(
                d,
            ) by {
                if d == c {
                    assert(listed.push(c)[listed.len() as int] == c);
                } else {
                    assert(self.component_held(d));
                    if self.component(d).entity == Some(e) {
                        let i = listed.index_of(d);
                        assert(listed.push(c)[i] == d);
                    }
                }
            }
            assert forall|x: Entity, i: int, j: int|
                stored.has_entity(x) && 0 <= i < j < stored.entity(x).components.len() implies #[trigger] stored.kinds_differ(
                x,
                i,
                j,
            ) by {
                if x == e && j == listed.len() {
                    assert(self.component_listed(e, i));
                    assert(self.component(listed[i]).identifier != component.identifier);
                } else {
                    assert(self.kinds_differ(x, i, j));
                    assert(self.component_listed(x, i));
                    assert(self.component_listed(x, j));
                }
            }
        }
        assert forall|q: Scene| stored.has_scene(q) implies #[trigger] stored.registry_sound(q) by {
            assert(self.registry_sound(q));
            let mine = self.scene(q);
            assert forall|k: Identifier, d: ComponentRef|
                mine.has_manager(k) && #[trigger] mine.managers[k].components.contains(
                    d,
                ) implies stored.has_component(d) && stored.key_of(d) == k by {}
        }
        assert(stored.resident()) by {
            assert forall|x: Entity| stored.has_entity(x) implies #[trigger] stored.follows_parent(
                x,
            ) by {
                assert(self.follows_parent(x));
                assert(self.parent_linked(x));
            }
            assert forall|q: Scene, x: Entity|
                stored.has_scene(q) && stored.has_entity(x) implies #[trigger] stored.root_agrees(
                q,
                x,
            ) by {
                assert(self.root_agrees(q, x));
            }
        }
        assert(self.scene_known(e));
        assert forall|q: Scene, d: ComponentRef|
            stored.has_scene(q) && stored.has_component(d) && d != c implies (#[trigger] stored.registered(
            q,
            d,
        ) <==> stored.live_in(q, d)) by {
            assert(self.registered(q, d) <==> self.live_in(q, d));
            assert(self.component_held(d));
        }
        assert forall|q: Scene| stored.has_scene(q) implies !(#[trigger] stored.registered(q, c)) by {
            assert(self.registry_sound(q));
            let k = stored.key_of(c);
            if self.scene(q).has_manager(k) && self.scene(q).managers[k].components.contains(c) {
                assert(self.has_component(c));
            }
        }
        match self.entity(e).scene {
            Some(s) => {
                stored.lemma_register_structured(s, c);
                stored.lemma_register_effect(s, c);
                assert(after.resident()) by {
                    assert forall|x: Entity| after.has_entity(x) implies #[trigger] after.follows_parent(
                        x,
                    ) by {
                        assert(stored.follows_parent(x));
                    }
                    assert forall|q: Scene, x: Entity|
                        after.has_scene(q) && after.has_entity(x) implies #[trigger] after.root_agrees(
                        q,
                        x,
                    ) by {
                        assert(stored.root_agrees(q, x));
                    }
                }
                assert forall|q: Scene, d: ComponentRef|
                    after.has_scene(q) && after.has_component(d) implies (#[trigger] after.registered(
                    q,
                    d,
                ) <==> after.live_in(q, d)) by {
                    assert(after.registered(q, d) == (stored.registered(q, d) || (q == s && d
                        == c)));
                    if d != c {
                        assert(stored.registered(q, d) <==> stored.live_in(q, d));
                    } else {
                        assert(!stored.registered(q, c));
                    }
                }
            },
            None => {
                assert forall|q: Scene, d: ComponentRef|
                    stored.has_scene(q) && stored.has_component(d) implies (#[trigger] stored.registered(
                    q,
                    d,
                ) <==> stored.live_in(q, d)) by {
                    if d == c {
                        assert(!stored.registered(q, c));
                    }
                }
            },
        }
    }

    /// An entity has at most one component of each identifier, so the place of
    /// a component of a given identifier is the place of that identifier.
    pub proof fn lemma_kind_position(self, e: Entity, i: int)
        requires
            self.attached(),
            self.has_entity(e),
            0 <= i < self.entity(e).components.len(),
        ensures
            self.holds_kind(e, self.component(self.entity(e).components[i]).identifier),
            self.kind_position(e, self.component(self.entity(e).components[i]).identifier) == i,
            self.entity(e).components.no_duplicates(),
    {
        let listed = self.entity(e).components;
        let id = self.component(listed[i]).identifier;
        let p = self.kind_position(e, id);
        if p < i {
            assert(self.kinds_differ(e, p, i));
        }
        if i < p {
            assert(self.kinds_differ(e, i, p));
        }
        assert forall|a: int, b: int|
            0 <= a < listed.len() && 0 <= b < listed.len() && a != b implies listed[a]
            != listed[b] by {
            if a < b {
                assert(self.kinds_differ(e, a, b));
            } else {
                assert(self.kinds_differ(e, b, a));
            }
        }
    }

    /// Taking a component off an entity keeps a world well formed.
    pub proof fn lemma_unattach_wf(self, e: Entity, id: Identifier)
        requires
            self.wf(),
            self.has_entity(e),
        ensures
            self.unattach(e, id).wf(),
            self.holds_kind(e, id) ==> ({
                let i = self.kind_position(e, id);
                let c = self.entity(e).components[i];
                self.with_entity(
                    e,
                    EntityView {
                        components: self.entity(e).components.remove(i),
                        ..self.entity(e)
                    },
                ).with_component(c, self.component(c).with_entity(None)).structured()
            }),
    {
        if self.holds_kind(e, id) {
            let listed = self.entity(e).components;
            let i = self.kind_position(e, id);
            let c = listed[i];
            let loose = self.with_entity(
                e,
                EntityView { components: listed.remove(i), ..self.entity(e) },
            ).with_component(c, self.component(c).with_entity(None));
            let after = self.unattach(e, id);
            self.lemma_kind_position(e, i);
            lemma_remove_member(listed, i);
            assert(self.component_listed(e, i));
            assert(loose.handles_valid()) by {
                assert forall|x: Entity| loose.has_entity(x) implies #[trigger] loose.scene_known(
                    x,
                ) by {
                    assert(self.scene_known(x));
                }
                assert forall|q: Scene, j: int|
                    loose.has_scene(q) && 0 <= j < loose.scene(q).roots.len() implies loose.has_entity(
                    #[trigger] loose.scene(q).roots[j],
                ) by {
                    assert(self.has_entity(self.scene(q).roots[j]));
                }
                assert forall|q: Scene| loose.has_scene(q) implies (#[trigger] loose.scene(
                    q,
                ).roots.no_duplicates()) by {
                    assert(self.scene(q).roots.no_duplicates());
                }
            }
            self.lemma_same_links(loose);
            assert(loose.attached()) by {
                assert forall|x: Entity, j: int|
                    loose.has_entity(x) && 0 <= j < loose.entity(x).components.len() implies #[trigger] loose.component_listed(
                    x,
                    j,
                ) by {
                    if x == e {
                        let j0 = if j < i { j } else { j + 1 };
                        assert(listed.remove(i)[j] == listed[j0]);
                        assert(self.component_listed(e, j0));
                    } else {
                        assert(self.component_listed(x, j));
                    }
                }
                assert forall|d: ComponentRef| loose.has_component(d) implies #[trigger] loose.component_held(
                    d,
                ) by {
                    if d != c {
                        assert(self.component_held(d));
                        if self.component(d).entity == Some(e) {
                            assert(listed.remove(i).contains(d));
                        }
                    }
                }
                assert forall|x: Entity, a: int, b: int|
                    loose.has_entity(x) && 0 <= a < b < loose.entity(x).components.len() implies #[trigger] loose.kinds_differ(
                    x,
                    a,
                    b,
                ) by {
                    if x == e {
                        let a0 = if a < i { a } else { a + 1 };
                        let b0 = if b < i { b } else { b + 1 };
                        assert(listed.remove(i)[a] == listed[a0]);
                        assert(listed.remove(i)[b] == listed[b0]);
                        assert(self.kinds_differ(e, a0, b0));
                        assert(self.component_listed(e, a0));
                        assert(self.component_listed(e, b0));
                    } else {
                        assert(self.kinds_differ(x, a, b));
                        assert(self.component_listed(x, a));
                        assert(self.component_listed(x, b));
                    }
                }
            }
            assert forall|q: Scene| loose.has_scene(q) implies #[trigger] loose.registry_sound(q) by {
                assert(self.registry_sound(q));
                let mine = self.scene(q);
                assert forall|k: Identifier, d: ComponentRef|
                    mine.has_manager(k) && #[trigger] mine.managers[k].components.contains(
                        d,
                    ) implies loose.has_component(d) && loose.key_of(d) == k by {}
            }
            assert(loose.resident()) by {
                assert forall|x: Entity| loose.has_entity(x) implies #[trigger] loose.follows_parent(
                    x,
                ) by {
                    assert(self.follows_parent(x));
                    assert(self.parent_linked(x));
                }
                assert forall|q: Scene, x: Entity|
                    loose.has_scene(q) && loose.has_entity(x) implies #[trigger] loose.root_agrees(
                    q,
                    x,
                ) by {
                    assert(self.root_agrees(q, x));
                }
            }
            assert(self.scene_known(e));
            assert forall|q: Scene, d: ComponentRef|
                loose.has_scene(q) && loose.has_component(d) && d != c implies (#[trigger] loose.registered(
                q,
                d,
            ) <==> loose.live_in(q, d)) by {
                assert(self.registered(q, d) <==> self.live_in(q, d));
                assert(self.component_held(d));
            }
            assert forall|q: Scene| loose.has_scene(q) implies (#[trigger] loose.registered(q, c))
                == (self.entity(e).scene == Some(q)) by {
                assert(self.registered(q, c) <==> self.live_in(q, c));
            }
            match self.entity(e).scene {
                Some(s) => {
                    loose.lemma_unregister_structured(s, c);
                    loose.lemma_unregister_effect(s, c);
                    assert(after.resident()) by {
                        assert forall|x: Entity| after.has_entity(x) implies #[trigger] after.follows_parent(
                            x,
                        ) by {
                            assert(loose.follows_parent(x));
                        }
                        assert forall|q: Scene, x: Entity|
                            after.has_scene(q) && after.has_entity(x) implies #[trigger] after.root_agrees(
                            q,
                            x,
                        ) by {
                            assert(loose.root_agrees(q, x));
                        }
                    }
                    assert forall|q: Scene, d: ComponentRef|
                        after.has_scene(q) && after.has_component(d) implies (#[trigger] after.registered(
                        q,
                        d,
                    ) <==> after.live_in(q, d)) by {
                        assert(after.registered(q, d) == (loose.registered(q, d) && !(q == s && d
                            == c)));
                        if d != c {
                            assert(loose.registered(q, d) <==> loose.live_in(q, d));
                        } else {
                            assert(loose.registered(q, c) == (self.entity(e).scene == Some(q)));
                        }
                    }
                },
                None => {
                    assert forall|q: Scene, d: ComponentRef|
                        loose.has_scene(q) && loose.has_component(d) implies (#[trigger] loose.registered(
                        q,
                        d,
                    ) <==> loose.live_in(q, d)) by {
                        if d == c {
                            assert(loose.registered(q, c) == (self.entity(e).scene == Some(q)));
                        }
                    }
                },
            }
        }
    }

    /// Whether an entity other than `e` that has a parent is in the subtree of
    /// `e` goes by its parent.
    pub proof fn lemma_subtree_below(self, e: Entity, x: Entity)
        requires
            self.tree_linked(),
            self.has_entity(x),
            self.entity(x).parent is Some,
            x != e,
        ensures
            self.subtree(e).contains(x) == self.subtree(e).contains(self.entity(x).parent->0),
    {
        let p = self.entity(x).parent->0;
        assert(self.parent_linked(x));
        if self.subtree(e).contains(x) {
            self.lemma_descends_parent(x, e);
        }
        if self.subtree(e).contains(p) {
            self.lemma_descends_child(x, p, e);
        }
    }

    /// Linking a parentless entity under one that does not descend from it
    /// keeps a world structured and changes nothing but the link and the
    /// levels.
    pub proof fn lemma_linked(self, p: Entity, c: Entity)
        requires
            self.structured(),
            self.has_entity(p),
            self.has_entity(c),
            self.entity(c).parent is None,
            !self.descends(p, c),
        ensures
            self.linked(p, c).structured(),
            self.linked(p, c).entities.len() == self.entities.len(),
            self.linked(p, c).scenes == self.scenes,
            self.linked(p, c).components == self.components,
            self.linked(p, c).subtree(c) == self.subtree(c),
            self.linked(p, c).entity(c).parent == Some(p),
            self.coherent() ==> self.linked(p, c).coherent(),
            forall|x: Entity|
                self.has_entity(x) ==> (#[trigger] self.linked(p, c).entity(x)).scene
                    == self.entity(x).scene && self.linked(p, c).entity(x).components
                    == self.entity(x).components,
            forall|x: Entity|
                self.has_entity(x) && x != c ==> (#[trigger] self.linked(p, c).entity(x)).parent
                    == self.entity(x).parent,
    {
        let after = self.linked(p, c);
        let group = self.subtree(c);
        let lift = self.entity(p).level + 1;
        self.lemma_descends_self(c);
        assert(c != p) by {
            self.lemma_descends_self(p);
        }
        assert(!group.contains(p));
        assert(group.contains(c));
        let kids = self.entity(p).children;
        assert(!kids.contains(c)) by {
            if kids.contains(c) {
                let i = kids.index_of(c);
                assert(self.child_linked(p, i));
            }
        }
        assert(kids.no_duplicates());
        lemma_push_member(kids, c);
        assert forall|x: Entity| self.has_entity(x) implies (#[trigger] after.entity(x)).level
            == self.entity(x).level + if group.contains(x) { lift } else { 0 } by {
            assert(among(group, x.index as int) == group.contains(x));
        }
        assert(after.tree_linked()) by {
            assert forall|x: Entity, i: int|
                after.has_entity(x) && 0 <= i < after.entity(x).children.len() implies #[trigger] after.child_linked(
                x,
                i,
            ) by {
                if x == p && i == kids.len() {
                } else {
                    assert(self.child_linked(x, i));
                    assert(self.entity(x).children[i] != c);
                }
            }
            assert forall|x: Entity| after.has_entity(x) implies #[trigger] after.parent_linked(
                x,
            ) by {
                assert(self.parent_linked(x));
                if x == c {
                    assert(kids.push(c).contains(c));
                } else if self.entity(x).parent is Some {
                    let q = self.entity(x).parent->0;
                    self.lemma_subtree_below(c, x);
                    if q == p {
                        assert(kids.push(c).contains(x));
                    }
                }
            }
            assert forall|x: Entity| after.has_entity(x) implies (#[trigger] after.entity(
                x,
            ).children.no_duplicates()) by {
                assert(self.entity(x).children.no_duplicates());
            }
        }
        assert(after.handles_valid()) by {
            assert forall|x: Entity| after.has_entity(x) implies #[trigger] after.scene_known(
                x,
            ) by {
                assert(self.scene_known(x));
            }
            assert forall|q: Scene, j: int|
                after.has_scene(q) && 0 <= j < after.scene(q).roots.len() implies after.has_entity(
                #[trigger] after.scene(q).roots[j],
            ) by {
                assert(self.has_entity(self.scene(q).roots[j]));
            }
        }
        self.lemma_same_attachments(after);
        assert forall|q: Scene| after.has_scene(q) implies #[trigger] after.registry_sound(q) by {
            assert(self.registry_sound(q));
            self.lemma_same_registry(after, q);
        }
        if self.coherent() {
            assert forall|q: Scene, d: ComponentRef|
                after.has_scene(q) && after.has_component(d) implies (#[trigger] after.registered(
                q,
                d,
            ) <==> after.live_in(q, d)) by {
                assert(self.registered(q, d) <==> self.live_in(q, d));
                assert(self.component_held(d));
            }
        }
        self.lemma_subtree_agrees(after, c);
    }

    /// Once an entity that lives nowhere hangs under a parent that lives in
    /// `s`, admitting its subtree leaves every entity where the roots and the
    /// parents say.
    pub proof fn lemma_admitted_under(self, s: Scene, c: Entity)
        requires
            self.tree_linked(),
            self.has_scene(s),
            self.has_entity(c),
            self.entity(c).parent is Some,
            self.entity(self.entity(c).parent->0).scene == Some(s),
            !self.subtree(c).contains(self.entity(c).parent->0),
            forall|x: Entity| self.has_entity(x) && x != c ==> #[trigger] self.follows_parent(x),
            forall|q: Scene, x: Entity|
                self.has_scene(q) && self.has_entity(x) ==> #[trigger] self.root_agrees(q, x),
        ensures
            self.admitted(s, self.subtree(c), Set::empty()).resident(),
    {
        let group = self.subtree(c);
        let after = self.admitted(s, group, Set::empty());
        self.lemma_descends_self(c);
        assert forall|x: Entity| after.has_entity(x) implies #[trigger] after.follows_parent(x) by {
            assert(self.parent_linked(x));
            if x != c {
                assert(self.follows_parent(x));
                if self.entity(x).parent is Some {
                    self.lemma_subtree_below(c, x);
                }
            }
        }
        assert forall|q: Scene, x: Entity|
            after.has_scene(q) && after.has_entity(x) implies #[trigger] after.root_agrees(q, x) by {
            assert(after.scene(q).roots == self.scene(q).roots);
            assert(self.root_agrees(q, x));
            if self.entity(x).parent is None {
                self.lemma_subtree_top(c, x);
            }
        }
    }

    /// `Entity::add_child` keeps a world well formed.
    pub proof fn lemma_add_child_wf(self, p: Entity, c: Entity)
        requires
            self.wf(),
            self.has_entity(p),
            self.has_entity(c),
        ensures
            self.add_child(p, c).wf(),
    {
        if c == p || self.descends(p, c) || self.entity(c).parent == Some(p) {
        } else if self.entity(c).scene == self.entity(p).scene {
            let cut = self.unlinked(c);
            let up = self.lifted(c);
            let after = up.linked(p, c);
            self.lemma_unlinked(c);
            assert(self.scene_known(c));
            match self.entity(c).scene {
                Some(s) => {
                    cut.lemma_unrooted_structured(s, c);
                },
                None => {},
            }
            assert(up.subtree(c) == self.subtree(c));
            assert(!up.descends(p, c)) by {
                if up.descends(p, c) {
                    assert(up.subtree(c).contains(p));
                    assert(self.subtree(c).contains(p));
                }
            }
            up.lemma_linked(p, c);
            assert(after.resident()) by {
                assert forall|x: Entity| after.has_entity(x) implies #[trigger] after.follows_parent(
                    x,
                ) by {
                    assert(self.follows_parent(x));
                    assert(self.parent_linked(x));
                    let _ = up.entity(x);
                    let _ = cut.entity(x);
                    if x != c && self.entity(x).parent is Some {
                        let _ = up.entity(self.entity(x).parent->0);
                        let _ = cut.entity(self.entity(x).parent->0);
                    }
                }
                assert forall|q: Scene, x: Entity|
                    after.has_scene(q) && after.has_entity(x) implies #[trigger] after.root_agrees(
                    q,
                    x,
                ) by {
                    assert(self.root_agrees(q, x));
                    let _ = up.entity(x);
                    let _ = cut.entity(x);
                    if self.entity(c).scene is Some {
                        let s = self.entity(c).scene->0;
                        let roots = self.scene(s).roots;
                        assert(roots.no_duplicates());
                        if roots.contains(c) {
                            lemma_remove_member(roots, roots.index_of(c));
                        }
                    }
                }
            }
        } else {
            let loose = self.detached(c);
            let tied = loose.linked(p, c);
            let group = self.subtree(c);
            self.lemma_detached(c);
            self.lemma_unlinked(c);
            self.lemma_descends_self(c);
            assert(self.scene_known(c));
            assert(self.scene_known(p));
            assert(!group.contains(p));
            assert(loose.entity(p).scene == self.entity(p).scene) by {
                let cut = self.unlinked(c);
                let _ = cut.entity(p);
                assert(!among(group, p.index as int));
            }
            assert(!loose.descends(p, c)) by {
                if loose.descends(p, c) {
                    assert(loose.subtree(c).contains(p));
                }
            }
            loose.lemma_linked(p, c);
            assert forall|x: Entity| tied.has_entity(x) && x != c implies #[trigger] tied.follows_parent(
                x,
            ) by {
                assert(loose.follows_parent(x));
                assert(loose.parent_linked(x));
            }
            assert forall|q: Scene, x: Entity|
                tied.has_scene(q) && tied.has_entity(x) implies #[trigger] tied.root_agrees(
                q,
                x,
            ) by {
                assert(loose.root_agrees(q, x));
                if x == c {
                    assert(!loose.scene(q).roots.contains(c));
                }
            }
            match self.entity(p).scene {
                Some(s) => {
                    assert forall|x: Entity| #[trigger] group.contains(x) implies tied.has_entity(x)
                        && tied.entity(x).scene is None by {
                        assert(loose.entity(x).scene is None);
                    }
                    tied.lemma_admitted_structured(s, group, Set::empty());
                    tied.lemma_admitted_coherent(s, group);
                    tied.lemma_admitted_under(s, c);
                },
                None => {
                    assert(group.contains(c));
                    assert(loose.entity(c).scene is None);
                    assert(tied.follows_parent(c));
                },
            }
        }
    }
}

} // verus!
