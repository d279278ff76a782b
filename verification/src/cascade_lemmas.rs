use vstd::prelude::*;
use crate::component::ComponentRef;
use crate::entity::Entity;
use crate::identifier::Identifier;
use crate::model::{EntityView, WorldView};
use crate::scene::Scene;

verus! {

impl WorldView {
    /// The components of a single entity are those that its list names.
    pub proof fn lemma_components_of_one(self, x: Entity)
        requires
            self.has_entity(x),
            self.attached(),
        ensures
            self.components_of(set![x]) == self.entity(x).components.to_set(),
    {
        let listed = self.entity(x).components;
        assert forall|c: ComponentRef| self.components_of(set![x]).contains(c)
            == listed.to_set().contains(c) by {
            if listed.contains(c) {
                let i = listed.index_of(c);
                assert(self.component_listed(x, i));
            }
            if self.components_of(set![x]).contains(c) {
                assert(self.component_held(c));
            }
        }
        assert(self.components_of(set![x]) =~= listed.to_set());
    }

    /// Releasing nobody changes nothing.
    pub proof fn lemma_released_nothing(self, s: Scene)
        requires
            self.has_scene(s),
            self.registry_sound(s),
        ensures
            self.released(s, Set::empty(), Set::empty()) == self,
    {
        let after = self.released(s, Set::empty(), Set::empty());
        assert(self.components_of(Set::empty()).union(Set::empty()) =~= Set::<
            ComponentRef,
        >::empty());
        self.lemma_dismissed_nothing(s);
        assert(after.entities =~= self.entities);
        assert(after.scenes =~= self.scenes);
    }

    /// Unregistering one more component is one more step of a release.
    pub proof fn lemma_released_component(
        self,
        s: Scene,
        group: Set<Entity>,
        extra: Set<ComponentRef>,
        c: ComponentRef,
    )
        requires
            self.has_scene(s),
            self.has_component(c),
            self.registry_sound(s),
        ensures
            self.released(s, group, extra).unregister(s, c) == self.released(
                s,
                group,
                extra.insert(c),
            ),
    {
        let gone = self.components_of(group).union(extra);
        assert(self.components_of(group).union(extra.insert(c)) =~= gone.insert(c));
        self.lemma_dismissed_step(s, gone, c);
        let stepped = self.released(s, group, extra).unregister(s, c);
        let after = self.released(s, group, extra.insert(c));
        assert(stepped.scenes =~= after.scenes);
    }

    /// Once the components of an entity are unregistered, clearing its scene
    /// completes its release.
    pub proof fn lemma_released_entity(self, s: Scene, group: Set<Entity>, x: Entity)
        requires
            self.has_scene(s),
            self.has_entity(x),
            self.attached(),
        ensures
            ({
                let partly = self.released(s, group, self.entity(x).components.to_set());
                partly.with_entity(x, EntityView { scene: None, ..partly.entity(x) })
            }) == self.released(s, group.insert(x), Set::empty()),
    {
        let listed = self.entity(x).components.to_set();
        let partly = self.released(s, group, listed);
        let stepped = partly.with_entity(x, EntityView { scene: None, ..partly.entity(x) });
        let after = self.released(s, group.insert(x), Set::empty());
        self.lemma_components_of_one(x);
        assert(self.components_of(group.insert(x)).union(Set::empty()) =~= self.components_of(
            group,
        ).union(listed)) by {
            assert(self.components_of(group.insert(x)) =~= self.components_of(group).union(
                self.components_of(set![x]),
            ));
        }
        assert(stepped.entities =~= after.entities);
        assert(stepped.scenes =~= after.scenes);
    }

    /// Admitting nobody changes nothing.
    pub proof fn lemma_admitted_nothing(self, s: Scene)
        requires
            self.has_scene(s),
        ensures
            self.admitted(s, Set::empty(), Set::empty()) == self,
    {
        let after = self.admitted(s, Set::empty(), Set::empty());
        assert(self.components_of(Set::empty()).union(Set::empty()) =~= Set::<
            ComponentRef,
        >::empty());
        self.lemma_enrolled_nothing(s);
        assert(after.entities =~= self.entities);
        assert(after.scenes =~= self.scenes);
    }

    /// Registering one more component is one more step of an admission.
    pub proof fn lemma_admitted_component(
        self,
        s: Scene,
        group: Set<Entity>,
        extra: Set<ComponentRef>,
        c: ComponentRef,
    )
        requires
            self.has_scene(s),
            self.has_component(c),
        ensures
            self.admitted(s, group, extra).register(s, c) == self.admitted(
                s,
                group,
                extra.insert(c),
            ),
    {
        let added = self.components_of(group).union(extra);
        assert(self.components_of(group).union(extra.insert(c)) =~= added.insert(c));
        self.lemma_enrolled_step(s, added, c);
        let stepped = self.admitted(s, group, extra).register(s, c);
        let after = self.admitted(s, group, extra.insert(c));
        assert(stepped.scenes =~= after.scenes);
    }

    /// Once the components of an entity are registered, setting its scene
    /// completes its admission.
    pub proof fn lemma_admitted_entity(self, s: Scene, group: Set<Entity>, x: Entity)
        requires
            self.has_scene(s),
            self.has_entity(x),
            self.attached(),
        ensures
            ({
                let partly = self.admitted(s, group, self.entity(x).components.to_set());
                partly.with_entity(x, EntityView { scene: Some(s), ..partly.entity(x) })
            }) == self.admitted(s, group.insert(x), Set::empty()),
    {
        let listed = self.entity(x).components.to_set();
        let partly = self.admitted(s, group, listed);
        let stepped = partly.with_entity(x, EntityView { scene: Some(s), ..partly.entity(x) });
        let after = self.admitted(s, group.insert(x), Set::empty());
        self.lemma_components_of_one(x);
        assert(self.components_of(group.insert(x)).union(Set::empty()) =~= self.components_of(
            group,
        ).union(listed)) by {
            assert(self.components_of(group.insert(x)) =~= self.components_of(group).union(
                self.components_of(set![x]),
            ));
        }
        assert(stepped.entities =~= after.entities);
        assert(stepped.scenes =~= after.scenes);
    }

    /// Releasing in two rounds is releasing everything at once.
    pub proof fn lemma_released_twice(
        self,
        s: Scene,
        group: Set<Entity>,
        extra: Set<ComponentRef>,
        more: Set<Entity>,
        further: Set<ComponentRef>,
    )
        requires
            self.has_scene(s),
            self.registry_sound(s),
        ensures
            self.released(s, group, extra).released(s, more, further) == self.released(
                s,
                group.union(more),
                extra.union(further),
            ),
    {
        let first = self.components_of(group).union(extra);
        let second = self.components_of(more).union(further);
        let middle = self.released(s, group, extra);
        let stepped = middle.released(s, more, further);
        let after = self.released(s, group.union(more), extra.union(further));
        assert(middle.components_of(more) =~= self.components_of(more));
        assert(self.components_of(group.union(more)).union(extra.union(further)) =~= first.union(
            second,
        ));
        self.lemma_dismissed_twice(s, first, second);
        let plain = self.with_scene(s, self.dismissed(s, first));
        assert(middle.dismissed(s, second) == plain.dismissed(s, second)) by {
            assert(middle.scene(s) == plain.scene(s));
            assert(middle.components == plain.components);
            assert forall|k: Identifier| middle.share(second, k) == plain.share(second, k) by {
                assert(middle.share(second, k) =~= plain.share(second, k));
            }
            assert forall|k: Identifier| middle.remainder(s, second, k) == plain.remainder(
                s,
                second,
                k,
            ) by {}
            assert forall|k: Identifier| middle.outlives(s, second, k) == plain.outlives(
                s,
                second,
                k,
            ) by {}
            assert(middle.dismissed(s, second).managers =~= plain.dismissed(s, second).managers);
            assert(middle.dismissed(s, second).ready =~= plain.dismissed(s, second).ready);
            assert(middle.dismissed(s, second).retired =~= plain.dismissed(s, second).retired);
        }
        assert(stepped.entities =~= after.entities);
        assert(stepped.scenes =~= after.scenes);
    }

    /// Admitting in two rounds is admitting everything at once.
    pub proof fn lemma_admitted_twice(
        self,
        s: Scene,
        group: Set<Entity>,
        extra: Set<ComponentRef>,
        more: Set<Entity>,
        further: Set<ComponentRef>,
    )
        requires
            self.has_scene(s),
        ensures
            self.admitted(s, group, extra).admitted(s, more, further) == self.admitted(
                s,
                group.union(more),
                extra.union(further),
            ),
    {
        let first = self.components_of(group).union(extra);
        let second = self.components_of(more).union(further);
        let middle = self.admitted(s, group, extra);
        let stepped = middle.admitted(s, more, further);
        let after = self.admitted(s, group.union(more), extra.union(further));
        assert(middle.components_of(more) =~= self.components_of(more));
        assert(self.components_of(group.union(more)).union(extra.union(further)) =~= first.union(
            second,
        ));
        self.lemma_enrolled_twice(s, first, second);
        let plain = self.with_scene(s, self.enrolled(s, first));
        assert(middle.enrolled(s, second) == plain.enrolled(s, second)) by {
            assert(middle.scene(s) == plain.scene(s));
            assert(middle.components == plain.components);
            assert forall|k: Identifier| middle.share(second, k) == plain.share(second, k) by {
                assert(middle.share(second, k) =~= plain.share(second, k));
            }
            assert forall|k: Identifier| middle.touches(second, k) == plain.touches(second, k) by {}
            assert(middle.enrolled(s, second).managers =~= plain.enrolled(s, second).managers);
            assert(middle.enrolled(s, second).ready =~= plain.enrolled(s, second).ready);
        }
        assert(stepped.entities =~= after.entities);
        assert(stepped.scenes =~= after.scenes);
    }

    /// A release keeps what the next release needs.
    pub proof fn lemma_released_keeps(self, s: Scene, group: Set<Entity>, extra: Set<ComponentRef>)
        requires
            self.has_scene(s),
            self.attached(),
            self.registry_sound(s),
        ensures
            self.released(s, group, extra).attached(),
            self.released(s, group, extra).registry_sound(s),
            self.released(s, group, extra).tree_linked() == self.tree_linked(),
            self.released(s, group, extra).entities.len() == self.entities.len(),
            self.released(s, group, extra).scenes.len() == self.scenes.len(),
            self.released(s, group, extra).components == self.components,
    {
        let after = self.released(s, group, extra);
        let gone = self.components_of(group).union(extra);
        self.lemma_dismissed_sound(s, gone);
        let plain = self.with_scene(s, self.dismissed(s, gone));
        assert(after.scene(s) == plain.scene(s));
        assert(after.components == plain.components);
        assert(after.registry_sound(s));
        self.lemma_same_links(after);
        self.lemma_same_attachments(after);
    }

    /// An admission keeps what the next admission needs.
    pub proof fn lemma_admitted_keeps(self, s: Scene, group: Set<Entity>, extra: Set<ComponentRef>)
        requires
            self.has_scene(s),
            self.attached(),
        ensures
            self.admitted(s, group, extra).attached(),
            self.admitted(s, group, extra).tree_linked() == self.tree_linked(),
            self.admitted(s, group, extra).entities.len() == self.entities.len(),
            self.admitted(s, group, extra).scenes.len() == self.scenes.len(),
            self.admitted(s, group, extra).components == self.components,
    {
        let after = self.admitted(s, group, extra);
        self.lemma_same_links(after);
        self.lemma_same_attachments(after);
    }

    /// Worlds whose entities have the same parents, children and levels have
    /// the same forest.
    pub proof fn lemma_same_links(self, other: WorldView)
        requires
            self.entities.len() == other.entities.len(),
            forall|e: Entity|
                #![trigger other.entity(e)]
                #![trigger self.entity(e)]
                self.has_entity(e) ==> other.entity(e).parent == self.entity(e).parent
                    && other.entity(e).children == self.entity(e).children && other.entity(
                    e,
                ).level == self.entity(e).level,
        ensures
            self.tree_linked() == other.tree_linked(),
    {
        if self.tree_linked() {
            self.lemma_links_carry(other);
        }
        if other.tree_linked() {
            other.lemma_links_carry(self);
        }
    }

    proof fn lemma_links_carry(self, other: WorldView)
        requires
            self.entities.len() == other.entities.len(),
            forall|e: Entity|
                #![trigger other.entity(e)]
                #![trigger self.entity(e)]
                self.has_entity(e) ==> other.entity(e).parent == self.entity(e).parent
                    && other.entity(e).children == self.entity(e).children && other.entity(
                    e,
                ).level == self.entity(e).level,
            self.tree_linked(),
        ensures
            other.tree_linked(),
    {
        assert forall|e: Entity, i: int|
            other.has_entity(e) && 0 <= i < other.entity(e).children.len() implies #[trigger] other.child_linked(
            e,
            i,
        ) by {
            assert(self.child_linked(e, i));
        }
        assert forall|c: Entity| other.has_entity(c) implies #[trigger] other.parent_linked(c) by {
            assert(self.parent_linked(c));
        }
        assert forall|e: Entity| other.has_entity(e) implies (#[trigger] other.entity(
            e,
        ).children.no_duplicates()) by {
            assert(self.entity(e).children.no_duplicates());
        }
    }

    /// Worlds with the same components whose entities list the same
    /// components have the same attachments.
    pub proof fn lemma_same_attachments(self, other: WorldView)
        requires
            self.entities.len() == other.entities.len(),
            self.components == other.components,
            forall|e: Entity|
                #![trigger other.entity(e)]
                #![trigger self.entity(e)]
                self.has_entity(e) ==> other.entity(e).components == self.entity(e).components,
            self.attached(),
        ensures
            other.attached(),
    {
        assert forall|e: Entity, i: int|
            other.has_entity(e) && 0 <= i < other.entity(e).components.len() implies #[trigger] other.component_listed(
            e,
            i,
        ) by {
            assert(self.component_listed(e, i));
        }
        assert forall|c: ComponentRef| other.has_component(c) implies #[trigger] other.component_held(
            c,
        ) by {
            assert(self.component_held(c));
        }
        assert forall|e: Entity, i: int, j: int|
            other.has_entity(e) && 0 <= i < j < other.entity(e).components.len() implies #[trigger] other.kinds_differ(
            e,
            i,
            j,
        ) by {
            assert(self.kinds_differ(e, i, j));
        }
    }

    /// Worlds with the same components that agree on the registry of `s` agree
    /// on whether it is sound.
    pub proof fn lemma_same_registry(self, other: WorldView, s: Scene)
        requires
            self.has_scene(s),
            other.has_scene(s),
            self.components == other.components,
            self.scene(s).managers == other.scene(s).managers,
            self.scene(s).ready == other.scene(s).ready,
            self.scene(s).initialized == other.scene(s).initialized,
            self.scene(s).retired == other.scene(s).retired,
            self.registry_sound(s),
        ensures
            other.registry_sound(s),
    {
        let mine = self.scene(s);
        let theirs = other.scene(s);
        assert forall|k: Identifier| #[trigger] theirs.has_manager(k) implies theirs.managers[k].identifier
            == k && theirs.managers[k].scene == Some(s) && !theirs.managers[k].vacant()
            && theirs.managers[k].in_service(theirs.ready.contains(k)) by {
            assert(mine.has_manager(k));
        }
        assert forall|k: Identifier, i: int|
            theirs.retired.dom().contains(k) && 0 <= i < theirs.retired[k].len() implies (
        #[trigger] theirs.retired[k][i]).at_rest(k) by {
            assert(mine.retired[k][i].at_rest(k));
        }
        assert forall|k: Identifier, c: ComponentRef|
            theirs.has_manager(k) && #[trigger] theirs.managers[k].components.contains(
                c,
            ) implies other.has_component(c) && other.key_of(c) == k by {
            assert(mine.has_manager(k) && mine.managers[k].components.contains(c));
        }
        assert forall|k: Identifier| #[trigger] theirs.ready.contains(k) implies theirs.has_manager(
            k,
        ) by {
            assert(mine.ready.contains(k));
            assert(mine.has_manager(k));
        }
        if theirs.initialized {
            assert forall|k: Identifier| #[trigger] theirs.has_manager(k) implies theirs.ready.contains(
                k,
            ) by {
                assert(mine.has_manager(k));
            }
        }
    }
}

} // verus!
