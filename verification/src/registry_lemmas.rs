use vstd::prelude::*;
use crate::component::ComponentRef;
use crate::component_manager::{lemma_occurrences_push, Hook, ManagerView};
use crate::identifier::Identifier;
use crate::model::WorldView;
use crate::scene::Scene;

verus! {

impl WorldView {
    /// Removing nothing leaves a sound registry as it is.
    pub proof fn lemma_dismissed_nothing(self, s: Scene)
        requires
            self.has_scene(s),
            self.registry_sound(s),
        ensures
            self.dismissed(s, Set::empty()) == self.scene(s),
    {
        let scene = self.scene(s);
        let after = self.dismissed(s, Set::empty());
        assert forall|k: Identifier| scene.has_manager(k) implies self.outlives(
            s,
            Set::empty(),
            k,
        ) && self.remainder(s, Set::empty(), k) == scene.managers[k].components by {
            assert(!scene.managers[k].vacant());
            let c = choose|c: ComponentRef| scene.managers[k].components.contains(c);
            assert(self.remainder(s, Set::empty(), k).contains(c));
            assert(self.remainder(s, Set::empty(), k) =~= scene.managers[k].components);
        }
        assert(after.managers =~= scene.managers);
        assert(after.ready =~= scene.ready);
        assert(after.retired =~= scene.retired);
    }

    /// Removing one more component from a registry is one more step of
    /// `unregister`.
    pub proof fn lemma_dismissed_step(self, s: Scene, gone: Set<ComponentRef>, c: ComponentRef)
        requires
            self.has_scene(s),
            self.has_component(c),
            self.registry_sound(s),
        ensures
            self.dismissed(s, gone).without_component(self.key_of(c), c) == self.dismissed(
                s,
                gone.insert(c),
            ),
    {
        let scene = self.scene(s);
        let k = self.key_of(c);
        let more = gone.insert(c);
        let before = self.dismissed(s, gone);
        let stepped = before.without_component(k, c);
        let after = self.dismissed(s, more);
        assert forall|j: Identifier| j != k implies self.remainder(s, more, j) == self.remainder(
            s,
            gone,
            j,
        ) && self.outlives(s, more, j) == self.outlives(s, gone, j) by {
            assert(self.share(more, j) =~= self.share(gone, j));
        }
        assert(self.remainder(s, more, k) =~= self.remainder(s, gone, k).remove(c));
        if self.outlives(s, gone, k) {
            let rest = before.managers[k].without_component(c);
            assert(rest.components == self.remainder(s, more, k));
            if rest.vacant() {
                assert(!self.outlives(s, more, k));
                assert(before.retired_of(k) == scene.retired_of(k));
                assert(rest.retired() == scene.managers[k].retired());
            } else {
                let d = choose|d: ComponentRef| rest.components.contains(d);
                assert(self.remainder(s, more, k).contains(d));
                assert(self.outlives(s, more, k));
            }
        } else {
            if self.outlives(s, more, k) {
                let d = choose|d: ComponentRef| self.remainder(s, more, k).contains(d);
                assert(self.remainder(s, gone, k).contains(d));
            }
        }
        assert(stepped.managers =~= after.managers);
        assert(stepped.ready =~= after.ready);
        assert(stepped.retired =~= after.retired);
    }

    /// Adding nothing leaves a registry as it is.
    pub proof fn lemma_enrolled_nothing(self, s: Scene)
        requires
            self.has_scene(s),
        ensures
            self.enrolled(s, Set::empty()) == self.scene(s),
    {
        let scene = self.scene(s);
        let after = self.enrolled(s, Set::empty());
        assert forall|k: Identifier| !self.touches(Set::empty(), k) by {}
        assert(after.managers =~= scene.managers);
        assert(after.ready =~= scene.ready);
    }

    /// Adding one more component to a registry is one more step of `register`.
    pub proof fn lemma_enrolled_step(self, s: Scene, added: Set<ComponentRef>, c: ComponentRef)
        requires
            self.has_scene(s),
            self.has_component(c),
        ensures
            self.enrolled(s, added).with_component(s, self.key_of(c), c) == self.enrolled(
                s,
                added.insert(c),
            ),
    {
        let scene = self.scene(s);
        let k = self.key_of(c);
        let more = added.insert(c);
        let before = self.enrolled(s, added);
        let stepped = before.with_component(s, k, c);
        let after = self.enrolled(s, more);
        assert forall|j: Identifier| j != k implies self.share(more, j) == self.share(added, j)
            && self.touches(more, j) == self.touches(added, j) by {
            assert(self.share(more, j) =~= self.share(added, j));
        }
        assert(self.share(more, k) =~= self.share(added, k).insert(c));
        assert(self.share(more, k).contains(c));
        assert(self.touches(more, k));
        let base = if scene.has_manager(k) {
            scene.managers[k]
        } else {
            ManagerView::fresh(k).with_scene(Some(s))
        };
        assert(after.managers[k].components =~= stepped.managers[k].components) by {
            if self.touches(added, k) {
                assert(before.managers[k].components == base.components.union(
                    self.share(added, k),
                ));
            } else {
                assert(self.share(added, k) =~= Set::empty()) by {
                    if exists|d: ComponentRef| self.share(added, k).contains(d) {
                        assert(self.touches(added, k));
                    }
                }
            }
        }
        assert(stepped.managers =~= after.managers);
        assert(stepped.ready =~= after.ready);
    }

    /// A sound registry stays sound when components are removed from it.
    pub proof fn lemma_dismissed_sound(self, s: Scene, gone: Set<ComponentRef>)
        requires
            self.has_scene(s),
            self.registry_sound(s),
        ensures
            self.with_scene(s, self.dismissed(s, gone)).registry_sound(s),
    {
        let after = self.with_scene(s, self.dismissed(s, gone));
        let scene = after.scene(s);
        let was = self.scene(s);
        assert forall|k: Identifier| #[trigger] scene.has_manager(k) implies !scene.managers[k].vacant()
            && scene.managers[k].in_service(scene.ready.contains(k)) by {
            let c = choose|c: ComponentRef| self.remainder(s, gone, k).contains(c);
            assert(scene.managers[k].components.contains(c));
            assert(was.has_manager(k));
        }
        assert forall|k: Identifier, i: int|
            scene.retired.dom().contains(k) && 0 <= i < scene.retired[k].len() implies (
        #[trigger] scene.retired[k][i]).at_rest(k) by {
            if was.has_manager(k) && !self.outlives(s, gone, k) {
                if i == was.retired_of(k).len() {
                    lemma_occurrences_push(was.managers[k].history, Hook::Destroy, Hook::Destroy);
                    lemma_occurrences_push(was.managers[k].history, Hook::Destroy, Hook::Init);
                } else {
                    assert(was.retired[k][i].at_rest(k));
                }
            } else {
                assert(was.retired[k][i].at_rest(k));
            }
        }
        assert forall|k: Identifier, c: ComponentRef|
            scene.has_manager(k) && #[trigger] scene.managers[k].components.contains(
                c,
            ) implies after.has_component(c) && after.key_of(c) == k by {
            assert(self.scene(s).managers[k].components.contains(c));
        }
    }

    /// Removing components in two rounds is removing all of them at once.
    pub proof fn lemma_dismissed_twice(
        self,
        s: Scene,
        first: Set<ComponentRef>,
        second: Set<ComponentRef>,
    )
        requires
            self.has_scene(s),
            self.registry_sound(s),
        ensures
            self.with_scene(s, self.dismissed(s, first)).dismissed(s, second) == self.dismissed(
                s,
                first.union(second),
            ),
    {
        let scene = self.scene(s);
        let both = first.union(second);
        let middle = self.with_scene(s, self.dismissed(s, first));
        let stepped = middle.dismissed(s, second);
        let after = self.dismissed(s, both);
        assert forall|k: Identifier| self.share(both, k) == self.share(first, k).union(
            self.share(second, k),
        ) by {
            assert(self.share(both, k) =~= self.share(first, k).union(self.share(second, k)));
        }
        assert forall|k: Identifier| middle.share(second, k) == self.share(second, k) by {
            assert(middle.share(second, k) =~= self.share(second, k));
        }
        assert forall|k: Identifier| self.outlives(s, first, k) implies middle.remainder(
            s,
            second,
            k,
        ) == self.remainder(s, both, k) by {
            assert(middle.remainder(s, second, k) =~= self.remainder(s, both, k));
        }
        assert forall|k: Identifier| middle.outlives(s, second, k) == self.outlives(
            s,
            both,
            k,
        ) by {
            if middle.outlives(s, second, k) {
                let c = choose|c: ComponentRef| middle.remainder(s, second, k).contains(c);
                assert(self.remainder(s, both, k).contains(c));
            }
            if self.outlives(s, both, k) {
                let c = choose|c: ComponentRef| self.remainder(s, both, k).contains(c);
                assert(self.remainder(s, first, k).contains(c));
                assert(self.outlives(s, first, k));
                assert(middle.remainder(s, second, k).contains(c));
            }
        }
        assert(stepped.managers =~= after.managers);
        assert(stepped.ready =~= after.ready);
        assert forall|k: Identifier| stepped.retired.dom().contains(k) implies #[trigger] stepped.retired[k]
            == after.retired[k] by {
            if scene.has_manager(k) && !self.outlives(s, first, k) {
                assert(!middle.scene(s).has_manager(k));
            } else if scene.has_manager(k) && !self.outlives(s, both, k) {
                assert(middle.scene(s).managers[k].retired() == scene.managers[k].retired());
                assert(middle.scene(s).retired_of(k) == scene.retired_of(k));
            }
        }
        assert(stepped.retired =~= after.retired);
    }

    /// Adding components in two rounds is adding all of them at once.
    pub proof fn lemma_enrolled_twice(
        self,
        s: Scene,
        first: Set<ComponentRef>,
        second: Set<ComponentRef>,
    )
        requires
            self.has_scene(s),
        ensures
            self.with_scene(s, self.enrolled(s, first)).enrolled(s, second) == self.enrolled(
                s,
                first.union(second),
            ),
    {
        let scene = self.scene(s);
        let both = first.union(second);
        let middle = self.with_scene(s, self.enrolled(s, first));
        let stepped = middle.enrolled(s, second);
        let after = self.enrolled(s, both);
        assert forall|k: Identifier| self.share(both, k) == self.share(first, k).union(
            self.share(second, k),
        ) by {
            assert(self.share(both, k) =~= self.share(first, k).union(self.share(second, k)));
        }
        assert forall|k: Identifier| middle.share(second, k) == self.share(second, k) by {
            assert(middle.share(second, k) =~= self.share(second, k));
        }
        assert forall|k: Identifier| self.touches(both, k) == (self.touches(first, k)
            || self.touches(second, k)) by {
            if self.touches(both, k) {
                let c = choose|c: ComponentRef| self.share(both, k).contains(c);
                if first.contains(c) {
                    assert(self.share(first, k).contains(c));
                } else {
                    assert(self.share(second, k).contains(c));
                }
            }
            if self.touches(first, k) {
                let c = choose|c: ComponentRef| self.share(first, k).contains(c);
                assert(self.share(both, k).contains(c));
            }
            if self.touches(second, k) {
                let c = choose|c: ComponentRef| self.share(second, k).contains(c);
                assert(self.share(both, k).contains(c));
            }
        }
        assert forall|k: Identifier| middle.touches(second, k) == self.touches(second, k) by {}
        assert forall|k: Identifier| !self.touches(first, k) implies self.share(first, k)
            == Set::<ComponentRef>::empty() by {
            assert(self.share(first, k) =~= Set::<ComponentRef>::empty());
        }
        assert forall|k: Identifier| !self.touches(second, k) implies self.share(second, k)
            == Set::<ComponentRef>::empty() by {
            assert(self.share(second, k) =~= Set::<ComponentRef>::empty());
        }
        assert forall|k: Identifier| stepped.managers.dom().contains(k) implies #[trigger] stepped.managers[k]
            == after.managers[k] by {
            assert(stepped.managers[k].components =~= after.managers[k].components);
        }
        assert(stepped.managers =~= after.managers);
        assert(stepped.ready =~= after.ready);
    }
}

} // verus!
