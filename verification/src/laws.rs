use vstd::prelude::*;
use crate::component::{ComponentRef, ComponentView};
use crate::component_manager::{Hook, ManagerView};
use crate::entity::Entity;
use crate::identifier::Identifier;
use crate::model::{among, WorldView};
use crate::scene::Scene;

verus! {

/// An entity that is attached to a scene it did not live in becomes a root of
/// that scene and of no other, has no parent, and lives in the scene. No
/// entity or scene comes or goes.
pub proof fn attached_entity_is_a_root(w: WorldView, s: Scene, e: Entity)
    requires
        w.wf(),
        w.has_scene(s),
        w.has_entity(e),
    ensures
        w.add_entity(s, e).wf(),
        w.add_entity(s, e).entities.len() == w.entities.len(),
        w.add_entity(s, e).scenes.len() == w.scenes.len(),
        w.add_entity(s, e).entity(e).scene == Some(s),
        w.entity(e).scene != Some(s) ==> w.add_entity(s, e).entity(e).parent is None
            && w.add_entity(s, e).scene(s).roots == w.detached(e).scene(s).roots.push(e),
{
    let after = w.add_entity(s, e);
    w.lemma_add_entity_wf(s, e);
    if w.entity(e).scene != Some(s) {
        w.lemma_detached(e);
        w.lemma_descends_self(e);
        assert(among(w.subtree(e), e.index as int));
    }
}

/// An entity that is attached to one scene and then to another is a root of
/// the second and not of the first.
pub proof fn entity_moves_to_the_last_scene(w: WorldView, first: Scene, second: Scene, e: Entity)
    requires
        w.wf(),
        w.has_scene(first),
        w.has_scene(second),
        w.has_entity(e),
        first != second,
    ensures
        !w.add_entity(first, e).add_entity(second, e).scene(first).roots.contains(e),
        w.add_entity(first, e).add_entity(second, e).scene(second).roots.contains(e),
{
    let middle = w.add_entity(first, e);
    let after = middle.add_entity(second, e);
    attached_entity_is_a_root(w, first, e);
    attached_entity_is_a_root(middle, second, e);
    assert(after.root_agrees(first, e));
    assert(after.root_agrees(second, e));
}

/// Attaching an entity to the scene it lives in changes nothing; so attaching
/// an entity twice is attaching it once, and the roots hold it once.
pub proof fn attaching_twice_is_attaching_once(w: WorldView, s: Scene, e: Entity)
    requires
        w.wf(),
        w.has_scene(s),
        w.has_entity(e),
    ensures
        w.entity(e).scene == Some(s) ==> w.add_entity(s, e) == w,
        w.add_entity(s, e).add_entity(s, e) == w.add_entity(s, e),
        w.add_entity(s, e).scene(s).roots.no_duplicates(),
{
    attached_entity_is_a_root(w, s, e);
}

/// Removing a root from its scene takes the root and all its descendants out
/// of the scene, leaves every other entity where it lives, and leaves the
/// forest as it is.
pub proof fn removal_cascades_and_keeps_the_tree(w: WorldView, s: Scene, e: Entity)
    requires
        w.wf(),
        w.has_scene(s),
        w.has_entity(e),
        w.scene(s).roots.contains(e),
    ensures
        w.remove_entity(s, e).wf(),
        w.remove_entity(s, e).entities.len() == w.entities.len(),
        forall|x: Entity|
            w.has_entity(x) ==> (#[trigger] w.remove_entity(s, e).entity(x)).parent == w.entity(
                x,
            ).parent && w.remove_entity(s, e).entity(x).children == w.entity(x).children,
        forall|x: Entity|
            w.has_entity(x) ==> (#[trigger] w.remove_entity(s, e).entity(x)).scene == if w.descends(
                x,
                e,
            ) {
                None
            } else {
                w.entity(x).scene
            },
        forall|x: Entity|
            w.has_entity(x) && w.descends(x, e) ==> !(#[trigger] w.remove_entity(
                s,
                e,
            ).scene(s).roots.contains(x)),
{
    let after = w.remove_entity(s, e);
    w.lemma_remove_entity_wf(s, e);
    assert forall|x: Entity| w.has_entity(x) implies (#[trigger] after.entity(x)).scene
        == if w.descends(x, e) {
        None
    } else {
        w.entity(x).scene
    } by {
        assert(among(w.subtree(e), x.index as int) == w.descends(x, e));
    }
    assert forall|x: Entity| w.has_entity(x) && w.descends(x, e) implies !(#[trigger] after.scene(
        s,
    ).roots.contains(x)) by {
        assert(after.root_agrees(s, x));
        assert(among(w.subtree(e), x.index as int));
    }
}

/// With a grandparent that is a root of a scene, a parent under it and a
/// child under the parent: once the grandparent is removed from the scene,
/// none of the three is a root of the scene or lives in it, and the child is
/// still a child of the parent, the parent still a child of the grandparent.
pub proof fn removal_detaches_three_levels(
    w: WorldView,
    s: Scene,
    grandparent: Entity,
    parent: Entity,
    child: Entity,
)
    requires
        w.wf(),
        w.has_scene(s),
        w.has_entity(grandparent),
        w.has_entity(parent),
        w.has_entity(child),
        w.scene(s).roots.contains(grandparent),
        w.entity(parent).parent == Some(grandparent),
        w.entity(child).parent == Some(parent),
    ensures
        !w.remove_entity(s, grandparent).scene(s).roots.contains(grandparent),
        !w.remove_entity(s, grandparent).scene(s).roots.contains(parent),
        !w.remove_entity(s, grandparent).scene(s).roots.contains(child),
        w.remove_entity(s, grandparent).entity(grandparent).scene is None,
        w.remove_entity(s, grandparent).entity(parent).scene is None,
        w.remove_entity(s, grandparent).entity(child).scene is None,
        w.remove_entity(s, grandparent).entity(parent).children.contains(child),
        w.remove_entity(s, grandparent).entity(grandparent).children.contains(parent),
{
    let after = w.remove_entity(s, grandparent);
    removal_cascades_and_keeps_the_tree(w, s, grandparent);
    w.lemma_descends_self(grandparent);
    w.lemma_descends_child(parent, grandparent, grandparent);
    w.lemma_descends_child(child, parent, grandparent);
    assert(w.parent_linked(parent));
    assert(w.parent_linked(child));
    let _ = after.entity(grandparent);
    let _ = after.entity(parent);
    let _ = after.entity(child);
}

/// The first component of a kind that is attached to an entity of an
/// initialized scene brings a manager into the scene's registry that holds
/// this component alone, is owned by the scene, is marked initialized and has
/// received one call, `init`.
pub proof fn first_component_initializes_its_manager(
    w: WorldView,
    s: Scene,
    e: Entity,
    c: ComponentRef,
    component: ComponentView,
)
    requires
        w.wf(),
        w.has_entity(e),
        w.entity(e).scene == Some(s),
        w.scene(s).initialized,
        c.index == w.components.len(),
        !w.holds_kind(e, component.identifier),
        !w.scene(s).has_manager(component.manager_identifier),
    ensures
        w.attach(e, c, component).wf(),
        w.attach(e, c, component).scene(s).has_manager(component.manager_identifier),
        w.attach(e, c, component).scene(s).ready.contains(component.manager_identifier),
        w.attach(e, c, component).scene(s).managers[component.manager_identifier] == (ManagerView {
            identifier: component.manager_identifier,
            scene: Some(s),
            components: set![c],
            history: seq![Hook::Init],
        }),
{
    let k = component.manager_identifier;
    let after = w.attach(e, c, component);
    w.lemma_attach_wf(e, c, component);
    assert(w.scene_known(e));
    assert(w.registry_sound(s));
    assert(!w.scene(s).ready.contains(k));
    assert(after.scene(s).managers[k].components =~= set![c]);
    assert(after.scene(s).managers[k].history =~= seq![Hook::Init]);
}

/// Taking the last component of a kind off an entity of a scene destroys the
/// manager of that kind: it leaves the registry, its initialization mark is
/// cleared, and the record of the managers destroyed under its identifier
/// grows by this one, whose last call, the only one it received since, is
/// `destroy`.
pub proof fn last_component_destroys_its_manager(w: WorldView, s: Scene, e: Entity, id: Identifier)
    requires
        w.wf(),
        w.has_entity(e),
        w.entity(e).scene == Some(s),
        w.holds_kind(e, id),
        w.scene(s).managers[w.key_of(w.component_of(e, id))].components == set![
            w.component_of(e, id),
        ],
    ensures
        w.unattach(e, id).wf(),
        w.scene(s).has_manager(w.key_of(w.component_of(e, id))),
        !w.unattach(e, id).scene(s).has_manager(w.key_of(w.component_of(e, id))),
        !w.unattach(e, id).scene(s).ready.contains(w.key_of(w.component_of(e, id))),
        w.unattach(e, id).scene(s).retired_of(w.key_of(w.component_of(e, id))) == w.scene(
            s,
        ).retired_of(w.key_of(w.component_of(e, id))).push(
            ManagerView {
                identifier: w.key_of(w.component_of(e, id)),
                scene: None,
                components: Set::empty(),
                history: w.scene(s).managers[w.key_of(w.component_of(e, id))].history.push(
                    Hook::Destroy,
                ),
            },
        ),
{
    let i = w.kind_position(e, id);
    let c = w.component_of(e, id);
    let k = w.key_of(c);
    let after = w.unattach(e, id);
    w.lemma_unattach_wf(e, id);
    assert(w.scene_known(e));
    assert(w.component_listed(e, i));
    assert(w.registered(s, c) <==> w.live_in(s, c));
    assert(w.registry_sound(s));
    let rest = w.scene(s).managers[k].without_component(c);
    assert(rest.vacant());
}

/// A manager that was destroyed is initialized again when a component of its
/// kind joins the scene later: the new manager has received one call, `init`,
/// whatever the destroyed one had received.
pub proof fn destroyed_manager_is_initialized_again(
    w: WorldView,
    s: Scene,
    e: Entity,
    id: Identifier,
    c: ComponentRef,
    component: ComponentView,
)
    requires
        w.wf(),
        w.has_entity(e),
        w.entity(e).scene == Some(s),
        w.scene(s).initialized,
        w.holds_kind(e, id),
        w.scene(s).managers[w.key_of(w.component_of(e, id))].components == set![
            w.component_of(e, id),
        ],
        component.identifier == id,
        component.manager_identifier == w.key_of(w.component_of(e, id)),
        c.index == w.components.len(),
    ensures
        !w.unattach(e, id).scene(s).has_manager(component.manager_identifier),
        w.unattach(e, id).attach(e, c, component).wf(),
        w.unattach(e, id).attach(e, c, component).scene(s).managers[component.manager_identifier].history
            == seq![Hook::Init],
        w.unattach(e, id).attach(e, c, component).scene(s).ready.contains(
            component.manager_identifier,
        ),
{
    let gone = w.unattach(e, id);
    let i = w.kind_position(e, id);
    last_component_destroys_its_manager(w, s, e, id);
    w.lemma_kind_position(e, i);
    assert(w.scene_known(e));
    assert(w.component_listed(e, i));
    assert(!gone.holds_kind(e, id)) by {
        if gone.holds_kind(e, id) {
            let j = gone.kind_position(e, id);
            let listed = w.entity(e).components;
            let j0 = if j < i { j } else { j + 1 };
            assert(gone.entity(e).components[j] == listed[j0]);
            assert(w.component_listed(e, j0));
            if j0 < i {
                assert(w.kinds_differ(e, j0, i));
            } else {
                assert(w.kinds_differ(e, i, j0));
            }
        }
    }
    assert(gone.entity(e).scene == Some(s));
    assert(gone.scene(s).initialized);
    assert(gone.components.len() == w.components.len());
    first_component_initializes_its_manager(gone, s, e, c, component);
}

/// Initializing a scene twice is initializing it once: the second call finds
/// every manager initialized and calls none.
pub proof fn initializing_twice_is_initializing_once(w: WorldView, s: Scene)
    requires
        w.wf(),
        w.has_scene(s),
    ensures
        w.init(s).wf(),
        w.init(s).scene(s).initialized,
        w.init(s).scene(s).ready == w.scene(s).managers.dom(),
        w.init(s).init(s) == w.init(s),
{
    let once = w.init(s);
    let twice = once.init(s);
    w.lemma_init_wf(s);
    assert(w.registry_sound(s));
    assert(once.scene(s).ready =~= w.scene(s).managers.dom());
    assert(twice.scene(s).managers =~= once.scene(s).managers);
    assert(twice.scene(s).ready =~= once.scene(s).ready);
    assert(twice.scenes =~= once.scenes);
}

/// Every manager in the registry of a scene holds a component, has received
/// `init` once if it is marked initialized and never if it is not, and has
/// never received `destroy`. In an initialized scene every manager is marked.
pub proof fn registered_managers_are_initialized_once(w: WorldView, s: Scene, k: Identifier)
    requires
        w.wf(),
        w.has_scene(s),
        w.scene(s).has_manager(k),
    ensures
        !w.scene(s).managers[k].vacant(),
        w.scene(s).initialized ==> w.scene(s).ready.contains(k),
        w.scene(s).managers[k].received(Hook::Init) == if w.scene(s).ready.contains(k) {
            1nat
        } else {
            0nat
        },
        w.scene(s).managers[k].received(Hook::Destroy) == 0,
{
    assert(w.registry_sound(s));
}

/// Every manager that a scene has destroyed was empty, received `destroy`
/// once, as its last call, and had received `init` once at most.
pub proof fn destroyed_managers_are_destroyed_once(w: WorldView, s: Scene, k: Identifier, i: int)
    requires
        w.wf(),
        w.has_scene(s),
        0 <= i < w.scene(s).retired_of(k).len(),
    ensures
        w.scene(s).retired_of(k)[i].at_rest(k),
{
    assert(w.registry_sound(s));
}

/// The parentless entity that `x` descends from.
pub open spec fn top(w: WorldView, x: Entity) -> Entity
    decreases w.entity(x).level,
{
    if w.tree_linked() && w.has_entity(x) && w.entity(x).parent is Some {
        let p = w.entity(x).parent->0;
        if w.entity(p).level < w.entity(x).level {
            top(w, p)
        } else {
            x
        }
    } else {
        x
    }
}

/// Every entity descends from a parentless entity, and lives where that one
/// lives.
pub proof fn every_entity_has_a_top(w: WorldView, x: Entity)
    requires
        w.wf(),
        w.has_entity(x),
    ensures
        w.has_entity(top(w, x)),
        w.entity(top(w, x)).parent is None,
        w.descends(x, top(w, x)),
        w.entity(x).scene == w.entity(top(w, x)).scene,
    decreases w.entity(x).level,
{
    assert(w.parent_linked(x));
    assert(w.follows_parent(x));
    if w.entity(x).parent is Some {
        let p = w.entity(x).parent->0;
        every_entity_has_a_top(w, p);
        w.lemma_descends_child(x, p, top(w, p));
    } else {
        w.lemma_descends_self(x);
    }
}

/// An entity lives in a scene exactly if it is a root of the scene or
/// descends from one.
pub proof fn living_in_a_scene_is_descending_from_a_root(w: WorldView, s: Scene, x: Entity)
    requires
        w.wf(),
        w.has_scene(s),
        w.has_entity(x),
    ensures
        w.entity(x).scene == Some(s) <==> exists|r: Entity|
            w.scene(s).roots.contains(r) && w.descends(x, r),
{
    every_entity_has_a_top(w, x);
    assert(w.root_agrees(s, top(w, x)));
    if exists|r: Entity| w.scene(s).roots.contains(r) && w.descends(x, r) {
        let r = choose|r: Entity| w.scene(s).roots.contains(r) && w.descends(x, r);
        w.lemma_subtree_scene(r);
        assert(w.subtree(r).contains(x));
        let i = w.scene(s).roots.index_of(r);
        assert(w.has_entity(w.scene(s).roots[i]));
        assert(w.root_agrees(s, r));
    }
}

} // verus!
