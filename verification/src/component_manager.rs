use vstd::prelude::*;
use crate::component::ComponentRef;
use crate::identifier::Identifier;
use crate::scene::Scene;

verus! {

/// A lifecycle call that a scene makes on a manager.
#[derive(Clone, Copy, Debug, PartialEq, Eq, Structural, Hash)]
pub enum Hook {
    Init,
    Update,
    Destroy,
}

/// How often `hook` occurs in `history`.
pub open spec fn occurrences(history: Seq<Hook>, hook: Hook) -> nat
    decreases history.len(),
{
    if history.len() == 0 {
        0
    } else {
        occurrences(history.drop_last(), hook) + if history.last() == hook {
            1nat
        } else {
            0nat
        }
    }
}

/// One more call is one more occurrence of that call and of no other.
pub proof fn lemma_occurrences_push(history: Seq<Hook>, added: Hook, hook: Hook)
    ensures
        occurrences(history.push(added), hook) == occurrences(history, hook) + if added == hook {
            1nat
        } else {
            0nat
        },
{
    assert(history.push(added).drop_last() =~= history);
}

/// What a scene can observe of a manager.
pub struct ManagerView {
    /// The manager's type tag.
    pub identifier: Identifier,
    /// The scene that owns the manager, if any.
    pub scene: Option<Scene>,
    /// The components that the manager holds.
    pub components: Set<ComponentRef>,
    /// The lifecycle calls that the manager has received, oldest first.
    pub history: Seq<Hook>,
}

impl ManagerView {
    /// A manager as its factory hands it out: unowned, empty and never called.
    pub open spec fn fresh(identifier: Identifier) -> ManagerView {
        ManagerView {
            identifier,
            scene: None,
            components: Set::empty(),
            history: Seq::empty(),
        }
    }

    /// No component is held.
    pub open spec fn vacant(self) -> bool {
        forall|c: ComponentRef| !self.components.contains(c)
    }

    pub open spec fn with_scene(self, scene: Option<Scene>) -> ManagerView {
        ManagerView { scene, ..self }
    }

    pub open spec fn with_component(self, component: ComponentRef) -> ManagerView {
        ManagerView { components: self.components.insert(component), ..self }
    }

    pub open spec fn without_component(self, component: ComponentRef) -> ManagerView {
        ManagerView { components: self.components.remove(component), ..self }
    }

    pub open spec fn after(self, hook: Hook) -> ManagerView {
        ManagerView { history: self.history.push(hook), ..self }
    }

    /// How many calls of `hook` the manager has received.
    pub open spec fn received(self, hook: Hook) -> nat {
        occurrences(self.history, hook)
    }

    /// The manager is in the service of a scene that has marked it
    /// initialized or not, as `ready` says: it has received `init` once if it
    /// is marked and never if it is not, and never `destroy`.
    pub open spec fn in_service(self, ready: bool) -> bool {
        &&& self.received(Hook::Init) == if ready {
            1nat
        } else {
            0nat
        }
        &&& self.received(Hook::Destroy) == 0
    }

    /// The manager was destroyed under identifier `k` and dropped: it is
    /// empty and unowned, the last call it received was `destroy`, the only
    /// such call, and it received `init` once at most.
    pub open spec fn at_rest(self, k: Identifier) -> bool {
        &&& self.identifier == k
        &&& self.scene is None
        &&& self.vacant()
        &&& self.history.len() > 0
        &&& self.history.last() == Hook::Destroy
        &&& self.received(Hook::Destroy) == 1
        &&& self.received(Hook::Init) <= 1
    }

    /// What is left of a manager that its scene has destroyed and dropped.
    pub open spec fn retired(self) -> ManagerView {
        ManagerView {
            scene: None,
            components: Set::empty(),
            history: self.history.push(Hook::Destroy),
            ..self
        }
    }
}

/// The aggregator of all live components of one kind in a scene.
///
/// A scene drives its managers through this interface only. Whatever else an
/// implementation keeps is its own business; the clauses below fix what the
/// scene relies on: the identifier is stable, membership changes only through
/// `add_component` and `remove_component`, and each lifecycle call is recorded
/// in the history.
pub trait ComponentManager: Sized {
    /// What the scene observes of this manager.
    spec fn view(&self) -> ManagerView;

    /// The manager's type tag. It never changes.
    fn identifier(&self) -> (id: Identifier)
        ensures
            id == self@.identifier,
    ;

    /// The scene that owns the manager, if any.
    fn scene(&self) -> (scene: Option<Scene>)
        ensures
            scene == self@.scene,
    ;

    /// Tells the manager who owns it. A scene calls this when it has made the
    /// manager, and again when it has destroyed it.
    fn set_scene(&mut self, scene: Option<Scene>)
        ensures
            final(self)@ == old(self)@.with_scene(scene),
    ;

    /// Whether the manager holds no component.
    fn is_empty(&self) -> (b: bool)
        ensures
            b == self@.vacant(),
    ;

    /// Takes the component in. Adding one that is already held changes nothing
    /// that the scene observes.
    fn add_component(&mut self, component: ComponentRef)
        ensures
            final(self)@ == old(self)@.with_component(component),
    ;

    /// Lets the component go. Removing one that is not held changes nothing
    /// that the scene observes.
    fn remove_component(&mut self, component: ComponentRef)
        ensures
            final(self)@ == old(self)@.without_component(component),
    ;

    /// Sets the manager up. A scene calls this once on each manager: when the
    /// scene is initialized, or when the manager joins an initialized scene.
    fn init(&mut self)
        ensures
            final(self)@ == old(self)@.after(Hook::Init),
    ;

    /// Advances the manager by one tick of its scene.
    fn update(&mut self)
        ensures
            final(self)@ == old(self)@.after(Hook::Update),
    ;

    /// Releases what the manager holds. A scene calls this once, when the
    /// last component has left the manager, and then drops the manager.
    fn destroy(&mut self)
        ensures
            final(self)@ == old(self)@.after(Hook::Destroy),
    ;
}

} // verus!
