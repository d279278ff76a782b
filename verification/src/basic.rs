use vstd::prelude::*;
use crate::component::{Component, ComponentRef, ComponentView};
use crate::component_manager::{occurrences, ComponentManager, Hook, ManagerView};
use crate::entity::Entity;
use crate::identifier::Identifier;
use crate::scene::Scene;

verus! {

/// A count as a counter that stops at its largest value shows it.
pub open spec fn shown(count: nat) -> u64 {
    if count <= u64::MAX {
        count as u64
    } else {
        u64::MAX
    }
}

/// The lifecycle calls that a manager has received, and how many of each.
pub struct Tally {
    inits: u64,
    updates: u64,
    destroys: u64,
    history: Ghost<Seq<Hook>>,
}

impl Tally {
    #[verifier::type_invariant]
    spec fn counted(self) -> bool {
        &&& self.inits == shown(occurrences(self.history@, Hook::Init))
        &&& self.updates == shown(occurrences(self.history@, Hook::Update))
        &&& self.destroys == shown(occurrences(self.history@, Hook::Destroy))
    }

    /// The calls, oldest first.
    pub closed spec fn view(&self) -> Seq<Hook> {
        self.history@
    }

    /// A tally of no calls.
    pub fn new() -> (tally: Tally)
        ensures
            tally@ == Seq::<Hook>::empty(),
    {
        Tally { inits: 0, updates: 0, destroys: 0, history: Ghost(Seq::empty()) }
    }

    /// How many calls of `hook` were received; a count beyond the largest
    /// `u64` shows as that.
    pub fn count(&self, hook: Hook) -> (n: u64)
        ensures
            n == shown(occurrences(self@, hook)),
    {
        proof {
            use_type_invariant(self);
        }
        match hook {
            Hook::Init => self.inits,
            Hook::Update => self.updates,
            Hook::Destroy => self.destroys,
        }
    }

    /// Records one more call of `hook`.
    pub fn record(&mut self, hook: Hook)
        ensures
            final(self)@ == old(self)@.push(hook),
    {
        proof {
            use_type_invariant(&*self);
            assert(self.history@.push(hook).drop_last() =~= self.history@);
        }
        let inits = if hook == Hook::Init && self.inits < u64::MAX {
            self.inits + 1
        } else {
            self.inits
        };
        let updates = if hook == Hook::Update && self.updates < u64::MAX {
            self.updates + 1
        } else {
            self.updates
        };
        let destroys = if hook == Hook::Destroy && self.destroys < u64::MAX {
            self.destroys + 1
        } else {
            self.destroys
        };
        *self = Tally { inits, updates, destroys, history: Ghost(self.history@.push(hook)) };
    }
}

/// A manager that keeps the roster of its components and counts the lifecycle
/// calls it receives.
pub struct Roster {
    identifier: Identifier,
    scene: Option<Scene>,
    members: Vec<ComponentRef>,
    tally: Tally,
}

impl Roster {
    /// An empty roster for components whose manager identifier is
    /// `identifier`.
    pub fn new(identifier: Identifier) -> (roster: Roster)
        ensures
            roster@ == ManagerView::fresh(identifier),
    {
        let roster = Roster { identifier, scene: None, members: Vec::new(), tally: Tally::new() };
        assert(roster.members@.to_set() =~= Set::<ComponentRef>::empty());
        roster
    }

    /// Whether the roster holds `component`.
    pub fn contains(&self, component: ComponentRef) -> (b: bool)
        ensures
            b == self@.components.contains(component),
    {
        let mut i: usize = 0;
        while i < self.members.len()
            invariant
                i <= self.members@.len(),
                forall|k: int| 0 <= k < i ==> self.members@[k] != component,
            decreases self.members@.len() - i,
        {
            if self.members[i] == component {
                return true;
            }
            i += 1;
        }
        false
    }

    /// How many calls of `hook` the roster has received; a count beyond the
    /// largest `u64` shows as that.
    pub fn count(&self, hook: Hook) -> (n: u64)
        ensures
            n == shown(occurrences(self@.history, hook)),
    {
        self.tally.count(hook)
    }
}

impl ComponentManager for Roster {
    closed spec fn view(&self) -> ManagerView {
        ManagerView {
            identifier: self.identifier,
            scene: self.scene,
            components: self.members@.to_set(),
            history: self.tally@,
        }
    }

    fn identifier(&self) -> (id: Identifier) {
        self.identifier
    }

    fn scene(&self) -> (scene: Option<Scene>) {
        self.scene
    }

    fn set_scene(&mut self, scene: Option<Scene>) {
        self.scene = scene;
    }

    fn is_empty(&self) -> (b: bool) {
        proof {
            if self.members@.len() > 0 {
                assert(self.members@.contains(self.members@[0]));
                assert(self@.components.contains(self.members@[0]));
            } else {
                assert forall|c: ComponentRef| !self@.components.contains(c) by {
                    assert(!self.members@.contains(c));
                }
            }
        }
        self.members.len() == 0
    }

    fn add_component(&mut self, component: ComponentRef) {
        self.members.push(component);
        proof {
            let before = old(self).members@;
            assert forall|c: ComponentRef| self.members@.to_set().contains(c)
                == before.to_set().insert(component).contains(c) by {
                if self.members@.contains(c) {
                    let i = self.members@.index_of(c);
                    if i < before.len() {
                        assert(before[i] == c);
                    }
                }
                if before.contains(c) {
                    let i = before.index_of(c);
                    assert(self.members@[i] == c);
                }
                if c == component {
                    assert(self.members@[before.len() as int] == c);
                }
            }
            assert(self.members@.to_set() =~= before.to_set().insert(component));
        }
    }

    fn remove_component(&mut self, component: ComponentRef) {
        let ghost before = self.members@;
        let mut i: usize = 0;
        while i < self.members.len()
            invariant
                i <= self.members@.len(),
                self.identifier == old(self).identifier,
                self.scene == old(self).scene,
                self.tally == old(self).tally,
                before == old(self).members@,
                forall|k: int| 0 <= k < i ==> self.members@[k] != component,
                forall|c: ComponentRef|
                    c != component ==> self.members@.contains(c) == before.contains(c),
                forall|k: int|
                    0 <= k < self.members@.len() ==> before.contains(#[trigger] self.members@[k]),
            decreases self.members@.len() - i,
        {
            if self.members[i] == component {
                let ghost now = self.members@;
                self.members.remove(i);
                proof {
                    let after = self.members@;
                    assert forall|c: ComponentRef| c != component implies after.contains(c)
                        == before.contains(c) by {
                        if now.contains(c) {
                            let k = now.index_of(c);
                            if k < i {
                                assert(after[k] == c);
                            } else {
                                assert(after[k - 1] == c);
                            }
                        }
                        if after.contains(c) {
                            let k = after.index_of(c);
                            if k < i {
                                assert(now[k] == c);
                            } else {
                                assert(now[k + 1] == c);
                            }
                        }
                    }
                    assert forall|k: int| 0 <= k < after.len() implies before.contains(
                        #[trigger] after[k],
                    ) by {
                        if k < i {
                            assert(after[k] == now[k]);
                        } else {
                            assert(after[k] == now[k + 1]);
                        }
                    }
                }
            } else {
                i += 1;
            }
        }
        proof {
            assert(self.members@.to_set() =~= before.to_set().remove(component));
        }
    }

    fn init(&mut self) {
        self.tally.record(Hook::Init);
    }

    fn update(&mut self) {
        self.tally.record(Hook::Update);
    }

    fn destroy(&mut self) {
        self.tally.record(Hook::Destroy);
    }
}

/// A component that carries nothing but its kind.
pub struct Tag {
    identifier: Identifier,
    manager_identifier: Identifier,
    entity: Option<Entity>,
}

impl Tag {
    /// An unattached component with identifier `identifier`, for the manager
    /// registered under `manager_identifier`.
    pub fn new(identifier: Identifier, manager_identifier: Identifier) -> (tag: Tag)
        ensures
            tag@ == (ComponentView { identifier, manager_identifier, entity: None }),
    {
        Tag { identifier, manager_identifier, entity: None }
    }
}

impl Component for Tag {
    type Manager = Roster;

    closed spec fn view(&self) -> ComponentView {
        ComponentView {
            identifier: self.identifier,
            manager_identifier: self.manager_identifier,
            entity: self.entity,
        }
    }

    fn identifier(&self) -> (id: Identifier) {
        self.identifier
    }

    fn manager_identifier(&self) -> (id: Identifier) {
        self.manager_identifier
    }

    fn new_manager(&self) -> (manager: Roster) {
        Roster::new(self.manager_identifier)
    }

    fn entity(&self) -> (entity: Option<Entity>) {
        self.entity
    }

    fn set_entity(&mut self, entity: Option<Entity>) {
        self.entity = entity;
    }
}

} // verus!
