use vstd::prelude::*;
use crate::component_manager::{ComponentManager, ManagerView};
use crate::entity::Entity;
use crate::identifier::Identifier;

verus! {

/// A handle to a component stored in a world.
#[derive(Clone, Copy, Debug, PartialEq, Eq, Structural, Hash)]
pub struct ComponentRef {
    pub index: usize,
}

/// What a world can observe of a component.
pub struct ComponentView {
    /// The component's own type tag.
    pub identifier: Identifier,
    /// The identifier under which the component's manager is registered.
    pub manager_identifier: Identifier,
    /// The entity that the component is attached to, if any.
    pub entity: Option<Entity>,
}

impl ComponentView {
    pub open spec fn with_entity(self, entity: Option<Entity>) -> ComponentView {
        ComponentView { entity, ..self }
    }
}

/// A typed datum that can be attached to an entity.
pub trait Component: Sized {
    /// The manager that aggregates components of this kind.
    type Manager: ComponentManager;

    /// What a world observes of this component.
    spec fn view(&self) -> ComponentView;

    /// The component's own type tag. It never changes.
    fn identifier(&self) -> (id: Identifier)
        ensures
            id == self@.identifier,
    ;

    /// The identifier under which the component's manager is registered. It
    /// never changes. Components of several identifiers may share a manager.
    fn manager_identifier(&self) -> (id: Identifier)
        ensures
            id == self@.manager_identifier,
    ;

    /// Makes the manager for components of this kind. A scene calls this when
    /// the first such component becomes live in it.
    fn new_manager(&self) -> (manager: Self::Manager)
        ensures
            manager@ == ManagerView::fresh(self@.manager_identifier),
    ;

    /// The entity that the component is attached to, if any.
    fn entity(&self) -> (entity: Option<Entity>)
        ensures
            entity == self@.entity,
    ;

    /// Tells the component what it is attached to. An entity calls this when
    /// the component is attached to it or taken off it.
    fn set_entity(&mut self, entity: Option<Entity>)
        ensures
            final(self)@ == old(self)@.with_entity(entity),
    ;
}

} // verus!
