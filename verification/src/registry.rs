use vstd::prelude::*;
use crate::component::ComponentRef;
use crate::component_manager::{ComponentManager, Hook, ManagerView};
use crate::identifier::Identifier;
use crate::scene::Scene;

verus! {

/// One entry of a registry: a manager, the identifier under which it is
/// registered, and whether it has been initialized.
pub(crate) struct Slot<M: ComponentManager> {
    pub(crate) key: Identifier,
    pub(crate) manager: M,
    pub(crate) ready: bool,
}

pub(crate) struct SlotView {
    pub key: Identifier,
    pub manager: ManagerView,
    pub ready: bool,
}

impl<M: ComponentManager> Slot<M> {
    pub(crate) open spec fn view(&self) -> SlotView {
        SlotView { key: self.key, manager: self.manager@, ready: self.ready }
    }
}

/// The managers of one scene, kept in the order of their identifiers.
pub(crate) struct Registry<M: ComponentManager> {
    pub(crate) slots: Vec<Slot<M>>,
}

pub(crate) open spec fn sorted(entries: Seq<SlotView>) -> bool {
    forall|i: int, j: int|
        0 <= i < j < entries.len() ==> (#[trigger] entries[i]).key.below((#[trigger] entries[j]).key)
}

pub(crate) open spec fn holds(entries: Seq<SlotView>, k: Identifier) -> bool {
    exists|i: int| 0 <= i < entries.len() && (#[trigger] entries[i]).key == k
}

pub(crate) open spec fn position(entries: Seq<SlotView>, k: Identifier) -> int {
    choose|i: int| 0 <= i < entries.len() && (#[trigger] entries[i]).key == k
}

pub(crate) open spec fn managers_of(entries: Seq<SlotView>) -> Map<Identifier, ManagerView> {
    Map::new(
        |k: Identifier| holds(entries, k),
        |k: Identifier| entries[position(entries, k)].manager,
    )
}

pub(crate) open spec fn ready_of(entries: Seq<SlotView>) -> Set<Identifier> {
    Set::new(|k: Identifier| holds(entries, k) && entries[position(entries, k)].ready)
}

pub(crate) proof fn lemma_position(entries: Seq<SlotView>, i: int)
    requires
        sorted(entries),
        0 <= i < entries.len(),
    ensures
        holds(entries, entries[i].key),
        position(entries, entries[i].key) == i,
{
    let k = entries[i].key;
    let p = position(entries, k);
    assert(0 <= p < entries.len() && entries[p].key == k);
    if p < i {
        assert(entries[p].key.below(entries[i].key));
    }
    if i < p {
        assert(entries[i].key.below(entries[p].key));
    }
}

/// Entries that keep their keys keep their places.
pub(crate) proof fn lemma_same_keys(entries: Seq<SlotView>, after: Seq<SlotView>)
    requires
        sorted(entries),
        after.len() == entries.len(),
        forall|i: int| 0 <= i < entries.len() ==> (#[trigger] after[i]).key == entries[i].key,
    ensures
        sorted(after),
        forall|k: Identifier| holds(after, k) == holds(entries, k),
        forall|k: Identifier| holds(entries, k) ==> position(after, k) == position(entries, k),
{
    assert(sorted(after)) by {
        assert forall|a: int, b: int| 0 <= a < b < after.len() implies (#[trigger] after[a]).key.below(
            (#[trigger] after[b]).key,
        ) by {
            assert(entries[a].key.below(entries[b].key));
        }
    }
    assert forall|k: Identifier| holds(after, k) == holds(entries, k) by {
        if holds(entries, k) {
            let p = position(entries, k);
            assert(after[p].key == k);
        }
        if holds(after, k) {
            let p = position(after, k);
            assert(entries[p].key == k);
        }
    }
    assert forall|k: Identifier| holds(entries, k) implies position(after, k) == position(
        entries,
        k,
    ) by {
        let p = position(entries, k);
        lemma_position(entries, p);
        assert(after[p].key == k);
        lemma_position(after, p);
    }
}

/// Replacing the entry at `i` by one with the same key rebinds that key and
/// touches nothing else.
pub(crate) proof fn lemma_replaced(entries: Seq<SlotView>, i: int, entry: SlotView)
    requires
        sorted(entries),
        0 <= i < entries.len(),
        entry.key == entries[i].key,
    ensures
        sorted(entries.update(i, entry)),
        managers_of(entries.update(i, entry)) == managers_of(entries).insert(
            entry.key,
            entry.manager,
        ),
        ready_of(entries.update(i, entry)) == if entry.ready {
            ready_of(entries).insert(entry.key)
        } else {
            ready_of(entries).remove(entry.key)
        },
{
    let after = entries.update(i, entry);
    assert(sorted(after)) by {
        assert forall|a: int, b: int| 0 <= a < b < after.len() implies (#[trigger] after[a]).key.below(
            (#[trigger] after[b]).key,
        ) by {
            assert(entries[a].key.below(entries[b].key));
        }
    }
    assert forall|k: Identifier| holds(after, k) == holds(entries, k) by {
        if holds(entries, k) {
            let p = position(entries, k);
            assert(after[p].key == k);
        }
        if holds(after, k) {
            let p = position(after, k);
            assert(entries[p].key == k);
        }
    }
    assert forall|k: Identifier| holds(entries, k) implies position(after, k) == position(
        entries,
        k,
    ) by {
        let p = position(entries, k);
        lemma_position(entries, p);
        assert(after[p].key == k);
        lemma_position(after, p);
    }
    lemma_position(entries, i);
    assert(managers_of(after) =~= managers_of(entries).insert(entry.key, entry.manager));
    if entry.ready {
        assert(ready_of(after) =~= ready_of(entries).insert(entry.key));
    } else {
        assert(ready_of(after) =~= ready_of(entries).remove(entry.key));
    }
}

/// Putting a new key in at its place in the order binds it and touches nothing
/// else.
pub(crate) proof fn lemma_inserted(entries: Seq<SlotView>, i: int, entry: SlotView)
    requires
        sorted(entries),
        0 <= i <= entries.len(),
        !entry.ready,
        forall|j: int| 0 <= j < i ==> (#[trigger] entries[j]).key.below(entry.key),
        forall|j: int| i <= j < entries.len() ==> entry.key.below((#[trigger] entries[j]).key),
    ensures
        sorted(entries.insert(i, entry)),
        !holds(entries, entry.key),
        managers_of(entries.insert(i, entry)) == managers_of(entries).insert(
            entry.key,
            entry.manager,
        ),
        ready_of(entries.insert(i, entry)) == ready_of(entries),
{
    let after = entries.insert(i, entry);
    assert(after.len() == entries.len() + 1);
    assert(after[i] == entry);
    assert forall|j: int| 0 <= j < i implies after[j] == entries[j] by {}
    assert forall|j: int| i < j < after.len() implies after[j] == entries[j - 1] by {}
    assert(sorted(after)) by {
        assert forall|a: int, b: int| 0 <= a < b < after.len() implies (#[trigger] after[a]).key.below(
            (#[trigger] after[b]).key,
        ) by {
            if b < i {
                assert(entries[a].key.below(entries[b].key));
            } else if b == i {
                assert(entries[a].key.below(entry.key));
            } else if a < i {
                assert(entries[a].key.below(entry.key));
                assert(entry.key.below(entries[b - 1].key));
            } else if a == i {
                assert(entry.key.below(entries[b - 1].key));
            } else {
                assert(entries[a - 1].key.below(entries[b - 1].key));
            }
        }
    }
    if holds(entries, entry.key) {
        let p = position(entries, entry.key);
        if p < i {
            assert(entries[p].key.below(entry.key));
        } else {
            assert(entry.key.below(entries[p].key));
        }
        assert(false);
    }
    assert forall|k: Identifier| holds(after, k) == (holds(entries, k) || k == entry.key) by {
        if holds(entries, k) {
            let p = position(entries, k);
            if p < i {
                assert(after[p].key == k);
            } else {
                assert(after[p + 1].key == k);
            }
        }
        if k == entry.key {
            assert(after[i].key == k);
        }
        if holds(after, k) {
            let p = position(after, k);
            if p < i {
                assert(entries[p].key == k);
            } else if p > i {
                assert(entries[p - 1].key == k);
            }
        }
    }
    assert forall|k: Identifier| holds(entries, k) implies after[position(after, k)]
        == entries[position(entries, k)] by {
        let p = position(entries, k);
        lemma_position(entries, p);
        if p < i {
            assert(after[p].key == k);
            lemma_position(after, p);
        } else {
            assert(after[p + 1].key == k);
            lemma_position(after, p + 1);
        }
    }
    lemma_position(after, i);
    assert(managers_of(after) =~= managers_of(entries).insert(entry.key, entry.manager));
    assert(ready_of(after) =~= ready_of(entries));
}

/// Taking the entry at `i` out unbinds its key and touches nothing else.
pub(crate) proof fn lemma_removed(entries: Seq<SlotView>, i: int)
    requires
        sorted(entries),
        0 <= i < entries.len(),
    ensures
        sorted(entries.remove(i)),
        managers_of(entries.remove(i)) == managers_of(entries).remove(entries[i].key),
        ready_of(entries.remove(i)) == ready_of(entries).remove(entries[i].key),
{
    let after = entries.remove(i);
    let gone = entries[i].key;
    assert(after.len() == entries.len() - 1);
    assert forall|j: int| 0 <= j < i implies after[j] == entries[j] by {}
    assert forall|j: int| i <= j < after.len() implies after[j] == entries[j + 1] by {}
    assert(sorted(after)) by {
        assert forall|a: int, b: int| 0 <= a < b < after.len() implies (#[trigger] after[a]).key.below(
            (#[trigger] after[b]).key,
        ) by {
            let a0 = if a < i { a } else { a + 1 };
            let b0 = if b < i { b } else { b + 1 };
            assert(entries[a0].key.below(entries[b0].key));
        }
    }
    lemma_position(entries, i);
    assert forall|k: Identifier| holds(after, k) == (holds(entries, k) && k != gone) by {
        if holds(entries, k) && k != gone {
            let p = position(entries, k);
            if p < i {
                assert(after[p].key == k);
            } else {
                assert(after[p - 1].key == k);
            }
        }
        if holds(after, k) {
            let p = position(after, k);
            let origin = if p < i { p } else { p + 1 };
            assert(entries[origin].key == k);
            lemma_position(entries, origin);
        }
    }
    assert forall|k: Identifier| holds(after, k) implies after[position(after, k)]
        == entries[position(entries, k)] by {
        let p = position(after, k);
        let origin = if p < i { p } else { p + 1 };
        assert(entries[origin].key == k);
        lemma_position(entries, origin);
    }
    assert(managers_of(after) =~= managers_of(entries).remove(gone));
    assert(ready_of(after) =~= ready_of(entries).remove(gone));
}

impl<M: ComponentManager> Registry<M> {
    pub(crate) open spec fn entries(&self) -> Seq<SlotView> {
        self.slots@.map_values(|slot: Slot<M>| slot@)
    }

    /// The entries are in the strict order of their keys, and each manager
    /// carries the identifier it is registered under.
    pub(crate) open spec fn inv(&self) -> bool {
        &&& sorted(self.entries())
        &&& forall|i: int|
            0 <= i < self.entries().len() ==> (#[trigger] self.entries()[i]).manager.identifier
                == self.entries()[i].key
    }

    /// The manager registered under each identifier.
    pub(crate) open spec fn managers(&self) -> Map<Identifier, ManagerView> {
        managers_of(self.entries())
    }

    /// The identifiers whose manager has been initialized.
    pub(crate) open spec fn ready(&self) -> Set<Identifier> {
        ready_of(self.entries())
    }

    pub(crate) fn new() -> (registry: Self)
        ensures
            registry.inv(),
            registry.entries().len() == 0,
            registry.managers() == Map::<Identifier, ManagerView>::empty(),
            registry.ready() == Set::<Identifier>::empty(),
    {
        let registry = Registry { slots: Vec::new() };
        assert(registry.managers() =~= Map::<Identifier, ManagerView>::empty());
        assert(registry.ready() =~= Set::<Identifier>::empty());
        registry
    }

    pub(crate) fn len(&self) -> (n: usize)
        ensures
            n == self.entries().len(),
    {
        self.slots.len()
    }

    pub(crate) fn key_at(&self, i: usize) -> (k: Identifier)
        requires
            self.inv(),
            i < self.entries().len(),
        ensures
            k == self.entries()[i as int].key,
            self.managers().dom().contains(k),
            self.managers()[k] == self.entries()[i as int].manager,
            self.ready().contains(k) == self.entries()[i as int].ready,
    {
        proof {
            lemma_position(self.entries(), i as int);
        }
        self.slots[i].key
    }

    pub(crate) fn is_ready_at(&self, i: usize) -> (b: bool)
        requires
            i < self.entries().len(),
        ensures
            b == self.entries()[i as int].ready,
    {
        self.slots[i].ready
    }

    /// The place of `k` in the order: the index of its entry if it has one,
    /// and else the index at which an entry for it belongs.
    pub(crate) fn search(&self, k: Identifier) -> (r: (usize, bool))
        requires
            self.inv(),
        ensures
            r.0 <= self.entries().len(),
            r.1 == self.managers().dom().contains(k),
            r.1 ==> r.0 < self.entries().len() && self.entries()[r.0 as int].key == k
                && self.managers()[k] == self.entries()[r.0 as int].manager
                && self.ready().contains(k) == self.entries()[r.0 as int].ready,
            forall|j: int| 0 <= j < r.0 ==> (#[trigger] self.entries()[j]).key.below(k),
            !r.1 ==> forall|j: int|
                r.0 <= j < self.entries().len() ==> k.below((#[trigger] self.entries()[j]).key),
    {
        let mut i: usize = 0;
        while i < self.slots.len() && self.slots[i].key.precedes(&k)
            invariant
                i <= self.slots.len(),
                forall|j: int| 0 <= j < i ==> (#[trigger] self.entries()[j]).key.below(k),
            decreases self.slots.len() - i,
        {
            i += 1;
        }
        let ghost entries = self.entries();
        if i < self.slots.len() && self.slots[i].key.same(&k) {
            proof {
                lemma_position(entries, i as int);
            }
            (i, true)
        } else {
            proof {
                assert forall|j: int| i <= j < entries.len() implies k.below(
                    (#[trigger] entries[j]).key,
                ) by {
                    if i < j {
                        assert(entries[i as int].key.below(entries[j].key));
                    }
                }
                if holds(entries, k) {
                    let p = position(entries, k);
                    if p < i {
                        assert(entries[p].key.below(k));
                    } else {
                        assert(k.below(entries[p].key));
                    }
                }
            }
            (i, false)
        }
    }

    /// Registers `manager` under `k`, not yet initialized. `i` is the place
    /// that `search` gave for `k`.
    pub(crate) fn insert_at(&mut self, i: usize, k: Identifier, manager: M)
        requires
            old(self).inv(),
            i <= old(self).entries().len(),
            manager@.identifier == k,
            forall|j: int| 0 <= j < i ==> (#[trigger] old(self).entries()[j]).key.below(k),
            forall|j: int|
                i <= j < old(self).entries().len() ==> k.below(
                    (#[trigger] old(self).entries()[j]).key,
                ),
        ensures
            final(self).inv(),
            final(self).entries() == old(self).entries().insert(
                i as int,
                SlotView { key: k, manager: manager@, ready: false },
            ),
            final(self).managers() == old(self).managers().insert(k, manager@),
            final(self).ready() == old(self).ready(),
    {
        let ghost entry = SlotView { key: k, manager: manager@, ready: false };
        self.slots.insert(i, Slot { key: k, manager, ready: false });
        proof {
            assert(self.entries() =~= old(self).entries().insert(i as int, entry));
            lemma_inserted(old(self).entries(), i as int, entry);
        }
    }

    /// Takes the entry at `i` out and hands its manager back.
    pub(crate) fn remove_at(&mut self, i: usize) -> (manager: M)
        requires
            old(self).inv(),
            i < old(self).entries().len(),
        ensures
            final(self).inv(),
            manager@ == old(self).entries()[i as int].manager,
            final(self).entries() == old(self).entries().remove(i as int),
            final(self).managers() == old(self).managers().remove(
                old(self).entries()[i as int].key,
            ),
            final(self).ready() == old(self).ready().remove(old(self).entries()[i as int].key),
    {
        let slot = self.slots.remove(i);
        proof {
            assert(self.entries() =~= old(self).entries().remove(i as int));
            lemma_removed(old(self).entries(), i as int);
        }
        slot.manager
    }

    pub(crate) fn mark_ready_at(&mut self, i: usize)
        requires
            old(self).inv(),
            i < old(self).entries().len(),
        ensures
            final(self).inv(),
            final(self).entries() == old(self).entries().update(
                i as int,
                SlotView { ready: true, ..old(self).entries()[i as int] },
            ),
            final(self).managers() == old(self).managers(),
            final(self).ready() == old(self).ready().insert(old(self).entries()[i as int].key),
    {
        self.slots[i].ready = true;
        proof {
            let before = old(self).entries();
            let entry = SlotView { ready: true, ..before[i as int] };
            assert(self.entries() =~= before.update(i as int, entry));
            lemma_replaced(before, i as int, entry);
            lemma_position(before, i as int);
            assert(self.managers() =~= old(self).managers());
        }
    }

    pub(crate) fn is_empty_at(&self, i: usize) -> (b: bool)
        requires
            i < self.entries().len(),
        ensures
            b == self.entries()[i as int].manager.vacant(),
    {
        self.slots[i].manager.is_empty()
    }

    pub(crate) fn set_scene_at(&mut self, i: usize, scene: Option<Scene>)
        requires
            old(self).inv(),
            i < old(self).entries().len(),
        ensures
            final(self).inv(),
            final(self).rebound(*old(self), i as int, old(self).entries()[i as int].manager.with_scene(scene)),
    {
        self.slots[i].manager.set_scene(scene);
        proof {
            self.lemma_rebound(*old(self), i as int);
        }
    }

    pub(crate) fn add_component_at(&mut self, i: usize, component: ComponentRef)
        requires
            old(self).inv(),
            i < old(self).entries().len(),
        ensures
            final(self).inv(),
            final(self).rebound(
                *old(self),
                i as int,
                old(self).entries()[i as int].manager.with_component(component),
            ),
    {
        self.slots[i].manager.add_component(component);
        proof {
            self.lemma_rebound(*old(self), i as int);
        }
    }

    pub(crate) fn remove_component_at(&mut self, i: usize, component: ComponentRef)
        requires
            old(self).inv(),
            i < old(self).entries().len(),
        ensures
            final(self).inv(),
            final(self).rebound(
                *old(self),
                i as int,
                old(self).entries()[i as int].manager.without_component(component),
            ),
    {
        self.slots[i].manager.remove_component(component);
        proof {
            self.lemma_rebound(*old(self), i as int);
        }
    }

    /// Makes the lifecycle call `hook` on the manager at `i`.
    pub(crate) fn dispatch_at(&mut self, i: usize, hook: Hook)
        requires
            old(self).inv(),
            i < old(self).entries().len(),
        ensures
            final(self).inv(),
            final(self).rebound(*old(self), i as int, old(self).entries()[i as int].manager.after(hook)),
    {
        match hook {
            Hook::Init => self.slots[i].manager.init(),
            Hook::Update => self.slots[i].manager.update(),
            Hook::Destroy => self.slots[i].manager.destroy(),
        }
        proof {
            self.lemma_rebound(*old(self), i as int);
        }
    }

    /// `self` is `before` with the manager at `i` replaced by one whose view is
    /// `manager`.
    pub(crate) open spec fn rebound(&self, before: Self, i: int, manager: ManagerView) -> bool {
        &&& self.entries() == before.entries().update(
            i,
            SlotView { manager, ..before.entries()[i] },
        )
        &&& self.managers() == before.managers().insert(before.entries()[i].key, manager)
        &&& self.ready() == before.ready()
    }

    pub(crate) proof fn lemma_rebound(&self, before: Self, i: int)
        requires
            before.inv(),
            0 <= i < before.entries().len(),
            self.slots@.len() == before.slots@.len(),
            self.slots@[i].key == before.slots@[i].key,
            self.slots@[i].ready == before.slots@[i].ready,
            self.slots@[i].manager@.identifier == before.slots@[i].manager@.identifier,
            forall|j: int| 0 <= j < before.slots@.len() && j != i ==> self.slots@[j] == before.slots@[j],
        ensures
            self.inv(),
            self.rebound(before, i, self.slots@[i].manager@),
    {
        let entries = before.entries();
        let entry = SlotView { manager: self.slots@[i].manager@, ..entries[i] };
        assert(self.entries() =~= entries.update(i, entry));
        lemma_replaced(entries, i, entry);
        lemma_position(entries, i);
        if entry.ready {
            assert(ready_of(entries).insert(entry.key) =~= ready_of(entries));
        } else {
            assert(ready_of(entries).remove(entry.key) =~= ready_of(entries));
        }
    }
}

} // verus!
