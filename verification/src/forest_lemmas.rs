use vstd::prelude::*;
use crate::entity::Entity;
use crate::model::WorldView;

verus! {

impl WorldView {
    /// An entity descends from itself.
    pub proof fn lemma_descends_self(self, x: Entity)
        ensures
            self.descends(x, x),
    {
        assert(self.ancestor(x, 0) == Some(x));
    }

    /// A child descends from whatever its parent descends from.
    pub proof fn lemma_descends_child(self, c: Entity, p: Entity, e: Entity)
        requires
            self.has_entity(c),
            self.entity(c).parent == Some(p),
            self.descends(p, e),
        ensures
            self.descends(c, e),
    {
        let n = choose|n: nat| self.ancestor(p, n) == Some(e);
        assert(self.ancestor(c, n + 1) == Some(e));
    }

    /// Whatever descends from `e` and is not `e` has a parent that descends
    /// from `e`.
    pub proof fn lemma_descends_parent(self, x: Entity, e: Entity)
        requires
            self.descends(x, e),
            x != e,
        ensures
            self.has_entity(x),
            self.entity(x).parent is Some,
            self.descends(self.entity(x).parent->0, e),
    {
        let n = choose|n: nat| self.ancestor(x, n) == Some(e);
        assert(n != 0);
        assert(self.ancestor(self.entity(x).parent->0, (n - 1) as nat) == Some(e));
    }

    proof fn lemma_ancestor_level(self, x: Entity, e: Entity, n: nat)
        requires
            self.tree_linked(),
            self.has_entity(x),
            self.ancestor(x, n) == Some(e),
        ensures
            self.has_entity(e),
            self.entity(e).level <= self.entity(x).level,
            x != e ==> self.entity(e).level < self.entity(x).level,
        decreases n,
    {
        if n > 0 {
            let p = self.entity(x).parent->0;
            assert(self.parent_linked(x));
            self.lemma_ancestor_level(p, e, (n - 1) as nat);
        }
    }

    /// The level of an entity is above that of everything it descends from.
    pub proof fn lemma_descends_level(self, x: Entity, e: Entity)
        requires
            self.tree_linked(),
            self.has_entity(x),
            self.descends(x, e),
        ensures
            self.has_entity(e),
            self.entity(e).level <= self.entity(x).level,
            x != e ==> self.entity(e).level < self.entity(x).level,
    {
        let n = choose|n: nat| self.ancestor(x, n) == Some(e);
        self.lemma_ancestor_level(x, e, n);
    }

    proof fn lemma_ancestor_agrees(self, other: WorldView, e: Entity, x: Entity, n: nat)
        requires
            self.entities.len() == other.entities.len(),
            forall|y: Entity|
                #![trigger other.entity(y)]
                #![trigger self.entity(y)]
                self.has_entity(y) && y != e ==> other.entity(y).parent == self.entity(y).parent,
            self.ancestor(x, n) == Some(e),
        ensures
            other.descends(x, e),
        decreases n,
    {
        if n == 0 || x == e {
            other.lemma_descends_self(e);
        } else {
            let p = self.entity(x).parent->0;
            self.lemma_ancestor_agrees(other, e, p, (n - 1) as nat);
            other.lemma_descends_child(x, p, e);
        }
    }

    /// Worlds that agree on the parent of every entity but `e` agree on the
    /// subtree of `e`.
    pub proof fn lemma_subtree_agrees(self, other: WorldView, e: Entity)
        requires
            self.entities.len() == other.entities.len(),
            forall|y: Entity|
                #![trigger other.entity(y)]
                #![trigger self.entity(y)]
                self.has_entity(y) && y != e ==> other.entity(y).parent == self.entity(y).parent,
        ensures
            self.subtree(e) == other.subtree(e),
    {
        assert forall|x: Entity| self.subtree(e).contains(x) == other.subtree(e).contains(x) by {
            if self.has_entity(x) && self.descends(x, e) {
                let n = choose|n: nat| self.ancestor(x, n) == Some(e);
                self.lemma_ancestor_agrees(other, e, x, n);
            }
            if other.has_entity(x) && other.descends(x, e) {
                let n = choose|n: nat| other.ancestor(x, n) == Some(e);
                other.lemma_ancestor_agrees(self, e, x, n);
            }
        }
        assert(self.subtree(e) =~= other.subtree(e));
    }

    proof fn lemma_ancestor_listed(self, list: Seq<Entity>, e: Entity, x: Entity, n: nat)
        requires
            self.tree_linked(),
            list.contains(e),
            forall|k: int, i: int|
                0 <= k < list.len() && 0 <= i < self.entity(list[k]).children.len()
                    ==> list.contains(#[trigger] self.entity(list[k]).children[i]),
            self.has_entity(x),
            self.ancestor(x, n) == Some(e),
        ensures
            list.contains(x),
        decreases n,
    {
        if n > 0 {
            let p = self.entity(x).parent->0;
            assert(self.parent_linked(x));
            self.lemma_ancestor_listed(list, e, p, (n - 1) as nat);
            let k = list.index_of(p);
            let i = self.entity(p).children.index_of(x);
            assert(list.contains(self.entity(list[k]).children[i]));
        }
    }

    /// A list that starts from `e`, holds only descendants of `e` and holds the
    /// children of each of its members is the subtree of `e`.
    pub proof fn lemma_listed_subtree(self, list: Seq<Entity>, e: Entity)
        requires
            self.tree_linked(),
            list.contains(e),
            forall|k: int|
                0 <= k < list.len() ==> self.has_entity(#[trigger] list[k]) && self.descends(
                    list[k],
                    e,
                ),
            forall|k: int, i: int|
                0 <= k < list.len() && 0 <= i < self.entity(list[k]).children.len()
                    ==> list.contains(#[trigger] self.entity(list[k]).children[i]),
        ensures
            list.to_set() == self.subtree(e),
    {
        assert forall|x: Entity| self.subtree(e).contains(x) implies list.contains(x) by {
            let n = choose|n: nat| self.ancestor(x, n) == Some(e);
            self.lemma_ancestor_listed(list, e, x, n);
        }
        assert(list.to_set() =~= self.subtree(e));
    }
}

/// A list without repetitions of entities of a world is no longer than the
/// world has entities.
pub proof fn lemma_distinct_bounded(list: Seq<Entity>, n: nat)
    requires
        list.no_duplicates(),
        forall|k: int| 0 <= k < list.len() ==> (#[trigger] list[k]).index < n,
    ensures
        list.len() <= n,
{
    let places = list.map_values(|e: Entity| e.index as int);
    assert(places.no_duplicates()) by {
        assert forall|i: int, j: int|
            0 <= i < places.len() && 0 <= j < places.len() && i != j implies places[i]
            != places[j] by {
            assert(list[i] != list[j]);
        }
    }
    places.unique_seq_to_set();
    vstd::set_lib::lemma_int_range(0, n as int);
    assert(places.to_set().subset_of(vstd::set_lib::set_int_range(0, n as int))) by {
        assert forall|p: int| places.to_set().contains(p) implies vstd::set_lib::set_int_range(
            0,
            n as int,
        ).contains(p) by {
            let k = places.index_of(p);
            assert(list[k].index < n);
        }
    }
    vstd::set_lib::lemma_len_subset(places.to_set(), vstd::set_lib::set_int_range(0, n as int));
}

} // verus!
