use vstd::prelude::*;

verus! {

/// Taking a member out of a list without repetitions leaves a list without
/// repetitions that holds all the others.
pub proof fn lemma_remove_member<A>(list: Seq<A>, i: int)
    requires
        list.no_duplicates(),
        0 <= i < list.len(),
    ensures
        list.remove(i).no_duplicates(),
        list.index_of(list[i]) == i,
        forall|a: A| #[trigger] list.remove(i).contains(a) == (list.contains(a) && a != list[i]),
{
    let rest = list.remove(i);
    assert forall|j: int, k: int| 0 <= j < rest.len() && 0 <= k < rest.len() && j != k implies rest[j]
        != rest[k] by {
        let j0 = if j < i { j } else { j + 1 };
        let k0 = if k < i { k } else { k + 1 };
        assert(rest[j] == list[j0] && rest[k] == list[k0]);
    }
    assert forall|a: A| #[trigger] rest.contains(a) == (list.contains(a) && a != list[i]) by {
        if rest.contains(a) {
            let j = rest.index_of(a);
            let j0 = if j < i { j } else { j + 1 };
            assert(list[j0] == a);
        }
        if list.contains(a) && a != list[i] {
            let j = list.index_of(a);
            if j < i {
                assert(rest[j] == a);
            } else {
                assert(rest[j - 1] == a);
            }
        }
    }
}

/// Putting a new member at the end of a list without repetitions leaves a
/// list without repetitions that holds it and all the others.
pub proof fn lemma_push_member<A>(list: Seq<A>, a: A)
    requires
        list.no_duplicates(),
        !list.contains(a),
    ensures
        list.push(a).no_duplicates(),
        forall|b: A| #[trigger] list.push(a).contains(b) == (list.contains(b) || b == a),
{
    let more = list.push(a);
    assert forall|b: A| #[trigger] more.contains(b) == (list.contains(b) || b == a) by {
        if more.contains(b) {
            let j = more.index_of(b);
            if j < list.len() {
                assert(list[j] == b);
            }
        }
        if list.contains(b) {
            let j = list.index_of(b);
            assert(more[j] == b);
        }
        if b == a {
            assert(more[list.len() as int] == b);
        }
    }
}

/// A stretch of a list that is one longer holds one member more.
pub proof fn lemma_subrange_one_more<A>(list: Seq<A>, from: int, i: int)
    requires
        0 <= from <= i < list.len(),
    ensures
        list.subrange(from, i + 1).to_set() == list.subrange(from, i).to_set().insert(list[i]),
{
    let more = list.subrange(from, i + 1);
    let less = list.subrange(from, i);
    assert forall|a: A| more.to_set().contains(a) == less.to_set().insert(list[i]).contains(a) by {
        if more.contains(a) {
            let k = more.index_of(a);
            if k < i - from {
                assert(less[k] == a);
            }
        }
        if less.contains(a) {
            let k = less.index_of(a);
            assert(more[k] == a);
        }
        if a == list[i] {
            assert(more[i - from] == a);
        }
    }
    assert(more.to_set() =~= less.to_set().insert(list[i]));
}

/// In a list without repetitions, what follows the first member is all but the
/// first member.
pub proof fn lemma_rest_of_list<A>(list: Seq<A>)
    requires
        list.len() >= 1,
        list.no_duplicates(),
    ensures
        list.subrange(1, list.len() as int).to_set() == list.to_set().remove(list[0]),
{
    let rest = list.subrange(1, list.len() as int);
    assert forall|a: A| rest.to_set().contains(a) == list.to_set().remove(list[0]).contains(a) by {
        if rest.contains(a) {
            let k = rest.index_of(a);
            assert(list[k + 1] == a);
        }
        if list.contains(a) && a != list[0] {
            let k = list.index_of(a);
            assert(rest[k - 1] == a);
        }
    }
    assert(rest.to_set() =~= list.to_set().remove(list[0]));
}

/// The first `j + 1` members of a list are its first `j` members and the one
/// at `j`.
pub proof fn lemma_take_one_more<A>(list: Seq<A>, j: int)
    requires
        0 <= j < list.len(),
    ensures
        list.take(j + 1).to_set() == list.take(j).to_set().insert(list[j]),
{
    let more = list.take(j + 1);
    let less = list.take(j);
    assert forall|a: A| more.to_set().contains(a) == less.to_set().insert(list[j]).contains(a) by {
        if more.contains(a) {
            let i = more.index_of(a);
            if i < j {
                assert(less[i] == a);
            }
        }
        if less.contains(a) {
            let i = less.index_of(a);
            assert(more[i] == a);
        }
        if a == list[j] {
            assert(more[j] == a);
        }
    }
    assert(more.to_set() =~= less.to_set().insert(list[j]));
}

} // verus!
