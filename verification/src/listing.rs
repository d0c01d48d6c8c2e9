//! The children of a directory, in the order in which they are captured.
use crate::order::{before, is_before};
use crate::path::{join, join_name};
use vstd::prelude::*;
use vstd::relations::{sorted_by, total_ordering};

verus! {

/// What the names in `names` are.
pub open spec fn views(names: Seq<Vec<u8>>) -> Seq<Seq<u8>> {
    names.map_values(|name: Vec<u8>| name@)
}

/// The order of names: by their bytes.
pub open spec fn not_after() -> spec_fn(Seq<u8>, Seq<u8>) -> bool {
    |a: Seq<u8>, b: Seq<u8>| !before(b, a)
}

/// `names` in ascending order.
pub open spec fn sorted(names: Seq<Seq<u8>>) -> Seq<Seq<u8>> {
    names.sort_by(not_after())
}

/// The paths of what `names` name in `directory`, in ascending order of the names.
pub open spec fn children_of(directory: Seq<u8>, names: Seq<Seq<u8>>) -> Seq<Seq<u8>> {
    sorted(names).map_values(|name: Seq<u8>| join(directory, name))
}

/// The order of names is total.
pub proof fn not_after_is_total()
    ensures
        total_ordering(not_after()),
{
    let leq = not_after();
    assert forall|a: Seq<u8>| #[trigger] leq(a, a) by {
        crate::order::before_is_irreflexive(a);
    }
    assert forall|a: Seq<u8>, b: Seq<u8>| #[trigger] leq(a, b) && #[trigger] leq(b, a) implies a
        == b by {
        crate::order::before_is_total(a, b);
    }
    assert forall|a: Seq<u8>, b: Seq<u8>, c: Seq<u8>| #[trigger]
        leq(a, b) && #[trigger] leq(b, c) implies leq(a, c) by {
        if before(c, a) {
            crate::order::before_is_total(a, b);
            if before(a, b) {
                crate::order::before_is_transitive(c, a, b);
            }
        }
    }
    assert forall|a: Seq<u8>, b: Seq<u8>| #[trigger] leq(a, b) || #[trigger] leq(b, a) by {
        if before(b, a) && before(a, b) {
            crate::order::before_is_transitive(a, b, a);
            crate::order::before_is_irreflexive(a);
        }
    }
}

/// `sorted(names)` holds the same names as often, in ascending order, and is the only
/// sequence that does.
pub proof fn sorted_is_unique(names: Seq<Seq<u8>>, ordered: Seq<Seq<u8>>)
    ensures
        ordered == sorted(names) <==> sorted_by(ordered, not_after()) && ordered.to_multiset()
            == names.to_multiset(),
{
    not_after_is_total();
    names.lemma_sort_by_ensures(not_after());
    if sorted_by(ordered, not_after()) && ordered.to_multiset() == names.to_multiset() {
        vstd::seq_lib::lemma_sorted_unique(ordered, sorted(names), not_after());
    }
}

/// The names that the indices in `order` pick.
spec fn picked(names: Seq<Vec<u8>>, order: Seq<usize>) -> Seq<Seq<u8>> {
    order.map_values(|i: usize| names[i as int]@)
}

/// Whether each of `order` is an index into `names`.
spec fn in_range(names: Seq<Vec<u8>>, order: Seq<usize>) -> bool {
    forall|k: int| 0 <= k < order.len() ==> (#[trigger] order[k]) < names.len()
}

/// Merges two ascending sequences of indices into one.
fn merge(names: &Vec<Vec<u8>>, left: Vec<usize>, right: Vec<usize>) -> (order: Vec<usize>)
    requires
        in_range(names@, left@),
        in_range(names@, right@),
        sorted_by(picked(names@, left@), not_after()),
        sorted_by(picked(names@, right@), not_after()),
    ensures
        in_range(names@, order@),
        sorted_by(picked(names@, order@), not_after()),
        picked(names@, order@).to_multiset() == picked(names@, left@).to_multiset().add(
            picked(names@, right@).to_multiset(),
        ),
{
    let mut order: Vec<usize> = Vec::new();
    let mut i: usize = 0;
    let mut j: usize = 0;
    let ghost ls = picked(names@, left@);
    let ghost rs = picked(names@, right@);
    let ghost leq = not_after();
    proof {
        broadcast use vstd::seq_lib::group_to_multiset_ensures;
        not_after_is_total();
        assert(picked(names@, order@) =~= Seq::<Seq<u8>>::empty());
        assert(ls.take(0) =~= Seq::<Seq<u8>>::empty());
        assert(rs.take(0) =~= Seq::<Seq<u8>>::empty());
        assert(picked(names@, order@).to_multiset() =~= ls.take(0).to_multiset().add(
            rs.take(0).to_multiset(),
        ));
    }
    while i < left.len() || j < right.len()
        invariant
            i <= left@.len(),
            j <= right@.len(),
            ls == picked(names@, left@),
            rs == picked(names@, right@),
            leq == not_after(),
            total_ordering(leq),
            in_range(names@, left@),
            in_range(names@, right@),
            in_range(names@, order@),
            sorted_by(ls, leq),
            sorted_by(rs, leq),
            sorted_by(picked(names@, order@), leq),
            forall|k: int, l: int|
                0 <= k < order@.len() && i <= l < ls.len() ==> leq(
                    #[trigger] picked(names@, order@)[k],
                    #[trigger] ls[l],
                ),
            forall|k: int, l: int|
                0 <= k < order@.len() && j <= l < rs.len() ==> leq(
                    #[trigger] picked(names@, order@)[k],
                    #[trigger] rs[l],
                ),
            picked(names@, order@).to_multiset() == ls.take(i as int).to_multiset().add(
                rs.take(j as int).to_multiset(),
            ),
        decreases left@.len() - i + right@.len() - j,
    {
        let ghost done = picked(names@, order@);
        let from_left: bool = j == right.len() || (i < left.len() && !is_before(
            names[right[j]].as_slice(),
            names[left[i]].as_slice(),
        ));
        if from_left {
            assert(left@[i as int] < names@.len());
            proof {
                broadcast use vstd::seq_lib::group_to_multiset_ensures;
                assert(ls.take(i + 1) =~= ls.take(i as int).push(ls[i as int]));
                assert(done.push(ls[i as int]).to_multiset() =~= ls.take(i + 1).to_multiset().add(
                    rs.take(j as int).to_multiset(),
                ));
                assert forall|l: int| j <= l < rs.len() implies leq(
                    ls[i as int],
                    #[trigger] rs[l],
                ) by {
                    assert(leq(ls[i as int], rs[j as int]));
                    if l > j {
                        assert(leq(rs[j as int], rs[l]));
                    }
                }
            }
            order.push(left[i]);
            assert(picked(names@, order@) =~= done.push(ls[i as int]));
            i += 1;
        } else {
            assert(right@[j as int] < names@.len());
            proof {
                broadcast use vstd::seq_lib::group_to_multiset_ensures;
                assert(rs.take(j + 1) =~= rs.take(j as int).push(rs[j as int]));
                assert(done.push(rs[j as int]).to_multiset() =~= ls.take(i as int).to_multiset().add(
                    rs.take(j + 1).to_multiset(),
                ));
                assert forall|l: int| i <= l < ls.len() implies leq(
                    rs[j as int],
                    #[trigger] ls[l],
                ) by {
                    assert(leq(rs[j as int], ls[i as int]) || leq(ls[i as int], rs[j as int]));
                    if l > i {
                        assert(leq(ls[i as int], ls[l]));
                    }
                }
            }
            order.push(right[j]);
            assert(picked(names@, order@) =~= done.push(rs[j as int]));
            j += 1;
        }
    }
    proof {
        assert(ls.take(ls.len() as int) =~= ls);
        assert(rs.take(rs.len() as int) =~= rs);
    }
    order
}

/// The indices from `from` to `end`, in ascending order of the names there.
fn sort_range(names: &Vec<Vec<u8>>, from: usize, end: usize) -> (order: Vec<usize>)
    requires
        from <= end <= names@.len(),
    ensures
        in_range(names@, order@),
        sorted_by(picked(names@, order@), not_after()),
        picked(names@, order@).to_multiset() == views(
            names@.subrange(from as int, end as int),
        ).to_multiset(),
    decreases end - from,
{
    let ghost part = views(names@.subrange(from as int, end as int));
    if end - from <= 1 {
        let mut order: Vec<usize> = Vec::new();
        if from < end {
            order.push(from);
        }
        proof {
            not_after_is_total();
            assert(picked(names@, order@) =~= part);
        }
        return order;
    }
    let middle: usize = from + (end - from) / 2;
    let left: Vec<usize> = sort_range(names, from, middle);
    let right: Vec<usize> = sort_range(names, middle, end);
    proof {
        let first = views(names@.subrange(from as int, middle as int));
        let second = views(names@.subrange(middle as int, end as int));
        assert(part =~= first + second);
        vstd::seq_lib::lemma_multiset_commutative(first, second);
    }
    merge(names, left, right)
}

/// The paths of what `names` name in `directory`, in ascending order of the names.
pub fn directory_children(directory: &[u8], names: &Vec<Vec<u8>>) -> (children: Vec<Vec<u8>>)
    ensures
        views(children@) == children_of(directory@, views(names@)),
{
    let order: Vec<usize> = sort_range(names, 0, names.len());
    let ghost ordered = picked(names@, order@);
    proof {
        assert(names@.subrange(0, names@.len() as int) =~= names@);
        sorted_is_unique(views(names@), ordered);
    }
    let mut children: Vec<Vec<u8>> = Vec::new();
    let mut k: usize = 0;
    while k < order.len()
        invariant
            k <= order@.len(),
            in_range(names@, order@),
            ordered == picked(names@, order@),
            children@.len() == k,
            forall|l: int|
                0 <= l < k ==> (#[trigger] children@[l])@ == join(directory@, ordered[l]),
        decreases order@.len() - k,
    {
        assert(order@[k as int] < names@.len());
        children.push(join_name(directory, names[order[k]].as_slice()));
        k += 1;
    }
    assert(views(children@) =~= children_of(directory@, views(names@)));
    children
}

/// Names say their bytes, each of them.
pub proof fn names_say_their_bytes(names: Seq<Vec<u8>>)
    ensures
        views(names).len() == names.len(),
        forall|i: int| 0 <= i < names.len() ==> views(names)[i] == (#[trigger] names[i])@,
{
}

/// Every name that is listed has its child, as often as it is listed, and nothing else has
/// one; no child stands before one whose name comes earlier.
pub proof fn every_name_has_its_child(directory: Seq<u8>, names: Seq<Seq<u8>>) -> (ordered: Seq<
    Seq<u8>,
>)
    ensures
        ordered.to_multiset() == names.to_multiset(),
        ordered.len() == names.len(),
        forall|i: int, j: int|
            0 <= i < j < ordered.len() ==> !before(#[trigger] ordered[j], #[trigger] ordered[i]),
        children_of(directory, names).len() == names.len(),
        forall|i: int|
            0 <= i < names.len() ==> #[trigger] children_of(directory, names)[i] == join(
                directory,
                ordered[i],
            ),
{
    let ordered = sorted(names);
    sorted_is_unique(names, ordered);
    not_after_is_total();
    names.lemma_sort_by_ensures(not_after());
    assert(ordered.len() == names.len()) by {
        broadcast use vstd::seq_lib::group_to_multiset_ensures;
        assert(ordered.to_multiset().len() == names.to_multiset().len());
    }
    assert forall|i: int, j: int| 0 <= i < j < ordered.len() implies !before(
        #[trigger] ordered[j],
        #[trigger] ordered[i],
    ) by {
        let leq = not_after();
        assert(leq(ordered[i], ordered[j]));
    }
    ordered
}

} // verus!
