//! Where in a tree a record stands.
use crate::budget::Limits;
use crate::entries::{with_all_keeps_other_keys, Record};
use crate::keys::{
    are_names, are_utf8_names, keys_are_told_apart, names_lead_elsewhere, same_path,
};
use crate::path::{key_of, path_below};
use crate::tree::{capture, capture_children, names_of, replies, walks_node, Child, Node};
use crate::walk::{StepView, WalkView};
use vstd::prelude::*;

verus! {

/// A node that is not a directory, or is one that cannot be listed, and the names that
/// lead to it from the root.
pub struct Leaf {
    pub names: Seq<Seq<u8>>,
    pub node: Node,
}

/// The leaves of `node`, to which `names` lead, in the order of a walk.
pub open spec fn leaves(names: Seq<Seq<u8>>, node: Node) -> Seq<Leaf>
    decreases node, 0nat,
{
    match node {
        Node::Directory { children, .. } => leaves_of_children(names, children, 0),
        _ => seq![Leaf { names, node }],
    }
}

/// The leaves of `children`, from the one at `from` on.
pub open spec fn leaves_of_children(
    names: Seq<Seq<u8>>,
    children: Seq<Child>,
    from: nat,
) -> Seq<Leaf>
    decreases children, children.len() - from,
{
    if from >= children.len() {
        seq![]
    } else {
        let child = children[from as int];
        leaves(names.push(child.name), child.node) + leaves_of_children(names, children, from + 1)
    }
}

/// The key of `leaf` in a capture of `root`.
pub open spec fn leaf_key(root: Seq<u8>, leaf: Leaf) -> Seq<char> {
    key_of(root, path_below(root, leaf.names))
}

/// Whether every name in `node` is one step of a path.
pub open spec fn has_names(node: Node) -> bool
    decreases node,
{
    match node {
        Node::Directory { children, .. } => are_names(names_of(children)) && forall|i: int|
            0 <= i < children.len() ==> has_names((#[trigger] children[i]).node),
        _ => true,
    }
}

/// Whether every name in `node` is written in UTF-8.
pub open spec fn has_utf8_names(node: Node) -> bool
    decreases node,
{
    match node {
        Node::Directory { children, .. } => are_utf8_names(names_of(children)) && forall|i: int|
            0 <= i < children.len() ==> has_utf8_names((#[trigger] children[i]).node),
        _ => true,
    }
}

/// Whether no directory in `node` holds a name twice.
pub open spec fn has_distinct_names(node: Node) -> bool
    decreases node,
{
    match node {
        Node::Directory { children, .. } => names_of(children).no_duplicates() && forall|i: int|
            0 <= i < children.len() ==> has_distinct_names((#[trigger] children[i]).node),
        _ => true,
    }
}

/// Whether `records` have the keys of `leaves`, one for each.
pub open spec fn are_records_of(records: Seq<Record>, leaves: Seq<Leaf>, root: Seq<u8>) -> bool {
    &&& records.len() == leaves.len()
    &&& forall|i: int|
        0 <= i < records.len() ==> (#[trigger] records[i]).0 == leaf_key(root, leaves[i])
}

/// Every leaf gets one record under its key, in the order of the walk, and nothing else
/// gets one.
pub proof fn leaves_get_the_records(
    root: Seq<u8>,
    names: Seq<Seq<u8>>,
    node: Node,
    limits: Limits,
    remaining: nat,
)
    ensures
        are_records_of(
            capture(root, path_below(root, names), node, limits, remaining).0,
            leaves(names, node),
            root,
        ),
{
    records_stand_at_the_leaves(root, root, names, node, limits, remaining);
}

/// Whether `longer` begins with `names`.
pub open spec fn leads_through(names: Seq<Seq<u8>>, longer: Seq<Seq<u8>>) -> bool {
    names.len() <= longer.len() && forall|i: int|
        0 <= i < names.len() ==> longer[i] == #[trigger] names[i]
}

/// Whether a leaf with the names `longer` is one of `child` in the directory to which
/// `names` lead.
spec fn is_in_child(names: Seq<Seq<u8>>, child: Child, longer: Seq<Seq<u8>>) -> bool {
    leads_through(names, longer) && longer.len() > names.len() && longer[names.len() as int]
        == child.name
}

/// A leaf lies in the tree of which it is one: its names begin with those that lead to the
/// tree, and go on where that is a directory that can be listed.
pub proof fn leaves_are_inside(names: Seq<Seq<u8>>, node: Node)
    ensures
        forall|i: int|
            0 <= i < leaves(names, node).len() ==> {
                let leaf = #[trigger] leaves(names, node)[i];
                &&& leads_through(names, leaf.names)
                &&& node is Directory ==> leaf.names.len() > names.len()
            },
    decreases node, 0nat,
{
    if let Node::Directory { children, .. } = node {
        leaves_are_inside_children(names, children, 0);
        assert forall|i: int| 0 <= i < leaves(names, node).len() implies {
            let leaf = #[trigger] leaves(names, node)[i];
            &&& leads_through(names, leaf.names)
            &&& leaf.names.len() > names.len()
        } by {
            let leaf = leaves_of_children(names, children, 0)[i];
            let j = choose|j: int|
                0 <= j < children.len() && is_in_child(names, #[trigger] children[j], leaf.names);
            assert(is_in_child(names, children[j], leaf.names));
        }
    }
}

/// The names of a leaf below a directory name the child in which it is.
proof fn leaves_are_inside_children(names: Seq<Seq<u8>>, children: Seq<Child>, from: nat)
    ensures
        forall|i: int|
            0 <= i < leaves_of_children(names, children, from).len() ==> exists|j: int|
                from <= j < children.len() && is_in_child(
                    names,
                    #[trigger] children[j],
                    (#[trigger] leaves_of_children(names, children, from)[i]).names,
                ),
    decreases children, children.len() - from,
{
    if from < children.len() {
        let child = children[from as int];
        let down = names.push(child.name);
        let first = leaves(down, child.node);
        let rest = leaves_of_children(names, children, from + 1);
        leaves_are_inside(down, child.node);
        leaves_are_inside_children(names, children, from + 1);
        assert forall|i: int| 0 <= i < leaves_of_children(names, children, from).len() implies exists|
            j: int,
        |
            from <= j < children.len() && is_in_child(
                names,
                #[trigger] children[j],
                (#[trigger] leaves_of_children(names, children, from)[i]).names,
            ) by {
            let leaf = leaves_of_children(names, children, from)[i];
            if i < first.len() {
                assert(leaf == first[i]);
                assert(leaf.names[names.len() as int] == down[names.len() as int]);
                assert forall|k: int| 0 <= k < names.len() implies leaf.names[k]
                    == #[trigger] names[k] by {
                    assert(down[k] == names[k]);
                }
                assert(is_in_child(names, children[from as int], leaf.names));
            } else {
                assert(leaf == rest[i - first.len()]);
            }
        }
    }
}

/// The names of a leaf are written in UTF-8 where all names in the tree are.
pub(crate) proof fn leaves_have_utf8_names(names: Seq<Seq<u8>>, node: Node)
    requires
        are_utf8_names(names),
        has_utf8_names(node),
    ensures
        forall|i: int|
            0 <= i < leaves(names, node).len() ==> are_utf8_names(
                (#[trigger] leaves(names, node)[i]).names,
            ),
    decreases node, 0nat,
{
    if let Node::Directory { children, .. } = node {
        leaves_of_children_have_utf8_names(names, children, 0);
    }
}

/// The same of the children of a directory.
proof fn leaves_of_children_have_utf8_names(names: Seq<Seq<u8>>, children: Seq<Child>, from: nat)
    requires
        are_utf8_names(names),
        are_utf8_names(names_of(children)),
        forall|i: int| 0 <= i < children.len() ==> has_utf8_names((#[trigger] children[i]).node),
    ensures
        forall|i: int|
            0 <= i < leaves_of_children(names, children, from).len() ==> are_utf8_names(
                (#[trigger] leaves_of_children(names, children, from)[i]).names,
            ),
    decreases children, children.len() - from,
{
    if from < children.len() {
        let child = children[from as int];
        assert(names_of(children)[from as int] == child.name);
        leaves_have_utf8_names(names.push(child.name), child.node);
        leaves_of_children_have_utf8_names(names, children, from + 1);
    }
}

/// Whether none of `leaves` lies at another one or below it.
pub open spec fn are_told_apart(leaves: Seq<Leaf>) -> bool {
    forall|i: int, j: int|
        0 <= i < leaves.len() && 0 <= j < leaves.len() && i != j ==> !leads_through(
            (#[trigger] leaves[i]).names,
            (#[trigger] leaves[j]).names,
        )
}

/// Where no directory holds a name twice, no leaf lies at another one or below it.
pub proof fn leaves_are_told_apart(names: Seq<Seq<u8>>, node: Node)
    requires
        has_distinct_names(node),
    ensures
        are_told_apart(leaves(names, node)),
    decreases node, 0nat,
{
    if let Node::Directory { children, .. } = node {
        leaves_of_children_are_told_apart(names, children, 0);
    }
}

/// The same of the children of a directory.
proof fn leaves_of_children_are_told_apart(names: Seq<Seq<u8>>, children: Seq<Child>, from: nat)
    requires
        names_of(children).no_duplicates(),
        forall|i: int| 0 <= i < children.len() ==> has_distinct_names((#[trigger] children[i]).node),
    ensures
        are_told_apart(leaves_of_children(names, children, from)),
    decreases children, children.len() - from,
{
    if from < children.len() {
        let child = children[from as int];
        let down = names.push(child.name);
        let at = names.len() as int;
        let first = leaves(down, child.node);
        let rest = leaves_of_children(names, children, from + 1);
        let all = leaves_of_children(names, children, from);
        assert(names_of(children)[from as int] == child.name);
        leaves_are_told_apart(down, child.node);
        leaves_of_children_are_told_apart(names, children, from + 1);
        leaves_are_inside(down, child.node);
        leaves_are_inside_children(names, children, from + 1);
        assert forall|i: int, j: int| 0 <= i < first.len() && 0 <= j < rest.len() implies {
            let a = (#[trigger] first[i]).names;
            let b = (#[trigger] rest[j]).names;
            !leads_through(a, b) && !leads_through(b, a)
        } by {
            let a = first[i].names;
            let b = rest[j].names;
            let k = choose|k: int|
                from + 1 <= k < children.len() && is_in_child(names, #[trigger] children[k], b);
            assert(names_of(children)[k] == children[k].name);
            assert(a[at] == down[at]);
            assert(a[at] != b[at]);
        }
        assert forall|i: int, j: int|
            0 <= i < all.len() && 0 <= j < all.len() && i != j implies !leads_through(
            (#[trigger] all[i]).names,
            (#[trigger] all[j]).names,
        ) by {
            let n = first.len();
            let a = if i < n { first[i] } else { rest[i - n] };
            let b = if j < n { first[j] } else { rest[j - n] };
            assert(all[i] == a && all[j] == b);
        }
    }
}

/// What a capture of `node` at `path` records is in the order of a walk, and stands under
/// the keys of the paths to which the names of the leaves lead from there.
proof fn records_stand_at_the_leaves(
    root: Seq<u8>,
    path: Seq<u8>,
    names: Seq<Seq<u8>>,
    node: Node,
    limits: Limits,
    remaining: nat,
)
    ensures
        ({
            let records = capture(root, path_below(path, names), node, limits, remaining).0;
            let found = leaves(names, node);
            &&& records.len() == found.len()
            &&& forall|i: int|
                0 <= i < records.len() ==> (#[trigger] records[i]).0 == key_of(
                    root,
                    path_below(path, found[i].names),
                )
        }),
    decreases node, 0nat,
{
    if let Node::Directory { children, .. } = node {
        records_of_children_stand_at_the_leaves(root, path, names, children, 0, limits, remaining);
    }
}

/// The same of the children of a directory.
proof fn records_of_children_stand_at_the_leaves(
    root: Seq<u8>,
    path: Seq<u8>,
    names: Seq<Seq<u8>>,
    children: Seq<Child>,
    from: nat,
    limits: Limits,
    remaining: nat,
)
    ensures
        ({
            let records = capture_children(
                root,
                path_below(path, names),
                children,
                from,
                limits,
                remaining,
            ).0;
            let found = leaves_of_children(names, children, from);
            &&& records.len() == found.len()
            &&& forall|i: int|
                0 <= i < records.len() ==> (#[trigger] records[i]).0 == key_of(
                    root,
                    path_below(path, found[i].names),
                )
        }),
    decreases children, children.len() - from,
{
    if from < children.len() {
        let child = children[from as int];
        let down = names.push(child.name);
        assert(down.drop_last() =~= names);
        let first = capture(root, path_below(path, down), child.node, limits, remaining);
        records_stand_at_the_leaves(root, path, down, child.node, limits, remaining);
        records_of_children_stand_at_the_leaves(
            root,
            path,
            names,
            children,
            from + 1,
            limits,
            first.1,
        );
    }
}

/// The names of a leaf are steps of a path where all names in the tree are.
proof fn leaves_have_names(names: Seq<Seq<u8>>, node: Node)
    requires
        are_names(names),
        has_names(node),
    ensures
        forall|i: int|
            0 <= i < leaves(names, node).len() ==> are_names(
                (#[trigger] leaves(names, node)[i]).names,
            ),
    decreases node, 0nat,
{
    if let Node::Directory { children, .. } = node {
        leaves_of_children_have_names(names, children, 0);
    }
}

/// The same of the children of a directory.
proof fn leaves_of_children_have_names(names: Seq<Seq<u8>>, children: Seq<Child>, from: nat)
    requires
        are_names(names),
        are_names(names_of(children)),
        forall|i: int| 0 <= i < children.len() ==> has_names((#[trigger] children[i]).node),
    ensures
        forall|i: int|
            0 <= i < leaves_of_children(names, children, from).len() ==> are_names(
                (#[trigger] leaves_of_children(names, children, from)[i]).names,
            ),
    decreases children, children.len() - from,
{
    if from < children.len() {
        let child = children[from as int];
        assert(names_of(children)[from as int] == child.name);
        leaves_have_names(names.push(child.name), child.node);
        leaves_of_children_have_names(names, children, from + 1);
    }
}

/// The capture of a directory that can be listed makes one record of each leaf in it and
/// no other, under the key of the path to which the names of the leaf lead from there. At
/// least one name does, so that the path is another one than that of the directory, however
/// the names are encoded.
pub proof fn records_lie_below_their_directory(
    root: Seq<u8>,
    directory: Seq<u8>,
    node: Node,
    limits: Limits,
    remaining: nat,
)
    requires
        node is Directory,
    ensures
        ({
            let records = capture(root, directory, node, limits, remaining).0;
            let found = leaves(seq![], node);
            &&& records.len() == found.len()
            &&& forall|i: int|
                0 <= i < records.len() ==> {
                    let more = found[i].names;
                    let path = path_below(directory, more);
                    &&& more.len() > 0
                    &&& (#[trigger] records[i]).0 == key_of(root, path)
                    &&& has_names(node) ==> are_names(more) && !same_path(path, directory)
                }
        }),
{
    let records = capture(root, directory, node, limits, remaining).0;
    let found = leaves(seq![], node);
    assert(path_below(directory, seq![]) == directory);
    records_stand_at_the_leaves(root, directory, seq![], node, limits, remaining);
    leaves_are_inside(seq![], node);
    if has_names(node) {
        leaves_have_names(seq![], node);
        assert forall|i: int| 0 <= i < records.len() implies !same_path(
            path_below(directory, (#[trigger] found[i]).names),
            directory,
        ) by {
            names_lead_elsewhere(directory, found[i].names);
        }
    }
    assert forall|i: int| 0 <= i < records.len() implies {
        let more = found[i].names;
        let path = path_below(directory, more);
        &&& more.len() > 0
        &&& (#[trigger] records[i]).0 == key_of(root, path)
        &&& has_names(node) ==> are_names(more) && !same_path(path, directory)
    } by {
        assert(leads_through(seq![], found[i].names));
    }
}

/// Whether `key` is that of a path below `directory`, in a capture of `root`.
pub open spec fn is_key_below(root: Seq<u8>, directory: Seq<u8>, key: Seq<char>) -> bool {
    exists|more: Seq<Seq<u8>>|
        are_names(more) && more.len() > 0 && key == key_of(
            root,
            #[trigger] path_below(directory, more),
        )
}

/// The capture of a directory that can be listed changes no entry but under the keys of
/// paths below it, however the names are encoded.
pub proof fn only_keys_below_change(walk: WalkView, directory: Seq<u8>, node: Node, key: Seq<char>)
    requires
        node is Directory,
        node.is_orderly(),
        has_names(node),
        !is_key_below(walk.root, directory, key),
    ensures
        ({
            let told = replies(walk.root, directory, node, walk.limits, walk.remaining);
            let end = walk.at(StepView::Inspect { path: directory }).after_all(told);
            &&& end.entries.contains_key(key) == walk.entries.contains_key(key)
            &&& walk.entries.contains_key(key) ==> end.entries[key] == walk.entries[key]
        }),
{
    let records = capture(walk.root, directory, node, walk.limits, walk.remaining).0;
    let found = leaves(seq![], node);
    walks_node(walk, directory, node);
    records_lie_below_their_directory(walk.root, directory, node, walk.limits, walk.remaining);
    assert forall|i: int| 0 <= i < records.len() implies (#[trigger] records[i]).0 != key by {
        let more = found[i].names;
        assert(records[i].0 == key_of(walk.root, path_below(directory, more)));
    }
    with_all_keeps_other_keys(walk.entries, records, key);
}

/// In a tree where every name is written in UTF-8 and none repeats, different leaves have
/// different keys.
pub proof fn leaf_keys_are_told_apart(root: Seq<u8>, node: Node, i: int, j: int)
    requires
        has_utf8_names(node),
        has_distinct_names(node),
        0 <= i < leaves(seq![], node).len(),
        0 <= j < leaves(seq![], node).len(),
        leaf_key(root, leaves(seq![], node)[i]) == leaf_key(root, leaves(seq![], node)[j]),
    ensures
        i == j,
{
    let found = leaves(seq![], node);
    leaves_have_utf8_names(seq![], node);
    leaves_are_told_apart(seq![], node);
    keys_are_told_apart(root, found[i].names, found[j].names);
    assert(leads_through(found[i].names, found[j].names));
}

/// The capture of what `names` lead to changes no entry of a path that is not below it.
/// Where it is a directory that can be listed, its own key gets no entry either.
pub proof fn captures_stay_below(walk: WalkView, names: Seq<Seq<u8>>, node: Node, other: Seq<Seq<u8>>)
    requires
        are_utf8_names(names),
        are_utf8_names(other),
        has_utf8_names(node),
        node.is_orderly(),
        !names.is_prefix_of(other) || (node is Directory && other == names),
    ensures
        ({
            let path = path_below(walk.root, names);
            let told = replies(walk.root, path, node, walk.limits, walk.remaining);
            let end = walk.at(StepView::Inspect { path }).after_all(told);
            let key = key_of(walk.root, path_below(walk.root, other));
            &&& end.entries.contains_key(key) == walk.entries.contains_key(key)
            &&& walk.entries.contains_key(key) ==> end.entries[key] == walk.entries[key]
        }),
{
    let path = path_below(walk.root, names);
    let key = key_of(walk.root, path_below(walk.root, other));
    let records = capture(walk.root, path, node, walk.limits, walk.remaining).0;
    let found = leaves(names, node);
    walks_node(walk, path, node);
    leaves_get_the_records(walk.root, names, node, walk.limits, walk.remaining);
    leaves_are_inside(names, node);
    leaves_have_utf8_names(names, node);
    assert forall|i: int| 0 <= i < records.len() implies (#[trigger] records[i]).0 != key by {
        let leaf = found[i];
        if records[i].0 == key {
            keys_are_told_apart(walk.root, leaf.names, other);
            assert(names =~= other.take(names.len() as int));
        }
    }
    with_all_keeps_other_keys(walk.entries, records, key);
}

} // verus!
