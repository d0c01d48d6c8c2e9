//! Every capture that comes to its end has seen some tree.
use crate::budget::Limits;
use crate::capture::{file_plan, FileType, PlanView};
use crate::entries::with_all;
use crate::error::{ErrorKind, IoErrorView};
use crate::listing::{children_of, sorted};
use crate::path::join;
use crate::protocol::ReplyView;
use crate::tree::{
    capture, names_of, paths_from, replies, replies_of_children, replies_of_tree, walks_children,
    walks_node, Child, Node,
};
use crate::walk::{StepView, WalkView};
use vstd::prelude::*;

verus! {

/// A walk that is obeyed by all replies is obeyed by the first of them, and after those
/// by the others.
proof fn obeyed_in_parts(walk: WalkView, told: Seq<ReplyView>, n: int)
    requires
        0 <= n <= told.len(),
        walk.is_obeyed_by(told),
    ensures
        walk.is_obeyed_by(told.take(n)),
        walk.is_answered_by(told.take(n)),
        walk.after_all(told.take(n)).is_obeyed_by(told.skip(n)),
        walk.after_all(told) == walk.after_all(told.take(n)).after_all(told.skip(n)),
    decreases n,
{
    if n == 0 {
        assert(told.skip(0) =~= told);
    } else {
        let rest = told.drop_first();
        obeyed_in_parts(walk.after(told[0]), rest, n - 1);
        assert(told.take(n).drop_first() =~= rest.take(n - 1));
        assert(told.skip(n) =~= rest.skip(n - 1));
    }
}

/// A walk that comes to its end is told something as long as it asks for something.
proof fn goes_on(walk: WalkView, told: Seq<ReplyView>)
    requires
        walk.is_obeyed_by(told),
        walk.after_all(told).request() is None,
    ensures
        told.len() == 0 <==> walk.request() is None,
        told.len() > 0 ==> walk.after(told[0]).is_obeyed_by(told.drop_first()) && walk.after(
            told[0],
        ).after_all(told.drop_first()).request() is None,
{
}

/// What is told of a node, or of children, does not depend on which of them came first.
proof fn replies_of_others(
    root: Seq<u8>,
    directory: Seq<u8>,
    first: Child,
    others: Seq<Child>,
    from: nat,
    limits: Limits,
    remaining: nat,
)
    ensures
        replies_of_children(
            root,
            directory,
            seq![first] + others,
            from + 1,
            limits,
            remaining,
        ) == replies_of_children(root, directory, others, from, limits, remaining),
    decreases others.len() - from,
{
    let all = seq![first] + others;
    if from < others.len() {
        let child = others[from as int];
        assert(all[from as int + 1] == child);
        let left = capture(
            root,
            join(directory, child.name),
            child.node,
            limits,
            remaining,
        ).1;
        replies_of_others(root, directory, first, others, from + 1, limits, left);
    }
}

/// The node of which a walk that inspects `path` is told first.
proof fn node_seen(walk: WalkView, path: Seq<u8>, told: Seq<ReplyView>) -> (node: Node)
    requires
        walk.at(StepView::Inspect { path }).is_obeyed_by(told),
        walk.at(StepView::Inspect { path }).after_all(told).request() is None,
    ensures
        node.is_orderly(),
        ({
            let seen = replies(walk.root, path, node, walk.limits, walk.remaining);
            0 < seen.len() <= told.len() && told.take(seen.len() as int) == seen
        }),
    decreases told.len(), 0nat,
{
    let at = walk.at(StepView::Inspect { path });
    goes_on(at, told);
    let found = told[0]->Found_0;
    let next = at.after(told[0]);
    let rest = told.drop_first();
    goes_on(next, rest);
    match found {
        Err(error) => {
            let node = Node::Lost(error);
            assert(told.take(1) =~= seq![told[0]]);
            node
        },
        Ok(FileType::Special) => {
            assert(told.take(1) =~= seq![told[0]]);
            Node::Special
        },
        Ok(FileType::Symlink) => {
            assert(told.take(2) =~= seq![told[0], rest[0]]);
            Node::Symlink(rest[0]->Target_0)
        },
        Ok(FileType::File { len }) => {
            match file_plan(len as nat, walk.limits, walk.remaining) {
                PlanView::Read { .. } => {
                            assert(told.take(2) =~= seq![told[0], rest[0]]);
                    let content = rest[0]->Content_0;
                    if let Ok(bytes) = content {
                        assert(bytes.take(bytes.len() as int) =~= bytes);
                    }
                    Node::File { len, content }
                },
                _ => {
                    assert(told.take(1) =~= seq![told[0]]);
                    Node::File { len, content: Ok(seq![]) }
                },
            }
        },
        Ok(FileType::Directory) => {
            match rest[0]->Names_0 {
                Err(error) => {
                    assert(told.take(2) =~= seq![told[0], rest[0]]);
                    Node::Unlisted(error)
                },
                Ok(listing) => {
                    let names = sorted(listing);
                    let others = rest.drop_first();
                    assert(children_of(path, listing) =~= names.map_values(
                        |name: Seq<u8>| join(path, name),
                    ));
                    let children = children_seen(walk, path, names, others);
                    let node = Node::Directory { listing, children };
                    let seen = replies_of_children(
                        walk.root,
                        path,
                        children,
                        0,
                        walk.limits,
                        walk.remaining,
                    );
                    let n = seen.len() as int;
                    assert(told.take(n + 2) =~= seq![told[0], rest[0]] + others.take(n));
                    node
                },
            }
        },
    }
}

/// The children of which a walk before which they are pending is told first.
proof fn children_seen(
    walk: WalkView,
    directory: Seq<u8>,
    names: Seq<Seq<u8>>,
    told: Seq<ReplyView>,
) -> (children: Seq<Child>)
    requires
        ({
            let paths = names.map_values(|name: Seq<u8>| join(directory, name));
            let at = WalkView { pending: walk.pending + paths.reverse(), ..walk }.resumed();
            at.is_obeyed_by(told) && at.after_all(told).request() is None
        }),
    ensures
        names_of(children) == names,
        forall|i: int| 0 <= i < children.len() ==> (#[trigger] children[i]).node.is_orderly(),
        ({
            let seen = replies_of_children(
                walk.root,
                directory,
                children,
                0,
                walk.limits,
                walk.remaining,
            );
            seen.len() <= told.len() && told.take(seen.len() as int) == seen
        }),
    decreases told.len(), 1nat,
{
    let paths = names.map_values(|name: Seq<u8>| join(directory, name));
    let at = WalkView { pending: walk.pending + paths.reverse(), ..walk }.resumed();
    if names.len() == 0 {
        let children = Seq::<Child>::empty();
        assert(names_of(children) =~= names);
        assert(told.take(0) =~= seq![]);
        children
    } else {
        let path = paths[0];
        let others = names.drop_first();
        let other_paths = others.map_values(|name: Seq<u8>| join(directory, name));
        let before = WalkView { pending: walk.pending + other_paths.reverse(), ..walk };
        assert(paths =~= seq![path] + other_paths);
        assert(walk.pending + paths.reverse() =~= before.pending.push(path));
        assert((walk.pending + paths.reverse()).drop_last() =~= before.pending);
        assert(at == before.at(StepView::Inspect { path }));
        let node = node_seen(before, path, told);
        let seen = replies(walk.root, path, node, walk.limits, walk.remaining);
        let captured = capture(walk.root, path, node, walk.limits, walk.remaining);
        let n = seen.len() as int;
        walks_node(before, path, node);
        obeyed_in_parts(at, told, n);
        let then = WalkView {
            remaining: captured.1,
            entries: with_all(walk.entries, captured.0),
            ..walk
        };
        let rest = told.skip(n);
        let siblings = children_seen(then, directory, others, rest);
        let first = Child { name: names[0], node };
        let children = seq![first] + siblings;
        assert(names_of(children) =~= seq![names[0]] + names_of(siblings));
        assert(names =~= seq![names[0]] + others);
        assert forall|i: int| 0 <= i < children.len() implies (
        #[trigger] children[i]).node.is_orderly() by {
            if i > 0 {
                assert(children[i] == siblings[i - 1]);
            }
        }
        replies_of_others(
            walk.root,
            directory,
            first,
            siblings,
            0,
            walk.limits,
            captured.1,
        );
        let seen_after = replies_of_children(
            walk.root,
            directory,
            siblings,
            0,
            walk.limits,
            captured.1,
        );
        let m = seen_after.len() as int;
        assert(children[0] == first);
        assert(told.take(n + m) =~= told.take(n) + rest.take(m));
        children
    }
}

/// Whatever a walk is told, as long as it is told no more than it asks for: once it comes
/// to its end there is a tree that it has been told of, no more and no less.
pub proof fn finished_walk_has_seen_a_tree(
    root: Seq<u8>,
    limits: Limits,
    remaining: nat,
    told: Seq<ReplyView>,
) -> (node: Node)
    requires
        WalkView::start(root, limits, remaining).is_obeyed_by(told),
        WalkView::start(root, limits, remaining).after_all(told).request() is None,
    ensures
        node.is_orderly(),
        told == replies_of_tree(root, node, limits, remaining),
{
    let start = WalkView::start(root, limits, remaining);
    goes_on(start, told);
    let found = told[0]->Found_0;
    let next = start.after(told[0]);
    let rest = told.drop_first();
    goes_on(next, rest);
    let unknown = IoErrorView { kind: ErrorKind::Other, message: seq![] };
    match found {
        Err(error) => {
            assert(told =~= seq![told[0]]);
            Node::Lost(error)
        },
        Ok(FileType::Special) => {
            assert(told =~= seq![told[0]]);
            Node::Special
        },
        Ok(FileType::Symlink) => {
            assert(told =~= seq![told[0]]);
            Node::Symlink(Err(unknown))
        },
        Ok(FileType::File { len }) => {
            assert(told =~= seq![told[0]]);
            Node::File { len, content: Err(unknown) }
        },
        Ok(FileType::Directory) => {
            let others = rest.drop_first();
            goes_on(next.after(rest[0]), others);
            match rest[0]->Names_0 {
                Err(error) => {
                    assert(told =~= seq![told[0], rest[0]]);
                    Node::Unlisted(error)
                },
                Ok(listing) => {
                    let names = sorted(listing);
                    assert(children_of(root, listing) =~= names.map_values(
                        |name: Seq<u8>| join(root, name),
                    ));
                    let children = children_seen(start, root, names, others);
                    let seen = replies_of_children(root, root, children, 0, limits, remaining);
                    let n = seen.len() as int;
                    let at = next.after(rest[0]);
                    assert(paths_from(root, children, 0) =~= children_of(root, listing)) by {
                        assert forall|i: int| 0 <= i < children.len() implies children[i].name
                            == #[trigger] names[i] by {
                            assert(names_of(children)[i] == names[i]);
                        }
                    }
                    walks_children(start, root, children, 0);
                    obeyed_in_parts(at, others, n);
                    assert(at.after_all(others.take(n)).step is Done);
                    assert(others.skip(n).len() == 0);
                    assert(told =~= seq![told[0], rest[0]] + others.take(n));
                    Node::Directory { listing, children }
                },
            }
        },
    }
}

} // verus!
