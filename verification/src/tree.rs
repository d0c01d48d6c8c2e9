//! What a walk makes of a whole tree.
use crate::budget::{at_most, Limits};
use crate::capture::{content_entry, file_plan, left_after, link_entry, root_error, FileType, PlanView};
use crate::entries::{with_all, with_all_in_parts, Record};
use crate::entry::{EntryView, Reason};
use crate::error::{reason_of, ErrorKind, IoErrorView};
use crate::listing::{children_of, sorted};
use crate::path::{join, key_of};
use crate::protocol::{answers, ReplyView, RequestView};
use crate::text::mended_utf8;
use crate::walk::{StepView, WalkView};
use vstd::prelude::*;
use vstd::utf8::{decode_utf8, valid_utf8};

verus! {

/// What stands at a path, and below it, as a walk comes upon it.
pub enum Node {
    /// A path of which not even the kind can be told.
    Lost(IoErrorView),
    /// A link, and where it points to.
    Symlink(Result<Seq<u8>, IoErrorView>),
    /// A directory that cannot be listed.
    Unlisted(IoErrorView),
    /// A directory: its names as they are listed, and its children in ascending order.
    Directory { listing: Seq<Seq<u8>>, children: Seq<Child> },
    /// A file that claims to hold `len` bytes, and what it does hold.
    File { len: u64, content: Result<Seq<u8>, IoErrorView> },
    /// Anything else.
    Special,
}

/// A node under its name in a directory.
pub struct Child {
    pub name: Seq<u8>,
    pub node: Node,
}

/// The names of `children`.
pub open spec fn names_of(children: Seq<Child>) -> Seq<Seq<u8>> {
    children.map_values(|child: Child| child.name)
}

impl Node {
    /// Whether the children of every directory are what it lists, in ascending order.
    pub open spec fn is_orderly(self) -> bool
        decreases self,
    {
        match self {
            Node::Directory { listing, children } => names_of(children) == sorted(listing) && forall|
                i: int,
            |
                0 <= i < children.len() ==> (#[trigger] children[i]).node.is_orderly(),
            _ => true,
        }
    }

    /// What there is to find at the node.
    pub open spec fn found(self) -> Result<FileType, IoErrorView> {
        match self {
            Node::Lost(error) => Err(error),
            Node::Symlink(_) => Ok(FileType::Symlink),
            Node::Unlisted(_) => Ok(FileType::Directory),
            Node::Directory { .. } => Ok(FileType::Directory),
            Node::File { len, .. } => Ok(FileType::File { len }),
            Node::Special => Ok(FileType::Special),
        }
    }
}

/// What reading at most `size` bytes of a file that holds `content` gives.
pub open spec fn read_of(content: Result<Seq<u8>, IoErrorView>, size: nat) -> Result<
    Seq<u8>,
    IoErrorView,
> {
    match content {
        Ok(bytes) => Ok(bytes.take(at_most(bytes.len(), size) as int)),
        Err(error) => Err(error),
    }
}

/// What a walk of `root` records of `node` at `path`, in the order in which it does,
/// and how many of `remaining` bytes may be read after that.
pub open spec fn capture(
    root: Seq<u8>,
    path: Seq<u8>,
    node: Node,
    limits: Limits,
    remaining: nat,
) -> (Seq<Record>, nat)
    decreases node, 0nat,
{
    let key = key_of(root, path);
    match node {
        Node::Lost(error) | Node::Unlisted(error) => (
            seq![(key, EntryView::Unavailable { reason: reason_of(error.kind) })],
            remaining,
        ),
        Node::Symlink(target) => (seq![(key, link_entry(target))], remaining),
        Node::Special => (
            seq![(key, EntryView::Excluded { reason: Reason::SpecialFile })],
            remaining,
        ),
        Node::File { len, content } => match file_plan(len as nat, limits, remaining) {
            PlanView::Record(entry) => (seq![(key, entry)], remaining),
            PlanView::Read { allowance } => {
                let read = read_of(content, at_most(allowance + 1, u64::MAX as nat));
                (
                    seq![(key, content_entry(read, allowance, limits))],
                    left_after(read, remaining),
                )
            },
            _ => (seq![], remaining),
        },
        Node::Directory { children, .. } => capture_children(
            root,
            path,
            children,
            0,
            limits,
            remaining,
        ),
    }
}

/// What a walk of `root` records of `children` of `directory`, from the one at `from`
/// on.
pub open spec fn capture_children(
    root: Seq<u8>,
    directory: Seq<u8>,
    children: Seq<Child>,
    from: nat,
    limits: Limits,
    remaining: nat,
) -> (Seq<Record>, nat)
    decreases children, children.len() - from,
{
    if from >= children.len() {
        (seq![], remaining)
    } else {
        let child = children[from as int];
        let first = capture(root, join(directory, child.name), child.node, limits, remaining);
        let rest = capture_children(root, directory, children, from + 1, limits, first.1);
        (first.0 + rest.0, rest.1)
    }
}

/// What a walk of `root` is told of `node` at `path`.
pub open spec fn replies(
    root: Seq<u8>,
    path: Seq<u8>,
    node: Node,
    limits: Limits,
    remaining: nat,
) -> Seq<ReplyView>
    decreases node, 0nat,
{
    let found = ReplyView::Found(node.found());
    match node {
        Node::Lost(_) | Node::Special => seq![found],
        Node::Symlink(target) => seq![found, ReplyView::Target(target)],
        Node::Unlisted(error) => seq![found, ReplyView::Names(Err(error))],
        Node::File { len, content } => match file_plan(len as nat, limits, remaining) {
            PlanView::Read { allowance } => seq![
                found,
                ReplyView::Content(read_of(content, at_most(allowance + 1, u64::MAX as nat))),
            ],
            _ => seq![found],
        },
        Node::Directory { listing, children } => seq![found, ReplyView::Names(Ok(listing))]
            + replies_of_children(root, path, children, 0, limits, remaining),
    }
}

/// What a walk of `root` is told of `children` of `directory`, from the one at `from`
/// on.
pub open spec fn replies_of_children(
    root: Seq<u8>,
    directory: Seq<u8>,
    children: Seq<Child>,
    from: nat,
    limits: Limits,
    remaining: nat,
) -> Seq<ReplyView>
    decreases children, children.len() - from,
{
    if from >= children.len() {
        seq![]
    } else {
        let child = children[from as int];
        let path = join(directory, child.name);
        replies(root, path, child.node, limits, remaining) + replies_of_children(
            root,
            directory,
            children,
            from + 1,
            limits,
            capture(root, path, child.node, limits, remaining).1,
        )
    }
}

/// A walk may be told replies one part after the other.
proof fn after_all_in_parts(walk: WalkView, first: Seq<ReplyView>, second: Seq<ReplyView>)
    ensures
        walk.after_all(first + second) == walk.after_all(first).after_all(second),
        walk.is_answered_by(first + second) == (walk.is_answered_by(first) && walk.after_all(
            first,
        ).is_answered_by(second)),
    decreases first.len(),
{
    if first.len() == 0 {
        assert(first + second =~= second);
    } else {
        assert((first + second).drop_first() =~= first.drop_first() + second);
        after_all_in_parts(walk.after(first[0]), first.drop_first(), second);
    }
}

/// A walk that is told one reply, or two.
proof fn after_few(walk: WalkView, first: ReplyView, second: ReplyView)
    ensures
        walk.after_all(seq![first]) == walk.after(first),
        walk.after_all(seq![first, second]) == walk.after(first).after(second),
        walk.is_answered_by(seq![first]) == answers(walk.request(), first),
        walk.is_answered_by(seq![first, second]) == (answers(walk.request(), first) && answers(
            walk.after(first).request(),
            second,
        )),
{
    reveal_with_fuel(WalkView::after_all, 3);
    reveal_with_fuel(WalkView::is_answered_by, 3);
    assert(seq![first].drop_first() =~= seq![]);
    assert(seq![first, second].drop_first() =~= seq![second]);
    assert(seq![second].drop_first() =~= seq![]);
}

/// The walk once what there is at some place is captured.
pub open spec fn moved_on(walk: WalkView, captured: (Seq<Record>, nat)) -> WalkView {
    WalkView {
        remaining: captured.1,
        entries: with_all(walk.entries, captured.0),
        ..walk
    }.resumed()
}

/// The paths of `children`, from the one at `from` on.
pub open spec fn paths_from(directory: Seq<u8>, children: Seq<Child>, from: nat) -> Seq<Seq<u8>> {
    children.skip(from as int).map_values(|child: Child| join(directory, child.name))
}

/// One record is put in.
proof fn with_one(walk: WalkView, record: Record)
    ensures
        with_all(walk.entries, seq![record]) == walk.entries.insert(record.0, record.1),
{
    reveal_with_fuel(with_all, 2);
    assert(seq![record].drop_last() =~= seq![]);
}

/// A walk that inspects `path` captures `node` there, and moves on.
pub(crate) proof fn walks_node(walk: WalkView, path: Seq<u8>, node: Node)
    requires
        node.is_orderly(),
    ensures
        ({
            let told = replies(walk.root, path, node, walk.limits, walk.remaining);
            let captured = capture(walk.root, path, node, walk.limits, walk.remaining);
            let at = walk.at(StepView::Inspect { path });
            at.is_answered_by(told) && at.after_all(told) == moved_on(walk, captured)
        }),
    decreases node, 0nat,
{
    let told = replies(walk.root, path, node, walk.limits, walk.remaining);
    let captured = capture(walk.root, path, node, walk.limits, walk.remaining);
    let at = walk.at(StepView::Inspect { path });
    let found = ReplyView::Found(node.found());
    match node {
        Node::Directory { listing, children } => {
            let names = ReplyView::Names(Ok(listing));
            let rest = replies_of_children(
                walk.root,
                path,
                children,
                0,
                walk.limits,
                walk.remaining,
            );
            after_few(at, found, names);
            after_all_in_parts(at, seq![found, names], rest);
            assert(children_of(path, listing) =~= paths_from(path, children, 0));
            walks_children(walk, path, children, 0);
            assert(at.after(found).after(names) == WalkView {
                pending: walk.pending + paths_from(path, children, 0).reverse(),
                ..walk
            }.resumed());
        },
        _ => {
            with_one(walk, captured.0[0]);
            assert(captured.0 =~= seq![captured.0[0]]);
            if told.len() > 1 {
                after_few(at, told[0], told[1]);
                assert(told =~= seq![told[0], told[1]]);
            } else {
                after_few(at, told[0], told[0]);
                assert(told =~= seq![told[0]]);
            }
        },
    }
}

/// A walk before which `children` of `directory` are pending captures them, and moves
/// on.
pub(crate) proof fn walks_children(walk: WalkView, directory: Seq<u8>, children: Seq<Child>, from: nat)
    requires
        from <= children.len(),
        forall|i: int| 0 <= i < children.len() ==> (#[trigger] children[i]).node.is_orderly(),
    ensures
        ({
            let told = replies_of_children(
                walk.root,
                directory,
                children,
                from,
                walk.limits,
                walk.remaining,
            );
            let captured = capture_children(
                walk.root,
                directory,
                children,
                from,
                walk.limits,
                walk.remaining,
            );
            let at = WalkView {
                pending: walk.pending + paths_from(directory, children, from).reverse(),
                ..walk
            }.resumed();
            at.is_answered_by(told) && at.after_all(told) == moved_on(walk, captured)
        }),
    decreases children, children.len() - from,
{
    let paths = paths_from(directory, children, from);
    let at = WalkView { pending: walk.pending + paths.reverse(), ..walk }.resumed();
    if from == children.len() {
        assert(paths =~= seq![]);
        assert(walk.pending + paths.reverse() =~= walk.pending);
    } else {
        let child = children[from as int];
        let path = join(directory, child.name);
        let first = capture(walk.root, path, child.node, walk.limits, walk.remaining);
        let others = paths_from(directory, children, from + 1);
        let before = WalkView { pending: walk.pending + others.reverse(), ..walk };
        assert(paths =~= seq![path] + others);
        assert(walk.pending + paths.reverse() =~= (walk.pending + others.reverse()).push(path));
        assert((walk.pending + paths.reverse()).drop_last() =~= before.pending);
        assert(at == before.at(StepView::Inspect { path }));
        walks_node(before, path, child.node);
        let then = WalkView {
            remaining: first.1,
            entries: with_all(walk.entries, first.0),
            ..walk
        };
        walks_children(then, directory, children, from + 1);
        let rest = capture_children(
            walk.root,
            directory,
            children,
            from + 1,
            walk.limits,
            first.1,
        );
        with_all_in_parts(walk.entries, first.0, rest.0);
        after_all_in_parts(
            at,
            replies(walk.root, path, child.node, walk.limits, walk.remaining),
            replies_of_children(walk.root, directory, children, from + 1, walk.limits, first.1),
        );
    }
}

/// What a walk makes of `node` at `root`: the entries, and how many of `remaining` bytes
/// may still be read; or why the root cannot be captured.
pub open spec fn capture_tree(
    root: Seq<u8>,
    node: Node,
    limits: Limits,
    remaining: nat,
) -> Result<(Map<Seq<char>, EntryView>, nat), IoErrorView> {
    match (root_error(root, node.found()), node) {
        (Some(error), _) => Err(error),
        (None, Node::Unlisted(error)) => Err(error),
        (None, _) => {
            let captured = capture(root, root, node, limits, remaining);
            Ok((with_all(Map::empty(), captured.0), captured.1))
        },
    }
}

/// What a walk of `root` is told where `node` stands there.
pub open spec fn replies_of_tree(
    root: Seq<u8>,
    node: Node,
    limits: Limits,
    remaining: nat,
) -> Seq<ReplyView> {
    match node {
        Node::Directory { .. } | Node::Unlisted(_) => replies(root, root, node, limits, remaining),
        _ => seq![ReplyView::Found(node.found())],
    }
}

/// Whatever stands at the root: a walk that is told what it asks for, no more, comes to
/// its end, and has then made of the tree what `capture_tree` says.
pub proof fn walk_captures_tree(root: Seq<u8>, node: Node, limits: Limits, remaining: nat)
    requires
        node.is_orderly(),
    ensures
        ({
            let start = WalkView::start(root, limits, remaining);
            let told = replies_of_tree(root, node, limits, remaining);
            let end = start.after_all(told);
            &&& start.is_answered_by(told)
            &&& end.root == root && end.limits == limits
            &&& match capture_tree(root, node, limits, remaining) {
                Ok((entries, left)) => end.step is Done && end.entries == entries && end.remaining
                    == left,
                Err(error) => end.step == (StepView::Failed { error }),
            }
        }),
{
    let start = WalkView::start(root, limits, remaining);
    let found = ReplyView::Found(node.found());
    match node {
        Node::Directory { listing, children } => {
            let names = ReplyView::Names(Ok(listing));
            let rest = replies_of_children(root, root, children, 0, limits, remaining);
            after_few(start, found, names);
            after_all_in_parts(start, seq![found, names], rest);
            assert(children_of(root, listing) =~= paths_from(root, children, 0));
            walks_children(start, root, children, 0);
        },
        Node::Unlisted(error) => {
            after_few(start, found, ReplyView::Names(Err(error)));
        },
        _ => {
            after_few(start, found, found);
        },
    }
}

/// What is asked for of `node` at `path`, where `remaining` bytes may still be read: what
/// stands there; then, of a link where it points to, of a directory its names and after
/// them its children, and of a file that claims no more than an entry may hold and than is
/// left as many bytes as both allow, and one.
pub open spec fn requests(
    root: Seq<u8>,
    path: Seq<u8>,
    node: Node,
    limits: Limits,
    remaining: nat,
) -> Seq<RequestView>
    decreases node, 0nat,
{
    let inspect = RequestView::Inspect { path };
    match node {
        Node::Lost(_) | Node::Special => seq![inspect],
        Node::Symlink(_) => seq![inspect, RequestView::ReadLink { path }],
        Node::Unlisted(_) => seq![inspect, RequestView::List { path }],
        Node::File { len, .. } => {
            let most = if remaining < limits.max_entry_bytes {
                remaining
            } else {
                limits.max_entry_bytes as nat
            };
            if len > most || remaining == 0 {
                seq![inspect]
            } else if most < u64::MAX {
                seq![inspect, RequestView::Read { path, max_bytes: most + 1 }]
            } else {
                seq![inspect, RequestView::Read { path, max_bytes: most }]
            }
        },
        Node::Directory { children, .. } => seq![inspect, RequestView::List { path }]
            + requests_of_children(root, path, children, 0, limits, remaining),
    }
}

/// What is asked for of `children` of `directory`, from the one at `from` on.
pub open spec fn requests_of_children(
    root: Seq<u8>,
    directory: Seq<u8>,
    children: Seq<Child>,
    from: nat,
    limits: Limits,
    remaining: nat,
) -> Seq<RequestView>
    decreases children, children.len() - from,
{
    if from >= children.len() {
        seq![]
    } else {
        let child = children[from as int];
        let path = join(directory, child.name);
        requests(root, path, child.node, limits, remaining) + requests_of_children(
            root,
            directory,
            children,
            from + 1,
            limits,
            capture(root, path, child.node, limits, remaining).1,
        )
    }
}

/// What is asked for where `node` stands at `root`: what stands there, its names where it
/// is a directory, and then its children.
pub open spec fn requests_of_tree(
    root: Seq<u8>,
    node: Node,
    limits: Limits,
    remaining: nat,
) -> Seq<RequestView> {
    match node {
        Node::Directory { children, .. } => seq![
            RequestView::Inspect { path: root },
            RequestView::List { path: root },
        ] + requests_of_children(root, root, children, 0, limits, remaining),
        Node::Unlisted(_) => seq![
            RequestView::Inspect { path: root },
            RequestView::List { path: root },
        ],
        _ => seq![RequestView::Inspect { path: root }],
    }
}

/// A walk may ask one part after the other.
proof fn asks_in_parts(
    walk: WalkView,
    asked: Seq<RequestView>,
    told: Seq<ReplyView>,
    more: Seq<RequestView>,
    rest: Seq<ReplyView>,
)
    requires
        walk.asks(asked, told),
        walk.after_all(told).asks(more, rest),
    ensures
        walk.asks(asked + more, told + rest),
    decreases told.len(),
{
    if told.len() == 0 {
        assert(asked + more =~= more);
        assert(told + rest =~= rest);
    } else {
        assert((told + rest).drop_first() =~= told.drop_first() + rest);
        assert((asked + more).drop_first() =~= asked.drop_first() + more);
        asks_in_parts(walk.after(told[0]), asked.drop_first(), told.drop_first(), more, rest);
    }
}

/// A walk that asks once, or twice.
proof fn asks_few(
    walk: WalkView,
    first: RequestView,
    second: RequestView,
    told: ReplyView,
    then: ReplyView,
)
    ensures
        walk.request() == Some(first) ==> walk.asks(seq![first], seq![told]),
        walk.request() == Some(first) && walk.after(told).request() == Some(second) ==> walk.asks(
            seq![first, second],
            seq![told, then],
        ),
{
    reveal_with_fuel(WalkView::asks, 3);
    assert(seq![first].drop_first() =~= seq![]);
    assert(seq![told].drop_first() =~= seq![]);
    assert(seq![first, second].drop_first() =~= seq![second]);
    assert(seq![told, then].drop_first() =~= seq![then]);
    assert(seq![second].drop_first() =~= seq![]);
    assert(seq![then].drop_first() =~= seq![]);
}

/// What a walk that inspects `path` asks for where `node` stands there.
proof fn asks_of_node(walk: WalkView, path: Seq<u8>, node: Node)
    requires
        node.is_orderly(),
    ensures
        ({
            let at = walk.at(StepView::Inspect { path });
            at.asks(
                requests(walk.root, path, node, walk.limits, walk.remaining),
                replies(walk.root, path, node, walk.limits, walk.remaining),
            )
        }),
    decreases node, 0nat,
{
    let told = replies(walk.root, path, node, walk.limits, walk.remaining);
    let asked = requests(walk.root, path, node, walk.limits, walk.remaining);
    let at = walk.at(StepView::Inspect { path });
    let found = ReplyView::Found(node.found());
    match node {
        Node::Directory { listing, children } => {
            let names = ReplyView::Names(Ok(listing));
            asks_few(at, asked[0], RequestView::List { path }, found, names);
            after_few(at, found, names);
            assert(children_of(path, listing) =~= paths_from(path, children, 0));
            asks_of_children(walk, path, children, 0);
            assert(at.after(found).after(names) == WalkView {
                pending: walk.pending + paths_from(path, children, 0).reverse(),
                ..walk
            }.resumed());
            asks_in_parts(
                at,
                seq![asked[0], RequestView::List { path }],
                seq![found, names],
                requests_of_children(walk.root, path, children, 0, walk.limits, walk.remaining),
                replies_of_children(walk.root, path, children, 0, walk.limits, walk.remaining),
            );
        },
        _ => {
            if told.len() > 1 {
                asks_few(at, asked[0], asked[1], told[0], told[1]);
                assert(told =~= seq![told[0], told[1]]);
                assert(asked =~= seq![asked[0], asked[1]]);
            } else {
                asks_few(at, asked[0], asked[0], told[0], told[0]);
                assert(told =~= seq![told[0]]);
                assert(asked =~= seq![asked[0]]);
            }
        },
    }
}

/// What a walk before which `children` of `directory` are pending asks for.
proof fn asks_of_children(walk: WalkView, directory: Seq<u8>, children: Seq<Child>, from: nat)
    requires
        from <= children.len(),
        forall|i: int| 0 <= i < children.len() ==> (#[trigger] children[i]).node.is_orderly(),
    ensures
        ({
            let at = WalkView {
                pending: walk.pending + paths_from(directory, children, from).reverse(),
                ..walk
            }.resumed();
            at.asks(
                requests_of_children(
                    walk.root,
                    directory,
                    children,
                    from,
                    walk.limits,
                    walk.remaining,
                ),
                replies_of_children(
                    walk.root,
                    directory,
                    children,
                    from,
                    walk.limits,
                    walk.remaining,
                ),
            )
        }),
    decreases children, children.len() - from,
{
    let paths = paths_from(directory, children, from);
    let at = WalkView { pending: walk.pending + paths.reverse(), ..walk }.resumed();
    if from < children.len() {
        let child = children[from as int];
        let path = join(directory, child.name);
        let first = capture(walk.root, path, child.node, walk.limits, walk.remaining);
        let others = paths_from(directory, children, from + 1);
        let before = WalkView { pending: walk.pending + others.reverse(), ..walk };
        assert(paths =~= seq![path] + others);
        assert(walk.pending + paths.reverse() =~= (walk.pending + others.reverse()).push(path));
        assert((walk.pending + paths.reverse()).drop_last() =~= before.pending);
        assert(at == before.at(StepView::Inspect { path }));
        asks_of_node(before, path, child.node);
        walks_node(before, path, child.node);
        let then = WalkView {
            remaining: first.1,
            entries: with_all(walk.entries, first.0),
            ..walk
        };
        asks_of_children(then, directory, children, from + 1);
        asks_in_parts(
            at,
            requests(walk.root, path, child.node, walk.limits, walk.remaining),
            replies(walk.root, path, child.node, walk.limits, walk.remaining),
            requests_of_children(walk.root, directory, children, from + 1, walk.limits, first.1),
            replies_of_children(walk.root, directory, children, from + 1, walk.limits, first.1),
        );
    }
}

/// Whatever stands at the root: a walk asks for just what `requests_of_tree` says, in that
/// order. It looks at every path once, in the order of the names; it asks where a link
/// points to and for nothing behind it; and it asks for one byte more of a file than may be
/// recorded of it.
pub proof fn walk_asks_for_the_tree(root: Seq<u8>, node: Node, limits: Limits, remaining: nat)
    requires
        node.is_orderly(),
    ensures
        WalkView::start(root, limits, remaining).asks(
            requests_of_tree(root, node, limits, remaining),
            replies_of_tree(root, node, limits, remaining),
        ),
{
    let start = WalkView::start(root, limits, remaining);
    let found = ReplyView::Found(node.found());
    let inspect = RequestView::Inspect { path: root };
    let list = RequestView::List { path: root };
    match node {
        Node::Directory { listing, children } => {
            let names = ReplyView::Names(Ok(listing));
            asks_few(start, inspect, list, found, names);
            after_few(start, found, names);
            assert(children_of(root, listing) =~= paths_from(root, children, 0));
            asks_of_children(start, root, children, 0);
            asks_in_parts(
                start,
                seq![inspect, list],
                seq![found, names],
                requests_of_children(root, root, children, 0, limits, remaining),
                replies_of_children(root, root, children, 0, limits, remaining),
            );
        },
        Node::Unlisted(error) => {
            asks_few(start, inspect, list, found, ReplyView::Names(Err(error)));
        },
        _ => {
            asks_few(start, inspect, inspect, found, found);
        },
    }
}

/// What is told of a node is the truth: its kind, and then, where it is asked for, the
/// target of a link, the names in a directory, or the first bytes of a file, as many as
/// are asked for or as there are.
pub proof fn replies_are_true(
    root: Seq<u8>,
    path: Seq<u8>,
    node: Node,
    limits: Limits,
    remaining: nat,
)
    ensures
        ({
            let told = replies(root, path, node, limits, remaining);
            let asked = requests(root, path, node, limits, remaining);
            &&& told.len() > 0 && told[0] == ReplyView::Found(node.found())
            &&& match node {
                Node::Symlink(target) => told == seq![told[0], ReplyView::Target(target)],
                Node::Unlisted(error) => told == seq![told[0], ReplyView::Names(Err(error))],
                Node::Directory { listing, .. } => told.len() > 1 && told[1] == ReplyView::Names(
                    Ok(listing),
                ),
                Node::File { content: Err(error), .. } => asked.len() == told.len() && (told.len()
                    > 1 ==> told == seq![told[0], ReplyView::Content(Err(error))]),
                Node::File { content: Ok(bytes), .. } => asked.len() == told.len() && (told.len()
                    > 1 ==> {
                    &&& asked[1] matches RequestView::Read { max_bytes, .. }
                    &&& told[1] matches ReplyView::Content(Ok(read))
                    &&& read.is_prefix_of(bytes)
                    &&& read.len() == max_bytes || (read.len() < max_bytes && read == bytes)
                }),
                _ => told.len() == 1,
            }
        }),
{
    if let Node::File { len, content: Ok(bytes) } = node {
        assert(bytes.take(bytes.len() as int) =~= bytes);
    }
}

/// Whether `error` says that `root` is not a directory.
pub open spec fn is_no_directory(root: Seq<u8>, error: IoErrorView) -> bool {
    &&& error.kind == ErrorKind::InvalidInput
    &&& valid_utf8(root) ==> error.message == "not a directory: "@ + decode_utf8(root)
    &&& !valid_utf8(root) ==> error.message == "not a directory: "@ + mended_utf8(root)
}

/// A tree is captured exactly where a directory that can be listed stands at the root.
/// Otherwise the failure is the one that was met, or says that the root is not a directory.
pub proof fn only_listed_directories_are_captured(
    root: Seq<u8>,
    node: Node,
    limits: Limits,
    remaining: nat,
)
    ensures
        match (node, capture_tree(root, node, limits, remaining)) {
            (Node::Directory { .. }, Ok(_)) => true,
            (Node::Lost(error), Err(given)) => given == error,
            (Node::Unlisted(error), Err(given)) => given == error,
            (Node::Symlink(_), Err(given)) => is_no_directory(root, given),
            (Node::File { .. }, Err(given)) => is_no_directory(root, given),
            (Node::Special, Err(given)) => is_no_directory(root, given),
            _ => false,
        },
{
}

} // verus!
