//! What the entries of a snapshot say about the trees it was taken of.
use crate::budget::Limits;
use crate::capture::targets_are_kept;
use crate::entries::{with_all, with_all_distinct, Record};
use crate::entry::{EntryView, Reason};
use crate::error::{is_reason_for, IoErrorView};
use crate::keys::{are_utf8_names, key_below_goes_through, keys_are_told_apart, lies_below};
use crate::leaves::{
    are_records_of, has_distinct_names, has_utf8_names, leads_through, leaf_key,
    leaf_keys_are_told_apart, leaves, leaves_are_told_apart, leaves_get_the_records,
    leaves_have_utf8_names, leaves_of_children, Leaf,
};
use crate::path::{key_of, path_below};
use crate::text::{is_text_bytes, mended_utf8};
use crate::tree::{capture, capture_children, capture_tree, Child, Node};
use crate::trees::snapshot_of;
use vstd::prelude::*;
use vstd::utf8::{decode_utf8, encode_utf8, valid_utf8};

verus! {

/// Whether a file that claims to hold `len` bytes is read where `left` bytes may still be:
/// it claims no more than an entry may hold and no more than is left, and something is left.
pub open spec fn is_opened(len: u64, limits: Limits, left: nat) -> bool {
    len <= limits.max_entry_bytes && 0 < left && len <= left
}

/// Whether a file is found to hold more than `bytes` bytes.
pub open spec fn holds_more_than(content: Result<Seq<u8>, IoErrorView>, bytes: nat) -> bool {
    match content {
        Ok(held) => held.len() > bytes,
        Err(_) => false,
    }
}

/// Whether `entry` is true of `node`, before the capture of which `left` bytes might still
/// be read. A captured file is text, is no larger than an entry may be and than was left,
/// and its content is all of it, byte for byte; a file is left out as binary only where it
/// is not text. It is left out for its size where it claims to hold more than an entry may,
/// whatever is left, or is found to; and for the total only where it does not claim that
/// much, but nothing is left, or it claims or is found to hold more than is left. A link is
/// recorded with all of its target, and a failure is given as what it was.
pub open spec fn is_true_of(entry: EntryView, node: Node, limits: Limits, left: nat) -> bool {
    match node {
        Node::Lost(error) | Node::Unlisted(error) | Node::Symlink(Err(error)) => {
            &&& entry matches EntryView::Unavailable { reason }
            &&& is_reason_for(reason, error.kind)
        },
        Node::Symlink(Ok(bytes)) => {
            &&& entry matches EntryView::Symlink { target }
            &&& valid_utf8(bytes) ==> encode_utf8(target) == bytes
            &&& !valid_utf8(bytes) ==> target == mended_utf8(bytes)
        },
        Node::Special => entry == (EntryView::Excluded { reason: Reason::SpecialFile }),
        Node::Directory { .. } => false,
        Node::File { len, content } => match (entry, content) {
            (EntryView::Captured { content: text }, Ok(bytes)) => {
                &&& is_opened(len, limits, left)
                &&& bytes.len() <= limits.max_entry_bytes && bytes.len() <= left
                &&& is_text_bytes(bytes)
                &&& encode_utf8(text) == bytes
            },
            (EntryView::Excluded { reason: Reason::Binary }, Ok(bytes)) => {
                &&& is_opened(len, limits, left)
                &&& bytes.len() <= limits.max_entry_bytes && bytes.len() <= left
                &&& !is_text_bytes(bytes)
            },
            (EntryView::Unavailable { reason }, Err(error)) => is_opened(len, limits, left)
                && is_reason_for(reason, error.kind),
            (EntryView::Excluded { reason: Reason::SizeLimit }, _) => {
                ||| len > limits.max_entry_bytes
                ||| is_opened(len, limits, left) && limits.max_entry_bytes <= left
                    && holds_more_than(content, limits.max_entry_bytes as nat)
            },
            (EntryView::Excluded { reason: Reason::TotalLimit }, _) => {
                &&& len <= limits.max_entry_bytes
                &&& left == 0 || len > left || (left < limits.max_entry_bytes && holds_more_than(
                    content,
                    left,
                ))
            },
            _ => false,
        },
    }
}

/// How many bytes the capture of `node` uses up where `left` bytes may still be read: all
/// bytes of a file that is read and fits, and one too many of one that does not.
pub open spec fn used_by(node: Node, limits: Limits, left: nat) -> nat {
    match node {
        Node::File { len, content: Ok(bytes) } => if !is_opened(len, limits, left) {
            0
        } else if bytes.len() <= limits.max_entry_bytes && bytes.len() <= left {
            bytes.len()
        } else if left < limits.max_entry_bytes {
            left + 1
        } else {
            limits.max_entry_bytes as nat + 1
        },
        _ => 0,
    }
}

/// How many of `remaining` bytes may still be read once the first `n` of `leaves` have been
/// captured.
pub open spec fn left_at(leaves: Seq<Leaf>, n: int, limits: Limits, remaining: nat) -> nat
    decreases n,
{
    if n <= 0 {
        remaining
    } else {
        let left = left_at(leaves, n - 1, limits, remaining);
        let used = used_by(leaves[n - 1].node, limits, left);
        if used <= left {
            (left - used) as nat
        } else {
            0
        }
    }
}

/// What is left after leaves may be told one part of them after the other.
proof fn left_in_parts(a: Seq<Leaf>, b: Seq<Leaf>, n: int, limits: Limits, remaining: nat)
    requires
        0 <= n <= a.len() + b.len(),
    ensures
        n <= a.len() ==> left_at(a + b, n, limits, remaining) == left_at(a, n, limits, remaining),
        n >= a.len() ==> left_at(a + b, n, limits, remaining) == left_at(
            b,
            n - a.len(),
            limits,
            left_at(a, a.len() as int, limits, remaining),
        ),
    decreases n,
{
    if n > 0 {
        left_in_parts(a, b, n - 1, limits, remaining);
        if n <= a.len() {
            assert((a + b)[n - 1] == a[n - 1]);
        } else {
            assert((a + b)[n - 1] == b[n - 1 - a.len()]);
        }
    }
}

/// Whether `records` are those of `leaves`, one for each, and true of them, where
/// `remaining` bytes may be read of them all.
pub open spec fn are_true_of(
    records: Seq<Record>,
    leaves: Seq<Leaf>,
    root: Seq<u8>,
    limits: Limits,
    remaining: nat,
) -> bool {
    &&& are_records_of(records, leaves, root)
    &&& forall|i: int|
        0 <= i < records.len() ==> is_true_of(
            (#[trigger] records[i]).1,
            leaves[i].node,
            limits,
            left_at(leaves, i, limits, remaining),
        )
}

/// Whether it can be told of every file in `node` that it holds more than an entry may:
/// one byte more can be asked for, or no file holds more than can be asked for.
pub open spec fn can_be_measured(node: Node, limits: Limits) -> bool
    decreases node,
{
    match node {
        Node::File { content: Ok(bytes), .. } => limits.max_entry_bytes < u64::MAX || bytes.len()
            <= u64::MAX,
        Node::Directory { children, .. } => forall|i: int|
            0 <= i < children.len() ==> can_be_measured((#[trigger] children[i]).node, limits),
        _ => true,
    }
}

/// Every leaf gets one record, in the order of the walk, that is true of it: nothing
/// that is found is passed over. What is read of the files is used up, and nothing else is.
pub proof fn leaves_are_recorded(
    root: Seq<u8>,
    names: Seq<Seq<u8>>,
    node: Node,
    limits: Limits,
    remaining: nat,
)
    requires
        can_be_measured(node, limits),
    ensures
        are_true_of(
            capture(root, path_below(root, names), node, limits, remaining).0,
            leaves(names, node),
            root,
            limits,
            remaining,
        ),
        capture(root, path_below(root, names), node, limits, remaining).1 == left_at(
            leaves(names, node),
            leaves(names, node).len() as int,
            limits,
            remaining,
        ),
    decreases node, 0nat,
{
    reveal_with_fuel(left_at, 2);
    match node {
        Node::Directory { children, .. } => {
            children_are_recorded(root, names, children, 0, limits, remaining);
        },
        Node::File { len, content } => {
            if let Ok(bytes) = content {
                if is_text_bytes(bytes) {
                    vstd::utf8::decode_utf8_encode_utf8(bytes);
                }
                assert(bytes.take(bytes.len() as int) =~= bytes);
            }
        },
        Node::Symlink(target) => {
            targets_are_kept(target);
        },
        _ => {},
    }
}

/// The same of the children of a directory.
proof fn children_are_recorded(
    root: Seq<u8>,
    names: Seq<Seq<u8>>,
    children: Seq<Child>,
    from: nat,
    limits: Limits,
    remaining: nat,
)
    requires
        forall|i: int|
            0 <= i < children.len() ==> can_be_measured((#[trigger] children[i]).node, limits),
    ensures
        are_true_of(
            capture_children(
                root,
                path_below(root, names),
                children,
                from,
                limits,
                remaining,
            ).0,
            leaves_of_children(names, children, from),
            root,
            limits,
            remaining,
        ),
        capture_children(root, path_below(root, names), children, from, limits, remaining).1
            == left_at(
            leaves_of_children(names, children, from),
            leaves_of_children(names, children, from).len() as int,
            limits,
            remaining,
        ),
    decreases children, children.len() - from,
{
    if from < children.len() {
        let child = children[from as int];
        let down = names.push(child.name);
        assert(down.drop_last() =~= names);
        let path = path_below(root, down);
        let first = capture(root, path, child.node, limits, remaining);
        let rest = capture_children(
            root,
            path_below(root, names),
            children,
            from + 1,
            limits,
            first.1,
        );
        leaves_are_recorded(root, down, child.node, limits, remaining);
        children_are_recorded(root, names, children, from + 1, limits, first.1);
        let a = leaves(down, child.node);
        let b = leaves_of_children(names, children, from + 1);
        let all = first.0 + rest.0;
        left_in_parts(a, b, (a + b).len() as int, limits, remaining);
        assert forall|i: int| 0 <= i < all.len() implies is_true_of(
            (#[trigger] all[i]).1,
            (a + b)[i].node,
            limits,
            left_at(a + b, i, limits, remaining),
        ) by {
            left_in_parts(a, b, i, limits, remaining);
            if i < a.len() {
                assert(all[i] == first.0[i]);
            } else {
                assert(all[i] == rest.0[i - a.len()]);
            }
        }
    }
}

/// What is found once `records` have been put in: what was there or is in them, and
/// under each of their keys one of them.
proof fn found_in_all(entries: Map<Seq<char>, EntryView>, records: Seq<Record>)
    ensures
        forall|i: int|
            0 <= i < records.len() ==> with_all(entries, records).contains_key(
                (#[trigger] records[i]).0,
            ),
        forall|key: Seq<char>| #[trigger]
            with_all(entries, records).contains_key(key) ==> entries.contains_pair(
                key,
                with_all(entries, records)[key],
            ) || records.contains((key, with_all(entries, records)[key])),
    decreases records.len(),
{
    if records.len() > 0 {
        let rest = records.drop_last();
        let before = with_all(entries, rest);
        let after = with_all(entries, records);
        found_in_all(entries, rest);
        assert forall|i: int| 0 <= i < records.len() implies after.contains_key(
            (#[trigger] records[i]).0,
        ) by {
            if i < rest.len() {
                assert(rest[i] == records[i]);
            }
        }
        assert forall|key: Seq<char>| #[trigger] after.contains_key(key) implies entries.contains_pair(
            key,
            after[key],
        ) || records.contains((key, after[key])) by {
            if key == records.last().0 {
                assert(records[records.len() - 1] == (key, after[key]));
            } else {
                assert(before.contains_key(key));
                if rest.contains((key, after[key])) {
                    let i = choose|i: int| 0 <= i < rest.len() && rest[i] == (key, after[key]);
                    assert(records[i] == (key, after[key]));
                }
            }
        }
    }
}

/// Whether `entries` stand for `node` at `root`: there is an entry under the key of every
/// leaf, whatever became of it, and every entry is true of a leaf with its key. Where names
/// are written in UTF-8 and none repeats, no two leaves share a key: the entry under the
/// key of a leaf is then true of that leaf. `remaining` bytes may be read of all leaves.
pub open spec fn represents(
    entries: Map<Seq<char>, EntryView>,
    root: Seq<u8>,
    node: Node,
    limits: Limits,
    remaining: nat,
) -> bool {
    let found = leaves(seq![], node);
    &&& forall|i: int|
        0 <= i < found.len() ==> entries.contains_key(leaf_key(root, #[trigger] found[i]))
    &&& forall|key: Seq<char>| #[trigger]
        entries.contains_key(key) ==> exists|i: int|
            0 <= i < found.len() && leaf_key(root, #[trigger] found[i]) == key && is_true_of(
                entries[key],
                found[i].node,
                limits,
                left_at(found, i, limits, remaining),
            )
    &&& has_utf8_names(node) && has_distinct_names(node) ==> forall|i: int|
        0 <= i < found.len() ==> is_true_of(
            entries[leaf_key(root, #[trigger] found[i])],
            found[i].node,
            limits,
            left_at(found, i, limits, remaining),
        )
}

/// Where no two leaves share a key, the record of each leaf is what is found under its key.
proof fn records_are_found(root: Seq<u8>, node: Node, limits: Limits, remaining: nat)
    requires
        has_utf8_names(node),
        has_distinct_names(node),
    ensures
        ({
            let records = capture(root, root, node, limits, remaining).0;
            let found = leaves(seq![], node);
            &&& records.len() == found.len()
            &&& forall|i: int|
                0 <= i < found.len() ==> with_all(Map::empty(), records)[leaf_key(
                    root,
                    #[trigger] found[i],
                )] == records[i].1
        }),
{
    let records = capture(root, root, node, limits, remaining).0;
    let found = leaves(seq![], node);
    assert(path_below(root, seq![]) == root);
    leaves_get_the_records(root, seq![], node, limits, remaining);
    assert forall|i: int, j: int| 0 <= i < j < records.len() implies (#[trigger] records[i]).0 != (
    #[trigger] records[j]).0 by {
        if records[i].0 == records[j].0 {
            leaf_keys_are_told_apart(root, node, i, j);
        }
    }
    with_all_distinct(records);
    assert forall|i: int| 0 <= i < found.len() implies with_all(Map::empty(), records)[leaf_key(
        root,
        #[trigger] found[i],
    )] == records[i].1 by {
        assert(records[i].0 == leaf_key(root, found[i]));
        assert(with_all(Map::empty(), records).contains_pair(records[i].0, records[i].1));
    }
}

/// A directory at the root is captured, and what is recorded of it stands for it.
pub proof fn every_leaf_is_represented(root: Seq<u8>, node: Node, limits: Limits, remaining: nat)
    requires
        node is Directory,
        can_be_measured(node, limits),
    ensures
        capture_tree(root, node, limits, remaining) is Ok,
        represents(
            capture_tree(root, node, limits, remaining)->Ok_0.0,
            root,
            node,
            limits,
            remaining,
        ),
        capture_tree(root, node, limits, remaining)->Ok_0.1 == left_at(
            leaves(seq![], node),
            leaves(seq![], node).len() as int,
            limits,
            remaining,
        ),
{
    let records = capture(root, root, node, limits, remaining).0;
    let entries = capture_tree(root, node, limits, remaining)->Ok_0.0;
    let found = leaves(seq![], node);
    assert(path_below(root, seq![]) == root);
    leaves_are_recorded(root, seq![], node, limits, remaining);
    found_in_all(Map::empty(), records);
    assert forall|i: int| 0 <= i < found.len() implies entries.contains_key(
        leaf_key(root, #[trigger] found[i]),
    ) by {
        assert(records[i].0 == leaf_key(root, found[i]));
    }
    assert forall|key: Seq<char>| #[trigger] entries.contains_key(key) implies exists|i: int|
        0 <= i < found.len() && leaf_key(root, #[trigger] found[i]) == key && is_true_of(
            entries[key],
            found[i].node,
            limits,
            left_at(found, i, limits, remaining),
        ) by {
        assert(records.contains((key, entries[key])));
        let i = choose|i: int| 0 <= i < records.len() && records[i] == (key, entries[key]);
        assert(leaf_key(root, found[i]) == key);
    }
    if has_utf8_names(node) && has_distinct_names(node) {
        records_are_found(root, node, limits, remaining);
        assert forall|i: int| 0 <= i < found.len() implies is_true_of(
            entries[leaf_key(root, #[trigger] found[i])],
            found[i].node,
            limits,
            left_at(found, i, limits, remaining),
        ) by {
            let left = left_at(found, i, limits, remaining);
            assert(is_true_of(records[i].1, found[i].node, limits, left));
        }
    }
}

/// Where names are written in UTF-8, there is an entry under the key of what `names` lead
/// to exactly where a leaf has these names: none for a directory that could be listed, and
/// none for what is not in the tree.
pub proof fn entries_are_those_of_the_leaves(
    root: Seq<u8>,
    node: Node,
    limits: Limits,
    remaining: nat,
    names: Seq<Seq<u8>>,
)
    requires
        node is Directory,
        has_utf8_names(node),
        are_utf8_names(names),
    ensures
        capture_tree(root, node, limits, remaining)->Ok_0.0.contains_key(
            key_of(root, path_below(root, names)),
        ) <==> exists|i: int|
            0 <= i < leaves(seq![], node).len() && (#[trigger] leaves(seq![], node)[i]).names
                == names,
{
    let records = capture(root, root, node, limits, remaining).0;
    let entries = capture_tree(root, node, limits, remaining)->Ok_0.0;
    let found = leaves(seq![], node);
    let key = key_of(root, path_below(root, names));
    assert(path_below(root, seq![]) == root);
    leaves_get_the_records(root, seq![], node, limits, remaining);
    leaves_have_utf8_names(seq![], node);
    found_in_all(Map::empty(), records);
    if entries.contains_key(key) {
        assert(records.contains((key, entries[key])));
        let i = choose|i: int| 0 <= i < records.len() && records[i] == (key, entries[key]);
        assert(leaf_key(root, found[i]) == key);
        keys_are_told_apart(root, found[i].names, names);
    }
    if exists|i: int| 0 <= i < found.len() && (#[trigger] found[i]).names == names {
        let i = choose|i: int| 0 <= i < found.len() && (#[trigger] found[i]).names == names;
        assert(records[i].0 == key);
    }
}

/// Where names are written in UTF-8 and none repeats, nothing is recorded below anything
/// else that is: not below a link, nor below a file or a directory that could not be listed.
pub proof fn no_key_lies_below_another(
    root: Seq<u8>,
    node: Node,
    limits: Limits,
    remaining: nat,
    a: Seq<char>,
    b: Seq<char>,
)
    requires
        has_utf8_names(node),
        has_distinct_names(node),
        capture_tree(root, node, limits, remaining) is Ok,
        capture_tree(root, node, limits, remaining)->Ok_0.0.contains_key(a),
        capture_tree(root, node, limits, remaining)->Ok_0.0.contains_key(b),
    ensures
        !lies_below(a, b),
{
    let records = capture(root, root, node, limits, remaining).0;
    let entries = capture_tree(root, node, limits, remaining)->Ok_0.0;
    let found = leaves(seq![], node);
    assert(path_below(root, seq![]) == root);
    leaves_get_the_records(root, seq![], node, limits, remaining);
    leaves_have_utf8_names(seq![], node);
    leaves_are_told_apart(seq![], node);
    found_in_all(Map::empty(), records);
    assert(records.contains((a, entries[a])));
    assert(records.contains((b, entries[b])));
    let i = choose|i: int| 0 <= i < records.len() && records[i] == (a, entries[a]);
    let j = choose|j: int| 0 <= j < records.len() && records[j] == (b, entries[b]);
    assert(leaf_key(root, found[i]) == a && leaf_key(root, found[j]) == b);
    if lies_below(a, b) {
        let below = found[i].names;
        let above = found[j].names;
        key_below_goes_through(root, below, above);
        assert forall|k: int| 0 <= k < above.len() implies below[k] == #[trigger] above[k] by {
            assert(below.take(above.len() as int)[k] == above[k]);
        }
        assert(leads_through(above, below));
        assert(a.len() > b.len());
    }
}

/// A snapshot stands for both trees that it was taken of: the first under the first root,
/// the second under the second, and of the second as much may be read as the first has left
/// of the total.
pub proof fn snapshots_represent_their_trees(
    proc_root: Seq<u8>,
    sys_root: Seq<u8>,
    limits: Limits,
    status: Result<Seq<char>, IoErrorView>,
    proc: Node,
    sys: Node,
)
    requires
        snapshot_of(proc_root, sys_root, limits, status, proc, sys) is Ok,
        can_be_measured(proc, limits),
        can_be_measured(sys, limits),
    ensures
        ({
            let snapshot = snapshot_of(proc_root, sys_root, limits, status, proc, sys)->Ok_0;
            let total = limits.max_total_bytes as nat;
            let found = leaves(seq![], proc);
            represents(snapshot.proc, proc_root, proc, limits, total) && represents(
                snapshot.sys,
                sys_root,
                sys,
                limits,
                left_at(found, found.len() as int, limits, total),
            )
        }),
{
    let total = limits.max_total_bytes as nat;
    every_leaf_is_represented(proc_root, proc, limits, total);
    let left = capture_tree(proc_root, proc, limits, total)->Ok_0.1;
    every_leaf_is_represented(sys_root, sys, limits, left);
}

/// How many bytes it takes to capture `node` with none of it left out for want of them.
pub open spec fn weight(node: Node) -> nat
    decreases node, 0nat,
{
    match node {
        Node::File { len, content: Ok(bytes) } => if bytes.len() <= len {
            len as nat
        } else {
            bytes.len()
        },
        Node::File { len, .. } => len as nat,
        Node::Directory { children, .. } => weight_of_children(children, 0),
        _ => 0,
    }
}

/// The same of `children`, from the one at `from` on.
pub open spec fn weight_of_children(children: Seq<Child>, from: nat) -> nat
    decreases children, children.len() - from,
{
    if from >= children.len() {
        0
    } else {
        weight(children[from as int].node) + weight_of_children(children, from + 1)
    }
}

/// Whether a file that can be read, is text, and claims and holds no more than an entry
/// may, is captured whole; and nothing is left out for want of bytes.
pub open spec fn is_given_in_full(entry: EntryView, node: Node, limits: Limits) -> bool {
    &&& entry != (EntryView::Excluded { reason: Reason::TotalLimit })
    &&& match node {
        Node::File { len, content: Ok(bytes) } => len <= limits.max_entry_bytes && bytes.len()
            <= limits.max_entry_bytes && is_text_bytes(bytes) ==> entry == (EntryView::Captured {
            content: decode_utf8(bytes),
        }),
        _ => true,
    }
}

/// Where more bytes may be read than all files claim or hold, nothing is left out for
/// want of them: every file that can be read, is text and fits into an entry is captured
/// whole.
pub proof fn what_fits_is_captured(
    root: Seq<u8>,
    names: Seq<Seq<u8>>,
    node: Node,
    limits: Limits,
    remaining: nat,
)
    requires
        weight(node) < remaining,
    ensures
        ({
            let captured = capture(root, path_below(root, names), node, limits, remaining);
            let found = leaves(names, node);
            &&& captured.1 + weight(node) >= remaining
            &&& captured.0.len() == found.len()
            &&& forall|i: int|
                0 <= i < found.len() ==> is_given_in_full(
                    captured.0[i].1,
                    (#[trigger] found[i]).node,
                    limits,
                )
        }),
    decreases node, 0nat,
{
    match node {
        Node::Directory { children, .. } => {
            children_that_fit_are_captured(root, names, children, 0, limits, remaining);
        },
        Node::File { len, content: Ok(bytes) } => {
            assert(bytes.take(bytes.len() as int) =~= bytes);
        },
        _ => {},
    }
}

/// The same of the children of a directory.
proof fn children_that_fit_are_captured(
    root: Seq<u8>,
    names: Seq<Seq<u8>>,
    children: Seq<Child>,
    from: nat,
    limits: Limits,
    remaining: nat,
)
    requires
        weight_of_children(children, from) < remaining,
    ensures
        ({
            let captured = capture_children(
                root,
                path_below(root, names),
                children,
                from,
                limits,
                remaining,
            );
            let found = leaves_of_children(names, children, from);
            &&& captured.1 + weight_of_children(children, from) >= remaining
            &&& captured.0.len() == found.len()
            &&& forall|i: int|
                0 <= i < found.len() ==> is_given_in_full(
                    captured.0[i].1,
                    (#[trigger] found[i]).node,
                    limits,
                )
        }),
    decreases children, children.len() - from,
{
    if from < children.len() {
        let child = children[from as int];
        let down = names.push(child.name);
        assert(down.drop_last() =~= names);
        let path = path_below(root, down);
        let first = capture(root, path, child.node, limits, remaining);
        what_fits_is_captured(root, down, child.node, limits, remaining);
        children_that_fit_are_captured(root, names, children, from + 1, limits, first.1);
    }
}

/// Whether every one of `entries` gives a leaf of `node` with its key in full; and, where
/// names are written in UTF-8 and none repeats, the entry under the key of a leaf gives
/// that leaf in full.
pub open spec fn gives_in_full(
    entries: Map<Seq<char>, EntryView>,
    root: Seq<u8>,
    node: Node,
    limits: Limits,
) -> bool {
    let found = leaves(seq![], node);
    &&& forall|key: Seq<char>| #[trigger]
        entries.contains_key(key) ==> exists|i: int|
            0 <= i < found.len() && leaf_key(root, #[trigger] found[i]) == key
                && is_given_in_full(entries[key], found[i].node, limits)
    &&& has_utf8_names(node) && has_distinct_names(node) ==> forall|i: int|
        0 <= i < found.len() ==> is_given_in_full(
            entries[leaf_key(root, #[trigger] found[i])],
            found[i].node,
            limits,
        )
}

/// What a tree that fits comes to.
proof fn tree_that_fits_is_given_in_full(
    root: Seq<u8>,
    node: Node,
    limits: Limits,
    remaining: nat,
)
    requires
        weight(node) < remaining,
        capture_tree(root, node, limits, remaining) is Ok,
    ensures
        capture_tree(root, node, limits, remaining)->Ok_0.1 + weight(node) >= remaining,
        gives_in_full(capture_tree(root, node, limits, remaining)->Ok_0.0, root, node, limits),
{
    let records = capture(root, root, node, limits, remaining).0;
    let entries = capture_tree(root, node, limits, remaining)->Ok_0.0;
    let found = leaves(seq![], node);
    assert(path_below(root, seq![]) == root);
    leaves_get_the_records(root, seq![], node, limits, remaining);
    what_fits_is_captured(root, seq![], node, limits, remaining);
    found_in_all(Map::empty(), records);
    assert forall|key: Seq<char>| #[trigger] entries.contains_key(key) implies exists|i: int|
        0 <= i < found.len() && leaf_key(root, #[trigger] found[i]) == key && is_given_in_full(
            entries[key],
            found[i].node,
            limits,
        ) by {
        assert(records.contains((key, entries[key])));
        let i = choose|i: int| 0 <= i < records.len() && records[i] == (key, entries[key]);
        assert(leaf_key(root, found[i]) == key);
    }
    if has_utf8_names(node) && has_distinct_names(node) {
        records_are_found(root, node, limits, remaining);
    }
}

/// A snapshot of two trees whose files together claim and hold less than may be read
/// leaves nothing out for want of bytes.
pub proof fn snapshots_hold_what_fits(
    proc_root: Seq<u8>,
    sys_root: Seq<u8>,
    limits: Limits,
    status: Result<Seq<char>, IoErrorView>,
    proc: Node,
    sys: Node,
)
    requires
        snapshot_of(proc_root, sys_root, limits, status, proc, sys) is Ok,
        weight(proc) + weight(sys) < limits.max_total_bytes,
    ensures
        ({
            let snapshot = snapshot_of(proc_root, sys_root, limits, status, proc, sys)->Ok_0;
            gives_in_full(snapshot.proc, proc_root, proc, limits) && gives_in_full(
                snapshot.sys,
                sys_root,
                sys,
                limits,
            )
        }),
{
    let total = limits.max_total_bytes as nat;
    tree_that_fits_is_given_in_full(proc_root, proc, limits, total);
    let left = capture_tree(proc_root, proc, limits, total)->Ok_0.1;
    tree_that_fits_is_given_in_full(sys_root, sys, limits, left);
}

} // verus!
