//! What a session makes of two trees.
use crate::budget::Limits;
use crate::entry::EntryView;
use crate::error::IoErrorView;
use crate::observation::finished_walk_has_seen_a_tree;
use crate::protocol::{ReplyView, RequestView};
use crate::snapshot::{snapshot_failure, PhaseView, SessionView, SnapshotView, FORMAT_VERSION};
use crate::status::{context_read, ids, ExecutionContext};
use crate::text::mended_utf8;
use crate::tree::{
    capture_tree, only_listed_directories_are_captured, replies_of_tree, requests_of_tree,
    walk_asks_for_the_tree, walk_captures_tree, Node,
};
use crate::walk::{StepView, WalkView};
use vstd::prelude::*;
use vstd::utf8::{decode_utf8, valid_utf8};

verus! {

/// The session, walking one of the trees.
spec fn walking(
    session: SessionView,
    execution: ExecutionContext,
    proc: Option<Map<Seq<char>, EntryView>>,
    walk: WalkView,
) -> SessionView {
    session.at(
        match proc {
            None => PhaseView::Proc { execution, walk },
            Some(proc) => PhaseView::Sys { execution, proc, walk },
        },
    )
}

/// The session once the walk of one of the trees has ended at `walk`.
spec fn walked(
    session: SessionView,
    execution: ExecutionContext,
    proc: Option<Map<Seq<char>, EntryView>>,
    walk: WalkView,
) -> SessionView {
    session.at(
        match (walk.step, proc) {
            (StepView::Failed { error }, None) => PhaseView::Finished {
                result: Err(snapshot_failure(session.proc_root, error)),
            },
            (StepView::Failed { error }, Some(_)) => PhaseView::Finished {
                result: Err(snapshot_failure(session.sys_root, error)),
            },
            (_, None) => PhaseView::Sys {
                execution,
                proc: walk.entries,
                walk: WalkView::start(session.sys_root, session.limits, walk.remaining),
            },
            (_, Some(proc)) => PhaseView::Finished {
                result: Ok(
                    SnapshotView {
                        format_version: FORMAT_VERSION,
                        execution,
                        limits: session.limits,
                        proc,
                        sys: walk.entries,
                    },
                ),
            },
        },
    )
}

/// A session tells its walk what it is told, up to the walk's end.
proof fn session_walks(
    session: SessionView,
    execution: ExecutionContext,
    proc: Option<Map<Seq<char>, EntryView>>,
    walk: WalkView,
    replies: Seq<ReplyView>,
)
    requires
        replies.len() > 0,
        walk.is_answered_by(replies),
        walk.after_all(replies).request() is None,
    ensures
        walking(session, execution, proc, walk).is_answered_by(replies),
        walking(session, execution, proc, walk).after_all(replies) == walked(
            session,
            execution,
            proc,
            walk.after_all(replies),
        ),
    decreases replies.len(),
{
    let here = walking(session, execution, proc, walk);
    let rest = replies.drop_first();
    let next = walk.after(replies[0]);
    reveal_with_fuel(WalkView::after_all, 2);
    reveal_with_fuel(WalkView::is_answered_by, 2);
    reveal_with_fuel(SessionView::after_all, 2);
    reveal_with_fuel(SessionView::is_answered_by, 2);
    if rest.len() > 0 {
        assert(here.after(replies[0]) == walking(session, execution, proc, next));
        session_walks(session, execution, proc, next, rest);
    } else {
        assert(here.after(replies[0]) == walked(session, execution, proc, next));
    }
}

/// A session may be told replies one part after the other.
proof fn session_in_parts(session: SessionView, first: Seq<ReplyView>, second: Seq<ReplyView>)
    ensures
        session.after_all(first + second) == session.after_all(first).after_all(second),
        session.is_answered_by(first + second) == (session.is_answered_by(first)
            && session.after_all(first).is_answered_by(second)),
    decreases first.len(),
{
    if first.len() == 0 {
        assert(first + second =~= second);
    } else {
        assert((first + second).drop_first() =~= first.drop_first() + second);
        session_in_parts(session.after(first[0]), first.drop_first(), second);
    }
}

/// The snapshot of two trees: `proc` stands at the first root and `sys` at the second,
/// and `status` is what reading `/proc/self/status` gave. The second tree has what the
/// first left of the bytes that may be read.
pub open spec fn snapshot_of(
    proc_root: Seq<u8>,
    sys_root: Seq<u8>,
    limits: Limits,
    status: Result<Seq<char>, IoErrorView>,
    proc: Node,
    sys: Node,
) -> Result<SnapshotView, Seq<char>> {
    match context_read(status) {
        Err(message) => Err(message),
        Ok(execution) => match capture_tree(
            proc_root,
            proc,
            limits,
            limits.max_total_bytes as nat,
        ) {
            Err(error) => Err(snapshot_failure(proc_root, error)),
            Ok((proc_entries, left)) => match capture_tree(sys_root, sys, limits, left) {
                Err(error) => Err(snapshot_failure(sys_root, error)),
                Ok((sys_entries, _)) => Ok(
                    SnapshotView {
                        format_version: FORMAT_VERSION,
                        execution,
                        limits,
                        proc: proc_entries,
                        sys: sys_entries,
                    },
                ),
            },
        },
    }
}

/// What a session is told where these trees stand at its roots.
pub open spec fn replies_of_trees(
    proc_root: Seq<u8>,
    sys_root: Seq<u8>,
    limits: Limits,
    status: Result<Seq<char>, IoErrorView>,
    proc: Node,
    sys: Node,
) -> Seq<ReplyView> {
    let total = limits.max_total_bytes as nat;
    let first = seq![ReplyView::Status(status)];
    let second = replies_of_tree(proc_root, proc, limits, total);
    match (context_read(status), capture_tree(proc_root, proc, limits, total)) {
        (Err(_), _) => first,
        (Ok(_), Err(_)) => first + second,
        (Ok(_), Ok((_, left))) => first + second + replies_of_tree(sys_root, sys, limits, left),
    }
}

/// Whatever stands at the two roots: a session that is told what it asks for, no more,
/// comes to its end, and has then made of the two trees what `snapshot_of` says.
pub proof fn session_takes_snapshot(
    proc_root: Seq<u8>,
    sys_root: Seq<u8>,
    limits: Limits,
    status: Result<Seq<char>, IoErrorView>,
    proc: Node,
    sys: Node,
)
    requires
        proc.is_orderly(),
        sys.is_orderly(),
    ensures
        ({
            let start = SessionView::start(proc_root, sys_root, limits);
            let told = replies_of_trees(proc_root, sys_root, limits, status, proc, sys);
            &&& start.is_answered_by(told)
            &&& start.after_all(told).phase == (PhaseView::Finished {
                result: snapshot_of(proc_root, sys_root, limits, status, proc, sys),
            })
        }),
{
    let start = SessionView::start(proc_root, sys_root, limits);
    let total = limits.max_total_bytes as nat;
    let first = seq![ReplyView::Status(status)];
    reveal_with_fuel(SessionView::after_all, 2);
    reveal_with_fuel(SessionView::is_answered_by, 2);
    assert(first.drop_first() =~= seq![]);
    assert(start.after_all(first) == start.after(ReplyView::Status(status)));
    assert(start.is_answered_by(first));
    if let Ok(execution) = context_read(status) {
        let second = replies_of_tree(proc_root, proc, limits, total);
        let walk = WalkView::start(proc_root, limits, total);
        walk_captures_tree(proc_root, proc, limits, total);
        session_walks(start, execution, None, walk, second);
        session_in_parts(start, first, second);
        if let Ok((entries, left)) = capture_tree(proc_root, proc, limits, total) {
            let third = replies_of_tree(sys_root, sys, limits, left);
            walk_captures_tree(sys_root, sys, limits, left);
            session_walks(
                start,
                execution,
                Some(entries),
                WalkView::start(sys_root, limits, left),
                third,
            );
            session_in_parts(start, first + second, third);
        }
    }
}

/// How many replies it takes until the walk of one of the trees has ended.
proof fn walk_ends(
    session: SessionView,
    execution: ExecutionContext,
    proc: Option<Map<Seq<char>, EntryView>>,
    walk: WalkView,
    told: Seq<ReplyView>,
) -> (n: int)
    requires
        walk.request() is Some,
        walking(session, execution, proc, walk).is_obeyed_by(told),
        walking(session, execution, proc, walk).after_all(told).request() is None,
    ensures
        0 < n <= told.len(),
        walk.is_obeyed_by(told.take(n)),
        walk.after_all(told.take(n)).request() is None,
        ({
            let then = walked(session, execution, proc, walk.after_all(told.take(n)));
            then.is_obeyed_by(told.skip(n)) && then.after_all(told.skip(n)).request() is None
        }),
    decreases told.len(),
{
    let here = walking(session, execution, proc, walk);
    assert(told.len() > 0);
    let rest = told.drop_first();
    let next = walk.after(told[0]);
    reveal_with_fuel(WalkView::after_all, 2);
    reveal_with_fuel(WalkView::is_obeyed_by, 2);
    if next.request() is None {
        assert(here.after(told[0]) == walked(session, execution, proc, next));
        assert(told.take(1).drop_first() =~= seq![]);
        assert(told.skip(1) =~= rest);
        1
    } else {
        assert(here.after(told[0]) == walking(session, execution, proc, next));
        let n = walk_ends(session, execution, proc, next, rest);
        assert(told.take(n + 1).drop_first() =~= rest.take(n));
        assert(told.skip(n + 1) =~= rest.skip(n));
        n + 1
    }
}

/// A session that has ended is told nothing more.
proof fn end_is_the_end(session: SessionView, told: Seq<ReplyView>)
    requires
        session.phase is Finished,
        session.is_obeyed_by(told),
    ensures
        told.len() == 0,
{
}

/// Whatever a session is told, as long as it is told no more than it asks for: once it
/// comes to its end there are two trees that it has been told of, no more and no less,
/// and what it came to is the snapshot of those.
pub proof fn finished_session_has_seen_trees(
    proc_root: Seq<u8>,
    sys_root: Seq<u8>,
    limits: Limits,
    told: Seq<ReplyView>,
) -> (seen: (Result<Seq<char>, IoErrorView>, Node, Node))
    requires
        SessionView::start(proc_root, sys_root, limits).is_obeyed_by(told),
        SessionView::start(proc_root, sys_root, limits).after_all(told).request() is None,
    ensures
        seen.1.is_orderly(),
        seen.2.is_orderly(),
        told == replies_of_trees(proc_root, sys_root, limits, seen.0, seen.1, seen.2),
        SessionView::start(proc_root, sys_root, limits).after_all(told).phase
            == (PhaseView::Finished {
            result: snapshot_of(proc_root, sys_root, limits, seen.0, seen.1, seen.2),
        }),
{
    let start = SessionView::start(proc_root, sys_root, limits);
    let total = limits.max_total_bytes as nat;
    assert(told.len() > 0);
    let status = told[0]->Status_0;
    let first = seq![ReplyView::Status(status)];
    let rest = told.drop_first();
    assert(told =~= first + rest);
    let seen = match context_read(status) {
        Err(message) => {
            end_is_the_end(start.after(told[0]), rest);
            assert(told =~= first);
            (status, Node::Special, Node::Special)
        },
        Ok(execution) => {
            let walk = WalkView::start(proc_root, limits, total);
            let n = walk_ends(start, execution, None, walk, rest);
            let second = rest.take(n);
            let others = rest.skip(n);
            let end = walk.after_all(second);
            let proc = finished_walk_has_seen_a_tree(proc_root, limits, total, second);
            let then = walked(start, execution, None, end);
            walk_captures_tree(proc_root, proc, limits, total);
            assert(rest =~= second + others);
            if let Ok((entries, left)) = capture_tree(proc_root, proc, limits, total) {
                let walk = WalkView::start(sys_root, limits, left);
                let m = walk_ends(start, execution, Some(entries), walk, others);
                let third = others.take(m);
                let sys = finished_walk_has_seen_a_tree(sys_root, limits, left, third);
                end_is_the_end(
                    walked(start, execution, Some(entries), walk.after_all(third)),
                    others.skip(m),
                );
                assert(third =~= others);
                assert(told =~= first + second + third);
                (status, proc, sys)
            } else {
                end_is_the_end(then, others);
                assert(told =~= first + second);
                (status, proc, Node::Special)
            }
        },
    };
    session_takes_snapshot(proc_root, sys_root, limits, seen.0, seen.1, seen.2);
    seen
}

/// What a session asks for where these trees stand at its roots: the status first, then the
/// first tree, and then the second. Nothing more is asked for once something has failed.
pub open spec fn requests_of_trees(
    proc_root: Seq<u8>,
    sys_root: Seq<u8>,
    limits: Limits,
    status: Result<Seq<char>, IoErrorView>,
    proc: Node,
    sys: Node,
) -> Seq<RequestView> {
    let total = limits.max_total_bytes as nat;
    let first = seq![RequestView::Status];
    let second = requests_of_tree(proc_root, proc, limits, total);
    match (context_read(status), capture_tree(proc_root, proc, limits, total)) {
        (Err(_), _) => first,
        (Ok(_), Err(_)) => first + second,
        (Ok(_), Ok((_, left))) => first + second + requests_of_tree(sys_root, sys, limits, left),
    }
}

/// A session asks for what its walk asks for.
proof fn session_asks_as_its_walk(
    session: SessionView,
    execution: ExecutionContext,
    proc: Option<Map<Seq<char>, EntryView>>,
    walk: WalkView,
    asked: Seq<RequestView>,
    told: Seq<ReplyView>,
)
    requires
        told.len() > 0,
        walk.asks(asked, told),
    ensures
        walking(session, execution, proc, walk).asks(asked, told),
    decreases told.len(),
{
    let here = walking(session, execution, proc, walk);
    let next = walk.after(told[0]);
    let rest = told.drop_first();
    reveal_with_fuel(WalkView::asks, 2);
    reveal_with_fuel(SessionView::asks, 2);
    if rest.len() > 0 {
        assert(next.request() is Some);
        assert(here.after(told[0]) == walking(session, execution, proc, next));
        session_asks_as_its_walk(session, execution, proc, next, asked.drop_first(), rest);
    }
}

/// A session may ask one part after the other.
proof fn session_asks_in_parts(
    session: SessionView,
    asked: Seq<RequestView>,
    told: Seq<ReplyView>,
    more: Seq<RequestView>,
    rest: Seq<ReplyView>,
)
    requires
        session.asks(asked, told),
        session.after_all(told).asks(more, rest),
    ensures
        session.asks(asked + more, told + rest),
    decreases told.len(),
{
    if told.len() == 0 {
        assert(asked + more =~= more);
        assert(told + rest =~= rest);
    } else {
        assert((told + rest).drop_first() =~= told.drop_first() + rest);
        assert((asked + more).drop_first() =~= asked.drop_first() + more);
        session_asks_in_parts(
            session.after(told[0]),
            asked.drop_first(),
            told.drop_first(),
            more,
            rest,
        );
    }
}

/// Whatever stands at the two roots: a session asks for just what `requests_of_trees` says,
/// in that order.
pub proof fn session_asks_for_the_trees(
    proc_root: Seq<u8>,
    sys_root: Seq<u8>,
    limits: Limits,
    status: Result<Seq<char>, IoErrorView>,
    proc: Node,
    sys: Node,
)
    requires
        proc.is_orderly(),
        sys.is_orderly(),
    ensures
        SessionView::start(proc_root, sys_root, limits).asks(
            requests_of_trees(proc_root, sys_root, limits, status, proc, sys),
            replies_of_trees(proc_root, sys_root, limits, status, proc, sys),
        ),
{
    let start = SessionView::start(proc_root, sys_root, limits);
    let total = limits.max_total_bytes as nat;
    let first = seq![ReplyView::Status(status)];
    let asked = seq![RequestView::Status];
    reveal_with_fuel(SessionView::after_all, 2);
    reveal_with_fuel(SessionView::asks, 2);
    assert(first.drop_first() =~= seq![]);
    assert(asked.drop_first() =~= seq![]);
    assert(start.after_all(first) == start.after(ReplyView::Status(status)));
    assert(start.asks(asked, first));
    if let Ok(execution) = context_read(status) {
        let second = replies_of_tree(proc_root, proc, limits, total);
        let then = requests_of_tree(proc_root, proc, limits, total);
        let walk = WalkView::start(proc_root, limits, total);
        walk_captures_tree(proc_root, proc, limits, total);
        walk_asks_for_the_tree(proc_root, proc, limits, total);
        session_walks(start, execution, None, walk, second);
        session_asks_as_its_walk(start, execution, None, walk, then, second);
        session_in_parts(start, first, second);
        session_asks_in_parts(start, asked, first, then, second);
        if let Ok((entries, left)) = capture_tree(proc_root, proc, limits, total) {
            let third = replies_of_tree(sys_root, sys, limits, left);
            let last = requests_of_tree(sys_root, sys, limits, left);
            let walk = WalkView::start(sys_root, limits, left);
            walk_captures_tree(sys_root, sys, limits, left);
            walk_asks_for_the_tree(sys_root, sys, limits, left);
            session_asks_as_its_walk(start, execution, Some(entries), walk, last, third);
            session_asks_in_parts(start, asked + then, first + second, last, third);
        }
    }
}

/// Whether `message` says that `root` could not be captured, and why.
pub open spec fn is_failure_of(message: Seq<char>, root: Seq<u8>, error: IoErrorView) -> bool {
    &&& valid_utf8(root) ==> message == "failed to snapshot "@ + decode_utf8(root) + ": "@
        + error.message
    &&& !valid_utf8(root) ==> message == "failed to snapshot "@ + mended_utf8(root) + ": "@
        + error.message
}

/// A snapshot is taken exactly where the status tells user and group, and directories that
/// can be listed stand at both roots: nothing else that is found makes it fail. It carries
/// version 1, the limits, and the ids that the status tells. Where it fails the message says
/// what could not be read: the status, or else the first root, or else the second.
pub proof fn snapshots_succeed_and_fail(
    proc_root: Seq<u8>,
    sys_root: Seq<u8>,
    limits: Limits,
    status: Result<Seq<char>, IoErrorView>,
    proc: Node,
    sys: Node,
)
    ensures
        ({
            let told = match status {
                Ok(text) => ids(text, "Uid:"@) is Some && ids(text, "Gid:"@) is Some,
                Err(_) => false,
            };
            let total = limits.max_total_bytes as nat;
            match snapshot_of(proc_root, sys_root, limits, status, proc, sys) {
                Ok(snapshot) => {
                    &&& told && proc is Directory && sys is Directory
                    &&& snapshot.format_version == 1
                    &&& snapshot.limits == limits
                    &&& ids(status->Ok_0, "Uid:"@) == Some(
                        (snapshot.execution.uid, snapshot.execution.euid),
                    )
                    &&& ids(status->Ok_0, "Gid:"@) == Some(
                        (snapshot.execution.gid, snapshot.execution.egid),
                    )
                },
                Err(message) => if !told {
                    message == match status {
                        Ok(_) => "invalid /proc/self/status"@,
                        Err(error) => "failed to read /proc/self/status: "@ + error.message,
                    }
                } else if !(proc is Directory) {
                    &&& capture_tree(proc_root, proc, limits, total) matches Err(error)
                    &&& is_failure_of(message, proc_root, error)
                } else {
                    &&& capture_tree(proc_root, proc, limits, total) matches Ok((_, left))
                    &&& capture_tree(sys_root, sys, limits, left) matches Err(error)
                    &&& is_failure_of(message, sys_root, error)
                    &&& !(sys is Directory)
                },
            }
        }),
{
    let total = limits.max_total_bytes as nat;
    only_listed_directories_are_captured(proc_root, proc, limits, total);
    if let Ok((_, left)) = capture_tree(proc_root, proc, limits, total) {
        only_listed_directories_are_captured(sys_root, sys, limits, left);
    }
}

} // verus!
