//! How much a snapshot holds, and how much is read for it.
use crate::budget::{at_most, Limits};
use crate::capture::{content_entry, left_after};
use crate::entry::EntryView;
use crate::error::IoErrorView;
use crate::path::key_of;
use crate::protocol::{answers, bytes_in, is_no_more_than, ReplyView};
use crate::snapshot::{PhaseView, SessionView, SnapshotView, FORMAT_VERSION};
use crate::text::is_text_bytes;
use crate::walk::{StepView, WalkView};
use vstd::prelude::*;
use vstd::utf8::encode_utf8;

verus! {

/// How many bytes of content `entry` holds.
pub open spec fn captured_size(entry: EntryView) -> nat {
    match entry {
        EntryView::Captured { content } => encode_utf8(content).len(),
        _ => 0,
    }
}

/// How many bytes of content `entries` hold together.
pub open spec fn captured_bytes(entries: Map<Seq<char>, EntryView>) -> nat
    decreases entries.dom().len(),
    when entries.dom().finite()
{
    if entries.dom().len() == 0 {
        0
    } else {
        let key = entries.dom().choose();
        captured_size(entries[key]) + captured_bytes(entries.remove(key))
    }
}

/// Any one entry may be counted first.
proof fn captured_bytes_without(entries: Map<Seq<char>, EntryView>, key: Seq<char>)
    requires
        entries.dom().finite(),
        entries.contains_key(key),
    ensures
        captured_bytes(entries) == captured_size(entries[key]) + captured_bytes(
            entries.remove(key),
        ),
    decreases entries.dom().len(),
{
    let first = entries.dom().choose();
    if key != first {
        captured_bytes_without(entries.remove(first), key);
        captured_bytes_without(entries.remove(key), first);
        assert(entries.remove(first).remove(key) =~= entries.remove(key).remove(first));
    }
}

/// One more entry adds no more than its own size.
proof fn captured_bytes_with(
    entries: Map<Seq<char>, EntryView>,
    key: Seq<char>,
    entry: EntryView,
)
    requires
        entries.dom().finite(),
    ensures
        entries.insert(key, entry).dom().finite(),
        captured_bytes(entries.insert(key, entry)) <= captured_bytes(entries) + captured_size(
            entry,
        ),
{
    let more = entries.insert(key, entry);
    captured_bytes_without(more, key);
    if entries.contains_key(key) {
        captured_bytes_without(entries, key);
        assert(more.remove(key) =~= entries.remove(key));
    } else {
        assert(more.remove(key) =~= entries);
    }
}

/// Whether none of `entries` holds more than an entry may.
pub open spec fn each_within(entries: Map<Seq<char>, EntryView>, limits: Limits) -> bool {
    forall|key: Seq<char>| #[trigger]
        entries.contains_key(key) ==> captured_size(entries[key]) <= limits.max_entry_bytes
}

/// Whether `walk` keeps to its limits, where it could read `bytes` bytes at first: what
/// it holds and what it may still read come to no more than that, and what it is about
/// to read fits into what it may.
pub open spec fn keeps_within(walk: WalkView, bytes: nat) -> bool {
    &&& walk.entries.dom().finite()
    &&& captured_bytes(walk.entries) + walk.remaining <= bytes
    &&& each_within(walk.entries, walk.limits)
    &&& match walk.step {
        StepView::Read { allowance, .. } => walk.remaining > 0 && allowance == at_most(
            walk.remaining,
            walk.limits.max_entry_bytes as nat,
        ),
        _ => true,
    }
}

/// A captured file holds what was read of it, no more than was allowed.
proof fn content_size(read: Result<Seq<u8>, IoErrorView>, allowance: nat, limits: Limits, remaining: nat)
    requires
        allowance <= remaining,
    ensures
        captured_size(content_entry(read, allowance, limits)) <= allowance,
        captured_size(content_entry(read, allowance, limits)) + left_after(read, remaining)
            <= remaining,
{
    if let Ok(bytes) = read {
        if is_text_bytes(bytes) {
            vstd::utf8::decode_utf8_encode_utf8(bytes);
        }
    }
}

/// A walk that keeps to its limits does so whatever it is told.
pub proof fn limits_are_kept(walk: WalkView, reply: ReplyView, bytes: nat)
    requires
        keeps_within(walk, bytes),
    ensures
        keeps_within(walk.after(reply), bytes),
        walk.after(reply).limits == walk.limits,
        walk.after(reply).remaining <= walk.remaining,
{
    match (walk.step, reply) {
        (StepView::Read { path, allowance }, ReplyView::Content(read)) => {
            let entry = content_entry(read, allowance, walk.limits);
            content_size(read, allowance, walk.limits, walk.remaining);
            captured_bytes_with(walk.entries, key_of(walk.root, path), entry);
        },
        (StepView::ReadLink { path }, ReplyView::Target(target)) => {
            captured_bytes_with(
                walk.entries,
                key_of(walk.root, path),
                crate::capture::link_entry(target),
            );
        },
        (StepView::List { path, is_root }, ReplyView::Names(Err(error))) => {
            captured_bytes_with(
                walk.entries,
                key_of(walk.root, path),
                EntryView::Unavailable { reason: crate::error::reason_of(error.kind) },
            );
        },
        (StepView::Inspect { path }, ReplyView::Found(found)) => {
            if let crate::capture::PlanView::Record(entry) = crate::capture::path_plan(
                found,
                walk.limits,
                walk.remaining,
            ) {
                captured_bytes_with(walk.entries, key_of(walk.root, path), entry);
            }
        },
        _ => {},
    }
}

/// Whether `snapshot` keeps to the limits it was taken under.
pub open spec fn is_within_limits(snapshot: SnapshotView) -> bool {
    &&& snapshot.proc.dom().finite() && snapshot.sys.dom().finite()
    &&& each_within(snapshot.proc, snapshot.limits)
    &&& each_within(snapshot.sys, snapshot.limits)
    &&& captured_bytes(snapshot.proc) + captured_bytes(snapshot.sys)
        <= snapshot.limits.max_total_bytes
}

/// Whether `session` keeps to its limits: both trees draw on the same bytes.
pub open spec fn session_keeps_within(session: SessionView) -> bool {
    let total = session.limits.max_total_bytes as nat;
    match session.phase {
        PhaseView::Status => true,
        PhaseView::Proc { walk, .. } => walk.limits == session.limits && keeps_within(walk, total),
        PhaseView::Sys { proc, walk, .. } => {
            &&& walk.limits == session.limits
            &&& proc.dom().finite()
            &&& each_within(proc, session.limits)
            &&& captured_bytes(proc) <= total
            &&& keeps_within(walk, (total - captured_bytes(proc)) as nat)
        },
        PhaseView::Finished { result: Ok(snapshot) } => {
            &&& snapshot.format_version == FORMAT_VERSION
            &&& snapshot.limits == session.limits
            &&& is_within_limits(snapshot)
        },
        PhaseView::Finished { result: Err(_) } => true,
    }
}

/// A session that keeps to its limits does so whatever it is told.
pub proof fn session_limits_are_kept(session: SessionView, reply: ReplyView)
    requires
        session_keeps_within(session),
    ensures
        session_keeps_within(session.after(reply)),
        session.after(reply).limits == session.limits,
{
    let total = session.limits.max_total_bytes as nat;
    let nothing = Map::<Seq<char>, EntryView>::empty();
    assert(captured_bytes(nothing) == 0);
    match session.phase {
        PhaseView::Proc { walk, .. } => {
            limits_are_kept(walk, reply, total);
        },
        PhaseView::Sys { proc, walk, .. } => {
            limits_are_kept(walk, reply, (total - captured_bytes(proc)) as nat);
        },
        _ => {},
    }
}

/// Whatever it is told, a session goes on keeping to its limits.
proof fn session_limits_are_kept_by_all(session: SessionView, replies: Seq<ReplyView>)
    requires
        session_keeps_within(session),
    ensures
        session_keeps_within(session.after_all(replies)),
        session.after_all(replies).limits == session.limits,
    decreases replies.len(),
{
    if replies.len() > 0 {
        session_limits_are_kept(session, replies[0]);
        session_limits_are_kept_by_all(session.after(replies[0]), replies.drop_first());
    }
}

/// Whatever a session is told, a snapshot that it ends with carries the version of the
/// format and the limits that were asked for, holds no entry larger than an entry may
/// be, and holds no more than the total over both trees.
pub proof fn snapshots_are_bounded(
    proc_root: Seq<u8>,
    sys_root: Seq<u8>,
    limits: Limits,
    replies: Seq<ReplyView>,
)
    ensures
        match SessionView::start(proc_root, sys_root, limits).after_all(replies).phase {
            PhaseView::Finished { result: Ok(snapshot) } => {
                &&& snapshot.format_version == FORMAT_VERSION
                &&& snapshot.limits == limits
                &&& is_within_limits(snapshot)
            },
            _ => true,
        },
{
    session_limits_are_kept_by_all(SessionView::start(proc_root, sys_root, limits), replies);
}

/// How many bytes of files `replies` bring together.
pub open spec fn bytes_read(replies: Seq<ReplyView>) -> nat
    decreases replies.len(),
{
    if replies.len() == 0 {
        0
    } else {
        bytes_in(replies[0]) + bytes_read(replies.drop_first())
    }
}

/// Whether `read` bytes are no more than `walk` may have come to: they and what may
/// still be read are no more than `total`, or there is nothing left and the last file
/// brought one byte too many.
spec fn has_read(walk: WalkView, read: nat, total: nat) -> bool {
    read + walk.remaining <= total || (walk.remaining == 0 && read <= total + 1)
}

/// Whether `read` bytes are no more than `session` may have come to.
spec fn session_has_read(session: SessionView, read: nat) -> bool {
    let total = session.limits.max_total_bytes as nat;
    match session.phase {
        PhaseView::Status => read == 0,
        PhaseView::Proc { walk, .. } => has_read(walk, read, total),
        PhaseView::Sys { walk, .. } => has_read(walk, read, total),
        PhaseView::Finished { .. } => read <= total + 1,
    }
}

/// One more answer brings no more than is left, and one byte.
proof fn answer_is_counted(walk: WalkView, reply: ReplyView, read: nat, total: nat, bytes: nat)
    requires
        keeps_within(walk, bytes),
        has_read(walk, read, total),
        answers(walk.request(), reply),
        is_no_more_than(walk.request(), reply),
    ensures
        has_read(walk.after(reply), read + bytes_in(reply), total),
{
}

/// Whatever a session is told, as long as it is told no more than it asks for: the bytes
/// that are read of all files are no more than the total, and one.
proof fn reads_are_counted(session: SessionView, replies: Seq<ReplyView>, read: nat)
    requires
        session_keeps_within(session),
        session_has_read(session, read),
        session.is_obeyed_by(replies),
    ensures
        read + bytes_read(replies) <= session.limits.max_total_bytes + 1,
    decreases replies.len(),
{
    if replies.len() > 0 {
        let reply = replies[0];
        let total = session.limits.max_total_bytes as nat;
        session_limits_are_kept(session, reply);
        match session.phase {
            PhaseView::Proc { walk, .. } => {
                answer_is_counted(walk, reply, read, total, total);
            },
            PhaseView::Sys { proc, walk, .. } => {
                answer_is_counted(
                    walk,
                    reply,
                    read,
                    total,
                    (total - captured_bytes(proc)) as nat,
                );
            },
            _ => {},
        }
        reads_are_counted(session.after(reply), replies.drop_first(), read + bytes_in(reply));
    }
}

/// As long as a session is told no more than it asks for, the bytes that are read of all
/// files, of both trees, come to no more than the total and one: the byte that tells
/// that the last file holds too much.
pub proof fn reads_are_bounded(
    proc_root: Seq<u8>,
    sys_root: Seq<u8>,
    limits: Limits,
    replies: Seq<ReplyView>,
)
    requires
        SessionView::start(proc_root, sys_root, limits).is_obeyed_by(replies),
    ensures
        bytes_read(replies) <= limits.max_total_bytes + 1,
{
    reads_are_counted(SessionView::start(proc_root, sys_root, limits), replies, 0);
}

} // verus!
