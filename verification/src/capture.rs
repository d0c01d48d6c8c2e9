//! The decisions of a capture: what to do with a path once something is known of it.
use crate::budget::{at_most, less_by, Budget, Limits};
use crate::entries::Entries;
use crate::entry::{Entry, EntryView, Reason};
use crate::error::{
    failures_are_told_apart, io_reason, is_reason_for, reason_of, view_result, ErrorKind, IoError,
    IoErrorView,
};
use crate::listing::{children_of, directory_children, views};
use crate::path::{key_of, relative_key};
use crate::text::{
    decode_lossy, decode_text, is_text_bytes, lossy_utf8, mended_utf8, well_formed_bytes_are_kept,
};
use vstd::prelude::*;
use vstd::string::*;
use vstd::utf8::{decode_utf8, encode_utf8, valid_utf8};

verus! {

/// What stands at a path. A link is seen as a link, not as what it points to.
#[derive(Debug, Clone, Copy, PartialEq, Eq, Structural)]
pub enum FileType {
    Symlink,
    Directory,
    /// A regular file that claims to hold `len` bytes.
    File { len: u64 },
    /// Anything else: a device, a socket, a pipe.
    Special,
}

impl View for FileType {
    type V = FileType;

    open spec fn view(&self) -> FileType {
        *self
    }
}

/// Why a file that claims to hold `len` bytes is not even read, where `remaining`
/// bytes may still be read.
pub open spec fn refusal(len: nat, limits: Limits, remaining: nat) -> Option<Reason> {
    if len > limits.max_entry_bytes {
        Some(Reason::SizeLimit)
    } else if remaining == 0 || len > remaining {
        Some(Reason::TotalLimit)
    } else {
        None
    }
}

/// What reading a file of which `allowance` bytes were allowed comes to.
pub open spec fn content_entry(
    read: Result<Seq<u8>, IoErrorView>,
    allowance: nat,
    limits: Limits,
) -> EntryView {
    match read {
        Err(error) => EntryView::Unavailable { reason: reason_of(error.kind) },
        Ok(bytes) => if bytes.len() > allowance {
            EntryView::Excluded {
                reason: if allowance < limits.max_entry_bytes {
                    Reason::TotalLimit
                } else {
                    Reason::SizeLimit
                },
            }
        } else if is_text_bytes(bytes) {
            EntryView::Captured { content: decode_utf8(bytes) }
        } else {
            EntryView::Excluded { reason: Reason::Binary }
        },
    }
}

/// What may still be read after a file was: whatever became of the bytes, they count.
pub open spec fn left_after(read: Result<Seq<u8>, IoErrorView>, remaining: nat) -> nat {
    match read {
        Err(_) => remaining,
        Ok(bytes) => less_by(remaining, bytes.len()),
    }
}

/// What reading a link comes to.
pub open spec fn link_entry(target: Result<Seq<u8>, IoErrorView>) -> EntryView {
    match target {
        Ok(target) => EntryView::Symlink { target: lossy_utf8(target) },
        Err(error) => EntryView::Unavailable { reason: reason_of(error.kind) },
    }
}

/// What to do with a file.
#[derive(Debug)]
pub enum FilePlan {
    /// Nothing more: this is what to record.
    Record(Entry),
    /// Read it, as far as `allowance` bytes and one more.
    Read { allowance: usize },
}

/// What a [`FilePlan`] or a [`PathPlan`] says.
pub enum PlanView {
    Record(EntryView),
    Read { allowance: nat },
    ReadLink,
    List,
}

impl View for FilePlan {
    type V = PlanView;

    open spec fn view(&self) -> PlanView {
        match self {
            FilePlan::Record(entry) => PlanView::Record(entry@),
            FilePlan::Read { allowance } => PlanView::Read { allowance: *allowance as nat },
        }
    }
}

/// What to do with a file that claims to hold `len` bytes.
pub open spec fn file_plan(len: nat, limits: Limits, remaining: nat) -> PlanView {
    match refusal(len, limits, remaining) {
        Some(reason) => PlanView::Record(EntryView::Excluded { reason }),
        None => PlanView::Read { allowance: at_most(remaining, limits.max_entry_bytes as nat) },
    }
}

/// Decides whether a file that claims to hold `len` bytes is read, and how far.
pub fn capture_file(len: u64, limits: Limits, budget: &Budget) -> (plan: FilePlan)
    ensures
        plan@ == file_plan(len as nat, limits, budget@),
        match plan {
            FilePlan::Record(Entry::Excluded { reason: Reason::SizeLimit }) => len
                > limits.max_entry_bytes,
            FilePlan::Record(Entry::Excluded { reason: Reason::TotalLimit }) => len
                <= limits.max_entry_bytes && (budget@ == 0 || len > budget@),
            FilePlan::Read { allowance } => {
                &&& len <= allowance && 0 < budget@
                &&& allowance <= budget@ && allowance <= limits.max_entry_bytes
                &&& allowance == budget@ || allowance == limits.max_entry_bytes
            },
            _ => false,
        },
{
    if len > limits.max_entry_bytes as u64 {
        return FilePlan::Record(Entry::Excluded { reason: Reason::SizeLimit });
    }
    if budget.exhausted() {
        return FilePlan::Record(Entry::Excluded { reason: Reason::TotalLimit });
    }
    if len > 0 && len > budget.remaining() as u64 {
        return FilePlan::Record(Entry::Excluded { reason: Reason::TotalLimit });
    }
    FilePlan::Read { allowance: budget.allowance(limits.max_entry_bytes) }
}

/// What a file claims to hold decides whether it is read. One that claims more than an
/// entry may hold is left out for its size, whatever is left of the total; any other is left
/// out for the total exactly where nothing is left, or less than it claims. All others are
/// read, as far as an entry and the total allow.
pub proof fn limits_decide_what_is_read(len: nat, limits: Limits, remaining: nat)
    ensures
        len > limits.max_entry_bytes <==> file_plan(len, limits, remaining) == PlanView::Record(
            EntryView::Excluded { reason: Reason::SizeLimit },
        ),
        len <= limits.max_entry_bytes && (remaining == 0 || len > remaining) <==> file_plan(
            len,
            limits,
            remaining,
        ) == PlanView::Record(EntryView::Excluded { reason: Reason::TotalLimit }),
        len <= limits.max_entry_bytes && 0 < remaining && len <= remaining <==> file_plan(
            len,
            limits,
            remaining,
        ) is Read,
        file_plan(len, limits, remaining) matches PlanView::Read { allowance } ==> {
            &&& len <= allowance && allowance <= remaining && allowance <= limits.max_entry_bytes
            &&& allowance == remaining || allowance == limits.max_entry_bytes
        },
{
}

/// How many bytes to ask a file for: one more than `limit`, which tells whether it
/// holds more than that.
pub fn read_size(limit: usize) -> (bytes: u64)
    ensures
        bytes == at_most((limit + 1) as nat, u64::MAX as nat),
        limit < u64::MAX ==> bytes == limit + 1,
        limit == u64::MAX ==> bytes == limit,
{
    (limit as u64).saturating_add(1)
}

/// Bytes read from a file.
#[derive(Debug)]
pub struct ReadResult {
    pub bytes: Vec<u8>,
    /// Whether the file holds more than was allowed.
    pub exceeded_limit: bool,
}

/// Tells whether what was read of a file is more than `limit` bytes.
pub fn read_bounded(bytes: Vec<u8>, limit: usize) -> (read: ReadResult)
    ensures
        read.bytes@ == bytes@,
        read.exceeded_limit <==> bytes@.len() > limit,
{
    ReadResult { exceeded_limit: bytes.len() > limit, bytes }
}

/// Decides what to record of a file that was read, or could not be, and takes what
/// was read off `budget`.
pub fn capture_content(
    read: Result<Vec<u8>, IoError>,
    allowance: usize,
    limits: Limits,
    budget: &mut Budget,
) -> (entry: Entry)
    ensures
        entry@ == content_entry(view_result(read), allowance as nat, limits),
        final(budget)@ == left_after(view_result(read), old(budget)@),
        match read {
            Err(error) => {
                &&& entry matches Entry::Unavailable { reason }
                &&& is_reason_for(reason, error.kind)
                &&& final(budget)@ == old(budget)@
            },
            Ok(bytes) => {
                &&& bytes@.len() <= old(budget)@ ==> final(budget)@ + bytes@.len() == old(budget)@
                &&& bytes@.len() >= old(budget)@ ==> final(budget)@ == 0
                &&& match entry {
                    Entry::Captured { content } => bytes@.len() <= allowance && is_text_bytes(
                        bytes@,
                    ) && encode_utf8(content@) == bytes@,
                    Entry::Excluded { reason: Reason::Binary } => bytes@.len() <= allowance
                        && !is_text_bytes(bytes@),
                    Entry::Excluded { reason: Reason::TotalLimit } => bytes@.len() > allowance
                        && allowance < limits.max_entry_bytes,
                    Entry::Excluded { reason: Reason::SizeLimit } => bytes@.len() > allowance
                        && allowance >= limits.max_entry_bytes,
                    _ => false,
                }
            },
        },
{
    let read: ReadResult = match read {
        Ok(bytes) => read_bounded(bytes, allowance),
        Err(error) => {
            return Entry::Unavailable { reason: io_reason(&error) };
        },
    };
    // Reads count against the total budget even when the entry is later
    // excluded as binary or oversized.
    budget.consume(read.bytes.len());
    if read.exceeded_limit {
        return Entry::Excluded {
            reason: if allowance < limits.max_entry_bytes {
                Reason::TotalLimit
            } else {
                Reason::SizeLimit
            },
        };
    }
    match decode_text(read.bytes) {
        Ok(content) => Entry::Captured { content },
        Err(reason) => Entry::Excluded { reason },
    }
}

/// What was read of a file is judged by what it is. A failure is given as what it was, and
/// uses nothing up. More than was allowed is left out, for the total where that allowed less
/// than an entry may hold, and else for its size. Of the rest, text is captured byte for
/// byte, and everything else is binary. Whatever becomes of the bytes, they are used up.
pub proof fn content_is_judged(
    read: Result<Seq<u8>, IoErrorView>,
    allowance: nat,
    limits: Limits,
    remaining: nat,
)
    ensures
        match (read, content_entry(read, allowance, limits)) {
            (Err(error), EntryView::Unavailable { reason }) => is_reason_for(reason, error.kind),
            (Ok(bytes), EntryView::Captured { content }) => bytes.len() <= allowance
                && is_text_bytes(bytes) && encode_utf8(content) == bytes,
            (Ok(bytes), EntryView::Excluded { reason: Reason::Binary }) => bytes.len() <= allowance
                && !is_text_bytes(bytes),
            (Ok(bytes), EntryView::Excluded { reason: Reason::TotalLimit }) => bytes.len()
                > allowance && allowance < limits.max_entry_bytes,
            (Ok(bytes), EntryView::Excluded { reason: Reason::SizeLimit }) => bytes.len()
                > allowance && allowance >= limits.max_entry_bytes,
            _ => false,
        },
        match read {
            Err(_) => left_after(read, remaining) == remaining,
            Ok(bytes) => if bytes.len() <= remaining {
                left_after(read, remaining) + bytes.len() == remaining
            } else {
                left_after(read, remaining) == 0
            },
        },
{
    match read {
        Ok(bytes) => {
            if is_text_bytes(bytes) {
                vstd::utf8::decode_utf8_encode_utf8(bytes);
            }
        },
        Err(error) => {
            failures_are_told_apart(error.kind);
        },
    }
}

/// A link that can be read is recorded with its target: where that is written in UTF-8, it
/// encodes to just the bytes that were read. A failure is given as what it was.
pub proof fn targets_are_kept(target: Result<Seq<u8>, IoErrorView>)
    ensures
        match (target, link_entry(target)) {
            (Ok(bytes), EntryView::Symlink { target: text }) => {
                &&& valid_utf8(bytes) ==> encode_utf8(text) == bytes
                &&& !valid_utf8(bytes) ==> text == mended_utf8(bytes)
            },
            (Err(error), EntryView::Unavailable { reason }) => is_reason_for(reason, error.kind),
            _ => false,
        },
{
    match target {
        Ok(bytes) => {
            well_formed_bytes_are_kept(bytes);
        },
        Err(error) => {
            failures_are_told_apart(error.kind);
        },
    }
}

/// Decides what to record of a link whose target was read, or could not be.
pub fn capture_symlink(target: Result<Vec<u8>, IoError>) -> (entry: Entry)
    ensures
        entry@ == link_entry(view_result(target)),
        match target {
            Ok(bytes) => {
                &&& entry matches Entry::Symlink { target: text }
                &&& valid_utf8(bytes@) ==> encode_utf8(text@) == bytes@
                &&& !valid_utf8(bytes@) ==> text@ == mended_utf8(bytes@)
            },
            Err(error) => {
                &&& entry matches Entry::Unavailable { reason }
                &&& is_reason_for(reason, error.kind)
            },
        },
{
    proof {
        targets_are_kept(view_result(target));
    }
    match target {
        Ok(target) => Entry::Symlink { target: decode_lossy(target.as_slice()) },
        Err(error) => Entry::Unavailable { reason: io_reason(&error) },
    }
}

/// What to do with a path.
#[derive(Debug)]
pub enum PathPlan {
    /// Nothing more: this is what to record.
    Record(Entry),
    /// Read the file, as far as `allowance` bytes and one more.
    Read { allowance: usize },
    /// Read where the link points to.
    ReadLink,
    /// List the directory.
    List,
}

impl View for PathPlan {
    type V = PlanView;

    open spec fn view(&self) -> PlanView {
        match self {
            PathPlan::Record(entry) => PlanView::Record(entry@),
            PathPlan::Read { allowance } => PlanView::Read { allowance: *allowance as nat },
            PathPlan::ReadLink => PlanView::ReadLink,
            PathPlan::List => PlanView::List,
        }
    }
}

/// What to do with a path at which `found` stands.
pub open spec fn path_plan(
    found: Result<FileType, IoErrorView>,
    limits: Limits,
    remaining: nat,
) -> PlanView {
    match found {
        Err(error) => PlanView::Record(EntryView::Unavailable { reason: reason_of(error.kind) }),
        Ok(FileType::Symlink) => PlanView::ReadLink,
        Ok(FileType::Directory) => PlanView::List,
        Ok(FileType::File { len }) => file_plan(len as nat, limits, remaining),
        Ok(FileType::Special) => PlanView::Record(
            EntryView::Excluded { reason: Reason::SpecialFile },
        ),
    }
}

/// What stands at a path decides what is done with it. A link is read and not followed, a
/// directory listed; a file is read as far as the limits allow; anything else is left out as
/// special; and what cannot be told is recorded with the reason.
pub proof fn what_is_found_decides(
    found: Result<FileType, IoErrorView>,
    limits: Limits,
    remaining: nat,
)
    ensures
        match (found, path_plan(found, limits, remaining)) {
            (Err(error), PlanView::Record(EntryView::Unavailable { reason })) => is_reason_for(
                reason,
                error.kind,
            ),
            (Ok(FileType::Symlink), PlanView::ReadLink) => true,
            (Ok(FileType::Directory), PlanView::List) => true,
            (
                Ok(FileType::Special),
                PlanView::Record(EntryView::Excluded { reason: Reason::SpecialFile }),
            ) => true,
            (
                Ok(FileType::File { len }),
                PlanView::Record(EntryView::Excluded { reason: Reason::SizeLimit }),
            ) => len > limits.max_entry_bytes,
            (
                Ok(FileType::File { len }),
                PlanView::Record(EntryView::Excluded { reason: Reason::TotalLimit }),
            ) => len <= limits.max_entry_bytes && (remaining == 0 || len > remaining),
            (Ok(FileType::File { len }), PlanView::Read { allowance }) => {
                &&& len <= allowance && 0 < remaining
                &&& allowance <= remaining && allowance <= limits.max_entry_bytes
                &&& allowance == remaining || allowance == limits.max_entry_bytes
            },
            _ => false,
        },
{
    if let Err(error) = found {
        failures_are_told_apart(error.kind);
    }
}

/// Decides what to do with a path at which `found` stands.
pub fn capture_path(found: Result<FileType, IoError>, limits: Limits, budget: &Budget) -> (plan:
    PathPlan)
    ensures
        plan@ == path_plan(view_result(found), limits, budget@),
        match (found, plan) {
            (Err(error), PathPlan::Record(Entry::Unavailable { reason })) => is_reason_for(
                reason,
                error.kind,
            ),
            (Ok(FileType::Symlink), PathPlan::ReadLink) => true,
            (Ok(FileType::Directory), PathPlan::List) => true,
            (
                Ok(FileType::Special),
                PathPlan::Record(Entry::Excluded { reason: Reason::SpecialFile }),
            ) => true,
            (
                Ok(FileType::File { len }),
                PathPlan::Record(Entry::Excluded { reason: Reason::SizeLimit }),
            ) => len > limits.max_entry_bytes,
            (
                Ok(FileType::File { len }),
                PathPlan::Record(Entry::Excluded { reason: Reason::TotalLimit }),
            ) => len <= limits.max_entry_bytes && (budget@ == 0 || len > budget@),
            (Ok(FileType::File { len }), PathPlan::Read { allowance }) => {
                &&& len <= allowance && 0 < budget@
                &&& allowance <= budget@ && allowance <= limits.max_entry_bytes
                &&& allowance == budget@ || allowance == limits.max_entry_bytes
            },
            _ => false,
        },
{
    match found {
        Err(error) => PathPlan::Record(Entry::Unavailable { reason: io_reason(&error) }),
        Ok(FileType::Symlink) => PathPlan::ReadLink,
        Ok(FileType::Directory) => PathPlan::List,
        Ok(FileType::File { len }) => match capture_file(len, limits, budget) {
            FilePlan::Record(entry) => PathPlan::Record(entry),
            FilePlan::Read { allowance } => PathPlan::Read { allowance },
        },
        Ok(FileType::Special) => PathPlan::Record(Entry::Excluded { reason: Reason::SpecialFile }),
    }
}

/// Why `root`, at which `found` stands, cannot be captured.
pub open spec fn root_error(root: Seq<u8>, found: Result<FileType, IoErrorView>) -> Option<
    IoErrorView,
> {
    match found {
        Err(error) => Some(error),
        Ok(FileType::Directory) => None,
        Ok(_) => Some(
            IoErrorView {
                kind: ErrorKind::InvalidInput,
                message: "not a directory: "@ + lossy_utf8(root),
            },
        ),
    }
}

/// A root can be captured exactly where a directory stands there. Otherwise the failure is
/// the one that was met, or says that the root is not a directory, and which root.
pub proof fn only_directories_are_roots(root: Seq<u8>, found: Result<FileType, IoErrorView>)
    ensures
        match (found, root_error(root, found)) {
            (Ok(FileType::Directory), None) => true,
            (Err(error), Some(given)) => given == error,
            (Ok(other), Some(given)) => {
                &&& other != FileType::Directory
                &&& given.kind == ErrorKind::InvalidInput
                &&& valid_utf8(root) ==> given.message == "not a directory: "@ + decode_utf8(root)
                &&& !valid_utf8(root) ==> given.message == "not a directory: "@ + mended_utf8(root)
            },
            _ => false,
        },
{
}

/// Decides whether `root`, at which `found` stands, can be captured: only a directory
/// can, and not through a link.
pub fn capture_root(root: &[u8], found: Result<FileType, IoError>) -> (result: Result<(), IoError>)
    ensures
        match result {
            Ok(()) => root_error(root@, view_result(found)) is None,
            Err(error) => root_error(root@, view_result(found)) == Some(error@),
        },
{
    match found {
        Err(error) => Err(error),
        Ok(FileType::Directory) => Ok(()),
        Ok(_) => Err(
            IoError::new(
                ErrorKind::InvalidInput,
                "not a directory: ".to_owned().concat(decode_lossy(root).as_str()),
            ),
        ),
    }
}

/// What the attempt to list a directory gave.
pub open spec fn view_names(names: Result<Vec<Vec<u8>>, IoError>) -> Result<
    Seq<Seq<u8>>,
    IoErrorView,
> {
    match names {
        Ok(names) => Ok(views(names@)),
        Err(error) => Err(error@),
    }
}

/// Takes in the listing of `directory`. Its children come before what is pending; the
/// last of `pending` is the next to be captured. A directory that cannot be listed is
/// recorded, but where it is the root the capture fails.
pub fn walk_directory(
    root: &[u8],
    directory: &[u8],
    names: Result<Vec<Vec<u8>>, IoError>,
    pending: &mut Vec<Vec<u8>>,
    output: &mut Entries,
    is_root: bool,
) -> (result: Result<(), IoError>)
    ensures
        match view_names(names) {
            Ok(listed) => result is Ok && final(output)@ == old(output)@ && views(
                final(pending)@,
            ) == views(old(pending)@) + children_of(directory@, listed).reverse(),
            Err(error) => final(pending)@ == old(pending)@ && if is_root {
                final(output)@ == old(output)@ && result is Err && result->Err_0@ == error
            } else {
                result is Ok && final(output)@ == old(output)@.insert(
                    key_of(root@, directory@),
                    EntryView::Unavailable { reason: reason_of(error.kind) },
                )
            },
        },
{
    match names {
        Ok(names) => {
            let mut children: Vec<Vec<u8>> = directory_children(directory, &names);
            let ghost all = views(children@);
            while children.len() > 0
                invariant
                    views(children@) == all.take(children@.len() as int),
                    children@.len() <= all.len(),
                    views(pending@) == views(old(pending)@) + all.skip(
                        children@.len() as int,
                    ).reverse(),
                decreases children@.len(),
            {
                let ghost n = children@.len() as int;
                let ghost were = pending@;
                let ghost rest = children@;
                match children.pop() {
                    Some(child) => {
                        assert(child@ == all[n - 1]) by {
                            assert(views(rest)[n - 1] == all.take(n)[n - 1]);
                        }
                        pending.push(child);
                        assert(views(children@) =~= all.take(n - 1)) by {
                            assert(views(children@) =~= views(rest).drop_last());
                        }
                        assert(views(pending@) =~= views(were).push(child@));
                        assert(all.skip(n - 1).reverse() =~= all.skip(n).reverse().push(all[n - 1]));
                    },
                    None => {},
                }
            }
            assert(all.skip(0) =~= all);
            Ok(())
        },
        Err(error) => {
            if is_root {
                return Err(error);
            }
            output.insert(
                relative_key(root, directory),
                Entry::Unavailable { reason: io_reason(&error) },
            );
            Ok(())
        },
    }
}

} // verus!
