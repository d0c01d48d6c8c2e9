//! A snapshot of both trees.
use crate::budget::{Budget, Limits};
use crate::entries::Entries;
use crate::entry::EntryView;
use crate::error::{IoError, IoErrorView};
use crate::protocol::{answers, is_no_more_than, Reply, ReplyView, Request, RequestView};
use crate::status::{context_read, read_execution_context, ExecutionContext};
use crate::text::{decode_lossy, lossy_utf8};
use crate::walk::{Outcome, StepView, Walk, WalkView};
use vstd::prelude::*;
use vstd::slice::slice_to_vec;
use vstd::string::*;

verus! {

/// The version of the format in which snapshots are written.
pub const FORMAT_VERSION: u32 = 1;

/// Where the first tree is, unless the command line says otherwise.
pub const DEFAULT_PROC_ROOT: &'static str = "/proc";

/// Where the second tree is, unless the command line says otherwise.
pub const DEFAULT_SYS_ROOT: &'static str = "/sys";

/// What the command line asks for.
#[derive(Debug, PartialEq, Eq)]
pub struct Cli {
    pub proc_root: Vec<u8>,
    pub sys_root: Vec<u8>,
}

/// Where the two trees are.
#[derive(Debug, PartialEq, Eq)]
pub struct Roots {
    pub proc: Vec<u8>,
    pub sys: Vec<u8>,
}

impl From<Cli> for Roots {
    fn from(cli: Cli) -> (roots: Self) {
        Roots { proc: cli.proc_root, sys: cli.sys_root }
    }
}

impl vstd::std_specs::convert::FromSpecImpl<Cli> for Roots {
    open spec fn obeys_from_spec() -> bool {
        true
    }

    open spec fn from_spec(cli: Cli) -> Roots {
        Roots { proc: cli.proc_root, sys: cli.sys_root }
    }
}

/// A finished snapshot.
#[derive(Debug)]
pub struct Snapshot {
    pub format_version: u32,
    pub execution: ExecutionContext,
    pub limits: Limits,
    pub proc: Entries,
    pub sys: Entries,
}

/// What a [`Snapshot`] says.
pub struct SnapshotView {
    pub format_version: u32,
    pub execution: ExecutionContext,
    pub limits: Limits,
    pub proc: Map<Seq<char>, EntryView>,
    pub sys: Map<Seq<char>, EntryView>,
}

impl View for Snapshot {
    type V = SnapshotView;

    open spec fn view(&self) -> SnapshotView {
        SnapshotView {
            format_version: self.format_version,
            execution: self.execution,
            limits: self.limits,
            proc: self.proc@,
            sys: self.sys@,
        }
    }
}

/// How far a session has come.
#[derive(Debug)]
enum Phase {
    Status,
    Proc { execution: ExecutionContext, walk: Walk },
    Sys { execution: ExecutionContext, proc: Entries, walk: Walk },
    Finished { result: Result<Snapshot, String> },
}

/// How far a [`Session`] has come.
pub enum PhaseView {
    /// It waits for `/proc/self/status`.
    Status,
    /// It walks the first tree.
    Proc { execution: ExecutionContext, walk: WalkView },
    /// It walks the second tree.
    Sys { execution: ExecutionContext, proc: Map<Seq<char>, EntryView>, walk: WalkView },
    /// It has ended.
    Finished { result: Result<SnapshotView, Seq<char>> },
}

impl View for Phase {
    type V = PhaseView;

    closed spec fn view(&self) -> PhaseView {
        match self {
            Phase::Status => PhaseView::Status,
            Phase::Proc { execution, walk } => PhaseView::Proc { execution: *execution, walk: walk@ },
            Phase::Sys { execution, proc, walk } => PhaseView::Sys {
                execution: *execution,
                proc: proc@,
                walk: walk@,
            },
            Phase::Finished { result } => PhaseView::Finished { result: view_outcome(*result) },
        }
    }
}

/// What the end of a session says.
pub open spec fn view_outcome(result: Result<Snapshot, String>) -> Result<SnapshotView, Seq<char>> {
    match result {
        Ok(snapshot) => Ok(snapshot@),
        Err(message) => Err(message@),
    }
}

/// A snapshot that is being taken.
#[derive(Debug)]
pub struct Session {
    roots: Roots,
    limits: Limits,
    phase: Phase,
}

/// How a [`Session`] stands.
pub struct SessionView {
    pub proc_root: Seq<u8>,
    pub sys_root: Seq<u8>,
    pub limits: Limits,
    pub phase: PhaseView,
}

impl View for Session {
    type V = SessionView;

    closed spec fn view(&self) -> SessionView {
        SessionView {
            proc_root: self.roots.proc@,
            sys_root: self.roots.sys@,
            limits: self.limits,
            phase: self.phase@,
        }
    }
}

/// The message that says that `root` could not be captured.
pub open spec fn snapshot_failure(root: Seq<u8>, error: IoErrorView) -> Seq<char> {
    "failed to snapshot "@ + lossy_utf8(root) + ": "@ + error.message
}

impl SessionView {
    /// A session that has not begun.
    pub open spec fn start(proc_root: Seq<u8>, sys_root: Seq<u8>, limits: Limits) -> SessionView {
        SessionView { proc_root, sys_root, limits, phase: PhaseView::Status }
    }

    /// What the session asks for next.
    pub open spec fn request(self) -> Option<RequestView> {
        match self.phase {
            PhaseView::Status => Some(RequestView::Status),
            PhaseView::Proc { walk, .. } => walk.request(),
            PhaseView::Sys { walk, .. } => walk.request(),
            PhaseView::Finished { .. } => None,
        }
    }

    /// The session in another phase.
    pub open spec fn at(self, phase: PhaseView) -> SessionView {
        SessionView { phase, ..self }
    }

    /// The session once it is told `reply`.
    pub open spec fn after(self, reply: ReplyView) -> SessionView {
        match self.phase {
            PhaseView::Status => match reply {
                ReplyView::Status(status) => match context_read(status) {
                    Err(message) => self.at(PhaseView::Finished { result: Err(message) }),
                    Ok(execution) => self.at(
                        PhaseView::Proc {
                            execution,
                            walk: WalkView::start(
                                self.proc_root,
                                self.limits,
                                self.limits.max_total_bytes as nat,
                            ),
                        },
                    ),
                },
                _ => self,
            },
            PhaseView::Proc { execution, walk } => {
                let next = walk.after(reply);
                match next.step {
                    StepView::Failed { error } => self.at(
                        PhaseView::Finished { result: Err(snapshot_failure(self.proc_root, error)) },
                    ),
                    StepView::Done => self.at(
                        PhaseView::Sys {
                            execution,
                            proc: next.entries,
                            walk: WalkView::start(self.sys_root, self.limits, next.remaining),
                        },
                    ),
                    _ => self.at(PhaseView::Proc { execution, walk: next }),
                }
            },
            PhaseView::Sys { execution, proc, walk } => {
                let next = walk.after(reply);
                match next.step {
                    StepView::Failed { error } => self.at(
                        PhaseView::Finished { result: Err(snapshot_failure(self.sys_root, error)) },
                    ),
                    StepView::Done => self.at(
                        PhaseView::Finished {
                            result: Ok(
                                SnapshotView {
                                    format_version: FORMAT_VERSION,
                                    execution,
                                    limits: self.limits,
                                    proc,
                                    sys: next.entries,
                                },
                            ),
                        },
                    ),
                    _ => self.at(PhaseView::Sys { execution, proc, walk: next }),
                }
            },
            PhaseView::Finished { .. } => self,
        }
    }

    /// The session once it is told each of `replies`, in order.
    pub open spec fn after_all(self, replies: Seq<ReplyView>) -> SessionView
        decreases replies.len(),
    {
        if replies.len() == 0 {
            self
        } else {
            self.after(replies[0]).after_all(replies.drop_first())
        }
    }

    /// Whether each of `replies` answers what the session asks for by then.
    pub open spec fn is_answered_by(self, replies: Seq<ReplyView>) -> bool
        decreases replies.len(),
    {
        replies.len() > 0 ==> answers(self.request(), replies[0]) && self.after(
            replies[0],
        ).is_answered_by(replies.drop_first())
    }

    /// Whether each of `replies` answers what the session asks for by then, and brings no
    /// more than that.
    pub open spec fn is_obeyed_by(self, replies: Seq<ReplyView>) -> bool
        decreases replies.len(),
    {
        replies.len() > 0 ==> {
            &&& answers(self.request(), replies[0])
            &&& is_no_more_than(self.request(), replies[0])
            &&& self.after(replies[0]).is_obeyed_by(replies.drop_first())
        }
    }

    /// Whether the session asks for each of `asked`, in order, where it is told `told`.
    pub open spec fn asks(self, asked: Seq<RequestView>, told: Seq<ReplyView>) -> bool
        decreases told.len(),
    {
        asked.len() == told.len() && (told.len() > 0 ==> {
            &&& self.request() == Some(asked[0])
            &&& self.after(told[0]).asks(asked.drop_first(), told.drop_first())
        })
    }
}

/// Builds the message that says that `root` could not be captured.
fn describe_failure(root: &[u8], error: &IoError) -> (message: String)
    ensures
        message@ == snapshot_failure(root@, error@),
{
    "failed to snapshot ".to_owned().concat(decode_lossy(root).as_str()).concat(": ").concat(
        error.message.as_str(),
    )
}

/// Begins a snapshot of the trees at `roots`.
pub fn make_snapshot(roots: Roots, limits: Limits) -> (session: Session)
    ensures
        session@ == SessionView::start(roots.proc@, roots.sys@, limits),
{
    Session { roots, limits, phase: Phase::Status }
}

impl Session {
    /// What the session asks for next; nothing where it has ended.
    pub fn request(&self) -> (request: Option<Request>)
        ensures
            match request {
                Some(request) => self@.request() == Some(request@),
                None => self@.request() is None,
            },
    {
        match &self.phase {
            Phase::Status => Some(Request::Status),
            Phase::Proc { walk, .. } => walk.request(),
            Phase::Sys { walk, .. } => walk.request(),
            Phase::Finished { .. } => None,
        }
    }

    /// Tells the session what was found. A reply that does not answer what it asks for
    /// leaves it as it is.
    pub fn advance(self, reply: Reply) -> (next: Self)
        ensures
            next@ == self@.after(reply@),
    {
        let Session { roots, limits, phase } = self;
        match phase {
            Phase::Status => {
                let phase: Phase = match reply {
                    Reply::Status(status) => match read_execution_context(status) {
                        Err(message) => Phase::Finished { result: Err(message) },
                        Ok(execution) => Phase::Proc {
                            execution,
                            walk: Walk::new(
                                slice_to_vec(roots.proc.as_slice()),
                                limits,
                                Budget::new(limits.max_total_bytes),
                            ),
                        },
                    },
                    _ => Phase::Status,
                };
                Session { roots, limits, phase }
            },
            Phase::Proc { execution, walk } => {
                let phase: Phase = match walk.advance(reply).outcome() {
                    Outcome::Walking(walk) => Phase::Proc { execution, walk },
                    Outcome::Done { entries, budget } => Phase::Sys {
                        execution,
                        proc: entries,
                        walk: Walk::new(slice_to_vec(roots.sys.as_slice()), limits, budget),
                    },
                    Outcome::Failed { error } => Phase::Finished {
                        result: Err(describe_failure(roots.proc.as_slice(), &error)),
                    },
                };
                Session { roots, limits, phase }
            },
            Phase::Sys { execution, proc, walk } => {
                let phase: Phase = match walk.advance(reply).outcome() {
                    Outcome::Walking(walk) => Phase::Sys { execution, proc, walk },
                    Outcome::Done { entries, budget } => Phase::Finished {
                        result: Ok(
                            Snapshot {
                                format_version: FORMAT_VERSION,
                                execution,
                                limits,
                                proc,
                                sys: entries,
                            },
                        ),
                    },
                    Outcome::Failed { error } => Phase::Finished {
                        result: Err(describe_failure(roots.sys.as_slice(), &error)),
                    },
                };
                Session { roots, limits, phase }
            },
            phase => Session { roots, limits, phase },
        }
    }

    /// What the session came to, where it has ended.
    pub fn finish(self) -> (result: Option<Result<Snapshot, String>>)
        ensures
            match result {
                Some(result) => self@.phase == (PhaseView::Finished { result: view_outcome(result) }),
                None => !(self@.phase is Finished),
            },
    {
        match self.phase {
            Phase::Finished { result } => Some(result),
            _ => None,
        }
    }
}

/// Whether a session that has not ended asks for something.
pub open spec fn is_alive(session: SessionView) -> bool {
    session.request() is None <==> session.phase is Finished
}

/// A reply that does not answer what a session asks for changes nothing.
pub proof fn other_replies_change_nothing(session: SessionView, reply: ReplyView)
    requires
        is_alive(session),
        !answers(session.request(), reply),
    ensures
        session.after(reply) == session,
{
}

/// Whatever a session is told, it asks for something until it has ended.
pub proof fn session_asks_until_its_end(
    proc_root: Seq<u8>,
    sys_root: Seq<u8>,
    limits: Limits,
    replies: Seq<ReplyView>,
)
    ensures
        is_alive(SessionView::start(proc_root, sys_root, limits).after_all(replies)),
{
    stays_alive(SessionView::start(proc_root, sys_root, limits), replies);
}

proof fn stays_alive(session: SessionView, replies: Seq<ReplyView>)
    requires
        is_alive(session),
    ensures
        is_alive(session.after_all(replies)),
    decreases replies.len(),
{
    if replies.len() > 0 {
        stays_alive(session.after(replies[0]), replies.drop_first());
    }
}

/// The first tree is looked for where the command line says, and so is the second.
pub proof fn roots_are_those_asked_for(cli: Cli)
    ensures
        <Roots as vstd::std_specs::convert::FromSpec<Cli>>::from_spec(cli).proc@ == cli.proc_root@,
        <Roots as vstd::std_specs::convert::FromSpec<Cli>>::from_spec(cli).sys@ == cli.sys_root@,
{
}

/// A snapshot says all that it holds.
pub proof fn snapshot_says_what_it_holds(snapshot: Snapshot)
    ensures
        snapshot@.format_version == snapshot.format_version,
        snapshot@.execution == snapshot.execution,
        snapshot@.limits == snapshot.limits,
        snapshot@.proc == snapshot.proc@,
        snapshot@.sys == snapshot.sys@,
{
}

} // verus!
