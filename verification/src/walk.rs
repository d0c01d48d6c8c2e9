//! The capture of everything below one root.
use crate::budget::{at_most, Budget, Limits};
use crate::capture::{
    capture_content, capture_path, capture_root, capture_symlink, content_entry, left_after,
    link_entry, path_plan, read_size, root_error, walk_directory, FileType, PathPlan,
    PlanView,
};
use crate::entries::Entries;
use crate::entry::EntryView;
use crate::error::{reason_of, IoError, IoErrorView};
use crate::listing::{children_of, not_after, not_after_is_total, sorted, sorted_is_unique, views};
use crate::path::{is_child_name, key_of, path_below, relative_key};
use crate::protocol::{answers, is_no_more_than, Reply, ReplyView, Request, RequestView};
use vstd::prelude::*;
use vstd::slice::slice_to_vec;

verus! {

/// What a walk waits for.
#[derive(Debug)]
enum Step {
    /// What stands at the root.
    Root,
    /// What stands at `path`.
    Inspect { path: Vec<u8> },
    /// The names in `path`, which is the root or lies below it.
    List { path: Vec<u8>, is_root: bool },
    /// Where the link at `path` points to.
    ReadLink { path: Vec<u8> },
    /// The content of `path`, of which `allowance` bytes may be recorded.
    Read { path: Vec<u8>, allowance: usize },
    /// Nothing: everything is captured.
    Done,
    /// Nothing: the root could not be captured.
    Failed { error: IoError },
}

/// What a [`Walk`] waits for.
pub enum StepView {
    Root,
    Inspect { path: Seq<u8> },
    List { path: Seq<u8>, is_root: bool },
    ReadLink { path: Seq<u8> },
    Read { path: Seq<u8>, allowance: nat },
    Done,
    Failed { error: IoErrorView },
}

impl View for Step {
    type V = StepView;

    closed spec fn view(&self) -> StepView {
        match self {
            Step::Root => StepView::Root,
            Step::Inspect { path } => StepView::Inspect { path: path@ },
            Step::List { path, is_root } => StepView::List { path: path@, is_root: *is_root },
            Step::ReadLink { path } => StepView::ReadLink { path: path@ },
            Step::Read { path, allowance } => StepView::Read {
                path: path@,
                allowance: *allowance as nat,
            },
            Step::Done => StepView::Done,
            Step::Failed { error } => StepView::Failed { error: error@ },
        }
    }
}

/// A capture of everything below one root, under way.
#[derive(Debug)]
pub struct Walk {
    root: Vec<u8>,
    limits: Limits,
    budget: Budget,
    output: Entries,
    pending: Vec<Vec<u8>>,
    step: Step,
}

/// How far a [`Walk`] has come.
#[verifier::ext_equal]
pub struct WalkView {
    pub root: Seq<u8>,
    pub limits: Limits,
    /// The bytes that may still be read.
    pub remaining: nat,
    /// What is recorded so far.
    pub entries: Map<Seq<char>, EntryView>,
    /// The paths that are still to be captured, the next one last.
    pub pending: Seq<Seq<u8>>,
    pub step: StepView,
}

impl View for Walk {
    type V = WalkView;

    closed spec fn view(&self) -> WalkView {
        WalkView {
            root: self.root@,
            limits: self.limits,
            remaining: self.budget@,
            entries: self.output@,
            pending: views(self.pending@),
            step: self.step@,
        }
    }
}

impl WalkView {
    /// A walk that has not begun.
    pub open spec fn start(root: Seq<u8>, limits: Limits, remaining: nat) -> WalkView {
        WalkView {
            root,
            limits,
            remaining,
            entries: Map::empty(),
            pending: seq![],
            step: StepView::Root,
        }
    }

    /// What the walk asks for next.
    pub open spec fn request(self) -> Option<RequestView> {
        match self.step {
            StepView::Root => Some(RequestView::Inspect { path: self.root }),
            StepView::Inspect { path } => Some(RequestView::Inspect { path }),
            StepView::List { path, .. } => Some(RequestView::List { path }),
            StepView::ReadLink { path } => Some(RequestView::ReadLink { path }),
            StepView::Read { path, allowance } => Some(
                RequestView::Read { path, max_bytes: at_most(allowance + 1, u64::MAX as nat) },
            ),
            StepView::Done => None,
            StepView::Failed { .. } => None,
        }
    }

    /// The walk, waiting for `step`.
    pub open spec fn at(self, step: StepView) -> WalkView {
        WalkView { step, ..self }
    }

    /// The walk, turned to the next pending path.
    pub open spec fn resumed(self) -> WalkView {
        if self.pending.len() == 0 {
            self.at(StepView::Done)
        } else {
            WalkView {
                pending: self.pending.drop_last(),
                step: StepView::Inspect { path: self.pending.last() },
                ..self
            }
        }
    }

    /// The walk, with `entry` recorded for `path`.
    pub open spec fn recorded(self, path: Seq<u8>, entry: EntryView) -> WalkView {
        WalkView { entries: self.entries.insert(key_of(self.root, path), entry), ..self }
    }

    /// The walk once it is told `reply`.
    pub open spec fn after(self, reply: ReplyView) -> WalkView {
        match (self.step, reply) {
            (StepView::Root, ReplyView::Found(found)) => match root_error(self.root, found) {
                Some(error) => self.at(StepView::Failed { error }),
                None => self.at(StepView::List { path: self.root, is_root: true }),
            },
            (StepView::List { path, is_root }, ReplyView::Names(names)) => match names {
                Ok(names) => WalkView {
                    pending: self.pending + children_of(path, names).reverse(),
                    ..self
                }.resumed(),
                Err(error) => if is_root {
                    self.at(StepView::Failed { error })
                } else {
                    self.recorded(
                        path,
                        EntryView::Unavailable { reason: reason_of(error.kind) },
                    ).resumed()
                },
            },
            (StepView::Inspect { path }, ReplyView::Found(found)) => match path_plan(
                found,
                self.limits,
                self.remaining,
            ) {
                PlanView::Record(entry) => self.recorded(path, entry).resumed(),
                PlanView::Read { allowance } => self.at(StepView::Read { path, allowance }),
                PlanView::ReadLink => self.at(StepView::ReadLink { path }),
                PlanView::List => self.at(StepView::List { path, is_root: false }),
            },
            (StepView::ReadLink { path }, ReplyView::Target(target)) => self.recorded(
                path,
                link_entry(target),
            ).resumed(),
            (StepView::Read { path, allowance }, ReplyView::Content(read)) => WalkView {
                remaining: left_after(read, self.remaining),
                ..self
            }.recorded(path, content_entry(read, allowance, self.limits)).resumed(),
            _ => self,
        }
    }

    /// The walk once it is told each of `replies`, in order.
    pub open spec fn after_all(self, replies: Seq<ReplyView>) -> WalkView
        decreases replies.len(),
    {
        if replies.len() == 0 {
            self
        } else {
            self.after(replies[0]).after_all(replies.drop_first())
        }
    }

    /// Whether each of `replies` answers what the walk asks for by then.
    pub open spec fn is_answered_by(self, replies: Seq<ReplyView>) -> bool
        decreases replies.len(),
    {
        replies.len() > 0 ==> answers(self.request(), replies[0]) && self.after(
            replies[0],
        ).is_answered_by(replies.drop_first())
    }

    /// Whether each of `replies` answers what the walk asks for by then, and brings no
    /// more than that.
    pub open spec fn is_obeyed_by(self, replies: Seq<ReplyView>) -> bool
        decreases replies.len(),
    {
        replies.len() > 0 ==> {
            &&& answers(self.request(), replies[0])
            &&& is_no_more_than(self.request(), replies[0])
            &&& self.after(replies[0]).is_obeyed_by(replies.drop_first())
        }
    }

    /// Whether the walk asks for each of `asked`, in order, where it is told `told`.
    pub open spec fn asks(self, asked: Seq<RequestView>, told: Seq<ReplyView>) -> bool
        decreases told.len(),
    {
        asked.len() == told.len() && (told.len() > 0 ==> {
            &&& self.request() == Some(asked[0])
            &&& self.after(told[0]).asks(asked.drop_first(), told.drop_first())
        })
    }
}

/// How a walk ended.
#[derive(Debug)]
pub enum Outcome {
    /// It goes on.
    Walking(Walk),
    /// Everything below the root is captured; so much may still be read.
    Done { entries: Entries, budget: Budget },
    /// The root could not be captured.
    Failed { error: IoError },
}

impl Walk {
    /// A capture of `root` that may read what `budget` has left.
    pub fn new(root: Vec<u8>, limits: Limits, budget: Budget) -> (walk: Self)
        ensures
            walk@ == WalkView::start(root@, limits, budget@),
    {
        let walk = Walk {
            root,
            limits,
            budget,
            output: Entries::new(),
            pending: Vec::new(),
            step: Step::Root,
        };
        assert(walk@.pending =~= seq![]);
        walk
    }

    /// What the walk asks for next; nothing where it has ended.
    pub fn request(&self) -> (request: Option<Request>)
        ensures
            match request {
                Some(request) => self@.request() == Some(request@),
                None => self@.request() is None,
            },
    {
        match &self.step {
            Step::Root => Some(Request::Inspect { path: slice_to_vec(self.root.as_slice()) }),
            Step::Inspect { path } => Some(Request::Inspect { path: slice_to_vec(path.as_slice()) }),
            Step::List { path, .. } => Some(Request::List { path: slice_to_vec(path.as_slice()) }),
            Step::ReadLink { path } => Some(
                Request::ReadLink { path: slice_to_vec(path.as_slice()) },
            ),
            Step::Read { path, allowance } => Some(
                Request::Read {
                    path: slice_to_vec(path.as_slice()),
                    max_bytes: read_size(*allowance),
                },
            ),
            Step::Done => None,
            Step::Failed { .. } => None,
        }
    }

    /// The walk, turned to the next pending path.
    fn resume(self) -> (next: Self)
        ensures
            next@ == self@.resumed(),
    {
        let mut next = self;
        let ghost were = next.pending@;
        match next.pending.pop() {
            None => {
                next.step = Step::Done;
                assert(next@ =~= self@.resumed());
            },
            Some(path) => {
                next.step = Step::Inspect { path };
                assert(views(next.pending@) =~= views(were).drop_last());
                assert(path@ == views(were).last());
                assert(next@ =~= self@.resumed());
            },
        }
        next
    }

    /// Tells the walk what was found. A reply that does not answer what it asks for leaves
    /// it as it is.
    pub fn advance(self, reply: Reply) -> (next: Self)
        ensures
            next@ == self@.after(reply@),
    {
        let Walk { root, limits, budget, output, pending, step } = self;
        let mut budget = budget;
        let mut output = output;
        let mut pending = pending;
        match (step, reply) {
            (Step::Root, Reply::Found(found)) => {
                let step: Step = match capture_root(root.as_slice(), found) {
                    Ok(()) => Step::List { path: slice_to_vec(root.as_slice()), is_root: true },
                    Err(error) => Step::Failed { error },
                };
                Walk { root, limits, budget, output, pending, step }
            },
            (Step::List { path, is_root }, Reply::Names(names)) => {
                match walk_directory(
                    root.as_slice(),
                    path.as_slice(),
                    names,
                    &mut pending,
                    &mut output,
                    is_root,
                ) {
                    Ok(()) => Walk {
                        root,
                        limits,
                        budget,
                        output,
                        pending,
                        step: Step::Done,
                    }.resume(),
                    Err(error) => Walk {
                        root,
                        limits,
                        budget,
                        output,
                        pending,
                        step: Step::Failed { error },
                    },
                }
            },
            (Step::Inspect { path }, Reply::Found(found)) => {
                match capture_path(found, limits, &budget) {
                    PathPlan::Record(entry) => {
                        output.insert(relative_key(root.as_slice(), path.as_slice()), entry);
                        Walk { root, limits, budget, output, pending, step: Step::Done }.resume()
                    },
                    PathPlan::Read { allowance } => Walk {
                        root,
                        limits,
                        budget,
                        output,
                        pending,
                        step: Step::Read { path, allowance },
                    },
                    PathPlan::ReadLink => Walk {
                        root,
                        limits,
                        budget,
                        output,
                        pending,
                        step: Step::ReadLink { path },
                    },
                    PathPlan::List => Walk {
                        root,
                        limits,
                        budget,
                        output,
                        pending,
                        step: Step::List { path, is_root: false },
                    },
                }
            },
            (Step::ReadLink { path }, Reply::Target(target)) => {
                output.insert(
                    relative_key(root.as_slice(), path.as_slice()),
                    capture_symlink(target),
                );
                Walk { root, limits, budget, output, pending, step: Step::Done }.resume()
            },
            (Step::Read { path, allowance }, Reply::Content(read)) => {
                let entry = capture_content(read, allowance, limits, &mut budget);
                output.insert(relative_key(root.as_slice(), path.as_slice()), entry);
                Walk { root, limits, budget, output, pending, step: Step::Done }.resume()
            },
            (step, _) => Walk { root, limits, budget, output, pending, step },
        }
    }

    /// How the walk stands.
    pub fn outcome(self) -> (outcome: Outcome)
        ensures
            match outcome {
                Outcome::Walking(walk) => walk@ == self@ && self@.request() is Some,
                Outcome::Done { entries, budget } => self@.step is Done && entries@ == self@.entries
                    && budget@ == self@.remaining,
                Outcome::Failed { error } => self@.step == (StepView::Failed { error: error@ }),
            },
    {
        let Walk { root, limits, budget, output, pending, step } = self;
        match step {
            Step::Done => Outcome::Done { entries: output, budget },
            Step::Failed { error } => Outcome::Failed { error },
            step => Outcome::Walking(Walk { root, limits, budget, output, pending, step }),
        }
    }
}

/// The order in which a directory lists its names does not matter.
pub proof fn listing_order_does_not_matter(
    walk: WalkView,
    names: Seq<Seq<u8>>,
    shuffled: Seq<Seq<u8>>,
)
    requires
        names.to_multiset() == shuffled.to_multiset(),
    ensures
        walk.after(ReplyView::Names(Ok(names))) == walk.after(ReplyView::Names(Ok(shuffled))),
{
    sorted_is_unique(names, sorted(shuffled));
    sorted_is_unique(shuffled, sorted(shuffled));
}

/// Whether the walk has got past its root: it is not about to look at the root or to
/// list it, and has not failed.
pub open spec fn is_past_root(walk: WalkView) -> bool {
    match walk.step {
        StepView::Root => false,
        StepView::List { is_root, .. } => !is_root,
        StepView::Failed { .. } => false,
        _ => true,
    }
}

/// Nothing that is found below the root, or is no longer found, makes a walk fail.
pub proof fn nothing_below_the_root_fails(walk: WalkView, replies: Seq<ReplyView>)
    requires
        is_past_root(walk),
    ensures
        is_past_root(walk.after_all(replies)),
    decreases replies.len(),
{
    if replies.len() > 0 {
        nothing_below_the_root_fails(walk.after(replies[0]), replies.drop_first());
    }
}

/// A link below the root is recorded, not followed: the walk asks where it points to,
/// records that, and turns to the next path, with nothing read and nothing more pending.
/// A root that is a link is refused.
pub proof fn links_are_not_followed(
    walk: WalkView,
    path: Seq<u8>,
    target: Result<Seq<u8>, IoErrorView>,
)
    requires
        walk.step == (StepView::Inspect { path }),
    ensures
        ({
            let at_link = walk.after(ReplyView::Found(Ok(FileType::Symlink)));
            &&& at_link.request() == Some(RequestView::ReadLink { path })
            &&& at_link.after(ReplyView::Target(target)) == walk.recorded(
                path,
                link_entry(target),
            ).resumed()
        }),
        WalkView::start(path, walk.limits, walk.remaining).after(
            ReplyView::Found(Ok(FileType::Symlink)),
        ).step is Failed,
{
}

/// A directory below the root is listed, and what it lists is captured next: nothing is
/// read, and nothing recorded, until then.
pub proof fn directories_are_listed(walk: WalkView, path: Seq<u8>, names: Seq<Seq<u8>>)
    requires
        walk.step == (StepView::Inspect { path }),
    ensures
        ({
            let at_directory = walk.after(ReplyView::Found(Ok(FileType::Directory)));
            &&& at_directory == walk.at(StepView::List { path, is_root: false })
            &&& at_directory.after(ReplyView::Names(Ok(names))) == WalkView {
                pending: walk.pending + children_of(path, names).reverse(),
                ..walk
            }.resumed()
        }),
{
}

/// A reply that does not answer what a walk asks for changes nothing.
pub proof fn other_replies_change_nothing(walk: WalkView, reply: ReplyView)
    requires
        !answers(walk.request(), reply),
    ensures
        walk.after(reply) == walk,
{
}

/// What is found at a path changes no entry but the one under the key of that path.
pub proof fn other_keys_keep_their_entries(walk: WalkView, reply: ReplyView, key: Seq<char>)
    requires
        match walk.request() {
            Some(request) => match path_of(request) {
                Some(path) => key != key_of(walk.root, path),
                None => true,
            },
            None => true,
        },
    ensures
        walk.after(reply).entries.contains_key(key) == walk.entries.contains_key(key),
        walk.entries.contains_key(key) ==> walk.after(reply).entries[key] == walk.entries[key],
{
}

/// What is recorded stays recorded: a key under which there is an entry keeps one.
pub proof fn keys_are_kept(walk: WalkView, replies: Seq<ReplyView>, key: Seq<char>)
    requires
        walk.entries.contains_key(key),
    ensures
        walk.after_all(replies).entries.contains_key(key),
    decreases replies.len(),
{
    if replies.len() > 0 {
        keys_are_kept(walk.after(replies[0]), replies.drop_first(), key);
    }
}

/// Whether every name in `reply` is one that a directory may list.
pub open spec fn lists_names(reply: ReplyView) -> bool {
    match reply {
        ReplyView::Names(Ok(names)) => forall|i: int|
            0 <= i < names.len() ==> is_child_name(#[trigger] names[i]),
        _ => true,
    }
}

/// The path that `request` is about.
pub open spec fn path_of(request: RequestView) -> Option<Seq<u8>> {
    match request {
        RequestView::Status => None,
        RequestView::Inspect { path } => Some(path),
        RequestView::List { path } => Some(path),
        RequestView::ReadLink { path } => Some(path),
        RequestView::Read { path, .. } => Some(path),
    }
}

/// Whether names that directories may list lead from `root` to `path`.
pub open spec fn is_below(root: Seq<u8>, path: Seq<u8>) -> bool {
    exists|names: Seq<Seq<u8>>| #[trigger]
        path_below(root, names) == path && forall|i: int|
            0 <= i < names.len() ==> is_child_name(#[trigger] names[i])
}

/// Whether every path that the walk has still to do with lies at its root or below it.
pub open spec fn stays_below(walk: WalkView) -> bool {
    &&& forall|i: int|
        0 <= i < walk.pending.len() ==> is_below(walk.root, #[trigger] walk.pending[i])
    &&& match walk.request() {
        Some(request) => match path_of(request) {
            Some(path) => is_below(walk.root, path),
            None => true,
        },
        None => true,
    }
}

/// What a directory below `root` holds lies below `root`.
proof fn children_are_below(root: Seq<u8>, directory: Seq<u8>, names: Seq<Seq<u8>>)
    requires
        is_below(root, directory),
        forall|i: int| 0 <= i < names.len() ==> is_child_name(#[trigger] names[i]),
    ensures
        forall|i: int|
            0 <= i < children_of(directory, names).len() ==> is_below(
                root,
                #[trigger] children_of(directory, names)[i],
            ),
{
    let children = children_of(directory, names);
    let above = choose|above: Seq<Seq<u8>>| #[trigger]
        path_below(root, above) == directory && forall|i: int|
            0 <= i < above.len() ==> is_child_name(#[trigger] above[i]);
    not_after_is_total();
    names.lemma_sort_by_ensures(not_after());
    assert forall|i: int| 0 <= i < children.len() implies is_below(root, #[trigger] children[i]) by {
        let name = sorted(names)[i];
        assert(sorted(names).contains(name));
        assert(names.contains(name));
        assert(is_child_name(name));
        let down = above.push(name);
        assert(down.drop_last() =~= above);
        assert(path_below(root, down) == children[i]);
    }
}

/// A walk looks at nothing but its root and what lies below it.
pub proof fn walk_stays_below_its_root(
    root: Seq<u8>,
    limits: Limits,
    remaining: nat,
    replies: Seq<ReplyView>,
)
    requires
        forall|i: int| 0 <= i < replies.len() ==> lists_names(#[trigger] replies[i]),
    ensures
        stays_below(WalkView::start(root, limits, remaining).after_all(replies)),
{
    assert(path_below(root, seq![]) == root);
    keeps_below(WalkView::start(root, limits, remaining), replies);
}

/// A walk that stays below its root does so whatever it is told.
proof fn keeps_below(walk: WalkView, replies: Seq<ReplyView>)
    requires
        stays_below(walk),
        forall|i: int| 0 <= i < replies.len() ==> lists_names(#[trigger] replies[i]),
    ensures
        stays_below(walk.after_all(replies)),
    decreases replies.len(),
{
    if replies.len() > 0 {
        let next = walk.after(replies[0]);
        assert(lists_names(replies[0]));
        match (walk.step, replies[0]) {
            (StepView::List { path, .. }, ReplyView::Names(Ok(names))) => {
                children_are_below(walk.root, path, names);
                let more = walk.pending + children_of(path, names).reverse();
                assert forall|i: int| 0 <= i < more.len() implies is_below(
                    walk.root,
                    #[trigger] more[i],
                ) by {
                    if i >= walk.pending.len() {
                        let n = children_of(path, names).len();
                        assert(more[i] == children_of(path, names)[n - 1 - (i
                            - walk.pending.len())]);
                    }
                }
            },
            _ => {},
        }
        assert(stays_below(next));
        keeps_below(next, replies.drop_first());
    }
}

} // verus!
