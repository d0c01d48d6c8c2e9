//! What a capture asks of the file system, and what it is told.
use crate::capture::{view_names, FileType};
use crate::error::{view_result, IoError, IoErrorView};
use vstd::prelude::*;

verus! {

/// The next thing to look at.
#[derive(Debug, PartialEq, Eq)]
pub enum Request {
    /// Read `/proc/self/status` as text.
    Status,
    /// Tell what stands at `path`, without following a link there.
    Inspect { path: Vec<u8> },
    /// List the names in the directory at `path`.
    List { path: Vec<u8> },
    /// Read where the link at `path` points to.
    ReadLink { path: Vec<u8> },
    /// Read at most `max_bytes` bytes of the file at `path`, without waiting and
    /// without following a link there.
    Read { path: Vec<u8>, max_bytes: u64 },
}

/// What a [`Request`] says.
pub enum RequestView {
    Status,
    Inspect { path: Seq<u8> },
    List { path: Seq<u8> },
    ReadLink { path: Seq<u8> },
    Read { path: Seq<u8>, max_bytes: nat },
}

impl View for Request {
    type V = RequestView;

    open spec fn view(&self) -> RequestView {
        match self {
            Request::Status => RequestView::Status,
            Request::Inspect { path } => RequestView::Inspect { path: path@ },
            Request::List { path } => RequestView::List { path: path@ },
            Request::ReadLink { path } => RequestView::ReadLink { path: path@ },
            Request::Read { path, max_bytes } => RequestView::Read {
                path: path@,
                max_bytes: *max_bytes as nat,
            },
        }
    }
}

/// What was found.
#[derive(Debug)]
pub enum Reply {
    Status(Result<String, IoError>),
    Found(Result<FileType, IoError>),
    Names(Result<Vec<Vec<u8>>, IoError>),
    Target(Result<Vec<u8>, IoError>),
    Content(Result<Vec<u8>, IoError>),
}

/// What a [`Reply`] says.
pub enum ReplyView {
    Status(Result<Seq<char>, IoErrorView>),
    Found(Result<FileType, IoErrorView>),
    Names(Result<Seq<Seq<u8>>, IoErrorView>),
    Target(Result<Seq<u8>, IoErrorView>),
    Content(Result<Seq<u8>, IoErrorView>),
}

impl View for Reply {
    type V = ReplyView;

    open spec fn view(&self) -> ReplyView {
        match self {
            Reply::Status(status) => ReplyView::Status(view_result(*status)),
            Reply::Found(found) => ReplyView::Found(view_result(*found)),
            Reply::Names(names) => ReplyView::Names(view_names(*names)),
            Reply::Target(target) => ReplyView::Target(view_result(*target)),
            Reply::Content(content) => ReplyView::Content(view_result(*content)),
        }
    }
}

/// Whether `reply` answers `request`.
pub open spec fn answers(request: Option<RequestView>, reply: ReplyView) -> bool {
    match request {
        None => false,
        Some(RequestView::Status) => reply is Status,
        Some(RequestView::Inspect { .. }) => reply is Found,
        Some(RequestView::List { .. }) => reply is Names,
        Some(RequestView::ReadLink { .. }) => reply is Target,
        Some(RequestView::Read { .. }) => reply is Content,
    }
}

/// How many bytes of a file `reply` brings.
pub open spec fn bytes_in(reply: ReplyView) -> nat {
    match reply {
        ReplyView::Content(Ok(bytes)) => bytes.len(),
        _ => 0,
    }
}

/// Whether `reply` brings no more of a file than `request` asks for.
pub open spec fn is_no_more_than(request: Option<RequestView>, reply: ReplyView) -> bool {
    match request {
        Some(RequestView::Read { max_bytes, .. }) => bytes_in(reply) <= max_bytes,
        _ => true,
    }
}

/// A request says which path it is about and how much it asks for.
pub proof fn request_says_what_it_holds(request: Request)
    ensures
        match request {
            Request::Status => request@ is Status,
            Request::Inspect { path } => request@ == (RequestView::Inspect { path: path@ }),
            Request::List { path } => request@ == (RequestView::List { path: path@ }),
            Request::ReadLink { path } => request@ == (RequestView::ReadLink { path: path@ }),
            Request::Read { path, max_bytes } => request@ == (RequestView::Read {
                path: path@,
                max_bytes: max_bytes as nat,
            }),
        },
{
}

/// A reply says all that was found.
pub proof fn reply_says_what_it_holds(reply: Reply)
    ensures
        match reply {
            Reply::Status(Ok(text)) => reply@ == ReplyView::Status(Ok(text@)),
            Reply::Status(Err(error)) => reply@ == ReplyView::Status(Err(error@)),
            Reply::Found(Ok(found)) => reply@ == ReplyView::Found(Ok(found)),
            Reply::Found(Err(error)) => reply@ == ReplyView::Found(Err(error@)),
            Reply::Names(Ok(names)) => {
                &&& reply@ matches ReplyView::Names(Ok(listed))
                &&& listed.len() == names@.len()
                &&& forall|i: int| 0 <= i < listed.len() ==> #[trigger] listed[i] == names@[i]@
            },
            Reply::Names(Err(error)) => reply@ == ReplyView::Names(Err(error@)),
            Reply::Target(Ok(target)) => reply@ == ReplyView::Target(Ok(target@)),
            Reply::Target(Err(error)) => reply@ == ReplyView::Target(Err(error@)),
            Reply::Content(Ok(bytes)) => reply@ == ReplyView::Content(Ok(bytes@)),
            Reply::Content(Err(error)) => reply@ == ReplyView::Content(Err(error@)),
        },
{
}

} // verus!
