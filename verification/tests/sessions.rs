use shiran::budget::Limits;
use shiran::capture::FileType;
use shiran::entries::Entries;
use shiran::entry::Entry;
use shiran::error::{ErrorKind, IoError};
use shiran::protocol::{Reply, Request};
use shiran::snapshot::{make_snapshot, Roots, Snapshot, FORMAT_VERSION};
use shiran::status::ExecutionContext;
use std::collections::BTreeMap;

const STATUS: &str = "Name:\tshiran\nUid:\t1000\t1001\t1002\t1003\nGid:\t2000\t2001\t2002\t2003\n";

#[derive(Clone)]
enum Thing {
    Directory,
    Locked,
    File(Vec<u8>),
    Claiming(u64, Vec<u8>),
    Unreadable(ErrorKind),
    Link(&'static str),
    Device,
    Gone,
}

/// A file system, and what was asked of it.
struct Disk {
    things: BTreeMap<String, Thing>,
    status: Result<String, IoError>,
    backwards: bool,
    asked: Vec<String>,
    bytes_read: usize,
}

fn failure(kind: ErrorKind) -> IoError {
    IoError::new(kind, format!("{kind:?}"))
}

fn text(path: Vec<u8>) -> String {
    String::from_utf8(path).unwrap()
}

impl Disk {
    fn new(things: &[(&str, Thing)]) -> Disk {
        let mut all = BTreeMap::new();
        for (path, thing) in things {
            all.insert(path.to_string(), thing.clone());
        }
        Disk {
            things: all,
            status: Ok(STATUS.to_string()),
            backwards: false,
            asked: Vec::new(),
            bytes_read: 0,
        }
    }

    fn thing(&self, path: &str) -> Thing {
        self.things.get(path).cloned().unwrap_or(Thing::Gone)
    }

    fn look(&mut self, request: Request) -> Reply {
        match request {
            Request::Status => {
                let status = std::mem::replace(&mut self.status, Ok(String::new()));
                Reply::Status(status)
            }
            Request::Inspect { path } => {
                let path = text(path);
                self.asked.push(format!("inspect {path}"));
                Reply::Found(match self.thing(&path) {
                    Thing::Directory | Thing::Locked => Ok(FileType::Directory),
                    Thing::File(bytes) => Ok(FileType::File { len: bytes.len() as u64 }),
                    Thing::Claiming(len, _) => Ok(FileType::File { len }),
                    Thing::Unreadable(_) => Ok(FileType::File { len: 0 }),
                    Thing::Link(_) => Ok(FileType::Symlink),
                    Thing::Device => Ok(FileType::Special),
                    Thing::Gone => Err(failure(ErrorKind::NotFound)),
                })
            }
            Request::List { path } => {
                let path = text(path);
                self.asked.push(format!("list {path}"));
                if !matches!(self.thing(&path), Thing::Directory) {
                    return Reply::Names(Err(failure(ErrorKind::PermissionDenied)));
                }
                let start = format!("{path}/");
                let mut names: Vec<Vec<u8>> = self
                    .things
                    .keys()
                    .filter_map(|other| other.strip_prefix(&start))
                    .filter(|name| !name.contains('/'))
                    .map(|name| name.as_bytes().to_vec())
                    .collect();
                if self.backwards {
                    names.reverse();
                }
                Reply::Names(Ok(names))
            }
            Request::ReadLink { path } => {
                let path = text(path);
                self.asked.push(format!("link {path}"));
                Reply::Target(match self.thing(&path) {
                    Thing::Link(target) => Ok(target.as_bytes().to_vec()),
                    _ => Err(failure(ErrorKind::InvalidInput)),
                })
            }
            Request::Read { path, max_bytes } => {
                let path = text(path);
                self.asked.push(format!("read {path}"));
                Reply::Content(match self.thing(&path) {
                    Thing::File(mut bytes) | Thing::Claiming(_, mut bytes) => {
                        bytes.truncate(max_bytes as usize);
                        self.bytes_read += bytes.len();
                        Ok(bytes)
                    }
                    Thing::Unreadable(kind) => Err(failure(kind)),
                    _ => Err(failure(ErrorKind::Other)),
                })
            }
        }
    }

    fn snapshot(&mut self, limits: Limits) -> Result<Snapshot, String> {
        let roots = Roots { proc: b"/p".to_vec(), sys: b"/s".to_vec() };
        let mut session = make_snapshot(roots, limits);
        while let Some(request) = session.request() {
            session = session.advance(self.look(request));
        }
        session.finish().unwrap()
    }
}

fn file(content: &[u8]) -> Thing {
    Thing::File(content.to_vec())
}

fn limits(max_entry_bytes: usize, max_total_bytes: usize) -> Limits {
    Limits { max_entry_bytes, max_total_bytes }
}

/// Each key with the two fields of its entry.
fn fields(entries: Entries) -> Vec<(String, String, String)> {
    entries
        .into_items()
        .into_iter()
        .map(|(key, entry)| {
            let mut fields = entry.into_fields();
            let (_, value) = fields.pop().unwrap();
            let (_, status) = fields.pop().unwrap();
            (key, status, value)
        })
        .collect()
}

fn row(key: &str, status: &str, value: &str) -> (String, String, String) {
    (key.to_string(), status.to_string(), value.to_string())
}

#[test]
fn snapshot_cases() {
    let oversized = vec![b'x'; 1024 * 1024 + 1];
    let mut disk = Disk::new(&[
        ("/p", Thing::Directory),
        ("/p/meminfo", file(b"MemTotal: 42 kB\n")),
        ("/p/cmdline", file(b"init\0quiet\0")),
        ("/p/binary", file(&[0xff, 0xfe, 0xfd])),
        ("/p/oversized", file(&oversized)),
        ("/s", Thing::Directory),
        ("/s/class", Thing::Directory),
        ("/s/class/net", Thing::Directory),
        ("/s/class/net/eth0", Thing::Directory),
        ("/s/class/net/eth0/mtu", file(b"1500\n")),
        ("/s/class/net/current", Thing::Link("eth0")),
    ]);
    let snapshot = disk.snapshot(Limits::default()).unwrap();
    assert_eq!(snapshot.format_version, 1);
    assert_eq!(
        snapshot.execution,
        ExecutionContext { uid: 1000, euid: 1001, gid: 2000, egid: 2001 }
    );
    assert_eq!(
        fields(snapshot.proc),
        vec![
            row("binary", "excluded", "binary"),
            row("cmdline", "captured", "init\0quiet\0"),
            row("meminfo", "captured", "MemTotal: 42 kB\n"),
            row("oversized", "excluded", "size_limit"),
        ]
    );
    assert_eq!(
        fields(snapshot.sys),
        vec![
            row("class/net/current", "symlink", "eth0"),
            row("class/net/eth0/mtu", "captured", "1500\n"),
        ]
    );
}

#[test]
fn everything_found_is_represented() {
    let mut disk = Disk::new(&[
        ("/p", Thing::Directory),
        ("/p/1", Thing::Locked),
        ("/p/2", Thing::Directory),
        ("/p/2/device", Thing::Device),
        ("/p/2/gone", Thing::Gone),
        ("/p/2/secret", Thing::Unreadable(ErrorKind::PermissionDenied)),
        ("/p/2/slow", Thing::Unreadable(ErrorKind::WouldBlock)),
        ("/p/2/broken", Thing::Unreadable(ErrorKind::InvalidData)),
        ("/p/2/lies", Thing::Claiming(0, b"0123456789abc".to_vec())),
        ("/p/2/empty", file(b"")),
        ("/p/3", Thing::Directory),
        ("/s", Thing::Directory),
    ]);
    let snapshot = disk.snapshot(limits(10, 1000)).unwrap();
    assert_eq!(
        fields(snapshot.proc),
        vec![
            row("1", "unavailable", "permission_denied"),
            row("2/broken", "unavailable", "io_error"),
            row("2/device", "excluded", "special_file"),
            row("2/empty", "captured", ""),
            row("2/gone", "unavailable", "vanished"),
            row("2/lies", "excluded", "size_limit"),
            row("2/secret", "unavailable", "permission_denied"),
            row("2/slow", "unavailable", "would_block"),
        ]
    );
    assert_eq!(fields(snapshot.sys), vec![]);
    assert_eq!(snapshot.limits.max_entry_bytes, 10);
    assert_eq!(snapshot.limits.max_total_bytes, 1000);
    assert_eq!(snapshot.format_version, FORMAT_VERSION);
}

#[test]
fn links_lead_nowhere() {
    let mut disk = Disk::new(&[
        ("/p", Thing::Directory),
        ("/p/self", Thing::Link("1")),
        ("/p/self/status", file(b"x")),
        ("/s", Thing::Directory),
    ]);
    let snapshot = disk.snapshot(Limits::default()).unwrap();
    assert_eq!(fields(snapshot.proc), vec![row("self", "symlink", "1")]);
    assert_eq!(
        disk.asked,
        vec!["inspect /p", "list /p", "inspect /p/self", "link /p/self", "inspect /s", "list /s"]
    );
}

#[test]
fn both_trees_share_the_total() {
    let mut disk = Disk::new(&[
        ("/p", Thing::Directory),
        ("/p/a", file(b"aaaa")),
        ("/p/b", file(&[0xff, 0xff])),
        ("/s", Thing::Directory),
        ("/s/c", file(b"cccc")),
        ("/s/d", Thing::Claiming(0, b"ddddddd".to_vec())),
        ("/s/e", file(b"")),
    ]);
    let snapshot = disk.snapshot(limits(4, 9)).unwrap();
    assert_eq!(
        fields(snapshot.proc),
        vec![row("a", "captured", "aaaa"), row("b", "excluded", "binary")]
    );
    assert_eq!(
        fields(snapshot.sys),
        vec![
            row("c", "excluded", "total_limit"),
            row("d", "excluded", "total_limit"),
            row("e", "excluded", "total_limit"),
        ]
    );
    assert_eq!(disk.bytes_read, 10);
    assert!(!disk.asked.contains(&"read /s/c".to_string()));
    assert!(!disk.asked.contains(&"read /s/e".to_string()));
}

#[test]
fn what_fits_is_captured_whole() {
    let mut disk = Disk::new(&[
        ("/p", Thing::Directory),
        ("/p/a", file(b"aaaa")),
        ("/p/b", file(b"bbbb")),
        ("/s", Thing::Directory),
        ("/s/c", file(b"c")),
    ]);
    let snapshot = disk.snapshot(limits(4, 10)).unwrap();
    assert_eq!(
        fields(snapshot.proc),
        vec![row("a", "captured", "aaaa"), row("b", "captured", "bbbb")]
    );
    assert_eq!(fields(snapshot.sys), vec![row("c", "captured", "c")]);
}

#[test]
fn listing_order_makes_no_difference() {
    let things = [
        ("/p", Thing::Directory),
        ("/p/a", file(b"aaa")),
        ("/p/a-b", file(b"bbb")),
        ("/p/c", Thing::Directory),
        ("/p/c/d", file(b"ddd")),
        ("/p/c/e", file(b"eee")),
        ("/s", Thing::Directory),
    ];
    let mut disk = Disk::new(&things);
    let first = fields(disk.snapshot(limits(5, 8)).unwrap().proc);
    let mut disk = Disk::new(&things);
    disk.backwards = true;
    let second = fields(disk.snapshot(limits(5, 8)).unwrap().proc);
    assert_eq!(first, second);
    assert_eq!(
        first,
        vec![
            row("a", "captured", "aaa"),
            row("a-b", "captured", "bbb"),
            row("c/d", "excluded", "total_limit"),
            row("c/e", "excluded", "total_limit"),
        ]
    );
}

#[test]
fn failures_of_the_roots() {
    let mut disk = Disk::new(&[("/s", Thing::Directory)]);
    assert_eq!(
        disk.snapshot(Limits::default()).unwrap_err(),
        "failed to snapshot /p: NotFound"
    );
    let mut disk = Disk::new(&[("/p", Thing::Directory), ("/s", Thing::Link("x"))]);
    assert_eq!(
        disk.snapshot(Limits::default()).unwrap_err(),
        "failed to snapshot /s: not a directory: /s"
    );
    let mut disk = Disk::new(&[("/p", Thing::Directory), ("/s", Thing::Locked)]);
    assert_eq!(
        disk.snapshot(Limits::default()).unwrap_err(),
        "failed to snapshot /s: PermissionDenied"
    );
    let mut disk = Disk::new(&[]);
    disk.status = Ok("Uid:\t1\t1\n".to_string());
    assert_eq!(disk.snapshot(Limits::default()).unwrap_err(), "invalid /proc/self/status");
    assert!(disk.asked.is_empty());
    let mut disk = Disk::new(&[]);
    disk.status = Err(failure(ErrorKind::NotFound));
    assert_eq!(
        disk.snapshot(Limits::default()).unwrap_err(),
        "failed to read /proc/self/status: NotFound"
    );
}

#[test]
fn an_unfinished_session_has_no_result() {
    let roots = Roots { proc: b"/p".to_vec(), sys: b"/s".to_vec() };
    let session = make_snapshot(roots, Limits::default());
    assert_eq!(session.request(), Some(Request::Status));
    assert!(session.finish().is_none());
}

#[test]
fn the_same_key_is_kept_once() {
    let mut entries = Entries::new();
    entries.insert("k".to_string(), Entry::Captured { content: "1".to_string() });
    entries.insert("k".to_string(), Entry::Captured { content: "2".to_string() });
    assert_eq!(
        entries.into_items(),
        vec![("k".to_string(), Entry::Captured { content: "2".to_string() })]
    );
}

#[test]
fn listed_directories_have_no_entry() {
    let mut disk = Disk::new(&[
        ("/p", Thing::Directory),
        ("/p/a", Thing::Directory),
        ("/p/a-b", file(b"1")),
        ("/p/a/b", Thing::Directory),
        ("/p/a/b/c", file(b"2")),
        ("/p/a/d", Thing::Locked),
        ("/s", Thing::Directory),
    ]);
    let snapshot = disk.snapshot(Limits::default()).unwrap();
    assert_eq!(
        fields(snapshot.proc),
        vec![
            row("a-b", "captured", "1"),
            row("a/b/c", "captured", "2"),
            row("a/d", "unavailable", "permission_denied"),
        ]
    );
}

#[test]
fn the_largest_limits_capture_everything() {
    let mut disk = Disk::new(&[
        ("/p", Thing::Directory),
        ("/p/a", file(b"text")),
        ("/p/b", Thing::Claiming(0, b"more".to_vec())),
        ("/p/c", file(&[0xff])),
        ("/s", Thing::Directory),
    ]);
    let snapshot = disk.snapshot(limits(usize::MAX, usize::MAX)).unwrap();
    assert_eq!(
        fields(snapshot.proc),
        vec![
            row("a", "captured", "text"),
            row("b", "captured", "more"),
            row("c", "excluded", "binary"),
        ]
    );
}

#[test]
fn replies_that_answer_nothing_change_nothing() {
    let roots = Roots { proc: b"/p".to_vec(), sys: b"/s".to_vec() };
    let mut session = make_snapshot(roots, Limits::default());
    session = session.advance(Reply::Found(Ok(FileType::Directory)));
    assert_eq!(session.request(), Some(Request::Status));
    session = session.advance(Reply::Status(Ok(STATUS.to_string())));
    assert_eq!(session.request(), Some(Request::Inspect { path: b"/p".to_vec() }));
    session = session.advance(Reply::Names(Ok(Vec::new())));
    session = session.advance(Reply::Content(Ok(b"x".to_vec())));
    assert_eq!(session.request(), Some(Request::Inspect { path: b"/p".to_vec() }));
    session = session.advance(Reply::Found(Ok(FileType::Special)));
    assert_eq!(session.request(), None);
    session = session.advance(Reply::Found(Ok(FileType::Directory)));
    assert_eq!(
        session.finish().unwrap().unwrap_err(),
        "failed to snapshot /p: not a directory: /p"
    );
}

#[test]
fn nothing_is_recorded_below_an_entry() {
    let mut disk = Disk::new(&[
        ("/p", Thing::Directory),
        ("/p/a", Thing::Link("b")),
        ("/p/a/x", file(b"1")),
        ("/p/b", Thing::Directory),
        ("/p/b/x", file(b"2")),
        ("/p/b-c", file(b"3")),
        ("/p/d", Thing::Locked),
        ("/p/d/x", file(b"4")),
        ("/s", Thing::Directory),
    ]);
    let entries = fields(disk.snapshot(Limits::default()).unwrap().proc);
    let keys: Vec<&str> = entries.iter().map(|(key, _, _)| key.as_str()).collect();
    assert_eq!(keys, vec!["a", "b-c", "b/x", "d"]);
    for a in &keys {
        for b in &keys {
            assert!(!a.starts_with(&format!("{b}/")), "{a} {b}");
        }
    }
}

#[test]
fn names_need_not_be_text() {
    let roots = Roots { proc: b"/p".to_vec(), sys: b"/s".to_vec() };
    let mut session = make_snapshot(roots, Limits::default());
    session = session.advance(Reply::Status(Ok(STATUS.to_string())));
    session = session.advance(Reply::Found(Ok(FileType::Directory)));
    session = session.advance(Reply::Names(Ok(vec![b"\xff".to_vec()])));
    assert_eq!(session.request(), Some(Request::Inspect { path: b"/p/\xff".to_vec() }));
    session = session.advance(Reply::Found(Ok(FileType::Directory)));
    session = session.advance(Reply::Names(Ok(vec![b"x".to_vec(), b"\xfe".to_vec()])));
    session = session.advance(Reply::Found(Ok(FileType::Special)));
    session = session.advance(Reply::Found(Ok(FileType::Special)));
    session = session.advance(Reply::Found(Ok(FileType::Directory)));
    session = session.advance(Reply::Names(Ok(Vec::new())));
    assert_eq!(
        fields(session.finish().unwrap().unwrap().proc),
        vec![
            row("\u{fffd}/x", "excluded", "special_file"),
            row("\u{fffd}/\u{fffd}", "excluded", "special_file"),
        ]
    );
}
