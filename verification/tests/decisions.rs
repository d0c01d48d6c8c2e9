use shiran::budget::{Budget, Limits, MAX_ENTRY_BYTES, MAX_TOTAL_BYTES};
use shiran::capture::{
    capture_content, capture_file, capture_path, capture_root, capture_symlink, read_bounded,
    read_size, walk_directory, FilePlan, FileType, PathPlan,
};
use shiran::entries::Entries;
use shiran::entry::{Entry, Reason};
use shiran::error::{ErrorKind, IoError};
use shiran::listing::directory_children;
use shiran::order::is_before;
use shiran::path::{join_name, relative_key};
use shiran::snapshot::{Cli, Roots, DEFAULT_PROC_ROOT, DEFAULT_SYS_ROOT};
use shiran::status::parse_ids;
use std::path::Path;

fn error(kind: ErrorKind) -> IoError {
    IoError::new(kind, "cause".to_string())
}

fn limits(max_entry_bytes: usize, max_total_bytes: usize) -> Limits {
    Limits { max_entry_bytes, max_total_bytes }
}

/// Every string of at most `length` of `letters`.
fn strings(letters: &[&str], length: usize) -> Vec<String> {
    let mut all = vec![String::new()];
    let mut from = 0;
    for _ in 0..length {
        let end = all.len();
        for i in from..end {
            for letter in letters {
                let next = format!("{}{}", all[i], letter);
                all.push(next);
            }
        }
        from = end;
    }
    all
}

#[test]
fn default_limits() {
    let limits = Limits::default();
    assert_eq!(limits.max_entry_bytes, 1_048_576);
    assert_eq!(limits.max_total_bytes, 67_108_864);
    assert_eq!(MAX_ENTRY_BYTES, 1024 * 1024);
    assert_eq!(MAX_TOTAL_BYTES, 64 * 1024 * 1024);
}

#[test]
fn budget_runs_down() {
    let mut budget = Budget::new(10);
    assert_eq!(budget.allowance(4), 4);
    assert_eq!(budget.allowance(40), 10);
    assert!(!budget.exhausted());
    budget.consume(7);
    assert_eq!(budget.remaining(), 3);
    assert_eq!(budget.allowance(4), 3);
    budget.consume(9);
    assert_eq!(budget.remaining(), 0);
    assert!(budget.exhausted());
    assert_eq!(budget.allowance(4), 0);
}

#[test]
fn roots_from_the_command_line() {
    let cli = Cli { proc_root: b"p".to_vec(), sys_root: b"s".to_vec() };
    assert_eq!((DEFAULT_PROC_ROOT, DEFAULT_SYS_ROOT), ("/proc", "/sys"));
    assert_eq!(Roots::from(cli), Roots { proc: b"p".to_vec(), sys: b"s".to_vec() });
}

#[test]
fn files_that_are_not_read() {
    let excluded = |plan: FilePlan| match plan {
        FilePlan::Record(Entry::Excluded { reason }) => Some(reason),
        _ => None,
    };
    let small = limits(10, 100);
    assert_eq!(excluded(capture_file(11, small, &Budget::new(100))), Some(Reason::SizeLimit));
    assert_eq!(excluded(capture_file(11, small, &Budget::new(0))), Some(Reason::SizeLimit));
    assert_eq!(excluded(capture_file(0, small, &Budget::new(0))), Some(Reason::TotalLimit));
    assert_eq!(excluded(capture_file(6, small, &Budget::new(5))), Some(Reason::TotalLimit));
    assert_eq!(excluded(capture_file(10, small, &Budget::new(10))), None);
}

#[test]
fn allowance_of_a_file() {
    let allowance = |len, left| match capture_file(len, limits(10, 100), &Budget::new(left)) {
        FilePlan::Read { allowance } => Some(allowance),
        _ => None,
    };
    assert_eq!(allowance(0, 100), Some(10));
    assert_eq!(allowance(10, 100), Some(10));
    assert_eq!(allowance(3, 7), Some(7));
    assert_eq!(allowance(0, 1), Some(1));
    assert_eq!(allowance(2, 1), None);
}

#[test]
fn one_byte_more_is_asked_for() {
    assert_eq!(read_size(0), 1);
    assert_eq!(read_size(1024), 1025);
    assert!(!read_bounded(vec![1, 2, 3], 3).exceeded_limit);
    let read = read_bounded(vec![1, 2, 3], 2);
    assert!(read.exceeded_limit);
    assert_eq!(read.bytes, vec![1, 2, 3]);
}

#[test]
fn content_of_a_file() {
    let cases: [(&str, Result<&[u8], ErrorKind>, usize, usize, Entry, usize); 8] = [
        ("text", Ok(b"abc"), 3, 9, Entry::Captured { content: "abc".to_string() }, 6),
        ("empty", Ok(b""), 3, 9, Entry::Captured { content: String::new() }, 9),
        ("too long", Ok(b"abcdef"), 5, 9, Entry::Excluded { reason: Reason::SizeLimit }, 3),
        ("out of bytes", Ok(b"abcd"), 3, 3, Entry::Excluded { reason: Reason::TotalLimit }, 0),
        ("binary counts", Ok(&[0xff, 0xfe]), 5, 9, Entry::Excluded { reason: Reason::Binary }, 7),
        (
            "denied",
            Err(ErrorKind::PermissionDenied),
            5,
            9,
            Entry::Unavailable { reason: Reason::PermissionDenied },
            9,
        ),
        ("gone", Err(ErrorKind::NotFound), 5, 9, Entry::Unavailable { reason: Reason::Vanished }, 9),
        ("other", Err(ErrorKind::Other), 5, 9, Entry::Unavailable { reason: Reason::IoError }, 9),
    ];
    for (name, read, allowance, left, expected, after) in cases {
        let mut budget = Budget::new(left);
        let read = match read {
            Ok(bytes) => Ok(bytes.to_vec()),
            Err(kind) => Err(error(kind)),
        };
        let entry = capture_content(read, allowance, limits(5, 100), &mut budget);
        assert_eq!(entry, expected, "{name}");
        assert_eq!(budget.remaining(), after, "{name}");
    }
}

#[test]
fn links_are_recorded() {
    assert_eq!(
        capture_symlink(Ok(b"../../devices".to_vec())),
        Entry::Symlink { target: "../../devices".to_string() }
    );
    assert_eq!(
        capture_symlink(Ok(vec![0x61, 0xff, 0x62])),
        Entry::Symlink { target: "a\u{fffd}b".to_string() }
    );
    assert_eq!(
        capture_symlink(Err(error(ErrorKind::WouldBlock))),
        Entry::Unavailable { reason: Reason::WouldBlock }
    );
}

#[test]
fn plans_for_paths() {
    let budget = Budget::new(100);
    let plan = |found| capture_path(found, limits(10, 100), &budget);
    assert!(matches!(plan(Ok(FileType::Symlink)), PathPlan::ReadLink));
    assert!(matches!(plan(Ok(FileType::Directory)), PathPlan::List));
    assert!(matches!(plan(Ok(FileType::File { len: 4 })), PathPlan::Read { allowance: 10 }));
    assert!(matches!(
        plan(Ok(FileType::File { len: 11 })),
        PathPlan::Record(Entry::Excluded { reason: Reason::SizeLimit })
    ));
    assert!(matches!(
        plan(Ok(FileType::Special)),
        PathPlan::Record(Entry::Excluded { reason: Reason::SpecialFile })
    ));
    assert!(matches!(
        plan(Err(error(ErrorKind::NotFound))),
        PathPlan::Record(Entry::Unavailable { reason: Reason::Vanished })
    ));
}

#[test]
fn only_a_directory_is_a_root() {
    assert_eq!(capture_root(b"/proc", Ok(FileType::Directory)), Ok(()));
    for found in [FileType::Symlink, FileType::File { len: 1 }, FileType::Special] {
        assert_eq!(
            capture_root(b"/pr\xffc", Ok(found)),
            Err(IoError::new(ErrorKind::InvalidInput, "not a directory: /pr\u{fffd}c".to_string()))
        );
    }
    assert_eq!(
        capture_root(b"/proc", Err(error(ErrorKind::NotFound))),
        Err(error(ErrorKind::NotFound))
    );
}

#[test]
fn listings_are_taken_in() {
    let mut pending = vec![b"/r/z".to_vec()];
    let mut output = Entries::new();
    let names = vec![b"b".to_vec(), b"a".to_vec()];
    let result = walk_directory(b"/r", b"/r/d", Ok(names), &mut pending, &mut output, false);
    assert_eq!(result, Ok(()));
    assert_eq!(pending, vec![b"/r/z".to_vec(), b"/r/d/b".to_vec(), b"/r/d/a".to_vec()]);

    let failed = Err(error(ErrorKind::PermissionDenied));
    assert_eq!(walk_directory(b"/r", b"/r/e", failed, &mut pending, &mut output, false), Ok(()));
    let failed = Err(error(ErrorKind::PermissionDenied));
    assert_eq!(
        walk_directory(b"/r", b"/r", failed, &mut pending, &mut output, true),
        Err(error(ErrorKind::PermissionDenied))
    );
    assert_eq!(pending.len(), 3);
    assert_eq!(
        output.into_items(),
        vec![("e".to_string(), Entry::Unavailable { reason: Reason::PermissionDenied })]
    );
}

#[test]
fn keys_agree_with_std() {
    let roots = strings(&["/", ".", "a", "b"], 4);
    let paths = strings(&["/", ".", "a", "b"], 6);
    for root in &roots {
        for path in &paths {
            let expected = Path::new(path)
                .strip_prefix(root)
                .unwrap_or(Path::new(path))
                .to_string_lossy()
                .into_owned();
            let key = relative_key(root.as_bytes(), path.as_bytes());
            assert_eq!(key, expected, "{root} {path}");
        }
    }
}

#[test]
fn joining_agrees_with_std() {
    let all = strings(&["/", ".", "a"], 4);
    for directory in &all {
        for name in &all {
            let expected = Path::new(directory).join(name).to_string_lossy().into_owned();
            let joined = join_name(directory.as_bytes(), name.as_bytes());
            assert_eq!(joined, expected.into_bytes(), "{directory} {name}");
        }
    }
}

#[test]
fn keys_are_the_names_below_the_root() {
    for root in ["", "/", ".", "./", "/proc", "/proc/", "/proc//./", "../x", "a/.b"] {
        let mut path = root.as_bytes().to_vec();
        for name in ["class", "net", ".eth0", "..."] {
            path = join_name(&path, name.as_bytes());
        }
        assert_eq!(relative_key(root.as_bytes(), &path), "class/net/.eth0/...", "{root}");
    }
    assert_eq!(relative_key(b"/proc", b"/proc/\xff\xfe"), "\u{fffd}\u{fffd}");
    assert_eq!(relative_key(b"/proc", b"/proc/h\xc3\xa9"), "h\u{e9}");
}

#[test]
fn children_are_sorted_as_std_sorts_them() {
    let names = ["b", "a", "a-b", "a.b", "ab", "B", "\u{e9}", "10", "9", "a0", "aa", "a"];
    let mut expected: Vec<_> = names.iter().map(|name| Path::new("/d").join(name)).collect();
    expected.sort();
    let listed: Vec<Vec<u8>> = names.iter().map(|name| name.as_bytes().to_vec()).collect();
    let children: Vec<String> = directory_children(b"/d", &listed)
        .into_iter()
        .map(|child| String::from_utf8(child).unwrap())
        .collect();
    let expected: Vec<String> =
        expected.iter().map(|path| path.to_string_lossy().into_owned()).collect();
    assert_eq!(children, expected);
    assert_eq!(directory_children(b"/d", &Vec::new()), Vec::<Vec<u8>>::new());
}

#[test]
fn order_agrees_with_std() {
    let all = strings(&["a", "b", "\u{e9}"], 4);
    for a in &all {
        for b in &all {
            assert_eq!(is_before(a.as_bytes(), b.as_bytes()), a < b, "{a} {b}");
        }
    }
}

#[test]
fn entries_are_kept_in_order() {
    let keys = ["b/c", "a", "b-c", "b", "\u{e9}", "z", "a/b"];
    let mut entries = Entries::new();
    let mut expected = std::collections::BTreeMap::new();
    for (i, key) in keys.iter().enumerate() {
        let content = i.to_string();
        entries.insert(key.to_string(), Entry::Captured { content: content.clone() });
        expected.insert(key.to_string(), Entry::Captured { content });
    }
    entries.insert("b".to_string(), Entry::Excluded { reason: Reason::Binary });
    expected.insert("b".to_string(), Entry::Excluded { reason: Reason::Binary });
    let expected: Vec<(String, Entry)> = expected.into_iter().collect();
    assert_eq!(entries.into_items(), expected);
}

#[test]
fn fields_of_entries() {
    let cases = [
        (Entry::Captured { content: "c".to_string() }, "captured", "content", "c"),
        (Entry::Excluded { reason: Reason::SizeLimit }, "excluded", "reason", "size_limit"),
        (Entry::Unavailable { reason: Reason::Vanished }, "unavailable", "reason", "vanished"),
        (Entry::Symlink { target: "t".to_string() }, "symlink", "target", "t"),
    ];
    for (entry, status, field, value) in cases {
        assert_eq!(entry.status(), status);
        assert_eq!(
            entry.into_fields(),
            vec![("status", status.to_string()), (field, value.to_string())]
        );
    }
}

#[test]
fn ids_agree_with_std() {
    for tail in strings(&["1", "+", " ", "\n", "\r", "x", "k:"], 6) {
        let status = format!("k:{tail}");
        let expected = status.lines().find(|line| line.starts_with("k:")).and_then(|line| {
            let mut values = line["k:".len()..].split_whitespace();
            let first = values.next()?.parse::<u32>().ok()?;
            let second = values.next()?.parse::<u32>().ok()?;
            Some((first, second))
        });
        assert_eq!(parse_ids(&status, "k:"), expected, "{status:?}");
    }
}

#[test]
fn keys_lead_back_to_their_paths() {
    let roots = strings(&["/", ".", "a"], 4);
    let paths = strings(&["/", ".", "a", "\u{e9}"], 5);
    let mut seen = 0;
    for root in &roots {
        for path in &paths {
            let key = relative_key(root.as_bytes(), path.as_bytes());
            if Path::new(path).starts_with(root) {
                seen += 1;
                assert_eq!(Path::new(root).join(&key), Path::new(path), "{root} {path}");
            }
            if Path::new(path) == Path::new(root) {
                assert_eq!(key, "", "{root} {path}");
            }
        }
    }
    assert!(seen > 0);
}

#[test]
fn paths_below_a_root_do_not_share_a_key() {
    let paths = strings(&["/", ".", "a"], 5);
    for root in ["", "/", ".", "a", "/a", "./a"] {
        let below: Vec<(&Path, String)> = paths
            .iter()
            .filter(|path| Path::new(path).starts_with(root))
            .map(|path| (Path::new(path), relative_key(root.as_bytes(), path.as_bytes())))
            .collect();
        for (a, a_key) in &below {
            for (b, b_key) in &below {
                assert!(a_key != b_key || a == b, "{root} {a:?} {b:?}");
            }
        }
    }
}
