//! Paths as strings of bytes, and the keys under which they are recorded.
use crate::text::{decode_lossy, lossy_utf8};
use vstd::prelude::*;

verus! {

/// The byte that separates the names of a path.
pub const SEPARATOR: u8 = 0x2f;

/// The byte of which the name of the current directory consists.
pub const DOT: u8 = 0x2e;

/// `name` in `directory`: one separator stands between them, and a `name` that
/// begins with a separator stands alone.
pub open spec fn join(directory: Seq<u8>, name: Seq<u8>) -> Seq<u8> {
    if name.len() > 0 && name[0] == SEPARATOR {
        name
    } else if directory.len() > 0 && directory.last() != SEPARATOR {
        directory + seq![SEPARATOR] + name
    } else {
        directory + name
    }
}

/// How long the part of `path` before its first separator is.
pub open spec fn name_length(path: Seq<u8>) -> nat
    decreases path.len(),
{
    if path.len() == 0 || path[0] == SEPARATOR {
        0
    } else {
        1 + name_length(path.drop_first())
    }
}

/// How long the part of `path` after its last separator is.
pub open spec fn last_name_length(path: Seq<u8>) -> nat
    decreases path.len(),
{
    if path.len() == 0 || path.last() == SEPARATOR {
        0
    } else {
        1 + last_name_length(path.drop_last())
    }
}

/// Whether `name` leads nowhere: it is empty, or names the current directory.
pub open spec fn is_idle(name: Seq<u8>) -> bool {
    name.len() == 0 || name == seq![DOT]
}

/// `path` from its first name that leads somewhere.
pub open spec fn trim_start(path: Seq<u8>) -> Seq<u8>
    decreases path.len(),
{
    let length = name_length(path) as int;
    if path.len() > 0 && is_idle(path.take(length)) {
        if length < path.len() {
            trim_start(path.skip(length + 1))
        } else {
            seq![]
        }
    } else {
        path
    }
}

/// `path` up to its last name that leads somewhere.
pub open spec fn trim_end(path: Seq<u8>) -> Seq<u8>
    decreases path.len(),
{
    let rest = path.len() - last_name_length(path);
    if path.len() > 0 && is_idle(path.skip(rest)) {
        if rest > 0 {
            trim_end(path.take(rest - 1))
        } else {
            seq![]
        }
    } else {
        path
    }
}

/// What is left of `path` after the names of `root`, where it begins with them. Names
/// that lead nowhere do not count.
pub open spec fn after_names(path: Seq<u8>, root: Seq<u8>) -> Option<Seq<u8>>
    decreases root.len(),
    via after_names_decreases
{
    let p = trim_start(path);
    let r = trim_start(root);
    if r.len() == 0 {
        Some(trim_end(p))
    } else if p.len() > 0 && p.take(name_length(p) as int) == r.take(name_length(r) as int) {
        after_names(p.skip(name_length(p) as int), r.skip(name_length(r) as int))
    } else {
        None
    }
}

#[via_fn]
proof fn after_names_decreases(path: Seq<u8>, root: Seq<u8>) {
    let r = trim_start(root);
    trim_start_shape(root);
    if r.len() > 0 {
        name_length_bound(r);
    }
}

pub(crate) proof fn name_length_bound(path: Seq<u8>)
    ensures
        name_length(path) <= path.len(),
        forall|i: int| 0 <= i < name_length(path) ==> path[i] != SEPARATOR,
        name_length(path) < path.len() ==> path[name_length(path) as int] == SEPARATOR,
    decreases path.len(),
{
    if path.len() > 0 && path[0] != SEPARATOR {
        let rest = path.drop_first();
        name_length_bound(rest);
        assert forall|i: int| 0 <= i < name_length(path) implies path[i] != SEPARATOR by {
            if i > 0 {
                assert(path[i] == rest[i - 1]);
            }
        }
    }
}

pub(crate) proof fn last_name_length_bound(path: Seq<u8>)
    ensures
        last_name_length(path) <= path.len(),
        forall|i: int|
            path.len() - last_name_length(path) <= i < path.len() ==> path[i] != SEPARATOR,
        last_name_length(path) < path.len() ==> path[path.len() - last_name_length(path) - 1]
            == SEPARATOR,
    decreases path.len(),
{
    if path.len() > 0 && path.last() != SEPARATOR {
        let rest = path.drop_last();
        last_name_length_bound(rest);
        assert forall|i: int|
            path.len() - last_name_length(path) <= i < path.len() implies path[i] != SEPARATOR by {
            if i < rest.len() {
                assert(path[i] == rest[i]);
            }
        }
    }
}

/// What trimming leaves is short enough, and begins with a name that leads somewhere.
pub(crate) proof fn trim_start_shape(path: Seq<u8>)
    ensures
        trim_start(path).len() <= path.len(),
        trim_start(path).len() > 0 ==> name_length(trim_start(path)) > 0,
    decreases path.len(),
{
    name_length_bound(path);
    let length = name_length(path) as int;
    if path.len() > 0 && is_idle(path.take(length)) {
        if length < path.len() {
            trim_start_shape(path.skip(length + 1));
        }
    }
}

/// Whether `path` begins at the root of the file system.
pub open spec fn from_root(path: Seq<u8>) -> bool {
    path.len() > 0 && path[0] == SEPARATOR
}

/// Whether the first name of `path` is that of the current directory.
pub open spec fn from_current(path: Seq<u8>) -> bool {
    path.len() > 0 && path[0] == DOT && (path.len() == 1 || path[1] == SEPARATOR)
}

/// `path` without `root` at its beginning, compared name by name.
pub open spec fn strip_prefix(path: Seq<u8>, root: Seq<u8>) -> Option<Seq<u8>> {
    if root.len() == 0 {
        let mark = if from_root(path) || from_current(path) {
            1int
        } else {
            0
        };
        Some(path.take(mark) + trim_end(path.skip(mark)))
    } else if from_root(path) != from_root(root) || from_current(path) != from_current(root) {
        None
    } else if from_root(root) || from_current(root) {
        after_names(path.skip(1), root.skip(1))
    } else {
        after_names(path, root)
    }
}

/// `path` seen from `root`; all of it where it does not lie below `root`.
pub open spec fn relative(root: Seq<u8>, path: Seq<u8>) -> Seq<u8> {
    match strip_prefix(path, root) {
        Some(rest) => rest,
        None => path,
    }
}

/// The key under which `path` is recorded in a capture of `root`.
pub open spec fn key_of(root: Seq<u8>, path: Seq<u8>) -> Seq<char> {
    lossy_utf8(relative(root, path))
}

/// Where the name that begins at `from` ends.
fn name_end(path: &[u8], from: usize) -> (end: usize)
    requires
        from <= path@.len(),
    ensures
        from <= end <= path@.len(),
        end == from + name_length(path@.skip(from as int)),
{
    let mut end: usize = from;
    while end < path.len() && path[end] != SEPARATOR
        invariant
            from <= end <= path@.len(),
            from + name_length(path@.skip(from as int)) == end + name_length(
                path@.skip(end as int),
            ),
        decreases path@.len() - end,
    {
        assert(path@.skip(end as int).drop_first() =~= path@.skip(end + 1));
        end += 1;
    }
    end
}

/// Whether the name between `from` and `end` leads nowhere.
fn idle(path: &[u8], from: usize, end: usize) -> (result: bool)
    requires
        from <= end <= path@.len(),
    ensures
        result == is_idle(path@.subrange(from as int, end as int)),
{
    let ghost name = path@.subrange(from as int, end as int);
    if from == end {
        true
    } else if end - from == 1 && path[from] == DOT {
        assert(name =~= seq![DOT]);
        true
    } else {
        assert(name.len() == 1 ==> name[0] != DOT);
        false
    }
}

/// Where the first name from `from` on that leads somewhere begins.
fn skip_idle(path: &[u8], from: usize) -> (at: usize)
    requires
        from <= path@.len(),
    ensures
        from <= at <= path@.len(),
        path@.skip(at as int) == trim_start(path@.skip(from as int)),
{
    let mut at: usize = from;
    loop
        invariant
            from <= at <= path@.len(),
            trim_start(path@.skip(from as int)) == trim_start(path@.skip(at as int)),
        decreases path@.len() - at,
    {
        let end: usize = name_end(path, at);
        let ghost here = path@.skip(at as int);
        assert(here.take(end - at) =~= path@.subrange(at as int, end as int));
        if at == path.len() || !idle(path, at, end) {
            return at;
        }
        if end == path.len() {
            assert(path@.skip(end as int) =~= Seq::<u8>::empty());
            return end;
        }
        assert(here.skip(end - at + 1) =~= path@.skip(end + 1));
        at = end + 1;
    }
}

/// Where the last name from `from` on that leads somewhere ends.
fn drop_idle(path: &[u8], from: usize) -> (end: usize)
    requires
        from <= path@.len(),
    ensures
        from <= end <= path@.len(),
        path@.subrange(from as int, end as int) == trim_end(path@.skip(from as int)),
{
    let mut end: usize = path.len();
    assert(path@.skip(from as int) =~= path@.subrange(from as int, end as int));
    loop
        invariant
            from <= end <= path@.len(),
            trim_end(path@.skip(from as int)) == trim_end(
                path@.subrange(from as int, end as int),
            ),
        decreases end,
    {
        let ghost here = path@.subrange(from as int, end as int);
        let mut start: usize = end;
        while start > from && path[start - 1] != SEPARATOR
            invariant
                from <= start <= end <= path@.len(),
                here == path@.subrange(from as int, end as int),
                last_name_length(here) == end - start + last_name_length(
                    path@.subrange(from as int, start as int),
                ),
            decreases start,
        {
            assert(path@.subrange(from as int, start as int).drop_last() =~= path@.subrange(
                from as int,
                start - 1,
            ));
            start -= 1;
        }
        assert(here.skip(start - from) =~= path@.subrange(start as int, end as int));
        if end == from || !idle(path, start, end) {
            return end;
        }
        if start == from {
            assert(path@.subrange(from as int, start as int) =~= Seq::<u8>::empty());
            return start;
        }
        assert(here.take(start - from - 1) =~= path@.subrange(from as int, start - 1));
        end = start - 1;
    }
}

/// Whether the names of `root` from `root_from` on stand at the beginning of those of
/// `path` from `path_from` on; where the rest of `path` then begins and ends.
fn match_names(path: &[u8], path_from: usize, root: &[u8], root_from: usize) -> (rest: Option<
    (usize, usize),
>)
    requires
        path_from <= path@.len(),
        root_from <= root@.len(),
    ensures
        match rest {
            Some((start, end)) => start <= end <= path@.len() && after_names(
                path@.skip(path_from as int),
                root@.skip(root_from as int),
            ) == Some(path@.subrange(start as int, end as int)),
            None => after_names(path@.skip(path_from as int), root@.skip(root_from as int)) is None,
        },
{
    let mut p: usize = path_from;
    let mut r: usize = root_from;
    loop
        invariant
            p <= path@.len(),
            r <= root@.len(),
            after_names(path@.skip(path_from as int), root@.skip(root_from as int)) == after_names(
                path@.skip(p as int),
                root@.skip(r as int),
            ),
        decreases root@.len() - r,
    {
        let p_start: usize = skip_idle(path, p);
        let r_start: usize = skip_idle(root, r);
        if r_start == root.len() {
            let end: usize = drop_idle(path, p_start);
            return Some((p_start, end));
        }
        let p_end: usize = name_end(path, p_start);
        let r_end: usize = name_end(root, r_start);
        let ghost p_rest = path@.skip(p_start as int);
        let ghost r_rest = root@.skip(r_start as int);
        proof {
            trim_start_shape(root@.skip(r as int));
            trim_start_shape(path@.skip(p as int));
            assert(p_rest.take(p_end - p_start) =~= path@.subrange(p_start as int, p_end as int));
            assert(r_rest.take(r_end - r_start) =~= root@.subrange(r_start as int, r_end as int));
            assert(p_rest.skip(p_end - p_start) =~= path@.skip(p_end as int));
            assert(r_rest.skip(r_end - r_start) =~= root@.skip(r_end as int));
        }
        if !same(path, p_start, p_end, root, r_start, r_end) {
            return None;
        }
        p = p_end;
        r = r_end;
    }
}

/// Whether the same bytes stand in `a` from `a_from` to `a_end` as in `b` from
/// `b_from` to `b_end`.
fn same(a: &[u8], a_from: usize, a_end: usize, b: &[u8], b_from: usize, b_end: usize) -> (result:
    bool)
    requires
        a_from <= a_end <= a@.len(),
        b_from <= b_end <= b@.len(),
    ensures
        result == (a@.subrange(a_from as int, a_end as int) == b@.subrange(
            b_from as int,
            b_end as int,
        )),
{
    let ghost left = a@.subrange(a_from as int, a_end as int);
    let ghost right = b@.subrange(b_from as int, b_end as int);
    if a_end - a_from != b_end - b_from {
        assert(left.len() != right.len());
        return false;
    }
    let mut i: usize = 0;
    while i < a_end - a_from
        invariant
            a_from <= a_end <= a@.len(),
            b_from <= b_end <= b@.len(),
            a_end - a_from == b_end - b_from,
            i <= a_end - a_from,
            left == a@.subrange(a_from as int, a_end as int),
            right == b@.subrange(b_from as int, b_end as int),
            forall|j: int| 0 <= j < i ==> left[j] == right[j],
        decreases a_end - a_from - i,
    {
        if a[a_from + i] != b[b_from + i] {
            assert(left[i as int] != right[i as int]);
            return false;
        }
        i += 1;
    }
    assert(left =~= right);
    true
}

/// The key under which `path` is recorded in a capture of `root`.
pub fn relative_key(root: &[u8], path: &[u8]) -> (key: String)
    ensures
        key@ == key_of(root@, path@),
{
    let path_root: bool = path.len() > 0 && path[0] == SEPARATOR;
    let path_current: bool = path.len() > 0 && path[0] == DOT && (path.len() == 1 || path[1]
        == SEPARATOR);
    if root.len() == 0 {
        let mark: usize = if path_root || path_current {
            1
        } else {
            0
        };
        let end: usize = drop_idle(path, mark);
        assert(path@.subrange(0, end as int) =~= path@.take(mark as int) + path@.subrange(
            mark as int,
            end as int,
        ));
        return decode_lossy(vstd::slice::slice_subrange(path, 0, end));
    }
    let root_root: bool = root[0] == SEPARATOR;
    let root_current: bool = root[0] == DOT && (root.len() == 1 || root[1] == SEPARATOR);
    if path_root != root_root || path_current != root_current {
        return decode_lossy(path);
    }
    let from: usize = if root_root || root_current {
        1
    } else {
        0
    };
    assert(path@.skip(0) =~= path@);
    assert(root@.skip(0) =~= root@);
    match match_names(path, from, root, from) {
        Some((start, end)) => decode_lossy(vstd::slice::slice_subrange(path, start, end)),
        None => decode_lossy(path),
    }
}

/// `name` in `directory`.
pub fn join_name(directory: &[u8], name: &[u8]) -> (path: Vec<u8>)
    ensures
        path@ == join(directory@, name@),
{
    let mut path: Vec<u8> = Vec::new();
    if name.len() == 0 || name[0] != SEPARATOR {
        path.extend_from_slice(directory);
        assert(path@ =~= directory@);
        if directory.len() > 0 && directory[directory.len() - 1] != SEPARATOR {
            path.push(SEPARATOR);
        }
    }
    let ghost before = path@;
    path.extend_from_slice(name);
    assert(path@ =~= before + name@);
    assert(path@ =~= join(directory@, name@));
    path
}

/// Whether `name` is one step of a path: it is not empty, holds no separator, and does
/// not name the current directory.
pub open spec fn is_name(name: Seq<u8>) -> bool {
    &&& name.len() > 0
    &&& name != seq![DOT]
    &&& forall|i: int| 0 <= i < name.len() ==> #[trigger] name[i] != SEPARATOR
}

/// Whether a directory may list `name`: it is a name, and does not lead back up.
pub open spec fn is_child_name(name: Seq<u8>) -> bool {
    is_name(name) && name != seq![DOT, DOT]
}

/// The path that leads from `root` down through `names`.
pub open spec fn path_below(root: Seq<u8>, names: Seq<Seq<u8>>) -> Seq<u8>
    decreases names.len(),
{
    if names.len() == 0 {
        root
    } else {
        join(path_below(root, names.drop_last()), names.last())
    }
}

/// `names`, with a separator between each two.
pub open spec fn joined(names: Seq<Seq<u8>>) -> Seq<u8>
    decreases names.len(),
{
    if names.len() == 0 {
        seq![]
    } else if names.len() == 1 {
        names[0]
    } else {
        joined(names.drop_last()) + seq![SEPARATOR] + names.last()
    }
}

/// How the first name of `path` ends, told by what stands there.
pub(crate) proof fn name_length_is(path: Seq<u8>, n: nat)
    requires
        n <= path.len(),
        forall|i: int| 0 <= i < n ==> #[trigger] path[i] != SEPARATOR,
        n < path.len() ==> path[n as int] == SEPARATOR,
    ensures
        name_length(path) == n,
{
    name_length_bound(path);
    let length = name_length(path);
    if length < n {
        assert(path[length as int] != SEPARATOR);
    }
    if n < length {
        assert(path[n as int] == SEPARATOR);
    }
}

/// How the last name of `path` begins, told by what stands there.
proof fn last_name_length_is(path: Seq<u8>, n: nat)
    requires
        n <= path.len(),
        forall|i: int| path.len() - n <= i < path.len() ==> #[trigger] path[i] != SEPARATOR,
        n < path.len() ==> path[path.len() - n - 1] == SEPARATOR,
    ensures
        last_name_length(path) == n,
{
    last_name_length_bound(path);
    let length = last_name_length(path);
    if length < n {
        assert(path[path.len() - length - 1] != SEPARATOR);
    }
    if n < length {
        assert(path[path.len() - n - 1] == SEPARATOR);
    }
}

/// Whether `rest` begins a name of its own where it stands after `path`.
pub(crate) open spec fn comes_apart(path: Seq<u8>, rest: Seq<u8>) -> bool {
    path.len() == 0 || path.last() == SEPARATOR || (rest.len() > 0 && rest[0] == SEPARATOR)
}

/// The first name of a path does not change with what comes after the path.
pub(crate) proof fn name_length_of_longer(path: Seq<u8>, rest: Seq<u8>)
    requires
        path.len() > 0,
        comes_apart(path, rest),
    ensures
        name_length(path + rest) == name_length(path),
        (path + rest).take(name_length(path) as int) == path.take(name_length(path) as int),
{
    name_length_bound(path);
    let n = name_length(path);
    assert forall|i: int| 0 <= i < n implies #[trigger] (path + rest)[i] != SEPARATOR by {
        assert((path + rest)[i] == path[i]);
    }
    if n == path.len() {
        assert(path.last() == path[n - 1]);
    }
    name_length_is(path + rest, n);
    assert((path + rest).take(n as int) =~= path.take(n as int));
}

/// Trimming the beginning does not see what comes after the first name that leads
/// somewhere.
pub(crate) proof fn trim_start_of_longer(path: Seq<u8>, rest: Seq<u8>)
    requires
        comes_apart(path, rest),
    ensures
        trim_start(path).len() == 0 ==> trim_start(path + rest) == trim_start(rest),
        trim_start(path).len() > 0 ==> trim_start(path + rest) == trim_start(path) + rest
            && trim_start(path).last() == path.last(),
    decreases path.len(),
{
    if path.len() == 0 {
        assert(path + rest =~= rest);
    } else {
        let n = name_length(path) as int;
        name_length_bound(path);
        name_length_of_longer(path, rest);
        if is_idle(path.take(n)) {
            if n < path.len() {
                let tail = path.skip(n + 1);
                assert((path + rest).skip(n + 1) =~= tail + rest);
                trim_start_of_longer(tail, rest);
            } else {
                assert((path + rest).skip(n + 1) =~= rest.skip(1));
                name_length_is(rest, 0);
                assert(rest.take(0) =~= seq![]);
            }
        }
    }
}

/// What follows the names of `root` is what is left after them.
proof fn after_names_of_longer(root: Seq<u8>, rest: Seq<u8>)
    requires
        comes_apart(root, rest),
    ensures
        after_names(root + rest, root) == Some(trim_end(trim_start(rest))),
    decreases root.len(),
{
    let r = trim_start(root);
    trim_start_of_longer(root, rest);
    trim_start_shape(root);
    if r.len() > 0 {
        let n = name_length(r) as int;
        name_length_bound(r);
        name_length_of_longer(r, rest);
        let tail = r.skip(n);
        assert((r + rest).skip(n) =~= tail + rest);
        after_names_of_longer(tail, rest);
    }
}

/// Names joined together begin and end with a name that leads somewhere.
proof fn joined_shape(names: Seq<Seq<u8>>)
    requires
        names.len() > 0,
        forall|i: int| 0 <= i < names.len() ==> is_name(#[trigger] names[i]),
    ensures
        joined(names).len() > 0,
        joined(names)[0] != SEPARATOR,
        joined(names).last() != SEPARATOR,
        name_length(joined(names)) == names[0].len(),
        joined(names).take(names[0].len() as int) == names[0],
        last_name_length(joined(names)) == names.last().len(),
        joined(names).skip(joined(names).len() - names.last().len()) == names.last(),
    decreases names.len(),
{
    let all = joined(names);
    assert(is_name(names[0]));
    assert(is_name(names.last()));
    if names.len() == 1 {
        assert(names.last() == names[0]);
        name_length_is(all, all.len());
        last_name_length_is(all, all.len());
        assert(all.take(all.len() as int) =~= all);
        assert(all.skip(0) =~= all);
    } else {
        let rest = names.drop_last();
        let last = names.last();
        assert forall|i: int| 0 <= i < rest.len() implies is_name(#[trigger] rest[i]) by {
            assert(rest[i] == names[i]);
        }
        joined_shape(rest);
        let head = joined(rest);
        assert(rest[0] == names[0]);
        assert(all =~= head + seq![SEPARATOR] + last);
        assert(all[0] == head[0]);
        assert(all.last() == last.last());
        let n = names[0].len();
        name_length_bound(head);
        assert forall|i: int| 0 <= i < n implies #[trigger] all[i] != SEPARATOR by {
            assert(all[i] == head[i]);
        }
        if n < head.len() {
            assert(all[n as int] == head[n as int]);
        } else {
            assert(all[n as int] == SEPARATOR);
        }
        name_length_is(all, n);
        assert(all.take(n as int) =~= head.take(n as int));
        let from = all.len() - last.len();
        assert forall|i: int| from <= i < all.len() implies #[trigger] all[i] != SEPARATOR by {
            assert(all[i] == last[i - from]);
        }
        last_name_length_is(all, last.len());
        assert(all.skip(from) =~= last);
    }
}

/// Going down name by name is the same as going down by the names joined together.
proof fn path_below_is_join(root: Seq<u8>, names: Seq<Seq<u8>>)
    requires
        names.len() > 0,
        forall|i: int| 0 <= i < names.len() ==> is_name(#[trigger] names[i]),
    ensures
        path_below(root, names) == join(root, joined(names)),
    decreases names.len(),
{
    assert(is_name(names.last()));
    if names.len() == 1 {
        assert(names.drop_last() =~= seq![]);
        assert(path_below(root, names.drop_last()) == root);
    } else {
        let rest = names.drop_last();
        assert forall|i: int| 0 <= i < rest.len() implies is_name(#[trigger] rest[i]) by {
            assert(rest[i] == names[i]);
        }
        path_below_is_join(root, rest);
        joined_shape(rest);
        joined_shape(names);
        let above = join(root, joined(rest));
        assert(above.last() == joined(rest).last());
        assert(path_below(root, names) =~= join(root, joined(names)));
    }
}

/// Seen from the root, a path below it is the names that lead there, with a separator
/// between each two, however the root is written.
pub proof fn relative_path_is_the_names(root: Seq<u8>, names: Seq<Seq<u8>>)
    requires
        names.len() > 0,
        forall|i: int| 0 <= i < names.len() ==> is_name(#[trigger] names[i]),
    ensures
        relative(root, path_below(root, names)) == joined(names),
{
    let all = joined(names);
    let path = path_below(root, names);
    path_below_is_join(root, names);
    joined_shape(names);
    assert(is_name(names[0]));
    assert(is_name(names.last()));
    assert(trim_start(all) == all);
    assert(trim_end(all) == all);
    if root.len() == 0 {
        assert(path =~= all);
        if from_current(path) {
            if path.len() > 1 {
                name_length_is(path, 1);
            }
            assert(names[0] =~= seq![DOT]);
        }
        assert(path.take(0) + trim_end(path.skip(0)) =~= all) by {
            assert(path.skip(0) =~= path);
        }
    } else {
        let rest = if root.last() != SEPARATOR {
            seq![SEPARATOR] + all
        } else {
            all
        };
        assert(path =~= root + rest);
        assert(trim_start(rest) == all) by {
            if root.last() != SEPARATOR {
                name_length_is(rest, 0);
                assert(rest.take(0) =~= seq![]);
                assert(rest.skip(1) =~= all);
            }
        }
        if from_root(root) || from_current(root) {
            let tail = root.skip(1);
            assert(path.skip(1) =~= tail + rest);
            after_names_of_longer(tail, rest);
        } else {
            after_names_of_longer(root, rest);
        }
    }
}

/// Paths with different names are different, seen from the root.
pub proof fn names_are_told_apart(a: Seq<Seq<u8>>, b: Seq<Seq<u8>>)
    requires
        forall|i: int| 0 <= i < a.len() ==> is_name(#[trigger] a[i]),
        forall|i: int| 0 <= i < b.len() ==> is_name(#[trigger] b[i]),
        joined(a) == joined(b),
    ensures
        a == b,
    decreases a.len(),
{
    if a.len() == 0 || b.len() == 0 {
        if a.len() > 0 {
            joined_shape(a);
        }
        if b.len() > 0 {
            joined_shape(b);
        }
        assert(a =~= b);
    } else {
        joined_shape(a);
        joined_shape(b);
        let all = joined(a);
        assert(a.last() == b.last());
        let n = a.last().len() as int;
        let c = a.drop_last();
        let d = b.drop_last();
        assert forall|i: int| 0 <= i < c.len() implies is_name(#[trigger] c[i]) by {
            assert(c[i] == a[i]);
        }
        assert forall|i: int| 0 <= i < d.len() implies is_name(#[trigger] d[i]) by {
            assert(d[i] == b[i]);
        }
        if c.len() > 0 {
            joined_shape(c);
            assert(all.take(all.len() - n - 1) =~= joined(c));
        }
        if d.len() > 0 {
            joined_shape(d);
            assert(all.take(all.len() - n - 1) =~= joined(d));
        }
        assert(joined(c) =~= joined(d));
        names_are_told_apart(c, d);
        assert(a =~= c.push(a.last()));
        assert(b =~= d.push(b.last()));
    }
}

/// A name in a directory is the directory, one separator, and the name; the separator that
/// a directory ends with is not repeated, and nothing stands before an absolute name.
pub proof fn join_puts_one_separator_between(directory: Seq<u8>, name: Seq<u8>)
    ensures
        from_root(name) ==> join(directory, name) == name,
        !from_root(name) && directory.len() == 0 ==> join(directory, name) == name,
        !from_root(name) ==> join(directory.push(SEPARATOR), name) == directory.push(SEPARATOR)
            + name,
        !from_root(name) && directory.len() > 0 && directory.last() != SEPARATOR ==> join(
            directory,
            name,
        ) == directory.push(SEPARATOR) + name,
{
    assert(Seq::<u8>::empty() + name =~= name);
    if directory.len() == 0 {
        assert(directory + name =~= name);
    }
    assert(directory + seq![SEPARATOR] =~= directory.push(SEPARATOR));
}

} // verus!
