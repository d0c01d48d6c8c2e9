//! How keys tell paths apart.
use crate::path::{
    after_names, from_current, from_root, is_idle, is_name, join, joined, key_of, last_name_length,
    last_name_length_bound, name_length, name_length_bound, name_length_is, name_length_of_longer,
    names_are_told_apart, path_below, relative, relative_path_is_the_names, strip_prefix, trim_end,
    trim_start, trim_start_of_longer, trim_start_shape, DOT, SEPARATOR,
};
use crate::text::mended_utf8;
use vstd::prelude::*;
use vstd::utf8::{encode_utf8, valid_utf8};

verus! {

/// The names of `path` that lead somewhere, in order.
pub open spec fn names_in(path: Seq<u8>) -> Seq<Seq<u8>>
    decreases path.len(),
    via names_in_decreases
{
    let p = trim_start(path);
    let length = name_length(p) as int;
    if p.len() == 0 {
        seq![]
    } else {
        seq![p.take(length)] + names_in(p.skip(length))
    }
}

#[via_fn]
proof fn names_in_decreases(path: Seq<u8>) {
    trim_start_shape(path);
    name_length_bound(trim_start(path));
}

/// Whether `a` and `b` are the same path: they begin at the same place and lead through
/// the same names, however they are written.
pub open spec fn same_path(a: Seq<u8>, b: Seq<u8>) -> bool {
    &&& from_root(a) == from_root(b)
    &&& from_current(a) == from_current(b)
    &&& names_in(a) == names_in(b)
}

/// Whether `path` is `root` or lies below it: it begins at the same place and leads
/// through the names of `root` first. Everything lies below the empty path.
pub open spec fn starts_with(path: Seq<u8>, root: Seq<u8>) -> bool {
    root.len() == 0 || {
        &&& from_root(path) == from_root(root)
        &&& from_current(path) == from_current(root)
        &&& names_in(root).is_prefix_of(names_in(path))
    }
}

/// A separator at the beginning leads nowhere.
proof fn trim_start_after_separator(path: Seq<u8>)
    requires
        from_root(path),
    ensures
        trim_start(path) == trim_start(path.skip(1)),
{
    name_length_is(path, 0);
    assert(path.take(0) =~= seq![]);
}

/// The mark with which a path begins leads nowhere.
proof fn names_after_mark(path: Seq<u8>)
    requires
        from_root(path) || from_current(path),
    ensures
        names_in(path.skip(1)) == names_in(path),
{
    if from_root(path) {
        trim_start_after_separator(path);
    } else {
        name_length_is(path, 1);
        assert(path.take(1) =~= seq![DOT]);
        if path.len() > 1 {
            trim_start_after_separator(path.skip(1));
            assert(path.skip(1).skip(1) =~= path.skip(2));
        } else {
            assert(path.skip(1) =~= seq![]);
        }
    }
}

/// The names on both sides of a separator are those of the whole.
proof fn names_on_both_sides(a: Seq<u8>, b: Seq<u8>)
    ensures
        names_in(a + seq![SEPARATOR] + b) == names_in(a) + names_in(b),
    decreases a.len(),
{
    let rest = seq![SEPARATOR] + b;
    assert(a + seq![SEPARATOR] + b =~= a + rest);
    assert(rest.skip(1) =~= b);
    trim_start_after_separator(rest);
    trim_start_of_longer(a, rest);
    trim_start_shape(a);
    let p = trim_start(a);
    if p.len() == 0 {
        assert(names_in(a) + names_in(b) =~= names_in(b));
    } else {
        let n = name_length(p) as int;
        name_length_bound(p);
        name_length_of_longer(p, rest);
        let tail = p.skip(n);
        assert((p + rest).skip(n) =~= tail + seq![SEPARATOR] + b);
        names_on_both_sides(tail, b);
        assert(names_in(a + rest) =~= seq![p.take(n)] + (names_in(tail) + names_in(b)));
        assert(names_in(a) + names_in(b) =~= seq![p.take(n)] + (names_in(tail) + names_in(b)));
    }
}

/// A name that leads nowhere is not counted.
proof fn idle_names_do_not_count(name: Seq<u8>)
    requires
        is_idle(name),
    ensures
        names_in(name) == Seq::<Seq<u8>>::empty(),
{
    if name.len() > 0 {
        name_length_is(name, 1);
        assert(name.take(1) =~= name);
    }
}

/// Trimming the end cuts at a separator, and takes no name away.
proof fn trim_end_shape(path: Seq<u8>)
    ensures
        trim_end(path).len() <= path.len(),
        trim_end(path) == path.take(trim_end(path).len() as int),
        trim_end(path).len() == 0 || trim_end(path).len() == path.len()
            || path[trim_end(path).len() as int] == SEPARATOR,
        names_in(trim_end(path)) == names_in(path),
    decreases path.len(),
{
    last_name_length_bound(path);
    let rest = path.len() - last_name_length(path);
    if path.len() > 0 && is_idle(path.skip(rest)) {
        idle_names_do_not_count(path.skip(rest));
        if rest > 0 {
            let head = path.take(rest - 1);
            trim_end_shape(head);
            assert(path =~= head + seq![SEPARATOR] + path.skip(rest));
            names_on_both_sides(head, path.skip(rest));
            assert(names_in(path) =~= names_in(head));
            assert(trim_end(path) =~= path.take(trim_end(path).len() as int));
        } else {
            assert(path.skip(0) =~= path);
            assert(path.take(0) =~= seq![]);
        }
    } else {
        assert(path.take(path.len() as int) =~= path);
    }
}

/// What is left once the beginning is trimmed needs no more of it.
proof fn trim_start_is_done(path: Seq<u8>)
    ensures
        trim_start(trim_start(path)) == trim_start(path),
    decreases path.len(),
{
    name_length_bound(path);
    let length = name_length(path) as int;
    if path.len() > 0 && is_idle(path.take(length)) && length < path.len() {
        trim_start_is_done(path.skip(length + 1));
    }
}

/// What is left after the names of `root` are the names that follow them, and something
/// is left exactly where `path` leads through them first.
proof fn names_after_names(path: Seq<u8>, root: Seq<u8>)
    ensures
        after_names(path, root) is Some <==> names_in(root).is_prefix_of(names_in(path)),
        after_names(path, root) matches Some(rest) ==> {
            &&& names_in(path) == names_in(root) + names_in(rest)
            &&& rest.len() > 0 ==> rest[0] != SEPARATOR
            &&& names_in(rest).len() == 0 ==> rest.len() == 0
        },
    decreases root.len(),
{
    let p = trim_start(path);
    let r = trim_start(root);
    let m = name_length(p) as int;
    let n = name_length(r) as int;
    trim_start_shape(path);
    trim_start_shape(root);
    name_length_bound(p);
    name_length_bound(r);
    if r.len() == 0 {
        trim_start_is_done(path);
        trim_end_shape(p);
        assert(names_in(path) =~= names_in(root) + names_in(trim_end(p)));
        assert(names_in(path).take(0) =~= names_in(root));
    } else {
        let below = names_in(root);
        let all = names_in(path);
        assert(below[0] == r.take(n));
        if p.len() > 0 {
            assert(all[0] == p.take(m));
            let tail = names_in(p.skip(m));
            let under = names_in(r.skip(n));
            assert(all =~= seq![p.take(m)] + tail);
            assert(below =~= seq![r.take(n)] + under);
            if p.take(m) == r.take(n) {
                names_after_names(p.skip(m), r.skip(n));
                assert(all.drop_first() =~= tail);
                assert(below.drop_first() =~= under);
                if under.is_prefix_of(tail) {
                    assert(below =~= all.take(below.len() as int)) by {
                        assert forall|i: int| 0 <= i < below.len() implies below[i] == all[i] by {
                            if i > 0 {
                                assert(under[i - 1] == tail.take(under.len() as int)[i - 1]);
                            }
                        }
                    }
                }
                if below.is_prefix_of(all) {
                    assert forall|i: int| 0 <= i < under.len() implies under[i] == tail[i] by {
                        assert(below[i + 1] == all.take(below.len() as int)[i + 1]);
                    }
                    assert(under =~= tail.take(under.len() as int));
                }
                if let Some(rest) = after_names(path, root) {
                    assert(all =~= below + names_in(rest));
                }
            } else if below.is_prefix_of(all) {
                assert(below[0] == all.take(below.len() as int)[0]);
            }
        }
    }
}

/// A path can be stripped of `root` exactly where it starts with it.
pub proof fn strips_what_it_starts_with(root: Seq<u8>, path: Seq<u8>)
    ensures
        strip_prefix(path, root) is Some <==> starts_with(path, root),
{
    if from_root(root) || from_current(root) {
        if from_root(path) || from_current(path) {
            names_after_mark(path);
            names_after_mark(root);
            names_after_names(path.skip(1), root.skip(1));
        }
    } else {
        names_after_names(path, root);
    }
}

/// What is joined to a path are its names and those that are joined to it.
proof fn names_in_join(root: Seq<u8>, rest: Seq<u8>)
    requires
        root.len() > 0,
        !from_root(rest),
    ensures
        names_in(join(root, rest)) == names_in(root) + names_in(rest),
        from_root(join(root, rest)) == from_root(root),
        from_current(join(root, rest)) == from_current(root),
{
    if root.last() != SEPARATOR {
        names_on_both_sides(root, rest);
    } else {
        let head = root.drop_last();
        assert(root =~= head + seq![SEPARATOR] + Seq::<u8>::empty());
        assert(root + rest =~= head + seq![SEPARATOR] + rest);
        names_on_both_sides(head, rest);
        names_on_both_sides(head, seq![]);
        idle_names_do_not_count(seq![]);
        assert(names_in(root) =~= names_in(head));
    }
    assert(join(root, rest)[0] == root[0]);
    if root.len() > 1 {
        assert(join(root, rest)[1] == root[1]);
    }
}

/// Joined to the root again, what a path is seen from there is that path.
pub proof fn relative_path_leads_back(root: Seq<u8>, path: Seq<u8>)
    requires
        starts_with(path, root),
    ensures
        same_path(join(root, relative(root, path)), path),
{
    strips_what_it_starts_with(root, path);
    let rest = relative(root, path);
    if root.len() == 0 {
        assert(join(root, rest) =~= rest);
        if from_root(path) || from_current(path) {
            let tail = path.skip(1);
            trim_end_shape(tail);
            names_after_mark(path);
            if trim_end(tail).len() > 0 {
                assert(rest[1] == tail[0]);
                assert(tail[0] == path[1]);
            }
            assert(rest[0] == path[0]);
            assert(rest.skip(1) =~= trim_end(tail));
            names_after_mark(rest);
        } else {
            trim_end_shape(path);
            assert(path.skip(0) =~= path);
            assert(rest =~= trim_end(path));
            if rest.len() > 0 {
                assert(rest[0] == path[0]);
            }
            if rest.len() > 1 {
                assert(rest[1] == path[1]);
            }
        }
    } else {
        if from_root(root) || from_current(root) {
            names_after_mark(path);
            names_after_mark(root);
            names_after_names(path.skip(1), root.skip(1));
        } else {
            names_after_names(path, root);
        }
        names_in_join(root, rest);
    }
}

/// What is written in UTF-8 can be cut before and behind a character of one byte.
proof fn utf8_around(bytes: Seq<u8>, at: int)
    requires
        valid_utf8(bytes),
        0 <= at < bytes.len(),
        bytes[at] < 0x80,
    ensures
        valid_utf8(bytes.take(at)),
        valid_utf8(bytes.skip(at)),
        valid_utf8(bytes.skip(at + 1)),
{
    vstd::utf8::is_char_boundary_iff_not_is_continuation_byte(bytes, at);
    vstd::utf8::valid_utf8_split(bytes, at);
    assert(bytes.take(at) =~= bytes.subrange(0, at));
    let rest = bytes.subrange(at, bytes.len() as int);
    assert(bytes.skip(at) =~= rest);
    assert(bytes.skip(at + 1) =~= vstd::utf8::pop_first_scalar(rest));
}

proof fn trim_start_keeps_utf8(path: Seq<u8>)
    requires
        valid_utf8(path),
    ensures
        valid_utf8(trim_start(path)),
    decreases path.len(),
{
    let length = name_length(path) as int;
    name_length_bound(path);
    if path.len() > 0 && is_idle(path.take(length)) && length < path.len() {
        utf8_around(path, length);
        trim_start_keeps_utf8(path.skip(length + 1));
    }
}

proof fn trim_end_keeps_utf8(path: Seq<u8>)
    requires
        valid_utf8(path),
    ensures
        valid_utf8(trim_end(path)),
{
    trim_end_shape(path);
    let end = trim_end(path).len() as int;
    if 0 < end < path.len() {
        utf8_around(path, end);
    } else if end == path.len() {
        assert(trim_end(path) =~= path);
    }
}

proof fn after_names_keeps_utf8(path: Seq<u8>, root: Seq<u8>)
    requires
        valid_utf8(path),
    ensures
        after_names(path, root) matches Some(rest) ==> valid_utf8(rest),
    decreases root.len(),
{
    let p = trim_start(path);
    let r = trim_start(root);
    let m = name_length(p) as int;
    let n = name_length(r) as int;
    trim_start_keeps_utf8(path);
    if r.len() == 0 {
        trim_end_keeps_utf8(p);
    } else if p.len() > 0 && p.take(m) == r.take(n) {
        trim_start_shape(root);
        name_length_bound(r);
        name_length_bound(p);
        if m < p.len() {
            utf8_around(p, m);
        } else {
            assert(p.skip(m) =~= seq![]);
        }
        after_names_keeps_utf8(p.skip(m), r.skip(n));
    }
}

/// A path that is written in UTF-8 is so too where it is seen from a root, and its key
/// then has the same bytes.
pub proof fn key_keeps_the_bytes(root: Seq<u8>, path: Seq<u8>)
    requires
        valid_utf8(path),
    ensures
        valid_utf8(relative(root, path)),
        encode_utf8(key_of(root, path)) == relative(root, path),
{
    if path.len() > 0 && path[0] < 0x80 {
        utf8_around(path, 0);
        assert(path.skip(0) =~= path);
        assert(path.take(0) =~= seq![]);
    }
    if root.len() == 0 {
        if from_root(path) || from_current(path) {
            let mark = path.take(1);
            assert(valid_utf8(mark)) by {
                reveal_with_fuel(valid_utf8, 2);
                assert(vstd::utf8::pop_first_scalar(mark) =~= seq![]);
            }
            trim_end_keeps_utf8(path.skip(1));
            vstd::utf8::valid_utf8_concat(mark, trim_end(path.skip(1)));
        } else {
            assert(path.skip(0) =~= path);
            trim_end_keeps_utf8(path);
            assert(path.take(0) + trim_end(path) =~= trim_end(path));
        }
    } else if from_root(path) == from_root(root) && from_current(path) == from_current(root) {
        if from_root(root) || from_current(root) {
            after_names_keeps_utf8(path.skip(1), root.skip(1));
        } else {
            after_names_keeps_utf8(path, root);
        }
    }
    vstd::utf8::decode_utf8_encode_utf8(relative(root, path));
}

/// Joined to the root again, the key of a path below it is that path.
pub proof fn key_leads_back(root: Seq<u8>, path: Seq<u8>)
    requires
        starts_with(path, root),
        valid_utf8(path),
    ensures
        same_path(join(root, encode_utf8(key_of(root, path))), path),
{
    relative_path_leads_back(root, path);
    key_keeps_the_bytes(root, path);
}

/// Paths below one root that share a key are the same path.
pub proof fn paths_are_told_apart(root: Seq<u8>, a: Seq<u8>, b: Seq<u8>)
    requires
        starts_with(a, root),
        starts_with(b, root),
        valid_utf8(a),
        valid_utf8(b),
        key_of(root, a) == key_of(root, b),
    ensures
        same_path(a, b),
{
    key_leads_back(root, a);
    key_leads_back(root, b);
}

/// The key of the root itself is empty, however the root is written.
pub proof fn key_of_root_is_empty(root: Seq<u8>, path: Seq<u8>)
    requires
        same_path(path, root),
    ensures
        strip_prefix(path, root) == Some(Seq::<u8>::empty()),
        key_of(root, path) == Seq::<char>::empty(),
{
    assert(names_in(path).take(names_in(path).len() as int) =~= names_in(path));
    strips_what_it_starts_with(root, path);
    if root.len() == 0 {
        idle_names_do_not_count(root);
        if path.len() > 0 {
            let n = name_length(path) as int;
            name_length_bound(path);
            if is_idle(path.take(n)) {
                assert(path.take(n)[0] == path[0]);
            }
            assert(trim_start(path) == path);
            assert(names_in(path)[0] == path.take(n));
        }
        assert(path.take(0) + trim_end(path.skip(0)) =~= seq![]) by {
            assert(path.skip(0) =~= seq![]);
        }
    } else {
        if from_root(root) || from_current(root) {
            names_after_mark(path);
            names_after_mark(root);
            names_after_names(path.skip(1), root.skip(1));
        } else {
            names_after_names(path, root);
        }
        let rest = strip_prefix(path, root)->Some_0;
        assert(names_in(path).len() == names_in(root).len() + names_in(rest).len());
        assert(rest =~= seq![]);
    }
}

/// Names joined together are written in UTF-8 where each of them is.
proof fn joined_keeps_utf8(names: Seq<Seq<u8>>)
    requires
        forall|i: int| 0 <= i < names.len() ==> valid_utf8(#[trigger] names[i]),
    ensures
        valid_utf8(joined(names)),
    decreases names.len(),
{
    if names.len() > 1 {
        let head = names.drop_last();
        let separator = seq![SEPARATOR];
        assert forall|i: int| 0 <= i < head.len() implies valid_utf8(#[trigger] head[i]) by {
            assert(head[i] == names[i]);
        }
        joined_keeps_utf8(head);
        assert(valid_utf8(separator)) by {
            reveal_with_fuel(valid_utf8, 2);
            assert(vstd::utf8::pop_first_scalar(separator) =~= seq![]);
        }
        vstd::utf8::valid_utf8_concat(joined(head), separator);
        vstd::utf8::valid_utf8_concat(joined(head) + separator, names.last());
    } else if names.len() == 1 {
        assert(valid_utf8(names[0]));
    }
}

/// Whether each of `names` is one step of a path.
pub open spec fn are_names(names: Seq<Seq<u8>>) -> bool {
    forall|i: int| 0 <= i < names.len() ==> is_name(#[trigger] names[i])
}

/// Names lead away from where they start.
pub proof fn names_lead_elsewhere(path: Seq<u8>, names: Seq<Seq<u8>>)
    requires
        names.len() > 0,
        are_names(names),
    ensures
        !same_path(path_below(path, names), path),
{
    if same_path(path_below(path, names), path) {
        key_of_root_is_empty(path, path_below(path, names));
        relative_path_is_the_names(path, names);
        names_are_told_apart(names, seq![]);
    }
}

/// Whether each of `names` is a name that is written in UTF-8.
pub open spec fn are_utf8_names(names: Seq<Seq<u8>>) -> bool {
    forall|i: int| 0 <= i < names.len() ==> is_name(#[trigger] names[i]) && valid_utf8(names[i])
}

/// The key of what `names` lead to has the bytes of the names, with a separator between
/// each two, however the root is written.
pub proof fn key_is_the_names(root: Seq<u8>, names: Seq<Seq<u8>>)
    requires
        are_utf8_names(names),
    ensures
        encode_utf8(key_of(root, path_below(root, names))) == joined(names),
{
    if names.len() == 0 {
        key_of_root_is_empty(root, root);
        assert(encode_utf8(seq![]) =~= seq![]);
    } else {
        relative_path_is_the_names(root, names);
        joined_keeps_utf8(names);
        vstd::utf8::decode_utf8_encode_utf8(joined(names));
    }
}

/// Different names lead from one root to different keys.
pub proof fn keys_are_told_apart(root: Seq<u8>, a: Seq<Seq<u8>>, b: Seq<Seq<u8>>)
    requires
        are_utf8_names(a),
        are_utf8_names(b),
        key_of(root, path_below(root, a)) == key_of(root, path_below(root, b)),
    ensures
        a == b,
{
    key_is_the_names(root, a);
    key_is_the_names(root, b);
    names_are_told_apart(a, b);
}

/// Whether `key` lies below `other`: it is `other`, a separator, and more.
pub open spec fn lies_below(key: Seq<char>, other: Seq<char>) -> bool {
    (other + seq!['/']).is_prefix_of(key)
}

/// Characters may be encoded one part after the other.
proof fn encoded_in_parts(a: Seq<char>, b: Seq<char>)
    ensures
        encode_utf8(a + b) == encode_utf8(a) + encode_utf8(b),
    decreases a.len(),
{
    if a.len() == 0 {
        assert(a + b =~= b);
        assert(encode_utf8(a) + encode_utf8(b) =~= encode_utf8(b));
    } else {
        assert((a + b).drop_first() =~= a.drop_first() + b);
        encoded_in_parts(a.drop_first(), b);
        assert(encode_utf8(a + b) =~= encode_utf8(a) + encode_utf8(b));
    }
}

/// The names of names joined together are these names.
proof fn names_in_joined(names: Seq<Seq<u8>>)
    requires
        are_names(names),
    ensures
        names_in(joined(names)) == names,
    decreases names.len(),
{
    if names.len() == 0 {
        assert(names =~= seq![]);
    } else {
        let head = names.drop_last();
        let last = names.last();
        assert(is_name(last));
        assert(names_in(last) =~= seq![last]) by {
            name_length_is(last, last.len());
            assert(last.take(last.len() as int) =~= last);
            assert(last.skip(last.len() as int) =~= seq![]);
            idle_names_do_not_count(seq![]);
        }
        if names.len() > 1 {
            assert forall|i: int| 0 <= i < head.len() implies is_name(#[trigger] head[i]) by {
                assert(head[i] == names[i]);
            }
            names_in_joined(head);
            names_on_both_sides(joined(head), last);
        } else {
            assert(names[0] == last);
        }
        assert(names =~= head + seq![last]);
    }
}

/// A key lies below another only where its names begin with those of the other.
pub proof fn key_below_goes_through(root: Seq<u8>, a: Seq<Seq<u8>>, b: Seq<Seq<u8>>)
    requires
        are_utf8_names(a),
        are_utf8_names(b),
        lies_below(key_of(root, path_below(root, a)), key_of(root, path_below(root, b))),
    ensures
        b.is_prefix_of(a),
{
    let key = key_of(root, path_below(root, a));
    let other = key_of(root, path_below(root, b));
    let end = other.len() as int + 1;
    let rest = key.skip(end);
    let separator = seq!['/'];
    key_is_the_names(root, a);
    key_is_the_names(root, b);
    assert(key =~= other + separator + rest) by {
        assert(key.take(end) =~= other + separator);
    }
    encoded_in_parts(other + separator, rest);
    encoded_in_parts(other, separator);
    assert(encode_utf8(separator) =~= seq![SEPARATOR]) by {
        reveal_with_fuel(encode_utf8, 2);
        assert(separator.drop_first() =~= seq![]);
        assert((0x2fu32 & 0x7f) as u8 == 0x2f) by (bit_vector);
    }
    assert(joined(a) =~= joined(b) + seq![SEPARATOR] + encode_utf8(rest));
    names_on_both_sides(joined(b), encode_utf8(rest));
    names_in_joined(a);
    names_in_joined(b);
    assert(a.take(b.len() as int) =~= b);
}

/// A path that does not start with the root is seen from there as it is.
pub proof fn paths_elsewhere_are_kept(root: Seq<u8>, path: Seq<u8>)
    requires
        !starts_with(path, root),
    ensures
        relative(root, path) == path,
        valid_utf8(path) ==> encode_utf8(key_of(root, path)) == path,
{
    strips_what_it_starts_with(root, path);
    if valid_utf8(path) {
        key_keeps_the_bytes(root, path);
    }
}

/// The key of what ill-formed names lead to is what the standard library makes of these
/// names, with a separator between each two.
pub proof fn ill_formed_key_is_the_names(root: Seq<u8>, names: Seq<Seq<u8>>)
    requires
        names.len() > 0,
        are_names(names),
        !valid_utf8(joined(names)),
    ensures
        key_of(root, path_below(root, names)) == mended_utf8(joined(names)),
{
    relative_path_is_the_names(root, names);
}

} // verus!
