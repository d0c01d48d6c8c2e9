//! The entries of one root, each under its key.
use crate::entry::{Entry, EntryView};
use crate::order::{before, is_before};
use vstd::prelude::*;
use vstd::utf8::encode_utf8;

verus! {

/// A key and what is recorded under it.
pub type Record = (Seq<char>, EntryView);

/// `entries` once each of `records` has been put in, in order: a later one takes the
/// place of an earlier one under the same key.
pub open spec fn with_all(
    entries: Map<Seq<char>, EntryView>,
    records: Seq<Record>,
) -> Map<Seq<char>, EntryView>
    decreases records.len(),
{
    if records.len() == 0 {
        entries
    } else {
        with_all(entries, records.drop_last()).insert(records.last().0, records.last().1)
    }
}

/// Whether the keys of `records` ascend in the order of their bytes; none then
/// occurs twice.
pub open spec fn ascending(records: Seq<Record>) -> bool {
    forall|i: int, j: int|
        0 <= i < j < records.len() ==> before(
            encode_utf8(#[trigger] records[i].0),
            encode_utf8(#[trigger] records[j].0),
        )
}

/// What each of `items` says.
pub open spec fn records_of(items: Seq<(String, Entry)>) -> Seq<Record> {
    items.map_values(|item: (String, Entry)| (item.0@, item.1@))
}

/// Entries by key, in the order of the keys' bytes.
#[derive(Debug)]
pub struct Entries {
    items: Vec<(String, Entry)>,
}

impl View for Entries {
    type V = Map<Seq<char>, EntryView>;

    closed spec fn view(&self) -> Map<Seq<char>, EntryView> {
        with_all(Map::empty(), records_of(self.items@))
    }
}

/// Whether no two of `records` have the same key.
pub open spec fn distinct_keys(records: Seq<Record>) -> bool {
    forall|i: int, j: int|
        0 <= i < j < records.len() ==> (#[trigger] records[i]).0 != (#[trigger] records[j]).0
}

/// Keys that ascend are distinct.
proof fn ascending_is_distinct(records: Seq<Record>)
    requires
        ascending(records),
    ensures
        distinct_keys(records),
{
    assert forall|i: int, j: int| 0 <= i < j < records.len() implies (#[trigger] records[i]).0 != (
    #[trigger] records[j]).0 by {
        assert(before(encode_utf8(records[i].0), encode_utf8(records[j].0)));
        crate::order::before_is_irreflexive(encode_utf8(records[i].0));
    }
}

/// Records leave alone what stands under another key than theirs.
pub proof fn with_all_keeps_other_keys(
    entries: Map<Seq<char>, EntryView>,
    records: Seq<Record>,
    key: Seq<char>,
)
    requires
        forall|i: int| 0 <= i < records.len() ==> (#[trigger] records[i]).0 != key,
    ensures
        with_all(entries, records).contains_key(key) == entries.contains_key(key),
        entries.contains_key(key) ==> with_all(entries, records)[key] == entries[key],
    decreases records.len(),
{
    if records.len() > 0 {
        let rest = records.drop_last();
        assert forall|i: int| 0 <= i < rest.len() implies (#[trigger] rest[i]).0 != key by {
            assert(rest[i] == records[i]);
        }
        with_all_keeps_other_keys(entries, rest, key);
        assert(records[records.len() - 1].0 != key);
    }
}

/// Under distinct keys, what was put in is what is found.
pub(crate) proof fn with_all_distinct(records: Seq<Record>)
    requires
        distinct_keys(records),
    ensures
        forall|i: int|
            0 <= i < records.len() ==> with_all(Map::empty(), records).contains_pair(
                (#[trigger] records[i]).0,
                records[i].1,
            ),
        forall|key: Seq<char>| #[trigger]
            with_all(Map::empty(), records).contains_key(key) ==> exists|i: int|
                0 <= i < records.len() && (#[trigger] records[i]).0 == key,
    decreases records.len(),
{
    if records.len() > 0 {
        let rest = records.drop_last();
        assert forall|i: int, j: int| 0 <= i < j < rest.len() implies (#[trigger] rest[i]).0 != (
        #[trigger] rest[j]).0 by {
            assert(rest[i] == records[i] && rest[j] == records[j]);
        }
        with_all_distinct(rest);
        assert forall|i: int| 0 <= i < records.len() implies with_all(
            Map::empty(),
            records,
        ).contains_pair((#[trigger] records[i]).0, records[i].1) by {
            if i < rest.len() {
                assert(rest[i] == records[i]);
                assert(records[i].0 != records[records.len() - 1].0);
            }
        }
        assert forall|key: Seq<char>| #[trigger]
            with_all(Map::empty(), records).contains_key(key) implies exists|i: int|
            0 <= i < records.len() && (#[trigger] records[i]).0 == key by {
            if key != records.last().0 {
                assert(with_all(Map::empty(), rest).contains_key(key));
                let i = choose|i: int| 0 <= i < rest.len() && (#[trigger] rest[i]).0 == key;
                assert(records[i].0 == key);
            } else {
                assert(records[records.len() - 1].0 == key);
            }
        }
    }
}

/// Records may be put in one part after the other.
pub proof fn with_all_in_parts(
    entries: Map<Seq<char>, EntryView>,
    first: Seq<Record>,
    second: Seq<Record>,
)
    ensures
        with_all(entries, first + second) == with_all(with_all(entries, first), second),
    decreases second.len(),
{
    if second.len() == 0 {
        assert(first + second =~= first);
    } else {
        assert((first + second).drop_last() =~= first + second.drop_last());
        with_all_in_parts(entries, first, second.drop_last());
    }
}

/// Two keys with the same bytes are the same.
proof fn same_bytes_same_key(a: Seq<char>, b: Seq<char>)
    requires
        encode_utf8(a) == encode_utf8(b),
    ensures
        a == b,
{
    vstd::utf8::encode_utf8_decode_utf8(a);
    vstd::utf8::encode_utf8_decode_utf8(b);
}

impl Entries {
    #[verifier::type_invariant]
    spec fn well_formed(self) -> bool {
        ascending(records_of(self.items@))
    }

    pub fn new() -> (entries: Self)
        ensures
            entries@ == Map::<Seq<char>, EntryView>::empty(),
    {
        Entries { items: Vec::new() }
    }

    /// Puts `entry` under `key`, in place of what was there.
    pub fn insert(&mut self, key: String, entry: Entry)
        ensures
            final(self)@ == old(self)@.insert(key@, entry@),
    {
        proof {
            use_type_invariant(&*self);
        }
        let mut items: Vec<(String, Entry)> = Vec::new();
        std::mem::swap(&mut items, &mut self.items);
        let ghost given = records_of(items@);
        let ghost record = (key@, entry@);
        let ghost bytes = encode_utf8(key@);
        let mut low: usize = 0;
        let mut high: usize = items.len();
        while low < high
            invariant
                low <= high <= items@.len(),
                given == records_of(items@),
                ascending(given),
                bytes == encode_utf8(key@),
                forall|i: int| 0 <= i < low ==> before(encode_utf8(#[trigger] given[i].0), bytes),
                forall|i: int|
                    high <= i < given.len() ==> !before(encode_utf8(#[trigger] given[i].0), bytes),
            decreases high - low,
        {
            let middle: usize = low + (high - low) / 2;
            if is_before(items[middle].0.as_str().as_bytes(), key.as_str().as_bytes()) {
                assert(before(encode_utf8(given[middle as int].0), bytes));
                assert forall|i: int| 0 <= i < middle + 1 implies before(
                    encode_utf8(#[trigger] given[i].0),
                    bytes,
                ) by {
                    if i < middle {
                        crate::order::before_is_transitive(
                            encode_utf8(given[i].0),
                            encode_utf8(given[middle as int].0),
                            bytes,
                        );
                    }
                }
                low = middle + 1;
            } else {
                assert(!before(encode_utf8(given[middle as int].0), bytes));
                assert forall|i: int| middle <= i < given.len() implies !before(
                    encode_utf8(#[trigger] given[i].0),
                    bytes,
                ) by {
                    if i > middle && before(encode_utf8(given[i].0), bytes) {
                        crate::order::before_is_transitive(
                            encode_utf8(given[middle as int].0),
                            encode_utf8(given[i].0),
                            bytes,
                        );
                    }
                }
                high = middle;
            }
        }
        let found: bool = low < items.len() && items[low].0 == key;
        if found {
            items[low] = (key, entry);
        } else {
            items.insert(low, (key, entry));
        }
        proof {
            let records = records_of(items@);
            let at = low as int;
            if found {
                assert(records =~= given.update(at, record));
                assert(given[at].0 == record.0);
                assert forall|i: int, j: int| 0 <= i < j < records.len() implies before(
                    encode_utf8(#[trigger] records[i].0),
                    encode_utf8(#[trigger] records[j].0),
                ) by {
                    assert(records[i].0 == given[i].0 && records[j].0 == given[j].0);
                }
            } else {
                assert(records =~= given.insert(at, record));
                assert forall|i: int| at <= i < given.len() implies before(
                    bytes,
                    encode_utf8(#[trigger] given[i].0),
                ) by {
                    crate::order::before_is_total(bytes, encode_utf8(given[i].0));
                    if bytes == encode_utf8(given[i].0) {
                        same_bytes_same_key(record.0, given[i].0);
                        if i > at {
                            assert(before(encode_utf8(given[at].0), encode_utf8(given[i].0)));
                        }
                    }
                }
                assert forall|i: int, j: int| 0 <= i < j < records.len() implies before(
                    encode_utf8(#[trigger] records[i].0),
                    encode_utf8(#[trigger] records[j].0),
                ) by {
                    let old_i = if i > at { i - 1 } else { i };
                    let old_j = if j > at { j - 1 } else { j };
                    if i == at {
                        assert(records[j].0 == given[old_j].0);
                    } else if j == at {
                        assert(records[i].0 == given[old_i].0);
                    } else {
                        assert(records[i].0 == given[old_i].0 && records[j].0 == given[old_j].0);
                    }
                }
            }
            ascending_is_distinct(given);
            ascending_is_distinct(records);
            with_all_distinct(given);
            with_all_distinct(records);
            let was = with_all(Map::empty(), given);
            let now = with_all(Map::empty(), records);
            assert(records[at] == record);
            assert forall|k: Seq<char>| #[trigger]
                now.contains_key(k) <==> was.insert(record.0, record.1).contains_key(k) by {
                if was.contains_key(k) {
                    let i = choose|i: int| 0 <= i < given.len() && (#[trigger] given[i]).0 == k;
                    let new_i = if !found && i >= at { i + 1 } else { i };
                    assert(records[new_i].0 == k);
                }
                if now.contains_key(k) && k != record.0 {
                    let i = choose|i: int| 0 <= i < records.len() && (#[trigger] records[i]).0 == k;
                    let old_i = if !found && i > at { i - 1 } else { i };
                    assert(given[old_i].0 == k);
                }
            }
            assert forall|k: Seq<char>| #[trigger] now.contains_key(k) implies now[k]
                == was.insert(record.0, record.1)[k] by {
                if k != record.0 {
                    let i = choose|i: int| 0 <= i < records.len() && (#[trigger] records[i]).0 == k;
                    let old_i = if !found && i > at { i - 1 } else { i };
                    assert(given[old_i] == records[i]);
                    assert(was.contains_pair(given[old_i].0, given[old_i].1));
                    assert(now.contains_pair(records[i].0, records[i].1));
                } else {
                    assert(now.contains_pair(records[at].0, records[at].1));
                }
            }
            assert(now =~= was.insert(record.0, record.1));
        }
        self.items = items;
    }

    /// The entries with their keys, in ascending order of the keys' bytes.
    pub fn into_items(self) -> (items: Vec<(String, Entry)>)
        ensures
            ascending(records_of(items@)),
            with_all(Map::empty(), records_of(items@)) == self@,
            forall|i: int, j: int|
                0 <= i < j < items@.len() ==> before(
                    encode_utf8((#[trigger] items@[i]).0@),
                    encode_utf8((#[trigger] items@[j]).0@),
                ),
            forall|i: int|
                0 <= i < items@.len() ==> self@.contains_pair(
                    (#[trigger] items@[i]).0@,
                    items@[i].1@,
                ),
            forall|key: Seq<char>| #[trigger]
                self@.contains_key(key) ==> exists|i: int|
                    0 <= i < items@.len() && (#[trigger] items@[i]).0@ == key,
    {
        proof {
            use_type_invariant(&self);
            let records = records_of(self.items@);
            ascending_is_distinct(records);
            with_all_distinct(records);
            assert forall|i: int, j: int| 0 <= i < j < self.items@.len() implies before(
                encode_utf8((#[trigger] self.items@[i]).0@),
                encode_utf8((#[trigger] self.items@[j]).0@),
            ) by {
                assert(before(encode_utf8(records[i].0), encode_utf8(records[j].0)));
            }
            assert forall|i: int| 0 <= i < self.items@.len() implies self@.contains_pair(
                (#[trigger] self.items@[i]).0@,
                self.items@[i].1@,
            ) by {
                assert(self@.contains_pair(records[i].0, records[i].1));
            }
            assert forall|key: Seq<char>| #[trigger] self@.contains_key(key) implies exists|i: int|
                0 <= i < self.items@.len() && (#[trigger] self.items@[i]).0@ == key by {
                let i = choose|i: int| 0 <= i < records.len() && (#[trigger] records[i]).0 == key;
                assert(self.items@[i].0@ == key);
            }
        }
        self.items
    }
}

/// A later record takes the place of an earlier one under the same key, and of no other.
pub proof fn the_last_record_counts(
    entries: Map<Seq<char>, EntryView>,
    records: Seq<Record>,
    record: Record,
    key: Seq<char>,
)
    ensures
        with_all(entries, records.push(record)).contains_key(record.0),
        with_all(entries, records.push(record))[record.0] == record.1,
        key != record.0 ==> with_all(entries, records.push(record)).contains_key(key) == with_all(
            entries,
            records,
        ).contains_key(key),
        key != record.0 && with_all(entries, records).contains_key(key) ==> with_all(
            entries,
            records.push(record),
        )[key] == with_all(entries, records)[key],
        with_all(entries, seq![]) == entries,
{
    assert(records.push(record).drop_last() =~= records);
}

} // verus!
