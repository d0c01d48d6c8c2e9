//! Who takes the snapshot, as `/proc/self/status` tells it.
use crate::error::{view_result, IoError, IoErrorView};
use vstd::prelude::*;
use vstd::string::*;

verus! {

/// The user and group that the capture ran as.
#[derive(Debug, Clone, Copy, PartialEq, Eq, Structural)]
pub struct ExecutionContext {
    pub uid: u32,
    pub euid: u32,
    pub gid: u32,
    pub egid: u32,
}

/// Where `wanted` first stands in `text`, or how long `text` is.
pub open spec fn position(text: Seq<char>, wanted: char) -> nat
    decreases text.len(),
{
    if text.len() == 0 || text[0] == wanted {
        0
    } else {
        1 + position(text.drop_first(), wanted)
    }
}

/// `line` without a carriage return at its end.
pub open spec fn without_return(line: Seq<char>) -> Seq<char> {
    if line.len() > 0 && line.last() == '\r' {
        line.drop_last()
    } else {
        line
    }
}

/// The lines of `text`. A line feed ends a line, with the carriage return before it;
/// the last line need not have one.
pub open spec fn lines(text: Seq<char>) -> Seq<Seq<char>>
    decreases text.len(),
{
    let end = position(text, '\n') as int;
    if text.len() == 0 {
        seq![]
    } else if end < text.len() {
        seq![without_return(text.take(end))] + lines(text.skip(end + 1))
    } else {
        seq![text]
    }
}

/// Whether `text` begins with `key`.
pub open spec fn begins_with(text: Seq<char>, key: Seq<char>) -> bool {
    key.len() <= text.len() && text.take(key.len() as int) == key
}

/// What follows `key` on the first of `lines` that begins with it.
pub open spec fn value_of(lines: Seq<Seq<char>>, key: Seq<char>) -> Option<Seq<char>>
    decreases lines.len(),
{
    if lines.len() == 0 {
        None
    } else if begins_with(lines[0], key) {
        Some(lines[0].skip(key.len() as int))
    } else {
        value_of(lines.drop_first(), key)
    }
}

/// Whether `character` has the Unicode property `White_Space`.
pub open spec fn is_white_space(character: char) -> bool {
    ||| '\t' <= character <= '\r'
    ||| character == ' '
    ||| character == '\u{85}'
    ||| character == '\u{a0}'
    ||| character == '\u{1680}'
    ||| '\u{2000}' <= character <= '\u{200a}'
    ||| '\u{2028}' <= character <= '\u{2029}'
    ||| character == '\u{202f}'
    ||| character == '\u{205f}'
    ||| character == '\u{3000}'
}

/// How long the part of `text` before the first white space is.
pub open spec fn word_length(text: Seq<char>) -> nat
    decreases text.len(),
{
    if text.len() == 0 || is_white_space(text[0]) {
        0
    } else {
        1 + word_length(text.drop_first())
    }
}

/// `text` from its first character that is not white space.
pub open spec fn trimmed(text: Seq<char>) -> Seq<char>
    decreases text.len(),
{
    if text.len() > 0 && is_white_space(text[0]) {
        trimmed(text.drop_first())
    } else {
        text
    }
}

/// The first word of `text` and what follows it.
pub open spec fn first_word(text: Seq<char>) -> Option<(Seq<char>, Seq<char>)> {
    let rest = trimmed(text);
    if rest.len() == 0 {
        None
    } else {
        Some((rest.take(word_length(rest) as int), rest.skip(word_length(rest) as int)))
    }
}

/// Whether `text` holds decimal digits only.
pub open spec fn all_digits(text: Seq<char>) -> bool {
    forall|i: int| 0 <= i < text.len() ==> '0' <= #[trigger] text[i] <= '9'
}

/// The number that decimal digits stand for.
pub open spec fn decimal(digits: Seq<char>) -> nat
    decreases digits.len(),
{
    if digits.len() == 0 {
        0
    } else {
        (decimal(digits.drop_last()) * 10 + (digits.last() as int - '0' as int)) as nat
    }
}

/// The digits of a number as written: a plus sign may stand before them.
pub open spec fn unsigned(text: Seq<char>) -> Seq<char> {
    if text.len() > 0 && text[0] == '+' {
        text.drop_first()
    } else {
        text
    }
}

/// The 32-bit number that `text` writes in decimal.
pub open spec fn number(text: Seq<char>) -> Option<u32> {
    let digits = unsigned(text);
    if digits.len() > 0 && all_digits(digits) && decimal(digits) <= u32::MAX {
        Some(decimal(digits) as u32)
    } else {
        None
    }
}

/// The first two words of `text`, as numbers.
pub open spec fn two_numbers(text: Seq<char>) -> Option<(u32, u32)> {
    match first_word(text) {
        None => None,
        Some((first, rest)) => match (number(first), first_word(rest)) {
            (Some(real_id), Some((second, _))) => match number(second) {
                Some(effective_id) => Some((real_id, effective_id)),
                None => None,
            },
            _ => None,
        },
    }
}

/// The real and the effective id on the line of `status` that begins with `key`.
pub open spec fn ids(status: Seq<char>, key: Seq<char>) -> Option<(u32, u32)> {
    match value_of(lines(status), key) {
        Some(value) => two_numbers(value),
        None => None,
    }
}

/// The execution context that `status` describes.
pub open spec fn context(status: Seq<char>) -> Option<ExecutionContext> {
    match (ids(status, "Uid:"@), ids(status, "Gid:"@)) {
        (Some((uid, euid)), Some((gid, egid))) => Some(ExecutionContext { uid, euid, gid, egid }),
        _ => None,
    }
}

fn characters(text: &str) -> (result: Vec<char>)
    ensures
        result@ == text@,
{
    let mut result: Vec<char> = Vec::new();
    for character in it: text.chars()
        invariant
            it.seq() == text@,
            result@ == text@.take(it.index() as int),
    {
        result.push(character);
    }
    result
}

fn white_space(character: char) -> (result: bool)
    ensures
        result == is_white_space(character),
{
    ('\t' <= character && character <= '\r') || character == ' ' || character == '\u{85}'
        || character == '\u{a0}' || character == '\u{1680}' || ('\u{2000}' <= character
        && character <= '\u{200a}') || ('\u{2028}' <= character && character <= '\u{2029}')
        || character == '\u{202f}' || character == '\u{205f}' || character == '\u{3000}'
}

/// Finds `wanted` in `text` from `from` on.
fn find(text: &Vec<char>, from: usize, wanted: char) -> (at: usize)
    requires
        from <= text@.len(),
    ensures
        at <= text@.len(),
        at == from + position(text@.skip(from as int), wanted),
{
    let mut at: usize = from;
    while at < text.len() && text[at] != wanted
        invariant
            from <= at <= text@.len(),
            from + position(text@.skip(from as int), wanted) == at + position(
                text@.skip(at as int),
                wanted,
            ),
        decreases text@.len() - at,
    {
        assert(text@.skip(at as int).drop_first() =~= text@.skip(at + 1));
        at += 1;
    }
    at
}

/// Whether `key` stands in `text` at `from`, before `end`.
fn stands_at(text: &Vec<char>, from: usize, end: usize, key: &Vec<char>) -> (result: bool)
    requires
        from <= end <= text@.len(),
    ensures
        result == begins_with(text@.subrange(from as int, end as int), key@),
{
    let ghost line = text@.subrange(from as int, end as int);
    if key.len() > end - from {
        return false;
    }
    let mut i: usize = 0;
    while i < key.len()
        invariant
            from <= end <= text@.len(),
            key@.len() <= end - from,
            i <= key@.len(),
            line == text@.subrange(from as int, end as int),
            line.take(i as int) == key@.take(i as int),
        decreases key@.len() - i,
    {
        if text[from + i] != key[i] {
            assert(line.take(key@.len() as int)[i as int] != key@[i as int]);
            return false;
        }
        assert(line.take(i + 1) =~= line.take(i as int).push(line[i as int]));
        assert(key@.take(i + 1) =~= key@.take(i as int).push(key@[i as int]));
        i += 1;
    }
    assert(key@.take(key@.len() as int) =~= key@);
    true
}

/// The next word of `text` between `from` and `end`: where it begins and ends.
fn next_word(text: &Vec<char>, from: usize, end: usize) -> (word: Option<(usize, usize)>)
    requires
        from <= end <= text@.len(),
    ensures
        match word {
            Some((start, stop)) => from <= start < stop <= end && first_word(
                text@.subrange(from as int, end as int),
            ) == Some(
                (
                    text@.subrange(start as int, stop as int),
                    text@.subrange(stop as int, end as int),
                ),
            ),
            None => first_word(text@.subrange(from as int, end as int)) is None,
        },
{
    let ghost given = text@.subrange(from as int, end as int);
    let mut start: usize = from;
    while start < end && white_space(text[start])
        invariant
            from <= start <= end <= text@.len(),
            trimmed(given) == trimmed(text@.subrange(start as int, end as int)),
        decreases end - start,
    {
        assert(text@.subrange(start as int, end as int).drop_first() =~= text@.subrange(
            start + 1,
            end as int,
        ));
        start += 1;
    }
    let ghost rest = text@.subrange(start as int, end as int);
    if start == end {
        return None;
    }
    let mut stop: usize = start;
    while stop < end && !white_space(text[stop])
        invariant
            start <= stop <= end <= text@.len(),
            word_length(rest) == stop - start + word_length(
                text@.subrange(stop as int, end as int),
            ),
        decreases end - stop,
    {
        assert(text@.subrange(stop as int, end as int).drop_first() =~= text@.subrange(
            stop + 1,
            end as int,
        ));
        stop += 1;
    }
    assert(rest.take(stop - start) =~= text@.subrange(start as int, stop as int));
    assert(rest.skip(stop - start) =~= text@.subrange(stop as int, end as int));
    Some((start, stop))
}

/// A number grows with each digit after it.
proof fn decimal_grows(digits: Seq<char>, n: int)
    requires
        0 <= n <= digits.len(),
        all_digits(digits),
    ensures
        decimal(digits.take(n)) <= decimal(digits),
    decreases digits.len(),
{
    if n == digits.len() {
        assert(digits.take(n) =~= digits);
    } else {
        assert(digits.drop_last().take(n) =~= digits.take(n));
        decimal_grows(digits.drop_last(), n);
    }
}

/// The number that stands in `text` between `from` and `end`.
fn parse_number(text: &Vec<char>, from: usize, end: usize) -> (result: Option<u32>)
    requires
        from <= end <= text@.len(),
    ensures
        result == number(text@.subrange(from as int, end as int)),
{
    let ghost word = text@.subrange(from as int, end as int);
    let start: usize = if from < end && text[from] == '+' {
        from + 1
    } else {
        from
    };
    let ghost digits = text@.subrange(start as int, end as int);
    assert(digits =~= unsigned(word));
    if start == end {
        return None;
    }
    let mut value: u32 = 0;
    let mut i: usize = start;
    while i < end
        invariant
            start <= i <= end <= text@.len(),
            word == text@.subrange(from as int, end as int),
            digits == text@.subrange(start as int, end as int),
            digits == unsigned(word),
            all_digits(digits.take(i - start)),
            value == decimal(digits.take(i - start)),
        decreases end - i,
    {
        let character: char = text[i];
        assert(digits[i - start] == character);
        if character < '0' || '9' < character {
            return None;
        }
        let digit: u32 = character as u32 - '0' as u32;
        let ghost upto = digits.take(i - start + 1);
        assert(upto.drop_last() =~= digits.take(i - start));
        assert forall|j: int| 0 <= j < upto.len() implies '0' <= #[trigger] upto[j] <= '9' by {
            if j < i - start {
                assert(digits.take(i - start)[j] == upto[j]);
            }
        }
        if value > (u32::MAX - digit) / 10 {
            proof {
                if all_digits(digits) {
                    decimal_grows(digits, i - start + 1);
                }
            }
            return None;
        }
        value = value * 10 + digit;
        i += 1;
    }
    assert(digits.take(end - start) =~= digits);
    Some(value)
}

/// The real and the effective id on the line of `status` that begins with `key`.
pub fn parse_ids(status: &str, key: &str) -> (result: Option<(u32, u32)>)
    ensures
        result == ids(status@, key@),
{
    let text: Vec<char> = characters(status);
    let wanted: Vec<char> = characters(key);
    let mut from: usize = 0;
    assert(text@.skip(0) =~= text@);
    while from < text.len()
        invariant
            from <= text@.len(),
            wanted@ == key@,
            value_of(lines(status@), key@) == value_of(lines(text@.skip(from as int)), key@),
        decreases text@.len() - from,
    {
        let feed: usize = find(&text, from, '\n');
        let ghost here = text@.skip(from as int);
        assert(here.take(feed - from) =~= text@.subrange(from as int, feed as int));
        let end: usize = if feed < text.len() && feed > from && text[feed - 1] == '\r' {
            feed - 1
        } else {
            feed
        };
        let ghost line = text@.subrange(from as int, end as int);
        assert(lines(here)[0] =~= line);
        if stands_at(&text, from, end, &wanted) {
            let value: usize = from + wanted.len();
            assert(line.skip(key@.len() as int) =~= text@.subrange(value as int, end as int));
            return match next_word(&text, value, end) {
                None => None,
                Some((start, stop)) => match parse_number(&text, start, stop) {
                    None => None,
                    Some(real_id) => match next_word(&text, stop, end) {
                        None => None,
                        Some((start, stop)) => match parse_number(&text, start, stop) {
                            None => None,
                            Some(effective_id) => Some((real_id, effective_id)),
                        },
                    },
                },
            };
        }
        if feed == text.len() {
            assert(lines(here).drop_first() =~= Seq::<Seq<char>>::empty());
            assert(value_of(lines(here).drop_first(), key@) is None);
            return None;
        }
        proof {
            assert(here.skip(feed - from + 1) =~= text@.skip(feed + 1));
            assert(lines(here).drop_first() =~= lines(text@.skip(feed + 1)));
        }
        from = feed + 1;
    }
    None
}

/// The execution context that `status` describes.
pub fn parse_execution_context(status: &str) -> (result: Option<ExecutionContext>)
    ensures
        result == context(status@),
{
    match parse_ids(status, "Uid:") {
        None => None,
        Some((uid, euid)) => match parse_ids(status, "Gid:") {
            None => None,
            Some((gid, egid)) => Some(ExecutionContext { uid, euid, gid, egid }),
        },
    }
}

/// The execution context that the attempt to read `/proc/self/status` gives, or the
/// message that says why there is none.
pub open spec fn context_read(status: Result<Seq<char>, IoErrorView>) -> Result<
    ExecutionContext,
    Seq<char>,
> {
    match status {
        Err(error) => Err("failed to read /proc/self/status: "@ + error.message),
        Ok(text) => match context(text) {
            Some(execution) => Ok(execution),
            None => Err("invalid /proc/self/status"@),
        },
    }
}

/// The execution context, from what reading `/proc/self/status` gave.
pub fn read_execution_context(status: Result<String, IoError>) -> (result: Result<
    ExecutionContext,
    String,
>)
    ensures
        match result {
            Ok(execution) => context_read(view_result(status)) == Ok::<_, Seq<char>>(execution),
            Err(message) => context_read(view_result(status)) == Err::<ExecutionContext, _>(
                message@,
            ),
        },
{
    match status {
        Err(error) => Err(
            "failed to read /proc/self/status: ".to_owned().concat(error.message.as_str()),
        ),
        Ok(text) => match parse_execution_context(text.as_str()) {
            Some(execution) => Ok(execution),
            None => Err("invalid /proc/self/status".to_owned()),
        },
    }
}

/// `lines`, each with a line feed behind it.
pub open spec fn written(lines: Seq<Seq<char>>) -> Seq<char>
    decreases lines.len(),
{
    if lines.len() == 0 {
        seq![]
    } else {
        lines[0] + seq!['\n'] + written(lines.drop_first())
    }
}

/// Whether `text` is in one line.
pub open spec fn is_in_one_line(text: Seq<char>) -> bool {
    forall|i: int| 0 <= i < text.len() ==> #[trigger] text[i] != '\n'
}

/// Whether `text` is white space in one line.
pub open spec fn is_gap(text: Seq<char>) -> bool {
    is_in_one_line(text) && forall|i: int|
        0 <= i < text.len() ==> is_white_space(#[trigger] text[i])
}

/// Whether `text` is one word: something, with no white space in it.
pub open spec fn is_word(text: Seq<char>) -> bool {
    text.len() > 0 && forall|i: int|
        0 <= i < text.len() ==> !is_white_space(#[trigger] text[i])
}

/// Whether a word ends where `rest` follows it.
pub open spec fn ends_a_word(rest: Seq<char>) -> bool {
    rest.len() == 0 || is_white_space(rest[0])
}

/// Where a character first stands, told by what is there.
proof fn position_is(text: Seq<char>, wanted: char, n: nat)
    requires
        n <= text.len(),
        forall|i: int| 0 <= i < n ==> #[trigger] text[i] != wanted,
        n < text.len() ==> text[n as int] == wanted,
    ensures
        position(text, wanted) == n,
    decreases n,
{
    if n > 0 {
        assert(text[0] != wanted);
        let rest = text.drop_first();
        assert forall|i: int| 0 <= i < n - 1 implies #[trigger] rest[i] != wanted by {
            assert(rest[i] == text[i + 1]);
        }
        position_is(rest, wanted, (n - 1) as nat);
    }
}

/// A line, and what comes after it.
proof fn lines_from_the_first(line: Seq<char>, rest: Seq<char>)
    requires
        is_in_one_line(line),
    ensures
        lines(line + seq!['\n'] + rest) == seq![without_return(line)] + lines(rest),
{
    let text = line + seq!['\n'] + rest;
    let n = line.len() as int;
    assert forall|i: int| 0 <= i < n implies #[trigger] text[i] != '\n' by {
        assert(text[i] == line[i]);
    }
    assert(text[n] == '\n');
    position_is(text, '\n', line.len());
    assert(text.take(n) =~= line);
    assert(text.skip(n + 1) =~= rest);
}

/// Lines that do not begin with the key are passed over, however many there are.
proof fn other_lines_are_passed_over(before: Seq<Seq<char>>, rest: Seq<char>, key: Seq<char>)
    requires
        forall|i: int|
            0 <= i < before.len() ==> is_in_one_line(#[trigger] before[i]) && !key.is_prefix_of(
                before[i],
            ),
    ensures
        value_of(lines(written(before) + rest), key) == value_of(lines(rest), key),
    decreases before.len(),
{
    if before.len() == 0 {
        assert(written(before) + rest =~= rest);
    } else {
        let line = before[0];
        let others = before.drop_first();
        assert forall|i: int| 0 <= i < others.len() implies is_in_one_line(#[trigger] others[i])
            && !key.is_prefix_of(others[i]) by {
            assert(others[i] == before[i + 1]);
        }
        other_lines_are_passed_over(others, rest, key);
        let tail = written(others) + rest;
        assert(written(before) + rest =~= line + seq!['\n'] + tail);
        lines_from_the_first(line, tail);
        let all = seq![without_return(line)] + lines(tail);
        assert(all.drop_first() =~= lines(tail));
        let first = without_return(line);
        if begins_with(first, key) {
            assert(line.take(key.len() as int) =~= first.take(key.len() as int));
            assert(key.is_prefix_of(line));
        }
    }
}

/// White space before a word is skipped.
proof fn trimmed_is(gap: Seq<char>, rest: Seq<char>)
    requires
        forall|i: int| 0 <= i < gap.len() ==> is_white_space(#[trigger] gap[i]),
        rest.len() > 0 ==> !is_white_space(rest[0]),
    ensures
        trimmed(gap + rest) == rest,
    decreases gap.len(),
{
    if gap.len() == 0 {
        assert(gap + rest =~= rest);
    } else {
        assert(is_white_space(gap[0]));
        let less = gap.drop_first();
        assert forall|i: int| 0 <= i < less.len() implies is_white_space(#[trigger] less[i]) by {
            assert(less[i] == gap[i + 1]);
        }
        assert((gap + rest).drop_first() =~= less + rest);
        trimmed_is(less, rest);
    }
}

/// A word is as long as it is.
proof fn word_length_is(word: Seq<char>, rest: Seq<char>)
    requires
        forall|i: int| 0 <= i < word.len() ==> !is_white_space(#[trigger] word[i]),
        ends_a_word(rest),
    ensures
        word_length(word + rest) == word.len(),
    decreases word.len(),
{
    if word.len() == 0 {
        assert(word + rest =~= rest);
    } else {
        assert(!is_white_space(word[0]));
        let less = word.drop_first();
        assert forall|i: int| 0 <= i < less.len() implies !is_white_space(#[trigger] less[i]) by {
            assert(less[i] == word[i + 1]);
        }
        assert((word + rest).drop_first() =~= less + rest);
        word_length_is(less, rest);
    }
}

/// The first word of what begins with a gap and a word.
proof fn first_word_is(gap: Seq<char>, word: Seq<char>, rest: Seq<char>)
    requires
        forall|i: int| 0 <= i < gap.len() ==> is_white_space(#[trigger] gap[i]),
        is_word(word),
        ends_a_word(rest),
    ensures
        first_word(gap + word + rest) == Some((word, rest)),
{
    let tail = word + rest;
    assert(!is_white_space(word[0]));
    assert(gap + word + rest =~= gap + tail);
    trimmed_is(gap, tail);
    word_length_is(word, rest);
    assert(tail.take(word.len() as int) =~= word);
    assert(tail.skip(word.len() as int) =~= rest);
}

/// What stands on the line that begins with the key, up to its end: `rest` goes on behind
/// `value`, which is no white space at its end.
proof fn value_is(key: Seq<char>, value: Seq<char>, rest: Seq<char>) -> (end: Seq<char>)
    requires
        is_in_one_line(key),
        is_in_one_line(value),
        value.len() > 0,
        !is_white_space(value.last()),
        ends_a_word(rest),
    ensures
        ends_a_word(end),
        value_of(lines(key + value + rest), key) == Some(value + end),
{
    let p = position(rest, '\n');
    position_bound(rest, '\n');
    let head = rest.take(p as int);
    let line = key + value + head;
    let text = key + value + rest;
    assert(is_in_one_line(line)) by {
        assert forall|i: int| 0 <= i < line.len() implies #[trigger] line[i] != '\n' by {
            if i < key.len() {
                assert(line[i] == key[i]);
            } else if i < key.len() + value.len() {
                assert(line[i] == value[i - key.len()]);
            } else {
                assert(line[i] == rest[i - key.len() - value.len()]);
            }
        }
    }
    assert(line[key.len() + value.len() - 1] == value.last());
    if p < rest.len() {
        let after = rest.skip(p as int + 1);
        assert(text =~= line + seq!['\n'] + after);
        lines_from_the_first(line, after);
        let kept = without_return(line);
        let end = without_return(head);
        assert(kept =~= key + value + end) by {
            if head.len() > 0 {
                assert(line.last() == head.last());
            } else {
                assert(line.last() == value.last());
            }
        }
        assert(kept.take(key.len() as int) =~= key);
        assert(kept.skip(key.len() as int) =~= value + end);
        assert(lines(text)[0] == kept);
        end
    } else {
        assert(head =~= rest);
        assert(text =~= line);
        position_is(text, '\n', text.len());
        assert(lines(text) =~= seq![text]);
        assert(text.take(key.len() as int) =~= key);
        assert(text.skip(key.len() as int) =~= value + rest);
        rest
    }
}

/// Where a character first stands it stands, and not before.
proof fn position_bound(text: Seq<char>, wanted: char)
    ensures
        position(text, wanted) <= text.len(),
        forall|i: int| 0 <= i < position(text, wanted) ==> #[trigger] text[i] != wanted,
        position(text, wanted) < text.len() ==> text[position(text, wanted) as int] == wanted,
    decreases text.len(),
{
    if text.len() > 0 && text[0] != wanted {
        let rest = text.drop_first();
        position_bound(rest, wanted);
        assert forall|i: int| 0 <= i < position(text, wanted) implies #[trigger] text[i]
            != wanted by {
            if i > 0 {
                assert(text[i] == rest[i - 1]);
            }
        }
    }
}

/// A word is in one line.
proof fn word_is_in_one_line(word: Seq<char>)
    requires
        is_word(word),
    ensures
        is_in_one_line(word),
{
    assert forall|i: int| 0 <= i < word.len() implies #[trigger] word[i] != '\n' by {
        assert(!is_white_space(word[i]));
    }
}

/// Wherever in the text the line stands: behind any number of lines that do not begin with
/// the key, and before any text. The ids are the first two words after the key, where both
/// are numbers.
pub proof fn ids_stand_on_any_line(
    before: Seq<Seq<char>>,
    key: Seq<char>,
    gap: Seq<char>,
    first: Seq<char>,
    space: Seq<char>,
    second: Seq<char>,
    rest: Seq<char>,
)
    requires
        forall|i: int|
            0 <= i < before.len() ==> is_in_one_line(#[trigger] before[i]) && !key.is_prefix_of(
                before[i],
            ),
        is_in_one_line(key),
        is_gap(gap),
        is_word(first),
        is_gap(space) && space.len() > 0,
        is_word(second),
        ends_a_word(rest),
    ensures
        ids(written(before) + (key + (gap + first + space + second) + rest), key) == match (
            number(first),
            number(second),
        ) {
            (Some(real_id), Some(effective_id)) => Some((real_id, effective_id)),
            _ => None,
        },
{
    let value = gap + first + space + second;
    word_is_in_one_line(first);
    word_is_in_one_line(second);
    assert(is_in_one_line(value)) by {
        let a = gap.len() as int;
        let b = a + first.len();
        let c = b + space.len();
        assert forall|i: int| 0 <= i < value.len() implies #[trigger] value[i] != '\n' by {
            if i < a {
                assert(value[i] == gap[i]);
            } else if i < b {
                assert(value[i] == first[i - a]);
            } else if i < c {
                assert(value[i] == space[i - b]);
            } else {
                assert(value[i] == second[i - c]);
            }
        }
    }
    assert(value.last() == second.last());
    assert(!is_white_space(second[second.len() - 1]));
    other_lines_are_passed_over(before, key + value + rest, key);
    let end = value_is(key, value, rest);
    assert(value + end =~= gap + first + (space + second + end));
    assert((space + second + end)[0] == space[0]);
    assert(is_white_space(space[0]));
    first_word_is(gap, first, space + second + end);
    first_word_is(space, second, end);
}

/// The decimal digit for `value`.
pub open spec fn digit(value: nat) -> char {
    (('0' as u32 + value) as u32) as char
}

/// `value` as it is written in decimal.
pub open spec fn digits_of(value: nat) -> Seq<char>
    decreases value,
{
    if value < 10 {
        seq![digit(value)]
    } else {
        digits_of(value / 10).push(digit(value % 10))
    }
}

/// What is written in decimal stands for the number that was written.
proof fn digits_stand_for_the_number(value: nat)
    ensures
        digits_of(value).len() > 0,
        all_digits(digits_of(value)),
        decimal(digits_of(value)) == value,
    decreases value,
{
    reveal_with_fuel(decimal, 2);
    let digits = digits_of(value);
    if value < 10 {
        assert(digits.drop_last() =~= seq![]);
        assert(digits.last() as int == '0' as int + value);
    } else {
        digits_stand_for_the_number(value / 10);
        assert(digits.drop_last() =~= digits_of(value / 10));
        assert(digits.last() as int == '0' as int + value % 10);
    }
}

/// Digits are one word.
proof fn digits_are_a_word(digits: Seq<char>)
    requires
        digits.len() > 0,
        all_digits(digits),
    ensures
        is_word(digits),
        digits[0] != '+',
{
    assert('0' <= digits[0] <= '9');
    assert forall|i: int| 0 <= i < digits.len() implies !is_white_space(#[trigger] digits[i]) by {
        assert('0' <= digits[i] <= '9');
    }
}

/// Every number is read as it is written, as long as it has 32 bits; a larger one is not
/// read at all.
pub proof fn numbers_are_read_as_written(value: nat)
    ensures
        value <= u32::MAX ==> number(digits_of(value)) == Some(value as u32),
        value > u32::MAX ==> number(digits_of(value)) is None,
{
    digits_stand_for_the_number(value);
    digits_are_a_word(digits_of(value));
}

/// A plus sign, and zeros before the digits, make no difference to a number.
pub proof fn numbers_may_be_written_longer(digits: Seq<char>)
    requires
        digits.len() > 0,
        all_digits(digits),
    ensures
        number(seq!['+'] + digits) == number(digits),
        number(seq!['0'] + digits) == number(digits),
{
    digits_are_a_word(digits);
    assert((seq!['+'] + digits).drop_first() =~= digits);
    let longer = seq!['0'] + digits;
    assert(all_digits(longer)) by {
        assert forall|i: int| 0 <= i < longer.len() implies '0' <= #[trigger] longer[i] <= '9' by {
            if i > 0 {
                assert(longer[i] == digits[i - 1]);
            }
        }
    }
    zero_adds_nothing(digits);
}

/// A zero before the digits adds nothing.
proof fn zero_adds_nothing(digits: Seq<char>)
    ensures
        decimal(seq!['0'] + digits) == decimal(digits),
    decreases digits.len(),
{
    let longer = seq!['0'] + digits;
    if digits.len() == 0 {
        reveal_with_fuel(decimal, 2);
        assert(longer.drop_last() =~= seq![]);
    } else {
        assert(longer.drop_last() =~= seq!['0'] + digits.drop_last());
        zero_adds_nothing(digits.drop_last());
    }
}

/// What holds anything but digits, after a plus sign at most, or no digit at all, is no
/// number.
pub proof fn other_words_are_no_numbers(word: Seq<char>, at: int)
    requires
        word.len() == 0 || word == seq!['+'] || (0 <= at < word.len() && !('0' <= word[at] <= '9')
            && (at > 0 || word[at] != '+')),
    ensures
        number(word) is None,
{
    let digits = unsigned(word);
    if 0 <= at < word.len() && (at > 0 || word[at] != '+') {
        let i = if word[0] == '+' {
            at - 1
        } else {
            at
        };
        assert(digits[i] == word[at]);
    }
}

/// Who took the snapshot is told wherever the line stands: for any lines before it that do
/// not begin with the key, any text after it, and any two numbers in decimal after the key,
/// these two numbers are the ids.
pub proof fn ids_are_read_as_written(
    before: Seq<Seq<char>>,
    key: Seq<char>,
    gap: Seq<char>,
    real_id: u32,
    space: Seq<char>,
    effective_id: u32,
    rest: Seq<char>,
)
    requires
        forall|i: int|
            0 <= i < before.len() ==> is_in_one_line(#[trigger] before[i]) && !key.is_prefix_of(
                before[i],
            ),
        is_in_one_line(key),
        is_gap(gap),
        is_gap(space) && space.len() > 0,
        ends_a_word(rest),
    ensures
        ids(
            written(before) + (key + (gap + digits_of(real_id as nat) + space + digits_of(
                effective_id as nat,
            )) + rest),
            key,
        ) == Some((real_id, effective_id)),
{
    let first = digits_of(real_id as nat);
    let second = digits_of(effective_id as nat);
    digits_stand_for_the_number(real_id as nat);
    digits_stand_for_the_number(effective_id as nat);
    digits_are_a_word(first);
    digits_are_a_word(second);
    numbers_are_read_as_written(real_id as nat);
    numbers_are_read_as_written(effective_id as nat);
    ids_stand_on_any_line(before, key, gap, first, space, second, rest);
}

/// Where no line begins with the key there are no ids.
pub proof fn no_line_no_ids(before: Seq<Seq<char>>, last: Seq<char>, key: Seq<char>)
    requires
        forall|i: int|
            0 <= i < before.len() ==> is_in_one_line(#[trigger] before[i]) && !key.is_prefix_of(
                before[i],
            ),
        is_in_one_line(last),
        !key.is_prefix_of(last),
    ensures
        ids(written(before) + last, key) is None,
{
    other_lines_are_passed_over(before, last, key);
    position_is(last, '\n', last.len());
    if last.len() > 0 {
        assert(lines(last) =~= seq![last]);
        assert(lines(last).drop_first() =~= seq![]);
        assert(value_of(lines(last).drop_first(), key) is None);
        if begins_with(last, key) {
            assert(key.is_prefix_of(last));
        }
    }
}

/// Only the first line that begins with the key counts: neither what stands before it nor
/// what stands after it makes a difference, not even where there are no ids on it.
pub proof fn only_the_first_line_counts(
    before: Seq<Seq<char>>,
    key: Seq<char>,
    value: Seq<char>,
    rest: Seq<char>,
)
    requires
        forall|i: int|
            0 <= i < before.len() ==> is_in_one_line(#[trigger] before[i]) && !key.is_prefix_of(
                before[i],
            ),
        is_in_one_line(key),
        key.len() > 0 && key.last() != '\r',
        is_in_one_line(value),
    ensures
        ids(written(before) + (key + value + seq!['\n'] + rest), key) == ids(
            key + value + seq!['\n'],
            key,
        ),
{
    let line = key + value;
    assert(is_in_one_line(line)) by {
        assert forall|i: int| 0 <= i < line.len() implies #[trigger] line[i] != '\n' by {
            if i < key.len() {
                assert(line[i] == key[i]);
            } else {
                assert(line[i] == value[i - key.len()]);
            }
        }
    }
    other_lines_are_passed_over(before, line + seq!['\n'] + rest, key);
    lines_from_the_first(line, rest);
    lines_from_the_first(line, seq![]);
    assert(line + seq!['\n'] + Seq::<char>::empty() =~= line + seq!['\n']);
    let kept = without_return(line);
    assert(lines(line + seq!['\n'] + rest)[0] == kept);
    assert(lines(line + seq!['\n'])[0] == kept);
    assert(kept.take(key.len() as int) =~= key) by {
        if value.len() == 0 {
            assert(line =~= key);
        }
    }
}

/// A line on which fewer than two words follow the key holds no ids.
pub proof fn ids_need_two_words(key: Seq<char>, gap: Seq<char>, word: Seq<char>, space: Seq<char>)
    requires
        is_in_one_line(key),
        key.len() > 0 && key.last() != '\r',
        is_gap(gap),
        is_word(word),
        is_gap(space),
    ensures
        ids(key + gap + seq!['\n'], key) is None,
        ids(key + (gap + word + space) + seq!['\n'], key) is None,
{
    word_is_in_one_line(word);
    one_line_of(key, gap);
    one_line_of(key, gap + word + space);
    let gap_end = without_return(gap);
    assert(gap_end =~= gap_end + Seq::<char>::empty());
    trimmed_is(gap_end, seq![]);
    let end = without_return(space);
    if space.len() > 0 {
        assert(is_white_space(space[0]));
        assert((gap + word + space).last() == space.last());
    } else {
        assert(!is_white_space(word[word.len() - 1]));
        assert((gap + word + space).last() == word.last());
    }
    assert(without_return(gap + word + space) =~= gap + word + end);
    first_word_is(gap, word, end);
    assert(end =~= end + Seq::<char>::empty());
    trimmed_is(end, seq![]);
}

/// What the value of a line is.
proof fn one_line_of(key: Seq<char>, value: Seq<char>)
    requires
        is_in_one_line(key),
        key.len() > 0 && key.last() != '\r',
        is_in_one_line(value),
    ensures
        ids(key + value + seq!['\n'], key) == two_numbers(without_return(value)),
{
    let line = key + value;
    assert(is_in_one_line(line)) by {
        assert forall|i: int| 0 <= i < line.len() implies #[trigger] line[i] != '\n' by {
            if i < key.len() {
                assert(line[i] == key[i]);
            } else {
                assert(line[i] == value[i - key.len()]);
            }
        }
    }
    lines_from_the_first(line, seq![]);
    assert(line + seq!['\n'] + Seq::<char>::empty() =~= line + seq!['\n']);
    let kept = without_return(line);
    assert(kept =~= key + without_return(value)) by {
        if value.len() > 0 {
            assert(line.last() == value.last());
        } else {
            assert(line =~= key);
        }
    }
    assert(kept.take(key.len() as int) =~= key);
    assert(kept.skip(key.len() as int) =~= without_return(value));
    assert(lines(line + seq!['\n'])[0] == kept);
}

/// The execution context is made of the ids on the line of the user and of those on the line
/// of the group, the real one first, and needs both.
pub proof fn context_is_user_and_group(status: Seq<char>)
    ensures
        context(status) is Some <==> ids(status, "Uid:"@) is Some && ids(status, "Gid:"@) is Some,
        context(status) matches Some(execution) ==> {
            &&& ids(status, "Uid:"@) == Some((execution.uid, execution.euid))
            &&& ids(status, "Gid:"@) == Some((execution.gid, execution.egid))
        },
{
}

/// A failure to read the status is told with all of its message; a status that could be
/// read is told to be invalid exactly where it does not tell user and group.
pub proof fn context_or_message(status: Result<Seq<char>, IoErrorView>)
    ensures
        match status {
            Err(error) => context_read(status) == Err::<ExecutionContext, _>(
                "failed to read /proc/self/status: "@ + error.message,
            ),
            Ok(text) => match (ids(text, "Uid:"@), ids(text, "Gid:"@)) {
                (Some(user), Some(group)) => context_read(status) == Ok::<_, Seq<char>>(
                    ExecutionContext { uid: user.0, euid: user.1, gid: group.0, egid: group.1 },
                ),
                _ => context_read(status) == Err::<ExecutionContext, _>(
                    "invalid /proc/self/status"@,
                ),
            },
        },
{
}

} // verus!
