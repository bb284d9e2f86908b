//! The journal file: where a transaction goes among the dated entries,
//! how its text is spliced into the bytes, and what the tool that lists
//! the file's entries is asked and answers.

use crate::date::{parsed_date_with, Date};
use crate::text::{
    field_end, find_field_end, parse_unsigned_in, runs, split_runs_owned, starts_with,
    strings_of, text_of, to_chars, unsigned_of, Order, Separator,
};
use vstd::prelude::*;
use vstd::string::StringSliceAdditionalSpecFns;
use vstd::utf8::{decode_utf8, encode_utf8, valid_utf8};

verus! {

/// The byte that ends a line.
pub const NEWLINE: u8 = 10;

/// No entry is dated before one that stands earlier in the list.
pub open spec fn dates_sorted(ends: Seq<(Date, usize)>) -> bool {
    forall|i: int, j: int| 0 <= i < j < ends.len() ==> !(#[trigger] ends[j]).0.before((#[trigger] ends[i]).0)
}

/// Where a transaction of the date goes: the offset of the last entry
/// that is not dated after it, and the start of the file where there is
/// none.
pub open spec fn insertion_point(ends: Seq<(Date, usize)>, date: Date) -> int
    decreases ends.len(),
{
    if ends.len() == 0 {
        0
    } else if date.before(ends.last().0) {
        insertion_point(ends.drop_last(), date)
    } else {
        ends.last().1 as int
    }
}

/// The insertion point of a list whose first `k` entries are those not
/// dated after the date.
pub proof fn lemma_insertion_point_at(ends: Seq<(Date, usize)>, date: Date, k: int)
    requires
        0 <= k <= ends.len(),
        forall|i: int| 0 <= i < k ==> !date.before((#[trigger] ends[i]).0),
        forall|i: int| k <= i < ends.len() ==> date.before((#[trigger] ends[i]).0),
    ensures
        insertion_point(ends, date) == if k == 0 {
            0
        } else {
            ends[k - 1].1 as int
        },
    decreases ends.len(),
{
    if ends.len() > k {
        let rest = ends.drop_last();
        assert(date.before(ends[ends.len() - 1].0));
        assert forall|i: int| 0 <= i < k implies !date.before((#[trigger] rest[i]).0) by {
            assert(rest[i] == ends[i]);
        }
        assert forall|i: int| k <= i < rest.len() implies date.before((#[trigger] rest[i]).0) by {
            assert(rest[i] == ends[i]);
        }
        lemma_insertion_point_at(rest, date, k);
        if k > 0 {
            assert(rest[k - 1] == ends[k - 1]);
        }
    } else if k > 0 {
        assert(!date.before(ends[k - 1].0));
    }
}

/// The number of entries that are not dated after the date, in a list
/// sorted by date.
pub fn count_not_after(date_ends: &Vec<(Date, usize)>, date: Date) -> (k: usize)
    requires
        dates_sorted(date_ends@),
    ensures
        k == rank(date_ends@, date),
        k <= date_ends.len(),
        forall|i: int| 0 <= i < k ==> !date.before((#[trigger] date_ends@[i]).0),
        forall|i: int| k <= i < date_ends.len() ==> date.before((#[trigger] date_ends@[i]).0),
{
    let mut lo: usize = 0;
    let mut hi: usize = date_ends.len();
    while lo < hi
        invariant
            lo <= hi <= date_ends.len(),
            dates_sorted(date_ends@),
            forall|i: int| 0 <= i < lo ==> !date.before((#[trigger] date_ends@[i]).0),
            forall|i: int| hi <= i < date_ends.len() ==> date.before((#[trigger] date_ends@[i]).0),
        decreases hi - lo,
    {
        let mid: usize = lo + (hi - lo) / 2;
        match date.compare(&date_ends[mid].0) {
            Order::Before => {
                assert forall|i: int| mid <= i < date_ends.len() implies date.before(
                    (#[trigger] date_ends@[i]).0,
                ) by {
                    if i > mid {
                        assert(!date_ends@[i].0.before(date_ends@[mid as int].0));
                    }
                }
                hi = mid;
            },
            _ => {
                assert forall|i: int| 0 <= i < mid + 1 implies !date.before(
                    (#[trigger] date_ends@[i]).0,
                ) by {
                    if i < mid {
                        assert(!date_ends@[mid as int].0.before(date_ends@[i].0));
                    }
                }
                lo = mid + 1;
            },
        }
    }
    proof {
        lemma_rank_at(date_ends@, date, lo as int);
    }
    lo
}

/// Whether no entry is dated before one that stands earlier in the list.
pub fn is_sorted_by_date(date_ends: &Vec<(Date, usize)>) -> (b: bool)
    ensures
        b == dates_sorted(date_ends@),
{
    let mut i: usize = 1;
    while i < date_ends.len()
        invariant
            1 <= i,
            forall|a: int, b: int|
                0 <= a < b < i && b < date_ends.len() ==> !(#[trigger] date_ends@[b]).0.before(
                    (#[trigger] date_ends@[a]).0,
                ),
        decreases date_ends.len() - i,
    {
        match date_ends[i].0.compare(&date_ends[i - 1].0) {
            Order::Before => {
                return false;
            },
            _ => {},
        }
        assert forall|a: int, b: int| 0 <= a < b < i + 1 && b < date_ends.len() implies !(
        #[trigger] date_ends@[b]).0.before((#[trigger] date_ends@[a]).0) by {
            if b == i && a < i - 1 {
                assert(!date_ends@[i - 1].0.before(date_ends@[a].0));
            }
        }
        i = i + 1;
    }
    true
}

/// Finds by binary search where a transaction of the date goes.
pub fn get_pos_for_date(date_ends: &Vec<(Date, usize)>, tx_date: Date) -> (pos: usize)
    requires
        dates_sorted(date_ends@),
    ensures
        pos == insertion_point(date_ends@, tx_date),
{
    let k = count_not_after(date_ends, tx_date);
    proof {
        lemma_insertion_point_at(date_ends@, tx_date, k as int);
    }
    if k == 0 {
        0
    } else {
        date_ends[k - 1].1
    }
}

/// What stands between the bytes before the insertion point and the new
/// text: a newline where those bytes are not empty and do not end in one,
/// or where they are not empty and nothing follows the insertion point.
pub open spec fn gap_before(before: Seq<u8>, after: Seq<u8>) -> Seq<u8> {
    if before.len() > 0 && (before.last() != NEWLINE || after.len() == 0) {
        seq![NEWLINE]
    } else {
        Seq::<u8>::empty()
    }
}

/// What stands between the new text and the bytes after the insertion
/// point: a newline where those bytes do not begin with one.
pub open spec fn gap_after(after: Seq<u8>) -> Seq<u8> {
    if after.len() == 0 || after[0] != NEWLINE {
        seq![NEWLINE]
    } else {
        Seq::<u8>::empty()
    }
}

/// Where the new text begins in the file that `spliced` gives.
pub open spec fn text_start(file: Seq<u8>, at: int) -> int {
    at + gap_before(file.subrange(0, at), file.subrange(at, file.len() as int)).len()
}

/// The file with the text put in at the offset `at`: the bytes before the
/// offset and those after it as they were, the text between them, and
/// newlines where `gap_before` and `gap_after` ask for them.
pub open spec fn spliced(file: Seq<u8>, at: int, text: Seq<u8>) -> Seq<u8> {
    let before = file.subrange(0, at);
    let after = file.subrange(at, file.len() as int);
    before + gap_before(before, after) + text + gap_after(after) + after
}

/// The spliced file holds the text itself at `text_start`, the bytes
/// that stood before the insertion point in front of it, and those that
/// stood after the insertion point at its end.
pub proof fn lemma_spliced_holds_text(file: Seq<u8>, at: int, text: Seq<u8>)
    requires
        0 <= at <= file.len(),
    ensures
        spliced(file, at, text).subrange(
            text_start(file, at),
            text_start(file, at) + text.len(),
        ) == text,
        spliced(file, at, text).subrange(0, at) == file.subrange(0, at),
        spliced(file, at, text).subrange(
            spliced(file, at, text).len() - (file.len() - at),
            spliced(file, at, text).len() as int,
        ) == file.subrange(at, file.len() as int),
        at <= text_start(file, at) <= at + 1,
        text_start(file, at) + text.len() + (file.len() - at) <= spliced(file, at, text).len()
            <= text_start(file, at) + text.len() + (file.len() - at) + 1,
{
    let r = spliced(file, at, text);
    let start = text_start(file, at);
    assert(r.subrange(start, start + text.len()) =~= text);
    assert(r.subrange(0, at) =~= file.subrange(0, at));
    assert(r.subrange(r.len() - (file.len() - at), r.len() as int) =~= file.subrange(
        at,
        file.len() as int,
    ));
}

/// A text put into an empty file stands at its start, followed by one
/// newline.
pub proof fn lemma_spliced_into_empty(text: Seq<u8>)
    ensures
        spliced(Seq::<u8>::empty(), 0, text) == text + seq![NEWLINE],
        text_start(Seq::<u8>::empty(), 0) == 0,
{
    let file = Seq::<u8>::empty();
    assert(spliced(file, 0, text) =~= text + seq![NEWLINE]);
}

/// Appends the bytes from `from` up to `to` of a slice to a vector.
fn append_range(out: &mut Vec<u8>, source: &[u8], from: usize, to: usize)
    requires
        from <= to <= source@.len(),
    ensures
        final(out)@ == old(out)@ + source@.subrange(from as int, to as int),
{
    let ghost start = out@;
    let mut i: usize = from;
    assert(start + source@.subrange(from as int, from as int) =~= start);
    while i < to
        invariant
            from <= i <= to <= source@.len(),
            out@ == start + source@.subrange(from as int, i as int),
        decreases to - i,
    {
        out.push(source[i]);
        assert(out@ =~= start + source@.subrange(from as int, i + 1));
        i = i + 1;
    }
}

/// Puts a text into the bytes of a file at an offset.
pub fn splice(file: &[u8], at: usize, text: &[u8]) -> (out: Vec<u8>)
    requires
        at <= file@.len(),
    ensures
        out@ == spliced(file@, at as int, text@),
{
    let ghost before = file@.subrange(0, at as int);
    let ghost after = file@.subrange(at as int, file@.len() as int);
    let mut out: Vec<u8> = Vec::new();
    append_range(&mut out, file, 0, at);
    assert(out@ =~= before);
    if at > 0 && (file[at - 1] != NEWLINE || at == file.len()) {
        assert(before.last() == file@[at - 1]);
        out.push(NEWLINE);
    } else if at > 0 {
        assert(before.last() == file@[at - 1]);
    }
    assert(out@ =~= before + gap_before(before, after));
    append_range(&mut out, text, 0, text.len());
    assert(text@.subrange(0, text@.len() as int) =~= text@);
    if at == file.len() || file[at] != NEWLINE {
        out.push(NEWLINE);
    }
    if at < file.len() {
        assert(after[0] == file@[at as int]);
    }
    assert(out@ =~= before + gap_before(before, after) + text@ + gap_after(after));
    append_range(&mut out, file, at, file.len());
    out
}

/// Where the text begins in the file that `splice` gives.
pub fn text_start_in(file: &[u8], at: usize) -> (start: usize)
    requires
        at <= file@.len(),
        at < usize::MAX,
    ensures
        start == text_start(file@, at as int),
{
    let ghost before = file@.subrange(0, at as int);
    if at > 0 && (file[at - 1] != NEWLINE || at == file.len()) {
        assert(before.last() == file@[at - 1]);
        at + 1
    } else {
        if at > 0 {
            assert(before.last() == file@[at - 1]);
        }
        at
    }
}

/// Why a transaction could not be put into a file.
#[derive(Clone, Copy, Debug, PartialEq, Eq, Structural)]
pub enum InsertError {
    /// The list of entries names an offset beyond the end of the file.
    OffsetPastEnd,
}

/// Puts the text of a transaction into the bytes of a file, behind the
/// last entry that is not dated after it. The list gives, for each date
/// in the file, the offset at which its last entry ends, sorted by date.
/// In the new file the text stands unchanged at `text_start`, between
/// the bytes that stood before the insertion point and those that stood
/// after it.
pub fn insert(
    file_bytes: &[u8],
    date_offsets: &Vec<(Date, usize)>,
    date: Date,
    rendered_text: &str,
) -> (r: Result<Vec<u8>, InsertError>)
    requires
        dates_sorted(date_offsets@),
    ensures
        match r {
            Ok(out) => {
                let at = insertion_point(date_offsets@, date);
                let text = encode_utf8(rendered_text@);
                let start = text_start(file_bytes@, at);
                &&& at <= file_bytes@.len()
                &&& out@ == spliced(file_bytes@, at, text)
                &&& out@.subrange(start, start + text.len()) == text
                &&& out@.subrange(0, at) == file_bytes@.subrange(0, at)
                &&& out@.subrange(out@.len() - (file_bytes@.len() - at), out@.len() as int)
                    == file_bytes@.subrange(at, file_bytes@.len() as int)
            },
            Err(e) => e == InsertError::OffsetPastEnd && insertion_point(date_offsets@, date)
                > file_bytes@.len(),
        },
{
    let at = get_pos_for_date(date_offsets, date);
    if at > file_bytes.len() {
        return Err(InsertError::OffsetPastEnd);
    }
    proof {
        lemma_spliced_holds_text(file_bytes@, at as int, encode_utf8(rendered_text@));
    }
    Ok(splice(file_bytes, at, rendered_text.as_bytes()))
}

/// The error type of `core::str::from_utf8`.
#[verifier::external_type_specification]
#[verifier::external_body]
pub struct ExUtf8Error(core::str::Utf8Error);

/// `core::str::from_utf8` accepts the bytes that are valid UTF-8, and
/// gives them back as text unchanged.
pub assume_specification[ core::str::from_utf8 ](v: &[u8]) -> (r: Result<
    &str,
    core::str::Utf8Error,
>)
    ensures
        match r {
            Ok(s) => valid_utf8(v@) && s.spec_bytes() == v@,
            Err(_) => !valid_utf8(v@),
        },
;

/// Why the answer of the tool that lists the file's entries was refused.
#[derive(Clone, Copy, Debug, PartialEq, Eq, Structural)]
pub enum OutputError {
    /// The answer is not text.
    NotUtf8,
    /// The line of this index is not a date, a comma and an offset.
    Malformed(usize),
    /// The line of this index is dated before the line above it.
    OutOfOrder(usize),
}

/// The lines of the tool's answer that are not empty.
pub open spec fn output_lines(stdout: Seq<u8>) -> Option<Seq<Seq<char>>> {
    if valid_utf8(stdout) {
        Some(runs(decode_utf8(stdout), Separator::Is('\n')))
    } else {
        None
    }
}

/// Turns the tool's answer into its lines, leaving out the empty ones.
pub fn process_ledger_output(stdout: &[u8]) -> (r: Result<Vec<String>, OutputError>)
    ensures
        match r {
            Ok(lines) => Some(strings_of(lines@)) == output_lines(stdout@),
            Err(e) => e == OutputError::NotUtf8 && output_lines(stdout@) is None,
        },
{
    match core::str::from_utf8(stdout) {
        Ok(text) => {
            proof {
                vstd::utf8::encode_utf8_decode_utf8(text@);
            }
            Ok(split_runs_owned(text, Separator::Is('\n')))
        },
        Err(_) => Err(OutputError::NotUtf8),
    }
}

/// The names that begin with the prefix, in their order.
pub open spec fn with_prefix(names: Seq<Seq<char>>, prefix: Seq<char>) -> Seq<Seq<char>> {
    names.filter(|name: Seq<char>| prefix.is_prefix_of(name))
}

/// Keeps the names that begin with the prefix.
pub fn filter_by_prefix(names: &Vec<String>, prefix: &str) -> (kept: Vec<String>)
    ensures
        strings_of(kept@) == with_prefix(strings_of(names@), prefix@),
{
    let ghost all = strings_of(names@);
    let ghost keep = |name: Seq<char>| prefix@.is_prefix_of(name);
    let mut kept: Vec<String> = Vec::new();
    let mut i: usize = 0;
    proof {
        reveal(Seq::filter);
        assert(all.take(0) =~= Seq::<Seq<char>>::empty());
        assert(strings_of(kept@) =~= Seq::<Seq<char>>::empty());
    }
    while i < names.len()
        invariant
            i <= names.len(),
            all == strings_of(names@),
            keep == |name: Seq<char>| prefix@.is_prefix_of(name),
            strings_of(kept@) == all.take(i as int).filter(keep),
        decreases names.len() - i,
    {
        let ghost before = strings_of(kept@);
        assert(all.take(i + 1).drop_last() =~= all.take(i as int));
        assert(all.take(i + 1).last() == names@[i as int]@);
        proof {
            reveal(Seq::filter);
        }
        if starts_with(names[i].as_str(), prefix) {
            kept.push(names[i].clone());
            assert(strings_of(kept@) =~= before.push(names@[i as int]@));
        }
        i = i + 1;
    }
    assert(all.take(i as int) =~= all);
    kept
}

/// The format of the dates that the tool is asked to print.
pub open spec fn listing_date_format() -> Seq<char> {
    "%Y/%m/%d"@
}

/// The entry that a line of the tool's answer stands for: a date, a comma
/// and the offset at which the entry ends; what follows a second comma is
/// not read.
pub open spec fn listed_entry(line: Seq<char>) -> Option<(Date, usize)> {
    let first = field_end(line, 0);
    if first >= line.len() {
        None
    } else {
        let second = field_end(line, first + 1);
        match (
            parsed_date_with(line.subrange(0, first), listing_date_format()),
            unsigned_of(line.subrange(first + 1, second)),
        ) {
            (Some(date), Some(offset)) => Some((date, offset)),
            _ => None,
        }
    }
}

/// The date of the entry that a line stands for.
pub open spec fn listed_date(line: Seq<char>) -> Date {
    let entry = listed_entry(line)->0;
    entry.0
}

/// The entries with each run of one date collapsed to its last entry.
pub open spec fn collapsed(entries: Seq<(Date, usize)>) -> Seq<(Date, usize)>
    decreases entries.len(),
{
    if entries.len() == 0 {
        entries
    } else {
        let before = collapsed(entries.drop_last());
        if before.len() > 0 && before.last().0 == entries.last().0 {
            before.drop_last().push(entries.last())
        } else {
            before.push(entries.last())
        }
    }
}

/// Each entry is dated after the one before it.
pub open spec fn dates_ascend(ends: Seq<(Date, usize)>) -> bool {
    forall|i: int, j: int|
        0 <= i < j < ends.len() ==> (#[trigger] ends[i]).0.before((#[trigger] ends[j]).0)
}

/// Collapsing keeps the last entry, and where a transaction of a date
/// goes.
pub proof fn lemma_collapsed_keeps_insertion_point(entries: Seq<(Date, usize)>, date: Date)
    ensures
        insertion_point(collapsed(entries), date) == insertion_point(entries, date),
        collapsed(entries).len() <= entries.len(),
        entries.len() > 0 ==> collapsed(entries).len() > 0 && collapsed(entries).last()
            == entries.last(),
    decreases entries.len(),
{
    if entries.len() > 0 {
        let rest = entries.drop_last();
        let before = collapsed(rest);
        let now = collapsed(entries);
        lemma_collapsed_keeps_insertion_point(rest, date);
        if before.len() > 0 && before.last().0 == entries.last().0 {
            assert(now.drop_last() =~= before.drop_last());
        } else {
            assert(now.drop_last() =~= before);
        }
    }
}

/// In entries sorted by date, collapsing leaves dates that ascend.
pub proof fn lemma_collapsed_ascends(entries: Seq<(Date, usize)>)
    requires
        dates_sorted(entries),
    ensures
        dates_ascend(collapsed(entries)),
        forall|i: int|
            0 <= i < collapsed(entries).len() ==> exists|j: int|
                0 <= j < entries.len() && entries[j] == #[trigger] collapsed(entries)[i],
    decreases entries.len(),
{
    let now = collapsed(entries);
    if entries.len() > 0 {
        let rest = entries.drop_last();
        let before = collapsed(rest);
        let last = entries.last();
        assert forall|i: int, j: int| 0 <= i < j < rest.len() implies !(#[trigger] rest[j]).0.before(
            (#[trigger] rest[i]).0,
        ) by {
            assert(rest[i] == entries[i] && rest[j] == entries[j]);
        }
        lemma_collapsed_ascends(rest);
        assert forall|i: int| 0 <= i < now.len() implies exists|j: int|
            0 <= j < entries.len() && entries[j] == #[trigger] now[i] by {
            if i == now.len() - 1 {
                assert(entries[entries.len() - 1] == now[i]);
            } else {
                assert(now[i] == before[i]);
                let j = choose|j: int| 0 <= j < rest.len() && rest[j] == before[i];
                assert(entries[j] == now[i]);
            }
        }
        assert forall|i: int, j: int| 0 <= i < j < now.len() implies (#[trigger] now[i]).0.before(
            (#[trigger] now[j]).0,
        ) by {
            assert(now[i] == before[i]);
            if j < now.len() - 1 {
                assert(now[j] == before[j]);
            } else {
                let k = choose|k: int| 0 <= k < rest.len() && rest[k] == before[i];
                assert(!entries[entries.len() - 1].0.before(entries[k].0));
                if before.len() > 0 && before.last().0 == last.0 {
                    assert(before[i].0.before(before[before.len() - 1].0));
                } else {
                    if before.len() > 0 {
                        let m = choose|m: int|
                            0 <= m < rest.len() && rest[m] == before[before.len() - 1];
                        assert(!entries[entries.len() - 1].0.before(entries[m].0));
                        if i < before.len() - 1 {
                            assert(before[i].0.before(before[before.len() - 1].0));
                        }
                    }
                }
            }
        }
    }
}

/// Adds an entry to collapsed entries: in place of the last one where
/// that has the same date, else behind it.
pub fn keep_last(ends: &mut Vec<(Date, usize)>, entry: (Date, usize))
    ensures
        final(ends)@ == if old(ends)@.len() > 0 && old(ends)@.last().0 == entry.0 {
            old(ends)@.drop_last().push(entry)
        } else {
            old(ends)@.push(entry)
        },
{
    let n = ends.len();
    if n > 0 && ends[n - 1].0 == entry.0 {
        ends.pop();
        ends.push(entry);
    } else {
        ends.push(entry);
    }
}

/// Collapses each run of one date to its last entry.
pub fn collapse(entries: &Vec<(Date, usize)>) -> (ends: Vec<(Date, usize)>)
    ensures
        ends@ == collapsed(entries@),
{
    let mut ends: Vec<(Date, usize)> = Vec::new();
    let mut i: usize = 0;
    assert(entries@.take(0) =~= Seq::<(Date, usize)>::empty());
    while i < entries.len()
        invariant
            i <= entries.len(),
            ends@ == collapsed(entries@.take(i as int)),
        decreases entries.len() - i,
    {
        assert(entries@.take(i + 1).drop_last() =~= entries@.take(i as int));
        assert(entries@.take(i + 1).last() == entries@[i as int]);
        keep_last(&mut ends, entries[i]);
        i = i + 1;
    }
    assert(entries@.take(i as int) =~= entries@);
    ends
}

/// Reads one line of the tool's answer.
pub fn parse_listed_entry(line: &str) -> (r: Option<(Date, usize)>)
    ensures
        r == listed_entry(line@),
        r matches Some(entry) ==> entry.0.valid(),
{
    let chars = to_chars(line);
    let first = find_field_end(&chars, 0);
    if first >= chars.len() {
        return None;
    }
    let second = find_field_end(&chars, first + 1);
    let date_text = text_of(&chars, 0, first);
    let date = Date::parse_with(date_text.as_str(), "%Y/%m/%d");
    let offset = parse_unsigned_in(&chars, first + 1, second);
    match (date, offset) {
        (Some(date), Some(offset)) => Some((date, offset)),
        _ => None,
    }
}

/// The entries that the lines stand for, where every line stands for one.
pub open spec fn listed_entries(lines: Seq<Seq<char>>) -> Seq<(Date, usize)> {
    lines.map_values(|line: Seq<char>| listed_entry(line)->0)
}

/// Reads the tool's list of entries, which gives for each one its date
/// and the offset at which it ends, sorted by date, and keeps for each
/// date the last entry. The first line that is malformed or out of order
/// is reported.
pub fn date_end_positions(lines: &Vec<String>) -> (r: Result<Vec<(Date, usize)>, OutputError>)
    ensures
        match r {
            Ok(ends) => {
                &&& forall|k: int|
                    0 <= k < lines@.len() ==> listed_entry(#[trigger] lines@[k]@) is Some
                &&& dates_sorted(listed_entries(strings_of(lines@)))
                &&& ends@ == collapsed(listed_entries(strings_of(lines@)))
                &&& dates_ascend(ends@)
                &&& dates_sorted(ends@)
            },
            Err(OutputError::Malformed(k)) => {
                &&& k < lines@.len()
                &&& listed_entry(lines@[k as int]@) is None
                &&& forall|j: int| 0 <= j < k ==> listed_entry(#[trigger] lines@[j]@) is Some
                &&& dates_sorted(listed_entries(strings_of(lines@).take(k as int)))
            },
            Err(OutputError::OutOfOrder(k)) => {
                &&& 0 < k < lines@.len()
                &&& forall|j: int| 0 <= j <= k ==> listed_entry(#[trigger] lines@[j]@) is Some
                &&& dates_sorted(listed_entries(strings_of(lines@).take(k as int)))
                &&& listed_date(lines@[k as int]@).before(listed_date(lines@[k - 1]@))
            },
            Err(OutputError::NotUtf8) => false,
        },
{
    let ghost all = strings_of(lines@);
    let mut ends: Vec<(Date, usize)> = Vec::new();
    let mut previous: Option<Date> = None;
    let mut i: usize = 0;
    assert(listed_entries(all.take(0)) =~= Seq::<(Date, usize)>::empty());
    while i < lines.len()
        invariant
            i <= lines.len(),
            all == strings_of(lines@),
            forall|j: int| 0 <= j < i ==> listed_entry(#[trigger] lines@[j]@) is Some,
            dates_sorted(listed_entries(all.take(i as int))),
            ends@ == collapsed(listed_entries(all.take(i as int))),
            match previous {
                Some(date) => i > 0 && date == listed_date(lines@[i - 1]@),
                None => i == 0,
            },
        decreases lines.len() - i,
    {
        let ghost seen = listed_entries(all.take(i as int));
        let ghost now = listed_entries(all.take(i + 1));
        let entry = match parse_listed_entry(lines[i].as_str()) {
            Some(entry) => entry,
            None => {
                return Err(OutputError::Malformed(i));
            },
        };
        match previous {
            Some(date) => {
                match entry.0.compare(&date) {
                    Order::Before => {
                        return Err(OutputError::OutOfOrder(i));
                    },
                    _ => {},
                }
            },
            None => {},
        }
        proof {
            assert(now.drop_last() =~= seen);
            assert(now.last() == entry);
            assert forall|a: int, b: int| 0 <= a < b < now.len() implies !(#[trigger] now[b]).0.before(
                (#[trigger] now[a]).0,
            ) by {
                if b < now.len() - 1 {
                    assert(now[a] == seen[a] && now[b] == seen[b]);
                } else {
                    assert(now[a] == seen[a]);
                    assert(!seen[seen.len() - 1].0.before(seen[a].0) || a == seen.len() - 1);
                    assert(seen[seen.len() - 1].0 == listed_date(lines@[i - 1]@));
                }
            }
        }
        keep_last(&mut ends, entry);
        previous = Some(entry.0);
        i = i + 1;
    }
    proof {
        assert(all.take(i as int) =~= all);
        lemma_collapsed_ascends(listed_entries(all));
    }
    Ok(ends)
}

/// No entry ends before one that stands earlier in the list.
pub open spec fn ends_sorted(entries: Seq<(Date, usize)>) -> bool {
    forall|i: int, j: int|
        0 <= i < j < entries.len() ==> (#[trigger] entries[i]).1 <= (#[trigger] entries[j]).1
}

/// Every entry ends within the first `len` bytes.
pub open spec fn ends_within(entries: Seq<(Date, usize)>, len: int) -> bool {
    forall|i: int| 0 <= i < entries.len() ==> (#[trigger] entries[i]).1 <= len
}

/// The number of entries that are not dated after the date, in a list
/// sorted by date: those of the longest beginning of the list that ends
/// in such an entry.
pub open spec fn rank(entries: Seq<(Date, usize)>, date: Date) -> int
    decreases entries.len(),
{
    if entries.len() == 0 {
        0
    } else if date.before(entries.last().0) {
        rank(entries.drop_last(), date)
    } else {
        entries.len() as int
    }
}

/// The rank in a list whose first `k` entries are those not dated after
/// the date.
pub proof fn lemma_rank_at(entries: Seq<(Date, usize)>, date: Date, k: int)
    requires
        0 <= k <= entries.len(),
        forall|i: int| 0 <= i < k ==> !date.before((#[trigger] entries[i]).0),
        forall|i: int| k <= i < entries.len() ==> date.before((#[trigger] entries[i]).0),
    ensures
        rank(entries, date) == k,
    decreases entries.len(),
{
    if entries.len() > k {
        let rest = entries.drop_last();
        assert(date.before(entries[entries.len() - 1].0));
        assert forall|i: int| 0 <= i < k implies !date.before((#[trigger] rest[i]).0) by {
            assert(rest[i] == entries[i]);
        }
        assert forall|i: int| k <= i < rest.len() implies date.before((#[trigger] rest[i]).0) by {
            assert(rest[i] == entries[i]);
        }
        lemma_rank_at(rest, date, k);
    } else if k > 0 {
        assert(!date.before(entries[k - 1].0));
    }
}

/// The entries with every offset moved on by `by` bytes.
pub open spec fn shifted(entries: Seq<(Date, usize)>, by: int) -> Seq<(Date, usize)> {
    entries.map_values(|e: (Date, usize)| (e.0, (e.1 + by) as usize))
}

/// The entries of a file after a transaction's text was put in: those not
/// dated after it as they were, then the new one, which ends where its
/// text ends, then the later ones, moved on by what was put in.
pub open spec fn listed_after_insert(
    entries: Seq<(Date, usize)>,
    file: Seq<u8>,
    date: Date,
    text: Seq<u8>,
) -> Seq<(Date, usize)> {
    let k = rank(entries, date);
    let at = insertion_point(entries, date);
    let end = text_start(file, at) + text.len();
    let grown = spliced(file, at, text).len() - file.len();
    entries.take(k) + seq![(date, end as usize)] + shifted(entries.skip(k), grown)
}

/// A journal held in memory: the bytes of the file and, for each of its
/// entries in the order of the file, the date and the offset at which the
/// entry ends.
pub struct Journal {
    pub bytes: Vec<u8>,
    pub entries: Vec<(Date, usize)>,
}

impl Journal {
    /// The entries stand in the order of their dates and of their
    /// offsets, and end within the file.
    pub open spec fn wf(&self) -> bool {
        &&& dates_sorted(self.entries@)
        &&& ends_sorted(self.entries@)
        &&& ends_within(self.entries@, self.bytes@.len() as int)
    }

    /// An empty journal.
    pub fn new() -> (journal: Journal)
        ensures
            journal.wf(),
            journal.bytes@.len() == 0,
            journal.entries@.len() == 0,
    {
        Journal { bytes: Vec::new(), entries: Vec::new() }
    }

    /// For each date of the journal the offset at which its last entry
    /// ends, in the order of the dates.
    pub fn date_offsets(&self) -> (ends: Vec<(Date, usize)>)
        requires
            self.wf(),
        ensures
            ends@ == collapsed(self.entries@),
            dates_ascend(ends@),
            dates_sorted(ends@),
    {
        proof {
            lemma_collapsed_ascends(self.entries@);
        }
        collapse(&self.entries)
    }

    /// Puts the text of a transaction into the journal with `insert`.
    /// The entries stay in the order of their dates: the new one stands
    /// behind every entry that is not dated after it, so behind an
    /// earlier one of its own date, and before every later one.
    pub fn insert(&mut self, date: Date, text: &str)
        requires
            old(self).wf(),
        ensures
            final(self).wf(),
            final(self).bytes@ == spliced(
                old(self).bytes@,
                insertion_point(old(self).entries@, date),
                encode_utf8(text@),
            ),
            final(self).entries@ == listed_after_insert(
                old(self).entries@,
                old(self).bytes@,
                date,
                encode_utf8(text@),
            ),
            final(self).entries@.len() == old(self).entries@.len() + 1,
            ({
                let k = rank(old(self).entries@, date);
                let end = final(self).entries@[k].1 as int;
                &&& 0 <= k <= old(self).entries@.len()
                &&& final(self).entries@[k].0 == date
                &&& encode_utf8(text@).len() <= end <= final(self).bytes@.len()
                &&& final(self).bytes@.subrange(end - encode_utf8(text@).len(), end)
                    == encode_utf8(text@)
                &&& forall|i: int|
                    0 <= i < k ==> (#[trigger] final(self).entries@[i]) == old(self).entries@[i]
                        && !date.before(final(self).entries@[i].0) && final(self).entries@[i].1
                        <= end - encode_utf8(text@).len()
                &&& forall|i: int|
                    k < i < final(self).entries@.len() ==> date.before(
                        (#[trigger] final(self).entries@[i]).0,
                    ) && final(self).entries@[i].1 >= end
                &&& insertion_point(final(self).entries@, date) == end
            }),
    {
        let ghost file = self.bytes@;
        let ghost entries = self.entries@;
        let ghost content = encode_utf8(text@);
        let offsets = self.date_offsets();
        let k = count_not_after(&self.entries, date);
        let at = get_pos_for_date(&offsets, date);
        proof {
            lemma_collapsed_keeps_insertion_point(entries, date);
            lemma_insertion_point_at(entries, date, k as int);
            lemma_rank_at(entries, date, k as int);
            lemma_spliced_holds_text(file, at as int, content);
        }
        let content_bytes = text.as_bytes();
        let out = splice(self.bytes.as_slice(), at, content_bytes);
        let out_len: usize = out.len();
        proof {
            assert(out_len == out@.len());
            let before = file.subrange(0, at as int);
            let after = file.subrange(at as int, file.len() as int);
            assert(out@.len() == before.len() + gap_before(before, after).len() + content.len()
                + gap_after(after).len() + after.len());
            assert(content_bytes@ == content);
        }
        let start = text_start_in(self.bytes.as_slice(), at);
        let end: usize = start + content_bytes.len();
        let grown: usize = out_len - self.bytes.len();
        let mut listed: Vec<(Date, usize)> = Vec::new();
        let mut i: usize = 0;
        while i < k
            invariant
                i <= k <= self.entries.len(),
                entries == self.entries@,
                listed@ == entries.take(i as int),
            decreases k - i,
        {
            listed.push(self.entries[i]);
            assert(listed@ =~= entries.take(i + 1));
            i = i + 1;
        }
        listed.push((date, end));
        let ghost head = entries.take(k as int) + seq![(date, end)];
        assert(listed@ =~= head);
        assert(shifted(entries.skip(k as int), grown as int).take(0) =~= Seq::<
            (Date, usize),
        >::empty());
        while i < self.entries.len()
            invariant
                k <= i <= self.entries.len(),
                entries == self.entries@,
                self.wf(),
                file == self.bytes@,
                file.len() + grown <= usize::MAX,
                head == entries.take(k as int) + seq![(date, end)],
                listed@ == head + shifted(entries.skip(k as int), grown as int).take(i - k),
            decreases self.entries.len() - i,
        {
            let entry = self.entries[i];
            assert(entry.1 <= file.len());
            listed.push((entry.0, entry.1 + grown));
            assert(listed@ =~= head + shifted(entries.skip(k as int), grown as int).take(
                i - k + 1,
            ));
            i = i + 1;
        }
        proof {
            let tail = shifted(entries.skip(k as int), grown as int);
            assert(tail.take(i - k) =~= tail);
            let now = listed@;
            assert forall|a: int| 0 <= a < now.len() implies (#[trigger] now[a]).1 <= out@.len() by {
                if a > k {
                    assert(now[a] == tail[a - k - 1]);
                    assert(entries.skip(k as int)[a - k - 1] == entries[a - 1]);
                } else if a < k {
                    assert(now[a] == entries[a]);
                }
            }
            assert forall|a: int, b: int| 0 <= a < b < now.len() implies !(#[trigger] now[b]).0.before(
                (#[trigger] now[a]).0,
            ) && now[a].1 <= now[b].1 by {
                if a < k {
                    assert(now[a] == entries[a]);
                    assert(k > 0 ==> entries[a].1 <= entries[k - 1].1);
                }
                if b < k {
                    assert(now[b] == entries[b]);
                }
                if a > k {
                    assert(now[a] == tail[a - k - 1]);
                    assert(entries.skip(k as int)[a - k - 1] == entries[a - 1]);
                }
                if b > k {
                    assert(now[b] == tail[b - k - 1]);
                    assert(entries.skip(k as int)[b - k - 1] == entries[b - 1]);
                    assert(k > 0 ==> entries[k - 1].1 <= entries[b - 1].1);
                    if a < k {
                        assert(!entries[b - 1].0.before(entries[a].0));
                    }
                }
            }
            assert forall|a: int| k < a < now.len() implies date.before((#[trigger] now[a]).0)
                && now[a].1 >= end by {
                assert(now[a] == tail[a - k - 1]);
                assert(entries.skip(k as int)[a - k - 1] == entries[a - 1]);
                assert(k > 0 ==> entries[k - 1].1 <= entries[a - 1].1);
            }
            assert forall|a: int| 0 <= a < k implies (#[trigger] now[a]) == entries[a]
                && !date.before(now[a].0) && now[a].1 <= end - content.len() by {
                assert(now[a] == entries[a]);
                assert(entries[a].1 <= entries[k - 1].1);
            }
            assert(now[k as int] == (date, end));
            lemma_insertion_point_at(now, date, k + 1);
        }
        self.bytes = out;
        self.entries = listed;
    }
}

/// Behind a transaction that was put into a journal, a second one of the
/// same date goes where the first one ends: what arrives later for a date
/// stands later in the file.
pub proof fn lemma_same_date_goes_behind(
    entries: Seq<(Date, usize)>,
    file: Seq<u8>,
    date: Date,
    text: Seq<u8>,
)
    requires
        dates_sorted(entries),
        ends_sorted(entries),
        ends_within(entries, file.len() as int),
        spliced(file, insertion_point(entries, date), text).len() <= usize::MAX,
    ensures
        insertion_point(listed_after_insert(entries, file, date, text), date) == text_start(
            file,
            insertion_point(entries, date),
        ) + text.len(),
{
    let k = rank(entries, date);
    let now = listed_after_insert(entries, file, date, text);
    lemma_rank_bounds(entries, date);
    lemma_insertion_point_at(entries, date, k);
    lemma_spliced_holds_text(file, insertion_point(entries, date), text);
    let grown = spliced(file, insertion_point(entries, date), text).len() - file.len();
    let tail = shifted(entries.skip(k), grown);
    assert forall|i: int| 0 <= i < k + 1 implies !date.before((#[trigger] now[i]).0) by {
        if i < k {
            assert(now[i] == entries[i]);
        }
    }
    assert forall|i: int| k + 1 <= i < now.len() implies date.before((#[trigger] now[i]).0) by {
        assert(now[i] == tail[i - k - 1]);
        assert(entries.skip(k)[i - k - 1] == entries[i - 1]);
    }
    lemma_insertion_point_at(now, date, k + 1);
}

/// In a list sorted by date, the entries before the rank are those not
/// dated after the date.
pub proof fn lemma_rank_bounds(entries: Seq<(Date, usize)>, date: Date)
    requires
        dates_sorted(entries),
    ensures
        0 <= rank(entries, date) <= entries.len(),
        forall|i: int| 0 <= i < rank(entries, date) ==> !date.before((#[trigger] entries[i]).0),
        forall|i: int|
            rank(entries, date) <= i < entries.len() ==> date.before((#[trigger] entries[i]).0),
    decreases entries.len(),
{
    if entries.len() > 0 {
        let rest = entries.drop_last();
        if date.before(entries.last().0) {
            assert forall|i: int, j: int| 0 <= i < j < rest.len() implies !(#[trigger] rest[j]).0.before(
                (#[trigger] rest[i]).0,
            ) by {
                assert(rest[i] == entries[i] && rest[j] == entries[j]);
            }
            lemma_rank_bounds(rest, date);
            assert forall|i: int| 0 <= i < rank(entries, date) implies !date.before(
                (#[trigger] entries[i]).0,
            ) by {
                assert(rest[i] == entries[i]);
            }
            assert forall|i: int| rank(entries, date) <= i < entries.len() implies date.before(
                (#[trigger] entries[i]).0,
            ) by {
                if i < rest.len() {
                    assert(rest[i] == entries[i]);
                }
            }
        } else {
            assert forall|i: int| 0 <= i < entries.len() implies !date.before(
                (#[trigger] entries[i]).0,
            ) by {
                if i < entries.len() - 1 {
                    assert(!entries[entries.len() - 1].0.before(entries[i].0));
                }
            }
        }
    }
}

} // verus!
