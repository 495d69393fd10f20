//! What the insertion of one character does to a text and to its lines.
//!
//! `Document::insert` and `insert_char` turn a text `s` into
//! `s.insert(offset, ch)`. The lemmas here say what that means for the
//! characters, for the number of lines, and for the text of each line.

use crate::lines::{
    begins_line, is_newline, lemma_begins_line_unique, lemma_line_at_monotonic,
    lemma_line_at_step, lemma_line_at_within_line, lemma_line_bounds,
    lemma_line_start_begins_line, lemma_line_start_increasing_or_same,
    lemma_line_start_past_end, lemma_newline_count_concat, lemma_newline_count_single, line_at,
    line_count, line_end, line_start, line_text, line_with_break, newlines_in,
};
use vstd::prelude::*;

verus! {

/// Inserting a character raises the number of lines by one if it is a line
/// feed, and leaves it as it is if not.
pub proof fn lemma_insert_line_count(s: Seq<char>, offset: int, ch: char)
    requires
        0 <= offset <= s.len(),
    ensures
        line_count(s.insert(offset, ch)) == line_count(s) + newlines_in(ch),
{
    let one = seq![ch];
    assert(s.insert(offset, ch) =~= s.take(offset) + one + s.skip(offset));
    assert(s =~= s.take(offset) + s.skip(offset));
    lemma_newline_count_single(ch);
    lemma_newline_count_concat(s.take(offset), one);
    lemma_newline_count_concat(s.take(offset) + one, s.skip(offset));
    lemma_newline_count_concat(s.take(offset), s.skip(offset));
}

/// After an insertion at `offset`, a position up to `offset` has the line
/// feeds before it that it had, and a later one has those of the position one
/// to its left, and the inserted character if that is a line feed.
pub proof fn lemma_insert_line_at(s: Seq<char>, offset: int, ch: char, i: int)
    requires
        0 <= offset <= s.len(),
        0 <= i <= s.len() + 1,
    ensures
        i <= offset ==> line_at(s.insert(offset, ch), i) == line_at(s, i),
        i > offset ==> line_at(s.insert(offset, ch), i) == line_at(s, i - 1) + newlines_in(ch),
{
    let t = s.insert(offset, ch);
    if i <= offset {
        assert(t.take(i) =~= s.take(i));
    } else {
        let one = seq![ch];
        let head = s.take(offset);
        let tail = s.subrange(offset, i - 1);
        assert(t.take(i) =~= head + one + tail);
        assert(s.take(i - 1) =~= head + tail);
        lemma_newline_count_single(ch);
        lemma_newline_count_concat(head, one);
        lemma_newline_count_concat(head + one, tail);
        lemma_newline_count_concat(head, tail);
    }
}

/// A line that begins at or before the point of insertion begins where it
/// did.
pub proof fn lemma_insert_keeps_earlier_line_starts(s: Seq<char>, offset: int, ch: char, line: int)
    requires
        0 <= offset <= s.len(),
        0 <= line <= line_at(s, offset),
    ensures
        line_start(s.insert(offset, ch), line) == line_start(s, line),
{
    let t = s.insert(offset, ch);
    lemma_line_at_monotonic(s, offset, s.len() as int);
    lemma_line_start_begins_line(s, line);
    let start = line_start(s, line) as int;
    if start > offset {
        lemma_line_at_step(s, start - 1);
        lemma_line_at_monotonic(s, offset, start - 1);
    }
    lemma_insert_line_at(s, offset, ch, start);
    assert(begins_line(t, line, start));
    lemma_begins_line_unique(t, line, start);
}

/// A line that begins after the point of insertion begins one character
/// later, and is the next line by number if a line feed was inserted.
pub proof fn lemma_insert_shifts_later_line_starts(s: Seq<char>, offset: int, ch: char, line: int)
    requires
        0 <= offset <= s.len(),
        line_at(s, offset) < line <= line_count(s),
    ensures
        line_start(s.insert(offset, ch), line + newlines_in(ch)) == line_start(s, line) + 1,
{
    let t = s.insert(offset, ch);
    lemma_insert_line_count(s, offset, ch);
    if line == line_count(s) {
        lemma_line_start_past_end(s, line);
        lemma_line_start_past_end(t, line + newlines_in(ch));
    } else {
        lemma_line_start_begins_line(s, line);
        let start = line_start(s, line) as int;
        if start <= offset {
            lemma_line_at_monotonic(s, start, offset);
        }
        lemma_insert_line_at(s, offset, ch, start + 1);
        assert(t[start] == s[start - 1]);
        assert(begins_line(t, line + newlines_in(ch), start + 1));
        lemma_begins_line_unique(t, line + newlines_in(ch), start + 1);
    }
}

/// A line feed inserted at `offset` begins a line right after itself.
pub proof fn lemma_insert_newline_begins_line(s: Seq<char>, offset: int)
    requires
        0 <= offset <= s.len(),
    ensures
        line_start(s.insert(offset, '\n'), line_at(s, offset) as int + 1) == offset + 1,
{
    let t = s.insert(offset, '\n');
    lemma_insert_line_at(s, offset, '\n', offset + 1);
    assert(t[offset] == '\n');
    assert(begins_line(t, line_at(s, offset) as int + 1, offset + 1));
    lemma_begins_line_unique(t, line_at(s, offset) as int + 1, offset + 1);
}

/// Inserting a character at a valid offset makes the text one character
/// longer, leaves every character before the offset where it was, puts the
/// new character at the offset, and moves every character from the offset on
/// one place to the right. Unless the character is a line feed, the number
/// of lines stays the same.
pub proof fn lemma_insert_shifts_characters(s: Seq<char>, offset: int, ch: char)
    requires
        0 <= offset <= s.len(),
    ensures
        s.insert(offset, ch).len() == s.len() + 1,
        forall|i: int| 0 <= i < offset ==> s.insert(offset, ch)[i] == s[i],
        s.insert(offset, ch)[offset] == ch,
        forall|i: int| offset <= i < s.len() ==> s.insert(offset, ch)[i + 1] == s[i],
        !is_newline(ch) ==> line_count(s.insert(offset, ch)) == line_count(s),
{
    lemma_insert_line_count(s, offset, ch);
}

/// Inserting a line feed at an offset within line `line`, from its start to
/// its end, splits that line in two at the offset. The document has one line
/// more; the part of the line before the offset is now line `line` and the
/// part from the offset on is line `line + 1`, so that the two together are
/// the text the line had; as stored, the two are the line as it was stored
/// with the line feed put in. Earlier lines keep their number and text,
/// later lines keep their text under the next number.
pub proof fn lemma_insert_newline_splits_line(s: Seq<char>, line: int, offset: int)
    requires
        0 <= line < line_count(s),
        line_start(s, line) <= offset <= line_end(s, line),
    ensures
        line_count(s.insert(offset, '\n')) == line_count(s) + 1,
        line_text(s.insert(offset, '\n'), line) == line_text(s, line).take(
            offset - line_start(s, line),
        ),
        line_text(s.insert(offset, '\n'), line + 1) == line_text(s, line).skip(
            offset - line_start(s, line),
        ),
        line_text(s.insert(offset, '\n'), line) + line_text(s.insert(offset, '\n'), line + 1)
            == line_text(s, line),
        line_with_break(s.insert(offset, '\n'), line) + line_with_break(
            s.insert(offset, '\n'),
            line + 1,
        ) == line_with_break(s, line).insert(offset - line_start(s, line), '\n'),
        forall|other: int|
            0 <= other < line ==> line_text(s.insert(offset, '\n'), other) == line_text(s, other),
        forall|other: int|
            line < other < line_count(s) ==> line_text(s.insert(offset, '\n'), other + 1)
                == line_text(s, other),
{
    let t = s.insert(offset, '\n');
    let start = line_start(s, line) as int;
    let end = line_end(s, line);
    lemma_line_bounds(s, line);
    lemma_line_at_within_line(s, line, offset);
    lemma_insert_line_count(s, offset, '\n');
    lemma_insert_keeps_earlier_line_starts(s, offset, '\n', line);
    lemma_insert_newline_begins_line(s, offset);
    lemma_insert_shifts_later_line_starts(s, offset, '\n', line + 1);
    assert(line_start(t, line) == start);
    assert(line_start(t, line + 1) == offset + 1);
    assert(line_start(t, line + 2) == end + 1 + if line + 1 < line_count(s) { 1int } else { 0int });
    assert(line_end(t, line) == offset);
    assert(line_end(t, line + 1) == end + 1);
    assert(line_text(t, line) =~= line_text(s, line).take(offset - start));
    assert(line_text(t, line + 1) =~= line_text(s, line).skip(offset - start));
    assert(line_text(s, line).take(offset - start) + line_text(s, line).skip(offset - start)
        =~= line_text(s, line));
    assert(line_with_break(t, line) + line_with_break(t, line + 1) =~= line_with_break(
        s,
        line,
    ).insert(offset - start, '\n'));
    assert forall|other: int| 0 <= other < line implies line_text(t, other) == line_text(
        s,
        other,
    ) by {
        lemma_line_bounds(s, other);
        lemma_line_start_begins_line(s, other + 1);
        if other + 1 < line {
            lemma_line_start_increasing_or_same(s, other + 1, line);
        }
        lemma_insert_keeps_earlier_line_starts(s, offset, '\n', other);
        lemma_insert_keeps_earlier_line_starts(s, offset, '\n', other + 1);
        assert(line_text(t, other) =~= line_text(s, other));
    }
    assert forall|other: int| line < other < line_count(s) implies line_text(t, other + 1)
        == line_text(s, other) by {
        lemma_line_bounds(s, other);
        lemma_line_start_increasing_or_same(s, line + 1, other);
        lemma_insert_shifts_later_line_starts(s, offset, '\n', other);
        lemma_insert_shifts_later_line_starts(s, offset, '\n', other + 1);
        assert(line_text(t, other + 1) =~= line_text(s, other));
    }
}

/// Inserting a character other than a line feed at an offset within line
/// `line`, from its start to its end, puts the character into the text of
/// that line and changes neither the number of lines nor the text of any
/// other line.
pub proof fn lemma_insert_char_changes_one_line(s: Seq<char>, line: int, offset: int, ch: char)
    requires
        0 <= line < line_count(s),
        line_start(s, line) <= offset <= line_end(s, line),
        !is_newline(ch),
    ensures
        line_count(s.insert(offset, ch)) == line_count(s),
        line_text(s.insert(offset, ch), line) == line_text(s, line).insert(
            offset - line_start(s, line),
            ch,
        ),
        forall|other: int|
            0 <= other < line_count(s) && other != line ==> line_text(s.insert(offset, ch), other)
                == line_text(s, other),
{
    let t = s.insert(offset, ch);
    let start = line_start(s, line) as int;
    lemma_line_bounds(s, line);
    lemma_line_at_within_line(s, line, offset);
    lemma_insert_line_count(s, offset, ch);
    lemma_insert_keeps_earlier_line_starts(s, offset, ch, line);
    lemma_insert_shifts_later_line_starts(s, offset, ch, line + 1);
    assert(line_end(t, line) == line_end(s, line) + 1);
    assert(line_text(t, line) =~= line_text(s, line).insert(offset - start, ch));
    assert forall|other: int| 0 <= other < line_count(s) && other != line implies line_text(
        t,
        other,
    ) == line_text(s, other) by {
        lemma_line_bounds(s, other);
        if other < line {
            lemma_line_start_begins_line(s, other + 1);
            lemma_line_start_increasing_or_same(s, other + 1, line);
            lemma_insert_keeps_earlier_line_starts(s, offset, ch, other);
            lemma_insert_keeps_earlier_line_starts(s, offset, ch, other + 1);
        } else {
            lemma_line_start_increasing_or_same(s, line + 1, other);
            lemma_insert_shifts_later_line_starts(s, offset, ch, other);
            lemma_insert_shifts_later_line_starts(s, offset, ch, other + 1);
        }
        assert(line_text(t, other) =~= line_text(s, other));
    }
}

} // verus!
