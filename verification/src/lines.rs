//! The line structure of a text, as mathematics over `Seq<char>`.
//!
//! A text is a sequence of characters cut into lines by line feeds. The line
//! feed belongs to the line it ends, so a text with `n` line feeds has
//! `n + 1` lines, the last of which may be empty.

use vstd::prelude::*;

verus! {

/// The character that ends a line.
pub open spec fn is_newline(c: char) -> bool {
    c == '\n'
}

/// How many line feeds `s` holds.
pub open spec fn newline_count(s: Seq<char>) -> nat
    decreases s.len(),
{
    if s.len() == 0 {
        0
    } else if is_newline(s.first()) {
        1 + newline_count(s.drop_first())
    } else {
        newline_count(s.drop_first())
    }
}

/// How many lines `s` has: one more than its line feeds, so never zero.
pub open spec fn line_count(s: Seq<char>) -> nat {
    newline_count(s) + 1
}

/// The index of the line that holds `offset`: the number of line feeds
/// before it.
pub open spec fn line_at(s: Seq<char>, offset: int) -> nat {
    newline_count(s.take(offset))
}

/// The offset of the first character of line `line`: zero for the first
/// line, one past the `line`-th line feed for a later one, and the length of
/// `s` once `line` is past the last line.
pub open spec fn line_start(s: Seq<char>, line: int) -> nat
    decreases s.len(),
{
    if line <= 0 || s.len() == 0 {
        0
    } else if is_newline(s.first()) {
        1 + line_start(s.drop_first(), line - 1)
    } else {
        1 + line_start(s.drop_first(), line)
    }
}

/// The offset at which line `line` ends: that of its line feed, or the
/// length of `s` for the last line.
pub open spec fn line_end(s: Seq<char>, line: int) -> int {
    if line + 1 < line_count(s) {
        line_start(s, line + 1) - 1
    } else {
        s.len() as int
    }
}

/// Line `line` as stored, its line feed included.
pub open spec fn line_with_break(s: Seq<char>, line: int) -> Seq<char> {
    s.subrange(line_start(s, line) as int, line_start(s, line + 1) as int)
}

/// The text of line `line`, without its line feed.
pub open spec fn line_text(s: Seq<char>, line: int) -> Seq<char> {
    s.subrange(line_start(s, line) as int, line_end(s, line))
}

/// One if `ch` is a line feed, else zero.
pub open spec fn newlines_in(ch: char) -> nat {
    if is_newline(ch) {
        1
    } else {
        0
    }
}

/// A text of one character holds one line feed or none.
pub proof fn lemma_newline_count_single(ch: char)
    ensures
        newline_count(seq![ch]) == newlines_in(ch),
{
    let one = seq![ch];
    assert(one.len() == 1 && one.first() == ch);
    assert(one.drop_first() =~= Seq::<char>::empty());
    assert(newline_count(one.drop_first()) == 0);
}

/// Line feeds add up over concatenation.
pub proof fn lemma_newline_count_concat(a: Seq<char>, b: Seq<char>)
    ensures
        newline_count(a + b) == newline_count(a) + newline_count(b),
    decreases a.len(),
{
    if a.len() == 0 {
        assert(a + b =~= b);
    } else {
        assert((a + b).drop_first() =~= a.drop_first() + b);
        lemma_newline_count_concat(a.drop_first(), b);
    }
}

/// A text without a line feed has none to count.
pub proof fn lemma_no_newline_count(s: Seq<char>)
    requires
        forall|i: int| 0 <= i < s.len() ==> !is_newline(#[trigger] s[i]),
    ensures
        newline_count(s) == 0,
    decreases s.len(),
{
    if s.len() > 0 {
        lemma_no_newline_count(s.drop_first());
    }
}

/// Stepping one character further counts that character if it is a line feed.
pub proof fn lemma_line_at_step(s: Seq<char>, offset: int)
    requires
        0 <= offset < s.len(),
    ensures
        line_at(s, offset + 1) == line_at(s, offset) + newlines_in(s[offset]),
{
    let one = seq![s[offset]];
    assert(s.take(offset + 1) =~= s.take(offset) + one);
    lemma_newline_count_concat(s.take(offset), one);
    lemma_newline_count_single(s[offset]);
}

/// A later offset lies on the same line or on a later one.
pub proof fn lemma_line_at_monotonic(s: Seq<char>, i: int, j: int)
    requires
        0 <= i <= j <= s.len(),
    ensures
        line_at(s, i) <= line_at(s, j),
        line_at(s, j) <= newline_count(s),
{
    assert(s.take(j) =~= s.take(i) + s.subrange(i, j));
    lemma_newline_count_concat(s.take(i), s.subrange(i, j));
    assert(s =~= s.take(j) + s.skip(j));
    lemma_newline_count_concat(s.take(j), s.skip(j));
}

/// Past the last line, `line_start` is the length of the text.
pub proof fn lemma_line_start_past_end(s: Seq<char>, line: int)
    requires
        line >= line_count(s),
    ensures
        line_start(s, line) == s.len(),
    decreases s.len(),
{
    if s.len() > 0 {
        if is_newline(s.first()) {
            lemma_line_start_past_end(s.drop_first(), line - 1);
        } else {
            lemma_line_start_past_end(s.drop_first(), line);
        }
    }
}

/// `offset` is where line `line` of `s` begins: exactly `line` line feeds
/// come before it, and it is the start of the text or follows a line feed.
pub open spec fn begins_line(s: Seq<char>, line: int, offset: int) -> bool {
    &&& 0 <= offset <= s.len()
    &&& line_at(s, offset) == line
    &&& offset == 0 || is_newline(s[offset - 1])
}

/// The start of an existing line begins that line.
pub proof fn lemma_line_start_begins_line(s: Seq<char>, line: int)
    requires
        0 <= line < line_count(s),
    ensures
        begins_line(s, line, line_start(s, line) as int),
    decreases s.len(),
{
    if line == 0 || s.len() == 0 {
        assert(s.take(0) =~= Seq::<char>::empty());
    } else {
        let rest = s.drop_first();
        let sub = if is_newline(s.first()) { line - 1 } else { line };
        lemma_line_start_begins_line(rest, sub);
        let inner = line_start(rest, sub) as int;
        assert(s.take(inner + 1).drop_first() =~= rest.take(inner));
        if inner == 0 {
            assert(rest.take(0) =~= Seq::<char>::empty());
        } else {
            assert(rest[inner - 1] == s[inner]);
        }
    }
}

/// At most one offset begins a given line, and `line_start` is that offset.
pub proof fn lemma_begins_line_unique(s: Seq<char>, line: int, offset: int)
    requires
        begins_line(s, line, offset),
    ensures
        line < line_count(s),
        line_start(s, line) == offset,
{
    lemma_line_at_monotonic(s, offset, s.len() as int);
    lemma_line_start_begins_line(s, line);
    let start = line_start(s, line) as int;
    if start < offset {
        lemma_line_at_step(s, offset - 1);
        lemma_line_at_monotonic(s, start, offset - 1);
    } else if offset < start {
        lemma_line_at_step(s, start - 1);
        lemma_line_at_monotonic(s, offset, start - 1);
    }
}

/// Lines begin in order: a later line begins at a later offset.
pub proof fn lemma_line_start_increasing(s: Seq<char>, i: int, j: int)
    requires
        0 <= i < j < line_count(s),
    ensures
        line_start(s, i) < line_start(s, j),
{
    lemma_line_start_begins_line(s, i);
    lemma_line_start_begins_line(s, j);
    let a = line_start(s, i) as int;
    let b = line_start(s, j) as int;
    if b <= a {
        lemma_line_at_monotonic(s, b, a);
    }
}

/// Lines begin in order, up to the one past the last: a line of greater or
/// equal number begins at a greater or equal offset.
pub proof fn lemma_line_start_increasing_or_same(s: Seq<char>, i: int, j: int)
    requires
        0 <= i <= j <= line_count(s),
    ensures
        line_start(s, i) <= line_start(s, j) <= s.len(),
{
    if j == line_count(s) {
        lemma_line_start_past_end(s, j);
        if i < j {
            lemma_line_start_begins_line(s, i);
        }
    } else {
        lemma_line_start_begins_line(s, j);
        if i < j {
            lemma_line_start_increasing(s, i, j);
        }
    }
}

/// An existing line begins no later than it ends, its end lies within the
/// text, and a line that is not the last ends at a line feed.
pub proof fn lemma_line_bounds(s: Seq<char>, line: int)
    requires
        0 <= line < line_count(s),
    ensures
        line_start(s, line) <= line_end(s, line) <= s.len(),
        line + 1 < line_count(s) ==> line_end(s, line) < s.len() && is_newline(s[line_end(s, line)]),
        line + 1 < line_count(s) ==> line_start(s, line + 1) == line_end(s, line) + 1,
        line + 1 == line_count(s) ==> line_start(s, line + 1) == line_end(s, line),
{
    lemma_line_start_begins_line(s, line);
    if line + 1 < line_count(s) {
        lemma_line_start_begins_line(s, line + 1);
        lemma_line_start_increasing(s, line, line + 1);
    } else {
        lemma_line_start_past_end(s, line + 1);
    }
}

/// Every offset from a line's start to its end lies on that line.
pub proof fn lemma_line_at_within_line(s: Seq<char>, line: int, offset: int)
    requires
        0 <= line < line_count(s),
        line_start(s, line) <= offset <= line_end(s, line),
    ensures
        line_at(s, offset) == line,
{
    lemma_line_bounds(s, line);
    lemma_line_start_begins_line(s, line);
    lemma_line_at_monotonic(s, line_start(s, line) as int, offset);
    if line + 1 < line_count(s) {
        lemma_line_start_begins_line(s, line + 1);
        lemma_line_at_step(s, line_end(s, line));
        lemma_line_at_monotonic(s, offset, line_end(s, line));
    } else {
        lemma_line_at_monotonic(s, offset, s.len() as int);
    }
}

/// Every offset of the text lies between the start and the end of the line
/// that holds it.
pub proof fn lemma_offset_within_its_line(s: Seq<char>, offset: int)
    requires
        0 <= offset <= s.len(),
    ensures
        line_at(s, offset) < line_count(s),
        line_start(s, line_at(s, offset) as int) <= offset <= line_end(s, line_at(s, offset) as int),
{
    let line = line_at(s, offset) as int;
    lemma_line_at_monotonic(s, offset, s.len() as int);
    lemma_line_start_begins_line(s, line);
    let start = line_start(s, line) as int;
    if offset < start {
        lemma_line_at_step(s, start - 1);
        lemma_line_at_monotonic(s, offset, start - 1);
    }
    if line + 1 < line_count(s) {
        lemma_line_start_begins_line(s, line + 1);
        let next = line_start(s, line + 1) as int;
        if next <= offset {
            lemma_line_at_monotonic(s, next, offset);
        }
    }
}

/// The text of a line holds no line feed.
pub proof fn lemma_line_text_has_no_newline(s: Seq<char>, line: int)
    requires
        0 <= line < line_count(s),
    ensures
        forall|i: int| 0 <= i < line_text(s, line).len() ==> !is_newline(#[trigger] line_text(s, line)[i]),
{
    lemma_line_bounds(s, line);
    let start = line_start(s, line) as int;
    assert forall|i: int| 0 <= i < line_text(s, line).len() implies !is_newline(
        #[trigger] line_text(s, line)[i],
    ) by {
        if is_newline(s[start + i]) {
            lemma_line_at_step(s, start + i);
            lemma_line_at_within_line(s, line, start + i);
            lemma_line_at_within_line(s, line, start + i + 1);
        }
    }
}

/// A line as stored is its text, followed by a line feed unless it is the
/// last line.
pub proof fn lemma_line_with_break(s: Seq<char>, line: int)
    requires
        0 <= line < line_count(s),
    ensures
        line + 1 < line_count(s) ==> line_with_break(s, line) == line_text(s, line).push('\n'),
        line + 1 == line_count(s) ==> line_with_break(s, line) == line_text(s, line),
{
    lemma_line_bounds(s, line);
    if line + 1 < line_count(s) {
        assert(line_with_break(s, line) =~= line_text(s, line).push('\n'));
    }
}

} // verus!
