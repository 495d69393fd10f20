//! The two operations an editor front end needs: typing a character at a
//! line and column, and reading the lines that are on screen.

use crate::document::{BufferError, Document, Unit};
use crate::lines::{
    is_newline, lemma_line_text_has_no_newline, line_count, line_start, line_text,
};
use vstd::prelude::*;

verus! {

/// A snapshot of the lines of a document that a viewport shows.
#[derive(Clone, Debug, PartialEq, Eq)]
pub struct ViewportLines {
    /// The first line that was asked for.
    pub start_line: usize,
    /// The text of each line shown, in order, without line feeds.
    pub lines: Vec<String>,
    /// The number of lines the document had when the snapshot was taken.
    pub total_lines: usize,
}

/// A `ViewportLines` as mathematics.
pub struct ViewportModel {
    /// The first line that was asked for.
    pub start_line: nat,
    /// The characters of each line shown, in order.
    pub lines: Seq<Seq<char>>,
    /// The number of lines of the document.
    pub total_lines: nat,
}

impl View for ViewportLines {
    type V = ViewportModel;

    open spec fn view(&self) -> ViewportModel {
        ViewportModel {
            start_line: self.start_line as nat,
            lines: Seq::new(self.lines@.len(), |i: int| self.lines@[i]@),
            total_lines: self.total_lines as nat,
        }
    }
}

/// How many lines a viewport of `height` lines that starts at `start_line`
/// shows of a document of `total_lines` lines: all of `height` where the
/// document reaches that far, what is left of the document where it does not,
/// and none from the end of the document on.
pub open spec fn viewport_len(total_lines: nat, start_line: nat, height: nat) -> nat {
    if start_line >= total_lines {
        0
    } else if start_line + height > total_lines {
        (total_lines - start_line) as nat
    } else {
        height
    }
}

/// The viewport of `height` lines that starts at `start_line` of the text `s`.
pub open spec fn viewport_of(s: Seq<char>, start_line: nat, height: nat) -> ViewportModel {
    ViewportModel {
        start_line,
        lines: Seq::new(
            viewport_len(line_count(s), start_line, height),
            |i: int| line_text(s, start_line + i),
        ),
        total_lines: line_count(s),
    }
}

/// Whether a character may be inserted at column `col` of line `line`: the
/// line exists or is the one just past the last, and the column, counted on
/// from the start of the line, does not pass the end of the text. A column
/// beyond the end of its line is in bounds and lands on a later line.
pub open spec fn position_in_bounds(s: Seq<char>, line: nat, col: nat) -> bool {
    line <= line_count(s) && line_start(s, line as int) + col <= s.len()
}

/// The character offset of column `col` of line `line`.
pub open spec fn position_offset(s: Seq<char>, line: nat, col: nat) -> nat {
    line_start(s, line as int) + col
}

/// What `insert_char` reports for a position that is out of bounds: the line
/// against the number of lines where the line is too great, else the offset
/// against the number of characters. An offset too great for `usize` is
/// reported as `usize::MAX`.
pub open spec fn position_error(s: Seq<char>, line: usize, col: usize) -> BufferError {
    if line > line_count(s) {
        BufferError::OutOfBounds { unit: Unit::Lines, index: line, bound: line_count(s) as usize }
    } else if position_offset(s, line as nat, col as nat) > usize::MAX {
        BufferError::OutOfBounds { unit: Unit::Chars, index: usize::MAX, bound: s.len() as usize }
    } else {
        BufferError::OutOfBounds {
            unit: Unit::Chars,
            index: position_offset(s, line as nat, col as nat) as usize,
            bound: s.len() as usize,
        }
    }
}

/// Inserts `ch` at column `col_idx` of line `line_idx`, both counted from
/// zero. A position out of bounds is refused and the document stays as it
/// was.
pub fn insert_char(
    doc: &mut Document,
    ch: char,
    line_idx: usize,
    col_idx: usize,
) -> (res: Result<(), BufferError>)
    ensures
        match res {
            Ok(()) => {
                &&& position_in_bounds(old(doc)@, line_idx as nat, col_idx as nat)
                &&& final(doc)@ == old(doc)@.insert(
                    position_offset(old(doc)@, line_idx as nat, col_idx as nat) as int,
                    ch,
                )
                &&& final(doc)@.len() == old(doc)@.len() + 1
            },
            Err(error) => {
                &&& !position_in_bounds(old(doc)@, line_idx as nat, col_idx as nat)
                &&& final(doc)@ == old(doc)@
                &&& error == position_error(old(doc)@, line_idx, col_idx)
            },
        },
{
    let total_lines = doc.len_lines();
    if line_idx > total_lines {
        return Err(
            BufferError::OutOfBounds { unit: Unit::Lines, index: line_idx, bound: total_lines },
        );
    }
    let total_chars = doc.len_chars();
    match doc.line_to_char(line_idx).checked_add(col_idx) {
        Some(offset) => doc.insert(offset, ch),
        None => Err(
            BufferError::OutOfBounds { unit: Unit::Chars, index: usize::MAX, bound: total_chars },
        ),
    }
}

/// The lines from `start_line` on that a viewport of `height` lines shows,
/// with the number of lines of the whole document. A viewport that reaches
/// past the last line shows the lines there are; one that starts past it
/// shows none.
pub fn get_viewport(doc: &Document, start_line: usize, height: usize) -> (viewport: ViewportLines)
    ensures
        viewport@ == viewport_of(doc@, start_line as nat, height as nat),
        viewport.start_line == start_line,
        viewport.total_lines == line_count(doc@),
        viewport.lines@.len() == viewport_len(line_count(doc@), start_line as nat, height as nat),
        forall|i: int, j: int|
            0 <= i < viewport.lines@.len() && 0 <= j < viewport.lines@[i]@.len() ==> !is_newline(
                #[trigger] viewport.lines@[i]@[j],
            ),
{
    let total_lines = doc.len_lines();
    let reach = start_line.saturating_add(height);
    let end_line = if reach < total_lines {
        reach
    } else {
        total_lines
    };
    let mut lines: Vec<String> = Vec::new();
    let mut line = start_line;
    while line < end_line
        invariant
            total_lines == line_count(doc@),
            end_line <= total_lines,
            start_line <= line,
            line <= end_line || line == start_line,
            lines@.len() == line - start_line,
            forall|i: int|
                0 <= i < lines@.len() ==> (#[trigger] lines@[i])@ == line_text(doc@, start_line + i),
        decreases end_line - line,
    {
        lines.push(doc.existing_line_text(line));
        line = line + 1;
    }
    let viewport = ViewportLines { start_line, lines, total_lines };
    proof {
        assert(viewport@.lines =~= viewport_of(doc@, start_line as nat, height as nat).lines);
        assert forall|i: int, j: int|
            0 <= i < viewport.lines@.len() && 0 <= j < viewport.lines@[i]@.len() implies !is_newline(
            #[trigger] viewport.lines@[i]@[j],
        ) by {
            lemma_line_text_has_no_newline(doc@, start_line + i);
        }
    }
    viewport
}

} // verus!
