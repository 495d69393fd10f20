//! The document: one mutable text, stored in a rope.

use crate::lines::{
    is_newline, lemma_line_text_has_no_newline, lemma_line_with_break, lemma_newline_count_concat,
    lemma_newline_count_single, lemma_no_newline_count, line_count, line_start, line_text,
};
use crate::rope::{ends_with_char, rope_line, rope_text, rope_to_string};
use ropey::Rope;
use vstd::prelude::*;

verus! {

/// What a position was counted in when it turned out to be out of bounds.
#[derive(Clone, Copy, Debug, PartialEq, Eq, Structural)]
pub enum Unit {
    /// Characters from the start of the document.
    Chars,
    /// Lines from the start of the document.
    Lines,
}

/// Why the document refused an operation.
#[derive(Clone, Copy, Debug, PartialEq, Eq, Structural)]
pub enum BufferError {
    /// The position `index` is out of bounds for a document of `bound`
    /// characters or lines, whichever `unit` says.
    OutOfBounds { unit: Unit, index: usize, bound: usize },
}

/// The text a session starts with until it is given one of its own.
pub const PLACEHOLDER_TEXT: &'static str = "// Hidders Editor v0.1\n// Type here...";

/// The placeholder text is two lines.
pub proof fn lemma_placeholder_has_two_lines()
    ensures
        line_count(PLACEHOLDER_TEXT@) == 2,
{
    reveal_strlit("// Hidders Editor v0.1\n// Type here...");
    let s = PLACEHOLDER_TEXT@;
    let first = s.take(22);
    let second = s.skip(23);
    assert(s =~= first + seq!['\n'] + second);
    lemma_no_newline_count(first);
    lemma_no_newline_count(second);
    lemma_newline_count_concat(first, seq!['\n']);
    lemma_newline_count_concat(first + seq!['\n'], second);
    lemma_newline_count_single('\n');
}

/// A mutable text, addressed by character offset and by line.
///
/// The text lives in a rope, so finding a line, finding the offset at which
/// a line starts and inserting a character each take time logarithmic in the
/// length of the text, and copying a line out takes time linear in the
/// length of that line.
pub struct Document {
    rope: Rope,
}

impl View for Document {
    type V = Seq<char>;

    /// The characters of the document, in order.
    closed spec fn view(&self) -> Seq<char> {
        rope_text(self.rope)
    }
}

impl Document {
    /// A document that holds `text`.
    pub fn new(text: &str) -> (doc: Document)
        ensures
            doc@ == text@,
    {
        Document { rope: Rope::from_str(text) }
    }

    /// A document that holds the placeholder text, which has two lines.
    pub fn placeholder() -> (doc: Document)
        ensures
            doc@ == PLACEHOLDER_TEXT@,
            line_count(doc@) == 2,
    {
        proof {
            lemma_placeholder_has_two_lines();
        }
        Document::new(PLACEHOLDER_TEXT)
    }

    /// The number of characters.
    pub fn len_chars(&self) -> (n: usize)
        ensures
            n == self@.len(),
    {
        self.rope.len_chars()
    }

    /// The number of lines; at least one.
    pub fn len_lines(&self) -> (n: usize)
        ensures
            n == line_count(self@),
    {
        self.rope.len_lines()
    }

    /// Inserts `ch` in front of the character at `offset`, or at the end when
    /// `offset` is the number of characters. A greater offset is refused and
    /// the document stays as it was.
    pub fn insert(&mut self, offset: usize, ch: char) -> (res: Result<(), BufferError>)
        ensures
            match res {
                Ok(()) => {
                    &&& offset <= old(self)@.len()
                    &&& final(self)@ == old(self)@.insert(offset as int, ch)
                    &&& final(self)@.len() == old(self)@.len() + 1
                },
                Err(error) => {
                    &&& offset > old(self)@.len()
                    &&& final(self)@ == old(self)@
                    &&& error == (BufferError::OutOfBounds {
                        unit: Unit::Chars,
                        index: offset,
                        bound: old(self)@.len() as usize,
                    })
                },
            },
    {
        let len = self.rope.len_chars();
        if offset <= len {
            self.rope.insert_char(offset, ch);
            Ok(())
        } else {
            Err(BufferError::OutOfBounds { unit: Unit::Chars, index: offset, bound: len })
        }
    }

    /// The offset of the first character of `line`. One past the last line it
    /// is the number of characters, the position at which text is appended.
    pub fn line_to_char(&self, line: usize) -> (offset: usize)
        requires
            line <= line_count(self@),
        ensures
            offset == line_start(self@, line as int),
    {
        self.rope.line_to_char(line)
    }

    /// The text of `line` without its line feed. Requires the line to exist.
    pub(crate) fn existing_line_text(&self, line: usize) -> (text: String)
        requires
            line < line_count(self@),
        ensures
            text@ == line_text(self@, line as int),
    {
        let mut text = rope_line(&self.rope, line);
        proof {
            let stripped = line_text(self@, line as int);
            lemma_line_with_break(self@, line as int);
            lemma_line_text_has_no_newline(self@, line as int);
            if line + 1 < line_count(self@) {
                assert(stripped.push('\n').drop_last() =~= stripped);
            } else if stripped.len() > 0 {
                assert(!is_newline(stripped[stripped.len() - 1]));
            }
        }
        if ends_with_char(text.as_str(), '\n') {
            text.pop();
        }
        text
    }

    /// The text of `line` without its line feed, or `OutOfBounds` when the
    /// document has no such line.
    pub fn line_text(&self, line: usize) -> (res: Result<String, BufferError>)
        ensures
            match res {
                Ok(text) => {
                    &&& line < line_count(self@)
                    &&& text@ == line_text(self@, line as int)
                },
                Err(error) => {
                    &&& line >= line_count(self@)
                    &&& error == (BufferError::OutOfBounds {
                        unit: Unit::Lines,
                        index: line,
                        bound: line_count(self@) as usize,
                    })
                },
            },
    {
        let total = self.rope.len_lines();
        if line < total {
            Ok(self.existing_line_text(line))
        } else {
            Err(BufferError::OutOfBounds { unit: Unit::Lines, index: line, bound: total })
        }
    }

    /// The whole text.
    pub fn text(&self) -> (text: String)
        ensures
            text@ == self@,
    {
        rope_to_string(&self.rope)
    }
}

} // verus!
