//! What this crate takes on trust about `ropey`, the rope that stores the
//! text, and about two string functions of the standard library.
//!
//! Nothing in this file is proved. Each item states, over the characters a
//! rope holds, what the documentation of `ropey` promises when the crate is
//! built without its `cr_lines` and `unicode_lines` features, so that the line
//! feed is the only character that ends a line.

use crate::lines::{line_count, line_start, line_with_break};
use ropey::Rope;
use vstd::prelude::*;

verus! {

/// `ropey::Rope`, opaque to the verifier.
#[verifier::external_type_specification]
#[verifier::external_body]
pub struct ExRope(ropey::Rope);

/// The characters a rope holds, in order.
pub uninterp spec fn rope_text(rope: Rope) -> Seq<char>;

/// `Rope::from_str` builds a rope that holds exactly the characters of
/// `text`.
pub assume_specification[ Rope::from_str ](text: &str) -> (rope: Rope)
    ensures
        rope_text(rope) == text@,
;

/// `Rope::len_chars` is the number of characters held.
pub assume_specification[ Rope::len_chars ](rope: &Rope) -> (n: usize)
    ensures
        n == rope_text(*rope).len(),
;

/// `Rope::len_lines` is the number of line breaks plus one.
pub assume_specification[ Rope::len_lines ](rope: &Rope) -> (n: usize)
    ensures
        n == line_count(rope_text(*rope)),
;

/// `Rope::line_to_char` is the character index at which the given line
/// starts; one past the last line it is the number of characters. It panics
/// on a greater line index, which the precondition rules out.
pub assume_specification[ Rope::line_to_char ](rope: &Rope, line_idx: usize) -> (char_idx: usize)
    requires
        line_idx <= line_count(rope_text(*rope)),
    ensures
        char_idx == line_start(rope_text(*rope), line_idx as int),
;

/// `Rope::insert_char` puts `ch` in front of the character at `char_idx` and
/// leaves every other character in place. It panics when `char_idx` is past
/// the end, which the precondition rules out.
pub assume_specification[ Rope::insert_char ](rope: &mut Rope, char_idx: usize, ch: char)
    requires
        char_idx <= rope_text(*old(rope)).len(),
    ensures
        rope_text(*final(rope)) == rope_text(*old(rope)).insert(char_idx as int, ch),
;

/// `Rope::line` is the slice from the start of the given line to the start
/// of the next, so it ends with the line's line feed where there is one;
/// the slice is copied out as a `String`. It panics when there is no such
/// line, which the precondition rules out.
#[verifier::external_body]
pub(crate) fn rope_line(rope: &Rope, line_idx: usize) -> (line: String)
    requires
        line_idx < line_count(rope_text(*rope)),
    ensures
        line@ == line_with_break(rope_text(*rope), line_idx as int),
{
    rope.line(line_idx).to_string()
}

/// `String::from(&Rope)` copies out every character the rope holds.
#[verifier::external_body]
pub(crate) fn rope_to_string(rope: &Rope) -> (text: String)
    ensures
        text@ == rope_text(*rope),
{
    String::from(rope)
}

/// `str::ends_with`, given a `char`, tells whether that is the last
/// character of the string.
#[verifier::external_body]
pub(crate) fn ends_with_char(text: &str, ch: char) -> (found: bool)
    ensures
        found == (text@.len() > 0 && text@.last() == ch),
{
    text.ends_with(ch)
}

/// `String::pop` removes the last character and returns it, or returns
/// `None` and leaves the string alone when it is empty.
pub assume_specification[ String::pop ](text: &mut String) -> (last: Option<char>)
    ensures
        old(text)@.len() == 0 ==> last.is_none() && final(text)@ == old(text)@,
        old(text)@.len() > 0 ==> last == Some(old(text)@.last()) && final(text)@ == old(text)@.drop_last(),
;

} // verus!
