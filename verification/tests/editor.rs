use editor_buffer::document::{BufferError, Document, Unit};
use editor_buffer::editor::{get_viewport, insert_char, ViewportLines};

fn strings(lines: &[&str]) -> Vec<String> {
    let mut out = Vec::new();
    for line in lines {
        out.push(line.to_string());
    }
    out
}

#[test]
fn typing_a_character_then_reading_the_viewport() {
    let mut doc = Document::new("AA\nBB");
    assert_eq!(doc.len_lines(), 2);
    assert_eq!(insert_char(&mut doc, 'X', 0, 2), Ok(()));
    assert_eq!(doc.text(), "AAX\nBB");
    assert_eq!(
        get_viewport(&doc, 0, 5),
        ViewportLines { start_line: 0, lines: strings(&["AAX", "BB"]), total_lines: 2 }
    );
}

#[test]
fn typing_a_line_feed_splits_the_line() {
    let mut doc = Document::new("AA\nBB");
    assert_eq!(insert_char(&mut doc, '\n', 0, 1), Ok(()));
    assert_eq!(doc.text(), "A\nA\nBB");
    assert_eq!(doc.len_lines(), 3);
}

#[test]
fn viewport_past_the_end_is_empty() {
    let doc = Document::new("AA\nBB");
    assert_eq!(
        get_viewport(&doc, 5, 3),
        ViewportLines { start_line: 5, lines: Vec::new(), total_lines: 2 }
    );
}

#[test]
fn insertion_keeps_what_comes_before_and_shifts_what_follows() {
    let before = "one\ntwo\nthree";
    let mut offset: usize = 0;
    while offset <= before.chars().count() {
        let mut doc = Document::new(before);
        let line = before.chars().take(offset).filter(|c| *c == '\n').count();
        let col = offset - doc.line_to_char(line);
        assert_eq!(insert_char(&mut doc, '#', line, col), Ok(()));
        let after: Vec<char> = doc.text().chars().collect();
        let old: Vec<char> = before.chars().collect();
        assert_eq!(after.len(), old.len() + 1);
        assert_eq!(&after[..offset], &old[..offset]);
        assert_eq!(after[offset], '#');
        assert_eq!(&after[offset + 1..], &old[offset..]);
        assert_eq!(doc.len_lines(), 3);
        offset += 1;
    }
}

#[test]
fn line_feed_inside_a_line_yields_its_two_halves() {
    let mut doc = Document::new("alpha\nbravo\ncharlie");
    assert_eq!(insert_char(&mut doc, '\n', 1, 2), Ok(()));
    assert_eq!(doc.len_lines(), 4);
    let first = doc.line_text(1).unwrap();
    let second = doc.line_text(2).unwrap();
    assert_eq!(first, "br");
    assert_eq!(second, "avo");
    assert_eq!(format!("{}{}", first, second), "bravo");
    assert_eq!(doc.line_text(0), Ok("alpha".to_string()));
    assert_eq!(doc.line_text(3), Ok("charlie".to_string()));
    assert_eq!(doc.text(), "alpha\nbr\navo\ncharlie");
}

#[test]
fn line_feed_at_either_end_of_a_line() {
    let mut doc = Document::new("ab\ncd");
    assert_eq!(insert_char(&mut doc, '\n', 1, 0), Ok(()));
    assert_eq!(doc.text(), "ab\n\ncd");
    assert_eq!(doc.line_text(1), Ok(String::new()));
    assert_eq!(doc.line_text(2), Ok("cd".to_string()));
    assert_eq!(insert_char(&mut doc, '\n', 2, 2), Ok(()));
    assert_eq!(doc.text(), "ab\n\ncd\n");
    assert_eq!(doc.len_lines(), 4);
    assert_eq!(doc.line_text(2), Ok("cd".to_string()));
    assert_eq!(doc.line_text(3), Ok(String::new()));
}

#[test]
fn character_inside_a_line_changes_that_line_only() {
    let mut doc = Document::new("alpha\nbravo\ncharlie");
    assert_eq!(insert_char(&mut doc, '-', 1, 3), Ok(()));
    assert_eq!(doc.len_lines(), 3);
    assert_eq!(doc.line_text(0), Ok("alpha".to_string()));
    assert_eq!(doc.line_text(1), Ok("bra-vo".to_string()));
    assert_eq!(doc.line_text(2), Ok("charlie".to_string()));
}

#[test]
fn column_past_the_end_is_refused_and_changes_nothing() {
    let mut doc = Document::new("AA\nBB");
    assert_eq!(
        insert_char(&mut doc, 'X', 1, 3),
        Err(BufferError::OutOfBounds { unit: Unit::Chars, index: 6, bound: 5 })
    );
    assert_eq!(doc.text(), "AA\nBB");
    assert_eq!(doc.len_chars(), 5);
    assert_eq!(
        get_viewport(&doc, 0, 2),
        ViewportLines { start_line: 0, lines: strings(&["AA", "BB"]), total_lines: 2 }
    );
}

#[test]
fn line_past_the_end_is_refused_and_changes_nothing() {
    let mut doc = Document::new("AA\nBB");
    assert_eq!(
        insert_char(&mut doc, 'X', 3, 0),
        Err(BufferError::OutOfBounds { unit: Unit::Lines, index: 3, bound: 2 })
    );
    assert_eq!(
        insert_char(&mut doc, 'X', usize::MAX, usize::MAX),
        Err(BufferError::OutOfBounds { unit: Unit::Lines, index: usize::MAX, bound: 2 })
    );
    assert_eq!(doc.text(), "AA\nBB");
}

#[test]
fn column_too_great_for_an_offset_is_refused() {
    let mut doc = Document::new("AA\nBB");
    assert_eq!(
        insert_char(&mut doc, 'X', 1, usize::MAX),
        Err(BufferError::OutOfBounds { unit: Unit::Chars, index: usize::MAX, bound: 5 })
    );
    assert_eq!(
        insert_char(&mut doc, 'X', 0, usize::MAX),
        Err(BufferError::OutOfBounds { unit: Unit::Chars, index: usize::MAX, bound: 5 })
    );
    assert_eq!(doc.text(), "AA\nBB");
}

#[test]
fn line_just_past_the_last_appends() {
    let mut doc = Document::new("AA\nBB");
    assert_eq!(insert_char(&mut doc, '!', 2, 0), Ok(()));
    assert_eq!(doc.text(), "AA\nBB!");
    assert_eq!(
        insert_char(&mut doc, '!', 2, 1),
        Err(BufferError::OutOfBounds { unit: Unit::Chars, index: 7, bound: 6 })
    );
}

#[test]
fn column_beyond_its_line_lands_on_a_later_line() {
    let mut doc = Document::new("AA\nBB");
    assert_eq!(insert_char(&mut doc, 'X', 0, 4), Ok(()));
    assert_eq!(doc.text(), "AA\nBXB");
    assert_eq!(insert_char(&mut doc, 'Y', 0, 6), Ok(()));
    assert_eq!(doc.text(), "AA\nBXBY");
}

#[test]
fn typing_into_an_empty_document() {
    let mut doc = Document::new("");
    assert_eq!(insert_char(&mut doc, 'a', 0, 0), Ok(()));
    assert_eq!(insert_char(&mut doc, '\n', 0, 1), Ok(()));
    assert_eq!(insert_char(&mut doc, 'b', 1, 0), Ok(()));
    assert_eq!(doc.text(), "a\nb");
    assert_eq!(
        get_viewport(&doc, 0, 10),
        ViewportLines { start_line: 0, lines: strings(&["a", "b"]), total_lines: 2 }
    );
}

#[test]
fn viewport_is_cut_at_the_last_line() {
    let doc = Document::new("l0\nl1\nl2\nl3\nl4");
    let v = get_viewport(&doc, 3, 4);
    assert_eq!(v.lines, strings(&["l3", "l4"]));
    assert_eq!(v.lines.len(), 5 - 3);
    let v = get_viewport(&doc, 4, 2);
    assert_eq!(v.lines, strings(&["l4"]));
    let v = get_viewport(&doc, 0, 6);
    assert_eq!(v.lines.len(), 5);
    let v = get_viewport(&doc, 5, 1);
    assert_eq!(v.lines.len(), 0);
}

#[test]
fn viewport_within_the_document_has_the_height_asked_for() {
    let doc = Document::new("l0\nl1\nl2\nl3\nl4");
    assert_eq!(
        get_viewport(&doc, 1, 3),
        ViewportLines { start_line: 1, lines: strings(&["l1", "l2", "l3"]), total_lines: 5 }
    );
    assert_eq!(
        get_viewport(&doc, 3, 2),
        ViewportLines { start_line: 3, lines: strings(&["l3", "l4"]), total_lines: 5 }
    );
    assert_eq!(
        get_viewport(&doc, 2, 0),
        ViewportLines { start_line: 2, lines: Vec::new(), total_lines: 5 }
    );
}

#[test]
fn viewport_of_the_greatest_height_does_not_overflow() {
    let doc = Document::new("l0\nl1\nl2");
    assert_eq!(
        get_viewport(&doc, 1, usize::MAX),
        ViewportLines { start_line: 1, lines: strings(&["l1", "l2"]), total_lines: 3 }
    );
    assert_eq!(
        get_viewport(&doc, usize::MAX, usize::MAX),
        ViewportLines { start_line: usize::MAX, lines: Vec::new(), total_lines: 3 }
    );
    assert_eq!(
        get_viewport(&doc, 0, usize::MAX),
        ViewportLines { start_line: 0, lines: strings(&["l0", "l1", "l2"]), total_lines: 3 }
    );
}

#[test]
fn viewport_reports_the_number_of_lines() {
    let mut doc = Document::new("AA\nBB");
    assert_eq!(get_viewport(&doc, 0, 1).total_lines, 2);
    assert_eq!(get_viewport(&doc, 1, 1).total_lines, doc.len_lines());
    assert_eq!(get_viewport(&doc, 9, 9).total_lines, 2);
    assert_eq!(insert_char(&mut doc, '\n', 1, 2), Ok(()));
    assert_eq!(get_viewport(&doc, 0, 0).total_lines, 3);
    assert_eq!(get_viewport(&doc, 0, 0).total_lines, doc.len_lines());
}

#[test]
fn viewport_lines_hold_no_line_feed() {
    let doc = Document::new("a\n\nbb\nccc\n");
    let v = get_viewport(&doc, 0, 10);
    assert_eq!(v.lines, strings(&["a", "", "bb", "ccc", ""]));
    assert_eq!(v.total_lines, 5);
    for line in &v.lines {
        assert!(!line.ends_with('\n'));
        assert!(!line.contains('\n'));
    }
}

#[test]
fn viewport_of_an_empty_document_is_one_empty_line() {
    let doc = Document::new("");
    assert_eq!(
        get_viewport(&doc, 0, 3),
        ViewportLines { start_line: 0, lines: strings(&[""]), total_lines: 1 }
    );
    assert_eq!(
        get_viewport(&doc, 1, 3),
        ViewportLines { start_line: 1, lines: Vec::new(), total_lines: 1 }
    );
}

#[test]
fn viewport_of_the_placeholder() {
    let doc = Document::placeholder();
    assert_eq!(
        get_viewport(&doc, 0, 40),
        ViewportLines {
            start_line: 0,
            lines: strings(&["// Hidders Editor v0.1", "// Type here..."]),
            total_lines: 2,
        }
    );
}

#[test]
fn viewport_leaves_the_document_alone() {
    let doc = Document::new("AA\nBB");
    let first = get_viewport(&doc, 0, 2);
    let second = get_viewport(&doc, 0, 2);
    assert_eq!(first, second);
    assert_eq!(first.clone(), second);
    assert_eq!(doc.text(), "AA\nBB");
}
