use piece_tree::BufferError;
use piece_tree::DefaultEOL;
use piece_tree::TextBuffer;

#[test]
fn char_at_reads_every_position() {
    let s = "ab\r\nc\nd\re";
    let b = TextBuffer::new(s, DefaultEOL::LF);
    let chars: Vec<char> = s.chars().collect();
    for (i, c) in chars.iter().enumerate() {
        assert_eq!(b.char_at(i), *c);
    }
}

#[test]
fn position_at_walks_lines() {
    // Offsets:      0    1     2     3    4     5    6
    let b = TextBuffer::new("a\nbc\r\nd", DefaultEOL::LF);
    assert_eq!(b.position_at(0), Ok((0, 0)));
    assert_eq!(b.position_at(1), Ok((0, 1))); // at the LF
    assert_eq!(b.position_at(2), Ok((1, 0)));
    assert_eq!(b.position_at(3), Ok((1, 1)));
    assert_eq!(b.position_at(4), Ok((1, 2))); // at the CR
    assert_eq!(b.position_at(5), Ok((1, 3))); // between CR and LF
    assert_eq!(b.position_at(6), Ok((2, 0)));
    assert_eq!(b.position_at(7), Ok((2, 1))); // document end
    assert_eq!(b.position_at(8), Err(BufferError::OutOfRange));
}

#[test]
fn offset_at_inverts_position_at() {
    let b = TextBuffer::new("a\nbc\r\nd", DefaultEOL::LF);
    assert_eq!(b.offset_at(0, 0), Ok(0));
    assert_eq!(b.offset_at(0, 1), Ok(1));
    assert_eq!(b.offset_at(1, 0), Ok(2));
    assert_eq!(b.offset_at(1, 3), Ok(5));
    assert_eq!(b.offset_at(2, 0), Ok(6));
    assert_eq!(b.offset_at(2, 1), Ok(7));
    // Column running into the next line, and a line past the end.
    assert_eq!(b.offset_at(0, 2), Err(BufferError::OutOfRange));
    assert_eq!(b.offset_at(3, 0), Err(BufferError::OutOfRange));
    // Round trip on every offset.
    for off in 0..=7usize {
        let (line, col) = b.position_at(off).unwrap();
        assert_eq!(b.offset_at(line, col), Ok(off));
    }
}

#[test]
fn line_content_strips_terminators() {
    let b = TextBuffer::new("first\nsecond\r\nthird\rlast", DefaultEOL::LF);
    assert_eq!(b.line_content(0).unwrap(), "first");
    assert_eq!(b.line_content(1).unwrap(), "second");
    assert_eq!(b.line_content(2).unwrap(), "third");
    assert_eq!(b.line_content(3).unwrap(), "last");
    assert_eq!(b.line_content(4), Err(BufferError::OutOfRange));
}

#[test]
fn line_content_after_edits() {
    let mut b = TextBuffer::new("alpha\nbeta", DefaultEOL::LF);
    b.insert(5, " one").unwrap();
    b.insert(b.length(), "\r\ngamma").unwrap();
    assert_eq!(b.to_text(), "alpha one\nbeta\r\ngamma");
    assert_eq!(b.line_count(), 3);
    assert_eq!(b.line_content(0).unwrap(), "alpha one");
    assert_eq!(b.line_content(1).unwrap(), "beta");
    assert_eq!(b.line_content(2).unwrap(), "gamma");
}

#[test]
fn empty_document_has_one_empty_line() {
    let b = TextBuffer::new("", DefaultEOL::LF);
    assert_eq!(b.line_count(), 1);
    assert_eq!(b.line_content(0).unwrap(), "");
    assert_eq!(b.position_at(0), Ok((0, 0)));
    assert_eq!(b.offset_at(0, 0), Ok(0));
}

#[test]
fn text_range_extracts_slices() {
    let b = TextBuffer::new("hello\r\nworld", DefaultEOL::LF);
    assert_eq!(b.text_range(0, 5).unwrap(), "hello");
    assert_eq!(b.text_range(5, 7).unwrap(), "\r\n");
    assert_eq!(b.text_range(7, 12).unwrap(), "world");
    assert_eq!(b.text_range(0, 12).unwrap(), "hello\r\nworld");
    assert_eq!(b.text_range(3, 3).unwrap(), "");
    assert_eq!(b.text_range(4, 3), Err(BufferError::OutOfRange));
    assert_eq!(b.text_range(0, 13), Err(BufferError::OutOfRange));
}

#[test]
fn queries_agree_across_piece_boundaries() {
    // Build a document out of many small edits so that pieces abound.
    let mut b = TextBuffer::new("", DefaultEOL::LF);
    let lines = ["one", "two", "three", "four", "five"];
    for (i, word) in lines.iter().enumerate() {
        let end = b.length();
        if i > 0 {
            b.insert(end, "\n").unwrap();
        }
        let end = b.length();
        b.insert(end, word).unwrap();
    }
    assert_eq!(b.to_text(), "one\ntwo\nthree\nfour\nfive");
    assert_eq!(b.line_count(), 5);
    for (i, word) in lines.iter().enumerate() {
        assert_eq!(b.line_content(i).unwrap(), *word);
    }
    assert!(b.check_integrity());
}

#[test]
fn metadata_detection() {
    let b = TextBuffer::new("\u{feff}marked", DefaultEOL::LF);
    assert!(b.has_bom());
    assert!(!b.is_ascii_text());
    let b = TextBuffer::new("plain ascii", DefaultEOL::LF);
    assert!(!b.has_bom());
    assert!(b.is_ascii_text());
    // No terminator at all: the supplied preference decides.
    assert!(!TextBuffer::new("x", DefaultEOL::LF).uses_crlf());
    assert!(TextBuffer::new("x", DefaultEOL::CRLF).uses_crlf());
    // Carriage returns dominate: CRLF style.
    assert!(TextBuffer::new("a\r\nb\r\nc\nd", DefaultEOL::LF).uses_crlf());
    // Line feeds dominate: LF style.
    assert!(!TextBuffer::new("a\nb\nc\r\nd", DefaultEOL::CRLF).uses_crlf());
}
