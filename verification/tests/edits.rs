use piece_tree::BufferError;
use piece_tree::DefaultEOL;
use piece_tree::TextBuffer;

#[test]
fn basic_insert_and_delete() {
    let mut buffer = TextBuffer::default();
    buffer.insert(0, "This is a document with some text.").unwrap();
    assert_eq!(buffer.to_string(), "This is a document with some text.");
}

#[test]
fn document_scenario_append_and_crlf() {
    let mut b = TextBuffer::new("This is a document with some text.", DefaultEOL::LF);
    assert_eq!(b.length(), 34);
    assert_eq!(b.line_count(), 1);
    b.insert(34, "This is some more text to insert at offset 34.")
        .unwrap();
    assert_eq!(
        b.to_text(),
        "This is a document with some text.This is some more text to insert at offset 34."
    );
    assert_eq!(b.line_count(), 1);
    b.insert(34, "\r\n").unwrap();
    assert_eq!(
        b.to_text(),
        "This is a document with some text.\r\nThis is some more text to insert at offset 34."
    );
    assert_eq!(b.line_count(), 2);
    assert!(b.check_integrity());
    assert!(b.check_crlf_unsplit());
}

#[test]
fn round_trip_plain() {
    for s in [
        "",
        "hello",
        "line one\nline two\nline three",
        "crlf\r\nends\r\n",
        "bare\rcarriage\rreturns",
        "mixed\r\n\n\r tail",
        "\u{feff}starts with a byte order mark\n",
        "unicode: \u{e9}\u{4e16}\u{754c}\n",
    ] {
        let b = TextBuffer::new(s, DefaultEOL::LF);
        assert_eq!(b.to_text(), s);
        assert!(b.check_integrity());
        assert!(b.check_crlf_unsplit());
    }
}

#[test]
fn insert_read_consistency() {
    let base = "abcdefgh\r\nijk";
    for offset in 0..=base.chars().count() {
        for ins in ["X", "\n", "\r", "\r\n", "long insertion text"] {
            let mut b = TextBuffer::new(base, DefaultEOL::LF);
            b.insert(offset, ins).unwrap();
            let mut expect: String = base.chars().take(offset).collect();
            expect.push_str(ins);
            expect.extend(base.chars().skip(offset));
            assert_eq!(b.to_text(), expect);
            assert!(b.check_integrity());
            assert!(b.check_crlf_unsplit());
        }
    }
}

#[test]
fn delete_read_consistency() {
    let base = "abc\r\ndef\nghi\r";
    let n = base.chars().count();
    for offset in 0..=n {
        for count in 0..=(n - offset) {
            let mut b = TextBuffer::new(base, DefaultEOL::LF);
            b.delete(offset, count).unwrap();
            let expect: String = base
                .chars()
                .take(offset)
                .chain(base.chars().skip(offset + count))
                .collect();
            assert_eq!(b.to_text(), expect);
            assert!(b.check_integrity());
            assert!(b.check_crlf_unsplit());
        }
    }
}

#[test]
fn insert_then_delete_is_inverse() {
    let base = "the quick\nbrown fox";
    for offset in [0, 4, 9, 10, 19] {
        for ins in ["XYZ", "\r\n", "\n\n\n"] {
            let mut b = TextBuffer::new(base, DefaultEOL::LF);
            b.insert(offset, ins).unwrap();
            b.delete(offset, ins.chars().count()).unwrap();
            assert_eq!(b.to_text(), base);
        }
    }
}

#[test]
fn line_count_matches_terminators() {
    let mut b = TextBuffer::new("a\nb\r\nc\rd", DefaultEOL::LF);
    // Terminators: LF, CRLF (one), CR -- three, so four lines.
    assert_eq!(b.line_count(), 4);
    b.delete(1, 1).unwrap(); // "ab\r\nc\rd"
    assert_eq!(b.line_count(), 3);
    b.insert(0, "\r\n").unwrap(); // "\r\nab\r\nc\rd"
    assert_eq!(b.line_count(), 4);
    assert!(b.check_integrity());
}

#[test]
fn deleting_between_cr_and_lf_merges_the_pair() {
    // Removing the character between a CR and an LF leaves one CRLF
    // terminator, not two terminators.
    let mut b = TextBuffer::new("a\rX\nb", DefaultEOL::LF);
    assert_eq!(b.line_count(), 3);
    b.delete(2, 1).unwrap();
    assert_eq!(b.to_text(), "a\r\nb");
    assert_eq!(b.line_count(), 2);
    assert!(b.check_crlf_unsplit());
    assert!(b.check_integrity());
}

#[test]
fn inserting_lf_after_cr_forms_one_terminator() {
    let mut b = TextBuffer::new("head\rtail", DefaultEOL::LF);
    assert_eq!(b.line_count(), 2);
    b.insert(5, "\n").unwrap();
    assert_eq!(b.to_text(), "head\r\ntail");
    assert_eq!(b.line_count(), 2);
    assert!(b.check_crlf_unsplit());
}

#[test]
fn inserting_cr_before_lf_forms_one_terminator() {
    let mut b = TextBuffer::new("head\ntail", DefaultEOL::LF);
    assert_eq!(b.line_count(), 2);
    b.insert(4, "\r").unwrap();
    assert_eq!(b.to_text(), "head\r\ntail");
    assert_eq!(b.line_count(), 2);
    assert!(b.check_crlf_unsplit());
}

#[test]
fn splitting_a_crlf_by_an_insertion_makes_two_terminators() {
    let mut b = TextBuffer::new("a\r\nb", DefaultEOL::LF);
    assert_eq!(b.line_count(), 2);
    b.insert(2, "X").unwrap();
    assert_eq!(b.to_text(), "a\rX\nb");
    assert_eq!(b.line_count(), 3);
    assert!(b.check_crlf_unsplit());
}

#[test]
fn out_of_range_insert_is_rejected_unchanged() {
    let mut b = TextBuffer::new("abc", DefaultEOL::LF);
    assert_eq!(b.insert(4, "x"), Err(BufferError::OutOfRange));
    assert_eq!(b.to_text(), "abc");
}

#[test]
fn out_of_range_delete_is_rejected_unchanged() {
    let mut b = TextBuffer::new("abc", DefaultEOL::LF);
    assert_eq!(b.delete(4, 0), Err(BufferError::OutOfRange));
    assert_eq!(b.delete(1, 3), Err(BufferError::InvalidEdit));
    assert_eq!(b.to_text(), "abc");
    assert_eq!(b.delete(3, 0), Ok(()));
    assert_eq!(b.to_text(), "abc");
}

#[test]
fn empty_insert_is_a_no_op() {
    let mut b = TextBuffer::new("abc", DefaultEOL::LF);
    assert_eq!(b.insert(1, ""), Ok(()));
    assert_eq!(b.to_text(), "abc");
}

#[test]
fn many_random_like_edits_keep_invariants() {
    let mut b = TextBuffer::new("seed text\r\nwith lines\n", DefaultEOL::LF);
    let mut model: Vec<char> = "seed text\r\nwith lines\n".chars().collect();
    let inserts = ["a", "\r", "\n", "\r\n", "word ", "\nnext\r"];
    let mut step = 0usize;
    for round in 0..60usize {
        let len = model.len();
        let offset = (round * 7 + step) % (len + 1);
        if round % 3 == 0 && len > 2 {
            let count = (round % 5).min(len - offset);
            b.delete(offset, count).unwrap();
            model.drain(offset..offset + count);
        } else {
            let ins = inserts[round % inserts.len()];
            b.insert(offset, ins).unwrap();
            let tail: Vec<char> = model.split_off(offset);
            model.extend(ins.chars());
            model.extend(tail);
        }
        step += 3;
        let expect: String = model.iter().collect();
        assert_eq!(b.to_text(), expect);
        assert!(b.check_integrity());
        assert!(b.check_crlf_unsplit());
    }
}

#[test]
fn consecutive_typing_appends() {
    let mut b = TextBuffer::default();
    let mut expect = String::new();
    let keys = [
        "h", "e", "l", "l", "o", " ", "wo", "rld", "!\n", "ne", "xt li", "ne\r", "\nmore",
    ];
    for w in keys {
        let end = b.length();
        b.insert(end, w).unwrap();
        expect.push_str(w);
        assert_eq!(b.to_text(), expect);
        assert!(b.check_integrity());
        assert!(b.check_crlf_unsplit());
    }
    assert_eq!(b.line_count(), 3);
    assert_eq!(b.line_content(0).unwrap(), "hello world!");
    assert_eq!(b.line_content(1).unwrap(), "next line");
    assert_eq!(b.line_content(2).unwrap(), "more");
}
