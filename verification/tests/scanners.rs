//! Tests for the byte-level scanners: line splitting, separator splitting,
//! and sequence search.

use pico_build::bytes::{
    find_index_of_element_const, find_sequence, split_at_sequence_exclusive, split_lines,
    split_tab_spans, splitln_const, NewlineIter, TabIter,
};

const TEST_DATA: &str = "line 0
line 1
line 2
line 3
line 4
line 5
line 6
line 7
line 8
line 9
line a
line b
line c
line d
line e
line f";

#[test]
fn newline_iter() {
    let mut nl_iter = NewlineIter::from_str(TEST_DATA);
    let mut iter_index: usize = 0;
    while let Some(line) = nl_iter.next_const() {
        let line = core::str::from_utf8(&line).unwrap();
        println!("parsing line {line:?}");
        let (prefix, digit) = line.split_at("line ".len());
        if prefix != "line " {
            panic!()
        }
        let parsed_line_index = usize::from_str_radix(digit.trim_end(), 16).unwrap();
        assert_eq!(iter_index, parsed_line_index);
        iter_index += 1;
    }
    assert_eq!(iter_index, 16);
}

#[test]
fn lines_keep_every_byte() {
    // line scanner correctness on concrete buffers: concatenating the lines
    // reconstructs the buffer, and the line count is the newline count plus
    // one for an unterminated tail
    let cases: Vec<&[u8]> = vec![b"", b"\n", b"a", b"ab\nc", b"ab\ncd\n", b"\n\nx"];
    for src in cases {
        let lines = split_lines(src);
        let joined: Vec<u8> = lines.iter().flat_map(|l| l.iter().copied()).collect();
        assert_eq!(joined, src.to_vec());
        let newlines = src.iter().filter(|b| **b == b'\n').count();
        let extra = if !src.is_empty() && *src.last().unwrap() != b'\n' {
            1
        } else {
            0
        };
        assert_eq!(lines.len(), newlines + extra);
    }
}

#[test]
fn unterminated_tail_is_yielded_once() {
    let mut it = NewlineIter::new(b"one\ntwo");
    assert_eq!(it.next_const(), Some(b"one\n".to_vec()));
    assert_eq!(it.next_const(), Some(b"two".to_vec()));
    assert_eq!(it.next_const(), None);

    let mut terminated = NewlineIter::new(b"one\n");
    assert_eq!(terminated.next_const(), Some(b"one\n".to_vec()));
    assert_eq!(terminated.next_const(), None);

    let mut empty = NewlineIter::new(b"");
    assert_eq!(empty.next_const(), None);
}

#[test]
fn tab_iter_splits_on_separator_line() {
    let mut it = TabIter::new(b"a\n-->8\nb\n");
    assert_eq!(it.next(), Some(b"a\n".to_vec()));
    assert_eq!(it.next(), Some(b"b\n".to_vec()));
    assert_eq!(it.next(), None);

    // empty input still yields one empty span
    let mut empty = TabIter::new(b"");
    assert_eq!(empty.next(), Some(vec![]));
    assert_eq!(empty.next(), None);
}

#[test]
fn tab_spans_rejoin_to_the_buffer() {
    // separator scanner correctness on concrete buffers: concatenating the
    // spans with the separator re-inserted reconstructs the buffer
    let cases: Vec<&[u8]> = vec![
        b"",
        b"plain\n",
        b"a\n-->8\nb",
        b"-->8\ntail",
        b"lead-->8\n",
        b"x-->8\ny-->8\nz",
    ];
    for src in cases {
        let spans = split_tab_spans(src);
        let mut joined: Vec<u8> = Vec::new();
        for (idx, span) in spans.iter().enumerate() {
            if idx > 0 {
                joined.extend_from_slice(b"-->8\n");
            }
            joined.extend_from_slice(span);
        }
        assert_eq!(joined, src.to_vec());
    }
}

#[test]
fn find_byte_and_sequence() {
    assert_eq!(find_index_of_element_const(b"abc\nd", b'\n'), Some(3));
    assert_eq!(find_index_of_element_const(b"abc", b'\n'), None);
    assert_eq!(find_sequence(b"xx-->8yy", b"-->8"), Some(2));
    assert_eq!(find_sequence(b"xx-->yy", b"-->8"), None);
    assert_eq!(find_sequence(b"ab", b"abc"), None);
}

#[test]
fn split_helpers() {
    let (line, rest) = splitln_const(b"ab\ncd").unwrap();
    assert_eq!(line, b"ab\n".to_vec());
    assert_eq!(rest, b"cd".to_vec());
    assert!(splitln_const(b"no newline").is_none());

    let (left, right) = split_at_sequence_exclusive(b"ab-->8cd", b"-->8").unwrap();
    assert_eq!(left, b"ab-->8".to_vec());
    assert_eq!(right, b"cd".to_vec());
    assert!(split_at_sequence_exclusive(b"abcd", b"-->8").is_none());
}
