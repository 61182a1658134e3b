//! Tests for the fixed-size first-in-first-out ring.

use pico_build::fifo::Fifo;

#[test]
fn scroll_buffer_contiguous_iter() {
    // Construct with 4 values
    let values: Vec<usize> = vec![0, 1, 2, 3];
    let mut sb = Fifo::from_vec(values);

    // Assert indices are matching exactly
    for (index, elt) in sb.iter().into_iter().enumerate() {
        assert_eq!(index + 0, elt);
    }

    // Overwrite with 4
    // This will now be the last value, and cursor should
    // point to the 1
    sb.overwrite(4);
    // Assert indices + 1 are matching
    for (index, elt) in sb.iter().into_iter().enumerate() {
        assert_eq!(index + 1, elt);
    }

    // Overwrite with 5
    // This will now be the last value, and cursor should
    // point to the 2
    sb.overwrite(5);
    for (index, elt) in sb.iter().into_iter().enumerate() {
        assert_eq!(index + 2, elt);
    }
}

#[test]
fn overwrite_reports_the_written_slot() {
    let mut sb = Fifo::from_vec(vec![10u32, 20, 30]);
    assert_eq!(sb.overwrite(40), 0);
    assert_eq!(sb.overwrite(50), 1);
    assert_eq!(sb.overwrite(60), 2);
    assert_eq!(sb.overwrite(70), 0);
    assert_eq!(sb.iter(), vec![50, 60, 70]);
}

#[test]
fn reset_cursor_returns_to_buffer_order() {
    let mut sb = Fifo::from_vec(vec![1u8, 2, 3]);
    sb.overwrite(9);
    assert_eq!(sb.iter(), vec![2, 3, 9]);
    sb.reset_cursor();
    assert_eq!(sb.iter(), vec![9, 2, 3]);
}

#[test]
fn empty_ring_has_no_elements() {
    let sb: Fifo<u8> = Fifo::new();
    assert!(sb.is_empty());
    assert_eq!(sb.len(), 0);
    assert_eq!(sb.iter(), Vec::<u8>::new());
}
