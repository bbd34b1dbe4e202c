use react_labs::barrier::BarrierCount;
use react_labs::binpack::BinPack;
use react_labs::circbuf::{CircularBuffer, Error};
use react_labs::luhn::is_valid;
use react_labs::minesweeper::{annotate, annotate2};
use react_labs::sensors::{SensorDataError, SensorFileMetadata};
use react_labs::tally::{tally_chars, tally_words};

#[test]
fn luhn_accepts_valid_codes() {
    assert!(is_valid("4539 3195 0343 6467"));
    assert!(is_valid("059"));
}

#[test]
fn luhn_rejects_invalid_codes() {
    assert!(!is_valid("8273 1232 7352 0569"));
    assert!(!is_valid("059a"));
    assert!(!is_valid("0"));
    assert!(!is_valid(""));
    assert!(!is_valid(" "));
}

#[test]
fn minefield_annotation() {
    let board = vec![" * * ", "  *  ", "  *  ", "     "];
    let annotated = annotate(&board);
    assert_eq!(annotated, vec!["1*3*1", "13*31", " 2*2 ", " 111 "]);
}

#[test]
fn minefield_flat_annotation() {
    let board = String::from("   * *  ");
    let annotated = annotate2(board, 2, 4);
    assert_eq!(annotated, "112*1*21");
}

#[test]
fn circular_buffer_roundtrip() {
    let mut buf: CircularBuffer<i32> = CircularBuffer::new(2);
    assert_eq!(buf.read(), Err(Error::EmptyBuffer));
    assert_eq!(buf.write(1), Ok(()));
    assert_eq!(buf.write(2), Ok(()));
    assert_eq!(buf.write(3), Err(Error::FullBuffer));
    assert_eq!(buf.read(), Ok(1));
    assert_eq!(buf.write(3), Ok(()));
    assert_eq!(buf.read(), Ok(2));
    assert_eq!(buf.read(), Ok(3));
    assert_eq!(buf.read(), Err(Error::EmptyBuffer));
}

#[test]
fn circular_buffer_overwrite_and_clear() {
    let mut buf: CircularBuffer<u8> = CircularBuffer::new(3);
    buf.overwrite(1);
    buf.overwrite(2);
    buf.overwrite(3);
    buf.overwrite(4);
    assert_eq!(buf.read(), Ok(2));
    assert_eq!(buf.read(), Ok(3));
    assert_eq!(buf.read(), Ok(4));
    buf.overwrite(9);
    buf.clear();
    assert_eq!(buf.read(), Err(Error::EmptyBuffer));
    assert_eq!(buf.write(7), Ok(()));
    assert_eq!(buf.read(), Ok(7));
}

#[test]
fn sensor_metadata_ring() {
    let mut m = SensorFileMetadata::from_size(2);
    assert!(m.is_empty());
    assert_eq!(m.advance_read_head(), Err(SensorDataError::BufferEmptyError));
    assert_eq!(m.advance_write_head(), Ok(()));
    assert_eq!(m.advance_write_head(), Ok(()));
    assert_eq!(m.advance_write_head(), Err(SensorDataError::BufferFullError));
    assert_eq!(m.write_head, 0);
    assert_eq!(m.advance_read_head(), Ok(()));
    assert_eq!(m.read_head, 1);
    assert_eq!(m.advance_read_head(), Ok(()));
    assert!(m.is_empty());
}

#[test]
fn sensor_metadata_binary_roundtrip() {
    let mut m = SensorFileMetadata::default();
    let _ = m.advance_write_head();
    let _ = m.advance_write_head();
    let _ = m.advance_read_head();
    let bytes = m.to_bytes();
    assert_eq!(bytes.len(), 32);
    assert_eq!(SensorFileMetadata::from_bytes(&bytes), Some(m));
    assert_eq!(SensorFileMetadata::from_bytes(&bytes[0..16]), None);
    // extra trailing bytes are ignored, as a reader would leave them unread
    let mut longer = bytes.clone();
    longer.push(0xab);
    assert_eq!(SensorFileMetadata::from_bytes(&longer), Some(m));
}

#[test]
fn barrier_counting_protocol() {
    let mut b = BarrierCount::new(3);
    assert!(!b.queue_full());
    assert_eq!(b.rank(), 1);
    b.queue();
    assert_eq!(b.rank(), 2);
    b.queue();
    assert!(b.last_thread());
    b.release();
    assert!(b.releasing());
    assert!(!b.spourious());
    b.dequeue();
    b.dequeue();
    assert!(b.queue_empty());
    b.reset();
    assert!(b.spourious());
}

#[test]
fn tally_counts_occurrences() {
    let chars = vec!['a', 'b', 'a', 'c', 'b', 'a'];
    let counted = tally_chars(&chars);
    assert_eq!(counted, vec![('a', 3), ('b', 2), ('c', 1)]);
    let words = vec![
        "the".to_string(),
        "cat".to_string(),
        "the".to_string(),
    ];
    let counted = tally_words(&words);
    assert_eq!(counted.len(), 2);
    assert_eq!(counted[0], ("the".to_string(), 2));
    assert_eq!(counted[1], ("cat".to_string(), 1));
}
