use react::circular_buffer::{CircularBuffer, Error};
use react::ring_file::{payload_offset, Header};

#[test]
fn reading_an_empty_buffer_fails() {
    let mut buffer: CircularBuffer<i32> = CircularBuffer::new(1);
    assert_eq!(buffer.read(), Err(Error::EmptyBuffer));
}

#[test]
fn items_come_out_in_the_order_written() {
    let mut buffer = CircularBuffer::new(2);
    assert_eq!(buffer.write('1'), Ok(()));
    assert_eq!(buffer.write('2'), Ok(()));
    assert_eq!(buffer.read(), Ok('1'));
    assert_eq!(buffer.write('3'), Ok(()));
    assert_eq!(buffer.read(), Ok('2'));
    assert_eq!(buffer.read(), Ok('3'));
    assert_eq!(buffer.read(), Err(Error::EmptyBuffer));
}

#[test]
fn writing_to_a_full_buffer_fails() {
    let mut buffer = CircularBuffer::new(1);
    assert_eq!(buffer.write(1), Ok(()));
    assert_eq!(buffer.write(2), Err(Error::FullBuffer));
    assert_eq!(buffer.read(), Ok(1));
}

#[test]
fn buffer_of_no_capacity_is_full_and_empty() {
    let mut buffer = CircularBuffer::new(0);
    assert_eq!(buffer.write(1), Err(Error::FullBuffer));
    assert_eq!(buffer.read(), Err(Error::EmptyBuffer));
}

#[test]
fn clear_empties_the_buffer() {
    let mut buffer = CircularBuffer::new(3);
    for i in 0..3 {
        assert_eq!(buffer.write(i), Ok(()));
    }
    buffer.clear();
    assert_eq!(buffer.read(), Err(Error::EmptyBuffer));
    assert_eq!(buffer.write(7), Ok(()));
    assert_eq!(buffer.write(8), Ok(()));
    assert_eq!(buffer.write(9), Ok(()));
    assert_eq!(buffer.write(10), Err(Error::FullBuffer));
    assert_eq!(buffer.read(), Ok(7));
}

#[test]
fn overwrite_moves_both_positions_on() {
    let mut buffer = CircularBuffer::new(2);
    assert_eq!(buffer.write(1), Ok(()));
    assert_eq!(buffer.write(2), Ok(()));
    buffer.overwrite(3);
    // the oldest item has made way, the next one is read
    assert_eq!(buffer.read(), Ok(2));
    assert_eq!(buffer.write(4), Ok(()));
    assert_eq!(buffer.write(5), Err(Error::FullBuffer));
}

#[test]
fn header_of_an_empty_ring() {
    let header = Header::new(10);
    assert_eq!(header, Header { read_idx: 0, write_idx: 0, n: 10 });
    assert_eq!(header.get(), None);
    assert_eq!(header.put(), Some((0, Header { read_idx: 0, write_idx: 1, n: 10 })));
}

#[test]
fn header_goes_round() {
    let header = Header { read_idx: 9, write_idx: 3, n: 10 };
    assert_eq!(header.get(), Some((9, Header { read_idx: 0, write_idx: 3, n: 10 })));
    let header = Header { read_idx: 4, write_idx: 9, n: 10 };
    assert_eq!(header.put(), Some((9, Header { read_idx: 4, write_idx: 0, n: 10 })));
}

#[test]
fn header_of_a_full_ring() {
    let header = Header { read_idx: 0, write_idx: 9, n: 10 };
    assert_eq!(header.put(), None);
    let header = Header { read_idx: 5, write_idx: 4, n: 10 };
    assert_eq!(header.put(), None);
    assert_eq!(header.get(), Some((5, Header { read_idx: 6, write_idx: 4, n: 10 })));
}

#[test]
fn header_with_a_read_position_outside_the_slots() {
    let header = Header { read_idx: 10, write_idx: 3, n: 20 };
    assert_eq!(header.get(), None);
    let header = Header { read_idx: 3, write_idx: 3, n: 0 };
    assert_eq!(header.get(), None);
}

#[test]
fn place_of_a_record() {
    assert_eq!(payload_offset(24, 56, 0), 24);
    assert_eq!(payload_offset(24, 56, 3), 192);
}
