use dnss::bytepacketbuffer::{BufferError, BytePacketBuffer};

fn buffer_with(at: usize, bytes: &[u8]) -> BytePacketBuffer {
    let mut b = BytePacketBuffer::new();
    b.buf[at..at + bytes.len()].copy_from_slice(bytes);
    b
}

#[test]
fn new_buffer_is_zeroed_with_cursor_at_start() {
    let b = BytePacketBuffer::new();
    assert_eq!(b.pos(), 0);
    assert!(b.buf.iter().all(|&x| x == 0));
}

#[test]
fn step_and_seek_move_the_cursor() {
    let mut b = BytePacketBuffer::new();
    assert_eq!(b.step(10), Ok(()));
    assert_eq!(b.pos(), 10);
    assert_eq!(b.step(600), Ok(()));
    assert_eq!(b.pos(), 610);
    assert_eq!(b.seek(3), Ok(()));
    assert_eq!(b.pos(), 3);
}

#[test]
fn read_after_write_gives_back_the_byte() {
    let mut b = BytePacketBuffer::new();
    b.write(7).unwrap();
    b.write(9).unwrap();
    assert_eq!(b.pos(), 2);
    b.seek(0).unwrap();
    assert_eq!(b.read(), Ok(7));
    assert_eq!(b.read(), Ok(9));
    assert_eq!(b.pos(), 2);
}

#[test]
fn read_at_end_fails_and_keeps_the_cursor() {
    let mut b = BytePacketBuffer::new();
    b.seek(512).unwrap();
    assert_eq!(b.read(), Err(BufferError::EndOfBufferToRead));
    assert_eq!(b.pos(), 512);
}

#[test]
fn write_at_end_fails_and_changes_nothing() {
    let mut b = BytePacketBuffer::new();
    b.seek(600).unwrap();
    assert_eq!(b.write(1), Err(BufferError::EndOfBufferToWrite));
    assert_eq!(b.pos(), 600);
    assert!(b.buf.iter().all(|&x| x == 0));
}

#[test]
fn read_u16_and_u32_are_big_endian() {
    let mut b = buffer_with(0, &[0x12, 0x34, 0xde, 0xad, 0xbe, 0xef]);
    assert_eq!(b.read_u16(), Ok(0x1234));
    assert_eq!(b.read_u32(), Ok(0xdead_beef));
    assert_eq!(b.pos(), 6);
}

#[test]
fn read_u16_running_off_the_end_stops_at_the_end() {
    let mut b = BytePacketBuffer::new();
    b.seek(511).unwrap();
    assert_eq!(b.read_u16(), Err(BufferError::EndOfBufferToRead));
    assert_eq!(b.pos(), 512);
    b.seek(510).unwrap();
    assert_eq!(b.read_u32(), Err(BufferError::EndOfBufferToRead));
    assert_eq!(b.pos(), 512);
}

#[test]
fn write_u16_writes_a_zero_then_the_low_byte() {
    let mut b = BytePacketBuffer::new();
    b.buf[0] = 0xff;
    assert_eq!(b.write_u16(0x1234), Ok(()));
    assert_eq!(&b.buf[0..2], &[0x00, 0x34]);
    assert_eq!(b.pos(), 2);
}

#[test]
fn write_u32_writes_three_zeros_then_the_low_byte() {
    let mut b = BytePacketBuffer::new();
    assert_eq!(b.write_u32(0x1234_5678), Ok(()));
    assert_eq!(&b.buf[0..4], &[0, 0, 0, 0x78]);
    assert_eq!(b.pos(), 4);
}

#[test]
fn write_u16_errors_at_the_end() {
    let mut b = BytePacketBuffer::new();
    b.seek(512).unwrap();
    assert_eq!(b.write_u16(5), Err(BufferError::EndOfBufferToWriteU16));
    assert_eq!(b.pos(), 512);
    let mut b = BytePacketBuffer::new();
    b.buf[511] = 9;
    b.seek(511).unwrap();
    assert_eq!(b.write_u16(5), Err(BufferError::EndOfBufferToWrite));
    assert_eq!(b.buf[511], 0);
    assert_eq!(b.pos(), 512);
}

#[test]
fn write_u32_errors_at_the_end() {
    let mut b = BytePacketBuffer::new();
    b.seek(512).unwrap();
    assert_eq!(b.write_u32(5), Err(BufferError::EndOfBufferToWriteU32));
    b.seek(510).unwrap();
    assert_eq!(b.write_u32(5), Err(BufferError::EndOfBufferToWriteU16));
    assert_eq!(b.pos(), 512);
    b.seek(509).unwrap();
    assert_eq!(b.write_u32(5), Err(BufferError::EndOfBufferToWrite));
    assert_eq!(b.pos(), 512);
}

#[test]
fn set_and_set_u16_do_not_move_the_cursor() {
    let mut b = BytePacketBuffer::new();
    b.seek(5).unwrap();
    assert_eq!(b.set(0, 0xaa), Ok(()));
    assert_eq!(b.set_u16(1, 0xbeef), Ok(()));
    assert_eq!(&b.buf[0..3], &[0xaa, 0xbe, 0xef]);
    assert_eq!(b.pos(), 5);
    b.seek(1).unwrap();
    assert_eq!(b.read_u16(), Ok(0xbeef));
}

#[test]
fn write_qname_writes_length_prefixed_labels() {
    let mut b = BytePacketBuffer::new();
    assert_eq!(b.write_qname("www.yahoo.com"), Ok(()));
    let expected: &[u8] = &[3, b'w', b'w', b'w', 5, b'y', b'a', b'h', b'o', b'o', 3, b'c', b'o', b'm', 0];
    assert_eq!(&b.buf[0..15], expected);
    assert_eq!(b.pos(), 15);
}

#[test]
fn write_qname_of_empty_and_trailing_dot_names() {
    let mut b = BytePacketBuffer::new();
    b.buf[0] = 9;
    b.buf[1] = 9;
    assert_eq!(b.write_qname(""), Ok(()));
    assert_eq!(&b.buf[0..2], &[0, 0]);
    assert_eq!(b.pos(), 2);
    let mut b = BytePacketBuffer::new();
    assert_eq!(b.write_qname("a."), Ok(()));
    assert_eq!(&b.buf[0..4], &[1, b'a', 0, 0]);
    assert_eq!(b.pos(), 4);
}

#[test]
fn write_qname_running_off_the_end_fails() {
    let mut b = BytePacketBuffer::new();
    b.seek(508).unwrap();
    assert_eq!(b.write_qname("abcd"), Err(BufferError::EndOfBufferToWrite));
    assert_eq!(&b.buf[508..512], &[4, b'a', b'b', b'c']);
    assert_eq!(b.pos(), 512);
}

#[test]
fn read_qname_reads_back_lowercased() {
    let mut b = BytePacketBuffer::new();
    b.write_qname("WwW.Example.COM").unwrap();
    let end = b.pos();
    b.seek(0).unwrap();
    let mut name = String::new();
    assert_eq!(b.read_qname(&mut name), Ok(()));
    assert_eq!(name, "www.example.com");
    assert_eq!(b.pos(), end);
}

#[test]
fn read_qname_appends_to_the_output() {
    let mut b = buffer_with(0, &[1, b'x', 0]);
    let mut name = String::from("seen:");
    assert_eq!(b.read_qname(&mut name), Ok(()));
    assert_eq!(name, "seen:x");
}

#[test]
fn read_qname_follows_pointers_and_stops_after_the_first() {
    let mut b = buffer_with(
        0,
        &[3, b'w', b'w', b'w', 7, b'e', b'x', b'a', b'm', b'p', b'l', b'e', 3, b'c', b'o', b'm', 0],
    );
    b.buf[20..27].copy_from_slice(&[4, b'm', b'a', b'i', b'l', 0xc0, 0x04]);
    b.seek(20).unwrap();
    let mut name = String::new();
    assert_eq!(b.read_qname(&mut name), Ok(()));
    assert_eq!(name, "mail.example.com");
    assert_eq!(b.pos(), 27);
}

#[test]
fn read_qname_replaces_invalid_utf8() {
    let mut b = buffer_with(0, &[2, 0xff, b'A', 0]);
    let mut name = String::new();
    assert_eq!(b.read_qname(&mut name), Ok(()));
    assert_eq!(name, "\u{FFFD}a");
    assert_eq!(b.pos(), 4);
}

#[test]
fn read_qname_at_the_end_fails_with_get() {
    let mut b = BytePacketBuffer::new();
    b.seek(512).unwrap();
    let mut name = String::new();
    assert_eq!(b.read_qname(&mut name), Err(BufferError::EndOfBufferToGet));
    assert_eq!(name, "");
    assert_eq!(b.pos(), 512);
}

#[test]
fn read_qname_label_past_the_end_fails_with_get_range() {
    let mut b = buffer_with(500, &[3, b'a', b'b', b'c', 20]);
    b.seek(500).unwrap();
    let mut name = String::new();
    assert_eq!(b.read_qname(&mut name), Err(BufferError::EndOfBufferToGetRange));
    assert_eq!(name, "abc.");
    assert_eq!(b.pos(), 500);
}

#[test]
fn read_qname_label_ending_at_the_last_byte_is_refused() {
    let mut b = buffer_with(505, &[6, b'a', b'b', b'c', b'd', b'e', b'f']);
    b.seek(505).unwrap();
    let mut name = String::new();
    assert_eq!(b.read_qname(&mut name), Err(BufferError::EndOfBufferToGetRange));
    assert_eq!(name, "");
}

#[test]
fn read_qname_pointer_at_the_last_byte_fails_after_moving_the_cursor() {
    let mut b = buffer_with(511, &[0xc0]);
    b.seek(511).unwrap();
    let mut name = String::new();
    assert_eq!(b.read_qname(&mut name), Err(BufferError::EndOfBufferToGet));
    assert_eq!(b.pos(), 513);
}

#[test]
fn error_messages() {
    assert_eq!(BufferError::EndOfBufferToRead.message(), "End of buffer to read");
    assert_eq!(BufferError::EndOfBufferToWrite.message(), "End of buffer to write");
    assert_eq!(BufferError::EndOfBufferToGet.message(), "End of buffer to get");
    assert_eq!(BufferError::EndOfBufferToGetRange.message(), "End of buffer to get range");
    assert_eq!(BufferError::EndOfBufferToWriteU16.message(), "End of buffer to write_u16");
    assert_eq!(BufferError::EndOfBufferToWriteU32.message(), "End of buffer to write_u32");
}
