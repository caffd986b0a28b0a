use dns_resolver::buffer::{BytePacketBuffer, BUF_LEN};
use dns_resolver::error::DnsError;

fn buffer_of(bytes: &[u8]) -> BytePacketBuffer {
    BytePacketBuffer { buf: bytes.to_vec(), pos: 0 }
}

#[test]
fn new_buffer_is_zeroed_with_cursor_at_start() {
    let buffer = BytePacketBuffer::new();
    assert_eq!(buffer.pos, 0);
    assert_eq!(buffer.buf.len(), BUF_LEN);
    assert_eq!(BUF_LEN, 2048);
    assert!(buffer.buf.iter().all(|b| *b == 0));
}

#[test]
fn read_advances_and_get_does_not() {
    let mut buffer = buffer_of(&[10, 20, 30]);
    assert_eq!(buffer.get(2), Ok(30));
    assert_eq!(buffer.pos, 0);
    assert_eq!(buffer.read(), Ok(10));
    assert_eq!(buffer.read(), Ok(20));
    assert_eq!(buffer.pos, 2);
    assert_eq!(buffer.read(), Ok(30));
    assert_eq!(buffer.pos, 3);
}

#[test]
fn read_past_end_is_out_of_bounds_and_changes_nothing() {
    let mut buffer = buffer_of(&[1]);
    assert_eq!(buffer.read(), Ok(1));
    assert_eq!(buffer.read(), Err(DnsError::OutOfBounds));
    assert_eq!(buffer.pos, 1);
    assert_eq!(buffer.get(1), Err(DnsError::OutOfBounds));
    assert_eq!(buffer.get(usize::MAX), Err(DnsError::OutOfBounds));
}

#[test]
fn read_u16_is_big_endian() {
    let mut buffer = buffer_of(&[0x12, 0x34, 0xFF]);
    assert_eq!(buffer.read_u16(), Ok(0x1234));
    assert_eq!(buffer.pos, 2);
    assert_eq!(buffer.read_u16(), Err(DnsError::OutOfBounds));
    assert_eq!(buffer.pos, 2);
}

#[test]
fn read_u32_is_two_u16_high_half_first() {
    let mut buffer = buffer_of(&[0xDE, 0xAD, 0xBE, 0xEF, 0x00, 0x00, 0x00]);
    assert_eq!(buffer.read_u32(), Ok(0xDEAD_BEEF));
    assert_eq!(buffer.pos, 4);
    assert_eq!(buffer.read_u32(), Err(DnsError::OutOfBounds));
    assert_eq!(buffer.pos, 4);
}

#[test]
fn get_range_gives_the_bytes_asked_for() {
    let buffer = buffer_of(&[1, 2, 3, 4, 5]);
    assert_eq!(buffer.get_range(1, 3), Ok(&[2u8, 3, 4][..]));
    assert_eq!(buffer.get_range(5, 0), Ok(&[][..]));
    assert_eq!(buffer.get_range(3, 3), Err(DnsError::OutOfBounds));
    assert_eq!(buffer.get_range(6, 0), Err(DnsError::OutOfBounds));
    assert_eq!(buffer.get_range(1, usize::MAX), Err(DnsError::OutOfBounds));
}

#[test]
fn write_u8_and_write_store_and_advance() {
    let mut buffer = buffer_of(&[0, 0, 0]);
    assert_eq!(buffer.write(7), Ok(()));
    assert_eq!(buffer.write_u8(8), Ok(()));
    assert_eq!(buffer.buf, vec![7, 8, 0]);
    assert_eq!(buffer.pos, 2);
    assert_eq!(buffer.write_u8(9), Ok(()));
    assert_eq!(buffer.write_u8(10), Err(DnsError::OutOfBounds));
    assert_eq!(buffer.buf, vec![7, 8, 9]);
    assert_eq!(buffer.pos, 3);
}

#[test]
fn write_u16_is_big_endian_and_all_or_nothing() {
    let mut buffer = buffer_of(&[0, 0, 0]);
    assert_eq!(buffer.write_u16(0xABCD), Ok(()));
    assert_eq!(buffer.buf, vec![0xAB, 0xCD, 0]);
    assert_eq!(buffer.write_u16(0x1234), Err(DnsError::OutOfBounds));
    assert_eq!(buffer.buf, vec![0xAB, 0xCD, 0]);
    assert_eq!(buffer.pos, 2);
}

#[test]
fn write_u32_keeps_all_thirty_two_bits() {
    let mut buffer = buffer_of(&[0; 6]);
    assert_eq!(buffer.write_u32(0x0001_5180), Ok(()));
    assert_eq!(&buffer.buf[0..4], &[0x00, 0x01, 0x51, 0x80]);
    assert_eq!(buffer.pos, 4);
    buffer.pos = 0;
    assert_eq!(buffer.read_u32(), Ok(86400));
    assert_eq!(buffer.write_u32(1), Err(DnsError::OutOfBounds));
    assert_eq!(buffer.pos, 4);
    assert_eq!(&buffer.buf[4..6], &[0, 0]);
}

#[test]
fn write_u32_round_trips_extreme_values() {
    for val in [0u32, 1, 0xFF, 0x100, 0xFFFF, 0x1_0000, 0x1234_5678, u32::MAX] {
        let mut buffer = buffer_of(&[0; 4]);
        assert_eq!(buffer.write_u32(val), Ok(()));
        buffer.pos = 0;
        assert_eq!(buffer.read_u32(), Ok(val));
    }
}

#[test]
fn set_overwrites_without_moving_the_cursor() {
    let mut buffer = buffer_of(&[1, 2, 3]);
    buffer.pos = 1;
    assert_eq!(buffer.set(2, 9), Ok(()));
    assert_eq!(buffer.buf, vec![1, 2, 9]);
    assert_eq!(buffer.pos, 1);
    assert_eq!(buffer.set(3, 9), Err(DnsError::OutOfBounds));
    assert_eq!(buffer.buf, vec![1, 2, 9]);
}

#[test]
fn set_u16_writes_most_significant_byte_first() {
    let mut buffer = buffer_of(&[0; 4]);
    assert_eq!(buffer.set_u16(1, 0x1234), Ok(()));
    assert_eq!(buffer.buf, vec![0, 0x12, 0x34, 0]);
    assert_eq!(buffer.pos, 0);
    assert_eq!(buffer.set_u16(3, 0xFFFF), Err(DnsError::OutOfBounds));
    assert_eq!(buffer.buf, vec![0, 0x12, 0x34, 0]);
}

#[test]
fn step_and_seek_stay_within_the_region() {
    let mut buffer = buffer_of(&[0; 4]);
    assert_eq!(buffer.step(3), Ok(()));
    assert_eq!(buffer.pos, 3);
    assert_eq!(buffer.step(1), Ok(()));
    assert_eq!(buffer.pos, 4);
    assert_eq!(buffer.step(1), Err(DnsError::OutOfBounds));
    assert_eq!(buffer.pos, 4);
    assert_eq!(buffer.step(usize::MAX), Err(DnsError::OutOfBounds));
    assert_eq!(buffer.seek(0), Ok(()));
    assert_eq!(buffer.pos, 0);
    assert_eq!(buffer.seek(4), Ok(()));
    assert_eq!(buffer.seek(5), Err(DnsError::OutOfBounds));
    assert_eq!(buffer.pos, 4);
}

#[test]
fn cursor_beyond_the_end_makes_every_operation_fail() {
    let mut buffer = BytePacketBuffer { buf: vec![1, 2], pos: 5 };
    assert_eq!(buffer.read(), Err(DnsError::OutOfBounds));
    assert_eq!(buffer.read_u16(), Err(DnsError::OutOfBounds));
    assert_eq!(buffer.read_u32(), Err(DnsError::OutOfBounds));
    assert_eq!(buffer.write(1), Err(DnsError::OutOfBounds));
    assert_eq!(buffer.write_u16(1), Err(DnsError::OutOfBounds));
    assert_eq!(buffer.write_u32(1), Err(DnsError::OutOfBounds));
    assert_eq!(buffer.step(0), Err(DnsError::OutOfBounds));
    assert_eq!(buffer.pos, 5);
    assert_eq!(buffer.buf, vec![1, 2]);
}
