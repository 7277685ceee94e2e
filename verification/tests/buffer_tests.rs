use dns_server::buffer::{BufferError, BytePacketBuffer};

// ===== Positive Tests =====

#[test]
fn test_buffer_creation() {
    let buf = BytePacketBuffer::new();
    assert_eq!(buf.pos(), 0);
    assert_eq!(buf.buf.len(), 512);
}

#[test]
fn test_write_and_read_single_byte() {
    let mut buf = BytePacketBuffer::new();
    assert!(buf.write(42).is_ok());

    let mut buf2 = BytePacketBuffer::new();
    buf2.buf = buf.buf;
    let val = buf2.read().unwrap();
    assert_eq!(val, 42);
}

#[test]
fn test_write_and_read_u16() {
    let mut buf = BytePacketBuffer::new();
    assert!(buf.write_u16(0x1234).is_ok());

    let mut buf2 = BytePacketBuffer::new();
    buf2.buf = buf.buf;
    let val = buf2.read_u16().unwrap();
    assert_eq!(val, 0x1234);
}

#[test]
fn test_write_and_read_u32() {
    let mut buf = BytePacketBuffer::new();
    assert!(buf.write_u32(0x12345678).is_ok());

    let mut buf2 = BytePacketBuffer::new();
    buf2.buf = buf.buf;
    let val = buf2.read_u32().unwrap();
    assert_eq!(val, 0x12345678);
}

#[test]
fn test_write_qname() {
    let mut buf = BytePacketBuffer::new();
    assert!(buf.write_qname("example.com").is_ok());

    let mut buf2 = BytePacketBuffer::new();
    buf2.buf = buf.buf;
    let mut qname = String::new();
    assert!(buf2.read_qname(&mut qname).is_ok());
    assert_eq!(qname, "example.com");
}

#[test]
fn test_write_qname_single_label() {
    let mut buf = BytePacketBuffer::new();
    assert!(buf.write_qname("localhost").is_ok());

    let mut buf2 = BytePacketBuffer::new();
    buf2.buf = buf.buf;
    let mut qname = String::new();
    assert!(buf2.read_qname(&mut qname).is_ok());
    assert_eq!(qname, "localhost");
}

#[test]
fn test_seek() {
    let mut buf = BytePacketBuffer::new();
    assert!(buf.seek(100).is_ok());
    assert_eq!(buf.pos(), 100);
}

#[test]
fn test_step() {
    let mut buf = BytePacketBuffer::new();
    assert!(buf.step(50).is_ok());
    assert_eq!(buf.pos(), 50);
    assert!(buf.step(30).is_ok());
    assert_eq!(buf.pos(), 80);
}

#[test]
fn test_get() {
    let mut buf = BytePacketBuffer::new();
    buf.buf[10] = 0xFF;
    let val = buf.get(10).unwrap();
    assert_eq!(val, 0xFF);
}

#[test]
fn test_get_range() {
    let mut buf = BytePacketBuffer::new();
    buf.buf[0] = 1;
    buf.buf[1] = 2;
    buf.buf[2] = 3;
    let range = buf.get_range(0, 3).unwrap();
    assert_eq!(range, &[1, 2, 3]);
}

#[test]
fn test_set() {
    let mut buf = BytePacketBuffer::new();
    assert!(buf.set(50, 0xAB).is_ok());
    assert_eq!(buf.buf[50], 0xAB);
}

#[test]
fn test_set_u16() {
    let mut buf = BytePacketBuffer::new();
    assert!(buf.set_u16(0, 0x5678).is_ok());
    assert_eq!(buf.buf[0], 0x56);
    assert_eq!(buf.buf[1], 0x78);
}

// ===== Negative Tests =====

#[test]
fn test_read_beyond_buffer() {
    let mut buf = BytePacketBuffer::new();
    buf.pos = 512;
    assert!(buf.read().is_err());
}

#[test]
fn test_write_beyond_buffer() {
    let mut buf = BytePacketBuffer::new();
    buf.pos = 512;
    assert!(buf.write(42).is_err());
}

#[test]
fn test_get_beyond_buffer() {
    let mut buf = BytePacketBuffer::new();
    assert!(buf.get(512).is_err());
}

#[test]
fn test_get_range_beyond_buffer() {
    let mut buf = BytePacketBuffer::new();
    assert!(buf.get_range(500, 20).is_err());
}

#[test]
fn test_read_u16_beyond_buffer() {
    let mut buf = BytePacketBuffer::new();
    buf.pos = 511; // Only 1 byte left
    assert!(buf.read_u16().is_err());
}

#[test]
fn test_read_u32_beyond_buffer() {
    let mut buf = BytePacketBuffer::new();
    buf.pos = 510; // Only 2 bytes left
    assert!(buf.read_u32().is_err());
}

#[test]
fn test_write_qname_label_too_long() {
    let mut buf = BytePacketBuffer::new();
    // Create a label longer than 63 characters (0x3F)
    let long_label = "a".repeat(100);
    assert!(buf.write_qname(&long_label).is_err());
}

#[test]
fn test_write_qname_buffer_overflow() {
    let mut buf = BytePacketBuffer::new();
    buf.pos = 510; // Very close to end
    assert!(buf.write_qname("example.com").is_err());
}

// ===== Further cases =====

#[test]
fn read_u16_failure_moves_cursor_to_end() {
    let mut buf = BytePacketBuffer::new();
    buf.pos = 511;
    assert_eq!(buf.read_u16(), Err(BufferError::EndOfBuffer));
    assert_eq!(buf.pos(), 512);
}

#[test]
fn write_u32_bytes_in_network_order() {
    let mut buf = BytePacketBuffer::new();
    buf.write_u32(0xDEADBEEF).unwrap();
    assert_eq!(&buf.buf[0..4], &[0xDE, 0xAD, 0xBE, 0xEF]);
    assert_eq!(buf.pos(), 4);
}

#[test]
fn write_u16_partial_at_end() {
    let mut buf = BytePacketBuffer::new();
    buf.pos = 511;
    assert_eq!(buf.write_u16(0xABCD), Err(BufferError::EndOfBuffer));
    assert_eq!(buf.buf[511], 0xAB);
    assert_eq!(buf.pos(), 512);
}

#[test]
fn get_range_refuses_range_reaching_last_byte() {
    let mut buf = BytePacketBuffer::new();
    assert!(buf.get_range(500, 11).is_ok());
    assert_eq!(buf.get_range(500, 12), Err(BufferError::EndOfBuffer));
}

#[test]
fn read_bytes_returns_the_bytes() {
    let mut buf = BytePacketBuffer::new();
    buf.buf[3] = 7;
    buf.buf[4] = 8;
    buf.pos = 3;
    assert_eq!(buf.read_bytes(2).unwrap(), vec![7, 8]);
    assert_eq!(buf.pos(), 5);
    buf.pos = 511;
    assert_eq!(buf.read_bytes(2), Err(BufferError::EndOfBuffer));
    assert_eq!(buf.pos(), 512);
    assert_eq!(buf.read_bytes(0).unwrap(), Vec::<u8>::new());
}

#[test]
fn write_qname_wire_form() {
    let mut buf = BytePacketBuffer::new();
    buf.write_qname("www.ab").unwrap();
    assert_eq!(&buf.buf[0..8], &[3, b'w', b'w', b'w', 2, b'a', b'b', 0]);
    assert_eq!(buf.pos(), 8);
}

#[test]
fn write_qname_long_label_error_keeps_earlier_labels() {
    let mut buf = BytePacketBuffer::new();
    let name = format!("ok.{}", "x".repeat(64));
    assert_eq!(buf.write_qname(&name), Err(BufferError::LabelTooLong));
    assert_eq!(&buf.buf[0..3], &[2, b'o', b'k']);
    assert_eq!(buf.pos(), 3);
    // 63 bytes is still accepted
    let mut buf = BytePacketBuffer::new();
    assert!(buf.write_qname(&"y".repeat(63)).is_ok());
}

#[test]
fn write_qname_end_of_buffer_error() {
    let mut buf = BytePacketBuffer::new();
    buf.pos = 510;
    assert_eq!(buf.write_qname("example.com"), Err(BufferError::EndOfBuffer));
    assert_eq!(buf.pos(), 512);
}

#[test]
fn read_qname_lowercases_and_follows_pointer() {
    let mut buf = BytePacketBuffer::new();
    // at 0: "ExAmple" "COM" 0
    buf.write_qname("ExAmple.COM").unwrap();
    let end = buf.pos();
    // at end: "www" then a pointer to offset 0
    buf.write_u8(3).unwrap();
    buf.write_u8(b'w').unwrap();
    buf.write_u8(b'w').unwrap();
    buf.write_u8(b'w').unwrap();
    buf.write_u16(0xC000).unwrap();
    buf.seek(end).unwrap();
    let mut out = String::from(">");
    buf.read_qname(&mut out).unwrap();
    assert_eq!(out, ">www.example.com");
    // the cursor is left just past the pointer
    assert_eq!(buf.pos(), end + 6);
}

#[test]
fn read_qname_jump_limit() {
    let mut buf = BytePacketBuffer::new();
    // a pointer at 0 pointing at itself
    buf.buf[0] = 0xC0;
    buf.buf[1] = 0x00;
    let mut out = String::new();
    assert_eq!(buf.read_qname(&mut out), Err(BufferError::JumpLimitExceeded));
    assert_eq!(buf.pos(), 2);
    assert_eq!(out, "");
}

#[test]
fn read_qname_label_past_end() {
    let mut buf = BytePacketBuffer::new();
    buf.buf[500] = 1;
    buf.buf[501] = b'a';
    buf.buf[502] = 20;
    buf.pos = 500;
    let mut out = String::new();
    assert_eq!(buf.read_qname(&mut out), Err(BufferError::EndOfBuffer));
    // the first label was read and the delimiter of the second emitted
    assert_eq!(out, "a.");
    assert_eq!(buf.pos(), 500);
}

#[test]
fn read_qname_any_label_layout() {
    // labels laid out by hand, with a label holding a dot-free mix of bytes
    let mut b = BytePacketBuffer::new();
    let bytes: [u8; 12] = [2, b'A', b'b', 1, b'-', 4, b'x', b'Y', b'9', b'_', 0, 7];
    for (i, v) in bytes.iter().enumerate() {
        b.buf[100 + i] = *v;
    }
    b.seek(100).unwrap();
    let mut out = String::from(">");
    assert!(b.read_qname(&mut out).is_ok());
    assert_eq!(out, ">ab.-.xy9_");
    assert_eq!(b.pos(), 111);
}

#[test]
fn write_qname_takes_two_bytes_more_than_the_name() {
    let name = "ab.cde.f";
    let mut b = BytePacketBuffer::new();
    b.seek(512 - (name.len() + 2)).unwrap();
    assert!(b.write_qname(name).is_ok());
    assert_eq!(b.pos(), 512);
    assert_eq!(&b.buf[502..512], &[2, b'a', b'b', 3, b'c', b'd', b'e', 1, b'f', 0]);
    let mut b = BytePacketBuffer::new();
    b.seek(512 - (name.len() + 2) + 1).unwrap();
    assert_eq!(b.write_qname(name), Err(BufferError::EndOfBuffer));
}
