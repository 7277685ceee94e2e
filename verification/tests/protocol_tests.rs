use dns_server::buffer::{BufferError, BytePacketBuffer};
use dns_server::protocol::{DnsHeader, DnsPacket, QueryType, ResultCode};

#[test]
fn result_code_numbers() {
    assert_eq!(ResultCode::from_num(0), ResultCode::NOERROR);
    assert_eq!(ResultCode::from_num(3), ResultCode::NXDOMAIN);
    assert_eq!(ResultCode::from_num(5), ResultCode::REFUSED);
    assert_eq!(ResultCode::from_num(9), ResultCode::NOERROR);
    for n in 0..=5u8 {
        assert_eq!(ResultCode::from_num(n).to_num(), n);
    }
}

#[test]
fn query_type_numbers() {
    assert_eq!(QueryType::from_num(1), QueryType::A);
    assert_eq!(QueryType::from_num(28), QueryType::AAAA);
    assert_eq!(QueryType::from_num(15), QueryType::MX);
    assert_eq!(QueryType::from_num(7), QueryType::UNKNOWN(7));
    assert_eq!(QueryType::MX.to_num(), 15);
    assert_eq!(QueryType::CNAME.to_num(), 5);
    assert_eq!(QueryType::UNKNOWN(999).to_num(), 999);
    // an UNKNOWN holding a known number reads back as the named type
    assert_eq!(QueryType::from_num(QueryType::UNKNOWN(2).to_num()), QueryType::NS);
    for n in [0u16, 1, 2, 5, 15, 28, 65535] {
        assert_eq!(QueryType::from_num(n).to_num(), n);
    }
}

fn sample_header() -> DnsHeader {
    let mut h = DnsHeader::new();
    h.id = 0xBEEF;
    h.recursion_desired = true;
    h.truncated_message = false;
    h.authoritative_answer = true;
    h.opcode = 9;
    h.response = true;
    h.rescode = ResultCode::NOTIMP;
    h.checking_disabled = true;
    h.authed_data = false;
    h.z = true;
    h.recursion_available = true;
    h.questions = 1;
    h.answers = 2;
    h.authoritative_entries = 3;
    h.resource_entries = 4;
    h
}

#[test]
fn header_roundtrip() {
    let h = sample_header();
    let mut buf = BytePacketBuffer::new();
    h.write(&mut buf).unwrap();
    assert_eq!(buf.pos(), 12);
    assert_eq!(&buf.buf[0..4], &[0xBE, 0xEF, 0x80 | (9 << 3) | 0x04 | 0x01, 0x80 | 0x40 | 0x10 | 4]);
    buf.seek(0).unwrap();
    let mut back = DnsHeader::new();
    back.read(&mut buf).unwrap();
    assert_eq!(back, h);
    assert_eq!(buf.pos(), 12);
}

#[test]
fn header_read_partial() {
    let h = sample_header();
    let mut buf = BytePacketBuffer::new();
    buf.pos = 502;
    assert_eq!(h.write(&mut buf), Err(BufferError::EndOfBuffer));
    assert_eq!(buf.pos(), 512);
    buf.seek(502).unwrap();
    let mut back = DnsHeader::new();
    assert_eq!(back.read(&mut buf), Err(BufferError::EndOfBuffer));
    // everything but the last count fits
    assert_eq!(back.id, 0xBEEF);
    assert_eq!(back.opcode, 9);
    assert_eq!(back.answers, 2);
    assert_eq!(back.authoritative_entries, 3);
    assert_eq!(back.resource_entries, 0);
    assert_eq!(buf.pos(), 512);
}

#[test]
fn packet_new_has_empty_header() {
    let p = DnsPacket::new();
    assert_eq!(p.header, DnsHeader::new());
    assert_eq!(p.header.rescode, ResultCode::NOERROR);
    assert_eq!(p.header.questions, 0);
}
