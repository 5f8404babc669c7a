use dnss::bytepacketbuffer::{BufferError, BytePacketBuffer};
use dnss::dns::kinddns::DnsPacket;
use dnss::dns::{DnsHeader, DnsQuestion, DnsRecord, Ipv4Addr, Ipv6Addr, QueryType, ResultCode};

fn buffer_with(bytes: &[u8]) -> BytePacketBuffer {
    let mut b = BytePacketBuffer::new();
    b.buf[..bytes.len()].copy_from_slice(bytes);
    b
}

#[test]
fn result_code_from_num() {
    assert_eq!(ResultCode::from_num(0), ResultCode::NOERROR);
    assert_eq!(ResultCode::from_num(1), ResultCode::FORMERR);
    assert_eq!(ResultCode::from_num(2), ResultCode::SERVFAIL);
    assert_eq!(ResultCode::from_num(3), ResultCode::NXDOMAIN);
    assert_eq!(ResultCode::from_num(4), ResultCode::NOTIMP);
    assert_eq!(ResultCode::from_num(5), ResultCode::REFUSED);
    assert_eq!(ResultCode::from_num(9), ResultCode::NOERROR);
}

#[test]
fn query_type_numbers() {
    assert_eq!(QueryType::A.to_num(), 1);
    assert_eq!(QueryType::NS.to_num(), 2);
    assert_eq!(QueryType::CNAME.to_num(), 5);
    assert_eq!(QueryType::MX.to_num(), 15);
    assert_eq!(QueryType::AAAA.to_num(), 28);
    assert_eq!(QueryType::UNKOWN(99).to_num(), 99);
    assert_eq!(QueryType::from_num(28), QueryType::AAAA);
    assert_eq!(QueryType::from_num(16), QueryType::UNKOWN(16));
    assert_eq!(QueryType::from_num(QueryType::UNKOWN(5).to_num()), QueryType::CNAME);
}

fn sample_header() -> DnsHeader {
    let mut h = DnsHeader::new();
    h.id = 0x1234;
    h.response = true;
    h.operation_code = 2;
    h.authoritative_answer = true;
    h.recursion_desired = true;
    h.recursion_avilable = true;
    h.response_code = ResultCode::NXDOMAIN;
    h.questions = 1;
    h.answers = 2;
    h
}

#[test]
fn header_write_bytes() {
    let mut b = BytePacketBuffer::new();
    assert_eq!(sample_header().write(&mut b), Ok(()));
    assert_eq!(&b.buf[0..12], &[0, 0x34, 0x95, 0x83, 0, 1, 0, 2, 0, 0, 0, 0]);
    assert_eq!(b.pos(), 12);
}

#[test]
fn header_read_back() {
    let mut b = BytePacketBuffer::new();
    sample_header().write(&mut b).unwrap();
    b.seek(0).unwrap();
    let mut h = DnsHeader::new();
    assert_eq!(h.read(&mut b), Ok(()));
    assert_eq!(h.id, 0x34);
    assert!(h.response);
    assert_eq!(h.operation_code, 2);
    assert!(h.authoritative_answer);
    assert!(!h.truncated_message);
    assert!(h.recursion_desired);
    assert!(h.recursion_avilable);
    assert!(!h.z && !h.authed_data && !h.checking_disabled);
    assert_eq!(h.response_code, ResultCode::NXDOMAIN);
    assert_eq!((h.questions, h.answers, h.authority_rrs, h.additional_rrs), (1, 2, 0, 0));
    assert_eq!(b.pos(), 12);
}

#[test]
fn header_opcode_high_bit_lands_on_response_flag() {
    let mut h = DnsHeader::new();
    h.operation_code = 0x1f;
    let mut b = BytePacketBuffer::new();
    h.write(&mut b).unwrap();
    b.seek(0).unwrap();
    let mut r = DnsHeader::new();
    r.read(&mut b).unwrap();
    assert_eq!(r.operation_code, 0x0f);
    assert!(r.response);
}

#[test]
fn header_read_running_off_the_end_keeps_what_it_read() {
    let mut b = BytePacketBuffer::new();
    b.buf[506..512].copy_from_slice(&[0x12, 0x34, 0x81, 0x80, 0x00, 0x07]);
    b.seek(506).unwrap();
    let mut h = DnsHeader::new();
    h.answers = 9;
    assert_eq!(h.read(&mut b), Err(BufferError::EndOfBufferToRead));
    assert_eq!(h.id, 0x1234);
    assert!(h.response && h.recursion_desired && h.recursion_avilable);
    assert_eq!(h.questions, 7);
    assert_eq!(h.answers, 9);
    assert_eq!(b.pos(), 512);
}

#[test]
fn question_write_and_read_back() {
    let q = DnsQuestion::new("Example.com".to_string(), QueryType::MX);
    let mut b = BytePacketBuffer::new();
    assert_eq!(q.write(&mut b), Ok(()));
    let expected: &[u8] = &[7, b'E', b'x', b'a', b'm', b'p', b'l', b'e', 3, b'c', b'o', b'm', 0, 0, 15, 0, 1];
    assert_eq!(&b.buf[0..17], expected);
    b.seek(0).unwrap();
    let mut r = DnsQuestion::new(String::new(), QueryType::UNKOWN(0));
    assert_eq!(r.read(&mut b), Ok(()));
    assert_eq!(r, DnsQuestion::new("example.com".to_string(), QueryType::MX));
    assert_eq!(b.pos(), 17);
}

#[test]
fn question_type_number_keeps_only_its_low_byte() {
    let q = DnsQuestion::new("a".to_string(), QueryType::UNKOWN(0x0105));
    let mut b = BytePacketBuffer::new();
    q.write(&mut b).unwrap();
    b.seek(0).unwrap();
    let mut r = DnsQuestion::new(String::new(), QueryType::UNKOWN(0));
    r.read(&mut b).unwrap();
    assert_eq!(r.qtype, QueryType::CNAME);
}

fn answer_bytes(rtype: u16, rdata: &[u8]) -> Vec<u8> {
    let mut v = vec![7, b'e', b'x', b'a', b'm', b'p', b'l', b'e', 3, b'c', b'o', b'm', 0];
    v.extend_from_slice(&[(rtype >> 8) as u8, rtype as u8, 0, 1, 0, 0, 0x0e, 0x10]);
    v.extend_from_slice(&[(rdata.len() >> 8) as u8, rdata.len() as u8]);
    v.extend_from_slice(rdata);
    v
}

#[test]
fn read_a_record() {
    let bytes = answer_bytes(1, &[93, 184, 216, 34]);
    let mut b = buffer_with(&bytes);
    let r = DnsRecord::read(&mut b).unwrap();
    assert_eq!(
        r,
        DnsRecord::A { domain: "example.com".to_string(), addr: Ipv4Addr::new(93, 184, 216, 34), ttl: 3600 }
    );
    assert_eq!(b.pos(), bytes.len());
}

#[test]
fn read_aaaa_record() {
    let data = [0x26, 0x06, 0x28, 0x00, 0x02, 0x20, 0x00, 0x01, 0x02, 0x48, 0x18, 0x93, 0x25, 0xc8, 0x19, 0x46];
    let bytes = answer_bytes(28, &data);
    let mut b = buffer_with(&bytes);
    let r = DnsRecord::read(&mut b).unwrap();
    assert_eq!(
        r,
        DnsRecord::AAAA {
            domain: "example.com".to_string(),
            addr: Ipv6Addr::new(0x2606, 0x2800, 0x0220, 0x0001, 0x0248, 0x1893, 0x25c8, 0x1946),
            ttl: 3600,
        }
    );
    assert_eq!(b.pos(), bytes.len());
}

#[test]
fn read_mx_record_with_pointer() {
    let bytes = answer_bytes(15, &[0, 10, 4, b'm', b'a', b'i', b'l', 0xc0, 0x00]);
    let mut b = buffer_with(&bytes);
    let r = DnsRecord::read(&mut b).unwrap();
    assert_eq!(
        r,
        DnsRecord::MX {
            domain: "example.com".to_string(),
            priority: 10,
            host: "mail.example.com".to_string(),
            ttl: 3600,
        }
    );
    assert_eq!(b.pos(), bytes.len());
}

#[test]
fn read_cname_record_comes_back_as_ns() {
    let bytes = answer_bytes(5, &[3, b'w', b'w', b'w', 0xc0, 0x00]);
    let mut b = buffer_with(&bytes);
    let r = DnsRecord::read(&mut b).unwrap();
    assert_eq!(
        r,
        DnsRecord::NS { domain: "example.com".to_string(), host: "www.example.com".to_string(), ttl: 3600 }
    );
}

#[test]
fn read_unknown_record_skips_its_data() {
    let bytes = answer_bytes(16, &[2, b'h', b'i']);
    let mut b = buffer_with(&bytes);
    let r = DnsRecord::read(&mut b).unwrap();
    assert_eq!(
        r,
        DnsRecord::UNKOWN { domain: "example.com".to_string(), qtype: 16, ttl: 3600, data_len: 3 }
    );
    assert_eq!(b.pos(), bytes.len());
}

#[test]
fn read_record_truncated_fails() {
    let mut b = BytePacketBuffer::new();
    b.buf[505..512].copy_from_slice(&[1, b'a', 0, 0, 1, 0, 1]);
    b.seek(505).unwrap();
    assert_eq!(DnsRecord::read(&mut b), Err(BufferError::EndOfBufferToRead));
    assert_eq!(b.pos(), 512);
}

#[test]
fn write_ns_record_sets_data_length() {
    let r = DnsRecord::NS { domain: "a".to_string(), host: "b".to_string(), ttl: 1 };
    let mut b = BytePacketBuffer::new();
    assert_eq!(r.write(&mut b), Ok(()));
    let expected: &[u8] = &[1, b'a', 0, 0, 2, 0, 1, 0, 0, 0, 1, 0, 3, 1, b'b', 0];
    assert_eq!(&b.buf[0..16], expected);
    assert_eq!(b.pos(), 16);
}

#[test]
fn write_mx_record_sets_data_length() {
    let r = DnsRecord::MX { domain: "a".to_string(), priority: 10, host: "b".to_string(), ttl: 1 };
    let mut b = BytePacketBuffer::new();
    assert_eq!(r.write(&mut b), Ok(()));
    let expected: &[u8] = &[1, b'a', 0, 0, 15, 0, 1, 0, 0, 0, 1, 0, 5, 0, 10, 1, b'b', 0];
    assert_eq!(&b.buf[0..18], expected);
    assert_eq!(b.pos(), 18);
}

#[test]
fn write_unknown_record_writes_nothing() {
    let r = DnsRecord::UNKOWN { domain: "a".to_string(), qtype: 16, ttl: 1, data_len: 3 };
    let mut b = BytePacketBuffer::new();
    assert_eq!(r.write(&mut b), Ok(()));
    assert_eq!(b.pos(), 0);
    assert!(b.buf.iter().all(|&x| x == 0));
}

#[test]
fn records_read_back() {
    let records = vec![
        DnsRecord::A { domain: "example.com".to_string(), addr: Ipv4Addr::new(10, 0, 0, 1), ttl: 200 },
        DnsRecord::NS { domain: "example.com".to_string(), host: "ns1.example.com".to_string(), ttl: 7 },
        DnsRecord::CNAME { domain: "www.example.com".to_string(), host: "example.com".to_string(), ttl: 7 },
        DnsRecord::MX { domain: "example.com".to_string(), priority: 0x0105, host: "mx.example.com".to_string(), ttl: 0x1234 },
        DnsRecord::AAAA { domain: "v6.example.com".to_string(), addr: Ipv6Addr::new(0x2001, 0xdb8, 0, 0, 0, 0, 0, 0x1), ttl: 60 },
    ];
    let expected = vec![
        DnsRecord::A { domain: "example.com".to_string(), addr: Ipv4Addr::new(10, 0, 0, 1), ttl: 200 },
        DnsRecord::NS { domain: "example.com".to_string(), host: "ns1.example.com".to_string(), ttl: 7 },
        DnsRecord::NS { domain: "www.example.com".to_string(), host: "example.com".to_string(), ttl: 7 },
        DnsRecord::MX { domain: "example.com".to_string(), priority: 0x05, host: "mx.example.com".to_string(), ttl: 0x34 },
        DnsRecord::AAAA { domain: "v6.example.com".to_string(), addr: Ipv6Addr::new(0x01, 0xb8, 0, 0, 0, 0, 0, 0x1), ttl: 60 },
    ];
    for (r, e) in records.iter().zip(expected.iter()) {
        let mut b = BytePacketBuffer::new();
        r.write(&mut b).unwrap();
        let end = b.pos();
        b.seek(0).unwrap();
        assert_eq!(&DnsRecord::read(&mut b).unwrap(), e);
        assert_eq!(b.pos(), end);
    }
}

fn sample_response() -> Vec<u8> {
    let mut v = vec![0xab, 0xcd, 0x81, 0x80, 0, 1, 0, 1, 0, 0, 0, 0];
    v.extend_from_slice(&[7, b'e', b'x', b'a', b'm', b'p', b'l', b'e', 3, b'c', b'o', b'm', 0, 0, 1, 0, 1]);
    v.extend_from_slice(&[0xc0, 0x0c, 0, 1, 0, 1, 0, 0, 0x0e, 0x10, 0, 4, 93, 184, 216, 34]);
    v
}

#[test]
fn from_buffer_reads_a_response() {
    let bytes = sample_response();
    let mut b = buffer_with(&bytes);
    let p = DnsPacket::from_buffer(&mut b).unwrap();
    assert_eq!(p.header.id, 0xabcd);
    assert!(p.header.response && p.header.recursion_desired && p.header.recursion_avilable);
    assert_eq!(p.header.response_code, ResultCode::NOERROR);
    assert_eq!(p.questions, vec![DnsQuestion::new("example.com".to_string(), QueryType::A)]);
    assert_eq!(
        p.answers,
        vec![DnsRecord::A { domain: "example.com".to_string(), addr: Ipv4Addr::new(93, 184, 216, 34), ttl: 3600 }]
    );
    assert!(p.authorities.is_empty() && p.resources.is_empty());
    assert_eq!(b.pos(), bytes.len());
}

#[test]
fn from_buffer_past_the_end_fails() {
    let mut header_only = BytePacketBuffer::new();
    header_only.seek(505).unwrap();
    assert_eq!(DnsPacket::from_buffer(&mut header_only).err(), Some(BufferError::EndOfBufferToRead));
    assert_eq!(header_only.pos(), 512);
}

#[test]
fn packet_write_sets_counts() {
    let mut p = DnsPacket::new();
    p.header.id = 6666;
    p.header.questions = 9;
    p.header.recursion_desired = true;
    p.questions.push(DnsQuestion::new("www.yahoo.com".to_string(), QueryType::A));
    let mut b = BytePacketBuffer::new();
    assert_eq!(p.write(&mut b), Ok(()));
    assert_eq!((p.header.questions, p.header.answers), (1, 0));
    assert_eq!(&b.buf[0..12], &[0, 6666u16 as u8, 1, 0, 0, 1, 0, 0, 0, 0, 0, 0]);
    assert_eq!(b.pos(), 12 + 15 + 4);
}

#[test]
fn packet_write_then_from_buffer() {
    let bytes = sample_response();
    let mut b = buffer_with(&bytes);
    let mut p = DnsPacket::from_buffer(&mut b).unwrap();
    let mut out = BytePacketBuffer::new();
    assert_eq!(p.write(&mut out), Ok(()));
    let end = out.pos();
    out.seek(0).unwrap();
    let q = DnsPacket::from_buffer(&mut out).unwrap();
    assert_eq!(out.pos(), end);
    assert_eq!(q.header.id, 0xcd);
    assert_eq!(q.questions, p.questions);
    assert_eq!(
        q.answers,
        vec![DnsRecord::A { domain: "example.com".to_string(), addr: Ipv4Addr::new(93, 184, 216, 34), ttl: 0x10 }]
    );
}

#[test]
fn packet_write_too_large_fails() {
    let mut p = DnsPacket::new();
    let long = "a".repeat(60);
    let name = vec![long.clone(), long.clone(), long.clone(), long].join(".");
    for _ in 0..3 {
        p.questions.push(DnsQuestion::new(name.clone(), QueryType::A));
    }
    let mut b = BytePacketBuffer::new();
    assert_eq!(p.write(&mut b), Err(BufferError::EndOfBufferToWrite));
    assert_eq!(b.pos(), 512);
}
