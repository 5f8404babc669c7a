use dnss::bytepacketbuffer::BytePacketBuffer;
use dnss::dns::kinddns::DnsPacket;
use dnss::dns::{DnsHeader, DnsQuestion, DnsRecord, Ipv4Addr, QueryType, ResultCode};

#[test]
fn u16_read_back_gives_the_low_byte() {
    let mut b = BytePacketBuffer::new();
    b.seek(100).unwrap();
    b.write_u16(0xabcd).unwrap();
    assert_eq!(b.pos(), 102);
    b.seek(100).unwrap();
    assert_eq!(b.read_u16(), Ok(0xcd));
}

#[test]
fn u32_read_back_gives_the_low_byte() {
    let mut b = BytePacketBuffer::new();
    b.write_u32(0x0102_03ff).unwrap();
    b.seek(0).unwrap();
    assert_eq!(b.read_u32(), Ok(0xff));
}

#[test]
fn set_u16_read_back_is_exact() {
    let mut b = BytePacketBuffer::new();
    b.set_u16(510, 0xabcd).unwrap();
    b.seek(510).unwrap();
    assert_eq!(b.read_u16(), Ok(0xabcd));
}

#[test]
fn qname_read_back_gives_lowercased_labels() {
    let mut b = BytePacketBuffer::new();
    b.seek(3).unwrap();
    b.write_qname("Mail.Example.ORG").unwrap();
    let end = b.pos();
    b.seek(3).unwrap();
    let mut s = String::new();
    b.read_qname(&mut s).unwrap();
    assert_eq!(s, "mail.example.org");
    assert_eq!(b.pos(), end);
}

#[test]
fn header_read_back_exact_for_small_values() {
    let mut h = DnsHeader::new();
    h.id = 200;
    h.operation_code = 15;
    h.truncated_message = true;
    h.z = true;
    h.authed_data = true;
    h.checking_disabled = true;
    h.response_code = ResultCode::REFUSED;
    h.additional_rrs = 255;
    let mut b = BytePacketBuffer::new();
    h.write(&mut b).unwrap();
    b.seek(0).unwrap();
    let mut r = DnsHeader::new();
    r.read(&mut b).unwrap();
    assert_eq!(r.id, 200);
    assert_eq!(r.operation_code, 15);
    assert!(!r.response && r.truncated_message && r.z && r.authed_data && r.checking_disabled);
    assert_eq!(r.response_code, ResultCode::REFUSED);
    assert_eq!(r.additional_rrs, 255);
}

#[test]
fn query_type_round_trips() {
    for t in [QueryType::A, QueryType::NS, QueryType::CNAME, QueryType::MX, QueryType::AAAA, QueryType::UNKOWN(16)] {
        assert_eq!(QueryType::from_num(t.to_num()), t);
    }
    for n in [0u16, 1, 2, 5, 15, 28, 65535] {
        assert_eq!(QueryType::from_num(n).to_num(), n);
    }
}

#[test]
fn packet_read_back() {
    let mut p = DnsPacket::new();
    p.header.id = 77;
    p.header.recursion_desired = true;
    p.questions.push(DnsQuestion::new("www.Yahoo.com".to_string(), QueryType::A));
    p.answers.push(DnsRecord::A { domain: "www.yahoo.com".to_string(), addr: Ipv4Addr::new(1, 2, 3, 4), ttl: 300 });
    p.resources.push(DnsRecord::CNAME { domain: "a.b".to_string(), host: "C.d".to_string(), ttl: 5 });
    let mut b = BytePacketBuffer::new();
    p.write(&mut b).unwrap();
    let end = b.pos();
    b.seek(0).unwrap();
    let q = DnsPacket::from_buffer(&mut b).unwrap();
    assert_eq!(b.pos(), end);
    assert_eq!(q.header.id, 77);
    assert!(q.header.recursion_desired);
    assert_eq!((q.header.questions, q.header.answers, q.header.authority_rrs, q.header.additional_rrs), (1, 1, 0, 1));
    assert_eq!(q.questions, vec![DnsQuestion::new("www.yahoo.com".to_string(), QueryType::A)]);
    assert_eq!(
        q.answers,
        vec![DnsRecord::A { domain: "www.yahoo.com".to_string(), addr: Ipv4Addr::new(1, 2, 3, 4), ttl: 300 % 256 }]
    );
    assert!(q.authorities.is_empty());
    assert_eq!(q.resources, vec![DnsRecord::NS { domain: "a.b".to_string(), host: "c.d".to_string(), ttl: 5 }]);
}

#[test]
fn writes_succeed_exactly_when_they_fit() {
    let mut b = BytePacketBuffer::new();
    b.seek(510).unwrap();
    assert!(b.write_u16(7).is_ok());
    b.seek(511).unwrap();
    assert!(b.write_u16(7).is_err());
    b.seek(508).unwrap();
    assert!(b.write_u32(7).is_ok());
    b.seek(509).unwrap();
    assert!(b.write_u32(7).is_err());
    b.seek(506).unwrap();
    assert!(b.write_qname("ab.c").is_ok());
    b.seek(507).unwrap();
    assert!(b.write_qname("ab.c").is_err());

    let h = DnsHeader::new();
    b.seek(500).unwrap();
    assert!(h.write(&mut b).is_ok());
    b.seek(501).unwrap();
    assert!(h.write(&mut b).is_err());

    let q = DnsQuestion::new("ab.c".to_string(), QueryType::MX);
    b.seek(502).unwrap();
    assert!(q.write(&mut b).is_ok());
    b.seek(503).unwrap();
    assert!(q.write(&mut b).is_err());

    let r = DnsRecord::A { domain: "ab.c".to_string(), addr: Ipv4Addr::new(9, 8, 7, 6), ttl: 1 };
    b.seek(492).unwrap();
    assert!(r.write(&mut b).is_ok());
    assert_eq!(b.pos(), 512);
    b.seek(493).unwrap();
    assert!(r.write(&mut b).is_err());

    let u = DnsRecord::UNKOWN { domain: "ab.c".to_string(), qtype: 99, ttl: 1, data_len: 4 };
    b.seek(600).unwrap();
    assert!(u.write(&mut b).is_ok());
    assert_eq!(b.pos(), 600);
}

#[test]
fn packet_write_succeeds_exactly_when_it_fits() {
    let mut p = DnsPacket::new();
    p.questions.push(DnsQuestion::new("ab.c".to_string(), QueryType::A));
    let mut b = BytePacketBuffer::new();
    b.seek(490).unwrap();
    assert!(p.write(&mut b).is_ok());
    assert_eq!(b.pos(), 512);
    b.seek(491).unwrap();
    assert!(p.write(&mut b).is_err());
}
