//! What holds of the library as a whole: what reading gives back of what
//! writing wrote.
use vstd::prelude::*;
use vstd::utf8::encode_utf8;
use crate::bytepacketbuffer::{be16, be32, name_ends, name_end, name_walk, run, state_of, u16_steps, u32_steps, BytePacketBuffer, WStep};
use crate::dns::kinddns::{parse_packet, parse_questions, parse_records, put_packet, PacketView};
use crate::dns::{
    avail, header_as_read, header_read_from, header_steps, lemma_result_code_roundtrip, parse_name,
    parse_question, parse_record, put_record, qtype_num, qtype_of, question_steps, result_code_num,
    result_code_of, DnsHeader, Parsed, QueryType, QuestionView, RecordView, ResultCode, name_steps,
    record_head, rdata_steps, length_patched, DnsRecord, flags_hi, flags_lo, bit,
    lemma_header_read_from, lemma_header_prefix_step, new_header, head_steps,
};
use crate::wire::{
    lemma_header_bytes, lemma_header_read_back, lemma_overwrite_holds, lemma_parse_name_encoded,
    lemma_parse_packet_wire, lemma_parse_question_wire, lemma_parse_record_wire, lemma_put_packet_ok,
    lemma_put_record_ok, lemma_question_bytes, lemma_run_ok, lemma_u16_bytes, lemma_u32_bytes,
    lemma_byte_steps_bytes, name_text, packet_as_read, packet_writable, question_as_read, record_as_read,
    record_writable, wire_name_ok, lemma_checked_fits, lemma_checked_u16, lemma_checked_u32,
    lemma_checked_bytes, lemma_checked_header, lemma_checked_append, lemma_put_record_fits,
    lemma_put_packet_fits, name_wire, rdata_wire, rdata_raw, len16, lemma_head_bytes, lemma_segs_wire,
    segs_wire, steps_bytes, head_wire, question_wire, record_wire, packet_wire, header_wire,
};

verus! {

/// Reading back a 16-bit value that `write_u16` wrote gives its low byte:
/// the high byte is written as zero.
pub proof fn law_u16_read_back(b: BytePacketBuffer, v: u16)
    requires
        run(state_of(b), u16_steps(v)).err is None,
    ensures
        run(state_of(b), u16_steps(v)).pos == b.pos + 2,
        b.pos + 2 <= 512,
        be16(run(state_of(b), u16_steps(v)).buf, b.pos as int) == v % 256,
{
    lemma_run_ok(state_of(b), u16_steps(v));
    lemma_u16_bytes(v);
    let w = run(state_of(b), u16_steps(v));
    assert(w.buf[b.pos as int] == 0u8);
    assert(w.buf[b.pos + 1] == (v % 256) as u8);
}

/// Reading back a 32-bit value that `write_u32` wrote gives its low byte:
/// the other bytes are written as zero.
pub proof fn law_u32_read_back(b: BytePacketBuffer, v: u32)
    requires
        run(state_of(b), u32_steps(v)).err is None,
    ensures
        run(state_of(b), u32_steps(v)).pos == b.pos + 4,
        b.pos + 4 <= 512,
        be32(run(state_of(b), u32_steps(v)).buf, b.pos as int) == v % 256,
{
    lemma_run_ok(state_of(b), u32_steps(v));
    lemma_u32_bytes(v);
    let w = run(state_of(b), u32_steps(v));
    assert(w.buf[b.pos as int] == 0u8);
    assert(w.buf[b.pos + 1] == 0u8);
    assert(w.buf[b.pos + 2] == 0u8);
    assert(w.buf[b.pos + 3] == (v % 256) as u8);
}

/// Reading back a 16-bit value that `set_u16` set gives the value itself.
pub proof fn law_set_u16_read_back(buf: Seq<u8>, pos: int, v: u16)
    requires
        buf.len() == 512,
        0 <= pos,
        pos + 1 < 512,
    ensures
        be16(buf.update(pos, (v / 256) as u8).update(pos + 1, (v % 256) as u8), pos) == v,
{
}

/// Reading back a name that `write_qname` wrote gives the text of its
/// labels (each decoded and lowercased) joined by dots, and moves the cursor
/// just past it, when every label is non-empty and shorter than 192 bytes.
pub proof fn law_qname_read_back(b: BytePacketBuffer, name: Seq<char>)
    requires
        wire_name_ok(encode_utf8(name)),
        run(state_of(b), name_steps(name)).err is None,
    ensures
        name_ends(run(state_of(b), name_steps(name)).buf, b.pos as int),
        parse_name(run(state_of(b), name_steps(name)).buf, b.pos as int) == Parsed::Got(
            name_text(encode_utf8(name), false),
            run(state_of(b), name_steps(name)).pos,
        ),
{
    let bytes = crate::bytepacketbuffer::encode_name(encode_utf8(name));
    lemma_run_ok(state_of(b), name_steps(name));
    lemma_byte_steps_bytes(bytes);
    lemma_overwrite_holds(b.buf@, b.pos as int, bytes);
    lemma_parse_name_encoded(run(state_of(b), name_steps(name)).buf, b.pos as int, encode_utf8(name));
}

/// Reading back a header that `DnsHeader::write` wrote, into any header,
/// gives `header_as_read` of it.
pub proof fn law_header_read_back(b: BytePacketBuffer, h: DnsHeader, into: DnsHeader)
    requires
        run(state_of(b), header_steps(h)).err is None,
    ensures
        run(state_of(b), header_steps(h)).pos == b.pos + 12,
        b.pos + 12 <= 512,
        header_read_from(into, avail(run(state_of(b), header_steps(h)).buf, b.pos as int, 12)) == header_as_read(h),
{
    lemma_run_ok(state_of(b), header_steps(h));
    lemma_header_bytes(h);
    let w = run(state_of(b), header_steps(h));
    assert(avail(w.buf, b.pos as int, 12) =~= crate::wire::header_wire(h));
    lemma_header_read_back(into, h);
}

/// A header whose id and counts fit in a byte and whose operation code fits
/// in four bits reads back unchanged.
pub proof fn law_header_read_back_exact(h: DnsHeader)
    requires
        h.id < 256,
        h.questions < 256,
        h.answers < 256,
        h.authority_rrs < 256,
        h.additional_rrs < 256,
        h.operation_code < 16,
    ensures
        header_as_read(h) == h,
{
    let op = h.operation_code;
    assert(op & 15u8 == op && op & 16u8 == 0) by (bit_vector)
        requires
            op < 16,
    ;
}

/// Reading back a question that `DnsQuestion::write` wrote gives
/// `question_as_read` of it, when its name is well-formed.
pub proof fn law_question_read_back(b: BytePacketBuffer, q: QuestionView)
    requires
        wire_name_ok(encode_utf8(q.name)),
        run(state_of(b), question_steps(q.name, q.qtype)).err is None,
    ensures
        parse_question(run(state_of(b), question_steps(q.name, q.qtype)).buf, b.pos as int) == Parsed::Got(
            question_as_read(q),
            run(state_of(b), question_steps(q.name, q.qtype)).pos,
        ),
{
    lemma_run_ok(state_of(b), question_steps(q.name, q.qtype));
    lemma_question_bytes(q);
    lemma_overwrite_holds(b.buf@, b.pos as int, crate::wire::question_wire(q));
    lemma_parse_question_wire(run(state_of(b), question_steps(q.name, q.qtype)).buf, b.pos as int, q);
}

/// Reading back a record that `DnsRecord::write` wrote gives
/// `record_as_read` of it, when it is of a known type with well-formed names.
pub proof fn law_record_read_back(b: BytePacketBuffer, r: RecordView)
    requires
        record_writable(r),
        put_record(state_of(b), r).err is None,
    ensures
        parse_record(put_record(state_of(b), r).buf, b.pos as int) == Parsed::Got(
            record_as_read(r),
            put_record(state_of(b), r).pos,
        ),
{
    lemma_put_record_ok(state_of(b), r);
    crate::wire::lemma_rdata_bytes(r);
    lemma_overwrite_holds(b.buf@, b.pos as int, crate::wire::record_wire(r));
    lemma_parse_record_wire(put_record(state_of(b), r).buf, b.pos as int, r);
}

/// Reading back a packet that `DnsPacket::write` wrote gives
/// `packet_as_read` of it, when each section has fewer than 256 entries,
/// every name is well-formed and no record is of unknown type.
pub proof fn law_packet_read_back(b: BytePacketBuffer, p: PacketView)
    requires
        packet_writable(p),
        put_packet(state_of(b), p).err is None,
    ensures
        parse_packet(put_packet(state_of(b), p).buf, b.pos as int) == Parsed::Got(
            packet_as_read(p),
            put_packet(state_of(b), p).pos,
        ),
{
    lemma_put_packet_ok(state_of(b), p);
    lemma_overwrite_holds(b.buf@, b.pos as int, crate::wire::packet_wire(p));
    lemma_parse_packet_wire(put_packet(state_of(b), p).buf, b.pos as int, p);
}

/// A query type's number gives back the type, except for an unknown type
/// carrying the number of a known one.
pub proof fn law_query_type_round_trip(t: QueryType)
    requires
        t matches QueryType::UNKOWN(n) ==> n != 1 && n != 2 && n != 5 && n != 15 && n != 28,
    ensures
        qtype_of(qtype_num(t)) == t,
{
}

/// The number of the query type a number stands for is that number.
pub proof fn law_query_number_round_trip(n: u16)
    ensures
        qtype_num(qtype_of(n)) == n,
{
}

/// A response code's number gives back the response code.
pub proof fn law_result_code_round_trip(c: ResultCode)
    ensures
        result_code_of(result_code_num(c)) == c,
{
    lemma_result_code_roundtrip(c);
}

/// Writing a 16-bit value succeeds exactly when two bytes are left.
pub proof fn law_u16_write_fits(b: BytePacketBuffer, v: u16)
    ensures
        run(state_of(b), u16_steps(v)).err is None <==> b.pos + 2 <= 512,
{
    lemma_u16_bytes(v);
    if run(state_of(b), u16_steps(v)).err is None {
        lemma_run_ok(state_of(b), u16_steps(v));
    }
    if b.pos + 2 <= 512 {
        lemma_checked_u16(v);
        lemma_checked_fits(state_of(b), u16_steps(v));
    }
}

/// Writing a 32-bit value succeeds exactly when four bytes are left.
pub proof fn law_u32_write_fits(b: BytePacketBuffer, v: u32)
    ensures
        run(state_of(b), u32_steps(v)).err is None <==> b.pos + 4 <= 512,
{
    lemma_u32_bytes(v);
    if run(state_of(b), u32_steps(v)).err is None {
        lemma_run_ok(state_of(b), u32_steps(v));
    }
    if b.pos + 4 <= 512 {
        lemma_checked_u32(v);
        lemma_checked_fits(state_of(b), u32_steps(v));
    }
}

/// Writing a name succeeds exactly when its encoded bytes fit.
pub proof fn law_qname_write_fits(b: BytePacketBuffer, name: Seq<char>)
    ensures
        run(state_of(b), name_steps(name)).err is None <==> b.pos + name_wire(name).len() <= 512,
{
    lemma_byte_steps_bytes(name_wire(name));
    if run(state_of(b), name_steps(name)).err is None {
        lemma_run_ok(state_of(b), name_steps(name));
    }
    if b.pos + name_wire(name).len() <= 512 {
        lemma_checked_bytes(name_wire(name));
        lemma_checked_fits(state_of(b), name_steps(name));
    }
}

/// Writing a header succeeds exactly when twelve bytes are left.
pub proof fn law_header_write_fits(b: BytePacketBuffer, h: DnsHeader)
    ensures
        run(state_of(b), header_steps(h)).err is None <==> b.pos + 12 <= 512,
{
    lemma_header_bytes(h);
    assert(header_wire(h).len() == 12);
    if run(state_of(b), header_steps(h)).err is None {
        lemma_run_ok(state_of(b), header_steps(h));
    }
    if b.pos + 12 <= 512 {
        lemma_checked_header(h);
        lemma_checked_fits(state_of(b), header_steps(h));
    }
}

/// Writing a question succeeds exactly when its encoded bytes fit.
pub proof fn law_question_write_fits(b: BytePacketBuffer, q: QuestionView)
    ensures
        run(state_of(b), question_steps(q.name, q.qtype)).err is None <==> b.pos + question_wire(q).len() <= 512,
{
    let s = question_steps(q.name, q.qtype);
    lemma_question_bytes(q);
    if run(state_of(b), s).err is None {
        lemma_run_ok(state_of(b), s);
    }
    if b.pos + question_wire(q).len() <= 512 {
        lemma_checked_bytes(name_wire(q.name));
        lemma_checked_u16(qtype_num(q.qtype));
        lemma_checked_u16(1u16);
        lemma_checked_append(name_steps(q.name), u16_steps(qtype_num(q.qtype)));
        lemma_checked_append(name_steps(q.name) + u16_steps(qtype_num(q.qtype)), u16_steps(1u16));
        lemma_checked_fits(state_of(b), s);
    }
}

/// Writing a record succeeds exactly when it is of unknown type (nothing is
/// written) or its encoded bytes fit.
pub proof fn law_record_write_fits(b: BytePacketBuffer, r: RecordView)
    ensures
        put_record(state_of(b), r).err is None <==> (r is UNKOWN || b.pos + record_wire(r).len() <= 512),
{
    crate::wire::lemma_rdata_bytes(r);
    if put_record(state_of(b), r).err is None {
        lemma_put_record_ok(state_of(b), r);
    }
    if r is UNKOWN {
        assert(record_head(r) =~= Seq::<WStep>::empty());
        assert(rdata_steps(r) =~= Seq::<WStep>::empty());
    } else if b.pos + record_wire(r).len() <= 512 {
        lemma_put_record_fits(state_of(b), r);
    }
}

/// Writing a packet succeeds exactly when its encoded bytes fit.
pub proof fn law_packet_write_fits(b: BytePacketBuffer, p: PacketView)
    ensures
        put_packet(state_of(b), p).err is None <==> b.pos + packet_wire(p).len() <= 512,
{
    lemma_put_packet_fits(state_of(b), p);
}

/// The time to live of a record.
pub open spec fn record_ttl(r: RecordView) -> u32 {
    match r {
        RecordView::UNKOWN { ttl, .. } => ttl,
        RecordView::A { ttl, .. } => ttl,
        RecordView::NS { ttl, .. } => ttl,
        RecordView::CNAME { ttl, .. } => ttl,
        RecordView::MX { ttl, .. } => ttl,
        RecordView::AAAA { ttl, .. } => ttl,
    }
}

/// The owner name of a record.
pub open spec fn record_domain(r: RecordView) -> Seq<char> {
    match r {
        RecordView::UNKOWN { domain, .. } => domain,
        RecordView::A { domain, .. } => domain,
        RecordView::NS { domain, .. } => domain,
        RecordView::CNAME { domain, .. } => domain,
        RecordView::MX { domain, .. } => domain,
        RecordView::AAAA { domain, .. } => domain,
    }
}

/// A record read from the bytes of a buffer carries what those bytes say.
/// After the owner name (ending at `e`) come the type (bytes `e`, `e+1`),
/// the class, the time to live (the full big-endian value of bytes `e+4` to
/// `e+7`) and the data length (bytes `e+8`, `e+9`); type 1 gives an A record
/// with the next four bytes as its address, types 2 and 5 an NS record,
/// type 15 an MX record with the next two bytes as its priority, type 28 an
/// AAAA record, and any other type an unknown-type record that keeps its
/// type number and data length and whose data is skipped.
pub proof fn law_record_read_fields(buf: Seq<u8>, pos: int)
    ensures
        parse_record(buf, pos) matches Parsed::Got(r, end) ==> {
            let e = name_end(buf, pos);
            let t = buf[e] * 256 + buf[e + 1];
            &&& e + 10 <= 512
            &&& record_domain(r) == name_walk(buf, pos)->text
            &&& record_ttl(r) == buf[e + 4] * 16777216 + buf[e + 5] * 65536 + buf[e + 6] * 256 + buf[e + 7]
            &&& t == 1 ==> (r matches RecordView::A { addr, .. } && addr == buf.subrange(e + 10, e + 14)
                && end == e + 14)
            &&& (t == 2 || t == 5) ==> (r matches RecordView::NS { host, .. } && host == name_walk(buf, e + 10)->text)
            &&& t == 15 ==> (r matches RecordView::MX { priority, host, .. } && priority == buf[e + 10] * 256
                + buf[e + 11] && host == name_walk(buf, e + 12)->text)
            &&& t == 28 ==> (r matches RecordView::AAAA { addr, .. } && end == e + 26 && addr.len() == 8
                && forall|i: int| 0 <= i < 8 ==> #[trigger] addr[i] == buf[e + 10 + 2 * i] * 256 + buf[e + 11 + 2 * i])
            &&& (t != 1 && t != 2 && t != 5 && t != 15 && t != 28) ==> (r matches RecordView::UNKOWN {
                qtype,
                data_len,
                ..
            } && qtype == t && data_len == buf[e + 8] * 256 + buf[e + 9] && end == e + 10 + data_len)
        },
{
    if let Parsed::Got(r, end) = parse_record(buf, pos) {
        let e = name_end(buf, pos);
        if let RecordView::AAAA { addr, .. } = r {
            assert forall|i: int| 0 <= i < 8 implies #[trigger] addr[i] == buf[e + 10 + 2 * i] * 256 + buf[e + 11
                + 2 * i] by {
                assert(addr[i] == be16(buf, e + 10 + 2 * i) as u16);
            }
        }
    }
}

/// In a record that a write left, the data length field (the two bytes
/// after the owner name, type, class and time to live) holds the number of
/// data bytes that follow it; an A record's data is its address.
pub proof fn law_record_data_length(b: BytePacketBuffer, rec: DnsRecord)
    requires
        !(rec@ is UNKOWN),
        put_record(state_of(b), rec@).err is None,
    ensures
        ({
            let w = put_record(state_of(b), rec@);
            let h = b.pos + name_wire(record_domain(rec@)).len() + 8;
            &&& h + 2 <= w.pos <= 512
            &&& w.buf[h] * 256 + w.buf[h + 1] == w.pos - (h + 2)
            &&& rec@ matches RecordView::A { addr, .. } ==> w.buf.subrange(h + 2, h + 6) == addr
        }),
{
    let st = state_of(b);
    let r = rec@;
    lemma_put_record_ok(st, r);
    crate::wire::lemma_rdata_bytes(r);
    let hs = steps_bytes(record_head(r));
    match r {
        RecordView::A { domain, ttl, .. } => lemma_head_bytes(domain, 1, ttl),
        RecordView::NS { domain, ttl, .. } => lemma_head_bytes(domain, 2, ttl),
        RecordView::CNAME { domain, ttl, .. } => lemma_head_bytes(domain, 5, ttl),
        RecordView::MX { domain, ttl, .. } => lemma_head_bytes(domain, 15, ttl),
        RecordView::AAAA { domain, ttl, .. } => lemma_head_bytes(domain, 28, ttl),
        RecordView::UNKOWN { .. } => {},
    }
    assert(hs.len() == name_wire(record_domain(r)).len() + 8);
    let rw = rdata_wire(r);
    let wire = record_wire(r);
    let w = put_record(st, r);
    let h = b.pos + hs.len();
    assert(wire.len() == hs.len() + rw.len());
    assert forall|i: int| 0 <= i < rw.len() implies w.buf[h + i] == #[trigger] rw[i] by {
        assert(wire[hs.len() + i] == rw[i]);
    }
    if length_patched(r) {
        let raw = rdata_raw(r);
        assert(rw.len() == raw.len());
        assert(rw[0] == len16(raw.len() - 2)[0]);
        assert(rw[1] == len16(raw.len() - 2)[1]);
    } else {
        reveal(rdata_wire);
        match rec {
            DnsRecord::A { addr, .. } => {
                assert(addr.octets@.len() == 4);
                assert(rw == seq![0u8, 4u8] + addr.octets@);
                assert(rw[0] == 0u8 && rw[1] == 4u8);
                assert forall|i: int| 0 <= i < 4 implies #[trigger] w.buf.subrange(h + 2, h + 6)[i] == addr.octets@[i] by {
                    assert(rw[2 + i] == addr.octets@[i]);
                    assert(w.buf[h + (2 + i)] == rw[2 + i]);
                }
                assert(w.buf.subrange(h + 2, h + 6) =~= addr.octets@);
            },
            DnsRecord::AAAA { addr, .. } => {
                assert(addr.segments@.len() == 8);
                lemma_segs_wire(addr.segments@);
                assert(rw == seq![0u8, 16u8] + segs_wire(addr.segments@));
                assert(rw[0] == 0u8 && rw[1] == 16u8);
            },
            _ => {},
        }
    }
}

/// The twelve header bytes that a header write leaves: the id and each
/// count as a zero byte then their low byte; in the third byte, bit 0x01
/// is recursion desired, 0x02 truncated message, 0x04 authoritative answer,
/// bits 3 to 6 the low four bits of the operation code and 0x80 the
/// response flag (or the operation code's fifth bit); in the fourth byte,
/// the low four bits are the response code's number, 0x10 is checking
/// disabled, 0x20 authenticated data, 0x40 z and 0x80 recursion available.
pub proof fn law_header_bytes_written(b: BytePacketBuffer, h: DnsHeader)
    requires
        run(state_of(b), header_steps(h)).err is None,
    ensures
        ({
            let w = run(state_of(b), header_steps(h)).buf;
            let p = b.pos as int;
            let x = w[p + 2];
            let y = w[p + 3];
            &&& p + 12 <= 512
            &&& w[p] == 0 && w[p + 1] == h.id % 256
            &&& w[p + 4] == 0 && w[p + 5] == h.questions % 256
            &&& w[p + 6] == 0 && w[p + 7] == h.answers % 256
            &&& w[p + 8] == 0 && w[p + 9] == h.authority_rrs % 256
            &&& w[p + 10] == 0 && w[p + 11] == h.additional_rrs % 256
            &&& (x & 0x01u8 != 0) == h.recursion_desired
            &&& (x & 0x02u8 != 0) == h.truncated_message
            &&& (x & 0x04u8 != 0) == h.authoritative_answer
            &&& (x >> 3u8) & 0x0fu8 == h.operation_code & 0x0fu8
            &&& (x & 0x80u8 != 0) == (h.response || h.operation_code & 0x10u8 != 0)
            &&& (y & 0x10u8 != 0) == h.checking_disabled
            &&& (y & 0x20u8 != 0) == h.authed_data
            &&& (y & 0x40u8 != 0) == h.z
            &&& (y & 0x80u8 != 0) == h.recursion_avilable
            &&& h.response_code is NOERROR ==> y & 0x0fu8 == 0
            &&& h.response_code is FORMERR ==> y & 0x0fu8 == 1
            &&& h.response_code is SERVFAIL ==> y & 0x0fu8 == 2
            &&& h.response_code is NXDOMAIN ==> y & 0x0fu8 == 3
            &&& h.response_code is NOTIMP ==> y & 0x0fu8 == 4
            &&& h.response_code is REFUSED ==> y & 0x0fu8 == 5
        }),
{
    let st = state_of(b);
    lemma_run_ok(st, header_steps(h));
    lemma_header_bytes(h);
    let hw = header_wire(h);
    let w = run(st, header_steps(h)).buf;
    let p = b.pos as int;
    assert forall|i: int| 0 <= i < 12 implies w[p + i] == #[trigger] hw[i] by {}
    assert(w[p + 2] == flags_hi(h));
    assert(w[p + 3] == flags_lo(h));
    let rd = bit(h.recursion_desired);
    let tc = bit(h.truncated_message);
    let aa = bit(h.authoritative_answer);
    let op = h.operation_code;
    let qr = bit(h.response);
    let x = flags_hi(h);
    assert(
        (x & 0x01u8 != 0) == (rd == 1) && (x & 0x02u8 != 0) == (tc == 1) && (x & 0x04u8 != 0) == (aa == 1)
        && (x >> 3u8) & 0x0fu8 == op & 0x0fu8 && (x & 0x80u8 != 0) == (qr == 1 || op & 0x10u8 != 0)
    ) by (bit_vector)
        requires
            rd <= 1,
            tc <= 1,
            aa <= 1,
            qr <= 1,
            x == rd | (tc << 1u8) | (aa << 2u8) | (op << 3u8) | (qr << 7u8),
    ;
    let rc = result_code_num(h.response_code);
    let cd = bit(h.checking_disabled);
    let ad = bit(h.authed_data);
    let z = bit(h.z);
    let ra = bit(h.recursion_avilable);
    let y = flags_lo(h);
    assert(
        y & 0x0fu8 == rc && (y & 0x10u8 != 0) == (cd == 1) && (y & 0x20u8 != 0) == (ad == 1)
        && (y & 0x40u8 != 0) == (z == 1) && (y & 0x80u8 != 0) == (ra == 1)
    ) by (bit_vector)
        requires
            rc <= 5,
            cd <= 1,
            ad <= 1,
            z <= 1,
            ra <= 1,
            y == rc | (cd << 4u8) | (ad << 5u8) | (z << 6u8) | (ra << 7u8),
    ;
}

/// A header read from twelve bytes carries what they say: the id and the
/// counts are the big-endian values of their byte pairs, and the flags are
/// the bits of the third and fourth bytes as `law_header_bytes_written`
/// places them; a response code number above 5 reads as NOERROR.
pub proof fn law_header_bytes_read(into: DnsHeader, d: Seq<u8>)
    requires
        d.len() == 12,
    ensures
        ({
            let r = header_read_from(into, d);
            let x = d[2];
            let y = d[3];
            let c = y & 0x0fu8;
            &&& r.id == d[0] * 256 + d[1]
            &&& r.questions == d[4] * 256 + d[5]
            &&& r.answers == d[6] * 256 + d[7]
            &&& r.authority_rrs == d[8] * 256 + d[9]
            &&& r.additional_rrs == d[10] * 256 + d[11]
            &&& r.recursion_desired == (x & 0x01u8 != 0)
            &&& r.truncated_message == (x & 0x02u8 != 0)
            &&& r.authoritative_answer == (x & 0x04u8 != 0)
            &&& r.operation_code == (x >> 3u8) & 0x0fu8
            &&& r.response == (x & 0x80u8 != 0)
            &&& r.checking_disabled == (y & 0x10u8 != 0)
            &&& r.authed_data == (y & 0x20u8 != 0)
            &&& r.z == (y & 0x40u8 != 0)
            &&& r.recursion_avilable == (y & 0x80u8 != 0)
            &&& (c == 0 || c > 5) ==> r.response_code is NOERROR
            &&& c == 1 ==> r.response_code is FORMERR
            &&& c == 2 ==> r.response_code is SERVFAIL
            &&& c == 3 ==> r.response_code is NXDOMAIN
            &&& c == 4 ==> r.response_code is NOTIMP
            &&& c == 5 ==> r.response_code is REFUSED
        }),
{
    lemma_header_read_from(into, d, 6);
    lemma_header_prefix_step(into, d, 0);
    lemma_header_prefix_step(into, d, 1);
    lemma_header_prefix_step(into, d, 2);
    lemma_header_prefix_step(into, d, 3);
    lemma_header_prefix_step(into, d, 4);
    lemma_header_prefix_step(into, d, 5);
}

proof fn lemma_questions_count(buf: Seq<u8>, pos: int, n: nat)
    ensures
        parse_questions(buf, pos, n) matches Parsed::Got(qs, _) ==> qs.len() == n,
    decreases n,
{
    if n > 0 {
        lemma_questions_count(buf, pos, (n - 1) as nat);
    }
}

proof fn lemma_records_count(buf: Seq<u8>, pos: int, n: nat)
    ensures
        parse_records(buf, pos, n) matches Parsed::Got(rs, _) ==> rs.len() == n,
    decreases n,
{
    if n > 0 {
        lemma_records_count(buf, pos, (n - 1) as nat);
    }
}

/// A packet read from a buffer has, in each section, exactly as many
/// entries as its header counts (whatever their types), and those counts
/// are the big-endian values of header bytes 4 to 11.
pub proof fn law_packet_section_counts(b: BytePacketBuffer)
    ensures
        parse_packet(b.buf@, b.pos as int) matches Parsed::Got(p, _) ==> {
            &&& p.questions.len() == p.header.questions
            &&& p.answers.len() == p.header.answers
            &&& p.authorities.len() == p.header.authority_rrs
            &&& p.resources.len() == p.header.additional_rrs
            &&& p.header.questions == b.buf@[b.pos + 4] * 256 + b.buf@[b.pos + 5]
            &&& p.header.answers == b.buf@[b.pos + 6] * 256 + b.buf@[b.pos + 7]
            &&& p.header.authority_rrs == b.buf@[b.pos + 8] * 256 + b.buf@[b.pos + 9]
            &&& p.header.additional_rrs == b.buf@[b.pos + 10] * 256 + b.buf@[b.pos + 11]
        },
{
    let buf = b.buf@;
    let pos = b.pos as int;
    if pos + 12 <= 512 {
        let d = buf.subrange(pos, pos + 12);
        let h = header_read_from(new_header(), d);
        law_header_bytes_read(new_header(), d);
        lemma_questions_count(buf, pos + 12, h.questions as nat);
        if let Parsed::Got(qs, p1) = parse_questions(buf, pos + 12, h.questions as nat) {
            lemma_records_count(buf, p1, h.answers as nat);
            if let Parsed::Got(an, p2) = parse_records(buf, p1, h.answers as nat) {
                lemma_records_count(buf, p2, h.authority_rrs as nat);
                if let Parsed::Got(au, p3) = parse_records(buf, p2, h.authority_rrs as nat) {
                    lemma_records_count(buf, p3, h.additional_rrs as nat);
                }
            }
        }
    }
}

/// A question read from the bytes of a buffer carries what they say: the
/// name's text, then the type from the two bytes after the name (1 A, 2 NS,
/// 5 CNAME, 15 MX, 28 AAAA, any other number an unknown type keeping it);
/// the class after it is skipped.
pub proof fn law_question_read_fields(buf: Seq<u8>, pos: int)
    ensures
        parse_question(buf, pos) matches Parsed::Got(q, end) ==> {
            let e = name_end(buf, pos);
            let t = buf[e] * 256 + buf[e + 1];
            &&& end == e + 4 <= 512
            &&& q.name == name_walk(buf, pos)->text
            &&& t == 1 ==> q.qtype is A
            &&& t == 2 ==> q.qtype is NS
            &&& t == 5 ==> q.qtype is CNAME
            &&& t == 15 ==> q.qtype is MX
            &&& t == 28 ==> q.qtype is AAAA
            &&& (t != 1 && t != 2 && t != 5 && t != 15 && t != 28) ==> q.qtype == QueryType::UNKOWN(t as u16)
        },
{
}

/// The bytes a question write leaves: the encoded name, then a zero byte
/// and the low byte of the type number (1 A, 2 NS, 5 CNAME, 15 MX, 28
/// AAAA), then class 1 as the bytes 0 and 1.
pub proof fn law_question_bytes_written(b: BytePacketBuffer, q: QuestionView)
    requires
        run(state_of(b), question_steps(q.name, q.qtype)).err is None,
    ensures
        ({
            let w = run(state_of(b), question_steps(q.name, q.qtype));
            let n = name_wire(q.name).len();
            let p = b.pos as int;
            &&& w.pos == p + n + 4 <= 512
            &&& w.buf.subrange(p, p + n) == name_wire(q.name)
            &&& w.buf[p + n] == 0 && w.buf[p + n + 2] == 0 && w.buf[p + n + 3] == 1
            &&& q.qtype is A ==> w.buf[p + n + 1] == 1
            &&& q.qtype is NS ==> w.buf[p + n + 1] == 2
            &&& q.qtype is CNAME ==> w.buf[p + n + 1] == 5
            &&& q.qtype is MX ==> w.buf[p + n + 1] == 15
            &&& q.qtype is AAAA ==> w.buf[p + n + 1] == 28
            &&& q.qtype matches QueryType::UNKOWN(t) ==> w.buf[p + n + 1] == t % 256
        }),
{
    let st = state_of(b);
    let s = question_steps(q.name, q.qtype);
    lemma_run_ok(st, s);
    lemma_question_bytes(q);
    let qw = question_wire(q);
    let w = run(st, s);
    let n = name_wire(q.name).len() as int;
    let p = b.pos as int;
    assert forall|i: int| 0 <= i < qw.len() implies w.buf[p + i] == #[trigger] qw[i] by {}
    assert(w.buf.subrange(p, p + n) =~= name_wire(q.name)) by {
        assert forall|i: int| 0 <= i < n implies #[trigger] w.buf.subrange(p, p + n)[i] == name_wire(q.name)[i] by {
            assert(qw[i] == name_wire(q.name)[i]);
        }
    }
    assert(w.buf[p + n + 1] == qw[n + 1]);
}

/// The bytes a record write leaves before the record data: the encoded
/// owner name, the type number as a zero byte and its low byte (1 A, 2 NS,
/// 5 CNAME, 15 MX, 28 AAAA), class 1 as the bytes 0 and 1, and the time to
/// live as three zero bytes and its low byte; after the data length, an MX
/// record's priority is a zero byte and its low byte, and each segment of an
/// AAAA address a zero byte and its low byte.
pub proof fn law_record_bytes_written(b: BytePacketBuffer, rec: DnsRecord)
    requires
        !(rec@ is UNKOWN),
        put_record(state_of(b), rec@).err is None,
    ensures
        ({
            let w = put_record(state_of(b), rec@).buf;
            let r = rec@;
            let p = b.pos as int;
            let n = name_wire(record_domain(r)).len();
            let t = p + n;
            let h = t + 8;
            &&& w.subrange(p, t) == name_wire(record_domain(r))
            &&& w[t] == 0 && w[t + 2] == 0 && w[t + 3] == 1
            &&& w[t + 4] == 0 && w[t + 5] == 0 && w[t + 6] == 0 && w[t + 7] == record_ttl(r) % 256
            &&& r is A ==> w[t + 1] == 1
            &&& r is NS ==> w[t + 1] == 2
            &&& r is CNAME ==> w[t + 1] == 5
            &&& r is MX ==> w[t + 1] == 15
            &&& r is AAAA ==> w[t + 1] == 28
            &&& r matches RecordView::MX { priority, .. } ==> w[h + 2] == 0 && w[h + 3] == priority % 256
            &&& r matches RecordView::AAAA { addr, .. } ==> forall|i: int|
                0 <= i < 8 ==> w[h + 2 + 2 * i] == 0 && #[trigger] w[h + 3 + 2 * i] == addr[i] % 256
        }),
{
    let st = state_of(b);
    let r = rec@;
    lemma_put_record_ok(st, r);
    crate::wire::lemma_rdata_bytes(r);
    let hs = steps_bytes(record_head(r));
    let (tn, ttl) = match r {
        RecordView::A { ttl, .. } => (1u16, ttl),
        RecordView::NS { ttl, .. } => (2u16, ttl),
        RecordView::CNAME { ttl, .. } => (5u16, ttl),
        RecordView::MX { ttl, .. } => (15u16, ttl),
        RecordView::AAAA { ttl, .. } => (28u16, ttl),
        RecordView::UNKOWN { ttl, .. } => (0u16, ttl),
    };
    let domain = record_domain(r);
    lemma_head_bytes(domain, tn, ttl);
    assert(record_head(r) == head_steps(domain, tn, ttl));
    let hw = head_wire(domain, tn, ttl);
    assert(hs == hw);
    let rw = rdata_wire(r);
    let wire = record_wire(r);
    let w = put_record(st, r).buf;
    let p = b.pos as int;
    let n = name_wire(domain).len() as int;
    assert(wire.len() == hs.len() + rw.len());
    assert forall|i: int| 0 <= i < wire.len() implies w[p + i] == #[trigger] wire[i] by {}
    assert forall|i: int| 0 <= i < hw.len() implies #[trigger] wire[i] == hw[i] by {}
    assert forall|i: int| 0 <= i < rw.len() implies #[trigger] wire[hw.len() + i] == rw[i] by {}
    assert(w.subrange(p, p + n) =~= name_wire(domain)) by {
        assert forall|i: int| 0 <= i < n implies #[trigger] w.subrange(p, p + n)[i] == name_wire(domain)[i] by {
            assert(w[p + i] == wire[i]);
            assert(hw[i] == name_wire(domain)[i]);
        }
    }
    assert(w[p + n] == hw[n]);
    assert(w[p + n + 1] == hw[n + 1]);
    assert(w[p + n + 2] == hw[n + 2]);
    assert(w[p + n + 3] == hw[n + 3]);
    assert(w[p + n + 4] == hw[n + 4]);
    assert(w[p + n + 5] == hw[n + 5]);
    assert(w[p + n + 6] == hw[n + 6]);
    assert(w[p + n + 7] == hw[n + 7]);
    match rec {
        DnsRecord::MX { priority, host, .. } => {
            reveal(rdata_wire);
            assert(rw == len16(2 + name_wire(host@).len() as int) + seq![0u8, (priority % 256) as u8] + name_wire(host@));
            assert(rw[2] == 0u8 && rw[3] == (priority % 256) as u8);
            assert(w[p + n + 8 + 2] == rw[2]);
            assert(w[p + n + 8 + 3] == rw[3]);
        },
        DnsRecord::AAAA { addr, .. } => {
            reveal(rdata_wire);
            let sg = addr.segments@;
            assert(sg.len() == 8);
            lemma_segs_wire(sg);
            assert(rw == seq![0u8, 16u8] + segs_wire(sg));
            assert forall|i: int| 0 <= i < 8 implies w[p + n + 8 + 2 + 2 * i] == 0 && #[trigger] w[p + n + 8 + 3 + 2 * i]
                == sg[i] % 256 by {
                assert(rw[2 + 2 * i] == segs_wire(sg)[2 * i]);
                assert(rw[2 + (2 * i + 1)] == segs_wire(sg)[2 * i + 1]);
                assert(w[p + hw.len() + (2 + 2 * i)] == rw[2 + 2 * i]);
                assert(w[p + hw.len() + (2 + (2 * i + 1))] == rw[2 + (2 * i + 1)]);
            }
        },
        _ => {},
    }
}

} // verus!
