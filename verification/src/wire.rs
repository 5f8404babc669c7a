//! The bytes that a successful write leaves in the buffer.
use vstd::prelude::*;
use vstd::utf8::encode_utf8;
use crate::bytepacketbuffer::{
    apply_step, be16, be32, byte_steps, encode_labels, encode_name, label_len, label_text,
    lemma_label_len_bound, lemma_run_append, lemma_run_err, lemma_walk_fuel, name_ends, run, u16_steps, u32_steps,
    walk_name, NameWalk, WStep, WriteState,
};
use crate::dns::kinddns::{
    counted_header, lemma_put_questions_stop, lemma_put_records_stop, parse_packet, parse_questions,
    parse_records, put_packet, put_questions, put_records, PacketView,
};
use crate::dns::{
    flags_hi, flags_lo, head_steps, header_as_read, header_read_from, header_steps, ipv6_at,
    length_patched, lemma_flags_roundtrip, lemma_header_prefix_step, lemma_header_read_from,
    name_steps, new_header, parse_name, parse_question, parse_record, patch16, put_record,
    qtype_num, qtype_of, question_steps, rdata_steps, record_head, segs_steps, DnsHeader, Parsed,
    QuestionView, RecordView,
};

verus! {

/// The bytes that the steps write, in order.
pub open spec fn steps_bytes(s: Seq<WStep>) -> Seq<u8>
    decreases s.len(),
{
    if s.len() == 0 {
        Seq::empty()
    } else {
        match s[0] {
            WStep::Check(_) => steps_bytes(s.drop_first()),
            WStep::Byte(b) => seq![b] + steps_bytes(s.drop_first()),
        }
    }
}

/// `buf` with `bytes` written from `pos` on (positions outside `buf` are dropped).
pub open spec fn overwrite(buf: Seq<u8>, pos: int, bytes: Seq<u8>) -> Seq<u8> {
    Seq::new(buf.len(), |i: int| if pos <= i < pos + bytes.len() { bytes[i - pos] } else { buf[i] })
}

/// A write that succeeded wrote its bytes at the cursor, within the buffer,
/// and moved the cursor past them.
pub proof fn lemma_run_ok(st: WriteState, s: Seq<WStep>)
    requires
        st.err is None,
        st.buf.len() == 512,
        0 <= st.pos,
        run(st, s).err is None,
    ensures
        run(st, s).pos == st.pos + steps_bytes(s).len(),
        steps_bytes(s).len() > 0 ==> st.pos + steps_bytes(s).len() <= 512,
        run(st, s).buf == overwrite(st.buf, st.pos, steps_bytes(s)),
    decreases s.len(),
{
    if s.len() == 0 {
        assert(overwrite(st.buf, st.pos, Seq::empty()) =~= st.buf);
    } else {
        let st1 = apply_step(st, s[0]);
        if st1.err is Some {
            lemma_run_err(st1, s.drop_first());
        }
        lemma_run_ok(st1, s.drop_first());
        let rest = steps_bytes(s.drop_first());
        match s[0] {
            WStep::Check(_) => {},
            WStep::Byte(b) => {
                assert(overwrite(st.buf, st.pos, steps_bytes(s)) =~= overwrite(st1.buf, st1.pos, rest));
            },
        }
    }
}

pub proof fn lemma_steps_bytes_append(a: Seq<WStep>, b: Seq<WStep>)
    ensures
        steps_bytes(a + b) == steps_bytes(a) + steps_bytes(b),
    decreases a.len(),
{
    if a.len() == 0 {
        assert(a + b =~= b);
        assert(steps_bytes(a) + steps_bytes(b) =~= steps_bytes(b));
    } else {
        assert((a + b).drop_first() =~= a.drop_first() + b);
        lemma_steps_bytes_append(a.drop_first(), b);
        match a[0] {
            WStep::Check(_) => {},
            WStep::Byte(x) => {
                assert(seq![x] + (steps_bytes(a.drop_first()) + steps_bytes(b)) =~= (seq![x] + steps_bytes(a.drop_first())) + steps_bytes(b));
            },
        }
    }
}

pub proof fn lemma_byte_steps_bytes(bs: Seq<u8>)
    ensures
        steps_bytes(byte_steps(bs)) == bs,
    decreases bs.len(),
{
    if bs.len() > 0 {
        assert(byte_steps(bs).drop_first() =~= byte_steps(bs.drop_first()));
        lemma_byte_steps_bytes(bs.drop_first());
        assert(seq![bs[0]] + bs.drop_first() =~= bs);
    } else {
        assert(byte_steps(bs) =~= Seq::<WStep>::empty());
    }
}

pub proof fn lemma_u16_bytes(v: u16)
    ensures
        steps_bytes(u16_steps(v)) == seq![0u8, (v % 256) as u8],
{
    let s = u16_steps(v);
    let lo = (v % 256) as u8;
    let s1 = s.drop_first();
    let s2 = s1.drop_first();
    let s3 = s2.drop_first();
    assert(s3 =~= Seq::<WStep>::empty());
    assert(steps_bytes(s3) == Seq::<u8>::empty());
    assert(s2[0] == WStep::Byte(lo));
    assert(steps_bytes(s2) =~= seq![lo]);
    assert(s1[0] == WStep::Byte(0u8));
    assert(steps_bytes(s1) =~= seq![0u8, lo]);
}

#[verifier::rlimit(40)]
pub proof fn lemma_u32_bytes(v: u32)
    ensures
        steps_bytes(u32_steps(v)) == seq![0u8, 0u8, 0u8, (v % 256) as u8],
{
    let c = seq![WStep::Check(crate::bytepacketbuffer::BufferError::EndOfBufferToWriteU32)];
    lemma_steps_bytes_append(c + u16_steps(0u16), u16_steps((v % 65536) as u16));
    lemma_steps_bytes_append(c, u16_steps(0u16));
    lemma_u16_bytes(0u16);
    lemma_u16_bytes((v % 65536) as u16);
    assert(c.drop_first() =~= Seq::<WStep>::empty());
    assert(steps_bytes(c.drop_first()) == Seq::<u8>::empty());
    assert(steps_bytes(c) =~= Seq::<u8>::empty());
    assert(((v % 65536) as u16) % 256 == v % 256);
    assert(steps_bytes(u32_steps(v)) =~= seq![0u8, 0u8, 0u8, (v % 256) as u8]);
}

/// Names that `write_qname` writes in a form that `read_qname` reads back:
/// every dot-separated label is non-empty and shorter than 192 bytes (a
/// longer length byte would be read as a compression pointer).
pub open spec fn wire_name_ok(b: Seq<u8>) -> bool
    decreases b.len(),
{
    let k = label_len(b);
    0 < k < 192 && (k < b.len() ==> {
        proof {
            lemma_label_len_bound(b);
        }
        wire_name_ok(b.subrange((k + 1) as int, b.len() as int))
    })
}

/// The text that reading back the name with bytes `b` gives: the text of
/// each label, joined by dots (with a leading dot when `dotted`).
pub open spec fn name_text(b: Seq<u8>, dotted: bool) -> Seq<char>
    decreases b.len(),
{
    let k = label_len(b);
    let sep = if dotted {
        seq!['.']
    } else {
        Seq::empty()
    };
    sep + label_text(b.subrange(0, k as int)) + (if k < b.len() {
        proof {
            lemma_label_len_bound(b);
        }
        name_text(b.subrange((k + 1) as int, b.len() as int), true)
    } else {
        Seq::empty()
    })
}

/// The number of labels of the name with bytes `b`.
pub open spec fn label_count(b: Seq<u8>) -> nat
    decreases b.len(),
{
    let k = label_len(b);
    1 + (if k < b.len() {
        proof {
            lemma_label_len_bound(b);
        }
        label_count(b.subrange((k + 1) as int, b.len() as int))
    } else {
        0
    })
}

/// `buf` holds `bytes` from `pos` on.
pub open spec fn holds_at(buf: Seq<u8>, pos: int, bytes: Seq<u8>) -> bool {
    &&& 0 <= pos
    &&& pos + bytes.len() <= buf.len()
    &&& forall|i: int| 0 <= i < bytes.len() ==> buf[pos + i] == #[trigger] bytes[i]
}

/// Reading a name from where a well-formed name was written gives its text
/// and ends just after it.
pub proof fn lemma_walk_encoded(buf: Seq<u8>, pos: int, b: Seq<u8>, dotted: bool, fuel: nat)
    requires
        buf.len() == 512,
        wire_name_ok(b),
        holds_at(buf, pos, encode_name(b)),
        fuel > label_count(b),
    ensures
        walk_name(buf, pos, false, dotted, fuel) == (NameWalk::Done {
            text: name_text(b, dotted),
            seek: Some(pos + encode_name(b).len()),
            err: None,
        }),
    decreases b.len(),
{
    lemma_label_len_bound(b);
    let k = label_len(b);
    let enc = encode_name(b);
    let tail = if k < b.len() {
        encode_labels(b.subrange((k + 1) as int, b.len() as int))
    } else {
        Seq::<u8>::empty()
    };
    assert(encode_labels(b) == seq![(k % 256) as u8] + b.subrange(0, k as int) + tail);
    assert(enc =~= seq![(k % 256) as u8] + b.subrange(0, k as int) + (tail + seq![0u8]));
    assert(enc[0] == (k % 256) as u8);
    assert(buf[pos] == enc[0]);
    let start = pos + 1;
    assert(buf.subrange(start, start + k) =~= b.subrange(0, k as int)) by {
        assert forall|i: int| 0 <= i < k implies buf.subrange(start, start + k)[i] == b.subrange(0, k as int)[i] by {
            assert(enc[1 + i] == b[i]);
            assert(buf[pos + 1 + i] == enc[1 + i]);
        }
    }
    let next = start + k;
    if k < b.len() {
        let rest = b.subrange((k + 1) as int, b.len() as int);
        assert(tail + seq![0u8] == encode_name(rest));
        assert(holds_at(buf, next, encode_name(rest))) by {
            assert forall|i: int| 0 <= i < encode_name(rest).len() implies buf[next + i] == #[trigger] encode_name(rest)[i] by {
                assert(enc[1 + k + i] == encode_name(rest)[i]);
                assert(buf[pos + (1 + k + i)] == enc[1 + k + i]);
            }
        }
        lemma_walk_encoded(buf, next, rest, true, (fuel - 1) as nat);
        assert(enc.len() == 1 + k + encode_name(rest).len());
    } else {
        assert(enc[(1 + k) as int] == 0);
        assert(buf[pos + (1 + k)] == enc[(1 + k) as int]);
        assert(enc.len() == k + 2);
        assert(walk_name(buf, next, false, true, (fuel - 1) as nat) == (NameWalk::Done {
            text: Seq::empty(),
            seek: Some(next + 1),
            err: None,
        }));
    }
    let w = walk_name(buf, pos, false, dotted, fuel);
    assert(w->text =~= name_text(b, dotted));
}

pub proof fn lemma_overwrite_append(buf: Seq<u8>, pos: int, a: Seq<u8>, b: Seq<u8>)
    ensures
        overwrite(overwrite(buf, pos, a), pos + a.len(), b) == overwrite(buf, pos, a + b),
{
    assert(overwrite(overwrite(buf, pos, a), pos + a.len(), b) =~= overwrite(buf, pos, a + b));
}

pub proof fn lemma_overwrite_holds(buf: Seq<u8>, pos: int, a: Seq<u8>)
    requires
        0 <= pos,
        pos + a.len() <= buf.len(),
    ensures
        holds_at(overwrite(buf, pos, a), pos, a),
{
}

pub proof fn lemma_holds_split(buf: Seq<u8>, pos: int, a: Seq<u8>, b: Seq<u8>)
    requires
        holds_at(buf, pos, a + b),
    ensures
        holds_at(buf, pos, a),
        holds_at(buf, pos + a.len(), b),
{
    assert forall|i: int| 0 <= i < a.len() implies buf[pos + i] == #[trigger] a[i] by {
        assert((a + b)[i] == a[i]);
    }
    assert forall|i: int| 0 <= i < b.len() implies buf[pos + a.len() + i] == #[trigger] b[i] by {
        assert((a + b)[a.len() + i] == b[i]);
        assert(buf[pos + (a.len() + i)] == (a + b)[a.len() + i]);
    }
}

/// The 12 bytes that `DnsHeader::write` writes.
pub open spec fn header_wire(h: DnsHeader) -> Seq<u8> {
    seq![
        0u8, (h.id % 256) as u8, flags_hi(h), flags_lo(h),
        0u8, (h.questions % 256) as u8, 0u8, (h.answers % 256) as u8,
        0u8, (h.authority_rrs % 256) as u8, 0u8, (h.additional_rrs % 256) as u8,
    ]
}

pub proof fn lemma_header_bytes(h: DnsHeader)
    ensures
        steps_bytes(header_steps(h)) == header_wire(h),
{
    let s1 = u16_steps(h.id);
    let s2 = s1 + seq![WStep::Byte(flags_hi(h)), WStep::Byte(flags_lo(h))];
    let s3 = s2 + u16_steps(h.questions);
    let s4 = s3 + u16_steps(h.answers);
    let s5 = s4 + u16_steps(h.authority_rrs);
    let fl = seq![WStep::Byte(flags_hi(h)), WStep::Byte(flags_lo(h))];
    lemma_steps_bytes_append(s5, u16_steps(h.additional_rrs));
    lemma_steps_bytes_append(s4, u16_steps(h.authority_rrs));
    lemma_steps_bytes_append(s3, u16_steps(h.answers));
    lemma_steps_bytes_append(s2, u16_steps(h.questions));
    lemma_steps_bytes_append(s1, fl);
    lemma_u16_bytes(h.id);
    lemma_u16_bytes(h.questions);
    lemma_u16_bytes(h.answers);
    lemma_u16_bytes(h.authority_rrs);
    lemma_u16_bytes(h.additional_rrs);
    assert(fl.drop_first().drop_first() =~= Seq::<WStep>::empty());
    assert(steps_bytes(fl.drop_first().drop_first()) == Seq::<u8>::empty());
    assert(fl.drop_first()[0] == WStep::Byte(flags_lo(h)));
    assert(steps_bytes(fl.drop_first()) =~= seq![flags_lo(h)]);
    assert(steps_bytes(fl) =~= seq![flags_hi(h), flags_lo(h)]);
    assert(steps_bytes(header_steps(h)) =~= header_wire(h));
}

/// Reading back the bytes a header was written with gives `header_as_read`
/// of it, whatever header it is read into.
pub proof fn lemma_header_read_back(h0: DnsHeader, h: DnsHeader)
    ensures
        header_read_from(h0, header_wire(h)) == header_as_read(h),
{
    let d = header_wire(h);
    lemma_header_read_from(h0, d, 6);
    lemma_header_prefix_step(h0, d, 0);
    lemma_header_prefix_step(h0, d, 1);
    lemma_header_prefix_step(h0, d, 2);
    lemma_header_prefix_step(h0, d, 3);
    lemma_header_prefix_step(h0, d, 4);
    lemma_header_prefix_step(h0, d, 5);
    lemma_flags_roundtrip(h);
    assert(crate::bytepacketbuffer::be16(d, 0) == h.id % 256);
    assert(crate::bytepacketbuffer::be16(d, 4) == h.questions % 256);
    assert(crate::bytepacketbuffer::be16(d, 6) == h.answers % 256);
    assert(crate::bytepacketbuffer::be16(d, 8) == h.authority_rrs % 256);
    assert(crate::bytepacketbuffer::be16(d, 10) == h.additional_rrs % 256);
}

/// Reading a name from where a well-formed name was written gives its text
/// and moves the cursor just past it.
pub proof fn lemma_parse_name_encoded(buf: Seq<u8>, pos: int, b: Seq<u8>)
    requires
        buf.len() == 512,
        wire_name_ok(b),
        holds_at(buf, pos, encode_name(b)),
    ensures
        name_ends(buf, pos),
        parse_name(buf, pos) == Parsed::Got(name_text(b, false), pos + encode_name(b).len()),
{
    let f = label_count(b) + 1;
    lemma_walk_encoded(buf, pos, b, false, f);
    assert(!(walk_name(buf, pos, false, false, f) is Endless));
    let f0 = choose|f: nat| !(#[trigger] walk_name(buf, pos, false, false, f) is Endless);
    if f0 <= f {
        lemma_walk_fuel(buf, pos, false, false, f0, f);
    } else {
        lemma_walk_fuel(buf, pos, false, false, f, f0);
    }
}

/// The bytes of a name given as text.
pub open spec fn name_wire(name: Seq<char>) -> Seq<u8> {
    encode_name(encode_utf8(name))
}

/// The bytes that `DnsQuestion::write` writes.
pub open spec fn question_wire(q: QuestionView) -> Seq<u8> {
    name_wire(q.name) + seq![0u8, (qtype_num(q.qtype) % 256) as u8, 0u8, 1u8]
}

/// A question as reading back its written bytes gives it: the name's text
/// as `read_qname` makes it, and the type whose number is the low byte of
/// the written type number.
pub open spec fn question_as_read(q: QuestionView) -> QuestionView {
    QuestionView { name: name_text(encode_utf8(q.name), false), qtype: qtype_of(qtype_num(q.qtype) % 256) }
}

pub proof fn lemma_question_bytes(q: QuestionView)
    ensures
        steps_bytes(question_steps(q.name, q.qtype)) == question_wire(q),
{
    let s1 = byte_steps(encode_name(encode_utf8(q.name)));
    let s2 = s1 + u16_steps(qtype_num(q.qtype));
    lemma_steps_bytes_append(s2, u16_steps(1u16));
    lemma_steps_bytes_append(s1, u16_steps(qtype_num(q.qtype)));
    lemma_byte_steps_bytes(encode_name(encode_utf8(q.name)));
    lemma_u16_bytes(qtype_num(q.qtype));
    lemma_u16_bytes(1u16);
    assert(steps_bytes(question_steps(q.name, q.qtype)) =~= question_wire(q));
}

/// Reading a question from where a question with a well-formed name was written.
pub proof fn lemma_parse_question_wire(buf: Seq<u8>, pos: int, q: QuestionView)
    requires
        buf.len() == 512,
        wire_name_ok(encode_utf8(q.name)),
        holds_at(buf, pos, question_wire(q)),
    ensures
        parse_question(buf, pos) == Parsed::Got(question_as_read(q), pos + question_wire(q).len()),
{
    let nb = name_wire(q.name);
    let tail = seq![0u8, (qtype_num(q.qtype) % 256) as u8, 0u8, 1u8];
    lemma_holds_split(buf, pos, nb, tail);
    lemma_parse_name_encoded(buf, pos, encode_utf8(q.name));
    let p1 = pos + nb.len();
    assert(buf[p1] == 0 && buf[p1 + 1] == (qtype_num(q.qtype) % 256) as u8) by {
        assert(buf[p1 + 0] == tail[0]);
        assert(buf[p1 + 1] == tail[1]);
    }
    assert(be16(buf, p1) == qtype_num(q.qtype) % 256);
}

/// The bytes that writing a record's name, type number, class 1 and time to live writes.
pub open spec fn head_wire(domain: Seq<char>, tn: u16, ttl: u32) -> Seq<u8> {
    name_wire(domain) + seq![0u8, (tn % 256) as u8, 0u8, 1u8, 0u8, 0u8, 0u8, (ttl % 256) as u8]
}

/// A big-endian 16-bit length.
pub open spec fn len16(n: int) -> Seq<u8> {
    seq![(n / 256) as u8, (n % 256) as u8]
}

/// The bytes that writing the segments with `write_u16` writes.
pub open spec fn segs_wire(s: Seq<u16>) -> Seq<u8>
    decreases s.len(),
{
    if s.len() == 0 {
        Seq::empty()
    } else {
        segs_wire(s.drop_last()) + seq![0u8, (s.last() % 256) as u8]
    }
}

/// The bytes of a record from its data length on, once written (and the
/// data length set, for NS, CNAME and MX records).
#[verifier::opaque]
pub open spec fn rdata_wire(r: RecordView) -> Seq<u8> {
    match r {
        RecordView::UNKOWN { .. } => Seq::empty(),
        RecordView::A { addr, .. } => seq![0u8, 4u8] + addr,
        RecordView::NS { host, .. } => len16(name_wire(host).len() as int) + name_wire(host),
        RecordView::CNAME { host, .. } => len16(name_wire(host).len() as int) + name_wire(host),
        RecordView::MX { priority, host, .. } => len16(2 + name_wire(host).len() as int) + seq![0u8, (priority % 256) as u8]
            + name_wire(host),
        RecordView::AAAA { addr, .. } => seq![0u8, 16u8] + segs_wire(addr),
    }
}

/// The bytes that `DnsRecord::write` writes (none for a record of unknown type).
#[verifier::opaque]
pub open spec fn record_wire(r: RecordView) -> Seq<u8> {
    match r {
        RecordView::UNKOWN { .. } => Seq::empty(),
        RecordView::A { domain, ttl, .. } => head_wire(domain, 1, ttl) + rdata_wire(r),
        RecordView::NS { domain, ttl, .. } => head_wire(domain, 2, ttl) + rdata_wire(r),
        RecordView::CNAME { domain, ttl, .. } => head_wire(domain, 5, ttl) + rdata_wire(r),
        RecordView::MX { domain, ttl, .. } => head_wire(domain, 15, ttl) + rdata_wire(r),
        RecordView::AAAA { domain, ttl, .. } => head_wire(domain, 28, ttl) + rdata_wire(r),
    }
}

pub proof fn lemma_head_bytes(domain: Seq<char>, tn: u16, ttl: u32)
    ensures
        steps_bytes(head_steps(domain, tn, ttl)) == head_wire(domain, tn, ttl),
{
    let s1 = name_steps(domain);
    let s2 = s1 + u16_steps(tn);
    let s3 = s2 + u16_steps(1u16);
    lemma_steps_bytes_append(s3, u32_steps(ttl));
    lemma_steps_bytes_append(s2, u16_steps(1u16));
    lemma_steps_bytes_append(s1, u16_steps(tn));
    lemma_byte_steps_bytes(encode_name(encode_utf8(domain)));
    lemma_u16_bytes(tn);
    lemma_u16_bytes(1u16);
    lemma_u32_bytes(ttl);
    assert(steps_bytes(head_steps(domain, tn, ttl)) =~= head_wire(domain, tn, ttl));
}

pub proof fn lemma_segs_bytes(s: Seq<u16>)
    ensures
        steps_bytes(segs_steps(s)) == segs_wire(s),
    decreases s.len(),
{
    if s.len() > 0 {
        lemma_segs_bytes(s.drop_last());
        lemma_steps_bytes_append(segs_steps(s.drop_last()), u16_steps(s.last()));
        lemma_u16_bytes(s.last());
    } else {
        assert(segs_steps(s) =~= Seq::<WStep>::empty());
    }
}

/// The bytes that the record data steps write, before the data length is set.
#[verifier::opaque]
pub open spec fn rdata_raw(r: RecordView) -> Seq<u8> {
    match r {
        RecordView::NS { host, .. } => seq![0u8, 2u8] + name_wire(host),
        RecordView::CNAME { host, .. } => seq![0u8, 0u8] + name_wire(host),
        RecordView::MX { priority, host, .. } => seq![0u8, 0u8] + seq![0u8, (priority % 256) as u8] + name_wire(host),
        _ => rdata_wire(r),
    }
}

/// How the bytes of a record's steps relate to the bytes it leaves.
pub open spec fn rdata_facts(r: RecordView) -> bool {
    &&& steps_bytes(rdata_steps(r)) == rdata_raw(r)
    &&& record_wire(r) == steps_bytes(record_head(r)) + rdata_wire(r)
    &&& length_patched(r) ==> rdata_raw(r).len() >= 2 && rdata_wire(r) == len16(rdata_raw(r).len() - 2)
        + rdata_raw(r).subrange(2, rdata_raw(r).len() as int)
    &&& !length_patched(r) ==> rdata_raw(r) == rdata_wire(r)
    &&& !(r is UNKOWN) ==> record_wire(r).len() >= 8
}

proof fn lemma_rdata_unkown(r: RecordView)
    requires
        r is UNKOWN,
    ensures
        rdata_facts(r),
{
    reveal(rdata_wire);
    reveal(record_wire);
    reveal(rdata_raw);
    if let RecordView::UNKOWN { .. } = r {
        assert(steps_bytes(Seq::<WStep>::empty()) == Seq::<u8>::empty());
        assert(record_wire(r) =~= Seq::<u8>::empty() + rdata_wire(r));
    }
}

proof fn lemma_rdata_a(r: RecordView)
    requires
        r is A,
    ensures
        rdata_facts(r),
{
    reveal(rdata_wire);
    reveal(record_wire);
    reveal(rdata_raw);
    if let RecordView::A { domain, addr, ttl } = r {
        lemma_steps_bytes_append(u16_steps(4), byte_steps(addr));
        lemma_u16_bytes(4);
        lemma_byte_steps_bytes(addr);
        lemma_head_bytes(domain, 1, ttl);
        assert(steps_bytes(rdata_steps(r)) =~= rdata_raw(r));
        assert(record_wire(r) =~= head_wire(domain, 1, ttl) + rdata_wire(r));
    }
}

proof fn lemma_rdata_ns(r: RecordView)
    requires
        r is NS,
    ensures
        rdata_facts(r),
{
    reveal(rdata_wire);
    reveal(record_wire);
    reveal(rdata_raw);
    if let RecordView::NS { domain, host, ttl } = r {
        lemma_steps_bytes_append(u16_steps(2), name_steps(host));
        lemma_u16_bytes(2);
        lemma_byte_steps_bytes(name_wire(host));
        lemma_head_bytes(domain, 2, ttl);
        assert(steps_bytes(rdata_steps(r)) =~= rdata_raw(r));
        assert(rdata_wire(r) =~= len16(rdata_raw(r).len() - 2) + rdata_raw(r).subrange(2, rdata_raw(r).len() as int));
        assert(record_wire(r) =~= head_wire(domain, 2, ttl) + rdata_wire(r));
    }
}

proof fn lemma_rdata_cname(r: RecordView)
    requires
        r is CNAME,
    ensures
        rdata_facts(r),
{
    reveal(rdata_wire);
    reveal(record_wire);
    reveal(rdata_raw);
    if let RecordView::CNAME { domain, host, ttl } = r {
        lemma_steps_bytes_append(u16_steps(0), name_steps(host));
        lemma_u16_bytes(0);
        lemma_byte_steps_bytes(name_wire(host));
        lemma_head_bytes(domain, 5, ttl);
        assert(steps_bytes(rdata_steps(r)) =~= rdata_raw(r));
        assert(rdata_wire(r) =~= len16(rdata_raw(r).len() - 2) + rdata_raw(r).subrange(2, rdata_raw(r).len() as int));
        assert(record_wire(r) =~= head_wire(domain, 5, ttl) + rdata_wire(r));
    }
}

proof fn lemma_rdata_mx(r: RecordView)
    requires
        r is MX,
    ensures
        rdata_facts(r),
{
    reveal(rdata_wire);
    reveal(record_wire);
    reveal(rdata_raw);
    if let RecordView::MX { domain, priority, host, ttl } = r {
        lemma_steps_bytes_append(u16_steps(0) + u16_steps(priority), name_steps(host));
        lemma_steps_bytes_append(u16_steps(0), u16_steps(priority));
        lemma_u16_bytes(0);
        lemma_u16_bytes(priority);
        lemma_byte_steps_bytes(name_wire(host));
        lemma_head_bytes(domain, 15, ttl);
        assert(steps_bytes(rdata_steps(r)) =~= rdata_raw(r));
        assert(rdata_wire(r) =~= len16(rdata_raw(r).len() - 2) + rdata_raw(r).subrange(2, rdata_raw(r).len() as int));
        assert(record_wire(r) =~= head_wire(domain, 15, ttl) + rdata_wire(r));
    }
}

proof fn lemma_rdata_aaaa(r: RecordView)
    requires
        r is AAAA,
    ensures
        rdata_facts(r),
{
    reveal(rdata_wire);
    reveal(record_wire);
    reveal(rdata_raw);
    if let RecordView::AAAA { domain, addr, ttl } = r {
        lemma_steps_bytes_append(u16_steps(16), segs_steps(addr));
        lemma_u16_bytes(16);
        lemma_segs_bytes(addr);
        lemma_head_bytes(domain, 28, ttl);
        assert(steps_bytes(rdata_steps(r)) =~= rdata_raw(r));
        assert(record_wire(r) =~= head_wire(domain, 28, ttl) + rdata_wire(r));
    }
}

pub proof fn lemma_rdata_bytes(r: RecordView)
    ensures
        rdata_facts(r),
{
    match r {
        RecordView::UNKOWN { .. } => lemma_rdata_unkown(r),
        RecordView::A { .. } => lemma_rdata_a(r),
        RecordView::NS { .. } => lemma_rdata_ns(r),
        RecordView::CNAME { .. } => lemma_rdata_cname(r),
        RecordView::MX { .. } => lemma_rdata_mx(r),
        RecordView::AAAA { .. } => lemma_rdata_aaaa(r),
    }
}

/// A record write that succeeded wrote the record's bytes at the cursor.
#[verifier::rlimit(50)]
pub proof fn lemma_put_record_ok(st: WriteState, r: RecordView)
    requires
        st.err is None,
        st.buf.len() == 512,
        0 <= st.pos,
        put_record(st, r).err is None,
    ensures
        put_record(st, r) == (WriteState {
            buf: overwrite(st.buf, st.pos, record_wire(r)),
            pos: st.pos + record_wire(r).len(),
            err: None,
        }),
        record_wire(r).len() > 0 ==> st.pos + record_wire(r).len() <= 512,
{
    let h = run(st, record_head(r));
    let w = run(h, rdata_steps(r));
    if h.err is Some {
        lemma_run_err(h, rdata_steps(r));
    }
    lemma_run_ok(st, record_head(r));
    lemma_rdata_bytes(r);
    let hb = steps_bytes(record_head(r));
    let rb = rdata_raw(r);
    lemma_run_ok(h, rdata_steps(r));
    lemma_overwrite_append(st.buf, st.pos, hb, rb);
    if length_patched(r) {
        assert(rb.len() >= 2);
        let size = w.pos - h.pos - 2;
        assert(size == rb.len() - 2);
        let p = patch16(w, h.pos, size);
        assert(p.buf =~= overwrite(st.buf, st.pos, hb + rdata_wire(r)));
    }
}

/// Records that `DnsRecord::write` writes in a form that `DnsRecord::read`
/// reads back: not of unknown type (those are not written), with
/// well-formed names, and with addresses of the right size.
pub open spec fn record_writable(r: RecordView) -> bool {
    match r {
        RecordView::UNKOWN { .. } => false,
        RecordView::A { domain, addr, .. } => wire_name_ok(encode_utf8(domain)) && addr.len() == 4,
        RecordView::NS { domain, host, .. } => wire_name_ok(encode_utf8(domain)) && wire_name_ok(encode_utf8(host)),
        RecordView::CNAME { domain, host, .. } => wire_name_ok(encode_utf8(domain)) && wire_name_ok(encode_utf8(host)),
        RecordView::MX { domain, host, .. } => wire_name_ok(encode_utf8(domain)) && wire_name_ok(encode_utf8(host)),
        RecordView::AAAA { domain, addr, .. } => wire_name_ok(encode_utf8(domain)) && addr.len() == 8,
    }
}

/// A record as reading back its written bytes gives it: names as
/// `read_qname` makes them, a CNAME record as an NS record, and of the time
/// to live, the priority and each address segment only the low byte.
pub open spec fn record_as_read(r: RecordView) -> RecordView {
    match r {
        RecordView::UNKOWN { .. } => r,
        RecordView::A { domain, addr, ttl } => RecordView::A {
            domain: name_text(encode_utf8(domain), false),
            addr,
            ttl: (ttl % 256) as u32,
        },
        RecordView::NS { domain, host, ttl } => RecordView::NS {
            domain: name_text(encode_utf8(domain), false),
            host: name_text(encode_utf8(host), false),
            ttl: (ttl % 256) as u32,
        },
        RecordView::CNAME { domain, host, ttl } => RecordView::NS {
            domain: name_text(encode_utf8(domain), false),
            host: name_text(encode_utf8(host), false),
            ttl: (ttl % 256) as u32,
        },
        RecordView::MX { domain, priority, host, ttl } => RecordView::MX {
            domain: name_text(encode_utf8(domain), false),
            priority: (priority % 256) as u16,
            host: name_text(encode_utf8(host), false),
            ttl: (ttl % 256) as u32,
        },
        RecordView::AAAA { domain, addr, ttl } => RecordView::AAAA {
            domain: name_text(encode_utf8(domain), false),
            addr: addr.map_values(|x: u16| (x % 256) as u16),
            ttl: (ttl % 256) as u32,
        },
    }
}

pub proof fn lemma_segs_wire(s: Seq<u16>)
    ensures
        segs_wire(s).len() == 2 * s.len(),
        forall|i: int| 0 <= i < s.len() ==> #[trigger] segs_wire(s)[2 * i] == 0,
        forall|i: int| 0 <= i < s.len() ==> #[trigger] segs_wire(s)[2 * i + 1] == (s[i] % 256) as u8,
    decreases s.len(),
{
    if s.len() > 0 {
        let d = s.drop_last();
        lemma_segs_wire(d);
        let last = seq![0u8, (s.last() % 256) as u8];
        assert(segs_wire(s) == segs_wire(d) + last);
        assert forall|i: int| 0 <= i < s.len() implies #[trigger] segs_wire(s)[2 * i] == 0 && segs_wire(s)[2 * i + 1] == (s[i] % 256) as u8 by {
            if i < s.len() - 1 {
                assert(d[i] == s[i]);
                assert(segs_wire(d)[2 * i + 1] == (d[i] % 256) as u8);
                assert(segs_wire(d)[2 * i] == 0);
                assert((segs_wire(d) + last)[2 * i] == segs_wire(d)[2 * i]);
                assert((segs_wire(d) + last)[2 * i + 1] == segs_wire(d)[2 * i + 1]);
            } else {
                let a = segs_wire(d);
                assert(i == d.len());
                assert(2 * i == a.len());
                assert((a + last)[a.len() as int] == last[0]);
                assert((a + last)[a.len() as int + 1] == last[1]);
                assert(s.last() == s[i]);
            }
        }
    }
}

/// Where the fixed fields of a record's head stand, reading them gives the
/// type number, the time to live and the data length that were written.
proof fn lemma_head_fields(buf: Seq<u8>, pos: int, domain: Seq<char>, tn: u16, ttl: u32, rd: Seq<u8>)
    requires
        buf.len() == 512,
        wire_name_ok(encode_utf8(domain)),
        tn < 256,
        rd.len() >= 2,
        holds_at(buf, pos, head_wire(domain, tn, ttl) + rd),
    ensures
        parse_name(buf, pos) == Parsed::Got(name_text(encode_utf8(domain), false), pos + name_wire(domain).len()),
        pos + name_wire(domain).len() + 10 <= 512,
        be16(buf, pos + name_wire(domain).len()) == tn,
        be32(buf, pos + name_wire(domain).len() + 4) == ttl % 256,
        be16(buf, pos + name_wire(domain).len() + 8) == rd[0] * 256 + rd[1],
        holds_at(buf, pos + name_wire(domain).len() + 10, rd.subrange(2, rd.len() as int)),
{
    let nw = name_wire(domain);
    let fixed = seq![0u8, (tn % 256) as u8, 0u8, 1u8, 0u8, 0u8, 0u8, (ttl % 256) as u8];
    assert(head_wire(domain, tn, ttl) + rd =~= nw + (fixed + rd));
    lemma_holds_split(buf, pos, nw, fixed + rd);
    lemma_holds_split(buf, pos + nw.len(), fixed, rd);
    lemma_parse_name_encoded(buf, pos, encode_utf8(domain));
    let p1 = pos + nw.len();
    assert(buf[p1] == fixed[0] && buf[p1 + 1] == fixed[1]) by {
        assert(buf[p1 + 0] == fixed[0]);
    }
    assert(buf[p1 + 4] == fixed[4] && buf[p1 + 5] == fixed[5] && buf[p1 + 6] == fixed[6] && buf[p1 + 7] == fixed[7]);
    let p2 = p1 + 8;
    assert(buf[p2] == rd[0] && buf[p2 + 1] == rd[1]) by {
        assert(buf[p2 + 0] == rd[0]);
    }
    assert(rd =~= seq![rd[0], rd[1]] + rd.subrange(2, rd.len() as int));
    lemma_holds_split(buf, p2, seq![rd[0], rd[1]], rd.subrange(2, rd.len() as int));
}

proof fn lemma_parse_a(buf: Seq<u8>, pos: int, r: RecordView)
    requires
        buf.len() == 512,
        r is A,
        record_writable(r),
        holds_at(buf, pos, record_wire(r)),
    ensures
        parse_record(buf, pos) == Parsed::Got(record_as_read(r), pos + record_wire(r).len()),
{
    let domain = r->A_domain;
    let addr = r->A_addr;
    let ttl = r->A_ttl;
    lemma_rdata_bytes(r);
    reveal(rdata_wire);
    lemma_head_bytes(domain, 1, ttl);
    lemma_head_fields(buf, pos, domain, 1, ttl, rdata_wire(r));
    let p = pos + name_wire(domain).len() + 10;
    assert(rdata_wire(r).subrange(2, rdata_wire(r).len() as int) =~= addr);
    assert(buf.subrange(p, p + 4) =~= addr);
}

proof fn lemma_parse_host(buf: Seq<u8>, pos: int, r: RecordView)
    requires
        buf.len() == 512,
        r is NS || r is CNAME,
        record_writable(r),
        holds_at(buf, pos, record_wire(r)),
    ensures
        parse_record(buf, pos) == Parsed::Got(record_as_read(r), pos + record_wire(r).len()),
{
    let (domain, host, ttl, tn) = match r {
        RecordView::NS { domain, host, ttl } => (domain, host, ttl, 2u16),
        RecordView::CNAME { domain, host, ttl } => (domain, host, ttl, 5u16),
        _ => arbitrary(),
    };
    lemma_rdata_bytes(r);
    reveal(rdata_wire);
    lemma_head_bytes(domain, tn, ttl);
    lemma_head_fields(buf, pos, domain, tn, ttl, rdata_wire(r));
    let p = pos + name_wire(domain).len() + 10;
    assert(rdata_wire(r).subrange(2, rdata_wire(r).len() as int) =~= name_wire(host));
    lemma_parse_name_encoded(buf, p, encode_utf8(host));
}

proof fn lemma_parse_mx(buf: Seq<u8>, pos: int, r: RecordView)
    requires
        buf.len() == 512,
        r is MX,
        record_writable(r),
        holds_at(buf, pos, record_wire(r)),
    ensures
        parse_record(buf, pos) == Parsed::Got(record_as_read(r), pos + record_wire(r).len()),
{
    let domain = r->MX_domain;
    let priority = r->priority;
    let host = r->MX_host;
    let ttl = r->MX_ttl;
    lemma_rdata_bytes(r);
    reveal(rdata_wire);
    lemma_head_bytes(domain, 15, ttl);
    lemma_head_fields(buf, pos, domain, 15, ttl, rdata_wire(r));
    let p = pos + name_wire(domain).len() + 10;
    let pr = seq![0u8, (priority % 256) as u8];
    assert(rdata_wire(r).subrange(2, rdata_wire(r).len() as int) =~= pr + name_wire(host));
    lemma_holds_split(buf, p, pr, name_wire(host));
    assert(buf[p] == 0 && buf[p + 1] == (priority % 256) as u8) by {
        assert(buf[p + 0] == pr[0]);
        assert(buf[p + 1] == pr[1]);
    }
    lemma_parse_name_encoded(buf, p + 2, encode_utf8(host));
}

proof fn lemma_parse_aaaa(buf: Seq<u8>, pos: int, r: RecordView)
    requires
        buf.len() == 512,
        r is AAAA,
        record_writable(r),
        holds_at(buf, pos, record_wire(r)),
    ensures
        parse_record(buf, pos) == Parsed::Got(record_as_read(r), pos + record_wire(r).len()),
{
    let domain = r->AAAA_domain;
    let addr = r->AAAA_addr;
    let ttl = r->AAAA_ttl;
    lemma_rdata_bytes(r);
    reveal(rdata_wire);
    lemma_head_bytes(domain, 28, ttl);
    lemma_head_fields(buf, pos, domain, 28, ttl, rdata_wire(r));
    let p = pos + name_wire(domain).len() + 10;
    assert(rdata_wire(r).subrange(2, rdata_wire(r).len() as int) =~= segs_wire(addr));
    lemma_segs_wire(addr);
    assert forall|i: int| 0 <= i < 8 implies #[trigger] ipv6_at(buf, p)[i] == (addr[i] % 256) as u16 by {
        assert(buf[p + 2 * i] == segs_wire(addr)[2 * i]);
        assert(buf[p + (2 * i + 1)] == segs_wire(addr)[2 * i + 1]);
    }
    assert(ipv6_at(buf, p) =~= addr.map_values(|x: u16| (x % 256) as u16));
}

/// Reading a record from where a record was written gives `record_as_read` of it.
pub proof fn lemma_parse_record_wire(buf: Seq<u8>, pos: int, r: RecordView)
    requires
        buf.len() == 512,
        record_writable(r),
        holds_at(buf, pos, record_wire(r)),
    ensures
        parse_record(buf, pos) == Parsed::Got(record_as_read(r), pos + record_wire(r).len()),
{
    if r is A {
        lemma_parse_a(buf, pos, r);
    } else if r is NS || r is CNAME {
        lemma_parse_host(buf, pos, r);
    } else if r is MX {
        lemma_parse_mx(buf, pos, r);
    } else if r is AAAA {
        lemma_parse_aaaa(buf, pos, r);
    }
}

/// The bytes that writing the questions one after the other writes.
pub open spec fn questions_wire(qs: Seq<QuestionView>) -> Seq<u8>
    decreases qs.len(),
{
    if qs.len() == 0 {
        Seq::empty()
    } else {
        questions_wire(qs.drop_last()) + question_wire(qs.last())
    }
}

/// The bytes that writing the records one after the other writes.
pub open spec fn records_wire(rs: Seq<RecordView>) -> Seq<u8>
    decreases rs.len(),
{
    if rs.len() == 0 {
        Seq::empty()
    } else {
        records_wire(rs.drop_last()) + record_wire(rs.last())
    }
}

pub proof fn lemma_put_questions_ok(st: WriteState, qs: Seq<QuestionView>)
    requires
        st.err is None,
        st.buf.len() == 512,
        0 <= st.pos,
        put_questions(st, qs).err is None,
    ensures
        put_questions(st, qs) == (WriteState {
            buf: overwrite(st.buf, st.pos, questions_wire(qs)),
            pos: st.pos + questions_wire(qs).len(),
            err: None,
        }),
        questions_wire(qs).len() > 0 ==> st.pos + questions_wire(qs).len() <= 512,
    decreases qs.len(),
{
    if qs.len() == 0 {
        assert(overwrite(st.buf, st.pos, Seq::empty()) =~= st.buf);
    } else {
        let d = qs.drop_last();
        let pd = put_questions(st, d);
        if pd.err is Some {
            lemma_run_err(pd, question_steps(qs.last().name, qs.last().qtype));
        }
        lemma_put_questions_ok(st, d);
        lemma_run_ok(pd, question_steps(qs.last().name, qs.last().qtype));
        lemma_question_bytes(qs.last());
        lemma_overwrite_append(st.buf, st.pos, questions_wire(d), question_wire(qs.last()));
    }
}

pub proof fn lemma_put_records_ok(st: WriteState, rs: Seq<RecordView>)
    requires
        st.err is None,
        st.buf.len() == 512,
        0 <= st.pos,
        put_records(st, rs).err is None,
    ensures
        put_records(st, rs) == (WriteState {
            buf: overwrite(st.buf, st.pos, records_wire(rs)),
            pos: st.pos + records_wire(rs).len(),
            err: None,
        }),
        records_wire(rs).len() > 0 ==> st.pos + records_wire(rs).len() <= 512,
    decreases rs.len(),
{
    if rs.len() == 0 {
        assert(overwrite(st.buf, st.pos, Seq::empty()) =~= st.buf);
    } else {
        let d = rs.drop_last();
        let pd = put_records(st, d);
        if pd.err is Some {
            crate::dns::kinddns::lemma_put_record_err(pd, rs.last());
        }
        lemma_put_records_ok(st, d);
        lemma_put_record_ok(pd, rs.last());
        lemma_overwrite_append(st.buf, st.pos, records_wire(d), record_wire(rs.last()));
        if records_wire(rs).len() > 0 && record_wire(rs.last()).len() == 0 {
            assert(records_wire(rs) =~= records_wire(d));
        }
    }
}

pub proof fn lemma_parse_questions_wire(buf: Seq<u8>, pos: int, qs: Seq<QuestionView>)
    requires
        buf.len() == 512,
        forall|i: int| 0 <= i < qs.len() ==> wire_name_ok(encode_utf8(#[trigger] qs[i].name)),
        holds_at(buf, pos, questions_wire(qs)),
    ensures
        parse_questions(buf, pos, qs.len()) == Parsed::Got(
            qs.map_values(|q: QuestionView| question_as_read(q)),
            pos + questions_wire(qs).len(),
        ),
    decreases qs.len(),
{
    if qs.len() == 0 {
        assert(qs.map_values(|q: QuestionView| question_as_read(q)) =~= Seq::<QuestionView>::empty());
    } else {
        let d = qs.drop_last();
        assert forall|i: int| 0 <= i < d.len() implies wire_name_ok(encode_utf8(#[trigger] d[i].name)) by {
            assert(d[i] == qs[i]);
        }
        lemma_holds_split(buf, pos, questions_wire(d), question_wire(qs.last()));
        lemma_parse_questions_wire(buf, pos, d);
        assert(qs.last() == qs[qs.len() - 1]);
        lemma_parse_question_wire(buf, pos + questions_wire(d).len(), qs.last());
        assert(qs.map_values(|q: QuestionView| question_as_read(q)) =~= d.map_values(
            |q: QuestionView| question_as_read(q),
        ).push(question_as_read(qs.last())));
        assert((qs.len() - 1) as nat == d.len());
    }
}

pub proof fn lemma_parse_records_wire(buf: Seq<u8>, pos: int, rs: Seq<RecordView>)
    requires
        buf.len() == 512,
        forall|i: int| 0 <= i < rs.len() ==> record_writable(#[trigger] rs[i]),
        holds_at(buf, pos, records_wire(rs)),
    ensures
        parse_records(buf, pos, rs.len()) == Parsed::Got(
            rs.map_values(|r: RecordView| record_as_read(r)),
            pos + records_wire(rs).len(),
        ),
    decreases rs.len(),
{
    if rs.len() == 0 {
        assert(rs.map_values(|r: RecordView| record_as_read(r)) =~= Seq::<RecordView>::empty());
    } else {
        let d = rs.drop_last();
        assert forall|i: int| 0 <= i < d.len() implies record_writable(#[trigger] d[i]) by {
            assert(d[i] == rs[i]);
        }
        lemma_holds_split(buf, pos, records_wire(d), record_wire(rs.last()));
        lemma_parse_records_wire(buf, pos, d);
        assert(rs.last() == rs[rs.len() - 1]);
        lemma_parse_record_wire(buf, pos + records_wire(d).len(), rs.last());
        assert(rs.map_values(|r: RecordView| record_as_read(r)) =~= d.map_values(
            |r: RecordView| record_as_read(r),
        ).push(record_as_read(rs.last())));
        assert((rs.len() - 1) as nat == d.len());
    }
}

/// The bytes that `DnsPacket::write` writes.
pub open spec fn packet_wire(p: PacketView) -> Seq<u8> {
    header_wire(counted_header(p)) + questions_wire(p.questions) + records_wire(p.answers) + records_wire(
        p.authorities,
    ) + records_wire(p.resources)
}

/// Packets that `DnsPacket::write` writes in a form that `from_buffer` reads
/// back: fewer than 256 entries in each section (only the low byte of each
/// count is written), well-formed names, and no record of unknown type.
pub open spec fn packet_writable(p: PacketView) -> bool {
    &&& p.questions.len() < 256
    &&& p.answers.len() < 256
    &&& p.authorities.len() < 256
    &&& p.resources.len() < 256
    &&& forall|i: int| 0 <= i < p.questions.len() ==> wire_name_ok(encode_utf8(#[trigger] p.questions[i].name))
    &&& forall|i: int| 0 <= i < p.answers.len() ==> record_writable(#[trigger] p.answers[i])
    &&& forall|i: int| 0 <= i < p.authorities.len() ==> record_writable(#[trigger] p.authorities[i])
    &&& forall|i: int| 0 <= i < p.resources.len() ==> record_writable(#[trigger] p.resources[i])
}

/// A packet as reading back its written bytes gives it: each part as
/// reading it back gives it, with the header counts set from the sections.
pub open spec fn packet_as_read(p: PacketView) -> PacketView {
    PacketView {
        header: header_as_read(counted_header(p)),
        questions: p.questions.map_values(|q: QuestionView| question_as_read(q)),
        answers: p.answers.map_values(|r: RecordView| record_as_read(r)),
        authorities: p.authorities.map_values(|r: RecordView| record_as_read(r)),
        resources: p.resources.map_values(|r: RecordView| record_as_read(r)),
    }
}

#[verifier::rlimit(50)]
pub proof fn lemma_put_packet_ok(st: WriteState, p: PacketView)
    requires
        st.err is None,
        st.buf.len() == 512,
        0 <= st.pos,
        put_packet(st, p).err is None,
    ensures
        put_packet(st, p) == (WriteState {
            buf: overwrite(st.buf, st.pos, packet_wire(p)),
            pos: st.pos + packet_wire(p).len(),
            err: None,
        }),
        st.pos + packet_wire(p).len() <= 512,
{
    let h = counted_header(p);
    let s1 = run(st, header_steps(h));
    let s2 = put_questions(s1, p.questions);
    let s3 = put_records(s2, p.answers);
    let s4 = put_records(s3, p.authorities);
    if s4.err is Some {
        lemma_put_records_stop(s4, p.resources, 0);
        assert(p.resources.take(0) =~= Seq::<RecordView>::empty());
    }
    if s3.err is Some {
        lemma_put_records_stop(s3, p.authorities, 0);
        assert(p.authorities.take(0) =~= Seq::<RecordView>::empty());
    }
    if s2.err is Some {
        lemma_put_records_stop(s2, p.answers, 0);
        assert(p.answers.take(0) =~= Seq::<RecordView>::empty());
    }
    if s1.err is Some {
        lemma_put_questions_stop(s1, p.questions, 0);
        assert(p.questions.take(0) =~= Seq::<QuestionView>::empty());
    }
    lemma_run_ok(st, header_steps(h));
    lemma_header_bytes(h);
    lemma_put_questions_ok(s1, p.questions);
    lemma_put_records_ok(s2, p.answers);
    lemma_put_records_ok(s3, p.authorities);
    lemma_put_records_ok(s4, p.resources);
    let hw = header_wire(h);
    let qw = questions_wire(p.questions);
    let aw = records_wire(p.answers);
    let nw = records_wire(p.authorities);
    let rw = records_wire(p.resources);
    lemma_overwrite_append(st.buf, st.pos, hw, qw);
    lemma_overwrite_append(st.buf, st.pos, hw + qw, aw);
    lemma_overwrite_append(st.buf, st.pos, hw + qw + aw, nw);
    lemma_overwrite_append(st.buf, st.pos, hw + qw + aw + nw, rw);
}

#[verifier::rlimit(50)]
pub proof fn lemma_parse_packet_wire(buf: Seq<u8>, pos: int, p: PacketView)
    requires
        buf.len() == 512,
        packet_writable(p),
        holds_at(buf, pos, packet_wire(p)),
    ensures
        parse_packet(buf, pos) == Parsed::Got(packet_as_read(p), pos + packet_wire(p).len()),
{
    let h = counted_header(p);
    let hw = header_wire(h);
    let qw = questions_wire(p.questions);
    let aw = records_wire(p.answers);
    let nw = records_wire(p.authorities);
    let rw = records_wire(p.resources);
    lemma_holds_split(buf, pos, hw + qw + aw + nw, rw);
    lemma_holds_split(buf, pos, hw + qw + aw, nw);
    lemma_holds_split(buf, pos, hw + qw, aw);
    lemma_holds_split(buf, pos, hw, qw);
    assert(buf.subrange(pos, pos + 12) =~= hw);
    lemma_header_read_back(new_header(), h);
    let hr = header_as_read(h);
    assert(hr.questions as nat == p.questions.len());
    assert(hr.answers as nat == p.answers.len());
    assert(hr.authority_rrs as nat == p.authorities.len());
    assert(hr.additional_rrs as nat == p.resources.len());
    let p1 = pos + 12;
    lemma_parse_questions_wire(buf, p1, p.questions);
    lemma_parse_records_wire(buf, p1 + qw.len(), p.answers);
    lemma_parse_records_wire(buf, p1 + qw.len() + aw.len(), p.authorities);
    lemma_parse_records_wire(buf, p1 + qw.len() + aw.len() + nw.len(), p.resources);
}

/// Every bounds check in the steps is followed, later on, by a byte.
#[verifier::opaque]
pub open spec fn checked(s: Seq<WStep>) -> bool
    decreases s.len(),
{
    if s.len() == 0 {
        true
    } else {
        (s[0] is Check ==> steps_bytes(s.drop_first()).len() > 0) && checked(s.drop_first())
    }
}

/// Steps whose checks each guard a later byte succeed when their bytes fit.
pub proof fn lemma_checked_fits(st: WriteState, s: Seq<WStep>)
    requires
        st.err is None,
        0 <= st.pos,
        checked(s),
        st.pos + steps_bytes(s).len() <= 512,
    ensures
        run(st, s).err is None,
    decreases s.len(),
{
    reveal_with_fuel(checked, 2);
    if s.len() > 0 {
        lemma_checked_fits(apply_step(st, s[0]), s.drop_first());
    }
}

pub proof fn lemma_checked_append(a: Seq<WStep>, b: Seq<WStep>)
    requires
        checked(a),
        checked(b),
    ensures
        checked(a + b),
    decreases a.len(),
{
    reveal_with_fuel(checked, 2);
    if a.len() == 0 {
        assert(a + b =~= b);
    } else {
        assert((a + b).drop_first() =~= a.drop_first() + b);
        assert((a + b)[0] == a[0]);
        lemma_checked_append(a.drop_first(), b);
        lemma_steps_bytes_append(a.drop_first(), b);
    }
}

pub proof fn lemma_checked_bytes(bs: Seq<u8>)
    ensures
        checked(byte_steps(bs)),
    decreases bs.len(),
{
    reveal_with_fuel(checked, 2);
    if bs.len() > 0 {
        assert(byte_steps(bs).drop_first() =~= byte_steps(bs.drop_first()));
        lemma_checked_bytes(bs.drop_first());
    } else {
        assert(byte_steps(bs) =~= Seq::<WStep>::empty());
    }
}

pub proof fn lemma_checked_u16(v: u16)
    ensures
        checked(u16_steps(v)),
{
    reveal_with_fuel(checked, 2);
    let s = u16_steps(v);
    lemma_u16_bytes(v);
    let s1 = s.drop_first();
    let s2 = s1.drop_first();
    assert(s2.drop_first() =~= Seq::<WStep>::empty());
    assert(s2[0] is Byte);
    assert(checked(s2.drop_first()));
    assert(checked(s2));
    assert(s1[0] is Byte);
    assert(checked(s1));
    assert(steps_bytes(s1) =~= seq![0u8, (v % 256) as u8]) by {
        assert(steps_bytes(s2.drop_first()) == Seq::<u8>::empty());
    }
}

pub proof fn lemma_checked_u32(w: u32)
    ensures
        checked(u32_steps(w)),
{
    reveal_with_fuel(checked, 2);
    let c = seq![WStep::Check(crate::bytepacketbuffer::BufferError::EndOfBufferToWriteU32)];
    let a = c + u16_steps(0u16);
    lemma_checked_u16(0u16);
    lemma_checked_u16((w % 65536) as u16);
    lemma_u16_bytes(0u16);
    assert(a.drop_first() =~= u16_steps(0u16));
    assert(a[0] == c[0]);
    assert(checked(a));
    lemma_checked_append(a, u16_steps((w % 65536) as u16));
}

pub proof fn lemma_checked_segs(s: Seq<u16>)
    ensures
        checked(segs_steps(s)),
    decreases s.len(),
{
    if s.len() > 0 {
        lemma_checked_segs(s.drop_last());
        lemma_checked_u16(s.last());
        lemma_checked_append(segs_steps(s.drop_last()), u16_steps(s.last()));
    } else {
        assert(segs_steps(s) =~= Seq::<WStep>::empty());
        reveal(checked);
    }
}

pub proof fn lemma_checked_head(domain: Seq<char>, tn: u16, ttl: u32)
    ensures
        checked(head_steps(domain, tn, ttl)),
{
    lemma_checked_bytes(encode_name(encode_utf8(domain)));
    lemma_checked_u16(tn);
    lemma_checked_u16(1u16);
    lemma_checked_u32(ttl);
    lemma_checked_append(name_steps(domain), u16_steps(tn));
    lemma_checked_append(name_steps(domain) + u16_steps(tn), u16_steps(1u16));
    lemma_checked_append(name_steps(domain) + u16_steps(tn) + u16_steps(1u16), u32_steps(ttl));
}

#[verifier::rlimit(50)]
pub proof fn lemma_checked_record(r: RecordView)
    ensures
        checked(record_head(r) + rdata_steps(r)),
{
    match r {
        RecordView::UNKOWN { .. } => {
            assert(record_head(r) + rdata_steps(r) =~= Seq::<WStep>::empty());
            reveal(checked);
        },
        RecordView::A { domain, addr, ttl } => {
            lemma_checked_head(domain, 1, ttl);
            lemma_checked_u16(4);
            lemma_checked_bytes(addr);
            lemma_checked_append(u16_steps(4), byte_steps(addr));
            lemma_checked_append(record_head(r), rdata_steps(r));
        },
        RecordView::NS { domain, host, ttl } => {
            lemma_checked_head(domain, 2, ttl);
            lemma_checked_u16(2);
            lemma_checked_bytes(name_wire(host));
            lemma_checked_append(u16_steps(2), name_steps(host));
            lemma_checked_append(record_head(r), rdata_steps(r));
        },
        RecordView::CNAME { domain, host, ttl } => {
            lemma_checked_head(domain, 5, ttl);
            lemma_checked_u16(0);
            lemma_checked_bytes(name_wire(host));
            lemma_checked_append(u16_steps(0), name_steps(host));
            lemma_checked_append(record_head(r), rdata_steps(r));
        },
        RecordView::MX { domain, priority, host, ttl } => {
            lemma_checked_head(domain, 15, ttl);
            lemma_checked_u16(0);
            lemma_checked_u16(priority);
            lemma_checked_bytes(name_wire(host));
            lemma_checked_append(u16_steps(0), u16_steps(priority));
            lemma_checked_append(u16_steps(0) + u16_steps(priority), name_steps(host));
            lemma_checked_append(record_head(r), rdata_steps(r));
        },
        RecordView::AAAA { domain, addr, ttl } => {
            lemma_checked_head(domain, 28, ttl);
            lemma_checked_u16(16);
            lemma_checked_segs(addr);
            lemma_checked_append(u16_steps(16), segs_steps(addr));
            lemma_checked_append(record_head(r), rdata_steps(r));
        },
    }
}

/// A record write succeeds when the record's bytes fit.
pub proof fn lemma_put_record_fits(st: WriteState, r: RecordView)
    requires
        st.err is None,
        0 <= st.pos,
        st.pos + record_wire(r).len() <= 512,
    ensures
        put_record(st, r).err is None,
{
    lemma_rdata_bytes(r);
    lemma_checked_record(r);
    lemma_steps_bytes_append(record_head(r), rdata_steps(r));
    lemma_checked_fits(st, record_head(r) + rdata_steps(r));
    lemma_run_append(st, record_head(r), rdata_steps(r));
}

pub proof fn lemma_put_questions_fits(st: WriteState, qs: Seq<QuestionView>)
    requires
        st.err is None,
        st.buf.len() == 512,
        0 <= st.pos,
        st.pos + questions_wire(qs).len() <= 512,
    ensures
        put_questions(st, qs).err is None,
    decreases qs.len(),
{
    if qs.len() > 0 {
        let d = qs.drop_last();
        let q = qs.last();
        lemma_put_questions_fits(st, d);
        lemma_put_questions_ok(st, d);
        lemma_question_bytes(q);
        lemma_checked_bytes(encode_name(encode_utf8(q.name)));
        lemma_checked_u16(qtype_num(q.qtype));
        lemma_checked_u16(1u16);
        lemma_checked_append(name_steps(q.name), u16_steps(qtype_num(q.qtype)));
        lemma_checked_append(name_steps(q.name) + u16_steps(qtype_num(q.qtype)), u16_steps(1u16));
        lemma_checked_fits(put_questions(st, d), question_steps(q.name, q.qtype));
    }
}

pub proof fn lemma_put_records_fits(st: WriteState, rs: Seq<RecordView>)
    requires
        st.err is None,
        st.buf.len() == 512,
        0 <= st.pos,
        st.pos + records_wire(rs).len() <= 512,
    ensures
        put_records(st, rs).err is None,
    decreases rs.len(),
{
    if rs.len() > 0 {
        let d = rs.drop_last();
        lemma_put_records_fits(st, d);
        lemma_put_records_ok(st, d);
        lemma_put_record_fits(put_records(st, d), rs.last());
    }
}

/// A packet write succeeds exactly when the packet's bytes fit.
#[verifier::rlimit(50)]
pub proof fn lemma_put_packet_fits(st: WriteState, p: PacketView)
    requires
        st.err is None,
        st.buf.len() == 512,
        0 <= st.pos,
    ensures
        put_packet(st, p).err is None <==> st.pos + packet_wire(p).len() <= 512,
{
    if put_packet(st, p).err is None {
        lemma_put_packet_ok(st, p);
    }
    if st.pos + packet_wire(p).len() <= 512 {
        let h = counted_header(p);
        let s1 = run(st, header_steps(h));
        lemma_header_bytes(h);
        lemma_checked_header(h);
        lemma_checked_fits(st, header_steps(h));
        lemma_run_ok(st, header_steps(h));
        let qw = questions_wire(p.questions);
        let aw = records_wire(p.answers);
        let nw = records_wire(p.authorities);
        lemma_put_questions_fits(s1, p.questions);
        lemma_put_questions_ok(s1, p.questions);
        let s2 = put_questions(s1, p.questions);
        lemma_put_records_fits(s2, p.answers);
        lemma_put_records_ok(s2, p.answers);
        let s3 = put_records(s2, p.answers);
        lemma_put_records_fits(s3, p.authorities);
        lemma_put_records_ok(s3, p.authorities);
        let s4 = put_records(s3, p.authorities);
        lemma_put_records_fits(s4, p.resources);
    }
}

pub proof fn lemma_checked_header(h: DnsHeader)
    ensures
        checked(header_steps(h)),
{
    let fl = seq![WStep::Byte(flags_hi(h)), WStep::Byte(flags_lo(h))];
    assert(fl =~= byte_steps(seq![flags_hi(h), flags_lo(h)]));
    lemma_checked_bytes(seq![flags_hi(h), flags_lo(h)]);
    lemma_checked_u16(h.id);
    lemma_checked_u16(h.questions);
    lemma_checked_u16(h.answers);
    lemma_checked_u16(h.authority_rrs);
    lemma_checked_u16(h.additional_rrs);
    let s1 = u16_steps(h.id);
    let s2 = s1 + fl;
    let s3 = s2 + u16_steps(h.questions);
    let s4 = s3 + u16_steps(h.answers);
    let s5 = s4 + u16_steps(h.authority_rrs);
    lemma_checked_append(s1, fl);
    lemma_checked_append(s2, u16_steps(h.questions));
    lemma_checked_append(s3, u16_steps(h.answers));
    lemma_checked_append(s4, u16_steps(h.authority_rrs));
    lemma_checked_append(s5, u16_steps(h.additional_rrs));
}

} // verus!
