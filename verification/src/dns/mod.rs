pub mod kinddns;

use vstd::prelude::*;
use vstd::utf8::encode_utf8;
use crate::bytepacketbuffer::{
    be16, be32, byte_steps, encode_name, err_of, lemma_run_append, lemma_run_err, lemma_run_pos,
    lemma_u16_ok, lemma_walk_seek, lemma_wrote_stop, lemma_wrote_then, name_end, name_ends,
    name_walk, read_end, run, state_of, u16_steps, u32_steps, walk_name, wrote, BufferError,
    BytePacketBuffer, WStep, WriteState,
};

verus! {

#[derive(Copy, Clone, Debug, PartialEq, Eq, Structural)]
pub enum ResultCode {
    NOERROR,
    FORMERR,
    SERVFAIL,
    NXDOMAIN,
    NOTIMP,
    REFUSED,
}

/// The response code that a 4-bit field value stands for (unknown values are
/// read as `NOERROR`).
pub open spec fn result_code_of(num: u8) -> ResultCode {
    if num == 1 {
        ResultCode::FORMERR
    } else if num == 2 {
        ResultCode::SERVFAIL
    } else if num == 3 {
        ResultCode::NXDOMAIN
    } else if num == 4 {
        ResultCode::NOTIMP
    } else if num == 5 {
        ResultCode::REFUSED
    } else {
        ResultCode::NOERROR
    }
}

/// The numeric value of a response code.
pub open spec fn result_code_num(code: ResultCode) -> u8 {
    match code {
        ResultCode::NOERROR => 0,
        ResultCode::FORMERR => 1,
        ResultCode::SERVFAIL => 2,
        ResultCode::NXDOMAIN => 3,
        ResultCode::NOTIMP => 4,
        ResultCode::REFUSED => 5,
    }
}

impl ResultCode {
    pub fn from_num(num: u8) -> (r: ResultCode)
        ensures
            r == result_code_of(num),
    {
        match num {
            1 => ResultCode::FORMERR,
            2 => ResultCode::SERVFAIL,
            3 => ResultCode::NXDOMAIN,
            4 => ResultCode::NOTIMP,
            5 => ResultCode::REFUSED,
            _ => ResultCode::NOERROR,
        }
    }

    fn num(&self) -> (r: u8)
        ensures
            r == result_code_num(*self),
    {
        match self {
            ResultCode::NOERROR => 0,
            ResultCode::FORMERR => 1,
            ResultCode::SERVFAIL => 2,
            ResultCode::NXDOMAIN => 3,
            ResultCode::NOTIMP => 4,
            ResultCode::REFUSED => 5,
        }
    }
}

#[derive(Clone, Debug)]
pub struct DnsHeader {
    pub id: u16,
    pub response: bool,
    pub operation_code: u8,
    pub authoritative_answer: bool,
    pub truncated_message: bool,
    pub recursion_desired: bool,
    pub recursion_avilable: bool,
    pub z: bool,
    pub authed_data: bool,
    pub checking_disabled: bool,
    pub response_code: ResultCode,
    pub questions: u16,
    pub answers: u16,
    pub authority_rrs: u16,
    pub additional_rrs: u16,
}

pub open spec fn bit(b: bool) -> u8 {
    if b {
        1
    } else {
        0
    }
}

/// The first flag byte that `DnsHeader::write` writes.
pub open spec fn flags_hi(h: DnsHeader) -> u8 {
    bit(h.recursion_desired) | (bit(h.truncated_message) << 1u8) | (bit(h.authoritative_answer) << 2u8)
        | (h.operation_code << 3u8) | (bit(h.response) << 7u8)
}

/// The second flag byte that `DnsHeader::write` writes.
pub open spec fn flags_lo(h: DnsHeader) -> u8 {
    result_code_num(h.response_code) | (bit(h.checking_disabled) << 4u8) | (bit(h.authed_data) << 5u8)
        | (bit(h.z) << 6u8) | (bit(h.recursion_avilable) << 7u8)
}

/// What `DnsHeader::write` does.
pub open spec fn header_steps(h: DnsHeader) -> Seq<WStep> {
    u16_steps(h.id) + seq![WStep::Byte(flags_hi(h)), WStep::Byte(flags_lo(h))] + u16_steps(h.questions)
        + u16_steps(h.answers) + u16_steps(h.authority_rrs) + u16_steps(h.additional_rrs)
}

/// `h` with the fields that the two flag bytes `a` and `b` give.
pub open spec fn with_flags(h: DnsHeader, a: u8, b: u8) -> DnsHeader {
    DnsHeader {
        recursion_desired: a & 1u8 != 0,
        truncated_message: a & 2u8 != 0,
        authoritative_answer: a & 4u8 != 0,
        operation_code: (a >> 3u8) & 0x0fu8,
        response: a & 0x80u8 != 0,
        response_code: result_code_of(b & 0x0fu8),
        checking_disabled: b & 0x10u8 != 0,
        authed_data: b & 0x20u8 != 0,
        z: b & 0x40u8 != 0,
        recursion_avilable: b & 0x80u8 != 0,
        ..h
    }
}

/// `h` with field group `g` (0: id, 1: flags, 2..=5: the four counts) set
/// from the header bytes `d`.
pub open spec fn set_group(h: DnsHeader, d: Seq<u8>, g: int) -> DnsHeader {
    if g == 0 {
        DnsHeader { id: be16(d, 0) as u16, ..h }
    } else if g == 1 {
        with_flags(h, d[2], d[3])
    } else if g == 2 {
        DnsHeader { questions: be16(d, 4) as u16, ..h }
    } else if g == 3 {
        DnsHeader { answers: be16(d, 6) as u16, ..h }
    } else if g == 4 {
        DnsHeader { authority_rrs: be16(d, 8) as u16, ..h }
    } else {
        DnsHeader { additional_rrs: be16(d, 10) as u16, ..h }
    }
}

/// `h` with the first `k` field groups set from the header bytes `d`.
#[verifier::opaque]
pub open spec fn header_prefix(h: DnsHeader, d: Seq<u8>, k: nat) -> DnsHeader
    decreases k,
{
    if k == 0 {
        h
    } else {
        set_group(header_prefix(h, d, (k - 1) as nat), d, k - 1)
    }
}

pub proof fn lemma_header_prefix_step(h: DnsHeader, d: Seq<u8>, k: nat)
    ensures
        header_prefix(h, d, k + 1) == set_group(header_prefix(h, d, k), d, k as int),
        header_prefix(h, d, 0) == h,
{
    reveal_with_fuel(header_prefix, 2);
}

pub proof fn lemma_header_read_from(h: DnsHeader, d: Seq<u8>, k: nat)
    requires
        k <= 6,
        2 * k <= d.len(),
        k < 6 ==> d.len() < 2 * k + 2,
    ensures
        header_read_from(h, d) == header_prefix(h, d, k),
{
    reveal(header_read_from);
}

/// `h` after reading the header bytes `d`: each field group whose bytes are
/// all in `d` is set from them, the others keep their value (a read that
/// runs out of bytes stops after the fields it has already set).
#[verifier::opaque]
pub open spec fn header_read_from(h: DnsHeader, d: Seq<u8>) -> DnsHeader {
    header_prefix(h, d, if d.len() >= 12 { 6 } else { (d.len() / 2) as nat })
}

/// The bytes from `pos` up to `n` of them, as far as the buffer reaches.
pub open spec fn avail(buf: Seq<u8>, pos: int, n: int) -> Seq<u8> {
    if pos >= 512 {
        Seq::empty()
    } else if pos + n <= 512 {
        buf.subrange(pos, pos + n)
    } else {
        buf.subrange(pos, 512)
    }
}

pub open spec fn new_header() -> DnsHeader {
    DnsHeader {
        id: 0,
        response: false,
        operation_code: 0,
        authoritative_answer: false,
        truncated_message: false,
        recursion_desired: false,
        recursion_avilable: false,
        z: false,
        authed_data: false,
        checking_disabled: false,
        response_code: ResultCode::NOERROR,
        questions: 0,
        answers: 0,
        authority_rrs: 0,
        additional_rrs: 0,
    }
}

proof fn lemma_flag_byte(flags: u16, x: u8, y: u8, a: u8, bb: u8)
    requires
        flags == x * 256 + y,
        a == flags / 256,
        bb == flags % 256,
    ensures
        a == x,
        bb == y,
{
    assert(a == x && bb == y) by (nonlinear_arith)
        requires
            flags == x * 256 + y,
            a == flags / 256,
            bb == flags % 256,
            0 <= y < 256,
    ;
}

proof fn lemma_flag_bits(a: u8, bb: u8)
    ensures
        ((a & (1u8 << 0u8)) > 0) == (a & 1u8 != 0),
        ((a & (1u8 << 1u8)) > 0) == (a & 2u8 != 0),
        ((a & (1u8 << 2u8)) > 0) == (a & 4u8 != 0),
        ((a & (1u8 << 7u8)) > 0) == (a & 0x80u8 != 0),
        ((bb & (1u8 << 4u8)) > 0) == (bb & 0x10u8 != 0),
        ((bb & (1u8 << 5u8)) > 0) == (bb & 0x20u8 != 0),
        ((bb & (1u8 << 6u8)) > 0) == (bb & 0x40u8 != 0),
        ((bb & (1u8 << 7u8)) > 0) == (bb & 0x80u8 != 0),
{
    assert(((a & (1u8 << 0u8)) > 0) == (a & 1u8 != 0)) by (bit_vector);
    assert(((a & (1u8 << 1u8)) > 0) == (a & 2u8 != 0)) by (bit_vector);
    assert(((a & (1u8 << 2u8)) > 0) == (a & 4u8 != 0)) by (bit_vector);
    assert(((a & (1u8 << 7u8)) > 0) == (a & 0x80u8 != 0)) by (bit_vector);
    assert(((bb & (1u8 << 4u8)) > 0) == (bb & 0x10u8 != 0)) by (bit_vector);
    assert(((bb & (1u8 << 5u8)) > 0) == (bb & 0x20u8 != 0)) by (bit_vector);
    assert(((bb & (1u8 << 6u8)) > 0) == (bb & 0x40u8 != 0)) by (bit_vector);
    assert(((bb & (1u8 << 7u8)) > 0) == (bb & 0x80u8 != 0)) by (bit_vector);
}

/// The header as reading back its written bytes gives it: the flag fields
/// survive except that only the low four bits of the operation code are
/// kept (its fifth bit lands on the response flag), and of the id and the
/// counts only the low byte survives (the high byte is written as zero).
pub open spec fn header_as_read(h: DnsHeader) -> DnsHeader {
    DnsHeader {
        id: h.id % 256,
        operation_code: h.operation_code & 15u8,
        response: h.response || h.operation_code & 16u8 != 0,
        questions: h.questions % 256,
        answers: h.answers % 256,
        authority_rrs: h.authority_rrs % 256,
        additional_rrs: h.additional_rrs % 256,
        ..h
    }
}

pub proof fn lemma_result_code_roundtrip(c: ResultCode)
    ensures
        result_code_of(result_code_num(c)) == c,
        result_code_num(c) <= 5,
{
}

/// Reading the two flag bytes that a header is written with gives back its
/// flag fields (the operation code and response flag as `header_as_read` says).
pub proof fn lemma_flags_roundtrip(h: DnsHeader)
    ensures
        with_flags(h, flags_hi(h), flags_lo(h)) == (DnsHeader {
            operation_code: h.operation_code & 15u8,
            response: h.response || h.operation_code & 16u8 != 0,
            ..h
        }),
{
    let rd = bit(h.recursion_desired);
    let tc = bit(h.truncated_message);
    let aa = bit(h.authoritative_answer);
    let op = h.operation_code;
    let qr = bit(h.response);
    let a = flags_hi(h);
    assert(a == rd | (tc << 1u8) | (aa << 2u8) | (op << 3u8) | (qr << 7u8));
    assert(
        (a & 1u8 != 0) == (rd == 1) && (a & 2u8 != 0) == (tc == 1) && (a & 4u8 != 0) == (aa == 1)
        && (a >> 3u8) & 0x0fu8 == op & 15u8 && (a & 0x80u8 != 0) == (qr == 1 || op & 16u8 != 0)
    ) by (bit_vector)
        requires
            rd <= 1,
            tc <= 1,
            aa <= 1,
            qr <= 1,
            a == rd | (tc << 1u8) | (aa << 2u8) | (op << 3u8) | (qr << 7u8),
    ;
    let rc = result_code_num(h.response_code);
    let cd = bit(h.checking_disabled);
    let ad = bit(h.authed_data);
    let z = bit(h.z);
    let ra = bit(h.recursion_avilable);
    let b = flags_lo(h);
    assert(b == rc | (cd << 4u8) | (ad << 5u8) | (z << 6u8) | (ra << 7u8));
    assert(
        b & 0x0fu8 == rc && (b & 0x10u8 != 0) == (cd == 1) && (b & 0x20u8 != 0) == (ad == 1)
        && (b & 0x40u8 != 0) == (z == 1) && (b & 0x80u8 != 0) == (ra == 1)
    ) by (bit_vector)
        requires
            rc <= 5,
            cd <= 1,
            ad <= 1,
            z <= 1,
            ra <= 1,
            b == rc | (cd << 4u8) | (ad << 5u8) | (z << 6u8) | (ra << 7u8),
    ;
    lemma_result_code_roundtrip(h.response_code);
}

impl DnsHeader {
    pub fn new() -> (r: DnsHeader)
        ensures
            r == new_header(),
    {
        DnsHeader {
            id: 0,
            response: false,
            operation_code: 0,
            authoritative_answer: false,
            truncated_message: false,
            recursion_desired: false,
            recursion_avilable: false,
            z: false,
            authed_data: false,
            checking_disabled: false,
            response_code: ResultCode::NOERROR,
            questions: 0,
            answers: 0,
            authority_rrs: 0,
            additional_rrs: 0,
        }
    }

    /// Sets the flag fields from the two flag bytes (big-endian in `flags`).
    fn set_flags(&mut self, flags: u16)
        ensures
            *final(self) == with_flags(*old(self), (flags / 256) as u8, (flags % 256) as u8),
    {
        let a = (flags >> 8) as u8;
        let bb = (flags & 0xff) as u8;
        assert(a == flags / 256 && bb == flags % 256) by (bit_vector)
            requires
                a == (flags >> 8) as u8,
                bb == (flags & 0xff) as u8,
        ;
        self.recursion_desired = (a & (1 << 0)) > 0;
        self.truncated_message = (a & (1 << 1)) > 0;
        self.authoritative_answer = (a & (1 << 2)) > 0;
        self.operation_code = (a >> 3) & 0x0f;
        self.response = (a & (1 << 7)) > 0;
        self.response_code = ResultCode::from_num(bb & 0x0f);
        self.checking_disabled = (bb & (1 << 4)) > 0;
        self.authed_data = (bb & (1 << 5)) > 0;
        self.z = (bb & (1 << 6)) > 0;
        self.recursion_avilable = (bb & (1 << 7)) > 0;
        proof {
            lemma_flag_bits(a, bb);
        }
    }

    /// Reads the 12 header bytes at the cursor.
    #[verifier::rlimit(60)]
    pub fn read(&mut self, buffer: &mut BytePacketBuffer) -> (r: Result<(), BufferError>)
        ensures
            final(buffer).buf@ == old(buffer).buf@,
            final(buffer).pos == read_end(old(buffer).pos as int, 12),
            r == (if old(buffer).pos + 12 <= 512 {
                Ok::<(), BufferError>(())
            } else {
                Err(BufferError::EndOfBufferToRead)
            }),
            *final(self) == header_read_from(*old(self), avail(old(buffer).buf@, old(buffer).pos as int, 12)),
    {
        let ghost b = buffer.buf@;
        let ghost p = buffer.pos as int;
        let ghost d = avail(b, p, 12);
        let ghost h0 = *self;
        proof {
            assert(forall|i: int| 0 <= i < d.len() ==> d[i] == b[p + i]);
            assert(d.len() == (if p + 12 <= 512 { 12 } else if p < 512 { 512 - p } else { 0 }));
            lemma_header_prefix_step(h0, d, 0);
        }
        self.id = match buffer.read_u16() {
            Ok(v) => v,
            Err(e) => {
                proof {
                    lemma_header_read_from(h0, d, 0);
                }
                return Err(e);
            },
        };
        assert(*self == header_prefix(h0, d, 1));
        let flags = match buffer.read_u16() {
            Ok(v) => v,
            Err(e) => {
                proof {
                    lemma_header_read_from(h0, d, 1);
                }
                return Err(e);
            },
        };
        self.set_flags(flags);
        proof {
            lemma_flag_byte(flags, b[p + 2], b[p + 3], (flags / 256) as u8, (flags % 256) as u8);
            lemma_header_prefix_step(h0, d, 1);
            assert(*self == header_prefix(h0, d, 2));
        }
        self.read_counts(buffer, Ghost(d), Ghost(p), Ghost(h0))
    }

    /// Writes the 12 header bytes at the cursor.
    pub fn write(&self, buffer: &mut BytePacketBuffer) -> (r: Result<(), BufferError>)
        ensures
            wrote(*old(buffer), *final(buffer), r, header_steps(*self)),
    {
        let ghost b0 = *buffer;
        let ghost full = header_steps(*self);
        let ghost s1 = u16_steps(self.id);
        let ghost s2 = s1 + seq![WStep::Byte(flags_hi(*self))];
        let ghost s3 = s2 + seq![WStep::Byte(flags_lo(*self))];
        let ghost s4 = s3 + u16_steps(self.questions);
        let ghost s5 = s4 + u16_steps(self.answers);
        let ghost s6 = s5 + u16_steps(self.authority_rrs);
        proof {
            assert(full =~= s6 + u16_steps(self.additional_rrs));
            assert(full.subrange(0, s6.len() as int) =~= s6);
            assert(full.subrange(0, s5.len() as int) =~= s5);
            assert(full.subrange(0, s4.len() as int) =~= s4);
            assert(full.subrange(0, s3.len() as int) =~= s3);
            assert(full.subrange(0, s2.len() as int) =~= s2);
            assert(full.subrange(0, s1.len() as int) =~= s1);
        }
        let r = buffer.write_u16(self.id);
        if r.is_err() {
            proof { lemma_wrote_stop(b0, *buffer, r, s1, full); }
            return r;
        }
        let ghost b1 = *buffer;
        let hi = (self.recursion_desired as u8) | ((self.truncated_message as u8) << 1)
            | ((self.authoritative_answer as u8) << 2) | (self.operation_code << 3)
            | (((self.response as u8) << 7) as u8);
        assert(hi == flags_hi(*self));
        let r = buffer.write(hi);
        proof { lemma_wrote_then(b0, b1, *buffer, r, s1, seq![WStep::Byte(flags_hi(*self))]); }
        if r.is_err() {
            proof { lemma_wrote_stop(b0, *buffer, r, s2, full); }
            return r;
        }
        let ghost b2 = *buffer;
        let lo = self.response_code.num() | ((self.checking_disabled as u8) << 4)
            | ((self.authed_data as u8) << 5) | ((self.z as u8) << 6)
            | ((self.recursion_avilable as u8) << 7);
        assert(lo == flags_lo(*self));
        let r = buffer.write(lo);
        proof { lemma_wrote_then(b0, b2, *buffer, r, s2, seq![WStep::Byte(flags_lo(*self))]); }
        if r.is_err() {
            proof { lemma_wrote_stop(b0, *buffer, r, s3, full); }
            return r;
        }
        let ghost b3 = *buffer;
        let r = buffer.write_u16(self.questions);
        proof { lemma_wrote_then(b0, b3, *buffer, r, s3, u16_steps(self.questions)); }
        if r.is_err() {
            proof { lemma_wrote_stop(b0, *buffer, r, s4, full); }
            return r;
        }
        let ghost b4 = *buffer;
        let r = buffer.write_u16(self.answers);
        proof { lemma_wrote_then(b0, b4, *buffer, r, s4, u16_steps(self.answers)); }
        if r.is_err() {
            proof { lemma_wrote_stop(b0, *buffer, r, s5, full); }
            return r;
        }
        let ghost b5 = *buffer;
        let r = buffer.write_u16(self.authority_rrs);
        proof { lemma_wrote_then(b0, b5, *buffer, r, s5, u16_steps(self.authority_rrs)); }
        if r.is_err() {
            proof { lemma_wrote_stop(b0, *buffer, r, s6, full); }
            return r;
        }
        let ghost b6 = *buffer;
        let r = buffer.write_u16(self.additional_rrs);
        proof { lemma_wrote_then(b0, b6, *buffer, r, s6, u16_steps(self.additional_rrs)); }
        r
    }

    #[verifier::rlimit(30)]
    fn read_counts(
        &mut self,
        buffer: &mut BytePacketBuffer,
        Ghost(d): Ghost<Seq<u8>>,
        Ghost(p): Ghost<int>,
        Ghost(h0): Ghost<DnsHeader>,
    ) -> (r: Result<(), BufferError>)
        requires
            d == avail(old(buffer).buf@, p, 12),
            old(buffer).pos == p + 4,
            p + 4 <= 512,
            0 <= p,
            *old(self) == header_prefix(h0, d, 2),
        ensures
            final(buffer).buf@ == old(buffer).buf@,
            final(buffer).pos == read_end(p, 12),
            r == (if p + 12 <= 512 {
                Ok::<(), BufferError>(())
            } else {
                Err(BufferError::EndOfBufferToRead)
            }),
            *final(self) == header_read_from(h0, d),
    {
        let ghost b = buffer.buf@;
        proof {
            assert(forall|i: int| 0 <= i < d.len() ==> d[i] == b[p + i]);
            assert(d.len() == (if p + 12 <= 512 { 12 } else { 512 - p }));
        }
        proof { lemma_header_prefix_step(h0, d, 2); }
        self.questions = match buffer.read_u16() {
            Ok(v) => v,
            Err(e) => {
                proof {
                    lemma_header_read_from(h0, d, 2);
                }
                return Err(e);
            },
        };
        assert(*self == header_prefix(h0, d, 3));
        proof { lemma_header_prefix_step(h0, d, 3); }
        self.answers = match buffer.read_u16() {
            Ok(v) => v,
            Err(e) => {
                proof {
                    lemma_header_read_from(h0, d, 3);
                }
                return Err(e);
            },
        };
        assert(*self == header_prefix(h0, d, 4));
        proof { lemma_header_prefix_step(h0, d, 4); }
        self.authority_rrs = match buffer.read_u16() {
            Ok(v) => v,
            Err(e) => {
                proof {
                    lemma_header_read_from(h0, d, 4);
                }
                return Err(e);
            },
        };
        assert(*self == header_prefix(h0, d, 5));
        proof { lemma_header_prefix_step(h0, d, 5); }
        self.additional_rrs = match buffer.read_u16() {
            Ok(v) => v,
            Err(e) => {
                proof {
                    lemma_header_read_from(h0, d, 5);
                }
                return Err(e);
            },
        };
        assert(*self == header_prefix(h0, d, 6));
        proof {
            lemma_header_read_from(h0, d, 6);
        }
        Ok(())
    }
}

#[derive(PartialEq, Eq, Debug, Clone, Hash, Copy, Structural)]
pub enum QueryType {
    UNKOWN(u16),
    A,
    NS,
    CNAME,
    MX,
    AAAA,
}

pub open spec fn qtype_num(t: QueryType) -> u16 {
    match t {
        QueryType::UNKOWN(x) => x,
        QueryType::A => 1,
        QueryType::NS => 2,
        QueryType::CNAME => 5,
        QueryType::MX => 15,
        QueryType::AAAA => 28,
    }
}

pub open spec fn qtype_of(num: u16) -> QueryType {
    if num == 1 {
        QueryType::A
    } else if num == 2 {
        QueryType::NS
    } else if num == 5 {
        QueryType::CNAME
    } else if num == 15 {
        QueryType::MX
    } else if num == 28 {
        QueryType::AAAA
    } else {
        QueryType::UNKOWN(num)
    }
}

impl QueryType {
    pub fn to_num(&self) -> (r: u16)
        ensures
            r == qtype_num(*self),
    {
        match *self {
            QueryType::UNKOWN(x) => x,
            QueryType::A => 1,
            QueryType::NS => 2,
            QueryType::CNAME => 5,
            QueryType::MX => 15,
            QueryType::AAAA => 28,
        }
    }

    pub fn from_num(num: u16) -> (r: QueryType)
        ensures
            r == qtype_of(num),
    {
        match num {
            1 => QueryType::A,
            2 => QueryType::NS,
            5 => QueryType::CNAME,
            15 => QueryType::MX,
            28 => QueryType::AAAA,
            _ => QueryType::UNKOWN(num),
        }
    }
}

#[derive(Debug, Clone, PartialEq, Eq)]
pub struct DnsQuestion {
    pub name: String,
    pub qtype: QueryType,
}

/// A question with its name as text.
pub struct QuestionView {
    pub name: Seq<char>,
    pub qtype: QueryType,
}

impl View for DnsQuestion {
    type V = QuestionView;

    open spec fn view(&self) -> QuestionView {
        QuestionView { name: self.name@, qtype: self.qtype }
    }
}

/// Reading a question at `pos` into a question with an empty name.
pub open spec fn parse_question(buf: Seq<u8>, pos: int) -> Parsed<QuestionView> {
    match parse_name(buf, pos) {
        Parsed::Got(name, p1) => if p1 + 4 <= 512 {
            Parsed::Got(QuestionView { name, qtype: qtype_of(be16(buf, p1) as u16) }, p1 + 4)
        } else {
            Parsed::Fail(BufferError::EndOfBufferToRead, read_end(p1, 4))
        },
        Parsed::Fail(e, p1) => Parsed::Fail(e, p1),
        Parsed::Endless => Parsed::Endless,
    }
}

/// What `DnsQuestion::write` does: the name, the type number, and class 1.
pub open spec fn question_steps(name: Seq<char>, qtype: QueryType) -> Seq<WStep> {
    byte_steps(encode_name(encode_utf8(name))) + u16_steps(qtype_num(qtype)) + u16_steps(1u16)
}

impl DnsQuestion {
    pub fn new(name: String, qtype: QueryType) -> (r: DnsQuestion)
        ensures
            r.name == name,
            r.qtype == qtype,
    {
        DnsQuestion { name: name, qtype: qtype }
    }

    /// Reads a question at the cursor: its name (appended to `self.name`),
    /// its type, and its class (which is skipped).
    pub fn read(&mut self, buffer: &mut BytePacketBuffer) -> (r: Result<(), BufferError>)
        requires
            name_ends(old(buffer).buf@, old(buffer).pos as int),
        ensures
            ({
                let b = old(buffer).buf@;
                let p = old(buffer).pos as int;
                let w = name_walk(b, p);
                let p1 = name_end(b, p);
                &&& final(buffer).buf@ == b
                &&& final(self).name@ == old(self).name@ + w->text
                &&& w->err is Some ==> r == Err::<(), BufferError>(w->err->0) && final(buffer).pos == p1
                    && final(self).qtype == old(self).qtype
                &&& w->err is None ==> final(buffer).pos == read_end(p1, 4) && r == (if p1 + 4 <= 512 {
                    Ok::<(), BufferError>(())
                } else {
                    Err(BufferError::EndOfBufferToRead)
                }) && final(self).qtype == (if p1 + 2 <= 512 {
                    qtype_of(be16(b, p1) as u16)
                } else {
                    old(self).qtype
                })
            }),
    {
        proof {
            lemma_walk_seek(old(buffer).buf@, old(buffer).pos as int, false,
                choose|f: nat| !(#[trigger] walk_name(old(buffer).buf@, old(buffer).pos as int, false, false, f) is Endless));
        }
        buffer.read_qname(&mut self.name)?;
        self.qtype = QueryType::from_num(buffer.read_u16()?);
        let _ = buffer.read_u16()?;
        Ok(())
    }

    /// Writes the question at the cursor: name, type number, class 1.
    pub fn write(&self, buffer: &mut BytePacketBuffer) -> (r: Result<(), BufferError>)
        ensures
            wrote(*old(buffer), *final(buffer), r, question_steps(self.name@, self.qtype)),
    {
        let ghost b0 = *buffer;
        let ghost s1 = byte_steps(encode_name(encode_utf8(self.name@)));
        let ghost s2 = s1 + u16_steps(qtype_num(self.qtype));
        let ghost full = question_steps(self.name@, self.qtype);
        proof {
            assert(full.subrange(0, s2.len() as int) =~= s2);
            assert(full.subrange(0, s1.len() as int) =~= s1);
        }
        let r = buffer.write_qname(self.name.as_str());
        if r.is_err() {
            proof { lemma_wrote_stop(b0, *buffer, r, s1, full); }
            return r;
        }
        let ghost b1 = *buffer;
        let typenum = self.qtype.to_num();
        let r = buffer.write_u16(typenum);
        proof { lemma_wrote_then(b0, b1, *buffer, r, s1, u16_steps(qtype_num(self.qtype))); }
        if r.is_err() {
            proof { lemma_wrote_stop(b0, *buffer, r, s2, full); }
            return r;
        }
        let ghost b2 = *buffer;
        let r = buffer.write_u16(1);
        proof { lemma_wrote_then(b0, b2, *buffer, r, s2, u16_steps(1u16)); }
        r
    }
}

/// An IPv4 address, as its four octets.
#[derive(Copy, Clone, Debug, PartialEq, Eq, Hash, PartialOrd, Ord)]
pub struct Ipv4Addr {
    pub octets: [u8; 4],
}

impl Ipv4Addr {
    pub fn new(a: u8, b: u8, c: u8, d: u8) -> (r: Ipv4Addr)
        ensures
            r.octets@ == seq![a, b, c, d],
    {
        let r = Ipv4Addr { octets: [a, b, c, d] };
        assert(r.octets@ =~= seq![a, b, c, d]);
        r
    }

    pub fn octets(&self) -> (r: [u8; 4])
        ensures
            r@ == self.octets@,
    {
        self.octets
    }
}

/// An IPv6 address, as its eight 16-bit segments.
#[derive(Copy, Clone, Debug, PartialEq, Eq, Hash, PartialOrd, Ord)]
pub struct Ipv6Addr {
    pub segments: [u16; 8],
}

impl Ipv6Addr {
    pub fn new(a: u16, b: u16, c: u16, d: u16, e: u16, f: u16, g: u16, h: u16) -> (r: Ipv6Addr)
        ensures
            r.segments@ == seq![a, b, c, d, e, f, g, h],
    {
        let r = Ipv6Addr { segments: [a, b, c, d, e, f, g, h] };
        assert(r.segments@ =~= seq![a, b, c, d, e, f, g, h]);
        r
    }

    pub fn segments(&self) -> (r: [u16; 8])
        ensures
            r@ == self.segments@,
    {
        self.segments
    }
}

#[derive(Debug, Clone, PartialEq, Eq, Hash, PartialOrd, Ord)]
pub enum DnsRecord {
    UNKOWN { domain: String, qtype: u16, ttl: u32, data_len: u16 },
    A { domain: String, addr: Ipv4Addr, ttl: u32 },
    NS { domain: String, host: String, ttl: u32 },
    CNAME { domain: String, host: String, ttl: u32 },
    MX { domain: String, priority: u16, host: String, ttl: u32 },
    AAAA { domain: String, addr: Ipv6Addr, ttl: u32 },
}

/// A resource record with its names as text and its address as octets or segments.
pub enum RecordView {
    UNKOWN { domain: Seq<char>, qtype: u16, ttl: u32, data_len: u16 },
    A { domain: Seq<char>, addr: Seq<u8>, ttl: u32 },
    NS { domain: Seq<char>, host: Seq<char>, ttl: u32 },
    CNAME { domain: Seq<char>, host: Seq<char>, ttl: u32 },
    MX { domain: Seq<char>, priority: u16, host: Seq<char>, ttl: u32 },
    AAAA { domain: Seq<char>, addr: Seq<u16>, ttl: u32 },
}

impl View for DnsRecord {
    type V = RecordView;

    open spec fn view(&self) -> RecordView {
        match self {
            DnsRecord::UNKOWN { domain, qtype, ttl, data_len } => RecordView::UNKOWN {
                domain: domain@,
                qtype: *qtype,
                ttl: *ttl,
                data_len: *data_len,
            },
            DnsRecord::A { domain, addr, ttl } => RecordView::A { domain: domain@, addr: addr.octets@, ttl: *ttl },
            DnsRecord::NS { domain, host, ttl } => RecordView::NS { domain: domain@, host: host@, ttl: *ttl },
            DnsRecord::CNAME { domain, host, ttl } => RecordView::CNAME { domain: domain@, host: host@, ttl: *ttl },
            DnsRecord::MX { domain, priority, host, ttl } => RecordView::MX {
                domain: domain@,
                priority: *priority,
                host: host@,
                ttl: *ttl,
            },
            DnsRecord::AAAA { domain, addr, ttl } => RecordView::AAAA {
                domain: domain@,
                addr: addr.segments@,
                ttl: *ttl,
            },
        }
    }
}

/// The outcome of reading something at a position: the value and the
/// position after it; or the error and the position the cursor was left at;
/// or no end at all (compression pointers that loop).
pub enum Parsed<T> {
    Got(T, int),
    Fail(BufferError, int),
    Endless,
}

/// Reading a name at `pos` with `BytePacketBuffer::read_qname`.
pub open spec fn parse_name(buf: Seq<u8>, pos: int) -> Parsed<Seq<char>> {
    if !name_ends(buf, pos) {
        Parsed::Endless
    } else {
        match name_walk(buf, pos)->err {
            None => Parsed::Got(name_walk(buf, pos)->text, name_end(buf, pos)),
            Some(e) => Parsed::Fail(e, name_end(buf, pos)),
        }
    }
}

/// The segments of an IPv6 address stored big-endian at `p`.
pub open spec fn ipv6_at(buf: Seq<u8>, p: int) -> Seq<u16> {
    Seq::new(8, |i: int| be16(buf, p + 2 * i) as u16)
}

/// Reading the data of a record of type number `tn` at `p`, once its name,
/// type, class, time to live and data length have been read.
pub open spec fn parse_rdata(buf: Seq<u8>, domain: Seq<char>, tn: u16, ttl: u32, dl: u16, p: int) -> Parsed<RecordView> {
    match qtype_of(tn) {
        QueryType::A => if p + 4 <= 512 {
            Parsed::Got(RecordView::A { domain, addr: buf.subrange(p, p + 4), ttl }, p + 4)
        } else {
            Parsed::Fail(BufferError::EndOfBufferToRead, read_end(p, 4))
        },
        QueryType::NS | QueryType::CNAME => match parse_name(buf, p) {
            Parsed::Got(host, p2) => Parsed::Got(RecordView::NS { domain, host, ttl }, p2),
            Parsed::Fail(e, p2) => Parsed::Fail(e, p2),
            Parsed::Endless => Parsed::Endless,
        },
        QueryType::MX => if p + 2 <= 512 {
            match parse_name(buf, p + 2) {
                Parsed::Got(host, p2) => Parsed::Got(
                    RecordView::MX { domain, priority: be16(buf, p) as u16, host, ttl },
                    p2,
                ),
                Parsed::Fail(e, p2) => Parsed::Fail(e, p2),
                Parsed::Endless => Parsed::Endless,
            }
        } else {
            Parsed::Fail(BufferError::EndOfBufferToRead, read_end(p, 2))
        },
        QueryType::AAAA => if p + 16 <= 512 {
            Parsed::Got(RecordView::AAAA { domain, addr: ipv6_at(buf, p), ttl }, p + 16)
        } else {
            Parsed::Fail(BufferError::EndOfBufferToRead, read_end(p, 16))
        },
        QueryType::UNKOWN(_) => Parsed::Got(RecordView::UNKOWN { domain, qtype: tn, ttl, data_len: dl }, p + dl),
    }
}

/// Reading a resource record at `pos` with `DnsRecord::read`. Note that a
/// CNAME record is read as an NS record, and that an A record's data length
/// is not looked at.
pub open spec fn parse_record(buf: Seq<u8>, pos: int) -> Parsed<RecordView> {
    match parse_name(buf, pos) {
        Parsed::Got(domain, p1) => if p1 + 10 <= 512 {
            parse_rdata(buf, domain, be16(buf, p1) as u16, be32(buf, p1 + 4) as u32, be16(buf, p1 + 8) as u16, p1 + 10)
        } else {
            Parsed::Fail(BufferError::EndOfBufferToRead, read_end(p1, 10))
        },
        Parsed::Fail(e, p1) => Parsed::Fail(e, p1),
        Parsed::Endless => Parsed::Endless,
    }
}

/// `r` is what reading gave when `p` is the outcome that the spec gives, and
/// `pos` is where the cursor was left.
pub open spec fn read_as<T: View>(r: Result<T, BufferError>, pos: int, p: Parsed<T::V>) -> bool {
    match p {
        Parsed::Got(v, p2) => r matches Ok(x) && x@ == v && pos == p2,
        Parsed::Fail(e, p2) => r == Err::<T, BufferError>(e) && pos == p2,
        Parsed::Endless => false,
    }
}

proof fn lemma_u32_octets(raw: u32, x0: u8, x1: u8, x2: u8, x3: u8)
    requires
        raw == x0 * 16777216 + x1 * 65536 + x2 * 256 + x3,
    ensures
        ((raw >> 24) & 0xff) as u8 == x0,
        ((raw >> 16) & 0xff) as u8 == x1,
        ((raw >> 8) & 0xff) as u8 == x2,
        ((raw >> 0) & 0xff) as u8 == x3,
{
    assert(((raw >> 24) & 0xff) as u8 == x0 && ((raw >> 16) & 0xff) as u8 == x1 && ((raw >> 8) & 0xff) as u8
        == x2 && ((raw >> 0) & 0xff) as u8 == x3) by (bit_vector)
        requires
            raw == x0 * 16777216 + x1 * 65536 + x2 * 256 + x3,
    ;
}

proof fn lemma_u32_halves(raw: u32, hi: int, lo: int)
    requires
        raw == hi * 65536 + lo,
        0 <= hi < 65536,
        0 <= lo < 65536,
    ensures
        ((raw >> 16) & 0xFFFF) as u16 == hi,
        ((raw >> 0) & 0xFFFF) as u16 == lo,
{
    let h = hi as u16;
    let l = lo as u16;
    assert(((raw >> 16) & 0xFFFF) as u16 == h && ((raw >> 0) & 0xFFFF) as u16 == l) by (bit_vector)
        requires
            raw == h * 65536 + l,
    ;
}

impl DnsRecord {
    /// Reads a resource record at the cursor.
    pub fn read(buffer: &mut BytePacketBuffer) -> (r: Result<DnsRecord, BufferError>)
        requires
            !(parse_record(old(buffer).buf@, old(buffer).pos as int) is Endless),
        ensures
            final(buffer).buf@ == old(buffer).buf@,
            read_as(r, final(buffer).pos as int, parse_record(old(buffer).buf@, old(buffer).pos as int)),
    {
        let ghost b = buffer.buf@;
        let ghost p0 = buffer.pos as int;
        let mut domain = String::new();
        proof {
            lemma_walk_seek(b, p0, false, choose|f: nat| !(#[trigger] walk_name(b, p0, false, false, f) is Endless));
        }
        buffer.read_qname(&mut domain)?;
        assert(domain@ =~= name_walk(b, p0)->text);
        let qtype_num = buffer.read_u16()?;
        let qtype = QueryType::from_num(qtype_num);
        let _ = buffer.read_u16()?;
        let ttl = buffer.read_u32()?;
        let data_len = buffer.read_u16()?;
        Self::read_data(buffer, domain, qtype, qtype_num, ttl, data_len)
    }

    /// Reads the data of a record whose header has been read.
    fn read_data(buffer: &mut BytePacketBuffer, domain: String, qtype: QueryType, qtype_num: u16, ttl: u32, data_len: u16) -> (r: Result<DnsRecord, BufferError>)
        requires
            qtype == qtype_of(qtype_num),
            old(buffer).pos <= 512,
            !(parse_rdata(old(buffer).buf@, domain@, qtype_num, ttl, data_len, old(buffer).pos as int) is Endless),
        ensures
            final(buffer).buf@ == old(buffer).buf@,
            read_as(r, final(buffer).pos as int, parse_rdata(old(buffer).buf@, domain@, qtype_num, ttl, data_len, old(buffer).pos as int)),
    {
        let ghost b = buffer.buf@;
        let ghost p = buffer.pos as int;
        match qtype {
            QueryType::A => {
                let raw_addr = buffer.read_u32()?;
                proof {
                    lemma_u32_octets(raw_addr, b[p], b[p + 1], b[p + 2], b[p + 3]);
                }
                let addr = Ipv4Addr::new(
                    ((raw_addr >> 24) & 0xff) as u8,
                    ((raw_addr >> 16) & 0xff) as u8,
                    ((raw_addr >> 8) & 0xff) as u8,
                    ((raw_addr >> 0) & 0xff) as u8,
                );
                assert(addr.octets@ =~= b.subrange(p, p + 4));
                Ok(DnsRecord::A { domain: domain, addr: addr, ttl: ttl })
            },
            QueryType::NS => {
                let mut ns = String::new();
                proof {
                    lemma_walk_seek(b, p, false, choose|f: nat| !(#[trigger] walk_name(b, p, false, false, f) is Endless));
                }
                buffer.read_qname(&mut ns)?;
                assert(ns@ =~= name_walk(b, p)->text);
                Ok(DnsRecord::NS { domain: domain, host: ns, ttl: ttl })
            },
            QueryType::CNAME => {
                let mut cname = String::new();
                proof {
                    lemma_walk_seek(b, p, false, choose|f: nat| !(#[trigger] walk_name(b, p, false, false, f) is Endless));
                }
                buffer.read_qname(&mut cname)?;
                assert(cname@ =~= name_walk(b, p)->text);
                Ok(DnsRecord::NS { domain: domain, host: cname, ttl: ttl })
            },
            QueryType::MX => {
                let priority = buffer.read_u16()?;
                let mut mx = String::new();
                proof {
                    lemma_walk_seek(b, p + 2, false, choose|f: nat| !(#[trigger] walk_name(b, p + 2, false, false, f) is Endless));
                }
                buffer.read_qname(&mut mx)?;
                assert(mx@ =~= name_walk(b, p + 2)->text);
                Ok(DnsRecord::MX { domain: domain, priority: priority, host: mx, ttl: ttl })
            },
            QueryType::AAAA => {
                let raw_addr1 = buffer.read_u32()?;
                let raw_addr2 = buffer.read_u32()?;
                let raw_addr3 = buffer.read_u32()?;
                let raw_addr4 = buffer.read_u32()?;
                proof {
                    lemma_u32_halves(raw_addr1, be16(b, p), be16(b, p + 2));
                    lemma_u32_halves(raw_addr2, be16(b, p + 4), be16(b, p + 6));
                    lemma_u32_halves(raw_addr3, be16(b, p + 8), be16(b, p + 10));
                    lemma_u32_halves(raw_addr4, be16(b, p + 12), be16(b, p + 14));
                }
                let addr = Ipv6Addr::new(
                    ((raw_addr1 >> 16) & 0xFFFF) as u16,
                    ((raw_addr1 >> 0) & 0xFFFF) as u16,
                    ((raw_addr2 >> 16) & 0xFFFF) as u16,
                    ((raw_addr2 >> 0) & 0xFFFF) as u16,
                    ((raw_addr3 >> 16) & 0xFFFF) as u16,
                    ((raw_addr3 >> 0) & 0xFFFF) as u16,
                    ((raw_addr4 >> 16) & 0xFFFF) as u16,
                    ((raw_addr4 >> 0) & 0xFFFF) as u16,
                );
                assert(addr.segments@ =~= ipv6_at(b, p));
                Ok(DnsRecord::AAAA { domain: domain, addr: addr, ttl: ttl })
            },
            QueryType::UNKOWN(_) => {
                buffer.step(data_len as usize)?;
                Ok(DnsRecord::UNKOWN { domain: domain, qtype: qtype_num, data_len: data_len, ttl: ttl })
            },
        }
    }
}

/// What `write_qname` does with a name given as text.
pub open spec fn name_steps(name: Seq<char>) -> Seq<WStep> {
    byte_steps(encode_name(encode_utf8(name)))
}

/// What writing a record's name, type number, class 1 and time to live does.
pub open spec fn head_steps(domain: Seq<char>, tn: u16, ttl: u32) -> Seq<WStep> {
    name_steps(domain) + u16_steps(tn) + u16_steps(1u16) + u32_steps(ttl)
}

/// `write_u16` of each segment in turn.
pub open spec fn segs_steps(s: Seq<u16>) -> Seq<WStep>
    decreases s.len(),
{
    if s.len() == 0 {
        Seq::empty()
    } else {
        segs_steps(s.drop_last()) + u16_steps(s.last())
    }
}

/// What `DnsRecord::write` writes before the record data (nothing for a
/// record of unknown type, which is skipped).
pub open spec fn record_head(r: RecordView) -> Seq<WStep> {
    match r {
        RecordView::UNKOWN { .. } => Seq::empty(),
        RecordView::A { domain, ttl, .. } => head_steps(domain, 1, ttl),
        RecordView::NS { domain, ttl, .. } => head_steps(domain, 2, ttl),
        RecordView::CNAME { domain, ttl, .. } => head_steps(domain, 5, ttl),
        RecordView::MX { domain, ttl, .. } => head_steps(domain, 15, ttl),
        RecordView::AAAA { domain, ttl, .. } => head_steps(domain, 28, ttl),
    }
}

/// What `DnsRecord::write` writes from the data length on. For NS, CNAME
/// and MX records the data length is first written as a placeholder (the
/// NS type number for NS, zero otherwise) and set once the data is written.
pub open spec fn rdata_steps(r: RecordView) -> Seq<WStep> {
    match r {
        RecordView::UNKOWN { .. } => Seq::empty(),
        RecordView::A { addr, .. } => u16_steps(4) + byte_steps(addr),
        RecordView::NS { host, .. } => u16_steps(2) + name_steps(host),
        RecordView::CNAME { host, .. } => u16_steps(0) + name_steps(host),
        RecordView::MX { priority, host, .. } => u16_steps(0) + u16_steps(priority) + name_steps(host),
        RecordView::AAAA { addr, .. } => u16_steps(16) + segs_steps(addr),
    }
}

/// `write_u16` of the priority, if there is one.
pub open spec fn prio_steps(priority: Option<u16>) -> Seq<WStep> {
    match priority {
        Some(p) => u16_steps(p),
        None => Seq::empty(),
    }
}

pub open spec fn length_patched(r: RecordView) -> bool {
    r is NS || r is CNAME || r is MX
}

/// The state after writing `data` at position `at` as a big-endian 16-bit value.
pub open spec fn patch16(w: WriteState, at: int, data: int) -> WriteState {
    WriteState {
        buf: w.buf.update(at, (data / 256) as u8).update(at + 1, (data % 256) as u8),
        pos: w.pos,
        err: w.err,
    }
}

/// What `DnsRecord::write` does to a buffer in state `st`.
pub open spec fn put_record(st: WriteState, r: RecordView) -> WriteState {
    let h = run(st, record_head(r));
    let w = run(h, rdata_steps(r));
    if length_patched(r) && w.err is None {
        patch16(w, h.pos, w.pos - h.pos - 2)
    } else {
        w
    }
}

pub open spec fn state_after<T>(b: BytePacketBuffer, r: Result<T, BufferError>) -> WriteState {
    WriteState { buf: b.buf@, pos: b.pos as int, err: err_of(r) }
}

proof fn lemma_segs_prefix(s: Seq<u16>, k: int)
    requires
        0 <= k <= s.len(),
    ensures
        segs_steps(s.take(k)).len() <= segs_steps(s).len(),
        segs_steps(s).subrange(0, segs_steps(s.take(k)).len() as int) == segs_steps(s.take(k)),
    decreases s.len() - k,
{
    if k == s.len() {
        assert(s.take(k) =~= s);
        assert(segs_steps(s).subrange(0, segs_steps(s).len() as int) =~= segs_steps(s));
    } else {
        lemma_segs_prefix(s, k + 1);
        assert(s.take(k + 1).drop_last() =~= s.take(k));
        let a = segs_steps(s.take(k));
        let b = segs_steps(s.take(k + 1));
        assert(b == a + u16_steps(s[k]));
        assert(segs_steps(s).subrange(0, a.len() as int) =~= b.subrange(0, a.len() as int));
        assert(b.subrange(0, a.len() as int) =~= a);
    }
}

impl DnsRecord {
    fn write_head(buffer: &mut BytePacketBuffer, domain: &str, tn: u16, ttl: u32) -> (r: Result<(), BufferError>)
        ensures
            wrote(*old(buffer), *final(buffer), r, head_steps(domain@, tn, ttl)),
    {
        let ghost b0 = *buffer;
        let ghost s1 = name_steps(domain@);
        let ghost s2 = s1 + u16_steps(tn);
        let ghost s3 = s2 + u16_steps(1u16);
        let ghost full = head_steps(domain@, tn, ttl);
        proof {
            assert(full.subrange(0, s3.len() as int) =~= s3);
            assert(full.subrange(0, s2.len() as int) =~= s2);
            assert(full.subrange(0, s1.len() as int) =~= s1);
        }
        let r = buffer.write_qname(domain);
        if r.is_err() {
            proof { lemma_wrote_stop(b0, *buffer, r, s1, full); }
            return r;
        }
        let ghost b1 = *buffer;
        let r = buffer.write_u16(tn);
        proof { lemma_wrote_then(b0, b1, *buffer, r, s1, u16_steps(tn)); }
        if r.is_err() {
            proof { lemma_wrote_stop(b0, *buffer, r, s2, full); }
            return r;
        }
        let ghost b2 = *buffer;
        let r = buffer.write_u16(1);
        proof { lemma_wrote_then(b0, b2, *buffer, r, s2, u16_steps(1u16)); }
        if r.is_err() {
            proof { lemma_wrote_stop(b0, *buffer, r, s3, full); }
            return r;
        }
        let ghost b3 = *buffer;
        let r = buffer.write_u32(ttl);
        proof { lemma_wrote_then(b0, b3, *buffer, r, s3, u32_steps(ttl)); }
        r
    }

    fn write_a(buffer: &mut BytePacketBuffer, domain: &str, addr: &Ipv4Addr, ttl: u32) -> (r: Result<(), BufferError>)
        ensures
            put_record(state_of(*old(buffer)), RecordView::A { domain: domain@, addr: addr.octets@, ttl })
                == state_after(*final(buffer), r),
    {
        let ghost b0 = *buffer;
        let ghost rv = RecordView::A { domain: domain@, addr: addr.octets@, ttl };
        let ghost full = rdata_steps(rv);
        let ghost s1 = u16_steps(4u16);
        let octets = addr.octets();
        let ghost s2 = s1 + seq![WStep::Byte(octets[0])];
        let ghost s3 = s2 + seq![WStep::Byte(octets[1])];
        let ghost s4 = s3 + seq![WStep::Byte(octets[2])];
        proof {
            assert(full =~= s4 + seq![WStep::Byte(octets[3])]);
            assert(full.subrange(0, s4.len() as int) =~= s4);
            assert(full.subrange(0, s3.len() as int) =~= s3);
            assert(full.subrange(0, s2.len() as int) =~= s2);
            assert(full.subrange(0, s1.len() as int) =~= s1);
            lemma_run_append(state_of(b0), record_head(rv), full);
        }
        let r = Self::write_head(buffer, domain, QueryType::A.to_num(), ttl);
        if r.is_err() {
            proof { lemma_run_err(state_after(*buffer, r), full); }
            return r;
        }
        let ghost bh = *buffer;
        let r = buffer.write_u16(4);
        if r.is_err() {
            proof { lemma_wrote_stop(bh, *buffer, r, s1, full); }
            return r;
        }
        let ghost b1 = *buffer;
        let r = buffer.write(octets[0]);
        proof { lemma_wrote_then(bh, b1, *buffer, r, s1, seq![WStep::Byte(octets[0])]); }
        if r.is_err() {
            proof { lemma_wrote_stop(bh, *buffer, r, s2, full); }
            return r;
        }
        let ghost b2 = *buffer;
        let r = buffer.write(octets[1]);
        proof { lemma_wrote_then(bh, b2, *buffer, r, s2, seq![WStep::Byte(octets[1])]); }
        if r.is_err() {
            proof { lemma_wrote_stop(bh, *buffer, r, s3, full); }
            return r;
        }
        let ghost b3 = *buffer;
        let r = buffer.write(octets[2]);
        proof { lemma_wrote_then(bh, b3, *buffer, r, s3, seq![WStep::Byte(octets[2])]); }
        if r.is_err() {
            proof { lemma_wrote_stop(bh, *buffer, r, s4, full); }
            return r;
        }
        let ghost b4 = *buffer;
        let r = buffer.write(octets[3]);
        proof { lemma_wrote_then(bh, b4, *buffer, r, s4, seq![WStep::Byte(octets[3])]); }
        r
    }
    /// Writes a data length placeholder, then (for MX) the priority, then the
    /// host name; then, if all of it was written, sets the data length.
    fn write_patched_rdata(buffer: &mut BytePacketBuffer, placeholder: u16, priority: Option<u16>, host: &str) -> (r: Result<(), BufferError>)
        ensures
            ({
                let h = state_of(*old(buffer));
                let w = run(h, u16_steps(placeholder) + prio_steps(priority) + name_steps(host@));
                state_after(*final(buffer), r) == (if w.err is None {
                    patch16(w, h.pos, w.pos - h.pos - 2)
                } else {
                    w
                })
            }),
    {
        let ghost b0 = *buffer;
        let ghost s1 = u16_steps(placeholder);
        let ghost s2 = s1 + prio_steps(priority);
        let ghost full = s2 + name_steps(host@);
        proof {
            assert(full.subrange(0, s2.len() as int) =~= s2);
            assert(full.subrange(0, s1.len() as int) =~= s1);
        }
        let pos = buffer.pos();
        let r = buffer.write_u16(placeholder);
        if r.is_err() {
            proof { lemma_wrote_stop(b0, *buffer, r, s1, full); }
            return r;
        }
        proof {
            lemma_u16_ok(state_of(b0), placeholder);
        }
        let ghost b1 = *buffer;
        if let Some(p) = priority {
            let r = buffer.write_u16(p);
            proof { lemma_wrote_then(b0, b1, *buffer, r, s1, u16_steps(p)); }
            if r.is_err() {
                proof { lemma_wrote_stop(b0, *buffer, r, s2, full); }
                return r;
            }
        } else {
            assert(s2 =~= s1);
        }
        let ghost b2 = *buffer;
        let r = buffer.write_qname(host);
        proof { lemma_wrote_then(b0, b2, *buffer, r, s2, name_steps(host@)); }
        if r.is_err() {
            return r;
        }
        proof {
            lemma_run_pos(state_of(b1), prio_steps(priority) + name_steps(host@));
            lemma_run_append(state_of(b0), s1, prio_steps(priority) + name_steps(host@));
            assert(full == s1 + (prio_steps(priority) + name_steps(host@)));
        }
        let size = buffer.pos() - pos - 2;
        let _ = buffer.set_u16(pos, size as u16);
        Ok(())
    }

    fn write_ns(buffer: &mut BytePacketBuffer, domain: &str, host: &str, ttl: u32) -> (r: Result<(), BufferError>)
        ensures
            put_record(state_of(*old(buffer)), RecordView::NS { domain: domain@, host: host@, ttl })
                == state_after(*final(buffer), r),
    {
        let ghost rv = RecordView::NS { domain: domain@, host: host@, ttl };
        let r = Self::write_head(buffer, domain, QueryType::NS.to_num(), ttl);
        if r.is_err() {
            proof { lemma_run_err(state_after(*buffer, r), rdata_steps(rv)); }
            return r;
        }
        proof {
            assert(rdata_steps(rv) =~= u16_steps(2) + prio_steps(None) + name_steps(host@));
        }
        Self::write_patched_rdata(buffer, QueryType::NS.to_num(), None, host)
    }

    fn write_cname(buffer: &mut BytePacketBuffer, domain: &str, host: &str, ttl: u32) -> (r: Result<(), BufferError>)
        ensures
            put_record(state_of(*old(buffer)), RecordView::CNAME { domain: domain@, host: host@, ttl })
                == state_after(*final(buffer), r),
    {
        let ghost rv = RecordView::CNAME { domain: domain@, host: host@, ttl };
        let r = Self::write_head(buffer, domain, QueryType::CNAME.to_num(), ttl);
        if r.is_err() {
            proof { lemma_run_err(state_after(*buffer, r), rdata_steps(rv)); }
            return r;
        }
        proof {
            assert(rdata_steps(rv) =~= u16_steps(0) + prio_steps(None) + name_steps(host@));
        }
        Self::write_patched_rdata(buffer, 0, None, host)
    }

    fn write_mx(buffer: &mut BytePacketBuffer, domain: &str, priority: u16, host: &str, ttl: u32) -> (r: Result<(), BufferError>)
        ensures
            put_record(state_of(*old(buffer)), RecordView::MX { domain: domain@, priority, host: host@, ttl })
                == state_after(*final(buffer), r),
    {
        let ghost rv = RecordView::MX { domain: domain@, priority, host: host@, ttl };
        let r = Self::write_head(buffer, domain, QueryType::MX.to_num(), ttl);
        if r.is_err() {
            proof { lemma_run_err(state_after(*buffer, r), rdata_steps(rv)); }
            return r;
        }
        proof {
            assert(rdata_steps(rv) =~= u16_steps(0) + prio_steps(Some(priority)) + name_steps(host@));
        }
        Self::write_patched_rdata(buffer, 0, Some(priority), host)
    }

    fn write_aaaa(buffer: &mut BytePacketBuffer, domain: &str, addr: &Ipv6Addr, ttl: u32) -> (r: Result<(), BufferError>)
        ensures
            put_record(state_of(*old(buffer)), RecordView::AAAA { domain: domain@, addr: addr.segments@, ttl })
                == state_after(*final(buffer), r),
    {
        let ghost rv = RecordView::AAAA { domain: domain@, addr: addr.segments@, ttl };
        let ghost full = rdata_steps(rv);
        let r = Self::write_head(buffer, domain, QueryType::AAAA.to_num(), ttl);
        if r.is_err() {
            proof { lemma_run_err(state_after(*buffer, r), full); }
            return r;
        }
        let ghost bh = *buffer;
        let ghost s1 = u16_steps(16u16);
        let r = buffer.write_u16(16);
        if r.is_err() {
            proof {
                assert(full.subrange(0, s1.len() as int) =~= s1);
                lemma_wrote_stop(bh, *buffer, r, s1, full);
            }
            return r;
        }
        let ghost b1 = *buffer;
        let segments = addr.segments();
        let r = Self::write_segments(buffer, &segments);
        proof {
            lemma_wrote_then(bh, b1, *buffer, r, s1, segs_steps(segments@));
        }
        r
    }

    /// `write_u16` of each segment in turn.
    fn write_segments(buffer: &mut BytePacketBuffer, segments: &[u16; 8]) -> (r: Result<(), BufferError>)
        ensures
            wrote(*old(buffer), *final(buffer), r, segs_steps(segments@)),
    {
        let ghost b0 = *buffer;
        let ghost segs = segments@;
        let mut i: usize = 0;
        proof {
            assert(segs.take(0) =~= Seq::<u16>::empty());
            assert(run(state_of(b0), Seq::<WStep>::empty()) == state_of(b0));
        }
        while i < 8
            invariant
                0 <= i <= 8,
                segs == segments@,
                segs.len() == 8,
                state_of(b0) == state_of(*old(buffer)),
                wrote(b0, *buffer, Ok::<(), BufferError>(()), segs_steps(segs.take(i as int))),
            decreases 8 - i,
        {
            let ghost bi = *buffer;
            let r = buffer.write_u16(segments[i]);
            proof {
                assert(segs.take(i + 1).drop_last() =~= segs.take(i as int));
                lemma_wrote_then(b0, bi, *buffer, r, segs_steps(segs.take(i as int)), u16_steps(segs[i as int]));
            }
            if r.is_err() {
                proof {
                    lemma_segs_prefix(segs, i + 1);
                    lemma_wrote_stop(b0, *buffer, r, segs_steps(segs.take(i + 1)), segs_steps(segs));
                }
                return r;
            }
            i += 1;
        }
        proof {
            assert(segs.take(8) =~= segs);
        }
        Ok(())
    }

    /// Writes the record at the cursor. A record of unknown type is skipped.
    pub fn write(&self, buffer: &mut BytePacketBuffer) -> (r: Result<(), BufferError>)
        ensures
            put_record(state_of(*old(buffer)), self@) == state_after(*final(buffer), r),
    {
        match self {
            DnsRecord::A { domain, addr, ttl } => Self::write_a(buffer, domain.as_str(), addr, *ttl),
            DnsRecord::NS { domain, host, ttl } => Self::write_ns(buffer, domain.as_str(), host.as_str(), *ttl),
            DnsRecord::CNAME { domain, host, ttl } => Self::write_cname(buffer, domain.as_str(), host.as_str(), *ttl),
            DnsRecord::MX { domain, priority, host, ttl } => Self::write_mx(
                buffer,
                domain.as_str(),
                *priority,
                host.as_str(),
                *ttl,
            ),
            DnsRecord::AAAA { domain, addr, ttl } => Self::write_aaaa(buffer, domain.as_str(), addr, *ttl),
            DnsRecord::UNKOWN { .. } => Ok(()),
        }
    }
}

} // verus!
