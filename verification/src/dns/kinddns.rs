use vstd::prelude::*;
use crate::bytepacketbuffer::{
    lemma_run_err, read_end, run, state_of, BufferError, BytePacketBuffer, WriteState,
};
use crate::dns::{
    avail, header_read_from, header_steps, new_header, parse_question, parse_record, put_record,
    question_steps, read_as, state_after, DnsHeader, DnsQuestion, DnsRecord, Parsed, QueryType,
    QuestionView, RecordView,
};

verus! {

#[derive(Clone, Debug)]
pub struct DnsPacket {
    pub header: DnsHeader,
    pub questions: Vec<DnsQuestion>,
    pub answers: Vec<DnsRecord>,
    pub authorities: Vec<DnsRecord>,
    pub resources: Vec<DnsRecord>,
}

/// A packet with its questions and records as views.
pub struct PacketView {
    pub header: DnsHeader,
    pub questions: Seq<QuestionView>,
    pub answers: Seq<RecordView>,
    pub authorities: Seq<RecordView>,
    pub resources: Seq<RecordView>,
}

pub open spec fn questions_view(qs: Seq<DnsQuestion>) -> Seq<QuestionView> {
    qs.map_values(|q: DnsQuestion| q@)
}

pub open spec fn records_view(rs: Seq<DnsRecord>) -> Seq<RecordView> {
    rs.map_values(|r: DnsRecord| r@)
}

impl View for DnsPacket {
    type V = PacketView;

    open spec fn view(&self) -> PacketView {
        PacketView {
            header: self.header,
            questions: questions_view(self.questions@),
            answers: records_view(self.answers@),
            authorities: records_view(self.authorities@),
            resources: records_view(self.resources@),
        }
    }
}

/// Reading `n` questions one after the other from `pos`.
pub open spec fn parse_questions(buf: Seq<u8>, pos: int, n: nat) -> Parsed<Seq<QuestionView>>
    decreases n,
{
    if n == 0 {
        Parsed::Got(Seq::empty(), pos)
    } else {
        match parse_questions(buf, pos, (n - 1) as nat) {
            Parsed::Got(qs, p) => match parse_question(buf, p) {
                Parsed::Got(q, p2) => Parsed::Got(qs.push(q), p2),
                Parsed::Fail(e, p2) => Parsed::Fail(e, p2),
                Parsed::Endless => Parsed::Endless,
            },
            Parsed::Fail(e, p) => Parsed::Fail(e, p),
            Parsed::Endless => Parsed::Endless,
        }
    }
}

/// Reading `n` resource records one after the other from `pos`.
pub open spec fn parse_records(buf: Seq<u8>, pos: int, n: nat) -> Parsed<Seq<RecordView>>
    decreases n,
{
    if n == 0 {
        Parsed::Got(Seq::empty(), pos)
    } else {
        match parse_records(buf, pos, (n - 1) as nat) {
            Parsed::Got(rs, p) => match parse_record(buf, p) {
                Parsed::Got(r, p2) => Parsed::Got(rs.push(r), p2),
                Parsed::Fail(e, p2) => Parsed::Fail(e, p2),
                Parsed::Endless => Parsed::Endless,
            },
            Parsed::Fail(e, p) => Parsed::Fail(e, p),
            Parsed::Endless => Parsed::Endless,
        }
    }
}

/// Reading the sections of a packet whose header `h` has been read, from `pos`.
pub open spec fn parse_sections(buf: Seq<u8>, h: DnsHeader, pos: int) -> Parsed<PacketView> {
    match parse_questions(buf, pos, h.questions as nat) {
        Parsed::Got(qs, p1) => match parse_records(buf, p1, h.answers as nat) {
            Parsed::Got(ans, p2) => match parse_records(buf, p2, h.authority_rrs as nat) {
                Parsed::Got(auth, p3) => match parse_records(buf, p3, h.additional_rrs as nat) {
                    Parsed::Got(res, p4) => Parsed::Got(
                        PacketView { header: h, questions: qs, answers: ans, authorities: auth, resources: res },
                        p4,
                    ),
                    Parsed::Fail(e, p) => Parsed::Fail(e, p),
                    Parsed::Endless => Parsed::Endless,
                },
                Parsed::Fail(e, p) => Parsed::Fail(e, p),
                Parsed::Endless => Parsed::Endless,
            },
            Parsed::Fail(e, p) => Parsed::Fail(e, p),
            Parsed::Endless => Parsed::Endless,
        },
        Parsed::Fail(e, p) => Parsed::Fail(e, p),
        Parsed::Endless => Parsed::Endless,
    }
}

/// Reading a packet at `pos` with `DnsPacket::from_buffer`: the header, then
/// as many questions, answers, authority and additional records as it counts.
pub open spec fn parse_packet(buf: Seq<u8>, pos: int) -> Parsed<PacketView> {
    if pos + 12 <= 512 {
        parse_sections(buf, header_read_from(new_header(), buf.subrange(pos, pos + 12)), pos + 12)
    } else {
        Parsed::Fail(BufferError::EndOfBufferToRead, read_end(pos, 12))
    }
}

/// Once reading the first `i` of `n` questions has not ended with values,
/// reading all `n` ends the same way.
pub proof fn lemma_questions_stop(buf: Seq<u8>, pos: int, i: nat, n: nat)
    requires
        i <= n,
        !(parse_questions(buf, pos, i) is Got),
    ensures
        parse_questions(buf, pos, n) == parse_questions(buf, pos, i),
    decreases n,
{
    if n > i {
        lemma_questions_stop(buf, pos, i, (n - 1) as nat);
    }
}

/// Once reading the first `i` of `n` records has not ended with values,
/// reading all `n` ends the same way.
pub proof fn lemma_records_stop(buf: Seq<u8>, pos: int, i: nat, n: nat)
    requires
        i <= n,
        !(parse_records(buf, pos, i) is Got),
    ensures
        parse_records(buf, pos, n) == parse_records(buf, pos, i),
    decreases n,
{
    if n > i {
        lemma_records_stop(buf, pos, i, (n - 1) as nat);
    }
}

/// What writing the questions one after the other does.
pub open spec fn put_questions(st: WriteState, qs: Seq<QuestionView>) -> WriteState
    decreases qs.len(),
{
    if qs.len() == 0 {
        st
    } else {
        run(put_questions(st, qs.drop_last()), question_steps(qs.last().name, qs.last().qtype))
    }
}

/// What writing the records one after the other does.
pub open spec fn put_records(st: WriteState, rs: Seq<RecordView>) -> WriteState
    decreases rs.len(),
{
    if rs.len() == 0 {
        st
    } else {
        put_record(put_records(st, rs.drop_last()), rs.last())
    }
}

/// The header that `DnsPacket::write` writes: the packet's header with its
/// four counts set to the lengths of the sections (truncated to 16 bits).
pub open spec fn counted_header(p: PacketView) -> DnsHeader {
    DnsHeader {
        questions: p.questions.len() as u16,
        answers: p.answers.len() as u16,
        authority_rrs: p.authorities.len() as u16,
        additional_rrs: p.resources.len() as u16,
        ..p.header
    }
}

/// What `DnsPacket::write` does: the counted header, then each question,
/// answer, authority and additional record in turn.
pub open spec fn put_packet(st: WriteState, p: PacketView) -> WriteState {
    put_records(
        put_records(put_records(put_questions(run(st, header_steps(counted_header(p))), p.questions), p.answers), p.authorities),
        p.resources,
    )
}

pub proof fn lemma_put_record_err(st: WriteState, r: RecordView)
    requires
        st.err is Some,
    ensures
        put_record(st, r) == st,
{
    lemma_run_err(st, crate::dns::record_head(r));
    lemma_run_err(st, crate::dns::rdata_steps(r));
}

/// Once writing the first `k` questions has failed, writing all of them ends the same way.
pub proof fn lemma_put_questions_stop(st: WriteState, qs: Seq<QuestionView>, k: int)
    requires
        0 <= k <= qs.len(),
        put_questions(st, qs.take(k)).err is Some,
    ensures
        put_questions(st, qs) == put_questions(st, qs.take(k)),
    decreases qs.len(),
{
    if qs.len() == k {
        assert(qs.take(k) =~= qs);
    } else {
        assert(qs.drop_last().take(k) =~= qs.take(k));
        lemma_put_questions_stop(st, qs.drop_last(), k);
        lemma_run_err(put_questions(st, qs.drop_last()), question_steps(qs.last().name, qs.last().qtype));
    }
}

/// Once writing the first `k` records has failed, writing all of them ends the same way.
pub proof fn lemma_put_records_stop(st: WriteState, rs: Seq<RecordView>, k: int)
    requires
        0 <= k <= rs.len(),
        put_records(st, rs.take(k)).err is Some,
    ensures
        put_records(st, rs) == put_records(st, rs.take(k)),
    decreases rs.len(),
{
    if rs.len() == k {
        assert(rs.take(k) =~= rs);
    } else {
        assert(rs.drop_last().take(k) =~= rs.take(k));
        lemma_put_records_stop(st, rs.drop_last(), k);
        lemma_put_record_err(put_records(st, rs.drop_last()), rs.last());
    }
}

pub open spec fn questions_read_as(r: Result<Vec<DnsQuestion>, BufferError>, pos: int, p: Parsed<Seq<QuestionView>>) -> bool {
    match p {
        Parsed::Got(v, p2) => r matches Ok(x) && questions_view(x@) == v && pos == p2,
        Parsed::Fail(e, p2) => r == Err::<Vec<DnsQuestion>, BufferError>(e) && pos == p2,
        Parsed::Endless => false,
    }
}

pub open spec fn records_read_as(r: Result<Vec<DnsRecord>, BufferError>, pos: int, p: Parsed<Seq<RecordView>>) -> bool {
    match p {
        Parsed::Got(v, p2) => r matches Ok(x) && records_view(x@) == v && pos == p2,
        Parsed::Fail(e, p2) => r == Err::<Vec<DnsRecord>, BufferError>(e) && pos == p2,
        Parsed::Endless => false,
    }
}

pub open spec fn new_packet() -> PacketView {
    PacketView {
        header: new_header(),
        questions: Seq::empty(),
        answers: Seq::empty(),
        authorities: Seq::empty(),
        resources: Seq::empty(),
    }
}

impl DnsPacket {
    pub fn new() -> (r: DnsPacket)
        ensures
            r@ == new_packet(),
    {
        let r = DnsPacket {
            header: DnsHeader::new(),
            questions: Vec::new(),
            answers: Vec::new(),
            authorities: Vec::new(),
            resources: Vec::new(),
        };
        assert(r@.questions =~= Seq::<QuestionView>::empty());
        assert(r@.answers =~= Seq::<RecordView>::empty());
        assert(r@.authorities =~= Seq::<RecordView>::empty());
        assert(r@.resources =~= Seq::<RecordView>::empty());
        r
    }

    /// Reads a whole packet at the cursor: the header, then as many
    /// questions, answers, authority and additional records as it counts.
    pub fn from_buffer(buffer: &mut BytePacketBuffer) -> (r: Result<DnsPacket, BufferError>)
        requires
            !(parse_packet(old(buffer).buf@, old(buffer).pos as int) is Endless),
        ensures
            final(buffer).buf@ == old(buffer).buf@,
            read_as(r, final(buffer).pos as int, parse_packet(old(buffer).buf@, old(buffer).pos as int)),
    {
        let ghost b = buffer.buf@;
        let ghost p = buffer.pos as int;
        let mut result = DnsPacket::new();
        proof {
            if p + 12 <= 512 {
                assert(avail(b, p, 12) == b.subrange(p, p + 12));
            }
        }
        result.header.read(buffer)?;
        result.questions = Self::read_questions(buffer, result.header.questions)?;
        result.answers = Self::read_records(buffer, result.header.answers)?;
        result.authorities = Self::read_records(buffer, result.header.authority_rrs)?;
        result.resources = Self::read_records(buffer, result.header.additional_rrs)?;
        Ok(result)
    }

    fn read_questions(buffer: &mut BytePacketBuffer, n: u16) -> (r: Result<Vec<DnsQuestion>, BufferError>)
        requires
            !(parse_questions(old(buffer).buf@, old(buffer).pos as int, n as nat) is Endless),
        ensures
            final(buffer).buf@ == old(buffer).buf@,
            questions_read_as(r, final(buffer).pos as int, parse_questions(old(buffer).buf@, old(buffer).pos as int, n as nat)),
    {
        let ghost b = buffer.buf@;
        let ghost p0 = buffer.pos as int;
        let mut questions: Vec<DnsQuestion> = Vec::new();
        let mut i: u16 = 0;
        assert(questions_view(questions@) =~= Seq::<QuestionView>::empty());
        while i < n
            invariant
                i <= n,
                buffer.buf@ == b,
                b == old(buffer).buf@,
                p0 == old(buffer).pos,
                !(parse_questions(b, p0, n as nat) is Endless),
                parse_questions(b, p0, i as nat) == Parsed::Got(questions_view(questions@), buffer.pos as int),
            decreases n - i,
        {
            let ghost pos = buffer.pos as int;
            proof {
                if parse_question(b, pos) is Endless {
                    lemma_questions_stop(b, p0, (i + 1) as nat, n as nat);
                }
            }
            let mut question = DnsQuestion::new(String::new(), QueryType::UNKOWN(0));
            let r = question.read(buffer);
            match r {
                Ok(()) => {},
                Err(e) => {
                    proof {
                        lemma_questions_stop(b, p0, (i + 1) as nat, n as nat);
                    }
                    return Err(e);
                },
            }
            proof {
                assert(question.name@ =~= parse_question(b, pos)->Got_0.name);
            }
            let ghost qs0 = questions@;
            questions.push(question);
            proof {
                assert(questions_view(questions@) =~= questions_view(qs0).push(question@));
            }
            i += 1;
        }
        Ok(questions)
    }

    fn read_records(buffer: &mut BytePacketBuffer, n: u16) -> (r: Result<Vec<DnsRecord>, BufferError>)
        requires
            !(parse_records(old(buffer).buf@, old(buffer).pos as int, n as nat) is Endless),
        ensures
            final(buffer).buf@ == old(buffer).buf@,
            records_read_as(r, final(buffer).pos as int, parse_records(old(buffer).buf@, old(buffer).pos as int, n as nat)),
    {
        let ghost b = buffer.buf@;
        let ghost p0 = buffer.pos as int;
        let mut records: Vec<DnsRecord> = Vec::new();
        let mut i: u16 = 0;
        assert(records_view(records@) =~= Seq::<RecordView>::empty());
        while i < n
            invariant
                i <= n,
                buffer.buf@ == b,
                b == old(buffer).buf@,
                p0 == old(buffer).pos,
                !(parse_records(b, p0, n as nat) is Endless),
                parse_records(b, p0, i as nat) == Parsed::Got(records_view(records@), buffer.pos as int),
            decreases n - i,
        {
            let ghost pos = buffer.pos as int;
            proof {
                if parse_record(b, pos) is Endless {
                    lemma_records_stop(b, p0, (i + 1) as nat, n as nat);
                }
            }
            let r = DnsRecord::read(buffer);
            match r {
                Ok(rec) => {
                    let ghost rs0 = records@;
                    records.push(rec);
                    proof {
                        assert(records_view(records@) =~= records_view(rs0).push(rec@));
                    }
                },
                Err(e) => {
                    proof {
                        lemma_records_stop(b, p0, (i + 1) as nat, n as nat);
                    }
                    return Err(e);
                },
            }
            i += 1;
        }
        Ok(records)
    }
    fn write_questions(questions: &Vec<DnsQuestion>, buffer: &mut BytePacketBuffer) -> (r: Result<(), BufferError>)
        ensures
            put_questions(state_of(*old(buffer)), questions_view(questions@)) == state_after(*final(buffer), r),
    {
        let ghost st0 = state_of(*buffer);
        let ghost qv = questions_view(questions@);
        let mut i: usize = 0;
        assert(qv.take(0) =~= Seq::<QuestionView>::empty());
        while i < questions.len()
            invariant
                i <= questions.len(),
                qv == questions_view(questions@),
                st0 == state_of(*old(buffer)),
                put_questions(st0, qv.take(i as int)) == state_of(*buffer),
            decreases questions.len() - i,
        {
            proof {
                assert(qv.take(i + 1).drop_last() =~= qv.take(i as int));
                assert(qv.take(i + 1).last() == questions@[i as int]@);
            }
            let r = questions[i].write(buffer);
            if r.is_err() {
                proof {
                    lemma_put_questions_stop(st0, qv, i + 1);
                }
                return r;
            }
            i += 1;
        }
        assert(qv.take(i as int) =~= qv);
        Ok(())
    }

    fn write_records(records: &Vec<DnsRecord>, buffer: &mut BytePacketBuffer) -> (r: Result<(), BufferError>)
        ensures
            put_records(state_of(*old(buffer)), records_view(records@)) == state_after(*final(buffer), r),
    {
        let ghost st0 = state_of(*buffer);
        let ghost rv = records_view(records@);
        let mut i: usize = 0;
        assert(rv.take(0) =~= Seq::<RecordView>::empty());
        while i < records.len()
            invariant
                i <= records.len(),
                rv == records_view(records@),
                st0 == state_of(*old(buffer)),
                put_records(st0, rv.take(i as int)) == state_of(*buffer),
            decreases records.len() - i,
        {
            proof {
                assert(rv.take(i + 1).drop_last() =~= rv.take(i as int));
                assert(rv.take(i + 1).last() == records@[i as int]@);
            }
            let r = records[i].write(buffer);
            if r.is_err() {
                proof {
                    lemma_put_records_stop(st0, rv, i + 1);
                }
                return r;
            }
            i += 1;
        }
        assert(rv.take(i as int) =~= rv);
        Ok(())
    }

    /// Writes the packet at the cursor, after setting the header's four
    /// counts to the lengths of the sections.
    pub fn write(&mut self, buffer: &mut BytePacketBuffer) -> (r: Result<(), BufferError>)
        ensures
            final(self).header == counted_header(old(self)@),
            final(self).questions == old(self).questions,
            final(self).answers == old(self).answers,
            final(self).authorities == old(self).authorities,
            final(self).resources == old(self).resources,
            put_packet(state_of(*old(buffer)), old(self)@) == state_after(*final(buffer), r),
    {
        let ghost pv = self@;
        let ghost st0 = state_of(*buffer);
        self.header.questions = self.questions.len() as u16;
        self.header.answers = self.answers.len() as u16;
        self.header.authority_rrs = self.authorities.len() as u16;
        self.header.additional_rrs = self.resources.len() as u16;
        let ghost s1 = run(st0, header_steps(counted_header(pv)));
        let ghost s2 = put_questions(s1, pv.questions);
        let ghost s3 = put_records(s2, pv.answers);
        let ghost s4 = put_records(s3, pv.authorities);
        let r = self.header.write(buffer);
        if r.is_err() {
            proof {
                lemma_put_questions_stop(s1, pv.questions, 0);
                lemma_put_records_stop(s2, pv.answers, 0);
                lemma_put_records_stop(s3, pv.authorities, 0);
                lemma_put_records_stop(s4, pv.resources, 0);
            }
            return r;
        }
        let r = Self::write_questions(&self.questions, buffer);
        if r.is_err() {
            proof {
                lemma_put_records_stop(s2, pv.answers, 0);
                lemma_put_records_stop(s3, pv.authorities, 0);
                lemma_put_records_stop(s4, pv.resources, 0);
            }
            return r;
        }
        let r = Self::write_records(&self.answers, buffer);
        if r.is_err() {
            proof {
                lemma_put_records_stop(s3, pv.authorities, 0);
                lemma_put_records_stop(s4, pv.resources, 0);
            }
            return r;
        }
        let r = Self::write_records(&self.authorities, buffer);
        if r.is_err() {
            proof {
                lemma_put_records_stop(s4, pv.resources, 0);
            }
            return r;
        }
        Self::write_records(&self.resources, buffer)
    }
}

} // verus!
