use vstd::prelude::*;
use crate::byte_packet_buffer::BytePacketBuffer;
use crate::dns_header::DnsHeader;
use crate::dns_question::{DnsQuestion, QuestionView};
use crate::dns_record::{DnsRecord, RecordView};
use crate::error::DnsError;
use crate::query_type::QueryType;
use crate::wire::{lemma_attempt_step, Attempt, Parse};

verus! {

/// A whole message: the header and the four sections.
#[derive(Clone, Debug)]
pub struct DnsPacket {
    pub header: DnsHeader,
    pub questions: Vec<DnsQuestion>,
    pub answers: Vec<DnsRecord>,
    pub authorities: Vec<DnsRecord>,
    pub resources: Vec<DnsRecord>,
}

/// A message as a value.
pub struct PacketView {
    pub header: DnsHeader,
    pub questions: Seq<QuestionView>,
    pub answers: Seq<RecordView>,
    pub authorities: Seq<RecordView>,
    pub resources: Seq<RecordView>,
}

/// The questions of a section as values.
pub open spec fn question_views(questions: Seq<DnsQuestion>) -> Seq<QuestionView> {
    questions.map_values(|q: DnsQuestion| q@)
}

/// The records of a section as values.
pub open spec fn record_views(records: Seq<DnsRecord>) -> Seq<RecordView> {
    records.map_values(|r: DnsRecord| r@)
}

impl View for DnsPacket {
    type V = PacketView;

    open spec fn view(&self) -> PacketView {
        PacketView {
            header: self.header,
            questions: question_views(self.questions@),
            answers: record_views(self.answers@),
            authorities: record_views(self.authorities@),
            resources: record_views(self.resources@),
        }
    }
}

/// The `count` questions that stand in `buf` from `pos` on, one behind the
/// other. The reading ends at the first that fails.
pub open spec fn questions_at(buf: Seq<u8>, pos: int, count: nat) -> Parse<Seq<QuestionView>>
    decreases count,
{
    if count == 0 {
        Parse { value: Ok(Seq::empty()), end: pos }
    } else {
        let first = QuestionView::parse(buf, pos);
        match first.value {
            Ok(question) => questions_at(buf, first.end, (count - 1) as nat).after(seq![question]),
            Err(e) => Parse { value: Err(e), end: first.end },
        }
    }
}

/// The `count` records that stand in `buf` from `pos` on, one behind the
/// other. The reading ends at the first that fails.
pub open spec fn records_at(buf: Seq<u8>, pos: int, count: nat) -> Parse<Seq<RecordView>>
    decreases count,
{
    if count == 0 {
        Parse { value: Ok(Seq::empty()), end: pos }
    } else {
        let first = RecordView::parse(buf, pos);
        match first.value {
            Ok(record) => records_at(buf, first.end, (count - 1) as nat).after(seq![record]),
            Err(e) => Parse { value: Err(e), end: first.end },
        }
    }
}

/// The writing of the questions of a section, one behind the other.
pub open spec fn questions_attempt(questions: Seq<QuestionView>) -> Attempt
    decreases questions.len(),
{
    if questions.len() == 0 {
        Attempt::whole(Seq::empty())
    } else {
        questions[0].attempt().followed_by(questions_attempt(questions.skip(1)))
    }
}

/// The writing of the records of a section, one behind the other.
pub open spec fn records_attempt(records: Seq<RecordView>) -> Attempt
    decreases records.len(),
{
    if records.len() == 0 {
        Attempt::whole(Seq::empty())
    } else {
        records[0].attempt().followed_by(records_attempt(records.skip(1)))
    }
}

/// The number of entries of a section as the header holds it.
pub open spec fn section_count(len: nat) -> u16 {
    (len % 0x10000) as u16
}

impl PacketView {
    /// This message with the numbers in its header set to the lengths of
    /// its sections.
    pub open spec fn counted(self) -> PacketView {
        PacketView {
            header: DnsHeader {
                questions: section_count(self.questions.len()),
                answers: section_count(self.answers.len()),
                authoritative_entries: section_count(self.authorities.len()),
                resource_entries: section_count(self.resources.len()),
                ..self.header
            },
            ..self
        }
    }

    /// The writing of this message: the header, then the questions, the
    /// answers, the authorities and the additional records.
    pub open spec fn attempt(self) -> Attempt {
        Attempt::whole(self.header.wire()).followed_by(
            questions_attempt(self.questions).followed_by(
                records_attempt(self.answers).followed_by(
                    records_attempt(self.authorities).followed_by(
                        records_attempt(self.resources),
                    ),
                ),
            ),
        )
    }

    /// The message that stands in `buf` at `pos`: the header, then as many
    /// questions, answers, authorities and additional records as the header
    /// says. Reading ends at the first part that fails, and leaves the
    /// position where the reading of that part left it.
    #[verifier::opaque]
    pub open spec fn parse(buf: Seq<u8>, pos: int) -> Parse<PacketView> {
        let header = DnsHeader::parse(buf, pos);
        let questions = questions_at(buf, pos + 12, header.questions as nat);
        let answers = records_at(buf, questions.end, header.answers as nat);
        let authorities = records_at(buf, answers.end, header.authoritative_entries as nat);
        let resources = records_at(buf, authorities.end, header.resource_entries as nat);
        if pos + 12 > 512 {
            Parse { value: Err(DnsError::OutOfBounds), end: pos }
        } else if questions.value is Err {
            Parse { value: Err(questions.value->Err_0), end: questions.end }
        } else if answers.value is Err {
            Parse { value: Err(answers.value->Err_0), end: answers.end }
        } else if authorities.value is Err {
            Parse { value: Err(authorities.value->Err_0), end: authorities.end }
        } else if resources.value is Err {
            Parse { value: Err(resources.value->Err_0), end: resources.end }
        } else {
            Parse {
                value: Ok(
                    PacketView {
                        header,
                        questions: questions.value->Ok_0,
                        answers: answers.value->Ok_0,
                        authorities: authorities.value->Ok_0,
                        resources: resources.value->Ok_0,
                    },
                ),
                end: resources.end,
            }
        }
    }
}

/// Reads `count` questions at the buffer's position.
fn read_questions(buffer: &mut BytePacketBuffer, count: u16) -> (res: Result<
    Vec<DnsQuestion>,
    DnsError,
>)
    ensures
        old(buffer).wf() ==> final(buffer).wf(),
        final(buffer).buf@ == old(buffer).buf@,
        final(buffer).pos == questions_at(
            old(buffer).buf@,
            old(buffer).pos as int,
            count as nat,
        ).end,
        match res {
            Ok(questions) => questions@.len() == count && questions_at(
                old(buffer).buf@,
                old(buffer).pos as int,
                count as nat,
            ).value == Ok::<Seq<QuestionView>, DnsError>(question_views(questions@)),
            Err(e) => questions_at(old(buffer).buf@, old(buffer).pos as int, count as nat).value
                == Err::<Seq<QuestionView>, DnsError>(e),
        },
{
    let mut questions: Vec<DnsQuestion> = Vec::new();
    let mut i: u16 = 0;
    let ghost goal = questions_at(buffer.buf@, buffer.pos as int, count as nat);
    assert(Seq::<QuestionView>::empty() + Seq::<QuestionView>::empty() =~= Seq::<
        QuestionView,
    >::empty());
    assert(question_views(questions@) =~= Seq::<QuestionView>::empty());
    while i < count
        invariant
            i <= count,
            questions@.len() == i,
            buffer.buf@ == old(buffer).buf@,
            old(buffer).wf() ==> buffer.wf(),
            goal == questions_at(old(buffer).buf@, old(buffer).pos as int, count as nat),
            goal == questions_at(buffer.buf@, buffer.pos as int, (count - i) as nat).after(
                question_views(questions@),
            ),
        decreases count - i,
    {
        let ghost done = question_views(questions@);
        let ghost here = buffer.pos as int;
        let mut question = DnsQuestion::new(String::new(), QueryType::UNKNOWN(0));
        question.read(buffer)?;
        questions.push(question);
        proof {
            let first = QuestionView::parse(buffer.buf@, here);
            let rest = questions_at(buffer.buf@, first.end, (count - i - 1) as nat);
            assert(question.name@ =~= first.value->Ok_0.name);
            assert(question@ == first.value->Ok_0);
            assert(question_views(questions@) =~= done.push(question@));
            if rest.value is Ok {
                assert(done + (seq![question@] + rest.value->Ok_0) =~= done.push(question@)
                    + rest.value->Ok_0);
            }
        }
        i += 1;
    }
    assert(question_views(questions@) + Seq::<QuestionView>::empty() =~= question_views(
        questions@,
    ));
    Ok(questions)
}

/// Reads `count` records at the buffer's position.
fn read_records(buffer: &mut BytePacketBuffer, count: u16) -> (res: Result<
    Vec<DnsRecord>,
    DnsError,
>)
    ensures
        old(buffer).wf() ==> final(buffer).wf(),
        final(buffer).buf@ == old(buffer).buf@,
        final(buffer).pos == records_at(old(buffer).buf@, old(buffer).pos as int, count as nat).end,
        match res {
            Ok(records) => records@.len() == count && records_at(
                old(buffer).buf@,
                old(buffer).pos as int,
                count as nat,
            ).value == Ok::<Seq<RecordView>, DnsError>(record_views(records@)),
            Err(e) => records_at(old(buffer).buf@, old(buffer).pos as int, count as nat).value
                == Err::<Seq<RecordView>, DnsError>(e),
        },
{
    let mut records: Vec<DnsRecord> = Vec::new();
    let mut i: u16 = 0;
    let ghost goal = records_at(buffer.buf@, buffer.pos as int, count as nat);
    assert(Seq::<RecordView>::empty() + Seq::<RecordView>::empty() =~= Seq::<RecordView>::empty());
    assert(record_views(records@) =~= Seq::<RecordView>::empty());
    while i < count
        invariant
            i <= count,
            records@.len() == i,
            buffer.buf@ == old(buffer).buf@,
            old(buffer).wf() ==> buffer.wf(),
            goal == records_at(old(buffer).buf@, old(buffer).pos as int, count as nat),
            goal == records_at(buffer.buf@, buffer.pos as int, (count - i) as nat).after(
                record_views(records@),
            ),
        decreases count - i,
    {
        let ghost done = record_views(records@);
        let ghost here = buffer.pos as int;
        let record = DnsRecord::read(buffer)?;
        proof {
            let first = RecordView::parse(buffer.buf@, here);
            let rest = records_at(buffer.buf@, first.end, (count - i - 1) as nat);
            assert(record_views(records@.push(record)) =~= done.push(record@));
            if rest.value is Ok {
                assert(done + (seq![record@] + rest.value->Ok_0) =~= done.push(record@)
                    + rest.value->Ok_0);
            }
        }
        records.push(record);
        i += 1;
    }
    assert(record_views(records@) + Seq::<RecordView>::empty() =~= record_views(records@));
    Ok(records)
}

/// Writes the questions of a section at the buffer's position, one behind
/// the other, up to the first that cannot be written.
fn write_questions(questions: &Vec<DnsQuestion>, buffer: &mut BytePacketBuffer) -> (res: Result<
    (),
    DnsError,
>)
    ensures
        res == questions_attempt(question_views(questions@)).outcome(old(buffer)),
        res is Ok ==> final(buffer).wrote(
            old(buffer),
            questions_attempt(question_views(questions@)).bytes,
        ),
{
    let ghost views = question_views(questions@);
    let ghost mut done = Attempt::whole(Seq::empty());
    let mut i: usize = 0;
    proof {
        assert(views.skip(0) =~= views);
        assert(done.followed_by(questions_attempt(views)).bytes =~= questions_attempt(views).bytes);
    }
    while i < questions.len()
        invariant
            i <= questions.len(),
            views == question_views(questions@),
            buffer.wrote(old(buffer), done.bytes),
            done.outcome(old(buffer)) is Ok,
            questions_attempt(views) == done.followed_by(questions_attempt(views.skip(i as int))),
        decreases questions.len() - i,
    {
        let ghost mid = *buffer;
        let ghost item = views[i as int].attempt();
        let ghost rest = questions_attempt(views.skip(i + 1));
        let res = questions[i].write(buffer);
        proof {
            assert(views.skip(i as int).skip(1) =~= views.skip(i + 1));
            lemma_attempt_step(*old(buffer), mid, *buffer, done, item, rest);
        }
        if res.is_err() {
            return res;
        }
        proof {
            done = done.followed_by(item);
        }
        i += 1;
    }
    proof {
        assert(done.followed_by(Attempt::whole(Seq::empty())).bytes =~= done.bytes);
    }
    Ok(())
}

/// Writes the records of a section at the buffer's position, one behind
/// the other, up to the first that cannot be written.
fn write_records(records: &Vec<DnsRecord>, buffer: &mut BytePacketBuffer) -> (res: Result<
    (),
    DnsError,
>)
    ensures
        res == records_attempt(record_views(records@)).outcome(old(buffer)),
        res is Ok ==> final(buffer).wrote(
            old(buffer),
            records_attempt(record_views(records@)).bytes,
        ),
{
    let ghost views = record_views(records@);
    let ghost mut done = Attempt::whole(Seq::empty());
    let mut i: usize = 0;
    proof {
        assert(views.skip(0) =~= views);
        assert(done.followed_by(records_attempt(views)).bytes =~= records_attempt(views).bytes);
    }
    while i < records.len()
        invariant
            i <= records.len(),
            views == record_views(records@),
            buffer.wrote(old(buffer), done.bytes),
            done.outcome(old(buffer)) is Ok,
            records_attempt(views) == done.followed_by(records_attempt(views.skip(i as int))),
        decreases records.len() - i,
    {
        let ghost mid = *buffer;
        let ghost item = views[i as int].attempt();
        let ghost rest = records_attempt(views.skip(i + 1));
        let res = records[i].write(buffer);
        proof {
            assert(views.skip(i as int).skip(1) =~= views.skip(i + 1));
            lemma_attempt_step(*old(buffer), mid, *buffer, done, item, rest);
        }
        match res {
            Err(e) => {
                return Err(e);
            },
            Ok(_) => {},
        }
        proof {
            done = done.followed_by(item);
        }
        i += 1;
    }
    proof {
        assert(done.followed_by(Attempt::whole(Seq::empty())).bytes =~= done.bytes);
    }
    Ok(())
}

impl DnsPacket {
    /// A message with a blank header and no entries.
    pub fn new() -> (res: DnsPacket)
        ensures
            res.header == DnsHeader::blank(),
            res.questions@.len() == 0,
            res.answers@.len() == 0,
            res.authorities@.len() == 0,
            res.resources@.len() == 0,
    {
        DnsPacket {
            header: DnsHeader::new(),
            questions: Vec::new(),
            answers: Vec::new(),
            authorities: Vec::new(),
            resources: Vec::new(),
        }
    }

    /// Reads a message at the buffer's position: the header, then each
    /// section with as many entries as the header says. The first entry
    /// that cannot be read fails the whole message. Where not even the
    /// twelve bytes of a header are there, the position stays.
    pub fn from_buffer(buffer: &mut BytePacketBuffer) -> (res: Result<DnsPacket, DnsError>)
        ensures
            old(buffer).wf() ==> final(buffer).wf(),
            final(buffer).buf@ == old(buffer).buf@,
            final(buffer).pos == PacketView::parse(old(buffer).buf@, old(buffer).pos as int).end,
            match res {
                Ok(packet) => PacketView::parse(old(buffer).buf@, old(buffer).pos as int).value
                    == Ok::<PacketView, DnsError>(packet@),
                Err(e) => PacketView::parse(old(buffer).buf@, old(buffer).pos as int).value
                    == Err::<PacketView, DnsError>(e),
            },
            !old(buffer).fits(12) ==> res.is_err() && res.unwrap_err() == DnsError::OutOfBounds
                && *final(buffer) == *old(buffer),
            res matches Ok(packet) ==> {
                &&& packet.header == DnsHeader::parse(old(buffer).buf@, old(buffer).pos as int)
                &&& packet.questions@.len() == packet.header.questions
                &&& packet.answers@.len() == packet.header.answers
                &&& packet.authorities@.len() == packet.header.authoritative_entries
                &&& packet.resources@.len() == packet.header.resource_entries
            },
    {
        proof {
            reveal(PacketView::parse);
        }
        let mut header = DnsHeader::new();
        header.read(buffer)?;
        let questions = read_questions(buffer, header.questions)?;
        let answers = read_records(buffer, header.answers)?;
        let authorities = read_records(buffer, header.authoritative_entries)?;
        let resources = read_records(buffer, header.resource_entries)?;
        Ok(DnsPacket { header, questions, answers, authorities, resources })
    }

    /// Sets the numbers in the header to the lengths of the sections and
    /// writes the message at the buffer's position. Where the message
    /// cannot be written as a whole, the buffer is left as it was.
    pub fn write(&mut self, buffer: &mut BytePacketBuffer) -> (res: Result<(), DnsError>)
        ensures
            old(buffer).wf() ==> final(buffer).wf(),
            final(self)@ == old(self)@.counted(),
            res == final(self)@.attempt().outcome(old(buffer)),
            res is Ok ==> final(buffer).wrote(old(buffer), final(self)@.attempt().bytes),
            res is Err ==> *final(buffer) == *old(buffer),
    {
        self.header.questions = (self.questions.len() % 0x10000) as u16;
        self.header.answers = (self.answers.len() % 0x10000) as u16;
        self.header.authoritative_entries = (self.authorities.len() % 0x10000) as u16;
        self.header.resource_entries = (self.resources.len() % 0x10000) as u16;

        let mut scratch = BytePacketBuffer { buf: buffer.buf, pos: buffer.pos };
        self.write_sections(&mut scratch)?;
        buffer.buf = scratch.buf;
        buffer.pos = scratch.pos;
        Ok(())
    }

    /// Writes the header as it is and the four sections at the buffer's
    /// position, up to the first entry that cannot be written.
    fn write_sections(&self, buffer: &mut BytePacketBuffer) -> (res: Result<(), DnsError>)
        ensures
            res == self@.attempt().outcome(old(buffer)),
            res is Ok ==> final(buffer).wrote(old(buffer), self@.attempt().bytes),
    {
        let ghost start = *buffer;
        let ghost nothing = Attempt::whole(Seq::empty());
        let ghost head = Attempt::whole(self.header.wire());
        let ghost q = questions_attempt(self@.questions);
        let ghost an = records_attempt(self@.answers);
        let ghost au = records_attempt(self@.authorities);
        let ghost re = records_attempt(self@.resources);

        let res = self.header.write(buffer);
        proof {
            let rest = q.followed_by(an.followed_by(au.followed_by(re)));
            assert(self.header.wire().len() == 12);
            lemma_attempt_step(start, start, *buffer, nothing, head, rest);
            assert(nothing.followed_by(head).bytes =~= head.bytes);
            assert(nothing.followed_by(head.followed_by(rest)).bytes =~= head.followed_by(
                rest,
            ).bytes);
        }
        if res.is_err() {
            return res;
        }
        let ghost mid = *buffer;
        let res = write_questions(&self.questions, buffer);
        proof {
            lemma_attempt_step(start, mid, *buffer, head, q, an.followed_by(au.followed_by(re)));
        }
        if res.is_err() {
            return res;
        }
        let ghost mid = *buffer;
        let res = write_records(&self.answers, buffer);
        proof {
            lemma_attempt_step(start, mid, *buffer, head.followed_by(q), an, au.followed_by(re));
        }
        if res.is_err() {
            return res;
        }
        let ghost mid = *buffer;
        let res = write_records(&self.authorities, buffer);
        proof {
            lemma_attempt_step(
                start,
                mid,
                *buffer,
                head.followed_by(q).followed_by(an),
                au,
                re,
            );
        }
        if res.is_err() {
            return res;
        }
        let ghost mid = *buffer;
        let res = write_records(&self.resources, buffer);
        proof {
            lemma_attempt_step(
                start,
                mid,
                *buffer,
                head.followed_by(q).followed_by(an).followed_by(au),
                re,
                nothing,
            );
        }
        res
    }
}

} // verus!
