use vstd::prelude::*;
use vstd::string::StringExecFns;
use crate::byte_packet_buffer::{be16, u16_wire, BytePacketBuffer, CAPACITY};
use crate::error::DnsError;
use crate::qname::{encode_name, name_text, read_name};
use crate::query_type::QueryType;
use crate::wire::{name_attempt, Attempt, Parse};

verus! {

/// A question: the name asked about and the type of record asked for.
#[derive(Debug, Clone, PartialEq, Eq)]
pub struct DnsQuestion {
    pub name: String,
    pub qtype: QueryType,
}

/// A question as a value: its name as text, and its type.
pub struct QuestionView {
    pub name: Seq<char>,
    pub qtype: QueryType,
}

impl View for DnsQuestion {
    type V = QuestionView;

    open spec fn view(&self) -> QuestionView {
        QuestionView { name: self.name@, qtype: self.qtype }
    }
}

impl QuestionView {
    /// The writing of this question: its name, the code of its type, and
    /// the class, which is always 1.
    pub open spec fn attempt(self) -> Attempt {
        name_attempt(self.name).followed_by(
            Attempt::whole(u16_wire(self.qtype.code()) + u16_wire(1)),
        )
    }

    /// The question that stands in `buf` at `pos`: a name, then two bytes
    /// for the type and two for the class, which is not looked at. Where
    /// these four bytes are not all there, the position stays behind the
    /// name.
    pub open spec fn parse(buf: Seq<u8>, pos: int) -> Parse<QuestionView> {
        let walk = read_name(buf, pos);
        if walk.status is Err {
            Parse { value: Err(walk.status->Err_0), end: walk.cursor }
        } else if walk.cursor + 4 > 512 {
            Parse { value: Err(DnsError::OutOfBounds), end: walk.cursor }
        } else {
            Parse {
                value: Ok(
                    QuestionView {
                        name: name_text(walk.labels),
                        qtype: QueryType::of_code(be16(buf[walk.cursor], buf[walk.cursor + 1])),
                    },
                ),
                end: walk.cursor + 4,
            }
        }
    }
}

impl DnsQuestion {
    /// A question for `name` and `qtype`.
    pub fn new(name: String, qtype: QueryType) -> (res: DnsQuestion)
        ensures
            res.name == name,
            res.qtype == qtype,
    {
        DnsQuestion { name, qtype }
    }

    /// Reads a question at the buffer's position. The name read is appended
    /// to the name this question has. Where the reading fails, the question
    /// is left as it was, and the position is where the reading of the name
    /// left it.
    pub fn read(&mut self, buffer: &mut BytePacketBuffer) -> (res: Result<(), DnsError>)
        ensures
            old(buffer).wf() ==> final(buffer).wf(),
            final(buffer).buf@ == old(buffer).buf@,
            final(buffer).pos == QuestionView::parse(old(buffer).buf@, old(buffer).pos as int).end,
            match res {
                Ok(()) => {
                    let found = QuestionView::parse(old(buffer).buf@, old(buffer).pos as int).value;
                    &&& found is Ok
                    &&& final(self).name@ == old(self).name@ + found->Ok_0.name
                    &&& final(self).qtype == found->Ok_0.qtype
                },
                Err(e) => {
                    &&& QuestionView::parse(old(buffer).buf@, old(buffer).pos as int).value == Err::<
                        QuestionView,
                        DnsError,
                    >(e)
                    &&& *final(self) == *old(self)
                },
            },
    {
        let mut name = String::new();
        buffer.read_qname(&mut name)?;
        if !buffer.has_room(4) {
            return Err(DnsError::OutOfBounds);
        }
        let code: u16 = buffer.read_u16()?;
        let _class: u16 = buffer.read_u16()?;
        self.name.append(name.as_str());
        self.qtype = QueryType::from_num(code);
        proof {
            let walk = read_name(old(buffer).buf@, old(buffer).pos as int);
            assert(name@ =~= name_text(walk.labels));
        }
        Ok(())
    }

    /// Writes this question at the buffer's position. Where it cannot be
    /// written as a whole, nothing is written.
    pub fn write(&self, buffer: &mut BytePacketBuffer) -> (res: Result<(), DnsError>)
        ensures
            old(buffer).wf() ==> final(buffer).wf(),
            final(buffer).wrote(old(buffer), self@.attempt().bytes),
            self@.attempt().outcome(old(buffer)) is Err ==> *final(buffer) == *old(buffer),
            res == self@.attempt().outcome(old(buffer)),
    {
        let name = match encode_name(self.name.as_str().as_bytes()) {
            Some(name) => name,
            None => {
                return Err(DnsError::LabelTooLong);
            },
        };
        if name.len() > CAPACITY || !buffer.has_room(name.len() + 4) {
            return Err(DnsError::OutOfBounds);
        }
        buffer.write_slice(name.as_slice())?;
        buffer.write_u16(self.qtype.to_num())?;
        buffer.write_u16(1)?;
        Ok(())
    }
}

} // verus!
