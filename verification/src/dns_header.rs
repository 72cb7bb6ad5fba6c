use vstd::prelude::*;
use crate::byte_packet_buffer::{
    be16, contains, lemma_wrote_contains, u16_wire, BytePacketBuffer,
};
use crate::error::DnsError;
use crate::result_code::ResultCode;

verus! {

/// One flag as a bit.
pub open spec fn bit_of(flag: bool) -> u8 {
    if flag {
        1
    } else {
        0
    }
}

/// The first twelve bytes of a message: its identifier, its flags, and the
/// number of entries in each of its four sections.
#[derive(Clone, Copy, Debug, PartialEq, Eq, Structural)]
pub struct DnsHeader {
    /// Chosen by the sender of a query; the response carries the same.
    pub id: u16,
    pub recursion_desired: bool,
    pub truncate_message: bool,
    pub authoritative_answer: bool,
    /// The kind of query, in four bits.
    pub opcode: u8,
    /// False in a query, true in a response.
    pub response: bool,
    pub rescode: ResultCode,
    pub checking_disabled: bool,
    pub authed_data: bool,
    /// Reserved.
    pub z: bool,
    pub recursion_available: bool,
    pub questions: u16,
    pub answers: u16,
    pub authoritative_entries: u16,
    pub resource_entries: u16,
}

impl DnsHeader {
    /// The header of an empty query: every flag off, every number zero.
    pub open spec fn blank() -> DnsHeader {
        DnsHeader {
            id: 0,
            recursion_desired: false,
            truncate_message: false,
            authoritative_answer: false,
            opcode: 0,
            response: false,
            rescode: ResultCode::NOERROR,
            checking_disabled: false,
            authed_data: false,
            z: false,
            recursion_available: false,
            questions: 0,
            answers: 0,
            authoritative_entries: 0,
            resource_entries: 0,
        }
    }

    /// The opcode fits in its four bits.
    pub open spec fn wf(self) -> bool {
        self.opcode < 16
    }

    /// The first byte of the flags: recursion desired in bit 0, truncated in
    /// bit 1, authoritative in bit 2, the opcode from bit 3 on, and the
    /// response flag in bit 7.
    pub open spec fn flags_high(self) -> u8 {
        bit_of(self.recursion_desired) | (bit_of(self.truncate_message) << 1) | (bit_of(
            self.authoritative_answer,
        ) << 2) | (self.opcode << 3) | (bit_of(self.response) << 7)
    }

    /// The second byte of the flags: the response code in bits 0 to 3, then
    /// checking disabled, authenticated data, the reserved bit and recursion
    /// available.
    pub open spec fn flags_low(self) -> u8 {
        self.rescode.code() | (bit_of(self.checking_disabled) << 4) | (bit_of(self.authed_data)
            << 5) | (bit_of(self.z) << 6) | (bit_of(self.recursion_available) << 7)
    }

    /// The twelve bytes of this header on the wire.
    pub open spec fn wire(self) -> Seq<u8> {
        u16_wire(self.id) + seq![self.flags_high(), self.flags_low()] + u16_wire(self.questions)
            + u16_wire(self.answers) + u16_wire(self.authoritative_entries) + u16_wire(
            self.resource_entries,
        )
    }

    /// The header that six 16-bit words stand for: the identifier, the
    /// flags, and the four numbers of entries.
    pub open spec fn of_words(
        id: u16,
        flags: u16,
        questions: u16,
        answers: u16,
        authoritative_entries: u16,
        resource_entries: u16,
    ) -> DnsHeader {
        let a = (flags >> 8) as u8;
        let b = (flags & 0xFF) as u8;
        DnsHeader {
            id,
            recursion_desired: (a & 0x01u8) > 0,
            truncate_message: (a & 0x02u8) > 0,
            authoritative_answer: (a & 0x04u8) > 0,
            opcode: (a >> 3) & 0x0F,
            response: (a & 0x80u8) > 0,
            rescode: ResultCode::of_code(b & 0x0F),
            checking_disabled: (b & 0x10u8) > 0,
            authed_data: (b & 0x20u8) > 0,
            z: (b & 0x40u8) > 0,
            recursion_available: (b & 0x80u8) > 0,
            questions,
            answers,
            authoritative_entries,
            resource_entries,
        }
    }

    /// The header that the twelve bytes of `buf` from `pos` on stand for.
    pub open spec fn parse(buf: Seq<u8>, pos: int) -> DnsHeader {
        DnsHeader::of_words(
            be16(buf[pos], buf[pos + 1]),
            be16(buf[pos + 2], buf[pos + 3]),
            be16(buf[pos + 4], buf[pos + 5]),
            be16(buf[pos + 6], buf[pos + 7]),
            be16(buf[pos + 8], buf[pos + 9]),
            be16(buf[pos + 10], buf[pos + 11]),
        )
    }

    /// The header of an empty query.
    pub fn new() -> (res: DnsHeader)
        ensures
            res == DnsHeader::blank(),
    {
        DnsHeader {
            id: 0,
            recursion_desired: false,
            truncate_message: false,
            authoritative_answer: false,
            opcode: 0,
            response: false,
            rescode: ResultCode::NOERROR,
            checking_disabled: false,
            authed_data: false,
            z: false,
            recursion_available: false,
            questions: 0,
            answers: 0,
            authoritative_entries: 0,
            resource_entries: 0,
        }
    }

    /// Reads the twelve bytes of a header at the buffer's position. Where
    /// they are not all there, the header and the position are left as they
    /// were.
    pub fn read(&mut self, buffer: &mut BytePacketBuffer) -> (res: Result<(), DnsError>)
        ensures
            old(buffer).wf() ==> final(buffer).wf(),
            final(buffer).consumed(old(buffer), 12),
            res == if old(buffer).fits(12) {
                Ok::<(), DnsError>(())
            } else {
                Err::<(), DnsError>(DnsError::OutOfBounds)
            },
            res.is_ok() ==> *final(self) == DnsHeader::parse(
                old(buffer).buf@,
                old(buffer).pos as int,
            ),
            res.is_err() ==> *final(self) == *old(self) && *final(buffer) == *old(buffer),
    {
        if !buffer.has_room(12) {
            return Err(DnsError::OutOfBounds);
        }
        let id: u16 = buffer.read_u16()?;
        let flags: u16 = buffer.read_u16()?;
        let questions: u16 = buffer.read_u16()?;
        let answers: u16 = buffer.read_u16()?;
        let authoritative_entries: u16 = buffer.read_u16()?;
        let resource_entries: u16 = buffer.read_u16()?;
        let a: u8 = (flags >> 8) as u8;
        let b: u8 = (flags & 0xFF) as u8;
        self.id = id;
        self.recursion_desired = (a & 0x01u8) > 0;
        self.truncate_message = (a & 0x02u8) > 0;
        self.authoritative_answer = (a & 0x04u8) > 0;
        self.opcode = (a >> 3) & 0x0F;
        self.response = (a & 0x80u8) > 0;
        self.rescode = ResultCode::from_num(b & 0x0F);
        self.checking_disabled = (b & 0x10u8) > 0;
        self.authed_data = (b & 0x20u8) > 0;
        self.z = (b & 0x40u8) > 0;
        self.recursion_available = (b & 0x80u8) > 0;
        self.questions = questions;
        self.answers = answers;
        self.authoritative_entries = authoritative_entries;
        self.resource_entries = resource_entries;
        Ok(())
    }

    /// Writes the twelve bytes of this header at the buffer's position.
    /// Where they do not all fit, none is written.
    pub fn write(&self, buffer: &mut BytePacketBuffer) -> (res: Result<(), DnsError>)
        ensures
            old(buffer).wf() ==> final(buffer).wf(),
            final(buffer).wrote(old(buffer), self.wire()),
            !old(buffer).fits(12) ==> *final(buffer) == *old(buffer),
            res == if old(buffer).fits(12) {
                Ok::<(), DnsError>(())
            } else {
                Err::<(), DnsError>(DnsError::OutOfBounds)
            },
    {
        if !buffer.has_room(12) {
            return Err(DnsError::OutOfBounds);
        }
        buffer.write_u16(self.id)?;
        buffer.write_u8(
            flag_bit(self.recursion_desired) | (flag_bit(self.truncate_message) << 1) | (flag_bit(
                self.authoritative_answer,
            ) << 2) | (self.opcode << 3) | (flag_bit(self.response) << 7),
        )?;
        buffer.write_u8(
            self.rescode.to_num() | (flag_bit(self.checking_disabled) << 4) | (flag_bit(
                self.authed_data,
            ) << 5) | (flag_bit(self.z) << 6) | (flag_bit(self.recursion_available) << 7),
        )?;
        self.write_counts(buffer)
    }

    /// Writes the four numbers of entries at the buffer's position, where
    /// there is room for them.
    fn write_counts(&self, buffer: &mut BytePacketBuffer) -> (res: Result<(), DnsError>)
        requires
            old(buffer).fits(8),
        ensures
            old(buffer).wf() ==> final(buffer).wf(),
            final(buffer).wrote(
                old(buffer),
                u16_wire(self.questions) + u16_wire(self.answers) + u16_wire(
                    self.authoritative_entries,
                ) + u16_wire(self.resource_entries),
            ),
            res == if old(buffer).fits(8) {
                Ok::<(), DnsError>(())
            } else {
                Err::<(), DnsError>(DnsError::OutOfBounds)
            },
    {
        buffer.write_u16(self.questions)?;
        buffer.write_u16(self.answers)?;
        buffer.write_u16(self.authoritative_entries)?;
        buffer.write_u16(self.resource_entries)?;
        Ok(())
    }
}

/// One flag as a bit.
fn flag_bit(flag: bool) -> (bit: u8)
    ensures
        bit == bit_of(flag),
{
    if flag {
        1
    } else {
        0
    }
}

/// The two bytes of a 16-bit value give the value back.
pub proof fn lemma_u16_round_trip(val: u16)
    ensures
        u16_wire(val).len() == 2,
        be16(u16_wire(val)[0], u16_wire(val)[1]) == val,
{
    assert((((((val >> 8) as u8) as u16) << 8) | (((val & 0xFF) as u8) as u16)) == val)
        by (bit_vector);
}

proof fn lemma_flag_bytes(hi: u8, lo: u8)
    ensures
        (be16(hi, lo) >> 8) as u8 == hi,
        (be16(hi, lo) & 0xFF) as u8 == lo,
{
    assert(((((hi as u16) << 8) | (lo as u16)) >> 8) as u8 == hi) by (bit_vector);
    assert(((((hi as u16) << 8) | (lo as u16)) & 0xFF) as u8 == lo) by (bit_vector);
}

proof fn lemma_flags_high(rd: u8, tc: u8, aa: u8, opcode: u8, response: u8)
    by (bit_vector)
    requires
        rd <= 1,
        tc <= 1,
        aa <= 1,
        opcode < 16,
        response <= 1,
    ensures
        ((rd | (tc << 1) | (aa << 2) | (opcode << 3) | (response << 7)) & 0x01u8) > 0 <==> rd == 1,
        ((rd | (tc << 1) | (aa << 2) | (opcode << 3) | (response << 7)) & 0x02u8) > 0 <==> tc == 1,
        ((rd | (tc << 1) | (aa << 2) | (opcode << 3) | (response << 7)) & 0x04u8) > 0 <==> aa == 1,
        ((rd | (tc << 1) | (aa << 2) | (opcode << 3) | (response << 7)) >> 3) & 0x0F == opcode,
        ((rd | (tc << 1) | (aa << 2) | (opcode << 3) | (response << 7)) & 0x80u8) > 0 <==> response
            == 1,
{
}

proof fn lemma_flags_low(code: u8, cd: u8, ad: u8, z: u8, ra: u8)
    by (bit_vector)
    requires
        code < 16,
        cd <= 1,
        ad <= 1,
        z <= 1,
        ra <= 1,
    ensures
        (code | (cd << 4) | (ad << 5) | (z << 6) | (ra << 7)) & 0x0F == code,
        ((code | (cd << 4) | (ad << 5) | (z << 6) | (ra << 7)) & 0x10u8) > 0 <==> cd == 1,
        ((code | (cd << 4) | (ad << 5) | (z << 6) | (ra << 7)) & 0x20u8) > 0 <==> ad == 1,
        ((code | (cd << 4) | (ad << 5) | (z << 6) | (ra << 7)) & 0x40u8) > 0 <==> z == 1,
        ((code | (cd << 4) | (ad << 5) | (z << 6) | (ra << 7)) & 0x80u8) > 0 <==> ra == 1,
{
}

/// The flags word that a header writes gives its flags back.
pub proof fn lemma_flags_round_trip(header: DnsHeader)
    requires
        header.wf(),
    ensures
        DnsHeader::of_words(
            header.id,
            be16(header.flags_high(), header.flags_low()),
            header.questions,
            header.answers,
            header.authoritative_entries,
            header.resource_entries,
        ) == header,
{
    lemma_flag_bytes(header.flags_high(), header.flags_low());
    lemma_flags_high(
        bit_of(header.recursion_desired),
        bit_of(header.truncate_message),
        bit_of(header.authoritative_answer),
        header.opcode,
        bit_of(header.response),
    );
    lemma_flags_low(
        header.rescode.code(),
        bit_of(header.checking_disabled),
        bit_of(header.authed_data),
        bit_of(header.z),
        bit_of(header.recursion_available),
    );
    ResultCode::lemma_round_trip(header.rescode);
}

/// The header that stands where the bytes of `header` stand is `header`.
pub proof fn lemma_header_parse(buf: Seq<u8>, pos: int, header: DnsHeader)
    requires
        header.wf(),
        contains(buf, pos, header.wire()),
    ensures
        header.wire().len() == 12,
        DnsHeader::parse(buf, pos) == header,
{
    let wire = header.wire();
    lemma_u16_round_trip(header.id);
    lemma_u16_round_trip(header.questions);
    lemma_u16_round_trip(header.answers);
    lemma_u16_round_trip(header.authoritative_entries);
    lemma_u16_round_trip(header.resource_entries);
    lemma_flags_round_trip(header);
    assert(wire.len() == 12);
    assert(wire[0] == u16_wire(header.id)[0] && wire[1] == u16_wire(header.id)[1]);
    assert(wire[2] == header.flags_high() && wire[3] == header.flags_low());
    assert(wire[4] == u16_wire(header.questions)[0] && wire[5] == u16_wire(header.questions)[1]);
    assert(wire[6] == u16_wire(header.answers)[0] && wire[7] == u16_wire(header.answers)[1]);
    assert(wire[8] == u16_wire(header.authoritative_entries)[0] && wire[9] == u16_wire(
        header.authoritative_entries,
    )[1]);
    assert(wire[10] == u16_wire(header.resource_entries)[0] && wire[11] == u16_wire(
        header.resource_entries,
    )[1]);
    assert forall|k: int| 0 <= k < 12 implies buf[pos + k] == wire[k] by {
        assert(buf[pos + k] == wire[k]);
    }
}

/// A header that was written is read back unchanged: where `after` is the
/// buffer in which `header` was written at the position of `before`, with
/// room for its twelve bytes, the header that stands at that position in
/// `after` is `header`.
pub proof fn lemma_header_round_trip(
    header: DnsHeader,
    before: BytePacketBuffer,
    after: BytePacketBuffer,
)
    requires
        header.wf(),
        before.pos + 12 <= 512,
        after.wrote(&before, header.wire()),
    ensures
        DnsHeader::parse(after.buf@, before.pos as int) == header,
{
    assert(header.wire().len() == 12);
    lemma_wrote_contains(before, after, header.wire());
    lemma_header_parse(after.buf@, before.pos as int, header);
}

} // verus!
