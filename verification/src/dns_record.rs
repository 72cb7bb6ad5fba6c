use vstd::prelude::*;
use crate::byte_packet_buffer::{be16, be32, u16_wire, u32_wire, BytePacketBuffer, CAPACITY};
use crate::error::DnsError;
use crate::qname::{encode_name, name_text, read_name};
use crate::query_type::QueryType;
use crate::wire::{name_attempt, Attempt, Parse};

verus! {

/// An IPv4 address as its four octets, in the order in which they are
/// written.
#[derive(Clone, Copy, Debug, PartialEq, Eq, Hash, Structural)]
pub struct Ipv4Address {
    pub a: u8,
    pub b: u8,
    pub c: u8,
    pub d: u8,
}

impl Ipv4Address {
    /// The address `a.b.c.d`.
    pub fn new(a: u8, b: u8, c: u8, d: u8) -> (res: Ipv4Address)
        ensures
            res == (Ipv4Address { a, b, c, d }),
    {
        Ipv4Address { a, b, c, d }
    }

    /// The four octets of this address.
    pub fn octets(&self) -> (res: [u8; 4])
        ensures
            res@ == self.wire(),
    {
        let res: [u8; 4] = [self.a, self.b, self.c, self.d];
        assert(res@ =~= self.wire());
        res
    }

    /// The four octets of this address.
    pub open spec fn wire(self) -> Seq<u8> {
        seq![self.a, self.b, self.c, self.d]
    }

    /// The address that a 32-bit value in network byte order stands for.
    pub open spec fn of_bits(raw: u32) -> Ipv4Address {
        Ipv4Address {
            a: ((raw >> 24) & 0xFF) as u8,
            b: ((raw >> 16) & 0xFF) as u8,
            c: ((raw >> 8) & 0xFF) as u8,
            d: (raw & 0xFF) as u8,
        }
    }

    /// The address that a 32-bit value in network byte order stands for.
    pub fn from_bits(raw: u32) -> (res: Ipv4Address)
        ensures
            res == Ipv4Address::of_bits(raw),
    {
        Ipv4Address {
            a: ((raw >> 24) & 0xFF) as u8,
            b: ((raw >> 16) & 0xFF) as u8,
            c: ((raw >> 8) & 0xFF) as u8,
            d: (raw & 0xFF) as u8,
        }
    }
}

/// An entry of the answer, authority or additional section of a message.
#[derive(Debug, Clone, PartialEq, Eq)]
pub enum DnsRecord {
    /// A record of a type whose data this library does not read: the code
    /// of the type, and how many bytes of data were skipped.
    UNKNOWN { domain: String, qtype: u16, data_len: u16, ttl: u32 },
    /// The IPv4 address of a name.
    A { domain: String, addr: Ipv4Address, ttl: u32 },
}

/// A record as a value, with its name as text.
pub enum RecordView {
    UNKNOWN { domain: Seq<char>, qtype: u16, data_len: u16, ttl: u32 },
    A { domain: Seq<char>, addr: Ipv4Address, ttl: u32 },
}

impl View for DnsRecord {
    type V = RecordView;

    open spec fn view(&self) -> RecordView {
        match *self {
            DnsRecord::UNKNOWN { domain, qtype, data_len, ttl } => RecordView::UNKNOWN {
                domain: domain@,
                qtype,
                data_len,
                ttl,
            },
            DnsRecord::A { domain, addr, ttl } => RecordView::A { domain: domain@, addr, ttl },
        }
    }
}

impl RecordView {
    /// The writing of this record. An address record is its name, type 1,
    /// class 1, the time to live, the data length 4 and the four octets. Of
    /// an unknown record nothing is written.
    pub open spec fn attempt(self) -> Attempt {
        match self {
            RecordView::A { domain, addr, ttl } => name_attempt(domain).followed_by(
                Attempt::whole(
                    u16_wire(1) + u16_wire(1) + u32_wire(ttl) + u16_wire(4) + addr.wire(),
                ),
            ),
            RecordView::UNKNOWN { .. } => Attempt::whole(Seq::empty()),
        }
    }

    /// The record that stands in `buf` at `pos`: a name, the type, the
    /// class, the time to live and the length of the data, then the data.
    /// The data of type 1 are read as an address, whatever length is given.
    /// Data of another type are skipped, and must all lie within the
    /// buffer. A failure leaves the position behind what was read as
    /// a whole before it: the name, and the ten bytes behind it.
    pub open spec fn parse(buf: Seq<u8>, pos: int) -> Parse<RecordView> {
        let walk = read_name(buf, pos);
        let at = walk.cursor;
        let code = be16(buf[at], buf[at + 1]);
        let ttl = be32(buf[at + 4], buf[at + 5], buf[at + 6], buf[at + 7]);
        let data_len = be16(buf[at + 8], buf[at + 9]);
        if walk.status is Err {
            Parse { value: Err(walk.status->Err_0), end: at }
        } else if at + 10 > 512 {
            Parse { value: Err(DnsError::OutOfBounds), end: at }
        } else if code == 1 {
            if at + 14 > 512 {
                Parse { value: Err(DnsError::OutOfBounds), end: at + 10 }
            } else {
                Parse {
                    value: Ok(
                        RecordView::A {
                            domain: name_text(walk.labels),
                            addr: Ipv4Address::of_bits(
                                be32(buf[at + 10], buf[at + 11], buf[at + 12], buf[at + 13]),
                            ),
                            ttl,
                        },
                    ),
                    end: at + 14,
                }
            }
        } else {
            if at + 10 + data_len > 512 {
                Parse { value: Err(DnsError::OutOfBounds), end: at + 10 }
            } else {
                Parse {
                    value: Ok(
                        RecordView::UNKNOWN {
                            domain: name_text(walk.labels),
                            qtype: code,
                            data_len,
                            ttl,
                        },
                    ),
                    end: at + 10 + data_len,
                }
            }
        }
    }
}

impl DnsRecord {
    /// Reads a record at the buffer's position.
    pub fn read(buffer: &mut BytePacketBuffer) -> (res: Result<DnsRecord, DnsError>)
        ensures
            old(buffer).wf() ==> final(buffer).wf(),
            final(buffer).buf@ == old(buffer).buf@,
            final(buffer).pos == RecordView::parse(old(buffer).buf@, old(buffer).pos as int).end,
            match res {
                Ok(record) => RecordView::parse(old(buffer).buf@, old(buffer).pos as int).value
                    == Ok::<RecordView, DnsError>(record@),
                Err(e) => RecordView::parse(old(buffer).buf@, old(buffer).pos as int).value
                    == Err::<RecordView, DnsError>(e),
            },
    {
        let mut domain = String::new();
        buffer.read_qname(&mut domain)?;
        proof {
            let walk = read_name(old(buffer).buf@, old(buffer).pos as int);
            assert(domain@ =~= name_text(walk.labels));
        }
        if !buffer.has_room(10) {
            return Err(DnsError::OutOfBounds);
        }
        let qtype_num: u16 = buffer.read_u16()?;
        let qtype = QueryType::from_num(qtype_num);
        let _class: u16 = buffer.read_u16()?;
        let ttl: u32 = buffer.read_u32()?;
        let data_len: u16 = buffer.read_u16()?;
        match qtype {
            QueryType::A => {
                let raw_addr: u32 = buffer.read_u32()?;
                let addr = Ipv4Address::from_bits(raw_addr);
                Ok(DnsRecord::A { domain, addr, ttl })
            },
            _ => {
                buffer.step(data_len as usize)?;
                Ok(DnsRecord::UNKNOWN { domain, qtype: qtype_num, data_len, ttl })
            },
        }
    }

    /// Writes this record at the buffer's position and returns the number of
    /// bytes it takes there. An unknown record is left out: it takes no
    /// bytes. Where an address record cannot be written as a whole, nothing
    /// is written.
    pub fn write(&self, buffer: &mut BytePacketBuffer) -> (res: Result<usize, DnsError>)
        ensures
            old(buffer).wf() ==> final(buffer).wf(),
            final(buffer).wrote(old(buffer), self@.attempt().bytes),
            self@.attempt().outcome(old(buffer)) is Err ==> *final(buffer) == *old(buffer),
            match res {
                Ok(count) => self@.attempt().outcome(old(buffer)) is Ok && count
                    == self@.attempt().bytes.len(),
                Err(e) => self@.attempt().outcome(old(buffer)) == Err::<(), DnsError>(e),
            },
    {
        let start_pos: usize = buffer.pos();
        match self {
            DnsRecord::A { domain, addr, ttl } => {
                let name = match encode_name(domain.as_str().as_bytes()) {
                    Some(name) => name,
                    None => {
                        return Err(DnsError::LabelTooLong);
                    },
                };
                if name.len() > CAPACITY || !buffer.has_room(name.len() + 14) {
                    return Err(DnsError::OutOfBounds);
                }
                buffer.write_slice(name.as_slice())?;
                buffer.write_u16(QueryType::A.to_num())?;
                buffer.write_u16(1)?;
                buffer.write_u32(*ttl)?;
                buffer.write_u16(4)?;
                buffer.write_u8(addr.a)?;
                buffer.write_u8(addr.b)?;
                buffer.write_u8(addr.c)?;
                buffer.write_u8(addr.d)?;
                Ok(buffer.pos() - start_pos)
            },
            DnsRecord::UNKNOWN { .. } => Ok(0),
        }
    }
}

} // verus!
