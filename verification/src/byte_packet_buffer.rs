use vstd::prelude::*;
use vstd::slice::slice_subrange;
use vstd::utf8::encode_utf8;
use crate::error::DnsError;
use crate::qname::{
    append_label, encode_name, name_fits, name_text, name_wire, read_name, walk_name, MAX_JUMPS,
};

verus! {

/// `bytes` laid over `buf` from index `at` on. What would fall beyond the end
/// of `buf` is dropped.
pub open spec fn overlay(buf: Seq<u8>, at: int, bytes: Seq<u8>) -> Seq<u8> {
    Seq::new(buf.len(), |i: int| if at <= i < at + bytes.len() { bytes[i - at] } else { buf[i] })
}

/// The position after an attempt to move `count` bytes forward from `pos`:
/// a move that does not fit is not made.
pub open spec fn advance(pos: int, count: int) -> int {
    if count == 0 || pos + count <= 512 {
        pos + count
    } else {
        pos
    }
}

/// The big-endian 16-bit value of two bytes.
pub open spec fn be16(hi: u8, lo: u8) -> u16 {
    ((hi as u16) << 8) | (lo as u16)
}

/// The big-endian 32-bit value of four bytes.
pub open spec fn be32(b0: u8, b1: u8, b2: u8, b3: u8) -> u32 {
    ((b0 as u32) << 24) | ((b1 as u32) << 16) | ((b2 as u32) << 8) | (b3 as u32)
}

/// The two bytes of a 16-bit value, high byte first.
pub open spec fn u16_wire(val: u16) -> Seq<u8> {
    seq![(val >> 8) as u8, (val & 0xFF) as u8]
}

/// The four bytes of a 32-bit value, highest byte first.
pub open spec fn u32_wire(val: u32) -> Seq<u8> {
    seq![
        ((val >> 24) & 0xFF) as u8,
        ((val >> 16) & 0xFF) as u8,
        ((val >> 8) & 0xFF) as u8,
        (val & 0xFF) as u8,
    ]
}

/// The number of bytes in a datagram.
pub const CAPACITY: usize = 512;

/// A datagram of 512 bytes with a position at which the next byte is read or
/// written.
pub struct BytePacketBuffer {
    pub buf: [u8; 512],
    pub pos: usize,
}

impl BytePacketBuffer {
    /// The position lies within the buffer or directly behind its last byte.
    pub open spec fn wf(&self) -> bool {
        self.pos <= 512
    }

    /// `count` more bytes can be read or written at the position.
    pub open spec fn fits(&self, count: int) -> bool {
        count == 0 || self.pos + count <= 512
    }

    /// This buffer is what `before` becomes by an attempt to write `bytes` at
    /// its position. Where they fit, they are stored and the position moves
    /// behind them. Where they do not all fit, none of them is stored and
    /// the position stays.
    pub open spec fn wrote(&self, before: &BytePacketBuffer, bytes: Seq<u8>) -> bool {
        &&& self.pos == advance(before.pos as int, bytes.len() as int)
        &&& forall|i: int|
            0 <= i < 512 ==> #[trigger] self.buf@[i] == if before.fits(bytes.len() as int)
                && before.pos <= i < before.pos + bytes.len() {
                bytes[i - before.pos]
            } else {
                before.buf@[i]
            }
    }

    /// This buffer holds the bytes of `before`, and its position is what an
    /// attempt to read `count` bytes from `before` leaves: behind them, or
    /// where it was if they are not all there.
    pub open spec fn consumed(&self, before: &BytePacketBuffer, count: int) -> bool {
        &&& self.buf@ == before.buf@
        &&& self.pos == advance(before.pos as int, count)
    }

    /// A buffer of zeros, positioned at its first byte.
    pub fn new() -> (res: BytePacketBuffer)
        ensures
            res.wf(),
            res.pos == 0,
            res.buf@ == Seq::new(512, |i: int| 0u8),
    {
        let res = BytePacketBuffer { buf: [0u8; 512], pos: 0 };
        assert(res.buf@ =~= Seq::new(512, |i: int| 0u8));
        res
    }

    /// The current position.
    pub fn pos(&self) -> (res: usize)
        ensures
            res == self.pos,
    {
        self.pos
    }

    /// Moves the position `steps` bytes forward. The bytes skipped must all
    /// lie within the buffer: the new position may be behind its last byte,
    /// and no further.
    pub fn step(&mut self, steps: usize) -> (res: Result<(), DnsError>)
        ensures
            old(self).wf() ==> final(self).wf(),
            final(self).buf@ == old(self).buf@,
            old(self).pos + steps <= 512 ==> res == Ok::<(), DnsError>(()) && final(self).pos
                == old(self).pos + steps,
            old(self).pos + steps > 512 ==> res == Err::<(), DnsError>(DnsError::OutOfBounds)
                && final(self).pos == old(self).pos,
    {
        if steps <= CAPACITY && self.pos <= CAPACITY - steps {
            self.pos += steps;
            return Ok(());
        }
        Err(DnsError::OutOfBounds)
    }

    /// Moves the position to `pos`, which must lie within the buffer.
    pub fn seek(&mut self, pos: usize) -> (res: Result<(), DnsError>)
        ensures
            old(self).wf() ==> final(self).wf(),
            final(self).buf@ == old(self).buf@,
            pos < 512 ==> res == Ok::<(), DnsError>(()) && final(self).pos == pos,
            pos >= 512 ==> res == Err::<(), DnsError>(DnsError::OutOfBounds) && final(self).pos == old(
                self,
            ).pos,
    {
        if pos < CAPACITY {
            self.pos = pos;
            return Ok(());
        }
        Err(DnsError::OutOfBounds)
    }

    /// Reads the byte at the position and moves one byte forward.
    pub fn read(&mut self) -> (res: Result<u8, DnsError>)
        ensures
            old(self).wf() ==> final(self).wf(),
            final(self).consumed(old(self), 1),
            res == if old(self).fits(1) {
                Ok::<u8, DnsError>(old(self).buf@[old(self).pos as int])
            } else {
                Err::<u8, DnsError>(DnsError::OutOfBounds)
            },
    {
        if self.pos >= CAPACITY {
            return Err(DnsError::OutOfBounds);
        }
        let res: u8 = self.buf[self.pos];
        self.pos += 1;
        Ok(res)
    }

    /// The byte at `pos`.
    pub fn get(&self, pos: usize) -> (res: Result<u8, DnsError>)
        ensures
            res == if pos < 512 {
                Ok::<u8, DnsError>(self.buf@[pos as int])
            } else {
                Err::<u8, DnsError>(DnsError::OutOfBounds)
            },
    {
        if pos >= CAPACITY {
            return Err(DnsError::OutOfBounds);
        }
        Ok(self.buf[pos])
    }

    /// The `len` bytes from `start` on, which must all lie within the
    /// buffer.
    pub fn get_range(&self, start: usize, len: usize) -> (res: Result<&[u8], DnsError>)
        ensures
            start + len <= 512 ==> res.is_ok() && res.unwrap()@ == self.buf@.subrange(
                start as int,
                start + len,
            ),
            start + len > 512 ==> res == Err::<&[u8], DnsError>(DnsError::OutOfBounds),
    {
        if start > CAPACITY || len > CAPACITY - start {
            return Err(DnsError::OutOfBounds);
        }
        Ok(slice_subrange(self.buf.as_slice(), start, start + len))
    }

    /// Tests whether `count` more bytes can be read or written at the
    /// position.
    pub fn has_room(&self, count: usize) -> (res: bool)
        ensures
            res == self.fits(count as int),
    {
        count == 0 || (self.pos <= CAPACITY && count <= CAPACITY - self.pos)
    }

    /// Writes `val` at the position and moves one byte forward.
    pub fn write(&mut self, val: u8) -> (res: Result<(), DnsError>)
        ensures
            old(self).wf() ==> final(self).wf(),
            final(self).wrote(old(self), seq![val]),
            res == if old(self).fits(1) {
                Ok::<(), DnsError>(())
            } else {
                Err::<(), DnsError>(DnsError::OutOfBounds)
            },
    {
        if self.pos >= CAPACITY {
            return Err(DnsError::OutOfBounds);
        }
        self.buf[self.pos] = val;
        self.pos += 1;
        Ok(())
    }

    /// Writes one byte at the position.
    pub fn write_u8(&mut self, val: u8) -> (res: Result<(), DnsError>)
        ensures
            old(self).wf() ==> final(self).wf(),
            final(self).wrote(old(self), seq![val]),
            res == if old(self).fits(1) {
                Ok::<(), DnsError>(())
            } else {
                Err::<(), DnsError>(DnsError::OutOfBounds)
            },
    {
        self.write(val)?;
        Ok(())
    }

    /// Writes two bytes at the position, high byte first. Where they do not
    /// both fit, neither is written.
    pub fn write_u16(&mut self, val: u16) -> (res: Result<(), DnsError>)
        ensures
            old(self).wf() ==> final(self).wf(),
            final(self).wrote(old(self), u16_wire(val)),
            !old(self).fits(2) ==> *final(self) == *old(self),
            res == if old(self).fits(2) {
                Ok::<(), DnsError>(())
            } else {
                Err::<(), DnsError>(DnsError::OutOfBounds)
            },
    {
        if !self.has_room(2) {
            return Err(DnsError::OutOfBounds);
        }
        self.write((val >> 8) as u8)?;
        self.write((val & 0xFF) as u8)?;
        Ok(())
    }

    /// Writes four bytes at the position, highest byte first. Where they
    /// do not all fit, none is written.
    pub fn write_u32(&mut self, val: u32) -> (res: Result<(), DnsError>)
        ensures
            old(self).wf() ==> final(self).wf(),
            final(self).wrote(old(self), u32_wire(val)),
            !old(self).fits(4) ==> *final(self) == *old(self),
            res == if old(self).fits(4) {
                Ok::<(), DnsError>(())
            } else {
                Err::<(), DnsError>(DnsError::OutOfBounds)
            },
    {
        if !self.has_room(4) {
            return Err(DnsError::OutOfBounds);
        }
        self.write(((val >> 24) & 0xFF) as u8)?;
        self.write(((val >> 16) & 0xFF) as u8)?;
        self.write(((val >> 8) & 0xFF) as u8)?;
        self.write((val & 0xFF) as u8)?;
        Ok(())
    }

    /// Reads two bytes as a big-endian value and moves two bytes forward.
    /// Where they are not both there, the position stays.
    pub fn read_u16(&mut self) -> (res: Result<u16, DnsError>)
        ensures
            old(self).wf() ==> final(self).wf(),
            final(self).consumed(old(self), 2),
            !old(self).fits(2) ==> *final(self) == *old(self),
            res == if old(self).fits(2) {
                Ok::<u16, DnsError>(
                    be16(old(self).buf@[old(self).pos as int], old(self).buf@[old(self).pos + 1]),
                )
            } else {
                Err::<u16, DnsError>(DnsError::OutOfBounds)
            },
    {
        if !self.has_room(2) {
            return Err(DnsError::OutOfBounds);
        }
        let hi: u8 = self.read()?;
        let lo: u8 = self.read()?;
        Ok(((hi as u16) << 8) | (lo as u16))
    }

    /// Reads four bytes as a big-endian value and moves four bytes forward.
    /// Where they are not all there, the position stays.
    pub fn read_u32(&mut self) -> (res: Result<u32, DnsError>)
        ensures
            old(self).wf() ==> final(self).wf(),
            final(self).consumed(old(self), 4),
            !old(self).fits(4) ==> *final(self) == *old(self),
            res == if old(self).fits(4) {
                Ok::<u32, DnsError>(
                    be32(
                        old(self).buf@[old(self).pos as int],
                        old(self).buf@[old(self).pos + 1],
                        old(self).buf@[old(self).pos + 2],
                        old(self).buf@[old(self).pos + 3],
                    ),
                )
            } else {
                Err::<u32, DnsError>(DnsError::OutOfBounds)
            },
    {
        if !self.has_room(4) {
            return Err(DnsError::OutOfBounds);
        }
        let b0: u8 = self.read()?;
        let b1: u8 = self.read()?;
        let b2: u8 = self.read()?;
        let b3: u8 = self.read()?;
        Ok(((b0 as u32) << 24) | ((b1 as u32) << 16) | ((b2 as u32) << 8) | (b3 as u32))
    }

    /// Stores `val` at index `pos`. The position stays.
    pub fn set(&mut self, pos: usize, val: u8) -> (res: Result<(), DnsError>)
        ensures
            old(self).wf() ==> final(self).wf(),
            final(self).pos == old(self).pos,
            final(self).buf@ == overlay(old(self).buf@, pos as int, seq![val]),
            res == if pos < 512 {
                Ok::<(), DnsError>(())
            } else {
                Err::<(), DnsError>(DnsError::OutOfBounds)
            },
    {
        if pos >= CAPACITY {
            assert(self.buf@ =~= overlay(self.buf@, pos as int, seq![val]));
            return Err(DnsError::OutOfBounds);
        }
        self.buf[pos] = val;
        assert(self.buf@ =~= overlay(old(self).buf@, pos as int, seq![val]));
        Ok(())
    }

    /// Stores the two bytes of `val` from index `pos` on, high byte first.
    /// The position stays. Where the two do not both lie within the buffer,
    /// neither is stored.
    pub fn set_u16(&mut self, pos: usize, val: u16) -> (res: Result<(), DnsError>)
        ensures
            old(self).wf() ==> final(self).wf(),
            pos + 2 <= 512 ==> res == Ok::<(), DnsError>(()) && final(self).pos == old(self).pos
                && final(self).buf@ == overlay(old(self).buf@, pos as int, u16_wire(val)),
            pos + 2 > 512 ==> res == Err::<(), DnsError>(DnsError::OutOfBounds) && *final(self)
                == *old(self),
    {
        if pos >= CAPACITY - 1 {
            return Err(DnsError::OutOfBounds);
        }
        self.set(pos, (val >> 8) as u8)?;
        self.set(pos + 1, (val & 0xFF) as u8)?;
        assert(self.buf@ =~= overlay(old(self).buf@, pos as int, u16_wire(val)));
        Ok(())
    }

    /// Writes `bytes` at the position, one after the other. Where they do
    /// not all fit, none is written.
    pub fn write_slice(&mut self, bytes: &[u8]) -> (res: Result<(), DnsError>)
        ensures
            old(self).wf() ==> final(self).wf(),
            final(self).wrote(old(self), bytes@),
            !old(self).fits(bytes@.len() as int) ==> *final(self) == *old(self),
            res == if old(self).fits(bytes@.len() as int) {
                Ok::<(), DnsError>(())
            } else {
                Err::<(), DnsError>(DnsError::OutOfBounds)
            },
    {
        let n: usize = bytes.len();
        if !self.has_room(n) {
            return Err(DnsError::OutOfBounds);
        }
        let mut i: usize = 0;
        while i < n
            invariant
                n == bytes@.len(),
                i <= n,
                old(self).fits(n as int),
                self.wrote(old(self), bytes@.take(i as int)),
            decreases n - i,
        {
            self.write(bytes[i])?;
            i += 1;
        }
        assert(bytes@.take(n as int) =~= bytes@);
        Ok(())
    }

    /// Reads the name at the position and appends its text to `outstr`: the
    /// labels in lower case, joined by dots.
    ///
    /// Compression pointers are followed, at most five of them. The position
    /// is left behind the name as it stands at the position: behind its first
    /// pointer, or behind its closing zero byte where it has no pointer. On a
    /// failure `outstr` has the labels read before it, and the position has
    /// moved only if a pointer was followed.
    pub fn read_qname(&mut self, outstr: &mut String) -> (res: Result<(), DnsError>)
        ensures
            old(self).wf() ==> final(self).wf(),
            final(self).buf@ == old(self).buf@,
            final(self).pos == read_name(old(self).buf@, old(self).pos as int).cursor,
            final(outstr)@ == old(outstr)@ + name_text(
                read_name(old(self).buf@, old(self).pos as int).labels,
            ),
            res == read_name(old(self).buf@, old(self).pos as int).status,
    {
        if self.pos >= CAPACITY {
            assert(outstr@ =~= old(outstr)@ + name_text(Seq::empty()));
            return Err(DnsError::OutOfBounds);
        }
        let mut pos: usize = self.pos;
        let mut jumped = false;
        let mut jumps: usize = 0;
        let mut first = true;
        let ghost goal = read_name(self.buf@, self.pos as int);
        let ghost mut done: Seq<Seq<u8>> = Seq::empty();
        proof {
            assert(outstr@ =~= old(outstr)@ + name_text(done));
            assert(goal.labels =~= done + goal.labels);
        }
        loop
            invariant
                self.buf@ == old(self).buf@,
                goal == read_name(old(self).buf@, old(self).pos as int),
                self.pos <= 512,
                !jumped ==> self.pos <= pos,
                jumps <= 6,
                jumped == (jumps > 0),
                pos < 0x10000,
                first == (done.len() == 0),
                outstr@ == old(outstr)@ + name_text(done),
                goal == walk_name(self.buf@, self.pos as int, pos as int, jumps as int).after(done),
            decreases 6 - jumps, 0x10000 - pos,
        {
            if jumps > MAX_JUMPS {
                proof {
                    assert(goal.labels =~= done);
                }
                return Err(DnsError::TooManyJumps);
            }
            let len: u8 = match self.get(pos) {
                Ok(len) => len,
                Err(e) => {
                    proof {
                        assert(goal.labels =~= done);
                    }
                    return Err(e);
                },
            };
            if (len & 0xC0) == 0xC0 {
                if !jumped {
                    match self.step(pos + 2 - self.pos) {
                        Ok(()) => {},
                        Err(e) => {
                            proof {
                                assert(goal.labels =~= done);
                            }
                            return Err(e);
                        },
                    }
                }
                let next: u8 = match self.get(pos + 1) {
                    Ok(next) => next,
                    Err(e) => {
                        proof {
                            assert(goal.labels =~= done);
                        }
                        return Err(e);
                    },
                };
                let offset: u16 = (((len as u16) ^ 0xC0) << 8) | (next as u16);
                pos = offset as usize;
                jumped = true;
                jumps += 1;
            } else if len == 0 {
                proof {
                    assert(goal.labels =~= done);
                }
                if !jumped {
                    return self.step(pos + 1 - self.pos);
                }
                return Ok(());
            } else {
                let label = match self.get_range(pos + 1, len as usize) {
                    Ok(label) => label,
                    Err(_) => {
                        proof {
                            assert(goal.labels =~= done);
                        }
                        return Err(DnsError::MalformedMessage);
                    },
                };
                append_label(outstr, label, Ghost(old(outstr)@), Ghost(done), first);
                proof {
                    let rest = walk_name(
                        self.buf@,
                        self.pos as int,
                        pos + 1 + len,
                        jumps as int,
                    );
                    assert(done + (seq![label@] + rest.labels) =~= done.push(label@)
                        + rest.labels);
                    done = done.push(label@);
                }
                first = false;
                pos = pos + 1 + len as usize;
            }
        }
    }

    /// Writes `qname` at the position in labelled form: each stretch between
    /// two dots as its length and its bytes, then a zero byte. Nothing is
    /// written where one of the labels is longer than 63 bytes, or where the
    /// labelled form does not fit.
    pub fn write_qname(&mut self, qname: &str) -> (res: Result<(), DnsError>)
        ensures
            old(self).wf() ==> final(self).wf(),
            !name_fits(encode_utf8(qname@)) ==> res == Err::<(), DnsError>(DnsError::LabelTooLong)
                && *final(self) == *old(self),
            !old(self).fits(name_wire(encode_utf8(qname@)).len() as int) ==> *final(self) == *old(
                self,
            ),
            name_fits(encode_utf8(qname@)) ==> final(self).wrote(
                old(self),
                name_wire(encode_utf8(qname@)),
            ) && res == if old(self).fits(name_wire(encode_utf8(qname@)).len() as int) {
                Ok::<(), DnsError>(())
            } else {
                Err::<(), DnsError>(DnsError::OutOfBounds)
            },
    {
        match encode_name(qname.as_bytes()) {
            Some(wire) => self.write_slice(wire.as_slice()),
            None => Err(DnsError::LabelTooLong),
        }
    }
}

/// `buf` holds `bytes` from index `at` on.
pub open spec fn contains(buf: Seq<u8>, at: int, bytes: Seq<u8>) -> bool {
    &&& 0 <= at
    &&& at + bytes.len() <= buf.len()
    &&& forall|i: int| 0 <= i < bytes.len() ==> buf[at + i] == #[trigger] bytes[i]
}

/// Where a buffer holds two sequences in a row, it holds the first, and the
/// second behind it.
pub proof fn lemma_contains_both(buf: Seq<u8>, at: int, first: Seq<u8>, second: Seq<u8>)
    requires
        contains(buf, at, first + second),
    ensures
        contains(buf, at, first),
        contains(buf, at + first.len(), second),
{
    assert forall|i: int| 0 <= i < first.len() implies buf[at + i] == #[trigger] first[i] by {
        assert((first + second)[i] == first[i]);
    }
    assert forall|i: int| 0 <= i < second.len() implies buf[at + first.len() + i]
        == #[trigger] second[i] by {
        assert((first + second)[first.len() + i] == second[i]);
    }
}

/// Bytes that were written where they fit stand in the buffer.
pub proof fn lemma_wrote_contains(start: BytePacketBuffer, end: BytePacketBuffer, bytes: Seq<u8>)
    requires
        end.wrote(&start, bytes),
        start.pos + bytes.len() <= 512,
    ensures
        contains(end.buf@, start.pos as int, bytes),
{
    assert forall|i: int| 0 <= i < bytes.len() implies end.buf@[start.pos + i]
        == #[trigger] bytes[i] by {
        assert(end.buf@[start.pos + i] == bytes[start.pos + i - start.pos]);
    }
}

/// Writing `first` and then `second`, where both fit, is writing the two
/// in a row.
pub proof fn lemma_wrote_both(
    start: BytePacketBuffer,
    mid: BytePacketBuffer,
    end: BytePacketBuffer,
    first: Seq<u8>,
    second: Seq<u8>,
)
    requires
        mid.wrote(&start, first),
        end.wrote(&mid, second),
        start.fits((first.len() + second.len()) as int),
    ensures
        end.wrote(&start, first + second),
{
}

} // verus!
