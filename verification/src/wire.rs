use vstd::prelude::*;
use vstd::utf8::encode_utf8;
use crate::byte_packet_buffer::{lemma_wrote_both, BytePacketBuffer};
use crate::error::DnsError;
use crate::qname::{name_fits, name_wire};

verus! {

/// What writing a value amounts to: the bytes that are to be written, and
/// whether they are the whole value. The bytes of a value end before the
/// first name with a label too long for the wire.
pub struct Attempt {
    pub bytes: Seq<u8>,
    pub complete: bool,
}

impl Attempt {
    /// A value that is written as a whole.
    pub open spec fn whole(bytes: Seq<u8>) -> Attempt {
        Attempt { bytes, complete: true }
    }

    /// A value of which nothing can be written.
    pub open spec fn nothing() -> Attempt {
        Attempt { bytes: Seq::empty(), complete: false }
    }

    /// This value, and `next` behind it if this one was written as a whole.
    pub open spec fn followed_by(self, next: Attempt) -> Attempt {
        if self.complete {
            Attempt { bytes: self.bytes + next.bytes, complete: next.complete }
        } else {
            self
        }
    }

    /// What the writer reports: the bytes must have fitted in the buffer
    /// `before`, and the value must have been written as a whole.
    pub open spec fn outcome(self, before: &BytePacketBuffer) -> Result<(), DnsError> {
        if !before.fits(self.bytes.len() as int) {
            Err(DnsError::OutOfBounds)
        } else if !self.complete {
            Err(DnsError::LabelTooLong)
        } else {
            Ok(())
        }
    }
}

/// One more step in a row of writings. `done` was written as a whole and
/// brought the buffer from `start` to `mid`; `item` is written next, and
/// brings it to `end` where it succeeds; `rest` is still to come. What is
/// reported of `item` is what is reported of `done` and `item` together.
/// Where `item` fails, the whole row fails in the same way. Where it
/// succeeds, `done` and `item` together were written as a whole.
pub proof fn lemma_attempt_step(
    start: BytePacketBuffer,
    mid: BytePacketBuffer,
    end: BytePacketBuffer,
    done: Attempt,
    item: Attempt,
    rest: Attempt,
)
    requires
        mid.wrote(&start, done.bytes),
        done.outcome(&start) is Ok,
        item.outcome(&mid) is Ok ==> end.wrote(&mid, item.bytes),
    ensures
        done.followed_by(item).outcome(&start) == item.outcome(&mid),
        done.followed_by(item.followed_by(rest)) == done.followed_by(item).followed_by(rest),
        item.outcome(&mid) is Ok ==> end.wrote(&start, done.followed_by(item).bytes),
        item.outcome(&mid) is Err ==> done.followed_by(item.followed_by(rest)).outcome(&start)
            == item.outcome(&mid),
{
    assert(done.followed_by(item.followed_by(rest)).bytes =~= done.followed_by(item).followed_by(
        rest,
    ).bytes);
    if item.outcome(&mid) is Ok {
        lemma_wrote_both(start, mid, end, done.bytes, item.bytes);
    }
}

/// The writing of a name given as text.
pub open spec fn name_attempt(name: Seq<char>) -> Attempt {
    if name_fits(encode_utf8(name)) {
        Attempt::whole(name_wire(encode_utf8(name)))
    } else {
        Attempt::nothing()
    }
}

/// What reading a value finds: the value or the reason why there is none,
/// and where the buffer's position is left.
pub struct Parse<T> {
    pub value: Result<T, DnsError>,
    pub end: int,
}

impl<T> Parse<Seq<T>> {
    /// This reading of a row of values, after `done` were read before it.
    pub open spec fn after(self, done: Seq<T>) -> Parse<Seq<T>> {
        match self.value {
            Ok(values) => Parse { value: Ok(done + values), end: self.end },
            Err(e) => Parse { value: Err(e), end: self.end },
        }
    }
}

} // verus!
