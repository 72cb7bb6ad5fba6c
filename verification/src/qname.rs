use vstd::prelude::*;
use vstd::slice::slice_subrange;
use vstd::string::StringExecFns;
use vstd::utf8::is_ascii_chars;
use crate::error::DnsError;

verus! {

/// How many compression pointers one name may lead through.
pub const MAX_JUMPS: usize = 5;

/// The longest label that the wire format can carry.
pub const MAX_LABEL: usize = 63;

/// The byte that separates the labels of a name in text.
pub const DOT: u8 = 0x2E;

/// The text that `String::from_utf8_lossy` makes of `bytes`.
pub uninterp spec fn utf8_lossy(bytes: Seq<u8>) -> Seq<char>;

/// The text that `str::to_lowercase` makes of `text`.
pub uninterp spec fn lowercase(text: Seq<char>) -> Seq<char>;

/// A byte of ASCII.
pub open spec fn is_ascii_byte(byte: u8) -> bool {
    byte < 128
}

/// A byte of ASCII that is no capital letter.
pub open spec fn is_plain_byte(byte: u8) -> bool {
    byte < 128 && !(0x41 <= byte <= 0x5A)
}

/// A character of ASCII that is no capital letter.
pub open spec fn is_plain_char(c: char) -> bool {
    '\0' <= c <= '\u{7f}' && !('A' <= c <= 'Z')
}

/// All bytes are ASCII.
pub open spec fn ascii_bytes(bytes: Seq<u8>) -> bool {
    forall|i: int| 0 <= i < bytes.len() ==> is_ascii_byte(#[trigger] bytes[i])
}

/// All bytes are ASCII, and none is a capital letter.
pub open spec fn plain_bytes(bytes: Seq<u8>) -> bool {
    forall|i: int| 0 <= i < bytes.len() ==> is_plain_byte(#[trigger] bytes[i])
}

/// All characters are ASCII, and none is a capital letter.
pub open spec fn plain_chars(text: Seq<char>) -> bool {
    forall|i: int| 0 <= i < text.len() ==> is_plain_char(#[trigger] text[i])
}

/// Bytes of ASCII as text: each byte is one character.
pub open spec fn ascii_text(bytes: Seq<u8>) -> Seq<char> {
    Seq::new(bytes.len(), |i: int| bytes[i] as char)
}

/// A character of ASCII in lower case: a capital letter becomes the small
/// one, any other character stays.
pub open spec fn lower_char(c: char) -> char {
    if 'A' <= c <= 'Z' {
        ((c as u8 + 32) as u8) as char
    } else {
        c
    }
}

/// Text of ASCII in lower case, character by character.
pub open spec fn lower_text(text: Seq<char>) -> Seq<char> {
    Seq::new(text.len(), |i: int| lower_char(text[i]))
}

/// Calls `String::from_utf8_lossy` and takes the result as an owned string.
/// The result depends on the bytes alone. Bytes that are all ASCII are
/// valid UTF-8, which the call hands back as text unchanged: each byte is
/// one character.
#[verifier::external_body]
fn lossy_text(bytes: &[u8]) -> (text: String)
    ensures
        text@ == utf8_lossy(bytes@),
        ascii_bytes(bytes@) ==> text@ == ascii_text(bytes@),
{
    String::from_utf8_lossy(bytes).into_owned()
}

/// Calls `str::to_lowercase`. The result depends on the text alone. The
/// lowercase equivalent of text of ASCII has a small letter for each
/// capital letter and every other character unchanged.
#[verifier::external_body]
fn lowercase_text(text: &str) -> (lower: String)
    ensures
        lower@ == lowercase(text@),
        is_ascii_chars(text@) ==> lower@ == lower_text(text@),
{
    text.to_lowercase()
}

/// The text of one label as a decoded name shows it: its bytes read as
/// UTF-8, with a replacement character for what is none, in lower case. A
/// label of ASCII is shown byte by byte, with a small letter for each
/// capital letter.
pub open spec fn label_text(bytes: Seq<u8>) -> Seq<char> {
    if ascii_bytes(bytes) {
        lower_text(ascii_text(bytes))
    } else {
        lowercase(utf8_lossy(bytes))
    }
}

/// The text of a name: its labels' texts, joined by dots.
pub open spec fn name_text(labels: Seq<Seq<u8>>) -> Seq<char>
    decreases labels.len(),
{
    if labels.len() == 0 {
        Seq::empty()
    } else if labels.len() == 1 {
        label_text(labels[0])
    } else {
        name_text(labels.drop_last()) + seq!['.'] + label_text(labels.last())
    }
}

/// Appends the text of a label to the text of a name: behind a dot, unless
/// it is the first label.
pub fn join_label(text: &mut String, label: &str, first: bool)
    ensures
        final(text)@ == if first {
            old(text)@ + label@
        } else {
            old(text)@ + seq!['.'] + label@
        },
{
    if !first {
        proof {
            reveal_strlit(".");
            assert("."@ =~= seq!['.']);
        }
        text.append(".");
    }
    text.append(label);
}

/// Appends the text of one more label, given as its bytes, to the text of
/// a name.
pub(crate) fn append_label(
    text: &mut String,
    label: &[u8],
    Ghost(before): Ghost<Seq<char>>,
    Ghost(done): Ghost<Seq<Seq<u8>>>,
    first: bool,
)
    requires
        old(text)@ == before + name_text(done),
        first == (done.len() == 0),
    ensures
        final(text)@ == before + name_text(done.push(label@)),
{
    let lossy = lossy_text(label);
    let lower = lowercase_text(lossy.as_str());
    join_label(text, lower.as_str(), first);
    proof {
        if ascii_bytes(label@) {
            assert forall|i: int| 0 <= i < lossy@.len() implies '\0' <= #[trigger] lossy@[i]
                <= '\u{7f}' by {
                assert(is_ascii_byte(label@[i]));
            }
        }
        assert(lower@ == label_text(label@));
        assert(done.push(label@).drop_last() =~= done);
        assert(text@ =~= before + name_text(done.push(label@)));
    }
}

/// A length byte whose two highest bits are set starts a compression
/// pointer.
pub open spec fn is_pointer(len: u8) -> bool {
    (len & 0xC0) == 0xC0
}

/// The offset that the two bytes of a compression pointer name.
pub open spec fn pointer_target(len: u8, next: u8) -> int {
    ((((len as u16) ^ 0xC0) << 8) | (next as u16)) as int
}

/// What reading a name finds: the labels read, where the buffer's position
/// is left, how many pointers were followed, and whether the name ended
/// properly. On a failure `labels` are those read before it.
pub struct NameWalk {
    pub labels: Seq<Seq<u8>>,
    pub cursor: int,
    pub jumps: int,
    pub status: Result<(), DnsError>,
}

impl NameWalk {
    /// A walk that ends here.
    pub open spec fn stop(cursor: int, jumps: int, status: Result<(), DnsError>) -> NameWalk {
        NameWalk { labels: Seq::empty(), cursor, jumps, status }
    }

    /// This walk, after `labels` were read before it.
    pub open spec fn after(self, labels: Seq<Seq<u8>>) -> NameWalk {
        NameWalk {
            labels: labels + self.labels,
            cursor: self.cursor,
            jumps: self.jumps,
            status: self.status,
        }
    }
}

/// Reads a name in `buf` from `pos` on, after `jumps` pointers were followed,
/// with the buffer's position at `cursor`.
///
/// A pointer moves the reading to its target; the first one leaves the
/// buffer's position behind its two bytes. A zero byte ends the name; if no
/// pointer was followed, the buffer's position is left behind it. Any other
/// byte is the length of a label that follows it. Every byte that is read
/// must lie within the buffer; the position may be left behind its last
/// byte.
pub open spec fn walk_name(buf: Seq<u8>, cursor: int, pos: int, jumps: int) -> NameWalk
    decreases 6 - jumps, 512 - pos,
{
    if jumps > 5 {
        NameWalk::stop(cursor, jumps, Err(DnsError::TooManyJumps))
    } else if pos < 0 || pos >= 512 {
        NameWalk::stop(cursor, jumps, Err(DnsError::OutOfBounds))
    } else if is_pointer(buf[pos]) {
        if pos + 1 >= 512 {
            NameWalk::stop(cursor, jumps, Err(DnsError::OutOfBounds))
        } else {
            walk_name(
                buf,
                if jumps == 0 {
                    pos + 2
                } else {
                    cursor
                },
                pointer_target(buf[pos], buf[pos + 1]),
                jumps + 1,
            )
        }
    } else if buf[pos] == 0 {
        if jumps > 0 {
            NameWalk::stop(cursor, jumps, Ok(()))
        } else {
            NameWalk::stop(pos + 1, jumps, Ok(()))
        }
    } else {
        let end = pos + 1 + buf[pos];
        if end > 512 {
            NameWalk::stop(cursor, jumps, Err(DnsError::MalformedMessage))
        } else {
            walk_name(buf, cursor, end, jumps).after(seq![buf.subrange(pos + 1, end)])
        }
    }
}

/// No name is read through more than five pointers: a walk that follows a
/// sixth ends with `TooManyJumps`, and no other walk ends so.
pub proof fn lemma_jump_limit(buf: Seq<u8>, cursor: int, pos: int, jumps: int)
    requires
        0 <= jumps <= 6,
    ensures
        jumps <= walk_name(buf, cursor, pos, jumps).jumps <= 6,
        walk_name(buf, cursor, pos, jumps).status == Err::<(), DnsError>(DnsError::TooManyJumps)
            <==> walk_name(buf, cursor, pos, jumps).jumps == 6,
        walk_name(buf, cursor, pos, jumps).status is Ok ==> walk_name(
            buf,
            cursor,
            pos,
            jumps,
        ).jumps <= 5,
    decreases 6 - jumps, 512 - pos,
{
    if jumps > 5 || pos < 0 || pos >= 512 {
    } else if is_pointer(buf[pos]) {
        if pos + 1 < 512 {
            lemma_jump_limit(
                buf,
                if jumps == 0 {
                    pos + 2
                } else {
                    cursor
                },
                pointer_target(buf[pos], buf[pos + 1]),
                jumps + 1,
            );
        }
    } else if buf[pos] != 0 {
        let end = pos + 1 + buf[pos];
        if end <= 512 {
            lemma_jump_limit(buf, cursor, end, jumps);
        }
    }
}

/// Reads the name that starts at `pos`, the buffer's position.
pub open spec fn read_name(buf: Seq<u8>, pos: int) -> NameWalk {
    walk_name(buf, pos, pos, 0)
}

/// The labels of a name given as bytes: the stretches between its dots. A
/// name without a dot is one label, and so is the empty name.
pub open spec fn split_labels(bytes: Seq<u8>) -> Seq<Seq<u8>>
    decreases bytes.len(),
{
    if bytes.len() == 0 {
        seq![Seq::empty()]
    } else {
        let before = split_labels(bytes.drop_last());
        if bytes.last() == DOT {
            before.push(Seq::empty())
        } else {
            before.drop_last().push(before.last().push(bytes.last()))
        }
    }
}

/// No label is longer than the wire format allows.
pub open spec fn labels_short(labels: Seq<Seq<u8>>) -> bool {
    forall|i: int| 0 <= i < labels.len() ==> (#[trigger] labels[i]).len() <= 63
}

/// The labels on the wire: each as its length and its bytes.
pub open spec fn labels_wire(labels: Seq<Seq<u8>>) -> Seq<u8>
    decreases labels.len(),
{
    if labels.len() == 0 {
        Seq::empty()
    } else {
        labels_wire(labels.drop_last()) + seq![labels.last().len() as u8] + labels.last()
    }
}

/// A name on the wire: its labels, then the zero byte that ends it.
pub open spec fn name_wire(name: Seq<u8>) -> Seq<u8> {
    labels_wire(split_labels(name)) + seq![0u8]
}

/// A name that can be written: none of its labels is too long.
pub open spec fn name_fits(name: Seq<u8>) -> bool {
    labels_short(split_labels(name))
}

/// Short labels stay short when a short label is added, and only then.
proof fn lemma_short_push(done: Seq<Seq<u8>>, label: Seq<u8>)
    ensures
        labels_short(done.push(label)) == (labels_short(done) && label.len() <= 63),
{
    let all = done.push(label);
    if labels_short(done) && label.len() <= 63 {
        assert forall|i: int| 0 <= i < all.len() implies (#[trigger] all[i]).len() <= 63 by {
            if i < done.len() {
                assert(all[i] == done[i]);
            }
        }
    } else if labels_short(done) {
        assert(all[done.len() as int].len() > 63);
    } else {
        let j = choose|j: int| 0 <= j < done.len() && (#[trigger] done[j]).len() > 63;
        assert(all[j] == done[j]);
    }
}

/// The wire form of a name given as bytes, or `None` where a label is longer
/// than 63 bytes.
pub fn encode_name(name: &[u8]) -> (res: Option<Vec<u8>>)
    ensures
        match res {
            Some(wire) => name_fits(name@) && wire@ == name_wire(name@),
            None => !name_fits(name@),
        },
{
    let n: usize = name.len();
    let mut out: Vec<u8> = Vec::new();
    let mut short = true;
    let mut at: usize = 0;
    let mut k: usize = 0;
    let ghost mut done: Seq<Seq<u8>> = Seq::empty();
    assert(name@.take(0) =~= Seq::<u8>::empty());
    assert(seq![Seq::<u8>::empty()] =~= done.push(name@.subrange(0, 0)));
    while k < n
        invariant
            n == name@.len(),
            at <= k <= n,
            split_labels(name@.take(k as int)) == done.push(name@.subrange(at as int, k as int)),
            short == labels_short(done),
            short ==> out@ == labels_wire(done),
        decreases n - k,
    {
        proof {
            let s = name@.take(k + 1);
            assert(s.drop_last() =~= name@.take(k as int));
            assert(s.last() == name@[k as int]);
            let cur = name@.subrange(at as int, k as int);
            assert(done.push(cur).drop_last() =~= done);
            assert(cur.push(name@[k as int]) =~= name@.subrange(at as int, k + 1));
            assert(name@.subrange(k + 1, k + 1) =~= Seq::<u8>::empty());
        }
        if name[k] == DOT {
            let label = slice_subrange(name, at, k);
            proof {
                lemma_short_push(done, label@);
            }
            if k - at > MAX_LABEL {
                short = false;
            } else if short {
                out.push((k - at) as u8);
                out.extend_from_slice(label);
            }
            proof {
                done = done.push(label@);
            }
            at = k + 1;
        }
        k += 1;
    }
    let label = slice_subrange(name, at, n);
    proof {
        assert(name@.take(n as int) =~= name@);
        assert(done.push(label@).drop_last() =~= done);
        lemma_short_push(done, label@);
    }
    if !short || n - at > MAX_LABEL {
        return None;
    }
    out.push((n - at) as u8);
    out.extend_from_slice(label);
    out.push(0);
    Some(out)
}

} // verus!
