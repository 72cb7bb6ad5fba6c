use vstd::prelude::*;
use vstd::slice::slice_subrange;
use vstd::utf8::{encode_utf8, is_ascii_chars, is_ascii_chars_encode_utf8};
use crate::byte_packet_buffer::{
    be32, contains, lemma_contains_both, lemma_wrote_contains, u16_wire, u32_wire,
    BytePacketBuffer,
};
use crate::dns_header::{lemma_header_parse, lemma_u16_round_trip, DnsHeader};
use crate::dns_packet::{
    questions_at, questions_attempt, records_at, records_attempt, section_count, PacketView,
};
use crate::dns_question::QuestionView;
use crate::dns_record::{Ipv4Address, RecordView};
use crate::error::DnsError;
use crate::qname::{
    append_label, ascii_text, is_ascii_byte, is_plain_byte, is_plain_char, label_text,
    labels_wire, lower_text, name_fits, name_text, name_wire, plain_bytes, plain_chars,
    read_name, split_labels, walk_name, NameWalk, DOT, MAX_LABEL,
};
use crate::query_type::QueryType;
use crate::wire::{name_attempt, Attempt, Parse};

verus! {

/// Every label has at least one byte and at most 63.
pub open spec fn labels_plain(labels: Seq<Seq<u8>>) -> bool {
    forall|i: int| 0 <= i < labels.len() ==> 1 <= (#[trigger] labels[i]).len() <= 63
}

/// A name that reading gives back as it was written: none of its labels is
/// empty or longer than 63 bytes, and its text is the text that the reader
/// makes of its labels.
pub open spec fn name_round_trips(name: Seq<char>) -> bool {
    &&& labels_plain(split_labels(encode_utf8(name)))
    &&& name_text(split_labels(encode_utf8(name))) == name
}

/// Plain labels stay plain when a plain label is added, and only then.
proof fn lemma_plain_push(done: Seq<Seq<u8>>, label: Seq<u8>)
    ensures
        labels_plain(done.push(label)) == (labels_plain(done) && 1 <= label.len() <= 63),
{
    let all = done.push(label);
    if labels_plain(done) && 1 <= label.len() <= 63 {
        assert forall|i: int| 0 <= i < all.len() implies 1 <= (#[trigger] all[i]).len() <= 63 by {
            if i < done.len() {
                assert(all[i] == done[i]);
            }
        }
    } else if labels_plain(done) {
        assert(!(1 <= all[done.len() as int].len() <= 63));
    } else {
        let j = choose|j: int| 0 <= j < done.len() && !(1 <= (#[trigger] done[j]).len() <= 63);
        assert(all[j] == done[j]);
    }
}

/// Tests whether `name` is a name that reading gives back as it was
/// written.
pub fn name_reads_back(name: &str) -> (res: bool)
    ensures
        res == name_round_trips(name@),
{
    let bytes = name.as_bytes();
    let n: usize = bytes.len();
    let mut text = String::new();
    let mut plain = true;
    let mut at: usize = 0;
    let mut k: usize = 0;
    let ghost mut done: Seq<Seq<u8>> = Seq::empty();
    proof {
        assert(bytes@.take(0) =~= Seq::<u8>::empty());
        assert(seq![Seq::<u8>::empty()] =~= done.push(bytes@.subrange(0, 0)));
        assert(text@ =~= Seq::<char>::empty() + name_text(done));
    }
    while k < n
        invariant
            n == bytes@.len(),
            at <= k <= n,
            split_labels(bytes@.take(k as int)) == done.push(bytes@.subrange(at as int, k as int)),
            plain == labels_plain(done),
            (at == 0) == (done.len() == 0),
            text@ == Seq::<char>::empty() + name_text(done),
        decreases n - k,
    {
        proof {
            let s = bytes@.take(k + 1);
            let cur = bytes@.subrange(at as int, k as int);
            assert(s.drop_last() =~= bytes@.take(k as int));
            assert(s.last() == bytes@[k as int]);
            assert(done.push(cur).drop_last() =~= done);
            assert(cur.push(bytes@[k as int]) =~= bytes@.subrange(at as int, k + 1));
            assert(bytes@.subrange(k + 1, k + 1) =~= Seq::<u8>::empty());
        }
        if bytes[k] == DOT {
            let label = slice_subrange(bytes, at, k);
            append_label(&mut text, label, Ghost(Seq::empty()), Ghost(done), at == 0);
            if k - at < 1 || k - at > MAX_LABEL {
                plain = false;
            }
            proof {
                lemma_plain_push(done, label@);
                done = done.push(label@);
            }
            at = k + 1;
        }
        k += 1;
    }
    let label = slice_subrange(bytes, at, n);
    append_label(&mut text, label, Ghost(Seq::empty()), Ghost(done), at == 0);
    proof {
        assert(bytes@.take(n as int) =~= bytes@);
        lemma_plain_push(done, label@);
        assert(text@ =~= name_text(done.push(label@)));
    }
    plain && n - at >= 1 && n - at <= MAX_LABEL && text == name.to_owned()
}

/// A question that reading gives back as it was written: its name is such a
/// name, and its type is the one that its code stands for.
pub open spec fn question_round_trips(question: QuestionView) -> bool {
    &&& name_round_trips(question.name)
    &&& QueryType::of_code(question.qtype.code()) == question.qtype
}

/// A record that reading gives back as it was written: an address record
/// whose name is such a name.
pub open spec fn record_round_trips(record: RecordView) -> bool {
    &&& record is A
    &&& name_round_trips(record->A_domain)
}

/// A message that reading gives back as it was written.
pub open spec fn packet_round_trips(packet: PacketView) -> bool {
    &&& packet.header.wf()
    &&& forall|i: int|
        0 <= i < packet.questions.len() ==> question_round_trips(#[trigger] packet.questions[i])
    &&& forall|i: int|
        0 <= i < packet.answers.len() ==> record_round_trips(#[trigger] packet.answers[i])
    &&& forall|i: int|
        0 <= i < packet.authorities.len() ==> record_round_trips(#[trigger] packet.authorities[i])
    &&& forall|i: int|
        0 <= i < packet.resources.len() ==> record_round_trips(#[trigger] packet.resources[i])
}

/// A name of ASCII without a capital letter, none of whose labels is empty
/// or longer than 63 bytes.
pub open spec fn name_is_plain(name: Seq<char>) -> bool {
    &&& plain_chars(name)
    &&& labels_plain(split_labels(encode_utf8(name)))
}

/// A question with such a name, and with the type that its code stands
/// for.
pub open spec fn question_is_plain(question: QuestionView) -> bool {
    &&& name_is_plain(question.name)
    &&& QueryType::of_code(question.qtype.code()) == question.qtype
}

/// An address record with such a name.
pub open spec fn record_is_plain(record: RecordView) -> bool {
    &&& record is A
    &&& name_is_plain(record->A_domain)
}

/// A message whose header has an opcode of four bits, whose questions are
/// plain, and whose records are all plain address records.
pub open spec fn packet_is_plain(packet: PacketView) -> bool {
    &&& packet.header.wf()
    &&& forall|i: int|
        0 <= i < packet.questions.len() ==> question_is_plain(#[trigger] packet.questions[i])
    &&& forall|i: int|
        0 <= i < packet.answers.len() ==> record_is_plain(#[trigger] packet.answers[i])
    &&& forall|i: int|
        0 <= i < packet.authorities.len() ==> record_is_plain(#[trigger] packet.authorities[i])
    &&& forall|i: int|
        0 <= i < packet.resources.len() ==> record_is_plain(#[trigger] packet.resources[i])
}

/// The text of a label of ASCII without a capital letter is the label
/// byte by byte.
pub proof fn lemma_plain_label_text(label: Seq<u8>)
    requires
        plain_bytes(label),
    ensures
        label_text(label) == ascii_text(label),
{
    assert forall|i: int| 0 <= i < label.len() implies is_ascii_byte(#[trigger] label[i]) by {
        assert(is_plain_byte(label[i]));
    }
    assert forall|i: int| 0 <= i < label.len() implies lower_text(ascii_text(label))[i]
        == ascii_text(label)[i] by {
        assert(is_plain_byte(label[i]));
    }
    assert(lower_text(ascii_text(label)) =~= ascii_text(label));
}

/// The text of the labels of a name of ASCII without a capital letter,
/// joined by dots, is the name byte by byte.
pub proof fn lemma_split_text(bytes: Seq<u8>)
    requires
        plain_bytes(bytes),
    ensures
        split_labels(bytes).len() >= 1,
        plain_bytes(split_labels(bytes).last()),
        name_text(split_labels(bytes)) == ascii_text(bytes),
    decreases bytes.len(),
{
    if bytes.len() == 0 {
        lemma_plain_label_text(bytes);
        assert(name_text(split_labels(bytes)) =~= ascii_text(bytes));
    } else {
        let front = bytes.drop_last();
        let byte = bytes.last();
        assert(plain_bytes(front)) by {
            assert forall|i: int| 0 <= i < front.len() implies is_plain_byte(
                #[trigger] front[i],
            ) by {
                assert(front[i] == bytes[i]);
            }
        }
        lemma_split_text(front);
        let before = split_labels(front);
        let labels = split_labels(bytes);
        assert(ascii_text(bytes) =~= ascii_text(front).push(byte as char));
        if byte == DOT {
            assert(labels == before.push(Seq::<u8>::empty()));
            assert(labels.drop_last() =~= before);
            lemma_plain_label_text(Seq::<u8>::empty());
            lemma_plain_label_text(before.last());
            assert(ascii_text(Seq::<u8>::empty()) =~= Seq::<char>::empty());
            assert(byte as char == '.');
            assert(name_text(labels) =~= ascii_text(bytes));
        } else {
            let label = before.last().push(byte);
            assert(labels == before.drop_last().push(label));
            assert(is_plain_byte(bytes[bytes.len() - 1]));
            assert(plain_bytes(label)) by {
                assert forall|i: int| 0 <= i < label.len() implies is_plain_byte(
                    #[trigger] label[i],
                ) by {
                    if i < before.last().len() {
                        assert(label[i] == before.last()[i]);
                    }
                }
            }
            lemma_plain_label_text(label);
            lemma_plain_label_text(before.last());
            assert(ascii_text(label) =~= ascii_text(before.last()).push(byte as char));
            assert(labels.drop_last() =~= before.drop_last());
            assert(labels.last() == label);
            assert(name_text(labels) =~= ascii_text(bytes));
        }
    }
}

/// A plain name round-trips: reading gives it back as it was written.
pub proof fn lemma_plain_name_round_trips(name: Seq<char>)
    requires
        name_is_plain(name),
    ensures
        name_round_trips(name),
{
    assert(is_ascii_chars(name)) by {
        assert forall|i: int| 0 <= i < name.len() implies '\0' <= #[trigger] name[i]
            <= '\u{7f}' by {
            assert(is_plain_char(name[i]));
        }
    }
    is_ascii_chars_encode_utf8(name);
    let bytes = encode_utf8(name);
    assert(plain_bytes(bytes)) by {
        assert forall|i: int| 0 <= i < bytes.len() implies is_plain_byte(#[trigger] bytes[i]) by {
            assert(is_plain_char(name[i]));
            assert(name[i] as u8 == bytes[i]);
        }
    }
    lemma_split_text(bytes);
    assert(ascii_text(bytes) =~= name) by {
        assert forall|i: int| 0 <= i < name.len() implies ascii_text(bytes)[i] == name[i] by {
            assert(is_plain_char(name[i]));
            assert(name[i] as u8 == bytes[i]);
        }
    }
}

/// A plain message round-trips.
pub proof fn lemma_plain_packet_round_trips(packet: PacketView)
    requires
        packet_is_plain(packet),
    ensures
        packet_round_trips(packet),
{
    assert forall|i: int| 0 <= i < packet.questions.len() implies question_round_trips(
        #[trigger] packet.questions[i],
    ) by {
        assert(question_is_plain(packet.questions[i]));
        lemma_plain_name_round_trips(packet.questions[i].name);
    }
    assert forall|i: int| 0 <= i < packet.answers.len() implies record_round_trips(
        #[trigger] packet.answers[i],
    ) by {
        assert(record_is_plain(packet.answers[i]));
        lemma_plain_name_round_trips(packet.answers[i]->A_domain);
    }
    assert forall|i: int| 0 <= i < packet.authorities.len() implies record_round_trips(
        #[trigger] packet.authorities[i],
    ) by {
        assert(record_is_plain(packet.authorities[i]));
        lemma_plain_name_round_trips(packet.authorities[i]->A_domain);
    }
    assert forall|i: int| 0 <= i < packet.resources.len() implies record_round_trips(
        #[trigger] packet.resources[i],
    ) by {
        assert(record_is_plain(packet.resources[i]));
        lemma_plain_name_round_trips(packet.resources[i]->A_domain);
    }
}

/// The four bytes of a 32-bit value give the value back.
pub proof fn lemma_u32_round_trip(val: u32)
    ensures
        u32_wire(val).len() == 4,
        be32(u32_wire(val)[0], u32_wire(val)[1], u32_wire(val)[2], u32_wire(val)[3]) == val,
{
    assert(((((((val >> 24) & 0xFF) as u8) as u32) << 24) | (((((val >> 16) & 0xFF) as u8) as u32)
        << 16) | (((((val >> 8) & 0xFF) as u8) as u32) << 8) | (((val & 0xFF) as u8) as u32))
        == val) by (bit_vector);
}

/// The four octets of an address, read as a 32-bit value, give the address
/// back.
pub proof fn lemma_address_round_trip(addr: Ipv4Address)
    ensures
        Ipv4Address::of_bits(be32(addr.a, addr.b, addr.c, addr.d)) == addr,
{
    let a = addr.a;
    let b = addr.b;
    let c = addr.c;
    let d = addr.d;
    assert((((((a as u32) << 24) | ((b as u32) << 16) | ((c as u32) << 8) | (d as u32)) >> 24)
        & 0xFF) as u8 == a) by (bit_vector);
    assert((((((a as u32) << 24) | ((b as u32) << 16) | ((c as u32) << 8) | (d as u32)) >> 16)
        & 0xFF) as u8 == b) by (bit_vector);
    assert((((((a as u32) << 24) | ((b as u32) << 16) | ((c as u32) << 8) | (d as u32)) >> 8)
        & 0xFF) as u8 == c) by (bit_vector);
    assert(((((a as u32) << 24) | ((b as u32) << 16) | ((c as u32) << 8) | (d as u32)) & 0xFF) as u8
        == d) by (bit_vector);
}

/// The labels on the wire start with the first label.
proof fn lemma_labels_wire_front(labels: Seq<Seq<u8>>)
    requires
        labels.len() > 0,
    ensures
        labels_wire(labels) == seq![labels[0].len() as u8] + labels[0] + labels_wire(
            labels.skip(1),
        ),
    decreases labels.len(),
{
    if labels.len() == 1 {
        assert(labels.drop_last() =~= Seq::<Seq<u8>>::empty());
        assert(labels.skip(1) =~= Seq::<Seq<u8>>::empty());
        assert(labels_wire(labels) =~= seq![labels[0].len() as u8] + labels[0] + labels_wire(
            labels.skip(1),
        ));
    } else {
        lemma_labels_wire_front(labels.drop_last());
        assert(labels.skip(1).drop_last() =~= labels.drop_last().skip(1));
        assert(labels.skip(1).last() == labels.last());
        assert(labels.drop_last()[0] == labels[0]);
        assert(labels_wire(labels) =~= seq![labels[0].len() as u8] + labels[0] + labels_wire(
            labels.skip(1),
        ));
    }
}

proof fn lemma_length_is_no_pointer(len: u8)
    by (bit_vector)
    requires
        len <= 63,
    ensures
        (len & 0xC0) != 0xC0,
{
}

/// Reading where the wire form of plain labels stands gives those labels
/// and ends behind them.
pub proof fn lemma_walk_labels(buf: Seq<u8>, cursor: int, pos: int, labels: Seq<Seq<u8>>)
    requires
        buf.len() == 512,
        labels_plain(labels),
        contains(buf, pos, labels_wire(labels) + seq![0u8]),
        pos + labels_wire(labels).len() + 1 <= 512,
    ensures
        walk_name(buf, cursor, pos, 0) == (NameWalk {
            labels,
            cursor: pos + labels_wire(labels).len() + 1,
            jumps: 0,
            status: Ok(()),
        }),
    decreases labels.len(),
{
    let wire = labels_wire(labels) + seq![0u8];
    assert(buf[pos + 0] == wire[0]);
    if labels.len() == 0 {
        lemma_length_is_no_pointer(0);
        assert(wire[0] == 0);
        assert(walk_name(buf, cursor, pos, 0).labels =~= labels);
    } else {
        lemma_labels_wire_front(labels);
        let first = labels[0];
        let rest = labels.skip(1);
        let len = first.len() as u8;
        assert(1 <= first.len() <= 63);
        lemma_length_is_no_pointer(len);
        assert(wire =~= (seq![len] + first) + (labels_wire(rest) + seq![0u8]));
        lemma_contains_both(buf, pos, seq![len] + first, labels_wire(rest) + seq![0u8]);
        lemma_contains_both(buf, pos, seq![len], first);
        assert(wire[0] == len);
        let end = pos + 1 + len;
        assert(buf.subrange(pos + 1, end) =~= first) by {
            assert forall|i: int| 0 <= i < first.len() implies buf[pos + 1 + i] == first[i] by {
                assert(buf[pos + 1 + i] == first[i]);
            }
        }
        assert(labels_plain(rest)) by {
            assert forall|i: int| 0 <= i < rest.len() implies 1 <= (#[trigger] rest[i]).len()
                <= 63 by {
                assert(rest[i] == labels[i + 1]);
            }
        }
        lemma_walk_labels(buf, cursor, end, rest);
        assert(seq![first] + rest =~= labels);
    }
}

/// Reading where a name that round-trips was written gives its text and
/// ends behind it.
pub proof fn lemma_name_round_trip(buf: Seq<u8>, pos: int, name: Seq<char>)
    requires
        buf.len() == 512,
        name_round_trips(name),
        contains(buf, pos, name_wire(encode_utf8(name))),
        pos + name_wire(encode_utf8(name)).len() <= 512,
    ensures
        name_fits(encode_utf8(name)),
        name_attempt(name) == Attempt::whole(name_wire(encode_utf8(name))),
        name_wire(encode_utf8(name)).len() >= 1,
        read_name(buf, pos).status == Ok::<(), DnsError>(()),
        read_name(buf, pos).cursor == pos + name_wire(encode_utf8(name)).len(),
        name_text(read_name(buf, pos).labels) == name,
{
    lemma_walk_labels(buf, pos, pos, split_labels(encode_utf8(name)));
}

/// A question that round-trips is written as a whole.
pub proof fn lemma_question_whole(question: QuestionView)
    requires
        question_round_trips(question),
    ensures
        question.attempt().complete,
        question.attempt().bytes == name_wire(encode_utf8(question.name)) + (u16_wire(
            question.qtype.code(),
        ) + u16_wire(1)),
        question.attempt().bytes.len() >= 5,
{
}

/// Reading where a question that round-trips was written gives the
/// question and ends behind it.
pub proof fn lemma_question_round_trip(buf: Seq<u8>, pos: int, question: QuestionView)
    requires
        buf.len() == 512,
        question_round_trips(question),
        contains(buf, pos, question.attempt().bytes),
    ensures
        QuestionView::parse(buf, pos) == (Parse {
            value: Ok::<QuestionView, DnsError>(question),
            end: pos + question.attempt().bytes.len(),
        }),
{
    lemma_question_whole(question);
    let name = name_wire(encode_utf8(question.name));
    let tail = u16_wire(question.qtype.code()) + u16_wire(1);
    lemma_contains_both(buf, pos, name, tail);
    lemma_name_round_trip(buf, pos, question.name);
    lemma_u16_round_trip(question.qtype.code());
    let at = pos + name.len();
    assert(buf[at + 0] == tail[0]);
    assert(buf[at + 1] == tail[1]);
}

/// A record that round-trips is written as a whole.
pub proof fn lemma_record_whole(record: RecordView)
    requires
        record_round_trips(record),
    ensures
        record.attempt().complete,
        record.attempt().bytes == name_wire(encode_utf8(record->A_domain)) + (u16_wire(1)
            + u16_wire(1) + u32_wire(record->A_ttl) + u16_wire(4) + record->A_addr.wire()),
        record.attempt().bytes.len() >= 15,
{
}

/// Reading where a record that round-trips was written gives the record
/// and ends behind it.
pub proof fn lemma_record_round_trip(buf: Seq<u8>, pos: int, record: RecordView)
    requires
        buf.len() == 512,
        record_round_trips(record),
        contains(buf, pos, record.attempt().bytes),
    ensures
        RecordView::parse(buf, pos) == (Parse {
            value: Ok::<RecordView, DnsError>(record),
            end: pos + record.attempt().bytes.len(),
        }),
{
    lemma_record_whole(record);
    let domain = record->A_domain;
    let ttl = record->A_ttl;
    let addr = record->A_addr;
    let name = name_wire(encode_utf8(domain));
    let tail = u16_wire(1) + u16_wire(1) + u32_wire(ttl) + u16_wire(4) + addr.wire();
    lemma_contains_both(buf, pos, name, tail);
    lemma_name_round_trip(buf, pos, domain);
    lemma_u16_round_trip(1);
    lemma_u16_round_trip(4);
    lemma_u32_round_trip(ttl);
    lemma_address_round_trip(addr);
    let at = pos + name.len();
    assert(tail.len() == 14);
    assert forall|k: int| 0 <= k < 14 implies buf[at + k] == tail[k] by {
        assert(buf[at + k] == tail[k]);
    }
    assert(tail[0] == u16_wire(1)[0] && tail[1] == u16_wire(1)[1]);
    assert(tail[4] == u32_wire(ttl)[0] && tail[5] == u32_wire(ttl)[1] && tail[6] == u32_wire(
        ttl,
    )[2] && tail[7] == u32_wire(ttl)[3]);
    assert(tail[8] == u16_wire(4)[0] && tail[9] == u16_wire(4)[1]);
    assert(tail[10] == addr.a && tail[11] == addr.b && tail[12] == addr.c && tail[13] == addr.d);
}

/// Reading where questions that round-trip were written gives the
/// questions and ends behind them.
pub proof fn lemma_questions_round_trip(buf: Seq<u8>, pos: int, questions: Seq<QuestionView>)
    requires
        buf.len() == 512,
        forall|i: int| 0 <= i < questions.len() ==> question_round_trips(#[trigger] questions[i]),
        questions_attempt(questions).complete ==> contains(
            buf,
            pos,
            questions_attempt(questions).bytes,
        ),
    ensures
        questions_attempt(questions).complete,
        questions_attempt(questions).bytes.len() >= questions.len(),
        questions_at(buf, pos, questions.len()) == (Parse {
            value: Ok::<Seq<QuestionView>, DnsError>(questions),
            end: pos + questions_attempt(questions).bytes.len(),
        }),
    decreases questions.len(),
{
    if questions.len() == 0 {
        assert(questions =~= Seq::<QuestionView>::empty());
    } else {
        let first = questions[0];
        let rest = questions.skip(1);
        lemma_question_whole(first);
        assert forall|i: int| 0 <= i < rest.len() implies question_round_trips(
            #[trigger] rest[i],
        ) by {
            assert(rest[i] == questions[i + 1]);
        }
        lemma_questions_whole(rest);
        lemma_contains_both(buf, pos, first.attempt().bytes, questions_attempt(rest).bytes);
        lemma_question_round_trip(buf, pos, first);
        lemma_questions_round_trip(buf, pos + first.attempt().bytes.len(), rest);
        assert(seq![first] + rest =~= questions);
    }
}

/// Questions that round-trip are written as a whole.
pub proof fn lemma_questions_whole(questions: Seq<QuestionView>)
    requires
        forall|i: int| 0 <= i < questions.len() ==> question_round_trips(#[trigger] questions[i]),
    ensures
        questions_attempt(questions).complete,
    decreases questions.len(),
{
    if questions.len() > 0 {
        let rest = questions.skip(1);
        lemma_question_whole(questions[0]);
        assert forall|i: int| 0 <= i < rest.len() implies question_round_trips(
            #[trigger] rest[i],
        ) by {
            assert(rest[i] == questions[i + 1]);
        }
        lemma_questions_whole(rest);
    }
}

/// Records that round-trip are written as a whole.
pub proof fn lemma_records_whole(records: Seq<RecordView>)
    requires
        forall|i: int| 0 <= i < records.len() ==> record_round_trips(#[trigger] records[i]),
    ensures
        records_attempt(records).complete,
    decreases records.len(),
{
    if records.len() > 0 {
        let rest = records.skip(1);
        lemma_record_whole(records[0]);
        assert forall|i: int| 0 <= i < rest.len() implies record_round_trips(#[trigger] rest[i]) by {
            assert(rest[i] == records[i + 1]);
        }
        lemma_records_whole(rest);
    }
}

/// Reading where records that round-trip were written gives the records
/// and ends behind them.
pub proof fn lemma_records_round_trip(buf: Seq<u8>, pos: int, records: Seq<RecordView>)
    requires
        buf.len() == 512,
        forall|i: int| 0 <= i < records.len() ==> record_round_trips(#[trigger] records[i]),
        records_attempt(records).complete ==> contains(buf, pos, records_attempt(records).bytes),
    ensures
        records_attempt(records).complete,
        records_attempt(records).bytes.len() >= records.len(),
        records_at(buf, pos, records.len()) == (Parse {
            value: Ok::<Seq<RecordView>, DnsError>(records),
            end: pos + records_attempt(records).bytes.len(),
        }),
    decreases records.len(),
{
    if records.len() == 0 {
        assert(records =~= Seq::<RecordView>::empty());
    } else {
        let first = records[0];
        let rest = records.skip(1);
        lemma_record_whole(first);
        assert forall|i: int| 0 <= i < rest.len() implies record_round_trips(#[trigger] rest[i]) by {
            assert(rest[i] == records[i + 1]);
        }
        lemma_records_whole(rest);
        lemma_contains_both(buf, pos, first.attempt().bytes, records_attempt(rest).bytes);
        lemma_record_round_trip(buf, pos, first);
        lemma_records_round_trip(buf, pos + first.attempt().bytes.len(), rest);
        assert(seq![first] + rest =~= records);
    }
}

/// A message that round-trips is written as a whole: its header, and each
/// of its sections behind it.
pub proof fn lemma_packet_whole(packet: PacketView)
    requires
        packet_round_trips(packet),
    ensures
        packet.attempt().complete,
        packet.attempt().bytes == packet.header.wire() + (questions_attempt(
            packet.questions,
        ).bytes + (records_attempt(packet.answers).bytes + (records_attempt(
            packet.authorities,
        ).bytes + records_attempt(packet.resources).bytes))),
{
    lemma_questions_whole(packet.questions);
    lemma_records_whole(packet.answers);
    lemma_records_whole(packet.authorities);
    lemma_records_whole(packet.resources);
}

/// Reading where the four sections of a message that round-trips stand
/// gives each of them and ends behind the last.
proof fn lemma_sections_parse(buf: Seq<u8>, at: int, packet: PacketView)
    requires
        buf.len() == 512,
        packet_round_trips(packet),
        contains(
            buf,
            at,
            questions_attempt(packet.questions).bytes + (records_attempt(packet.answers).bytes + (
            records_attempt(packet.authorities).bytes + records_attempt(packet.resources).bytes)),
        ),
    ensures
        ({
            let q = questions_attempt(packet.questions).bytes.len();
            let an = records_attempt(packet.answers).bytes.len();
            let au = records_attempt(packet.authorities).bytes.len();
            let re = records_attempt(packet.resources).bytes.len();
            &&& q >= packet.questions.len()
            &&& an >= packet.answers.len()
            &&& au >= packet.authorities.len()
            &&& re >= packet.resources.len()
            &&& at + q + an + au + re <= 512
            &&& questions_at(buf, at, packet.questions.len()) == (Parse {
                value: Ok::<Seq<QuestionView>, DnsError>(packet.questions),
                end: at + q,
            })
            &&& records_at(buf, at + q, packet.answers.len()) == (Parse {
                value: Ok::<Seq<RecordView>, DnsError>(packet.answers),
                end: at + q + an,
            })
            &&& records_at(buf, at + q + an, packet.authorities.len()) == (Parse {
                value: Ok::<Seq<RecordView>, DnsError>(packet.authorities),
                end: at + q + an + au,
            })
            &&& records_at(buf, at + q + an + au, packet.resources.len()) == (Parse {
                value: Ok::<Seq<RecordView>, DnsError>(packet.resources),
                end: at + q + an + au + re,
            })
        }),
{
    let q = questions_attempt(packet.questions).bytes;
    let an = records_attempt(packet.answers).bytes;
    let au = records_attempt(packet.authorities).bytes;
    let re = records_attempt(packet.resources).bytes;
    lemma_contains_both(buf, at, q, an + (au + re));
    lemma_questions_round_trip(buf, at, packet.questions);
    lemma_contains_both(buf, at + q.len(), an, au + re);
    lemma_records_round_trip(buf, at + q.len(), packet.answers);
    lemma_contains_both(buf, at + q.len() + an.len(), au, re);
    lemma_records_round_trip(buf, at + q.len() + an.len(), packet.authorities);
    lemma_records_round_trip(buf, at + q.len() + an.len() + au.len(), packet.resources);
}

/// A message is read where its header stands and its sections are read
/// one behind the other.
proof fn lemma_packet_assemble(
    buf: Seq<u8>,
    pos: int,
    packet: PacketView,
    q: int,
    an: int,
    au: int,
    re: int,
)
    requires
        pos + 12 <= 512,
        DnsHeader::parse(buf, pos) == packet.header,
        packet.header.questions as nat == packet.questions.len(),
        packet.header.answers as nat == packet.answers.len(),
        packet.header.authoritative_entries as nat == packet.authorities.len(),
        packet.header.resource_entries as nat == packet.resources.len(),
        questions_at(buf, pos + 12, packet.questions.len()) == (Parse {
            value: Ok::<Seq<QuestionView>, DnsError>(packet.questions),
            end: pos + 12 + q,
        }),
        records_at(buf, pos + 12 + q, packet.answers.len()) == (Parse {
            value: Ok::<Seq<RecordView>, DnsError>(packet.answers),
            end: pos + 12 + q + an,
        }),
        records_at(buf, pos + 12 + q + an, packet.authorities.len()) == (Parse {
            value: Ok::<Seq<RecordView>, DnsError>(packet.authorities),
            end: pos + 12 + q + an + au,
        }),
        records_at(buf, pos + 12 + q + an + au, packet.resources.len()) == (Parse {
            value: Ok::<Seq<RecordView>, DnsError>(packet.resources),
            end: pos + 12 + q + an + au + re,
        }),
    ensures
        PacketView::parse(buf, pos) == (Parse {
            value: Ok::<PacketView, DnsError>(packet),
            end: pos + 12 + q + an + au + re,
        }),
{
    reveal(PacketView::parse);
}

/// Reading where a message that round-trips stands gives the message and
/// ends behind it.
#[verifier::rlimit(50)]
pub proof fn lemma_packet_parse(buf: Seq<u8>, pos: int, packet: PacketView)
    requires
        buf.len() == 512,
        packet_round_trips(packet),
        packet == packet.counted(),
        contains(buf, pos, packet.attempt().bytes),
    ensures
        PacketView::parse(buf, pos) == (Parse {
            value: Ok::<PacketView, DnsError>(packet),
            end: pos + packet.attempt().bytes.len(),
        }),
        packet.header.questions == packet.questions.len(),
        packet.header.answers == packet.answers.len(),
        packet.header.authoritative_entries == packet.authorities.len(),
        packet.header.resource_entries == packet.resources.len(),
{
    let head = packet.header.wire();
    let q = questions_attempt(packet.questions).bytes;
    let an = records_attempt(packet.answers).bytes;
    let au = records_attempt(packet.authorities).bytes;
    let re = records_attempt(packet.resources).bytes;
    let rest = q + (an + (au + re));
    assert(head.len() == 12);
    assert(contains(buf, pos, head) && contains(buf, pos + 12, rest)
        && packet.attempt().bytes.len() == 12 + rest.len()) by {
        lemma_packet_whole(packet);
        lemma_contains_both(buf, pos, head, rest);
    }
    assert(DnsHeader::parse(buf, pos) == packet.header) by {
        lemma_header_parse(buf, pos, packet.header);
    }
    lemma_sections_parse(buf, pos + 12, packet);
    assert(rest.len() == q.len() + an.len() + au.len() + re.len());
    assert(packet.header.questions as nat == packet.questions.len()
        && packet.header.answers as nat == packet.answers.len()
        && packet.header.authoritative_entries as nat == packet.authorities.len()
        && packet.header.resource_entries as nat == packet.resources.len()) by {
        assert(packet.header.questions == section_count(packet.questions.len()));
        assert(packet.header.answers == section_count(packet.answers.len()));
        assert(packet.header.authoritative_entries == section_count(packet.authorities.len()));
        assert(packet.header.resource_entries == section_count(packet.resources.len()));
    }
    lemma_packet_assemble(
        buf,
        pos,
        packet,
        q.len() as int,
        an.len() as int,
        au.len() as int,
        re.len() as int,
    );
}

/// A message that was written is read back unchanged.
///
/// Let `packet` be a message whose names round-trip, whose questions carry
/// types that their codes stand for, and whose records are all address
/// records. Writing sets the numbers in its header to the lengths of its
/// sections. Where `after` is the buffer in which it was so written at the
/// position of `before`, with room for all its bytes, the writing
/// succeeded, and reading at that position in `after` gives the message
/// with those numbers, and ends behind its last byte.
pub proof fn lemma_packet_round_trip(
    packet: PacketView,
    before: BytePacketBuffer,
    after: BytePacketBuffer,
)
    requires
        packet_round_trips(packet),
        before.pos + packet.counted().attempt().bytes.len() <= 512,
        after.wrote(&before, packet.counted().attempt().bytes),
    ensures
        packet.counted().attempt().outcome(&before) == Ok::<(), DnsError>(()),
        PacketView::parse(after.buf@, before.pos as int) == (Parse {
            value: Ok::<PacketView, DnsError>(packet.counted()),
            end: before.pos + packet.counted().attempt().bytes.len(),
        }),
        packet.counted().header.questions == packet.questions.len(),
        packet.counted().header.answers == packet.answers.len(),
        packet.counted().header.authoritative_entries == packet.authorities.len(),
        packet.counted().header.resource_entries == packet.resources.len(),
{
    let counted = packet.counted();
    assert(counted == counted.counted());
    lemma_packet_whole(counted);
    lemma_wrote_contains(before, after, counted.attempt().bytes);
    lemma_packet_parse(after.buf@, before.pos as int, counted);
}

/// A plain message that was written is read back unchanged.
///
/// Let `packet` be a message whose names are ASCII without capital
/// letters, in labels of 1 to 63 bytes, whose questions carry types that
/// their codes stand for, and whose records are all address records.
/// Where `after` is the buffer in which it was written at the position of
/// `before`, with room for all its bytes, the writing succeeded, and
/// reading at that position in `after` gives the message, with the
/// numbers in its header set to the lengths of its sections, and ends
/// behind its last byte.
pub proof fn lemma_plain_packet_round_trip(
    packet: PacketView,
    before: BytePacketBuffer,
    after: BytePacketBuffer,
)
    requires
        packet_is_plain(packet),
        before.pos + packet.counted().attempt().bytes.len() <= 512,
        after.wrote(&before, packet.counted().attempt().bytes),
    ensures
        packet.counted().attempt().outcome(&before) == Ok::<(), DnsError>(()),
        PacketView::parse(after.buf@, before.pos as int) == (Parse {
            value: Ok::<PacketView, DnsError>(packet.counted()),
            end: before.pos + packet.counted().attempt().bytes.len(),
        }),
        packet.counted().header.questions == packet.questions.len(),
        packet.counted().header.answers == packet.answers.len(),
        packet.counted().header.authoritative_entries == packet.authorities.len(),
        packet.counted().header.resource_entries == packet.resources.len(),
{
    lemma_plain_packet_round_trips(packet);
    lemma_packet_round_trip(packet, before, after);
}

} // verus!
