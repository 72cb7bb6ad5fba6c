use vstd::prelude::*;
use crate::byte_packet_buffer::{contains, BytePacketBuffer};
use crate::dns_header::DnsHeader;
use crate::dns_packet::{question_views, DnsPacket, PacketView};
use crate::dns_question::{DnsQuestion, QuestionView};
use crate::dns_record::RecordView;
use crate::error::DnsError;
use crate::query_type::QueryType;
use crate::result_code::ResultCode;
use crate::round_trip::{
    lemma_packet_parse, lemma_packet_whole, lemma_plain_packet_round_trips, packet_is_plain,
    packet_round_trips, question_is_plain, record_is_plain,
};
use crate::wire::Parse;

verus! {

/// The identifier that the queries sent upstream carry.
pub const QUERY_ID: u16 = 6666;

/// The buffer holds `bytes` from its first byte on and zeros behind them,
/// and its position is behind them.
pub open spec fn holds(buffer: &BytePacketBuffer, bytes: Seq<u8>) -> bool {
    &&& buffer.pos == bytes.len()
    &&& bytes.len() <= 512
    &&& forall|i: int|
        0 <= i < 512 ==> #[trigger] buffer.buf@[i] == if i < bytes.len() {
            bytes[i]
        } else {
            0u8
        }
}

/// The bytes of a message in a datagram of its own, with the numbers in its
/// header set to the lengths of its sections; or why it cannot be written:
/// it does not fit in 512 bytes, or, if it would, a name has a label that
/// is too long.
pub open spec fn encoding(packet: PacketView) -> Result<Seq<u8>, DnsError> {
    let attempt = packet.counted().attempt();
    if attempt.bytes.len() > 512 {
        Err(DnsError::OutOfBounds)
    } else if !attempt.complete {
        Err(DnsError::LabelTooLong)
    } else {
        Ok(attempt.bytes)
    }
}

/// The header of a response to the request `id`.
pub open spec fn response_header(id: u16, rescode: ResultCode) -> DnsHeader {
    DnsHeader {
        id,
        recursion_desired: true,
        recursion_available: true,
        response: true,
        rescode,
        ..DnsHeader::blank()
    }
}

/// The response to a request that could not be served: SERVFAIL, and no
/// entries.
pub open spec fn failure_view(id: u16) -> PacketView {
    PacketView {
        header: response_header(id, ResultCode::SERVFAIL),
        questions: Seq::empty(),
        answers: Seq::empty(),
        authorities: Seq::empty(),
        resources: Seq::empty(),
    }
}

/// The response that hands on what the upstream server replied: its
/// response code and its three sections of records, with the question that
/// was asked.
pub open spec fn relayed_view(id: u16, question: QuestionView, reply: PacketView) -> PacketView {
    PacketView {
        header: response_header(id, reply.header.rescode),
        questions: seq![question],
        answers: reply.answers,
        authorities: reply.authorities,
        resources: reply.resources,
    }
}

/// The response to the request `id` for `question`, given what came of the
/// query upstream.
pub open spec fn response_view(
    id: u16,
    question: QuestionView,
    reply: Result<PacketView, DnsError>,
) -> PacketView {
    match reply {
        Ok(reply) => relayed_view(id, question, reply),
        Err(_) => failure_view(id),
    }
}

/// The query that is sent upstream for `question`.
pub open spec fn query_view(question: QuestionView) -> PacketView {
    PacketView {
        header: DnsHeader {
            id: QUERY_ID,
            questions: 1,
            recursion_desired: true,
            ..DnsHeader::blank()
        },
        questions: seq![question],
        answers: Seq::empty(),
        authorities: Seq::empty(),
        resources: Seq::empty(),
    }
}

/// What came of a query upstream, as a value.
pub open spec fn reply_view(reply: Result<DnsPacket, DnsError>) -> Result<PacketView, DnsError> {
    match reply {
        Ok(packet) => Ok(packet@),
        Err(e) => Err(e),
    }
}

/// Writes a message into a datagram of its own.
pub fn encode(packet: &mut DnsPacket) -> (res: Result<BytePacketBuffer, DnsError>)
    ensures
        final(packet)@ == old(packet)@.counted(),
        match res {
            Ok(buffer) => encoding(old(packet)@) is Ok && holds(
                &buffer,
                encoding(old(packet)@)->Ok_0,
            ),
            Err(e) => encoding(old(packet)@) == Err::<Seq<u8>, DnsError>(e),
        },
{
    let mut buffer = BytePacketBuffer::new();
    packet.write(&mut buffer)?;
    Ok(buffer)
}

/// Reads the message that a datagram holds from its position on.
pub fn decode(datagram: &mut BytePacketBuffer) -> (res: Result<DnsPacket, DnsError>)
    ensures
        old(datagram).wf() ==> final(datagram).wf(),
        final(datagram).buf@ == old(datagram).buf@,
        final(datagram).pos == PacketView::parse(old(datagram).buf@, old(datagram).pos as int).end,
        reply_view(res) == PacketView::parse(old(datagram).buf@, old(datagram).pos as int).value,
{
    DnsPacket::from_buffer(datagram)
}

/// The query to send upstream for `qname` and `qtype`.
pub fn build_query(qname: &str, qtype: QueryType) -> (packet: DnsPacket)
    ensures
        packet@ == query_view(QuestionView { name: qname@, qtype }),
{
    let mut packet = DnsPacket::new();
    packet.header.id = QUERY_ID;
    packet.header.questions = 1;
    packet.header.recursion_desired = true;
    packet.questions.push(DnsQuestion::new(qname.to_owned(), qtype));
    proof {
        assert(question_views(packet.questions@) =~= seq![QuestionView { name: qname@, qtype }]);
        assert(packet@.answers =~= Seq::<RecordView>::empty());
        assert(packet@.authorities =~= Seq::<RecordView>::empty());
        assert(packet@.resources =~= Seq::<RecordView>::empty());
    }
    packet
}

/// The response to the request `id`, before anything is known of an
/// answer: a response that desires and offers recursion.
fn begin_response(id: u16) -> (packet: DnsPacket)
    ensures
        packet.header == response_header(id, ResultCode::NOERROR),
        packet.questions@.len() == 0,
        packet.answers@.len() == 0,
        packet.authorities@.len() == 0,
        packet.resources@.len() == 0,
{
    let mut packet = DnsPacket::new();
    packet.header.id = id;
    packet.header.recursion_desired = true;
    packet.header.recursion_available = true;
    packet.header.response = true;
    packet
}

/// The response to the request `id` for `question`, given what came of the
/// query upstream: its reply is handed on with the question; its failure
/// becomes SERVFAIL.
pub fn build_response(id: u16, question: DnsQuestion, reply: Result<DnsPacket, DnsError>) -> (packet:
    DnsPacket)
    ensures
        packet@ == response_view(id, question@, reply_view(reply)),
{
    let mut response = begin_response(id);
    match reply {
        Ok(result) => {
            response.questions.push(question);
            response.header.rescode = result.header.rescode;
            response.answers = result.answers;
            response.authorities = result.authorities;
            response.resources = result.resources;
            proof {
                assert(question_views(response.questions@) =~= seq![question@]);
            }
        },
        Err(_) => {
            response.header.rescode = ResultCode::SERVFAIL;
            proof {
                assert(response@.questions =~= Seq::<QuestionView>::empty());
                assert(response@.answers =~= Seq::<RecordView>::empty());
                assert(response@.authorities =~= Seq::<RecordView>::empty());
                assert(response@.resources =~= Seq::<RecordView>::empty());
            }
        },
    }
    response
}

/// The response to a request that cannot be served.
pub fn build_failure(id: u16) -> (packet: DnsPacket)
    ensures
        packet@ == failure_view(id),
{
    let mut response = begin_response(id);
    response.header.rescode = ResultCode::SERVFAIL;
    proof {
        assert(response@.questions =~= Seq::<QuestionView>::empty());
        assert(response@.answers =~= Seq::<RecordView>::empty());
        assert(response@.authorities =~= Seq::<RecordView>::empty());
        assert(response@.resources =~= Seq::<RecordView>::empty());
    }
    response
}

/// Where the handling of one request stands.
#[derive(Debug)]
pub enum ResolverState {
    /// No datagram has come in yet.
    AwaitingRequest,
    /// The question of the request `id` was sent upstream, and the reply is
    /// awaited.
    Forwarding { id: u16, question: DnsQuestion },
    /// The response is on its way to the requester.
    RelayingResponse,
    /// Nothing is left to do for this request.
    Done,
}

/// What happened outside.
pub enum ResolverEvent {
    /// A datagram came in from a requester.
    Request(BytePacketBuffer),
    /// The upstream server replied with a datagram.
    UpstreamReply(BytePacketBuffer),
    /// The transport failed to receive or to send a datagram.
    TransportFailure,
    /// The response was handed to the transport.
    ResponseSent,
}

/// What is to be done outside.
pub enum ResolverAction {
    /// Send the bytes before the position to the upstream server and wait
    /// for one reply.
    Forward(BytePacketBuffer),
    /// Send the bytes before the position to the requester.
    Respond(BytePacketBuffer),
    /// Send nothing, and report the error.
    Drop(DnsError),
    /// Nothing.
    Idle,
}

/// `packet` is on its way to the requester, or was dropped because it
/// cannot be written.
pub open spec fn sends(next: ResolverState, action: ResolverAction, packet: PacketView) -> bool {
    match encoding(packet) {
        Ok(bytes) => next is RelayingResponse && action is Respond && holds(
            &action->Respond_0,
            bytes,
        ),
        Err(e) => next is Done && action == ResolverAction::Drop(e),
    }
}

/// The handling of a request moves from `state` to `next` with `action`
/// when `event` happens.
///
/// A request that cannot be read is dropped. One without a question is
/// answered with SERVFAIL. Otherwise its first question is sent upstream;
/// if the query cannot be written, the answer is SERVFAIL. The reply from
/// upstream is handed on to the requester; a reply that cannot be read, or
/// a failure of the transport in its place, is answered with SERVFAIL. A
/// failure of the transport while the request is awaited or the response
/// is sent ends the handling with that error. An event that the state does
/// not wait for changes nothing.
pub open spec fn follows(
    state: ResolverState,
    event: ResolverEvent,
    next: ResolverState,
    action: ResolverAction,
) -> bool {
    match (state, event) {
        (ResolverState::AwaitingRequest, ResolverEvent::Request(datagram)) => {
            match PacketView::parse(datagram.buf@, datagram.pos as int).value {
                Err(e) => next is Done && action == ResolverAction::Drop(e),
                Ok(request) => {
                    if request.questions.len() == 0 {
                        sends(next, action, failure_view(request.header.id))
                    } else {
                        match encoding(query_view(request.questions[0])) {
                            Ok(bytes) => {
                                &&& next is Forwarding
                                &&& next->id == request.header.id
                                &&& next->question@ == request.questions[0]
                                &&& action is Forward
                                &&& holds(&action->Forward_0, bytes)
                            },
                            Err(_) => sends(next, action, failure_view(request.header.id)),
                        }
                    }
                },
            }
        },
        (ResolverState::Forwarding { id, question }, ResolverEvent::UpstreamReply(datagram)) => sends(
            next,
            action,
            response_view(
                id,
                question@,
                PacketView::parse(datagram.buf@, datagram.pos as int).value,
            ),
        ),
        (ResolverState::Forwarding { id, question }, ResolverEvent::TransportFailure) => sends(
            next,
            action,
            failure_view(id),
        ),
        (ResolverState::RelayingResponse, ResolverEvent::ResponseSent) => next is Done
            && action is Idle,
        (ResolverState::AwaitingRequest, ResolverEvent::TransportFailure) => next is Done
            && action == ResolverAction::Drop(DnsError::TransportFailure),
        (ResolverState::RelayingResponse, ResolverEvent::TransportFailure) => next is Done
            && action == ResolverAction::Drop(DnsError::TransportFailure),
        _ => next == state && action is Idle,
    }
}

/// Sends `packet` to the requester.
fn respond(packet: DnsPacket) -> (res: (ResolverState, ResolverAction))
    ensures
        sends(res.0, res.1, packet@),
{
    let mut packet = packet;
    match encode(&mut packet) {
        Ok(buffer) => (ResolverState::RelayingResponse, ResolverAction::Respond(buffer)),
        Err(e) => (ResolverState::Done, ResolverAction::Drop(e)),
    }
}

/// Takes the handling of a request one step further: what to do, and where
/// it stands after that, when `event` happens in `state`.
pub fn step(state: ResolverState, event: ResolverEvent) -> (res: (ResolverState, ResolverAction))
    ensures
        follows(state, event, res.0, res.1),
{
    match (state, event) {
        (ResolverState::AwaitingRequest, ResolverEvent::Request(datagram)) => {
            let mut datagram = datagram;
            match decode(&mut datagram) {
                Err(e) => (ResolverState::Done, ResolverAction::Drop(e)),
                Ok(request) => {
                    let id: u16 = request.header.id;
                    let mut questions = request.questions;
                    if questions.len() == 0 {
                        respond(build_failure(id))
                    } else {
                        let question = questions.remove(0);
                        let mut query = build_query(question.name.as_str(), question.qtype);
                        match encode(&mut query) {
                            Ok(buffer) => (
                                ResolverState::Forwarding { id, question },
                                ResolverAction::Forward(buffer),
                            ),
                            Err(_) => respond(build_failure(id)),
                        }
                    }
                },
            }
        },
        (ResolverState::Forwarding { id, question }, ResolverEvent::UpstreamReply(datagram)) => {
            let mut datagram = datagram;
            let reply = decode(&mut datagram);
            respond(build_response(id, question, reply))
        },
        (ResolverState::Forwarding { id, question }, ResolverEvent::TransportFailure) => {
            respond(build_failure(id))
        },
        (ResolverState::RelayingResponse, ResolverEvent::ResponseSent) => (
            ResolverState::Done,
            ResolverAction::Idle,
        ),
        (ResolverState::AwaitingRequest, ResolverEvent::TransportFailure) => (
            ResolverState::Done,
            ResolverAction::Drop(DnsError::TransportFailure),
        ),
        (ResolverState::RelayingResponse, ResolverEvent::TransportFailure) => (
            ResolverState::Done,
            ResolverAction::Drop(DnsError::TransportFailure),
        ),
        (state, _) => (state, ResolverAction::Idle),
    }
}

/// A message that round-trips is read from its datagram as it was written
/// there: where `datagram` holds the bytes of `packet`, reading it from its
/// first byte gives `packet`, with the numbers in its header set to the
/// lengths of its sections, and ends behind the last of the bytes.
pub proof fn lemma_encode_decode(packet: PacketView, datagram: BytePacketBuffer)
    requires
        packet_round_trips(packet),
        encoding(packet) is Ok,
        holds(&datagram, encoding(packet)->Ok_0),
    ensures
        PacketView::parse(datagram.buf@, 0) == (Parse {
            value: Ok::<PacketView, DnsError>(packet.counted()),
            end: datagram.pos as int,
        }),
{
    let counted = packet.counted();
    let bytes = counted.attempt().bytes;
    assert(counted == counted.counted());
    assert(contains(datagram.buf@, 0, bytes)) by {
        assert forall|i: int| 0 <= i < bytes.len() implies datagram.buf@[0 + i]
            == #[trigger] bytes[i] by {
            assert(datagram.buf@[i] == bytes[i]);
        }
    }
    lemma_packet_parse(datagram.buf@, 0, counted);
}

/// A message that round-trips and takes no more than 512 bytes can be
/// written into a datagram.
pub proof fn lemma_encoding_fits(packet: PacketView)
    requires
        packet_round_trips(packet),
        packet.counted().attempt().bytes.len() <= 512,
    ensures
        encoding(packet) == Ok::<Seq<u8>, DnsError>(packet.counted().attempt().bytes),
{
    let counted = packet.counted();
    assert(counted == counted.counted());
    lemma_packet_whole(counted);
}

/// A response that round-trips and fits in a datagram reaches the
/// requester as it was built: it is sent, and reading the datagram from its
/// first byte gives the response, with the numbers in its header set to
/// the lengths of its sections.
pub proof fn lemma_response_reads_back(
    packet: PacketView,
    next: ResolverState,
    action: ResolverAction,
)
    requires
        sends(next, action, packet),
        packet_round_trips(packet),
        packet.counted().attempt().bytes.len() <= 512,
    ensures
        next is RelayingResponse,
        action is Respond,
        PacketView::parse(action->Respond_0.buf@, 0) == (Parse {
            value: Ok::<PacketView, DnsError>(packet.counted()),
            end: packet.counted().attempt().bytes.len() as int,
        }),
{
    lemma_encoding_fits(packet);
    lemma_encode_decode(packet, action->Respond_0);
}

/// What the upstream server replied reaches the requester. Let the question
/// that was asked be plain, and let the reply hold plain address records
/// only. Where the response that hands the reply on fits in a datagram, it
/// is sent, and reading the datagram from its first byte gives that
/// response: the identifier of the request, the response code of the
/// reply, the question that was asked, and the records of the reply.
pub proof fn lemma_relayed_reads_back(
    id: u16,
    question: QuestionView,
    reply: PacketView,
    next: ResolverState,
    action: ResolverAction,
)
    requires
        sends(next, action, relayed_view(id, question, reply)),
        question_is_plain(question),
        forall|i: int| 0 <= i < reply.answers.len() ==> record_is_plain(#[trigger] reply.answers[i]),
        forall|i: int|
            0 <= i < reply.authorities.len() ==> record_is_plain(#[trigger] reply.authorities[i]),
        forall|i: int|
            0 <= i < reply.resources.len() ==> record_is_plain(#[trigger] reply.resources[i]),
        relayed_view(id, question, reply).counted().attempt().bytes.len() <= 512,
    ensures
        next is RelayingResponse,
        action is Respond,
        PacketView::parse(action->Respond_0.buf@, 0) == (Parse {
            value: Ok::<PacketView, DnsError>(relayed_view(id, question, reply).counted()),
            end: relayed_view(id, question, reply).counted().attempt().bytes.len() as int,
        }),
        relayed_view(id, question, reply).counted().header.rescode == reply.header.rescode,
        relayed_view(id, question, reply).counted().header.response,
        relayed_view(id, question, reply).counted().header.questions == 1,
        relayed_view(id, question, reply).counted().questions == seq![question],
        relayed_view(id, question, reply).counted().answers == reply.answers,
{
    let packet = relayed_view(id, question, reply);
    assert(packet_is_plain(packet));
    lemma_plain_packet_round_trips(packet);
    lemma_response_reads_back(packet, next, action);
}

/// The response to a request that cannot be served always reaches the
/// requester: it is sent, and reading the datagram gives a response to the
/// request with SERVFAIL and without entries.
pub proof fn lemma_failure_reads_back(id: u16, next: ResolverState, action: ResolverAction)
    requires
        sends(next, action, failure_view(id)),
    ensures
        next is RelayingResponse,
        action is Respond,
        PacketView::parse(action->Respond_0.buf@, 0) == (Parse {
            value: Ok::<PacketView, DnsError>(failure_view(id)),
            end: 12,
        }),
{
    let packet = failure_view(id);
    assert(packet.counted() == packet);
    lemma_packet_whole(packet);
    assert(packet.attempt().bytes =~= packet.header.wire());
    assert(packet.header.wire().len() == 12);
    lemma_response_reads_back(packet, next, action);
}

} // verus!
