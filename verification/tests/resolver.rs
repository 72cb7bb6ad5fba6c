use dns_codec::byte_packet_buffer::BytePacketBuffer;
use dns_codec::dns_packet::DnsPacket;
use dns_codec::dns_question::DnsQuestion;
use dns_codec::dns_record::{DnsRecord, Ipv4Address};
use dns_codec::error::DnsError;
use dns_codec::query_type::QueryType;
use dns_codec::resolver::{
    build_failure, build_query, build_response, decode, encode, step, ResolverAction,
    ResolverEvent, ResolverState, QUERY_ID,
};
use dns_codec::result_code::ResultCode;

fn datagram(packet: &mut DnsPacket) -> BytePacketBuffer {
    let mut buffer = encode(packet).unwrap();
    buffer.seek(0).unwrap();
    buffer
}

fn request(id: u16, questions: Vec<DnsQuestion>) -> BytePacketBuffer {
    let mut packet = DnsPacket::new();
    packet.header.id = id;
    packet.header.recursion_desired = true;
    packet.questions = questions;
    datagram(&mut packet)
}

fn read_back(mut buffer: BytePacketBuffer) -> DnsPacket {
    let len = buffer.pos();
    buffer.seek(0).unwrap();
    let packet = decode(&mut buffer).unwrap();
    assert_eq!(buffer.pos(), len);
    packet
}

fn forwarded(action: ResolverAction) -> DnsPacket {
    match action {
        ResolverAction::Forward(buffer) => read_back(buffer),
        _ => panic!("nothing was sent upstream"),
    }
}

fn responded(action: ResolverAction) -> DnsPacket {
    match action {
        ResolverAction::Respond(buffer) => read_back(buffer),
        _ => panic!("nothing was sent to the requester"),
    }
}

#[test]
fn request_is_forwarded_and_the_reply_relayed() {
    let question = DnsQuestion::new("example.com".to_string(), QueryType::A);
    let (state, action) = step(
        ResolverState::AwaitingRequest,
        ResolverEvent::Request(request(0x4242, vec![question.clone()])),
    );
    let query = forwarded(action);
    assert_eq!(query.header.id, QUERY_ID);
    assert!(query.header.recursion_desired);
    assert!(!query.header.response);
    assert_eq!(query.header.questions, 1);
    assert_eq!(query.questions, vec![question.clone()]);
    assert!(query.answers.is_empty());
    assert!(matches!(&state, ResolverState::Forwarding { id: 0x4242, question: q } if *q == question));

    let answer = DnsRecord::A {
        domain: "example.com".to_string(),
        addr: Ipv4Address::new(93, 184, 216, 34),
        ttl: 3600,
    };
    let mut reply = DnsPacket::new();
    reply.header.id = QUERY_ID;
    reply.header.response = true;
    reply.questions.push(question.clone());
    reply.answers.push(answer.clone());
    let (state, action) = step(state, ResolverEvent::UpstreamReply(datagram(&mut reply)));
    assert!(matches!(state, ResolverState::RelayingResponse));
    let response = responded(action);
    assert_eq!(response.header.id, 0x4242);
    assert!(response.header.response);
    assert!(response.header.recursion_desired);
    assert!(response.header.recursion_available);
    assert_eq!(response.header.rescode, ResultCode::NOERROR);
    assert_eq!(response.questions, vec![question]);
    assert_eq!(response.answers, vec![answer]);
    assert!(response.authorities.is_empty());
    assert!(response.resources.is_empty());

    let (state, action) = step(state, ResolverEvent::ResponseSent);
    assert!(matches!(state, ResolverState::Done));
    assert!(matches!(action, ResolverAction::Idle));
}

#[test]
fn upstream_response_code_and_sections_are_handed_on() {
    let question = DnsQuestion::new("nope.example".to_string(), QueryType::MX);
    let record = |name: &str, d: u8| DnsRecord::A {
        domain: name.to_string(),
        addr: Ipv4Address::new(10, 0, 0, d),
        ttl: 5,
    };
    let mut reply = DnsPacket::new();
    reply.header.rescode = ResultCode::NXDOMAIN;
    reply.authorities.push(record("ns.example", 1));
    reply.resources.push(record("extra.example", 2));
    reply.resources.push(record("more.example", 3));
    let state = ResolverState::Forwarding { id: 9, question: question.clone() };
    let (_, action) = step(state, ResolverEvent::UpstreamReply(datagram(&mut reply)));
    let response = responded(action);
    assert_eq!(response.header.rescode, ResultCode::NXDOMAIN);
    assert_eq!(response.questions, vec![question]);
    assert!(response.answers.is_empty());
    assert_eq!(response.authorities, vec![record("ns.example", 1)]);
    assert_eq!(
        response.resources,
        vec![record("extra.example", 2), record("more.example", 3)]
    );
}

#[test]
fn silent_upstream_gives_servfail() {
    let question = DnsQuestion::new("example.com".to_string(), QueryType::A);
    let (state, _) = step(
        ResolverState::AwaitingRequest,
        ResolverEvent::Request(request(7, vec![question])),
    );
    let (state, action) = step(state, ResolverEvent::TransportFailure);
    assert!(matches!(state, ResolverState::RelayingResponse));
    let response = responded(action);
    assert_eq!(response.header.id, 7);
    assert!(response.header.response);
    assert_eq!(response.header.rescode, ResultCode::SERVFAIL);
    assert!(response.questions.is_empty());
    assert!(response.answers.is_empty());
}

#[test]
fn unreadable_reply_gives_servfail() {
    let question = DnsQuestion::new("example.com".to_string(), QueryType::A);
    let state = ResolverState::Forwarding { id: 8, question };
    let mut garbage = BytePacketBuffer::new();
    garbage.buf[5] = 1;
    garbage.buf[12] = 0xC0;
    garbage.buf[13] = 0x0C;
    let (_, action) = step(state, ResolverEvent::UpstreamReply(garbage));
    let response = responded(action);
    assert_eq!(response.header.id, 8);
    assert_eq!(response.header.rescode, ResultCode::SERVFAIL);
    assert!(response.answers.is_empty());
}

#[test]
fn request_without_a_question_gives_servfail() {
    let (state, action) =
        step(ResolverState::AwaitingRequest, ResolverEvent::Request(request(11, vec![])));
    assert!(matches!(state, ResolverState::RelayingResponse));
    let response = responded(action);
    assert_eq!(response.header.id, 11);
    assert!(response.header.response);
    assert!(response.header.recursion_desired);
    assert!(response.header.recursion_available);
    assert_eq!(response.header.rescode, ResultCode::SERVFAIL);
    assert!(response.questions.is_empty());
    assert!(response.answers.is_empty());
}

#[test]
fn first_question_is_the_one_forwarded() {
    let first = DnsQuestion::new("first.example".to_string(), QueryType::A);
    let second = DnsQuestion::new("second.example".to_string(), QueryType::NS);
    let (_, action) = step(
        ResolverState::AwaitingRequest,
        ResolverEvent::Request(request(1, vec![first.clone(), second])),
    );
    assert_eq!(forwarded(action).questions, vec![first]);
}

#[test]
fn unreadable_request_is_dropped() {
    let mut garbage = BytePacketBuffer::new();
    garbage.buf[5] = 1;
    garbage.buf[12] = 0xC0;
    garbage.buf[13] = 0x0C;
    let (state, action) = step(ResolverState::AwaitingRequest, ResolverEvent::Request(garbage));
    assert!(matches!(state, ResolverState::Done));
    assert!(matches!(action, ResolverAction::Drop(DnsError::TooManyJumps)));
}

#[test]
fn transport_failure_at_the_edges_ends_the_request() {
    let (state, action) = step(ResolverState::AwaitingRequest, ResolverEvent::TransportFailure);
    assert!(matches!(state, ResolverState::Done));
    assert!(matches!(action, ResolverAction::Drop(DnsError::TransportFailure)));
    let (state, action) = step(ResolverState::RelayingResponse, ResolverEvent::TransportFailure);
    assert!(matches!(state, ResolverState::Done));
    assert!(matches!(action, ResolverAction::Drop(DnsError::TransportFailure)));
}

#[test]
fn events_out_of_turn_change_nothing() {
    let (state, action) = step(ResolverState::Done, ResolverEvent::ResponseSent);
    assert!(matches!(state, ResolverState::Done));
    assert!(matches!(action, ResolverAction::Idle));
    let (state, action) =
        step(ResolverState::AwaitingRequest, ResolverEvent::UpstreamReply(BytePacketBuffer::new()));
    assert!(matches!(state, ResolverState::AwaitingRequest));
    assert!(matches!(action, ResolverAction::Idle));
    let question = DnsQuestion::new("example.com".to_string(), QueryType::A);
    let (state, action) =
        step(ResolverState::Forwarding { id: 3, question }, ResolverEvent::ResponseSent);
    assert!(matches!(state, ResolverState::Forwarding { id: 3, .. }));
    assert!(matches!(action, ResolverAction::Idle));
}

#[test]
fn reply_too_large_to_relay_is_dropped() {
    let question = DnsQuestion::new("q".repeat(60), QueryType::A);
    let mut reply = DnsPacket::new();
    for _ in 0..6 {
        reply.answers.push(DnsRecord::A {
            domain: "r".repeat(60),
            addr: Ipv4Address::new(1, 2, 3, 4),
            ttl: 1,
        });
    }
    let upstream = datagram(&mut reply);
    assert!(upstream.buf[511] == 0);
    let state = ResolverState::Forwarding { id: 3, question };
    let (state, action) = step(state, ResolverEvent::UpstreamReply(upstream));
    assert!(matches!(state, ResolverState::Done));
    assert!(matches!(action, ResolverAction::Drop(DnsError::OutOfBounds)));
}

#[test]
fn query_that_cannot_be_written_gives_servfail() {
    let mut buffer = BytePacketBuffer::new();
    buffer.buf[1] = 5;
    buffer.buf[5] = 1;
    buffer.buf[12] = 63;
    for i in 13..76 {
        buffer.buf[i] = 0xFF;
    }
    let (state, action) = step(ResolverState::AwaitingRequest, ResolverEvent::Request(buffer));
    assert!(matches!(state, ResolverState::RelayingResponse));
    let response = responded(action);
    assert_eq!(response.header.id, 5);
    assert_eq!(response.header.rescode, ResultCode::SERVFAIL);
}

#[test]
fn query_for_a_name() {
    let packet = build_query("Example.COM", QueryType::AAAA);
    assert_eq!(packet.header.id, 6666);
    assert_eq!(packet.header.questions, 1);
    assert!(packet.header.recursion_desired);
    assert!(!packet.header.response);
    assert_eq!(
        packet.questions,
        vec![DnsQuestion::new("Example.COM".to_string(), QueryType::AAAA)]
    );
}

#[test]
fn responses_built_by_hand() {
    let failure = build_failure(21);
    assert_eq!(failure.header.id, 21);
    assert_eq!(failure.header.rescode, ResultCode::SERVFAIL);
    assert!(failure.questions.is_empty());
    let question = DnsQuestion::new("a".to_string(), QueryType::A);
    let failed = build_response(22, question.clone(), Err(DnsError::TransportFailure));
    assert_eq!(failed.header.rescode, ResultCode::SERVFAIL);
    assert!(failed.questions.is_empty());
    let mut reply = DnsPacket::new();
    reply.header.rescode = ResultCode::REFUSED;
    reply.header.authoritative_answer = true;
    let relayed = build_response(23, question.clone(), Ok(reply));
    assert_eq!(relayed.header.id, 23);
    assert_eq!(relayed.header.rescode, ResultCode::REFUSED);
    assert!(!relayed.header.authoritative_answer);
    assert_eq!(relayed.questions, vec![question]);
}

#[test]
fn encode_fills_a_datagram_of_its_own() {
    let mut packet = build_query("a.b", QueryType::A);
    let buffer = encode(&mut packet).unwrap();
    assert_eq!(buffer.pos(), 12 + 5 + 4);
    assert_eq!(
        &buffer.buf[0..21],
        b"\x1A\x0A\x01\x00\x00\x01\x00\x00\x00\x00\x00\x00\x01a\x01b\x00\x00\x01\x00\x01"
    );
    assert!(buffer.buf[21..].iter().all(|b| *b == 0));
}
