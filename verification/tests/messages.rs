use dns_codec::byte_packet_buffer::BytePacketBuffer;
use dns_codec::dns_packet::DnsPacket;
use dns_codec::dns_question::DnsQuestion;
use dns_codec::dns_record::{DnsRecord, Ipv4Address};
use dns_codec::error::DnsError;
use dns_codec::query_type::QueryType;
use dns_codec::result_code::ResultCode;

fn put(buffer: &mut BytePacketBuffer, at: usize, bytes: &[u8]) {
    for (i, b) in bytes.iter().enumerate() {
        buffer.buf[at + i] = *b;
    }
}

#[test]
fn question_bytes() {
    let question = DnsQuestion::new("example.com".to_string(), QueryType::MX);
    let mut buffer = BytePacketBuffer::new();
    assert_eq!(question.write(&mut buffer), Ok(()));
    assert_eq!(&buffer.buf[0..17], b"\x07example\x03com\x00\x00\x0F\x00\x01");
    assert_eq!(buffer.pos(), 17);
}

#[test]
fn question_read() {
    let mut buffer = BytePacketBuffer::new();
    put(&mut buffer, 0, b"\x07example\x03com\x00\x00\x1C\x00\x03");
    let mut question = DnsQuestion::new(String::new(), QueryType::UNKNOWN(0));
    assert_eq!(question.read(&mut buffer), Ok(()));
    assert_eq!(question.name, "example.com");
    assert_eq!(question.qtype, QueryType::AAAA);
    assert_eq!(buffer.pos(), 17);
}

#[test]
fn question_read_appends_the_name() {
    let mut buffer = BytePacketBuffer::new();
    put(&mut buffer, 0, b"\x01b\x00\x00\x63\x00\x01");
    let mut question = DnsQuestion::new("a.".to_string(), QueryType::A);
    assert_eq!(question.read(&mut buffer), Ok(()));
    assert_eq!(question, DnsQuestion::new("a.b".to_string(), QueryType::UNKNOWN(99)));
}

#[test]
fn question_cut_short_is_left_alone() {
    let mut buffer = BytePacketBuffer::new();
    put(&mut buffer, 506, b"\x01b\x00\x00\x01\x00");
    buffer.seek(506).unwrap();
    let mut question = DnsQuestion::new("a".to_string(), QueryType::NS);
    assert_eq!(question.read(&mut buffer), Err(DnsError::OutOfBounds));
    assert_eq!(question, DnsQuestion::new("a".to_string(), QueryType::NS));
    assert_eq!(buffer.pos(), 509);
}

#[test]
fn question_that_does_not_fit_is_not_written() {
    let question = DnsQuestion::new("abc".to_string(), QueryType::A);
    let mut buffer = BytePacketBuffer::new();
    buffer.seek(504).unwrap();
    assert_eq!(question.write(&mut buffer), Err(DnsError::OutOfBounds));
    assert_eq!(buffer.pos(), 504);
    assert!(buffer.buf.iter().all(|b| *b == 0));
    buffer.seek(503).unwrap();
    assert_eq!(question.write(&mut buffer), Ok(()));
    assert_eq!(buffer.pos(), 512);
    assert_eq!(&buffer.buf[503..512], b"\x03abc\x00\x00\x01\x00\x01");
}

#[test]
fn record_that_does_not_fit_is_not_written() {
    let record =
        DnsRecord::A { domain: "abc".to_string(), addr: Ipv4Address::new(1, 2, 3, 4), ttl: 9 };
    let mut buffer = BytePacketBuffer::new();
    buffer.seek(494).unwrap();
    assert_eq!(record.write(&mut buffer), Err(DnsError::OutOfBounds));
    assert_eq!(buffer.pos(), 494);
    assert!(buffer.buf.iter().all(|b| *b == 0));
    buffer.seek(493).unwrap();
    assert_eq!(record.write(&mut buffer), Ok(19));
    assert_eq!(buffer.pos(), 512);
    buffer.seek(493).unwrap();
    assert_eq!(DnsRecord::read(&mut buffer), Ok(record));
    assert_eq!(buffer.pos(), 512);
}

#[test]
fn record_cut_short_stays_behind_what_was_read() {
    let mut buffer = BytePacketBuffer::new();
    put(&mut buffer, 503, b"\x00\x00\x01\x00\x01\x00\x00\x00");
    buffer.seek(503).unwrap();
    assert_eq!(DnsRecord::read(&mut buffer), Err(DnsError::OutOfBounds));
    assert_eq!(buffer.pos(), 504);
    put(&mut buffer, 499, b"\x00\x00\x01\x00\x01\x00\x00\x00\x00\x00\x04");
    buffer.seek(499).unwrap();
    assert_eq!(DnsRecord::read(&mut buffer), Err(DnsError::OutOfBounds));
    assert_eq!(buffer.pos(), 510);
}

#[test]
fn question_with_a_long_label_is_not_written() {
    let question = DnsQuestion::new("b".repeat(64), QueryType::A);
    let mut buffer = BytePacketBuffer::new();
    assert_eq!(question.write(&mut buffer), Err(DnsError::LabelTooLong));
    assert_eq!(buffer.pos(), 0);
}

#[test]
fn address_record_bytes() {
    let record = DnsRecord::A {
        domain: "a.io".to_string(),
        addr: Ipv4Address::new(93, 184, 216, 34),
        ttl: 3600,
    };
    let mut buffer = BytePacketBuffer::new();
    assert_eq!(record.write(&mut buffer), Ok(20));
    assert_eq!(
        &buffer.buf[0..20],
        b"\x01a\x02io\x00\x00\x01\x00\x01\x00\x00\x0E\x10\x00\x04\x5D\xB8\xD8\x22"
    );
    assert_eq!(buffer.pos(), 20);
}

#[test]
fn address_record_read() {
    let mut buffer = BytePacketBuffer::new();
    put(
        &mut buffer,
        0,
        b"\x01A\x02IO\x00\x00\x01\x00\x01\x01\x02\x03\x04\x00\x04\x7F\x00\x00\x01",
    );
    assert_eq!(
        DnsRecord::read(&mut buffer),
        Ok(DnsRecord::A {
            domain: "a.io".to_string(),
            addr: Ipv4Address::new(127, 0, 0, 1),
            ttl: 0x01020304,
        })
    );
    assert_eq!(buffer.pos(), 20);
}

#[test]
fn address_record_ignores_the_data_length() {
    let mut buffer = BytePacketBuffer::new();
    put(&mut buffer, 0, b"\x00\x00\x01\x00\x01\x00\x00\x00\x05\x00\x09\x0A\x00\x00\x01");
    assert_eq!(
        DnsRecord::read(&mut buffer),
        Ok(DnsRecord::A { domain: String::new(), addr: Ipv4Address::new(10, 0, 0, 1), ttl: 5 })
    );
    assert_eq!(buffer.pos(), 15);
}

#[test]
fn unknown_record_is_skipped() {
    let mut buffer = BytePacketBuffer::new();
    put(&mut buffer, 0, b"\x03foo\x00\x00\x63\x00\x01\x00\x00\x00\x3C\x00\x0A0123456789");
    assert_eq!(
        DnsRecord::read(&mut buffer),
        Ok(DnsRecord::UNKNOWN { domain: "foo".to_string(), qtype: 99, data_len: 10, ttl: 60 })
    );
    assert_eq!(buffer.pos(), 5 + 10 + 10);
}

#[test]
fn record_of_a_named_type_other_than_address_is_unknown() {
    let mut buffer = BytePacketBuffer::new();
    put(&mut buffer, 0, b"\x00\x00\x1C\x00\x01\x00\x00\x00\x01\x00\x10");
    assert_eq!(
        DnsRecord::read(&mut buffer),
        Ok(DnsRecord::UNKNOWN { domain: String::new(), qtype: 28, data_len: 16, ttl: 1 })
    );
    assert_eq!(buffer.pos(), 27);
}

#[test]
fn unknown_record_whose_data_reach_the_end() {
    let mut buffer = BytePacketBuffer::new();
    put(&mut buffer, 490, b"\x00\x00\x63\x00\x01\x00\x00\x00\x00\x00\x0C");
    buffer.seek(490).unwrap();
    assert_eq!(DnsRecord::read(&mut buffer), Err(DnsError::OutOfBounds));
    assert_eq!(buffer.pos(), 501);
    buffer.buf[500] = 0x0B;
    buffer.seek(490).unwrap();
    assert_eq!(
        DnsRecord::read(&mut buffer),
        Ok(DnsRecord::UNKNOWN { domain: String::new(), qtype: 99, data_len: 11, ttl: 0 })
    );
    assert_eq!(buffer.pos(), 512);
}

#[test]
fn unknown_record_is_not_written() {
    let record = DnsRecord::UNKNOWN { domain: "foo".to_string(), qtype: 99, data_len: 10, ttl: 60 };
    let mut buffer = BytePacketBuffer::new();
    buffer.seek(512 - 1).unwrap();
    assert_eq!(record.write(&mut buffer), Ok(0));
    assert_eq!(buffer.pos(), 511);
    assert!(buffer.buf.iter().all(|b| *b == 0));
}

#[test]
fn address_octets() {
    let addr = Ipv4Address::new(1, 2, 3, 4);
    assert_eq!(addr.octets(), [1, 2, 3, 4]);
    assert_eq!(Ipv4Address::from_bits(0x01020304), addr);
}

#[test]
fn new_packet_is_empty() {
    let packet = DnsPacket::new();
    assert_eq!(packet.header.id, 0);
    assert!(packet.questions.is_empty());
    assert!(packet.answers.is_empty());
    assert!(packet.authorities.is_empty());
    assert!(packet.resources.is_empty());
}

fn sample() -> DnsPacket {
    let mut packet = DnsPacket::new();
    packet.header.id = 0xBEEF;
    packet.header.response = true;
    packet.header.recursion_desired = true;
    packet.header.rescode = ResultCode::NXDOMAIN;
    packet.header.questions = 40;
    packet.questions.push(DnsQuestion::new("example.com".to_string(), QueryType::A));
    packet.questions.push(DnsQuestion::new("x.y.z".to_string(), QueryType::UNKNOWN(99)));
    packet.answers.push(DnsRecord::A {
        domain: "example.com".to_string(),
        addr: Ipv4Address::new(93, 184, 216, 34),
        ttl: 3600,
    });
    packet.answers.push(DnsRecord::A {
        domain: "example.com".to_string(),
        addr: Ipv4Address::new(255, 0, 128, 1),
        ttl: u32::MAX,
    });
    packet.authorities.push(DnsRecord::A {
        domain: "ns.example.com".to_string(),
        addr: Ipv4Address::new(10, 0, 0, 53),
        ttl: 0,
    });
    packet.resources.push(DnsRecord::A {
        domain: "more".to_string(),
        addr: Ipv4Address::new(1, 1, 1, 1),
        ttl: 1,
    });
    packet
}

#[test]
fn packet_round_trip() {
    let mut packet = sample();
    let mut buffer = BytePacketBuffer::new();
    assert_eq!(packet.write(&mut buffer), Ok(()));
    assert_eq!(packet.header.questions, 2);
    assert_eq!(packet.header.answers, 2);
    assert_eq!(packet.header.authoritative_entries, 1);
    assert_eq!(packet.header.resource_entries, 1);
    let end = buffer.pos();
    assert_eq!(end, 12 + 17 + 11 + 27 + 27 + 30 + 20);
    buffer.seek(0).unwrap();
    let back = DnsPacket::from_buffer(&mut buffer).unwrap();
    assert_eq!(buffer.pos(), end);
    assert_eq!(back.header, packet.header);
    assert_eq!(back.questions, packet.questions);
    assert_eq!(back.answers, packet.answers);
    assert_eq!(back.authorities, packet.authorities);
    assert_eq!(back.resources, packet.resources);
}

#[test]
fn packet_counts_come_from_the_sections() {
    let mut packet = DnsPacket::new();
    packet.header.questions = 3;
    packet.header.answers = 9;
    packet.answers.push(DnsRecord::UNKNOWN {
        domain: "gone".to_string(),
        qtype: 16,
        data_len: 3,
        ttl: 1,
    });
    let mut buffer = BytePacketBuffer::new();
    assert_eq!(packet.write(&mut buffer), Ok(()));
    assert_eq!(buffer.pos(), 12);
    assert_eq!(&buffer.buf[4..12], &[0, 0, 0, 1, 0, 0, 0, 0]);
    assert_eq!(packet.header.questions, 0);
    assert_eq!(packet.header.answers, 1);
}

#[test]
fn packet_sections_follow_the_header_counts() {
    let mut buffer = BytePacketBuffer::new();
    put(&mut buffer, 0, &[0, 1, 0, 0, 0, 1, 0, 1, 0, 1, 0, 1]);
    put(&mut buffer, 12, b"\x01q\x00\x00\x01\x00\x01");
    put(&mut buffer, 19, b"\xC0\x0C\x00\x01\x00\x01\x00\x00\x00\x07\x00\x04\x01\x02\x03\x04");
    put(&mut buffer, 35, b"\xC0\x0C\x00\x02\x00\x01\x00\x00\x00\x08\x00\x02\xC0\x0C");
    put(&mut buffer, 49, b"\x01r\x00\x00\x01\x00\x01\x00\x00\x00\x09\x00\x04\x05\x06\x07\x08");
    let packet = DnsPacket::from_buffer(&mut buffer).unwrap();
    assert_eq!(buffer.pos(), 66);
    assert_eq!(packet.header.id, 1);
    assert_eq!(packet.questions, vec![DnsQuestion::new("q".to_string(), QueryType::A)]);
    assert_eq!(
        packet.answers,
        vec![DnsRecord::A { domain: "q".to_string(), addr: Ipv4Address::new(1, 2, 3, 4), ttl: 7 }]
    );
    assert_eq!(
        packet.authorities,
        vec![DnsRecord::UNKNOWN { domain: "q".to_string(), qtype: 2, data_len: 2, ttl: 8 }]
    );
    assert_eq!(
        packet.resources,
        vec![DnsRecord::A { domain: "r".to_string(), addr: Ipv4Address::new(5, 6, 7, 8), ttl: 9 }]
    );
}

#[test]
fn packet_with_more_entries_than_bytes_fails() {
    let mut buffer = BytePacketBuffer::new();
    put(&mut buffer, 0, &[0, 1, 0, 0, 0xFF, 0xFF, 0, 0, 0, 0, 0, 0]);
    assert_eq!(DnsPacket::from_buffer(&mut buffer).err(), Some(DnsError::OutOfBounds));
}

#[test]
fn packet_with_a_pointer_loop_fails() {
    let mut buffer = BytePacketBuffer::new();
    put(&mut buffer, 0, &[0, 1, 0, 0, 0, 1, 0, 0, 0, 0, 0, 0, 0xC0, 0x0C]);
    assert_eq!(DnsPacket::from_buffer(&mut buffer).err(), Some(DnsError::TooManyJumps));
}

#[test]
fn packet_that_does_not_fit() {
    let mut packet = DnsPacket::new();
    for _ in 0..30 {
        packet.questions.push(DnsQuestion::new("example.com".to_string(), QueryType::A));
    }
    let mut buffer = BytePacketBuffer::new();
    assert_eq!(packet.write(&mut buffer), Err(DnsError::OutOfBounds));
    assert_eq!(buffer.pos(), 0);
    assert!(buffer.buf.iter().all(|b| *b == 0));
    assert_eq!(packet.header.questions, 30);
}

#[test]
fn packet_with_a_long_label_stops_there() {
    let mut packet = DnsPacket::new();
    packet.questions.push(DnsQuestion::new("ok".to_string(), QueryType::A));
    packet.answers.push(DnsRecord::A {
        domain: "c".repeat(64),
        addr: Ipv4Address::new(1, 2, 3, 4),
        ttl: 1,
    });
    packet.authorities.push(DnsRecord::A {
        domain: "later".to_string(),
        addr: Ipv4Address::new(1, 2, 3, 4),
        ttl: 1,
    });
    let mut buffer = BytePacketBuffer::new();
    assert_eq!(packet.write(&mut buffer), Err(DnsError::LabelTooLong));
    assert_eq!(buffer.pos(), 0);
    assert!(buffer.buf.iter().all(|b| *b == 0));
}

#[test]
fn packet_that_fills_the_buffer() {
    let mut packet = DnsPacket::new();
    packet.questions.push(DnsQuestion::new(
        format!("{}.{}.{}.{}", "a".repeat(63), "b".repeat(63), "c".repeat(63), "d".repeat(52)),
        QueryType::A,
    ));
    packet.questions.push(DnsQuestion::new(
        format!("{}.{}.{}.{}", "e".repeat(63), "f".repeat(63), "g".repeat(63), "h".repeat(52)),
        QueryType::A,
    ));
    let mut buffer = BytePacketBuffer::new();
    buffer.seek(2).unwrap();
    assert_eq!(packet.write(&mut buffer), Err(DnsError::OutOfBounds));
    assert_eq!(buffer.pos(), 2);
    buffer.seek(0).unwrap();
    assert_eq!(packet.write(&mut buffer), Ok(()));
    assert_eq!(buffer.pos(), 512);
    assert_eq!(buffer.get_range(0, 512).map(|s| s.len()), Ok(512));
    buffer.seek(0).unwrap();
    let back = DnsPacket::from_buffer(&mut buffer).unwrap();
    assert_eq!(back.questions, packet.questions);
    assert_eq!(buffer.pos(), 512);
}

#[test]
fn packet_without_room_for_a_header() {
    let mut buffer = BytePacketBuffer::new();
    buffer.seek(501).unwrap();
    assert_eq!(DnsPacket::from_buffer(&mut buffer).err(), Some(DnsError::OutOfBounds));
    assert_eq!(buffer.pos(), 501);
    buffer.seek(500).unwrap();
    assert!(DnsPacket::from_buffer(&mut buffer).is_ok());
    assert_eq!(buffer.pos(), 512);
}

#[test]
fn packet_read_back_has_the_lengths_of_its_header() {
    let mut buffer = BytePacketBuffer::new();
    put(&mut buffer, 0, &[0, 1, 0, 0, 0, 2, 0, 1, 0, 0, 0, 0]);
    put(&mut buffer, 12, b"\x01q\x00\x00\x01\x00\x01");
    put(&mut buffer, 19, b"\x01Q\x00\x00\x02\x00\x01");
    put(&mut buffer, 26, b"\xC0\x0C\x00\x01\x00\x01\x00\x00\x00\x07\x00\x04\x01\x02\x03\x04");
    let packet = DnsPacket::from_buffer(&mut buffer).unwrap();
    assert_eq!(packet.questions.len(), 2);
    assert_eq!(packet.answers.len(), 1);
    assert_eq!(packet.authorities.len(), 0);
    assert_eq!(packet.resources.len(), 0);
    assert_eq!(packet.questions[1], DnsQuestion::new("q".to_string(), QueryType::NS));
    assert_eq!(buffer.pos(), 42);
}
