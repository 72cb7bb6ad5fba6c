//! A codec for DNS messages carried in fixed 512-byte datagrams, and the
//! decision logic of a forwarding stub resolver.

pub mod error;
pub mod qname;
pub mod byte_packet_buffer;
pub mod query_type;
pub mod result_code;
pub mod dns_header;
pub mod wire;
pub mod dns_question;
pub mod dns_record;
pub mod dns_packet;
pub mod round_trip;
pub mod resolver;
