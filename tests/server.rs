use rdns::buffer::{ByteBuffer, BytePacketBuffer, ExtendingBuffer};
use rdns::protocol::{DnsPacket, DnsQuestion, DnsRecord, QueryType, ResponseCode};
use rdns::server::{build_query, execute_query, tcp_frame, tcp_length, IdSequence};

#[test]
fn ids_increase_and_wrap() {
    let mut ids = IdSequence::new(65534);
    assert_eq!(ids.next_id(), 65534);
    assert_eq!(ids.next_id(), 65535);
    assert_eq!(ids.next_id(), 0);
    assert_eq!(ids.next_id(), 1);
}

#[test]
fn query_packet() {
    let query = build_query(7, "example.test", QueryType::A, true);
    assert_eq!(query.header.id, 7);
    assert_eq!(query.header.questions, 1);
    assert!(query.header.recursion_desired);
    assert!(!query.header.response);
    assert_eq!(query.questions, vec![DnsQuestion::new("example.test".to_string(), QueryType::A)]);
    let mut packet = query.clone();
    let mut buffer = BytePacketBuffer::new();
    packet.write(&mut buffer).unwrap();
    assert_eq!(&buffer.buf[0..6], &[0, 7, 0x01, 0x00, 0, 1]);
}

fn request(id: u16, with_question: bool) -> DnsPacket {
    let mut packet = DnsPacket::new();
    packet.header.id = id;
    packet.header.recursion_desired = true;
    if with_question {
        packet.questions.push(DnsQuestion::new("example.test".to_string(), QueryType::A));
    }
    packet
}

#[test]
fn response_without_question_is_formerr() {
    let response = execute_query(&request(9, false), true, None);
    assert_eq!(response.header.id, 9);
    assert!(response.header.response);
    assert_eq!(response.header.rescode, ResponseCode::FORMERR);
    assert!(response.questions.is_empty());
}

#[test]
fn response_when_resolution_fails_is_servfail() {
    let response = execute_query(&request(9, true), false, None);
    assert_eq!(response.header.rescode, ResponseCode::SERVFAIL);
    assert!(!response.header.recursion_available);
    assert!(response.header.recursion_desired);
}

#[test]
fn forwarded_answer_is_relayed() {
    let mut upstream = DnsPacket::new();
    upstream.answers.push(DnsRecord::A {
        domain: "example.test".to_string(),
        addr: [192, 0, 2, 1],
        ttl: 60,
    });
    let response = execute_query(&request(3, true), true, Some(upstream));
    assert_eq!(response.header.id, 3);
    assert_eq!(response.header.rescode, ResponseCode::NOERROR);
    assert!(response.header.recursion_available);
    assert_eq!(response.questions.len(), 1);
    assert_eq!(
        response.answers,
        vec![DnsRecord::A { domain: "example.test".to_string(), addr: [192, 0, 2, 1], ttl: 60 }]
    );
}

#[test]
fn tcp_length_prefix() {
    let framed = tcp_frame(&[1, 2, 3]).unwrap();
    assert_eq!(framed, vec![0, 3, 1, 2, 3]);
    assert_eq!(tcp_length([0x02, 0xBC]), 700);
    assert!(tcp_frame(&vec![0u8; 65536]).is_none());
}

#[test]
fn large_response_over_tcp() {
    // A 700-byte body is truncated in a UDP buffer but whole over TCP.
    let mut upstream = DnsPacket::new();
    for i in 0..28u8 {
        upstream.answers.push(DnsRecord::A {
            domain: "example.test".to_string(),
            addr: [10, 0, 0, i],
            ttl: 60,
        });
    }
    let response = execute_query(&request(4, true), true, Some(upstream));
    let mut udp = response.clone();
    let mut udp_buffer = BytePacketBuffer::new();
    udp.write(&mut udp_buffer).unwrap();
    assert!(udp.header.truncated_message);
    let mut tcp = response.clone();
    let mut tcp_buffer = ExtendingBuffer::new();
    tcp.write(&mut tcp_buffer).unwrap();
    assert!(!tcp.header.truncated_message);
    assert_eq!(tcp.header.answers, 28);
    assert!(tcp_buffer.head() > 512);
    let framed = tcp_frame(tcp_buffer.get_range(0, tcp_buffer.head()).unwrap()).unwrap();
    assert_eq!(tcp_length([framed[0], framed[1]]), tcp_buffer.head());
    let mut back = ExtendingBuffer::from_bytes(framed[2..].to_vec());
    let parsed = DnsPacket::from_buffer(&mut back).unwrap();
    assert_eq!(parsed.answers.len(), 28);
}
