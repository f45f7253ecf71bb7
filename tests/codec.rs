use rdns::buffer::{ByteBuffer, BytePacketBuffer, ExtendingBuffer};
use rdns::name::WireError;
use rdns::protocol::{
    DnsHeader, DnsPacket, DnsQuestion, DnsRecord, QueryType, ResponseCode,
};

fn buffer_with(offset: usize, bytes: &[u8]) -> BytePacketBuffer {
    let mut buffer = BytePacketBuffer::new();
    buffer.buf[offset..offset + bytes.len()].copy_from_slice(bytes);
    buffer
}

fn a_record(domain: &str, addr: [u8; 4], ttl: u32) -> DnsRecord {
    DnsRecord::A { domain: domain.to_string(), addr, ttl }
}

#[test]
fn header_parse() {
    let mut buffer = buffer_with(0, &[0x12, 0x34, 0x81, 0x80, 0x00, 0x01, 0x00, 0x01, 0x00, 0x00, 0x00, 0x00]);
    let mut header = DnsHeader::new();
    header.read(&mut buffer).unwrap();
    assert_eq!(header.id, 0x1234);
    assert!(header.response);
    assert_eq!(header.opcode, 0);
    assert!(!header.authoritative_answer);
    assert!(!header.truncated_message);
    assert!(header.recursion_desired);
    assert!(header.recursion_available);
    assert_eq!(header.rescode, ResponseCode::NOERROR);
    assert_eq!(header.questions, 1);
    assert_eq!(header.answers, 1);
    assert_eq!(header.authoritative_entries, 0);
    assert_eq!(header.resource_entries, 0);
    assert_eq!(buffer.head(), 12);
}

#[test]
fn header_write_layout() {
    let mut header = DnsHeader::new();
    header.id = 0xBEEF;
    header.response = true;
    header.opcode = 2;
    header.authoritative_answer = true;
    header.recursion_desired = true;
    header.rescode = ResponseCode::NXDOMAIN;
    header.questions = 1;
    let mut buffer = BytePacketBuffer::new();
    header.write(&mut buffer).unwrap();
    // QR=1, opcode 2 in bits 11..14, AA=1, RD=1, RCODE=3.
    assert_eq!(&buffer.buf[0..12], &[0xBE, 0xEF, 0x95, 0x03, 0, 1, 0, 0, 0, 0, 0, 0]);
    buffer.seek(0).unwrap();
    let mut back = DnsHeader::new();
    back.read(&mut buffer).unwrap();
    assert_eq!(back, header);
}

#[test]
fn header_read_short_buffer() {
    let mut buffer = ExtendingBuffer::from_bytes(vec![0x12, 0x34, 0x81]);
    let mut header = DnsHeader::new();
    assert_eq!(header.read(&mut buffer), Err(WireError::EndOfBuffer));
    assert_eq!(header, DnsHeader::new());
}

#[test]
fn response_code_unknown_reads_noerror() {
    assert_eq!(ResponseCode::from_num(3), ResponseCode::NXDOMAIN);
    assert_eq!(ResponseCode::from_num(9), ResponseCode::NOERROR);
    assert_eq!(ResponseCode::REFUSED.to_num(), 5);
}

#[test]
fn query_type_numbers() {
    assert_eq!(QueryType::from_num(15), QueryType::MX);
    assert_eq!(QueryType::from_num(99), QueryType::UNKNOWN(99));
    assert_eq!(QueryType::AAAA.to_num(), 28);
    assert_eq!(QueryType::UNKNOWN(6).to_num(), 6);
}

#[test]
fn name_compression() {
    let mut bytes = vec![7u8];
    bytes.extend_from_slice(b"example");
    bytes.push(0);
    let mut buffer = buffer_with(12, &bytes);
    buffer.buf[28] = 0xC0;
    buffer.buf[29] = 0x0C;
    buffer.seek(28).unwrap();
    let mut name = String::new();
    buffer.read_qname(&mut name).unwrap();
    assert_eq!(name, "example");
    assert_eq!(buffer.head(), 30);
}

#[test]
fn name_is_lower_cased() {
    let mut bytes = vec![7u8];
    bytes.extend_from_slice(b"ExAmPle");
    bytes.push(3);
    bytes.extend_from_slice(b"COM");
    bytes.push(0);
    let mut buffer = buffer_with(0, &bytes);
    let mut name = String::new();
    buffer.read_qname(&mut name).unwrap();
    assert_eq!(name, "example.com");
    assert_eq!(buffer.head(), 13);
}

#[test]
fn pointer_loop_is_refused() {
    let mut buffer = buffer_with(12, &[0xC0, 0x0C]);
    buffer.seek(12).unwrap();
    let mut name = String::from("kept");
    assert_eq!(buffer.read_qname(&mut name), Err(WireError::TooManyJumps));
    assert_eq!(name, "kept");
    assert_eq!(buffer.head(), 12);
}

#[test]
fn name_past_end_is_refused() {
    let mut buffer = ExtendingBuffer::from_bytes(vec![5, b'a', b'b']);
    let mut name = String::new();
    assert_eq!(buffer.read_qname(&mut name), Err(WireError::EndOfBuffer));
}

#[test]
fn name_write_uncompressed() {
    let mut buffer = ExtendingBuffer::new();
    buffer.write_qname("mail.a.test").unwrap();
    let mut expected = vec![4u8];
    expected.extend_from_slice(b"mail");
    expected.push(1);
    expected.extend_from_slice(b"a");
    expected.push(4);
    expected.extend_from_slice(b"test");
    expected.push(0);
    assert_eq!(buffer.buf, expected);
    assert_eq!(buffer.head(), 13);
}

#[test]
fn name_label_too_long() {
    let long = "a".repeat(64);
    let mut buffer = BytePacketBuffer::new();
    assert_eq!(buffer.write_qname(&format!("{}.test", long)), Err(WireError::LabelTooLong));
    assert_eq!(buffer.head(), 0);
    let max = "b".repeat(63);
    assert_eq!(buffer.write_qname(&max), Ok(()));
    assert_eq!(buffer.head(), 65);
}

#[test]
fn name_does_not_fit() {
    let mut buffer = BytePacketBuffer::new();
    buffer.seek(505).unwrap();
    assert_eq!(buffer.write_qname("abcdef"), Err(WireError::EndOfBuffer));
    assert_eq!(buffer.head(), 505);
    assert_eq!(buffer.write_qname("abcde"), Ok(()));
    assert_eq!(buffer.head(), 512);
}

#[test]
fn lower_name_round_trip() {
    let mut buffer = ExtendingBuffer::new();
    buffer.write_qname("www.example.org").unwrap();
    buffer.seek(0).unwrap();
    let mut name = String::new();
    buffer.read_qname(&mut name).unwrap();
    assert_eq!(name, "www.example.org");
}

#[test]
fn integers_big_endian() {
    let mut buffer = BytePacketBuffer::new();
    buffer.write_u16(0x0102).unwrap();
    buffer.write_u32(0x03040506).unwrap();
    assert_eq!(&buffer.buf[0..6], &[1, 2, 3, 4, 5, 6]);
    buffer.set_u16(0, 0xA0B0).unwrap();
    buffer.seek(0).unwrap();
    assert_eq!(buffer.read_u16(), Ok(0xA0B0));
    assert_eq!(buffer.read_u32(), Ok(0x03040506));
}

#[test]
fn fixed_buffer_bounds() {
    let mut buffer = BytePacketBuffer::new();
    assert_eq!(buffer.seek(513), Err(WireError::EndOfBuffer));
    buffer.seek(511).unwrap();
    assert_eq!(buffer.write_u16(1), Err(WireError::EndOfBuffer));
    assert_eq!(buffer.head(), 511);
    assert_eq!(buffer.write(9), Ok(()));
    assert_eq!(buffer.write(9), Err(WireError::EndOfBuffer));
    assert_eq!(buffer.read(), Err(WireError::EndOfBuffer));
    assert_eq!(buffer.get(511), Ok(9));
    assert_eq!(buffer.get(512), Err(WireError::EndOfBuffer));
    assert_eq!(buffer.get_range(510, 2).map(|s| s.to_vec()), Ok(vec![0, 9]));
    assert!(buffer.get_range(511, 2).is_err());
    assert_eq!(buffer.set(512, 1), Err(WireError::EndOfBuffer));
    assert_eq!(buffer.step(1), Err(WireError::EndOfBuffer));
}

#[test]
fn extending_buffer_grows() {
    let mut buffer = ExtendingBuffer::new();
    for i in 0..600u32 {
        buffer.write((i % 256) as u8).unwrap();
    }
    assert_eq!(buffer.size(), 600);
    assert_eq!(buffer.get(599), Ok((599 % 256) as u8));
    buffer.seek(1).unwrap();
    buffer.write(0xFF).unwrap();
    assert_eq!(buffer.size(), 600);
    assert_eq!(buffer.get(1), Ok(0xFF));
    assert_eq!(buffer.step(600), Err(WireError::EndOfBuffer));
}

#[test]
fn a_record_round_trip() {
    let record = a_record("a.test", [203, 0, 113, 7], 300);
    let mut buffer = BytePacketBuffer::new();
    let written = record.write(&mut buffer).unwrap();
    assert_eq!(written, 8 + 10 + 4);
    // rdlength follows name (8 bytes), type, class and TTL.
    assert_eq!(&buffer.buf[16..18], &[0, 4]);
    buffer.seek(0).unwrap();
    assert_eq!(DnsRecord::read(&mut buffer), Ok(record));
    assert_eq!(buffer.head(), written);
}

#[test]
fn mx_record_round_trip() {
    let record = DnsRecord::MX {
        domain: "a.test".to_string(),
        priority: 10,
        host: "mail.a.test".to_string(),
        ttl: 3600,
    };
    let mut buffer = BytePacketBuffer::new();
    let written = record.write(&mut buffer).unwrap();
    // rdlength is the priority and the 13-byte encoded host.
    assert_eq!(&buffer.buf[16..18], &[0, 2 + 13]);
    assert_eq!(written, 8 + 10 + 2 + 13);
    buffer.seek(0).unwrap();
    assert_eq!(DnsRecord::read(&mut buffer), Ok(record));
}

#[test]
fn ns_cname_aaaa_round_trip() {
    let records = vec![
        DnsRecord::NS { domain: "test".to_string(), host: "ns.test".to_string(), ttl: 1 },
        DnsRecord::CNAME { domain: "www.test".to_string(), host: "test".to_string(), ttl: 2 },
        DnsRecord::AAAA {
            domain: "v6.test".to_string(),
            addr: [0x20, 0x01, 0x0d, 0xb8, 0, 0, 0, 0, 0, 0, 0, 0, 0, 0, 0, 1],
            ttl: 3,
        },
    ];
    let mut buffer = ExtendingBuffer::new();
    for r in &records {
        r.write(&mut buffer).unwrap();
    }
    buffer.seek(0).unwrap();
    for r in &records {
        assert_eq!(&DnsRecord::read(&mut buffer).unwrap(), r);
    }
    assert_eq!(buffer.head(), buffer.size());
}

#[test]
fn unknown_record_is_skipped_and_dropped() {
    let mut bytes = vec![1u8, b'x', 0, 0, 16, 0, 1, 0, 0, 0, 9, 0, 3, 0xAA, 0xBB, 0xCC, 0x42];
    bytes.push(0);
    let mut buffer = ExtendingBuffer::from_bytes(bytes);
    let record = DnsRecord::read(&mut buffer).unwrap();
    assert_eq!(
        record,
        DnsRecord::UNKNOWN { domain: "x".to_string(), qtype: 16, data_len: 3, ttl: 9 }
    );
    assert_eq!(buffer.head(), 16);
    let mut out = BytePacketBuffer::new();
    assert_eq!(record.write(&mut out), Ok(0));
    assert_eq!(out.head(), 0);
}

#[test]
fn record_label_too_long_writes_nothing() {
    let record = DnsRecord::NS {
        domain: "test".to_string(),
        host: format!("{}.test", "h".repeat(70)),
        ttl: 1,
    };
    let mut buffer = BytePacketBuffer::new();
    assert_eq!(record.write(&mut buffer), Err(WireError::LabelTooLong));
    assert_eq!(buffer.head(), 0);
}

#[test]
fn question_round_trip() {
    let question = DnsQuestion::new("example.test".to_string(), QueryType::MX);
    let mut buffer = BytePacketBuffer::new();
    question.write(&mut buffer).unwrap();
    assert_eq!(buffer.head(), 14 + 4);
    assert_eq!(&buffer.buf[14..18], &[0, 15, 0, 1]);
    buffer.seek(0).unwrap();
    let mut back = DnsQuestion::new(String::new(), QueryType::UNKNOWN(0));
    back.read(&mut buffer).unwrap();
    assert_eq!(back, question);
}

fn sample_packet() -> DnsPacket {
    let mut packet = DnsPacket::new();
    packet.header.id = 77;
    packet.header.response = true;
    packet.header.recursion_desired = true;
    packet.header.questions = 1;
    packet.header.answers = 1;
    packet.header.authoritative_entries = 1;
    packet.header.resource_entries = 1;
    packet.questions.push(DnsQuestion::new("host.test".to_string(), QueryType::A));
    packet.answers.push(a_record("host.test", [198, 51, 100, 10], 60));
    packet.authorities.push(DnsRecord::NS {
        domain: "test".to_string(),
        host: "ns.test".to_string(),
        ttl: 60,
    });
    packet.resources.push(a_record("ns.test", [192, 0, 2, 53], 60));
    packet
}

fn same_packet(a: &DnsPacket, b: &DnsPacket) {
    assert_eq!(a.header, b.header);
    assert_eq!(a.questions, b.questions);
    assert_eq!(a.answers, b.answers);
    assert_eq!(a.authorities, b.authorities);
    assert_eq!(a.resources, b.resources);
}

#[test]
fn packet_round_trip() {
    let original = sample_packet();
    let mut packet = original.clone();
    let mut buffer = BytePacketBuffer::new();
    packet.write(&mut buffer).unwrap();
    same_packet(&packet, &original);
    buffer.seek(0).unwrap();
    let parsed = DnsPacket::from_buffer(&mut buffer).unwrap();
    same_packet(&parsed, &original);
}

#[test]
fn packet_counts_follow_lists() {
    let mut packet = sample_packet();
    packet.header.answers = 9;
    packet.header.questions = 0;
    packet.answers.push(DnsRecord::UNKNOWN {
        domain: "host.test".to_string(),
        qtype: 99,
        data_len: 4,
        ttl: 1,
    });
    let mut buffer = BytePacketBuffer::new();
    packet.write(&mut buffer).unwrap();
    // The unknown answer is dropped and not counted.
    assert_eq!(packet.header.questions, 1);
    assert_eq!(packet.header.answers, 1);
    assert_eq!(packet.header.authoritative_entries, 1);
    assert_eq!(packet.header.resource_entries, 1);
    assert!(!packet.header.truncated_message);
    buffer.seek(0).unwrap();
    let parsed = DnsPacket::from_buffer(&mut buffer).unwrap();
    assert_eq!(parsed.answers.len(), 1);
    assert_eq!(parsed.header.answers, 1);
}

fn big_packet(count: usize) -> DnsPacket {
    let mut packet = DnsPacket::new();
    packet.header.id = 5;
    packet.questions.push(DnsQuestion::new("big.test".to_string(), QueryType::A));
    for i in 0..count {
        packet.answers.push(a_record("big.test", [10, 0, (i / 256) as u8, (i % 256) as u8], 1));
    }
    packet.resources.push(a_record("extra.test", [10, 9, 9, 9], 1));
    packet
}

#[test]
fn truncation_sets_tc() {
    // Each answer is 10 + 10 + 4 = 24 bytes; 40 of them exceed 512 bytes.
    let mut packet = big_packet(40);
    let mut buffer = BytePacketBuffer::new();
    packet.write(&mut buffer).unwrap();
    assert!(packet.header.truncated_message);
    // 12 header bytes and a 14-byte question leave room for 20 answers.
    assert_eq!(packet.header.answers, 20);
    assert_eq!(packet.header.resource_entries, 0);
    assert_eq!(buffer.head(), 12 + 14 + 20 * 24);
    buffer.seek(0).unwrap();
    let parsed = DnsPacket::from_buffer(&mut buffer).unwrap();
    assert!(parsed.header.truncated_message);
    assert_eq!(parsed.answers.len(), 20);
    assert_eq!(parsed.answers[..], packet.answers[..20]);
    assert!(parsed.resources.is_empty());
}

#[test]
fn growable_buffer_does_not_truncate() {
    let mut packet = big_packet(40);
    let mut buffer = ExtendingBuffer::new();
    packet.write(&mut buffer).unwrap();
    assert!(!packet.header.truncated_message);
    assert_eq!(packet.header.answers, 40);
    assert_eq!(packet.header.resource_entries, 1);
    assert!(buffer.head() > 512);
    buffer.seek(0).unwrap();
    let parsed = DnsPacket::from_buffer(&mut buffer).unwrap();
    assert_eq!(parsed.answers.len(), 40);
    assert_eq!(parsed.resources.len(), 1);
}

#[test]
fn packet_question_label_too_long() {
    let mut packet = DnsPacket::new();
    packet.questions.push(DnsQuestion::new("x".repeat(64), QueryType::A));
    let mut buffer = BytePacketBuffer::new();
    assert_eq!(packet.write(&mut buffer), Err(WireError::LabelTooLong));
    assert_eq!(buffer.head(), 0);
}

#[test]
fn packet_header_does_not_fit() {
    let mut packet = sample_packet();
    let mut buffer = BytePacketBuffer::new();
    buffer.seek(505).unwrap();
    assert_eq!(packet.write(&mut buffer), Err(WireError::EndOfBuffer));
    assert_eq!(buffer.head(), 505);
}

#[test]
fn packet_too_many_entries() {
    let mut packet = DnsPacket::new();
    for _ in 0..65536 {
        packet.answers.push(DnsRecord::UNKNOWN {
            domain: String::new(),
            qtype: 99,
            data_len: 0,
            ttl: 0,
        });
    }
    let mut buffer = ExtendingBuffer::new();
    assert_eq!(packet.write(&mut buffer), Err(WireError::TooManyEntries));
}

#[test]
fn packet_parse_fails_on_missing_record() {
    let mut buffer = buffer_with(0, &[0, 1, 0, 0, 0, 0, 0, 1, 0, 0, 0, 0]);
    // One answer counted; the zero bytes after the header read as a record
    // with an empty name and the unknown type 0, holding no data.
    let parsed = DnsPacket::from_buffer(&mut buffer).unwrap();
    assert_eq!(parsed.answers.len(), 1);
    let mut short = ExtendingBuffer::from_bytes(vec![0, 1, 0, 0, 0, 0, 0, 1, 0, 0, 0, 0]);
    assert_eq!(DnsPacket::from_buffer(&mut short).err(), Some(WireError::EndOfBuffer));
}

#[test]
fn invalid_utf8_label_is_replaced() {
    let mut buffer = ExtendingBuffer::from_bytes(vec![2, 0xFF, b'A', 0]);
    let mut name = String::new();
    buffer.read_qname(&mut name).unwrap();
    assert_eq!(name, "\u{FFFD}a");
    assert_eq!(buffer.head(), 4);
}

#[test]
fn write_u8_at_cursor() {
    let mut buffer = BytePacketBuffer::new();
    buffer.write_u8(0x7F).unwrap();
    assert_eq!(buffer.buf[0], 0x7F);
    assert_eq!(buffer.head(), 1);
}
