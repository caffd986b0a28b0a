use dns_resolver::assembly::UDP_LIMIT;
use dns_resolver::buffer::BytePacketBuffer;
use dns_resolver::codes::{QueryType, ResultCode};
use dns_resolver::error::DnsError;
use dns_resolver::header::DnsHeader;
use dns_resolver::packet::DnsPacket;
use dns_resolver::question::DnsQuestion;
use dns_resolver::record::DnsRecord;

fn ipv4(a: u8, b: u8, c: u8, d: u8) -> u32 {
    u32::from_be_bytes([a, b, c, d])
}

fn a(domain: &str, addr: u32) -> DnsRecord {
    DnsRecord::A { domain: domain.to_string(), addr, ttl: 3600 }
}

fn ns(domain: &str, host: &str) -> DnsRecord {
    DnsRecord::NS { domain: domain.to_string(), host: host.to_string(), ttl: 3600 }
}

fn cname(domain: &str, host: &str) -> DnsRecord {
    DnsRecord::CNAME { domain: domain.to_string(), host: host.to_string(), ttl: 3600 }
}

fn sample() -> DnsPacket {
    let mut packet = DnsPacket::new();
    packet.header.id = 0x1234;
    packet.header.response = true;
    packet.header.recursion_desired = true;
    packet.header.recursion_available = true;
    packet.questions.push(DnsQuestion::new("www.example.com".to_string(), QueryType::A));
    packet.answers.push(cname("www.example.com", "example.com"));
    packet.answers.push(a("example.com", ipv4(93, 184, 216, 34)));
    packet.authorities.push(ns("example.com", "ns1.example.com"));
    packet.authorities.push(ns("example.com", "ns2.example.com"));
    packet.resources.push(a("ns1.example.com", ipv4(203, 0, 113, 10)));
    packet.resources.push(DnsRecord::AAAA { domain: "ns1.example.com".to_string(), addr: 0x2001_0db8_0000_0000_0000_0000_0000_0053, ttl: 60 });
    packet.resources.push(DnsRecord::MX { domain: "example.com".to_string(), priority: 5, host: "mx.example.com".to_string(), ttl: 60 });
    packet
}

fn many_answers(count: usize) -> DnsPacket {
    let mut packet = DnsPacket::new();
    packet.header.id = 7;
    for i in 0..count {
        packet.answers.push(a("example.com", i as u32));
    }
    packet
}

fn assert_same(left: &DnsPacket, right: &DnsPacket) {
    assert_eq!(left.header, right.header);
    assert_eq!(left.questions, right.questions);
    assert_eq!(left.answers, right.answers);
    assert_eq!(left.authorities, right.authorities);
    assert_eq!(left.resources, right.resources);
}

#[test]
fn new_packet_is_empty() {
    let packet = DnsPacket::new();
    assert_eq!(packet.header, DnsHeader::new());
    assert!(packet.questions.is_empty());
    assert!(packet.answers.is_empty());
    assert!(packet.authorities.is_empty());
    assert!(packet.resources.is_empty());
    assert_same(&packet, &DnsPacket::default());
}

#[test]
fn write_sets_the_counts_to_the_section_lengths() {
    let mut packet = sample();
    packet.header.questions = 9;
    packet.header.answers = 9;
    packet.header.authoritative_entries = 9;
    packet.header.resource_entries = 9;
    let mut buffer = BytePacketBuffer::new();
    assert_eq!(packet.write(&mut buffer, true), Ok(()));
    assert_eq!(&buffer.buf[4..12], &[0, 1, 0, 2, 0, 2, 0, 3]);
    assert_eq!(
        (packet.header.questions, packet.header.answers, packet.header.authoritative_entries, packet.header.resource_entries),
        (1, 2, 2, 3)
    );
}

#[test]
fn written_packet_is_header_then_sections_in_order() {
    let mut packet = DnsPacket::new();
    packet.header.id = 0x0102;
    packet.questions.push(DnsQuestion::new("q".to_string(), QueryType::A));
    packet.answers.push(DnsRecord::A { domain: "a".to_string(), addr: 0x0A0B0C0D, ttl: 1 });
    packet.authorities.push(DnsRecord::CNAME { domain: "n".to_string(), host: "h".to_string(), ttl: 2 });
    packet.resources.push(DnsRecord::UNKNOWN { domain: "u".to_string(), qtype: 77, data_len: 3, ttl: 3 });
    let mut buffer = BytePacketBuffer::new();
    assert_eq!(packet.write(&mut buffer, false), Ok(()));
    let mut expected = vec![1, 2, 0, 0, 0, 1, 0, 1, 0, 1, 0, 1];
    expected.extend_from_slice(&[1, b'q', 0, 0, 1, 0, 1]);
    expected.extend_from_slice(&[1, b'a', 0, 0, 1, 0, 1, 0, 0, 0, 1, 0, 4, 10, 11, 12, 13]);
    expected.extend_from_slice(&[1, b'n', 0, 0, 5, 0, 1, 0, 0, 0, 2, 0, 3, 1, b'h', 0]);
    assert_eq!(&buffer.buf[0..buffer.pos], &expected[..]);
}

#[test]
fn packet_round_trip() {
    for is_udp in [true, false] {
        let mut packet = sample();
        let mut buffer = BytePacketBuffer::new();
        assert_eq!(packet.write(&mut buffer, is_udp), Ok(()));
        let end = buffer.pos;
        buffer.pos = 0;
        let back = DnsPacket::from_buffer(&mut buffer).unwrap();
        assert_eq!(buffer.pos, end);
        assert_same(&back, &packet);
        assert_eq!(back.questions.len(), 1);
        assert_eq!(back.answers.len(), 2);
        assert_eq!(back.authorities.len(), 2);
        assert_eq!(back.resources.len(), 3);
    }
}

#[test]
fn packet_round_trip_of_empty_sections() {
    let mut packet = DnsPacket::new();
    packet.header.id = 0xFFFF;
    packet.header.rescode = ResultCode::REFUSED;
    packet.header.questions = 3;
    let mut buffer = BytePacketBuffer::new();
    assert_eq!(packet.write(&mut buffer, true), Ok(()));
    assert_eq!(buffer.pos, 12);
    buffer.pos = 0;
    let back = DnsPacket::from_buffer(&mut buffer).unwrap();
    assert_same(&back, &packet);
    assert_eq!(back.header.questions, 0);
}

#[test]
fn from_buffer_reads_as_many_entries_as_the_header_counts() {
    let mut packet = many_answers(3);
    let mut buffer = BytePacketBuffer::new();
    packet.write(&mut buffer, false).unwrap();
    // claim only two answers
    buffer.buf[7] = 2;
    buffer.pos = 0;
    let back = DnsPacket::from_buffer(&mut buffer).unwrap();
    assert_eq!(back.answers.len(), 2);
    assert_eq!(buffer.pos, 12 + 2 * 27);
}

#[test]
fn from_buffer_fails_when_counts_exceed_the_bytes_and_leaves_the_cursor() {
    let mut packet = many_answers(3);
    let mut buffer = BytePacketBuffer::new();
    packet.write(&mut buffer, false).unwrap();
    let end = buffer.pos;
    let mut short = BytePacketBuffer { buf: buffer.buf[0..end - 1].to_vec(), pos: 0 };
    assert!(matches!(DnsPacket::from_buffer(&mut short), Err(DnsError::OutOfBounds)));
    assert_eq!(short.pos, 0);

    let mut lying = BytePacketBuffer { buf: buffer.buf[0..end].to_vec(), pos: 0 };
    lying.buf[11] = 1;
    assert!(matches!(DnsPacket::from_buffer(&mut lying), Err(DnsError::OutOfBounds)));
    assert_eq!(lying.pos, 0);

    let mut tiny = BytePacketBuffer { buf: vec![0; 11], pos: 0 };
    assert!(matches!(DnsPacket::from_buffer(&mut tiny), Err(DnsError::OutOfBounds)));
}

#[test]
fn from_buffer_reports_a_name_loop() {
    let mut buffer = BytePacketBuffer::new();
    buffer.buf[5] = 1;
    buffer.buf[12] = 0xC0;
    buffer.buf[13] = 12;
    assert!(matches!(DnsPacket::from_buffer(&mut buffer), Err(DnsError::NameLoop)));
    assert_eq!(buffer.pos, 0);
}

#[test]
fn large_udp_packet_has_the_truncation_bit_and_tcp_has_not() {
    // 19 answers: 12 + 19 * 27 = 525 bytes
    let mut udp = many_answers(19);
    let mut buffer = BytePacketBuffer::new();
    assert_eq!(udp.write(&mut buffer, true), Ok(()));
    assert_eq!(buffer.pos, 525);
    assert_eq!(buffer.buf[2] & 0x02, 0x02);
    assert!(udp.header.truncated_message);
    buffer.pos = 0;
    let back = DnsPacket::from_buffer(&mut buffer).unwrap();
    assert!(back.header.truncated_message);
    assert_eq!(back.answers.len(), 19);

    let mut tcp = many_answers(19);
    let mut buffer = BytePacketBuffer::new();
    assert_eq!(tcp.write(&mut buffer, false), Ok(()));
    assert_eq!(buffer.pos, 525);
    assert_eq!(buffer.buf[2] & 0x02, 0);
    assert!(!tcp.header.truncated_message);
    buffer.pos = 0;
    let back = DnsPacket::from_buffer(&mut buffer).unwrap();
    assert!(!back.header.truncated_message);
    assert_eq!(back.answers.len(), 19);
}

#[test]
fn truncation_starts_above_512_bytes() {
    assert_eq!(UDP_LIMIT, 512);
    // 12 + 18 * 27 = 498, and a question of 14 bytes makes 512
    let mut packet = many_answers(18);
    packet.questions.push(DnsQuestion::new("abcdefgh".to_string(), QueryType::A));
    let mut buffer = BytePacketBuffer::new();
    packet.write(&mut buffer, true).unwrap();
    assert_eq!(buffer.pos, 512);
    assert_eq!(buffer.buf[2] & 0x02, 0);
    assert!(!packet.header.truncated_message);

    let mut packet = many_answers(18);
    packet.questions.push(DnsQuestion::new("abcdefghi".to_string(), QueryType::A));
    let mut buffer = BytePacketBuffer::new();
    packet.write(&mut buffer, true).unwrap();
    assert_eq!(buffer.pos, 513);
    assert_eq!(buffer.buf[2] & 0x02, 0x02);
    assert!(packet.header.truncated_message);
}

#[test]
fn truncation_bit_keeps_the_other_flags() {
    let mut packet = many_answers(19);
    packet.header.response = true;
    packet.header.recursion_desired = true;
    packet.header.opcode = 5;
    packet.header.authoritative_answer = true;
    let mut buffer = BytePacketBuffer::new();
    packet.write(&mut buffer, true).unwrap();
    assert_eq!(buffer.buf[2], 0x80 | (5 << 3) | 0x04 | 0x02 | 0x01);
}

#[test]
fn truncation_flag_that_was_up_goes_out_as_it_is() {
    let mut packet = many_answers(1);
    packet.header.truncated_message = true;
    let mut buffer = BytePacketBuffer::new();
    packet.write(&mut buffer, false).unwrap();
    assert_eq!(buffer.buf[2] & 0x02, 0x02);
    assert!(packet.header.truncated_message);
}

#[test]
fn truncation_counts_the_bytes_written_not_the_cursor() {
    let mut packet = many_answers(1);
    let mut buffer = BytePacketBuffer::new();
    buffer.pos = 600;
    packet.write(&mut buffer, true).unwrap();
    assert_eq!(buffer.pos, 600 + 12 + 27);
    assert_eq!(buffer.buf[602] & 0x02, 0);
}

#[test]
fn packet_that_does_not_fit_is_not_written() {
    // 12 + 76 * 27 = 2064 > 2048
    let mut packet = many_answers(76);
    packet.header.answers = 5;
    let mut buffer = BytePacketBuffer::new();
    assert_eq!(packet.write(&mut buffer, false), Err(DnsError::OutOfBounds));
    assert_eq!(buffer.pos, 0);
    assert!(buffer.buf.iter().all(|b| *b == 0));
    assert_eq!(packet.header.answers, 5);
    assert!(!packet.has_room(&buffer));
    assert_eq!(packet.check(), Ok(()));

    // 12 + 75 * 27 = 2037
    let mut packet = many_answers(75);
    let mut buffer = BytePacketBuffer::new();
    assert!(packet.has_room(&buffer));
    assert_eq!(packet.write(&mut buffer, false), Ok(()));
    assert_eq!(buffer.pos, 2037);
}

#[test]
fn packet_with_a_long_label_is_refused_first() {
    let mut packet = many_answers(76);
    packet.resources.push(ns("ok", &"x".repeat(64)));
    let mut buffer = BytePacketBuffer::new();
    assert_eq!(packet.check(), Err(DnsError::LabelTooLong));
    assert_eq!(packet.write(&mut buffer, false), Err(DnsError::LabelTooLong));
    assert_eq!(buffer.pos, 0);
    assert!(buffer.buf.iter().all(|b| *b == 0));

    let mut packet = DnsPacket::new();
    packet.questions.push(DnsQuestion::new("y".repeat(64), QueryType::A));
    assert_eq!(packet.write(&mut buffer, false), Err(DnsError::LabelTooLong));
}

#[test]
fn section_with_more_entries_than_a_count_can_say_is_a_protocol_error() {
    let mut packet = DnsPacket::new();
    for _ in 0..65536 {
        packet.authorities.push(DnsRecord::UNKNOWN { domain: String::new(), qtype: 0, data_len: 0, ttl: 0 });
    }
    let mut buffer = BytePacketBuffer::new();
    assert_eq!(packet.check(), Err(DnsError::ProtocolError));
    assert_eq!(packet.write(&mut buffer, true), Err(DnsError::ProtocolError));
    assert_eq!(buffer.pos, 0);
    packet.authorities.pop();
    assert_eq!(packet.write(&mut buffer, true), Ok(()));
    assert_eq!(&buffer.buf[8..10], &[0xFF, 0xFF]);
    assert_eq!(buffer.pos, 12);
}

#[test]
fn get_random_a_is_the_first_a_answer() {
    let mut packet = DnsPacket::new();
    assert_eq!(packet.get_random_a(), None);
    packet.answers.push(cname("a", "b"));
    assert_eq!(packet.get_random_a(), None);
    packet.answers.push(a("b", 11));
    packet.answers.push(a("b", 22));
    assert_eq!(packet.get_random_a(), Some(11));
    packet.resources.push(a("c", 33));
    assert_eq!(packet.get_random_a(), Some(11));
}

#[test]
fn get_cname_is_a_copy_of_the_first_cname_answer() {
    let mut packet = DnsPacket::new();
    assert_eq!(packet.get_cname(), None);
    packet.answers.push(a("b", 11));
    packet.authorities.push(cname("x", "y"));
    assert_eq!(packet.get_cname(), None);
    packet.answers.push(cname("a", "b"));
    packet.answers.push(cname("c", "d"));
    assert_eq!(packet.get_cname(), Some(cname("a", "b")));
}

#[test]
fn final_answers_are_the_a_answers_in_order() {
    let mut packet = DnsPacket::new();
    assert!(packet.final_answers().is_empty());
    packet.answers.push(a("b", 11));
    packet.answers.push(cname("a", "b"));
    packet.answers.push(DnsRecord::AAAA { domain: "b".to_string(), addr: 1, ttl: 1 });
    packet.answers.push(a("b", 22));
    assert_eq!(packet.final_answers(), vec![&a("b", 11), &a("b", 22)]);
}

#[test]
fn get_ns_keeps_delegations_whose_owner_ends_the_name() {
    let mut packet = DnsPacket::new();
    packet.authorities.push(ns("example.com", "ns1.example.com"));
    packet.authorities.push(ns("other.org", "ns.other.org"));
    packet.authorities.push(a("example.com", 1));
    packet.authorities.push(ns("com", "a.gtld-servers.net"));
    packet.authorities.push(ns("www.example.com.", "dotted"));
    packet.authorities.push(ns("", "root"));
    packet.answers.push(ns("example.com", "in-answers"));
    assert_eq!(
        packet.get_ns("www.example.com"),
        vec!["ns1.example.com", "a.gtld-servers.net", "root"]
    );
    assert_eq!(packet.get_ns("org"), vec!["root"]);
    assert_eq!(packet.get_unresolved_ns("www.example.com"), Some("ns1.example.com"));
    assert_eq!(packet.get_unresolved_ns("other.org"), Some("ns.other.org"));
    packet.authorities.pop();
    assert_eq!(packet.get_unresolved_ns("nothing.net"), None);
}

#[test]
fn get_resolved_ns_wants_glue_for_a_matching_delegation() {
    let mut packet = DnsPacket::new();
    packet.authorities.push(ns("example.com", "ns1.example.com"));
    packet.authorities.push(ns("example.com", "ns2.example.com"));
    packet.authorities.push(ns("other.org", "ns.other.org"));
    assert_eq!(packet.get_resolved_ns("www.example.com"), None);

    packet.resources.push(a("ns.other.org", 99));
    packet.resources.push(DnsRecord::AAAA { domain: "ns1.example.com".to_string(), addr: 6, ttl: 1 });
    assert_eq!(packet.get_resolved_ns("www.example.com"), None);
    assert_eq!(packet.get_resolved_ns("other.org"), Some(99));

    packet.resources.push(a("ns2.example.com", 20));
    packet.resources.push(a("ns2.example.com", 21));
    assert_eq!(packet.get_resolved_ns("www.example.com"), Some(20));

    // the first delegation that has glue decides, not the first glue
    packet.resources.push(a("ns1.example.com", 10));
    assert_eq!(packet.get_resolved_ns("www.example.com"), Some(10));
    assert_eq!(packet.get_resolved_ns("example.org"), None);
}

#[test]
fn merge_appends_answers_and_takes_the_response_code() {
    let mut acc = DnsPacket::new();
    acc.header.id = 5;
    acc.header.response = true;
    acc.answers.push(cname("a", "b"));
    acc.questions.push(DnsQuestion::new("keep".to_string(), QueryType::A));
    let mut response = DnsPacket::new();
    response.header.id = 6666;
    response.header.rescode = ResultCode::NXDOMAIN;
    response.header.authoritative_answer = true;
    response.answers.push(a("b", 1));
    response.answers.push(a("b", 2));
    response.authorities.push(ns("b", "ns.b"));
    response.resources.push(a("ns.b", 3));
    response.questions.push(DnsQuestion::new("drop".to_string(), QueryType::A));
    acc.merge(response);
    assert_eq!(acc.answers, vec![cname("a", "b"), a("b", 1), a("b", 2)]);
    assert_eq!(acc.header.rescode, ResultCode::NXDOMAIN);
    assert_eq!(acc.header.id, 5);
    assert!(acc.header.response);
    assert!(!acc.header.authoritative_answer);
    assert!(acc.authorities.is_empty());
    assert!(acc.resources.is_empty());
    assert_eq!(acc.questions, vec![DnsQuestion::new("keep".to_string(), QueryType::A)]);
}
