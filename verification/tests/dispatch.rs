use dns_resolver::buffer::BytePacketBuffer;
use dns_resolver::cache::DnsCache;
use dns_resolver::codes::{QueryType, ResultCode};
use dns_resolver::dispatch::{conclude, open_request, respond, Opened};
use dns_resolver::error::DnsError;
use dns_resolver::lookup::{advance, encode_query, settle};
use dns_resolver::packet::DnsPacket;
use dns_resolver::question::DnsQuestion;
use dns_resolver::record::DnsRecord;
use dns_resolver::resolver::{Action, Query, Resolver, ROOT_SERVER};

fn ipv4(a: u8, b: u8, c: u8, d: u8) -> u32 {
    u32::from_be_bytes([a, b, c, d])
}

fn a(domain: &str, addr: u32) -> DnsRecord {
    DnsRecord::A { domain: domain.to_string(), addr, ttl: 3600 }
}

fn request(id: u16, questions: &[(&str, QueryType)]) -> BytePacketBuffer {
    let mut packet = DnsPacket::new();
    packet.header.id = id;
    packet.header.recursion_desired = true;
    for (name, qtype) in questions {
        packet.questions.push(DnsQuestion::new(name.to_string(), *qtype));
    }
    let mut buffer = BytePacketBuffer::new();
    packet.write(&mut buffer, true).unwrap();
    buffer.pos = 0;
    buffer
}

fn parsed(buffer: &BytePacketBuffer) -> DnsPacket {
    let mut copy = BytePacketBuffer { buf: buffer.buf.clone(), pos: 0 };
    let packet = DnsPacket::from_buffer(&mut copy).unwrap();
    assert_eq!(copy.pos, buffer.pos);
    packet
}

#[test]
fn open_request_hands_out_the_question_and_a_blank_response() {
    let mut buffer = request(0xBEEF, &[("Example.COM", QueryType::A)]);
    match open_request(&mut buffer).unwrap() {
        Opened::Question { response, question } => {
            assert_eq!(question, DnsQuestion::new("example.com".to_string(), QueryType::A));
            assert_eq!(response.header.id, 0xBEEF);
            assert!(response.header.response);
            assert!(response.header.recursion_desired);
            assert!(response.header.recursion_available);
            assert_eq!(response.header.rescode, ResultCode::NOERROR);
            assert!(response.questions.is_empty() && response.answers.is_empty());
        }
        Opened::Reply { .. } => panic!("a request with a question is to be resolved"),
    }
    assert_eq!(buffer.pos, 12 + 13 + 4);
}

#[test]
fn open_request_takes_the_last_question() {
    let mut buffer = request(1, &[("first", QueryType::A), ("second", QueryType::MX)]);
    match open_request(&mut buffer).unwrap() {
        Opened::Question { question, .. } => {
            assert_eq!(question, DnsQuestion::new("second".to_string(), QueryType::MX));
        }
        Opened::Reply { .. } => panic!("a request with a question is to be resolved"),
    }
}

#[test]
fn request_without_question_is_answered_formerr() {
    let mut buffer = request(0x0102, &[]);
    match open_request(&mut buffer).unwrap() {
        Opened::Reply { response } => {
            assert_eq!(response.header.id, 0x0102);
            assert_eq!(response.header.rescode, ResultCode::FORMERR);
            assert!(response.header.response);
            let out = respond(response, true);
            let sent = parsed(&out);
            assert_eq!(sent.header.rescode, ResultCode::FORMERR);
            assert_eq!(sent.header.questions, 0);
            assert_eq!(sent.header.id, 0x0102);
        }
        Opened::Question { .. } => panic!("there is no question to resolve"),
    }
}

#[test]
fn request_that_does_not_read_whole_is_answered_servfail() {
    let whole = request(0x0A0B, &[("example.com", QueryType::A)]);
    let mut cut = BytePacketBuffer { buf: whole.buf[0..20].to_vec(), pos: 0 };
    match open_request(&mut cut).unwrap() {
        Opened::Reply { response } => {
            assert_eq!(response.header.id, 0x0A0B);
            assert_eq!(response.header.rescode, ResultCode::SERVFAIL);
        }
        Opened::Question { .. } => panic!("a cut request has no question"),
    }
    assert_eq!(cut.pos, 0);
}

#[test]
fn request_without_a_whole_header_is_refused() {
    let mut buffer = BytePacketBuffer { buf: vec![0; 11], pos: 0 };
    assert!(matches!(open_request(&mut buffer), Err(DnsError::OutOfBounds)));
    assert_eq!(buffer.pos, 0);
}

#[test]
fn conclude_echoes_the_question_after_a_resolution() {
    let mut packet = DnsPacket::new();
    packet.answers.push(a("example.com", 1));
    let question = DnsQuestion::new("example.com".to_string(), QueryType::A);
    let closed = conclude(Action::Done(packet), question.clone()).unwrap();
    assert_eq!(closed.questions, vec![question.clone()]);
    assert_eq!(closed.answers, vec![a("example.com", 1)]);
    assert_eq!(closed.header.rescode, ResultCode::NOERROR);

    let mut packet = DnsPacket::new();
    packet.header.id = 3;
    packet.answers.push(a("example.com", 1));
    let closed = conclude(Action::Exhausted(packet), question.clone()).unwrap();
    assert!(closed.questions.is_empty());
    assert_eq!(closed.header.rescode, ResultCode::SERVFAIL);
    assert_eq!(closed.header.id, 3);
    assert_eq!(closed.answers, vec![a("example.com", 1)]);

    let ask = Action::Ask(Query { server: 1, qname: "x".to_string(), qtype: QueryType::A });
    assert!(conclude(ask, question).is_none());
}

#[test]
fn encode_query_writes_the_query_into_a_fresh_buffer() {
    let query = Query { server: ROOT_SERVER, qname: "ab.c".to_string(), qtype: QueryType::NS };
    let buffer = encode_query(&query, true).unwrap();
    assert_eq!(buffer.pos, 12 + 6 + 4);
    assert_eq!(
        &buffer.buf[0..22],
        &[0x1A, 0x0A, 0x01, 0x00, 0, 1, 0, 0, 0, 0, 0, 0, 2, b'a', b'b', 1, b'c', 0, 0, 2, 0, 1]
    );
    assert_eq!(buffer.buf.len(), 2048);

    let query = Query { server: 1, qname: "l".repeat(64), qtype: QueryType::A };
    assert!(matches!(encode_query(&query, true), Err(DnsError::LabelTooLong)));
    let long = vec!["l".repeat(63); 32].join(".");
    let query = Query { server: 1, qname: long, qtype: QueryType::A };
    assert!(matches!(encode_query(&query, true), Err(DnsError::OutOfBounds)));
}

#[test]
fn respond_falls_back_to_servfail_for_what_cannot_be_written() {
    let mut packet = DnsPacket::new();
    packet.header.id = 0x7777;
    packet.header.response = true;
    for i in 0..80 {
        packet.answers.push(a("example.com", i));
    }
    let out = respond(packet, false);
    assert_eq!(out.pos, 12);
    let sent = parsed(&out);
    assert_eq!(sent.header.id, 0x7777);
    assert_eq!(sent.header.rescode, ResultCode::SERVFAIL);
    assert!(sent.header.response && sent.header.recursion_desired && sent.header.recursion_available);
    assert!(sent.answers.is_empty());
}

#[test]
fn large_response_is_truncated_over_udp_and_whole_over_tcp() {
    let mut udp = DnsPacket::new();
    let mut tcp = DnsPacket::new();
    for i in 0..30 {
        udp.answers.push(a("example.com", i));
        tcp.answers.push(a("example.com", i));
    }
    let out_udp = respond(udp, true);
    let out_tcp = respond(tcp, false);
    assert_eq!(out_udp.pos, 12 + 30 * 27);
    assert_eq!(out_tcp.pos, 12 + 30 * 27);
    assert!(out_udp.pos > 512);
    assert_eq!(out_udp.buf[2] & 0x02, 0x02);
    assert_eq!(out_tcp.buf[2] & 0x02, 0x00);
    assert!(parsed(&out_udp).header.truncated_message);
    let whole = parsed(&out_tcp);
    assert!(!whole.header.truncated_message);
    assert_eq!(whole.answers.len(), 30);
    assert_eq!(&out_udp.buf[3..out_udp.pos], &out_tcp.buf[3..out_tcp.pos]);
}

/// Serves one request with replies of the network scripted in order, and returns what is sent
/// back together with the queries that went out.
fn serve(
    req: &mut BytePacketBuffer,
    is_udp: bool,
    cache: &mut DnsCache,
    script: Vec<Option<DnsPacket>>,
) -> (BytePacketBuffer, Vec<(u32, String, QueryType)>) {
    let mut asked = Vec::new();
    let mut script = script.into_iter();
    let packet = match open_request(req).unwrap() {
        Opened::Reply { response } => response,
        Opened::Question { response, question } => {
            let (mut resolver, first) = Resolver::start(question.name.clone(), question.qtype, response);
            let mut action = settle(&mut resolver, cache, first);
            loop {
                match action {
                    Action::Ask(query) => {
                        let wire = encode_query(&query, is_udp).unwrap();
                        let sent = parsed(&wire);
                        assert_eq!(sent.questions, vec![DnsQuestion::new(query.qname.clone(), query.qtype)]);
                        asked.push((query.server, query.qname.clone(), query.qtype));
                        let reply = script.next().expect("the script has run out of replies");
                        // the reply takes the way over the wire
                        let reply = reply.map(|mut packet| {
                            let mut buffer = BytePacketBuffer::new();
                            packet.write(&mut buffer, is_udp).unwrap();
                            buffer.pos = 0;
                            DnsPacket::from_buffer(&mut buffer).unwrap()
                        });
                        action = advance(&mut resolver, cache, reply);
                    }
                    closing => break conclude(closing, question).unwrap(),
                }
            }
        }
    };
    (respond(packet, is_udp), asked)
}

fn reply(answers: Vec<DnsRecord>, authorities: Vec<DnsRecord>, resources: Vec<DnsRecord>) -> DnsPacket {
    let mut packet = DnsPacket::new();
    packet.header.id = 6666;
    packet.header.response = true;
    packet.answers = answers;
    packet.authorities = authorities;
    packet.resources = resources;
    packet
}

#[test]
fn served_direct_a() {
    let mut cache = DnsCache::new(1000);
    let mut req = request(0x4242, &[("example.com", QueryType::A)]);
    let upstream = reply(vec![a("example.com", ipv4(93, 184, 216, 34))], vec![], vec![]);
    let (out, asked) = serve(&mut req, true, &mut cache, vec![Some(upstream)]);
    assert_eq!(asked, vec![(ROOT_SERVER, "example.com".to_string(), QueryType::A)]);
    let sent = parsed(&out);
    assert_eq!(sent.header.id, 0x4242);
    assert_eq!(sent.header.rescode, ResultCode::NOERROR);
    assert!(sent.header.response);
    assert!(sent.header.recursion_available);
    assert_eq!(sent.questions, vec![DnsQuestion::new("example.com".to_string(), QueryType::A)]);
    assert_eq!(sent.answers, vec![DnsRecord::A { domain: "example.com".to_string(), addr: ipv4(93, 184, 216, 34), ttl: 3600 }]);
    assert_eq!(sent.header.questions, 1);
    assert_eq!(sent.header.answers, 1);

    // the second time the cache answers
    let mut req = request(0x4243, &[("example.com", QueryType::A)]);
    let (out, asked) = serve(&mut req, true, &mut cache, vec![]);
    assert!(asked.is_empty());
    let sent = parsed(&out);
    assert_eq!(sent.header.id, 0x4243);
    assert_eq!(sent.answers, vec![a("example.com", ipv4(93, 184, 216, 34))]);
}

#[test]
fn served_nxdomain() {
    let mut cache = DnsCache::new(1000);
    let mut req = request(9, &[("nonexistent.invalid", QueryType::A)]);
    let mut upstream = reply(vec![], vec![], vec![]);
    upstream.header.rescode = ResultCode::NXDOMAIN;
    let (out, asked) = serve(&mut req, true, &mut cache, vec![Some(upstream)]);
    assert_eq!(asked.len(), 1);
    let sent = parsed(&out);
    assert_eq!(sent.header.rescode, ResultCode::NXDOMAIN);
    assert!(sent.final_answers().is_empty());
    assert_eq!(sent.header.id, 9);
}

#[test]
fn served_cname_chain() {
    let mut cache = DnsCache::new(1000);
    let mut req = request(10, &[("www.example.com", QueryType::A)]);
    let first = reply(
        vec![DnsRecord::CNAME { domain: "www.example.com".to_string(), host: "example.com".to_string(), ttl: 60 }],
        vec![],
        vec![],
    );
    let second = reply(vec![a("example.com", ipv4(93, 184, 216, 34))], vec![], vec![]);
    let (out, asked) = serve(&mut req, false, &mut cache, vec![Some(first), Some(second)]);
    assert_eq!(
        asked,
        vec![
            (ROOT_SERVER, "www.example.com".to_string(), QueryType::A),
            (ROOT_SERVER, "example.com".to_string(), QueryType::A),
        ]
    );
    let sent = parsed(&out);
    assert_eq!(sent.get_random_a(), Some(ipv4(93, 184, 216, 34)));
    assert_eq!(sent.answers.len(), 2);
}

#[test]
fn served_delegation_with_glue() {
    let mut cache = DnsCache::new(1000);
    let mut req = request(11, &[("www.example.com", QueryType::A)]);
    let root = reply(
        vec![],
        vec![DnsRecord::NS { domain: "example.com".to_string(), host: "ns.example.com".to_string(), ttl: 60 }],
        vec![a("ns.example.com", ipv4(203, 0, 113, 10))],
    );
    let leaf = reply(vec![a("www.example.com", ipv4(192, 0, 2, 1))], vec![], vec![]);
    let (out, asked) = serve(&mut req, true, &mut cache, vec![Some(root), Some(leaf)]);
    assert_eq!(asked[1], (ipv4(203, 0, 113, 10), "www.example.com".to_string(), QueryType::A));
    assert_eq!(parsed(&out).answers, vec![a("www.example.com", ipv4(192, 0, 2, 1))]);
}

#[test]
fn served_delegation_without_glue() {
    let mut cache = DnsCache::new(1000);
    let mut req = request(12, &[("www.example.com", QueryType::A)]);
    let root = reply(
        vec![],
        vec![DnsRecord::NS { domain: "example.com".to_string(), host: "ns.example.com".to_string(), ttl: 60 }],
        vec![],
    );
    let ns_addr = reply(vec![a("ns.example.com", ipv4(203, 0, 113, 10))], vec![], vec![]);
    let leaf = reply(vec![a("www.example.com", ipv4(192, 0, 2, 1))], vec![], vec![]);
    let (out, asked) = serve(&mut req, true, &mut cache, vec![Some(root), Some(ns_addr), Some(leaf)]);
    assert_eq!(
        asked,
        vec![
            (ROOT_SERVER, "www.example.com".to_string(), QueryType::A),
            (ROOT_SERVER, "ns.example.com".to_string(), QueryType::A),
            (ipv4(203, 0, 113, 10), "www.example.com".to_string(), QueryType::A),
        ]
    );
    assert_eq!(parsed(&out).answers, vec![a("www.example.com", ipv4(192, 0, 2, 1))]);
}

#[test]
fn served_upstream_failure_is_servfail_under_the_same_id() {
    let mut cache = DnsCache::new(1000);
    let mut req = request(0x0D0D, &[("example.com", QueryType::A)]);
    let (out, asked) = serve(&mut req, true, &mut cache, vec![None]);
    assert_eq!(asked.len(), 1);
    let sent = parsed(&out);
    assert_eq!(sent.header.id, 0x0D0D);
    assert_eq!(sent.header.rescode, ResultCode::SERVFAIL);
    assert!(sent.header.response);
}

#[test]
fn served_truncation() {
    let answers: Vec<DnsRecord> = (0..30).map(|i| a("big.example.com", i)).collect();
    let mut cache = DnsCache::new(1000);
    let mut req = request(13, &[("big.example.com", QueryType::A)]);
    let (udp, _) = serve(&mut req, true, &mut cache, vec![Some(reply(answers.clone(), vec![], vec![]))]);
    assert!(udp.pos > 512);
    assert_eq!(udp.buf[2] & 0x02, 0x02);

    let mut cache = DnsCache::new(1000);
    let mut req = request(13, &[("big.example.com", QueryType::A)]);
    let (tcp, _) = serve(&mut req, false, &mut cache, vec![Some(reply(answers.clone(), vec![], vec![]))]);
    assert_eq!(tcp.buf[2] & 0x02, 0);
    assert_eq!(tcp.pos, udp.pos);
    assert_eq!(parsed(&tcp).answers, answers);
}
