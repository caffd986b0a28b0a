use dns_resolver::cache::DnsCache;
use dns_resolver::codes::{QueryType, ResultCode};
use dns_resolver::lookup::{advance, settle};
use dns_resolver::packet::DnsPacket;
use dns_resolver::record::DnsRecord;
use dns_resolver::resolver::{classify, Action, Query, Resolver, Verdict, MAX_QUERIES, ROOT_SERVER};

fn ipv4(a: u8, b: u8, c: u8, d: u8) -> u32 {
    u32::from_be_bytes([a, b, c, d])
}

fn a(domain: &str, addr: u32) -> DnsRecord {
    DnsRecord::A { domain: domain.to_string(), addr, ttl: 3600 }
}

fn ns(domain: &str, host: &str) -> DnsRecord {
    DnsRecord::NS { domain: domain.to_string(), host: host.to_string(), ttl: 3600 }
}

fn cname(domain: &str, host: &str) -> DnsRecord {
    DnsRecord::CNAME { domain: domain.to_string(), host: host.to_string(), ttl: 3600 }
}

fn reply(answers: Vec<DnsRecord>, authorities: Vec<DnsRecord>, resources: Vec<DnsRecord>) -> DnsPacket {
    let mut packet = DnsPacket::new();
    packet.header.id = 6666;
    packet.header.response = true;
    packet.answers = answers;
    packet.authorities = authorities;
    packet.resources = resources;
    packet
}

fn nxdomain() -> DnsPacket {
    let mut packet = reply(vec![], vec![], vec![]);
    packet.header.rescode = ResultCode::NXDOMAIN;
    packet
}

fn response() -> DnsPacket {
    let mut packet = DnsPacket::new();
    packet.header.id = 42;
    packet.header.response = true;
    packet.header.recursion_desired = true;
    packet.header.recursion_available = true;
    packet
}

fn expect_ask(action: Action, server: u32, qname: &str, qtype: QueryType) {
    match action {
        Action::Ask(Query { server: s, qname: n, qtype: t }) => {
            assert_eq!((s, n.as_str(), t), (server, qname, qtype));
        }
        Action::Done(_) => panic!("done, where a query for {} was expected", qname),
        Action::Exhausted(_) => panic!("exhausted, where a query for {} was expected", qname),
    }
}

fn expect_done(action: Action) -> DnsPacket {
    match action {
        Action::Done(packet) => packet,
        Action::Ask(query) => panic!("asks for {}, where the end was expected", query.qname),
        Action::Exhausted(_) => panic!("exhausted, where the end was expected"),
    }
}

#[test]
fn root_server_is_a_root_servers_net() {
    assert_eq!(ROOT_SERVER, ipv4(198, 41, 0, 4));
    assert_eq!(MAX_QUERIES, 16);
}

#[test]
fn classify_takes_the_first_reading_that_fits() {
    let glue = reply(vec![], vec![ns("example.com", "ns.example.com")], vec![a("ns.example.com", 9)]);
    assert!(matches!(classify(&glue, "www.example.com"), Verdict::Glue(9)));
    assert!(matches!(classify(&glue, "www.example.org"), Verdict::Dead));

    let bare = reply(vec![], vec![ns("example.com", "ns.example.com")], vec![]);
    assert!(matches!(classify(&bare, "www.example.com"), Verdict::Delegation(name) if name == "ns.example.com"));

    let mut answered = reply(vec![cname("w", "e"), a("e", 1)], vec![ns("e", "n")], vec![a("n", 2)]);
    assert!(matches!(classify(&answered, "e"), Verdict::Answer));
    answered.header.rescode = ResultCode::SERVFAIL;
    assert!(matches!(classify(&answered, "e"), Verdict::Alias(host) if host == "e"));

    let mut negative = nxdomain();
    assert!(matches!(classify(&negative, "e"), Verdict::Negative));
    negative.authorities.push(ns("e", "n"));
    negative.resources.push(a("n", 2));
    assert!(matches!(classify(&negative, "e"), Verdict::Negative));
    negative.answers.push(cname("e", "f"));
    assert!(matches!(classify(&negative, "e"), Verdict::Alias(host) if host == "f"));

    assert!(matches!(classify(&reply(vec![], vec![], vec![]), "e"), Verdict::Dead));
}

#[test]
fn direct_a_answer_ends_the_resolution() {
    let (mut resolver, first) = Resolver::start("example.com".to_string(), QueryType::A, response());
    expect_ask(first, ROOT_SERVER, "example.com", QueryType::A);
    let done = expect_done(resolver.step(reply(vec![a("example.com", ipv4(93, 184, 216, 34))], vec![], vec![])));
    assert_eq!(done.header.rescode, ResultCode::NOERROR);
    assert_eq!(done.header.id, 42);
    assert!(done.header.response && done.header.recursion_available);
    assert_eq!(done.answers, vec![a("example.com", ipv4(93, 184, 216, 34))]);
    assert_eq!(done.answers[0].ttl(), 3600);
    assert!(resolver.frames.is_empty());
}

#[test]
fn nxdomain_ends_the_resolution_without_answers() {
    let (mut resolver, first) = Resolver::start("nonexistent.invalid".to_string(), QueryType::A, response());
    expect_ask(first, ROOT_SERVER, "nonexistent.invalid", QueryType::A);
    let done = expect_done(resolver.step(nxdomain()));
    assert_eq!(done.header.rescode, ResultCode::NXDOMAIN);
    assert!(done.final_answers().is_empty());
    assert!(done.answers.is_empty());
}

#[test]
fn cname_is_chased_from_the_root_for_an_address() {
    let (mut resolver, first) = Resolver::start("a".to_string(), QueryType::A, response());
    expect_ask(first, ROOT_SERVER, "a", QueryType::A);
    let next = resolver.step(reply(vec![cname("a", "b")], vec![], vec![]));
    expect_ask(next, ROOT_SERVER, "b", QueryType::A);
    let done = expect_done(resolver.step(reply(vec![a("b", ipv4(1, 2, 3, 4))], vec![], vec![])));
    assert_eq!(done.get_random_a(), Some(ipv4(1, 2, 3, 4)));
    assert_eq!(done.answers, vec![cname("a", "b"), a("b", ipv4(1, 2, 3, 4))]);
    assert_eq!(done.header.rescode, ResultCode::NOERROR);
}

#[test]
fn cname_chain_to_example_com() {
    let (mut resolver, first) = Resolver::start("www.example.com".to_string(), QueryType::A, response());
    expect_ask(first, ROOT_SERVER, "www.example.com", QueryType::A);
    let next = resolver.step(reply(vec![cname("www.example.com", "example.com")], vec![], vec![]));
    expect_ask(next, ROOT_SERVER, "example.com", QueryType::A);
    let done = expect_done(resolver.step(reply(vec![a("example.com", ipv4(93, 184, 216, 34))], vec![], vec![])));
    assert!(done.answers.contains(&a("example.com", ipv4(93, 184, 216, 34))));
}

#[test]
fn cname_chase_after_a_delegation_starts_again_at_the_root() {
    let (mut resolver, _) = Resolver::start("www.example.com".to_string(), QueryType::AAAA, response());
    let next = resolver.step(reply(vec![], vec![ns("com", "ns.com")], vec![a("ns.com", 77)]));
    expect_ask(next, 77, "www.example.com", QueryType::AAAA);
    let next = resolver.step(reply(vec![cname("www.example.com", "example.com")], vec![], vec![]));
    expect_ask(next, ROOT_SERVER, "example.com", QueryType::A);
}

#[test]
fn question_for_the_cname_itself_ends_with_the_cname() {
    let (mut resolver, first) = Resolver::start("a".to_string(), QueryType::CNAME, response());
    expect_ask(first, ROOT_SERVER, "a", QueryType::CNAME);
    let done = expect_done(resolver.step(reply(vec![cname("a", "b")], vec![], vec![])));
    assert_eq!(done.answers, vec![cname("a", "b")]);
}

#[test]
fn delegation_with_glue_sends_the_next_query_to_the_glue_address() {
    let (mut resolver, first) = Resolver::start("www.example.com".to_string(), QueryType::A, response());
    expect_ask(first, ROOT_SERVER, "www.example.com", QueryType::A);
    let next = resolver.step(reply(
        vec![],
        vec![ns("example.com", "ns.example.com")],
        vec![a("ns.example.com", ipv4(203, 0, 113, 10))],
    ));
    expect_ask(next, ipv4(203, 0, 113, 10), "www.example.com", QueryType::A);
    let done = expect_done(resolver.step(reply(vec![a("www.example.com", 5)], vec![], vec![])));
    assert_eq!(done.answers, vec![a("www.example.com", 5)]);
    assert!(done.authorities.is_empty() && done.resources.is_empty());
}

#[test]
fn delegation_without_glue_resolves_the_name_server_first() {
    let (mut resolver, first) = Resolver::start("www.example.com".to_string(), QueryType::A, response());
    expect_ask(first, ROOT_SERVER, "www.example.com", QueryType::A);
    let next = resolver.step(reply(vec![], vec![ns("example.com", "ns.example.com")], vec![]));
    expect_ask(next, ROOT_SERVER, "ns.example.com", QueryType::A);
    assert_eq!(resolver.frames.len(), 2);
    let next = resolver.step(reply(vec![a("ns.example.com", ipv4(203, 0, 113, 10))], vec![], vec![]));
    expect_ask(next, ipv4(203, 0, 113, 10), "www.example.com", QueryType::A);
    assert_eq!(resolver.frames.len(), 1);
    let done = expect_done(resolver.step(reply(vec![a("www.example.com", 5)], vec![], vec![])));
    // what the resolution of the name server gathered is not part of the answer
    assert_eq!(done.answers, vec![a("www.example.com", 5)]);
}

#[test]
fn name_server_without_address_ends_the_resolution_with_what_it_gathered() {
    let (mut resolver, _) = Resolver::start("www.example.com".to_string(), QueryType::A, response());
    let next = resolver.step(reply(vec![], vec![ns("example.com", "ns.example.com")], vec![]));
    expect_ask(next, ROOT_SERVER, "ns.example.com", QueryType::A);
    let done = expect_done(resolver.step(nxdomain()));
    assert_eq!(done.header.rescode, ResultCode::NXDOMAIN);
    assert_eq!(done.header.id, 42);
    assert!(done.answers.is_empty());
}

#[test]
fn nested_name_server_resolutions_unwind_in_order() {
    let (mut resolver, _) = Resolver::start("w.a".to_string(), QueryType::A, response());
    let next = resolver.step(reply(vec![], vec![ns("a", "ns.b")], vec![]));
    expect_ask(next, ROOT_SERVER, "ns.b", QueryType::A);
    let next = resolver.step(reply(vec![], vec![ns("b", "ns.c")], vec![]));
    expect_ask(next, ROOT_SERVER, "ns.c", QueryType::A);
    assert_eq!(resolver.frames.len(), 3);
    let next = resolver.step(reply(vec![a("ns.c", 3)], vec![], vec![]));
    expect_ask(next, 3, "ns.b", QueryType::A);
    let next = resolver.step(reply(vec![a("ns.b", 2)], vec![], vec![]));
    expect_ask(next, 2, "w.a", QueryType::A);
    let done = expect_done(resolver.step(reply(vec![cname("x", "y"), a("w.a", 1)], vec![], vec![])));
    assert_eq!(done.answers, vec![cname("x", "y"), a("w.a", 1)]);
}

#[test]
fn reply_that_leads_nowhere_stands() {
    let (mut resolver, _) = Resolver::start("w.a".to_string(), QueryType::A, response());
    let mut dead = reply(vec![DnsRecord::AAAA { domain: "w.a".to_string(), addr: 1, ttl: 1 }], vec![ns("other", "ns.other")], vec![]);
    dead.header.rescode = ResultCode::REFUSED;
    let done = expect_done(resolver.step(dead));
    assert_eq!(done.header.rescode, ResultCode::REFUSED);
    assert_eq!(done.answers, vec![DnsRecord::AAAA { domain: "w.a".to_string(), addr: 1, ttl: 1 }]);
}

#[test]
fn server_that_does_not_answer_counts_as_servfail() {
    let (mut resolver, _) = Resolver::start("w.a".to_string(), QueryType::A, response());
    let next = resolver.step(reply(vec![cname("w.a", "v.a")], vec![], vec![]));
    expect_ask(next, ROOT_SERVER, "v.a", QueryType::A);
    let done = expect_done(resolver.step_failed());
    assert_eq!(done.header.rescode, ResultCode::SERVFAIL);
    assert_eq!(done.answers, vec![cname("w.a", "v.a")]);
    assert_eq!(done.header.id, 42);
}

#[test]
fn resolution_asks_sixteen_queries_at_most() {
    let (mut resolver, mut action) = Resolver::start("w.a".to_string(), QueryType::A, response());
    let mut asked = 0;
    loop {
        match action {
            Action::Ask(query) => {
                asked += 1;
                assert_eq!(query.server, if asked == 1 { ROOT_SERVER } else { 1000 + asked - 1 });
                action = resolver.step(reply(vec![], vec![ns("a", "ns.a")], vec![a("ns.a", 1000 + asked)]));
            }
            Action::Done(_) => panic!("an endless delegation cannot be done"),
            Action::Exhausted(packet) => {
                assert_eq!(packet.header.id, 42);
                assert!(packet.answers.is_empty());
                break;
            }
        }
    }
    assert_eq!(asked, 16);
    assert!(resolver.frames.is_empty());
}

#[test]
fn exhausted_resolution_hands_back_what_the_client_resolution_gathered() {
    let (mut resolver, mut action) = Resolver::start("n0".to_string(), QueryType::A, response());
    let mut asked = 0;
    loop {
        match action {
            Action::Ask(query) => {
                asked += 1;
                assert_eq!(query.qname, format!("n{}", asked - 1));
                action = resolver.step(reply(vec![cname(&query.qname, &format!("n{}", asked))], vec![], vec![]));
            }
            Action::Done(_) => panic!("an endless alias cannot be done"),
            Action::Exhausted(packet) => {
                assert_eq!(packet.answers.len(), 16);
                assert_eq!(packet.answers[15], cname("n15", "n16"));
                break;
            }
        }
    }
    assert_eq!(asked, 16);
}

#[test]
fn finished_resolver_takes_no_more_replies() {
    let (mut resolver, _) = Resolver::start("w.a".to_string(), QueryType::A, response());
    expect_done(resolver.step(nxdomain()));
    match resolver.step(reply(vec![a("w.a", 1)], vec![], vec![])) {
        Action::Exhausted(packet) => {
            assert!(packet.answers.is_empty());
            assert_eq!(packet.header.id, 0);
        }
        _ => panic!("a finished resolver must not go on"),
    }
}

#[test]
fn settle_answers_from_the_cache_without_a_query() {
    let mut cache = DnsCache::new(10);
    cache.insert("example.com".to_string(), a("example.com", 7), 3600);
    let (mut resolver, first) = Resolver::start("example.com".to_string(), QueryType::A, response());
    let done = expect_done(settle(&mut resolver, &cache, first));
    assert_eq!(done.answers, vec![a("example.com", 7)]);
    assert_eq!(done.header.id, 42);
    assert_eq!(done.header.rescode, ResultCode::NOERROR);
}

#[test]
fn settle_leaves_a_query_that_the_cache_cannot_answer() {
    let cache = DnsCache::new(10);
    let (mut resolver, first) = Resolver::start("example.com".to_string(), QueryType::A, response());
    expect_ask(settle(&mut resolver, &cache, first), ROOT_SERVER, "example.com", QueryType::A);
}

#[test]
fn settle_chases_a_cached_cname_to_a_cached_address() {
    let mut cache = DnsCache::new(10);
    cache.insert("www.example.com".to_string(), cname("www.example.com", "example.com"), 3600);
    cache.insert("example.com".to_string(), a("example.com", 7), 3600);
    let (mut resolver, first) = Resolver::start("www.example.com".to_string(), QueryType::A, response());
    let done = expect_done(settle(&mut resolver, &cache, first));
    assert_eq!(done.answers, vec![cname("www.example.com", "example.com"), a("example.com", 7)]);
}

#[test]
fn settle_stops_when_the_queries_run_out() {
    let mut cache = DnsCache::new(10);
    cache.insert("a".to_string(), cname("a", "b"), 3600);
    cache.insert("b".to_string(), cname("b", "a"), 3600);
    let (mut resolver, first) = Resolver::start("a".to_string(), QueryType::A, response());
    match settle(&mut resolver, &cache, first) {
        Action::Exhausted(packet) => assert_eq!(packet.answers.len(), 16),
        _ => panic!("a cached alias loop must run out of queries"),
    }
}

#[test]
fn advance_stores_the_answers_and_settles_from_the_cache() {
    let mut cache = DnsCache::new(10);
    cache.insert("example.com".to_string(), a("example.com", 7), 3600);
    let (mut resolver, first) = Resolver::start("www.example.com".to_string(), QueryType::A, response());
    expect_ask(settle(&mut resolver, &cache, first), ROOT_SERVER, "www.example.com", QueryType::A);
    let network = reply(vec![cname("www.example.com", "example.com")], vec![], vec![]);
    let done = expect_done(advance(&mut resolver, &mut cache, Some(network)));
    assert_eq!(done.answers, vec![cname("www.example.com", "example.com"), a("example.com", 7)]);
    assert_eq!(cache.get("www.example.com"), Some(cname("www.example.com", "example.com")));
}

#[test]
fn advance_without_a_reply_ends_with_servfail() {
    let mut cache = DnsCache::new(10);
    let (mut resolver, _) = Resolver::start("www.example.com".to_string(), QueryType::A, response());
    let done = expect_done(advance(&mut resolver, &mut cache, None));
    assert_eq!(done.header.rescode, ResultCode::SERVFAIL);
}
