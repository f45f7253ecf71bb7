use rdns::protocol::{DnsPacket, DnsQuestion, DnsRecord, QueryType, ResponseCode};
use rdns::resolver::{
    answer_locally, judge, str_eq, RecursiveWalk, ResolverMode, Verdict, WalkStep, ROOT_SERVER,
};

fn a_record(domain: &str, addr: [u8; 4]) -> DnsRecord {
    DnsRecord::A { domain: domain.to_string(), addr, ttl: 60 }
}

fn ns_record(domain: &str, host: &str) -> DnsRecord {
    DnsRecord::NS { domain: domain.to_string(), host: host.to_string(), ttl: 60 }
}

fn referral(zone: &str, ns: &str, glue: Option<[u8; 4]>) -> DnsPacket {
    let mut packet = DnsPacket::new();
    packet.authorities.push(ns_record(zone, ns));
    if let Some(addr) = glue {
        packet.resources.push(a_record(ns, addr));
    }
    packet
}

fn answer(name: &str, addr: [u8; 4]) -> DnsPacket {
    let mut packet = DnsPacket::new();
    packet.questions.push(DnsQuestion::new(name.to_string(), QueryType::A));
    packet.answers.push(a_record(name, addr));
    packet
}

fn query_of(step: &WalkStep) -> (String, QueryType, [u8; 4]) {
    match step {
        WalkStep::Query { qname, qtype, server } => (qname.clone(), *qtype, *server),
        _ => panic!("expected a query"),
    }
}

#[test]
fn mode_from_name() {
    assert!(matches!(ResolverMode::from_str("recursive", None), Some(ResolverMode::Recursive)));
    match ResolverMode::from_str("forward", Some("9.9.9.9")) {
        Some(ResolverMode::Forwarding { host, port }) => {
            assert_eq!(host, "9.9.9.9");
            assert_eq!(port, 53);
        }
        _ => panic!("expected forwarding"),
    }
    assert!(ResolverMode::from_str("iterative", None).is_none());
}

#[test]
fn strings_compare_by_characters() {
    assert!(str_eq("ns.test", "ns.test"));
    assert!(!str_eq("ns.test", "ns.tesT"));
    assert!(!str_eq("ns", "ns.test"));
}

#[test]
fn unknown_type_is_not_implemented() {
    let packet = answer_locally(QueryType::UNKNOWN(16)).unwrap();
    assert_eq!(packet.header.rescode, ResponseCode::NOTIMP);
    assert!(packet.answers.is_empty());
    assert!(answer_locally(QueryType::MX).is_none());
}

#[test]
fn judge_final_answer() {
    let packet = answer("host.test", [198, 51, 100, 10]);
    assert!(matches!(judge(&packet, "host.test", QueryType::A), Verdict::Final));
    let mut nx = DnsPacket::new();
    nx.header.rescode = ResponseCode::NXDOMAIN;
    assert!(matches!(judge(&nx, "none.test", QueryType::A), Verdict::Final));
}

#[test]
fn judge_referral_with_glue() {
    let packet = referral("test", "ns.test", Some([192, 0, 2, 53]));
    match judge(&packet, "host.test", QueryType::A) {
        Verdict::Referral(addr) => assert_eq!(addr, [192, 0, 2, 53]),
        _ => panic!("expected a referral"),
    }
}

#[test]
fn judge_name_server_without_glue() {
    let packet = referral("test", "ns.other", None);
    match judge(&packet, "host.test", QueryType::A) {
        Verdict::NameServer(host) => assert_eq!(host, "ns.other"),
        _ => panic!("expected a name server"),
    }
}

#[test]
fn judge_stuck_when_zone_does_not_match() {
    let packet = referral("example", "ns.example", Some([192, 0, 2, 1]));
    assert!(matches!(judge(&packet, "host.test", QueryType::A), Verdict::Stuck));
}

#[test]
fn judge_alias() {
    let mut packet = DnsPacket::new();
    packet.answers.push(DnsRecord::CNAME {
        domain: "www.test".to_string(),
        host: "host.test".to_string(),
        ttl: 60,
    });
    assert!(matches!(judge(&packet, "www.test", QueryType::A), Verdict::Alias(0)));
    assert!(matches!(judge(&packet, "www.test", QueryType::CNAME), Verdict::Final));
}

#[test]
fn recursive_referral() {
    let (mut walk, first) = RecursiveWalk::start("host.test".to_string(), QueryType::A);
    assert_eq!(query_of(&first), ("host.test".to_string(), QueryType::A, ROOT_SERVER));
    let second = walk.step(Some(referral("test", "ns.test", Some([192, 0, 2, 53]))));
    assert_eq!(query_of(&second), ("host.test".to_string(), QueryType::A, [192, 0, 2, 53]));
    match walk.step(Some(answer("host.test", [198, 51, 100, 10]))) {
        WalkStep::Done(packet) => {
            assert_eq!(packet.header.rescode, ResponseCode::NOERROR);
            assert_eq!(packet.answers, vec![a_record("host.test", [198, 51, 100, 10])]);
        }
        _ => panic!("expected the answer"),
    }
    assert_eq!(walk.depth(), 0);
}

#[test]
fn recursive_name_server_lookup() {
    let (mut walk, _) = RecursiveWalk::start("host.test".to_string(), QueryType::A);
    let nested = walk.step(Some(referral("test", "ns.other", None)));
    assert_eq!(query_of(&nested), ("ns.other".to_string(), QueryType::A, ROOT_SERVER));
    assert_eq!(walk.depth(), 2);
    let back = walk.step(Some(answer("ns.other", [203, 0, 113, 5])));
    assert_eq!(query_of(&back), ("host.test".to_string(), QueryType::A, [203, 0, 113, 5]));
    assert_eq!(walk.depth(), 1);
}

#[test]
fn recursive_cname_chase() {
    let (mut walk, _) = RecursiveWalk::start("www.test".to_string(), QueryType::A);
    let mut aliased = DnsPacket::new();
    aliased.header.answers = 1;
    aliased.answers.push(DnsRecord::CNAME {
        domain: "www.test".to_string(),
        host: "host.test".to_string(),
        ttl: 60,
    });
    let nested = walk.step(Some(aliased));
    assert_eq!(query_of(&nested), ("host.test".to_string(), QueryType::A, ROOT_SERVER));
    match walk.step(Some(answer("host.test", [198, 51, 100, 10]))) {
        WalkStep::Done(packet) => {
            assert_eq!(packet.answers.len(), 2);
            assert_eq!(packet.answers[1], a_record("host.test", [198, 51, 100, 10]));
            assert_eq!(packet.header.answers, 2);
        }
        _ => panic!("expected the answer"),
    }
}

#[test]
fn recursive_failed_query() {
    let (mut walk, _) = RecursiveWalk::start("host.test".to_string(), QueryType::A);
    assert!(matches!(walk.step(None), WalkStep::Failed));
    assert_eq!(walk.depth(), 0);
}

#[test]
fn recursive_referral_bound() {
    let (mut walk, _) = RecursiveWalk::start("host.test".to_string(), QueryType::A);
    let mut last = None;
    for _ in 0..17 {
        let step = walk.step(Some(referral("test", "ns.test", Some([192, 0, 2, 53]))));
        if let WalkStep::Done(packet) = step {
            last = Some(packet);
            break;
        }
    }
    let packet = last.expect("the walk should stop");
    assert_eq!(packet.header.rescode, ResponseCode::SERVFAIL);
}

#[test]
fn recursive_stuck_response_stands() {
    let (mut walk, _) = RecursiveWalk::start("host.test".to_string(), QueryType::A);
    let mut refused = DnsPacket::new();
    refused.header.rescode = ResponseCode::REFUSED;
    match walk.step(Some(refused)) {
        WalkStep::Done(packet) => assert_eq!(packet.header.rescode, ResponseCode::REFUSED),
        _ => panic!("expected the response"),
    }
}

#[test]
fn recursive_cname_depth_bound() {
    let (mut walk, _) = RecursiveWalk::start("n0.test".to_string(), QueryType::A);
    let mut outcome = None;
    for i in 0..9 {
        let mut aliased = DnsPacket::new();
        aliased.answers.push(DnsRecord::CNAME {
            domain: format!("n{}.test", i),
            host: format!("n{}.test", i + 1),
            ttl: 60,
        });
        match walk.step(Some(aliased)) {
            WalkStep::Query { qname, .. } => assert_eq!(qname, format!("n{}.test", i + 1)),
            WalkStep::Done(packet) => {
                outcome = Some((i, packet));
                break;
            }
            WalkStep::Failed => panic!("no query failed"),
        }
    }
    let (steps, packet) = outcome.expect("the walk should stop");
    assert_eq!(steps, 7);
    assert_eq!(packet.header.rescode, ResponseCode::SERVFAIL);
}
