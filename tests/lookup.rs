use rdns::lookup::ends_with;
use rdns::protocol::{DnsPacket, DnsRecord};

fn a_record(domain: &str, addr: [u8; 4]) -> DnsRecord {
    DnsRecord::A { domain: domain.to_string(), addr, ttl: 60 }
}

fn ns_record(domain: &str, host: &str) -> DnsRecord {
    DnsRecord::NS { domain: domain.to_string(), host: host.to_string(), ttl: 60 }
}

#[test]
fn suffix_match() {
    assert!(ends_with("host.test", "test"));
    assert!(ends_with("host.test", ""));
    assert!(!ends_with("test", "host.test"));
    assert!(!ends_with("host.test", "tesx"));
}

#[test]
fn random_a_picks_among_a_records() {
    let mut packet = DnsPacket::new();
    assert_eq!(packet.get_random_a(), None);
    packet.answers.push(DnsRecord::CNAME {
        domain: "w".to_string(),
        host: "h".to_string(),
        ttl: 1,
    });
    assert_eq!(packet.get_random_a_at(3), None);
    packet.answers.push(a_record("h", [1, 1, 1, 1]));
    packet.answers.push(a_record("h", [2, 2, 2, 2]));
    assert_eq!(packet.get_random_a_at(0), Some([1, 1, 1, 1]));
    assert_eq!(packet.get_random_a_at(3), Some([2, 2, 2, 2]));
    let any = packet.get_random_a().unwrap();
    assert!(any == [1, 1, 1, 1] || any == [2, 2, 2, 2]);
}

#[test]
fn resolved_ns_takes_first_glue() {
    let mut packet = DnsPacket::new();
    packet.authorities.push(ns_record("other", "ns.other"));
    packet.authorities.push(ns_record("test", "a.ns.test"));
    packet.authorities.push(ns_record("test", "b.ns.test"));
    packet.resources.push(a_record("b.ns.test", [192, 0, 2, 2]));
    packet.resources.push(a_record("a.ns.test", [192, 0, 2, 1]));
    packet.resources.push(a_record("ns.other", [192, 0, 2, 9]));
    assert_eq!(packet.get_resolved_ns("host.test"), Some([192, 0, 2, 1]));
    assert_eq!(packet.get_resolved_ns("host.none"), None);
}

#[test]
fn unresolved_ns_picks_matching_hosts() {
    let mut packet = DnsPacket::new();
    assert_eq!(packet.get_unresolved_ns("host.test"), None);
    packet.authorities.push(ns_record("other", "ns.other"));
    packet.authorities.push(ns_record("test", "a.ns.test"));
    packet.authorities.push(ns_record("test", "b.ns.test"));
    assert_eq!(packet.get_unresolved_ns_at("host.test", 0), Some("a.ns.test".to_string()));
    assert_eq!(packet.get_unresolved_ns_at("host.test", 5), Some("b.ns.test".to_string()));
    let any = packet.get_unresolved_ns("host.test").unwrap();
    assert!(any == "a.ns.test" || any == "b.ns.test");
    assert_eq!(packet.name_servers("host.none").len(), 0);
}
