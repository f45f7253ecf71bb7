//! Queries on a response that pick where a recursive walk goes next.
use crate::protocol::{DnsPacket, DnsRecord, RecordView};
use vstd::prelude::*;

verus! {

/// `suffix` ends `s`.
pub open spec fn is_suffix(suffix: Seq<char>, s: Seq<char>) -> bool {
    suffix.len() <= s.len() && s.subrange(s.len() - suffix.len(), s.len() as int) == suffix
}

/// Whether `s` ends with `suffix`, character by character.
pub fn ends_with(s: &str, suffix: &str) -> (r: bool)
    ensures
        r == is_suffix(suffix@, s@),
{
    let n = s.unicode_len();
    let m = suffix.unicode_len();
    if m > n {
        return false;
    }
    let mut i: usize = 0;
    while i < m
        invariant
            n == s@.len(),
            m == suffix@.len(),
            m <= n,
            i <= m,
            forall|k: int| 0 <= k < i ==> s@[n - m + k] == suffix@[k],
        decreases m - i,
    {
        if s.get_char(n - m + i) != suffix.get_char(i) {
            assert(s@.subrange(n - m, n as int)[i as int] != suffix@[i as int]);
            return false;
        }
        i = i + 1;
    }
    assert(s@.subrange(n - m, n as int) =~= suffix@);
    true
}

/// The addresses of the A records among `rs`, in order.
pub open spec fn a_addresses(rs: Seq<RecordView>) -> Seq<Seq<u8>>
    decreases rs.len(),
{
    if rs.len() == 0 {
        Seq::empty()
    } else {
        let prev = a_addresses(rs.drop_last());
        match rs.last() {
            RecordView::A { addr, .. } => prev.push(addr),
            _ => prev,
        }
    }
}

/// The addresses of the A records among `rs` whose domain is `host`, in order.
pub open spec fn glue_for(rs: Seq<RecordView>, host: Seq<char>) -> Seq<Seq<u8>>
    decreases rs.len(),
{
    if rs.len() == 0 {
        Seq::empty()
    } else {
        let prev = glue_for(rs.drop_last(), host);
        match rs.last() {
            RecordView::A { domain, addr, .. } => if domain == host {
                prev.push(addr)
            } else {
                prev
            },
            _ => prev,
        }
    }
}

/// The hosts of the NS records among `auths` whose domain ends `qname`, in order.
pub open spec fn ns_hosts(auths: Seq<RecordView>, qname: Seq<char>) -> Seq<Seq<char>>
    decreases auths.len(),
{
    if auths.len() == 0 {
        Seq::empty()
    } else {
        let prev = ns_hosts(auths.drop_last(), qname);
        match auths.last() {
            RecordView::NS { domain, host, .. } => if is_suffix(domain, qname) {
                prev.push(host)
            } else {
                prev
            },
            _ => prev,
        }
    }
}

/// For each name server of `qname` in turn, the glue addresses given for it.
pub open spec fn glue_addresses(auths: Seq<RecordView>, res: Seq<RecordView>, qname: Seq<char>) -> Seq<
    Seq<u8>,
>
    decreases auths.len(),
{
    if auths.len() == 0 {
        Seq::empty()
    } else {
        let prev = glue_addresses(auths.drop_last(), res, qname);
        match auths.last() {
            RecordView::NS { domain, host, .. } => if is_suffix(domain, qname) {
                prev + glue_for(res, host)
            } else {
                prev
            },
            _ => prev,
        }
    }
}

/// Relies on `rand::random`: a value drawn from the thread-local generator.
#[verifier::external_body]
fn random_index() -> usize {
    rand::random::<usize>()
}

impl DnsPacket {
    /// The addresses of the A records among the answers, in order.
    pub fn a_records(&self) -> (r: Vec<[u8; 4]>)
        ensures
            r@.map_values(|a: [u8; 4]| a@) == a_addresses(self@.answers),
    {
        let ghost rs = self@.answers;
        let mut out: Vec<[u8; 4]> = Vec::new();
        let mut i: usize = 0;
        while i < self.answers.len()
            invariant
                rs == self@.answers,
                i <= rs.len(),
                out@.map_values(|a: [u8; 4]| a@) == a_addresses(rs.take(i as int)),
            decreases rs.len() - i,
        {
            proof {
                assert(rs.take(i + 1).drop_last() =~= rs.take(i as int));
                assert(rs.take(i + 1).last() == self.answers@[i as int]@);
            }
            if let DnsRecord::A { addr, .. } = &self.answers[i] {
                out.push(*addr);
                proof {
                    assert(out@.map_values(|a: [u8; 4]| a@) =~= a_addresses(rs.take(i as int)).push(
                        addr@,
                    ));
                }
            }
            i = i + 1;
        }
        proof {
            assert(rs.take(i as int) =~= rs);
        }
        out
    }

    /// The address of the A record at `pick`, wrapped around, among the
    /// answers' A records; none when there are none.
    pub fn get_random_a_at(&self, pick: usize) -> (r: Option<[u8; 4]>)
        ensures
            a_addresses(self@.answers).len() == 0 ==> r is None,
            a_addresses(self@.answers).len() > 0 ==> r is Some && r->Some_0@ == a_addresses(
                self@.answers,
            )[(pick as int % a_addresses(self@.answers).len() as int)],
    {
        let addrs = self.a_records();
        proof {
            assert(addrs@.map_values(|a: [u8; 4]| a@).len() == addrs@.len());
        }
        if addrs.len() == 0 {
            return None;
        }
        let k = pick % addrs.len();
        proof {
            assert(addrs@.map_values(|a: [u8; 4]| a@)[k as int] == addrs@[k as int]@);
        }
        Some(addrs[k])
    }

    /// A randomly chosen address among the answers' A records; none when
    /// there are none.
    pub fn get_random_a(&self) -> (r: Option<[u8; 4]>)
        ensures
            a_addresses(self@.answers).len() == 0 <==> r is None,
            r is Some ==> a_addresses(self@.answers).contains(r->Some_0@),
    {
        let pick = random_index();
        let r = self.get_random_a_at(pick);
        proof {
            if a_addresses(self@.answers).len() > 0 {
                let k = (pick as int % a_addresses(self@.answers).len() as int);
                assert(a_addresses(self@.answers)[k] == r->Some_0@);
            }
        }
        r
    }

    /// The first glue address of a name server whose domain ends `qname`:
    /// the A records among the additionals for each such NS record's host,
    /// name servers taken in order.
    pub fn get_resolved_ns(&self, qname: &str) -> (r: Option<[u8; 4]>)
        ensures
            glue_addresses(self@.authorities, self@.resources, qname@).len() == 0 <==> r is None,
            r is Some ==> r->Some_0@ == glue_addresses(self@.authorities, self@.resources, qname@)[0],
    {
        let ghost auths = self@.authorities;
        let ghost res = self@.resources;
        let mut i: usize = 0;
        while i < self.authorities.len()
            invariant
                auths == self@.authorities,
                res == self@.resources,
                i <= auths.len(),
                glue_addresses(auths.take(i as int), res, qname@).len() == 0,
            decreases auths.len() - i,
        {
            proof {
                assert(auths.take(i + 1).drop_last() =~= auths.take(i as int));
                assert(auths.take(i + 1).last() == self.authorities@[i as int]@);
            }
            if let DnsRecord::NS { domain, host, ttl } = &self.authorities[i] {
                if ends_with(qname, domain.as_str()) {
                    let ghost nsv = auths[i as int];
                    assert(nsv == RecordView::NS { domain: domain@, host: host@, ttl: *ttl });
                    let mut j: usize = 0;
                    while j < self.resources.len()
                        invariant
                            res == self@.resources,
                            auths == self@.authorities,
                            i < auths.len(),
                            auths[i as int] == (RecordView::NS { domain: domain@, host: host@, ttl: *ttl }),
                            is_suffix(domain@, qname@),
                            glue_addresses(auths.take(i as int), res, qname@).len() == 0,
                            auths.take(i + 1).drop_last() == auths.take(i as int),
                            auths.take(i + 1).last() == auths[i as int],
                            j <= res.len(),
                            glue_for(res.take(j as int), host@).len() == 0,
                        decreases res.len() - j,
                    {
                        proof {
                            assert(res.take(j + 1).drop_last() =~= res.take(j as int));
                            assert(res.take(j + 1).last() == self.resources@[j as int]@);
                        }
                        if let DnsRecord::A { domain: d, addr, ttl: t } = &self.resources[j] {
                            assert(res[j as int] == RecordView::A { domain: d@, addr: addr@, ttl: *t });
                            if *d == *host {
                                proof {
                                    lemma_glue_prefix(res, host@, j as int);
                                    assert(glue_for(res, host@)[0] == addr@);
                                    let g0 = glue_addresses(auths.take(i as int), res, qname@);
                                    assert(glue_addresses(auths.take(i + 1), res, qname@) == g0
                                        + glue_for(res, host@));
                                    assert((g0 + glue_for(res, host@))[0] == glue_for(res, host@)[0]);
                                    lemma_glue_addresses_prefix(auths, res, qname@, i as int);
                                }
                                return Some(*addr);
                            }
                        }
                        j = j + 1;
                    }
                    proof {
                        assert(res.take(j as int) =~= res);
                        assert(glue_addresses(auths.take(i + 1), res, qname@) =~= glue_addresses(
                            auths.take(i as int),
                            res,
                            qname@,
                        ) + glue_for(res, host@));
                    }
                }
            }
            i = i + 1;
        }
        proof {
            assert(auths.take(i as int) =~= auths);
        }
        None
    }

    /// The hosts of the NS records whose domain ends `qname`, in order.
    pub fn name_servers(&self, qname: &str) -> (r: Vec<String>)
        ensures
            r@.map_values(|h: String| h@) == ns_hosts(self@.authorities, qname@),
    {
        let ghost auths = self@.authorities;
        let mut out: Vec<String> = Vec::new();
        let mut i: usize = 0;
        while i < self.authorities.len()
            invariant
                auths == self@.authorities,
                i <= auths.len(),
                out@.map_values(|h: String| h@) == ns_hosts(auths.take(i as int), qname@),
            decreases auths.len() - i,
        {
            proof {
                assert(auths.take(i + 1).drop_last() =~= auths.take(i as int));
                assert(auths.take(i + 1).last() == self.authorities@[i as int]@);
            }
            if let DnsRecord::NS { domain, host, .. } = &self.authorities[i] {
                if ends_with(qname, domain.as_str()) {
                    let h = host.clone();
                    out.push(h);
                    proof {
                        assert(out@.map_values(|h: String| h@) =~= ns_hosts(
                            auths.take(i as int),
                            qname@,
                        ).push(host@));
                    }
                }
            }
            i = i + 1;
        }
        proof {
            assert(auths.take(i as int) =~= auths);
        }
        out
    }

    /// The host at `pick`, wrapped around, among the name servers of
    /// `qname`; none when there are none.
    pub fn get_unresolved_ns_at(&self, qname: &str, pick: usize) -> (r: Option<String>)
        ensures
            ns_hosts(self@.authorities, qname@).len() == 0 ==> r is None,
            ns_hosts(self@.authorities, qname@).len() > 0 ==> r is Some && r->Some_0@ == ns_hosts(
                self@.authorities,
                qname@,
            )[(pick as int % ns_hosts(self@.authorities, qname@).len() as int)],
    {
        let hosts = self.name_servers(qname);
        proof {
            assert(hosts@.map_values(|h: String| h@).len() == hosts@.len());
        }
        if hosts.len() == 0 {
            return None;
        }
        let k = pick % hosts.len();
        proof {
            assert(hosts@.map_values(|h: String| h@)[k as int] == hosts@[k as int]@);
        }
        Some(hosts[k].clone())
    }

    /// A randomly chosen host among the name servers of `qname`, for when no
    /// glue gives their address; none when there are none.
    pub fn get_unresolved_ns(&self, qname: &str) -> (r: Option<String>)
        ensures
            ns_hosts(self@.authorities, qname@).len() == 0 <==> r is None,
            r is Some ==> ns_hosts(self@.authorities, qname@).contains(r->Some_0@),
    {
        let pick = random_index();
        let r = self.get_unresolved_ns_at(qname, pick);
        proof {
            if ns_hosts(self@.authorities, qname@).len() > 0 {
                let k = (pick as int % ns_hosts(self@.authorities, qname@).len() as int);
                assert(ns_hosts(self@.authorities, qname@)[k] == r->Some_0@);
            }
        }
        r
    }
}

/// Where the first glue entry lies after a prefix with none.
proof fn lemma_glue_prefix(rs: Seq<RecordView>, host: Seq<char>, j: int)
    requires
        0 <= j < rs.len(),
        glue_for(rs.take(j), host).len() == 0,
        rs[j] matches RecordView::A { domain, .. } && domain == host,
    ensures
        glue_for(rs, host).len() > 0,
        glue_for(rs, host)[0] == (match rs[j] {
            RecordView::A { addr, .. } => addr,
            _ => Seq::empty(),
        }),
    decreases rs.len() - j,
{
    if j == rs.len() - 1 {
        assert(rs.drop_last() =~= rs.take(j));
    } else {
        assert(rs.drop_last().take(j) =~= rs.take(j));
        assert(rs.drop_last()[j] == rs[j]);
        lemma_glue_prefix(rs.drop_last(), host, j);
    }
}

/// A first entry found after a prefix with none is the first entry of all.
proof fn lemma_glue_addresses_prefix(
    auths: Seq<RecordView>,
    res: Seq<RecordView>,
    qname: Seq<char>,
    i: int,
)
    requires
        0 <= i < auths.len(),
        glue_addresses(auths.take(i), res, qname).len() == 0,
        glue_addresses(auths.take(i + 1), res, qname).len() > 0,
    ensures
        glue_addresses(auths, res, qname).len() > 0,
        glue_addresses(auths, res, qname)[0] == glue_addresses(auths.take(i + 1), res, qname)[0],
    decreases auths.len() - i,
{
    if i + 1 == auths.len() {
        assert(auths.take(i + 1) =~= auths);
    } else {
        let a = auths.drop_last();
        assert(a.take(i) =~= auths.take(i));
        assert(a.take(i + 1) =~= auths.take(i + 1));
        lemma_glue_addresses_prefix(a, res, qname, i);
    }
}

} // verus!
