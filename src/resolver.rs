//! Resolution: the resolver modes, and the recursive walk from a root server
//! as a state machine that asks for one query at a time.
use crate::lookup::{a_addresses, glue_addresses, ns_hosts};
use crate::protocol::{
    empty_header, records_view, DnsHeader, DnsPacket, DnsRecord, PacketView, QueryType,
    RecordView, ResponseCode,
};
use vstd::prelude::*;

verus! {

/// The root name server a recursive walk starts from (a.root-servers.net).
pub const ROOT_SERVER: [u8; 4] = [198, 41, 0, 4];

/// How many referrals one lookup may follow.
pub const MAX_REFERRALS: u32 = 16;

/// How many lookups may be nested (CNAME targets and name server hosts).
pub const MAX_DEPTH: usize = 8;

/// Whether two strings hold the same characters.
pub fn str_eq(a: &str, b: &str) -> (r: bool)
    ensures
        r == (a@ == b@),
{
    let n = a.unicode_len();
    if n != b.unicode_len() {
        return false;
    }
    let mut i: usize = 0;
    while i < n
        invariant
            n == a@.len(),
            n == b@.len(),
            i <= n,
            forall|k: int| 0 <= k < i ==> a@[k] == b@[k],
        decreases n - i,
    {
        if a.get_char(i) != b.get_char(i) {
            return false;
        }
        i = i + 1;
    }
    assert(a@ =~= b@);
    true
}

/// How queries are answered.
pub enum ResolverMode {
    /// One hop to a fixed upstream server.
    Forwarding { host: String, port: u16 },
    /// An iterative walk from a root server.
    Recursive,
}

impl ResolverMode {
    /// The mode a command-line name stands for: `recursive`, or `forward`
    /// to `server` on port 53; none for any other name.
    pub fn from_str(name: &str, server: Option<&str>) -> (r: Option<ResolverMode>)
        requires
            name@ == "forward"@ ==> server is Some,
        ensures
            name@ == "recursive"@ ==> r matches Some(ResolverMode::Recursive),
            name@ == "forward"@ ==> (r matches Some(ResolverMode::Forwarding { host, port }) && host@
                == server->Some_0@ && port == 53),
            name@ != "recursive"@ && name@ != "forward"@ ==> r is None,
    {
        proof {
            reveal_strlit("recursive");
            reveal_strlit("forward");
            assert("recursive"@ != "forward"@) by {
                assert("recursive"@.len() != "forward"@.len());
            }
        }
        if str_eq(name, "recursive") {
            Some(ResolverMode::Recursive)
        } else if str_eq(name, "forward") {
            match server {
                Some(s) => Some(ResolverMode::Forwarding { host: s.to_owned(), port: 53 }),
                None => None,
            }
        } else {
            None
        }
    }
}

/// A packet with an empty header but for its response code, and no records.
pub open spec fn coded(p: PacketView, code: ResponseCode) -> bool {
    p.header == (DnsHeader { rescode: code, ..empty_header() }) && p.questions.len() == 0
        && p.answers.len() == 0 && p.authorities.len() == 0 && p.resources.len() == 0
}

/// An empty packet carrying `code`.
pub fn coded_packet(code: ResponseCode) -> (r: DnsPacket)
    ensures
        coded(r@, code),
{
    let mut packet = DnsPacket::new();
    packet.header.rescode = code;
    packet
}

/// The answer given without any lookup: NOTIMP for a type this server does
/// not handle. Local authority and caching would answer here too.
pub fn answer_locally(qtype: QueryType) -> (r: Option<DnsPacket>)
    ensures
        qtype is UNKNOWN <==> r is Some,
        r is Some ==> coded(r->Some_0@, ResponseCode::NOTIMP),
{
    if let QueryType::UNKNOWN(_) = qtype {
        Some(coded_packet(ResponseCode::NOTIMP))
    } else {
        None
    }
}

/// A response that ends a lookup: answers without error, or NXDOMAIN.
pub open spec fn is_final(p: PacketView) -> bool {
    (p.answers.len() > 0 && p.header.rescode == ResponseCode::NOERROR) || p.header.rescode
        == ResponseCode::NXDOMAIN
}

/// The index of the first CNAME record among `rs` from `i` on.
pub open spec fn cname_from(rs: Seq<RecordView>, i: int) -> Option<int>
    decreases rs.len() - i,
{
    if i < 0 || i >= rs.len() {
        None
    } else if rs[i] is CNAME {
        Some(i)
    } else {
        cname_from(rs, i + 1)
    }
}

/// A CNAME found from `i` on lies at or after `i`, within the records.
pub proof fn lemma_cname_from_bounds(rs: Seq<RecordView>, i: int)
    requires
        cname_from(rs, i) is Some,
    ensures
        i <= cname_from(rs, i)->Some_0 < rs.len(),
        rs[cname_from(rs, i)->Some_0] is CNAME,
    decreases rs.len() - i,
{
    if 0 <= i < rs.len() && !(rs[i] is CNAME) {
        lemma_cname_from_bounds(rs, i + 1);
    }
}

/// The index of the first CNAME answer from `from` on.
pub fn next_cname(answers: &Vec<DnsRecord>, from: usize) -> (r: Option<usize>)
    ensures
        r matches Some(k) ==> cname_from(answers@.map_values(|x: DnsRecord| x@), from as int)
            == Some(k as int),
        r is None ==> cname_from(answers@.map_values(|x: DnsRecord| x@), from as int) is None,
        r matches Some(k) ==> (k < answers@.len() && answers@[k as int] is CNAME),
{
    let ghost rs = answers@.map_values(|x: DnsRecord| x@);
    let mut i = from;
    while i < answers.len()
        invariant
            rs == answers@.map_values(|x: DnsRecord| x@),
            from <= i,
            cname_from(rs, from as int) == cname_from(rs, i as int),
        decreases answers@.len() - i,
    {
        assert(rs[i as int] == answers@[i as int]@);
        if let DnsRecord::CNAME { .. } = answers[i] {
            return Some(i);
        }
        i = i + 1;
    }
    None
}

/// What a response to a lookup's query leads to.
pub enum Verdict {
    /// It is the answer.
    Final,
    /// It is the answer, but the targets of its CNAME answers, from the
    /// one at this index on, are to be resolved first.
    Alias(usize),
    /// Ask the name server at this address next.
    Referral([u8; 4]),
    /// Resolve this name server's address first.
    NameServer(String),
    /// Nowhere to go: the response stands.
    Stuck,
}

/// Judges a response to a query for `qname` of type `qtype`.
pub fn judge(response: &DnsPacket, qname: &str, qtype: QueryType) -> (r: Verdict)
    ensures
        is_final(response@) && qtype == QueryType::A && cname_from(response@.answers, 0) is Some
            ==> r == Verdict::Alias(cname_from(response@.answers, 0)->Some_0 as usize),
        is_final(response@) && !(qtype == QueryType::A && cname_from(response@.answers, 0) is Some)
            ==> r is Final,
        !is_final(response@) && glue_addresses(
            response@.authorities,
            response@.resources,
            qname@,
        ).len() > 0 ==> (r matches Verdict::Referral(a) && a@ == glue_addresses(
            response@.authorities,
            response@.resources,
            qname@,
        )[0]),
        !is_final(response@) && glue_addresses(
            response@.authorities,
            response@.resources,
            qname@,
        ).len() == 0 && ns_hosts(response@.authorities, qname@).len() > 0 ==> (r matches Verdict::NameServer(
            h,
        ) && ns_hosts(response@.authorities, qname@).contains(h@)),
        !is_final(response@) && glue_addresses(
            response@.authorities,
            response@.resources,
            qname@,
        ).len() == 0 && ns_hosts(response@.authorities, qname@).len() == 0 ==> r is Stuck,
        r matches Verdict::Alias(k) ==> k < response.answers@.len(),
{
    let code = response.header.rescode;
    let answered = (response.answers.len() > 0 && code == ResponseCode::NOERROR) || code
        == ResponseCode::NXDOMAIN;
    if answered {
        if qtype == QueryType::A {
            if let Some(k) = next_cname(&response.answers, 0) {
                return Verdict::Alias(k);
            }
        }
        return Verdict::Final;
    }
    if let Some(addr) = response.get_resolved_ns(qname) {
        return Verdict::Referral(addr);
    }
    match response.get_unresolved_ns(qname) {
        Some(host) => Verdict::NameServer(host),
        None => Verdict::Stuck,
    }
}

/// What a lookup waits for.
pub enum Waiting {
    /// The response to its query.
    Response,
    /// The address of a name server, with the last response kept.
    NameServer { response: DnsPacket },
    /// The A records of the target of the CNAME answer at `next`, with the
    /// answers found so far.
    Alias { response: DnsPacket, next: usize, found: Vec<DnsRecord> },
}

/// One name being resolved.
pub struct Lookup {
    pub qname: String,
    pub qtype: QueryType,
    pub server: [u8; 4],
    pub referrals: u32,
    pub waiting: Waiting,
}

/// What the walk asks for next.
pub enum WalkStep {
    /// Send this query to this server, and hand the walk the response.
    Query { qname: String, qtype: QueryType, server: [u8; 4] },
    /// The walk is over, with this response.
    Done(DnsPacket),
    /// The walk is over: a query could not be answered.
    Failed,
}

/// A recursive walk: a stack of lookups, the innermost last, which alone
/// waits for a response.
pub struct RecursiveWalk {
    pub lookups: Vec<Lookup>,
}

impl RecursiveWalk {
    /// Whether the walk is waiting for a response to its innermost lookup.
    pub open spec fn running(&self) -> bool {
        &&& 0 < self.lookups@.len() <= MAX_DEPTH
        &&& self.lookups@.last().waiting is Response
        &&& forall|i: int|
            0 <= i < self.lookups@.len() - 1 ==> !(#[trigger] self.lookups@[i].waiting is Response)
        &&& forall|i: int|
            0 <= i < self.lookups@.len() ==> #[trigger] self.lookups@[i].referrals <= MAX_REFERRALS
    }

    /// Whether a step asks for the query of the innermost lookup.
    pub open spec fn asks(&self, s: WalkStep) -> bool {
        match s {
            WalkStep::Query { qname, qtype, server } => self.running() && qname@
                == self.lookups@.last().qname@ && qtype == self.lookups@.last().qtype && server
                == self.lookups@.last().server,
            WalkStep::Done(_) => self.lookups@.len() == 0,
            WalkStep::Failed => self.lookups@.len() == 0,
        }
    }

    /// How many lookups are in progress.
    pub fn depth(&self) -> (r: usize)
        ensures
            r == self.lookups@.len(),
    {
        self.lookups.len()
    }

    /// Starts a walk for `qname` of type `qtype` at the root server: one
    /// lookup, with no referral followed yet.
    pub fn start(qname: String, qtype: QueryType) -> (r: (RecursiveWalk, WalkStep))
        ensures
            r.0.running(),
            r.0.asks(r.1),
            r.0.lookups@.len() == 1,
            r.0.lookups@[0].referrals == 0,
            r.0.lookups@[0].qname@ == qname@,
            r.0.lookups@[0].qtype == qtype,
            r.0.lookups@[0].server == ROOT_SERVER,
            r.1 matches WalkStep::Query { qname: q, qtype: t, server } && (q@ == qname@ && t == qtype
                && server == ROOT_SERVER),
    {
        let q = qname.clone();
        let mut lookups: Vec<Lookup> = Vec::new();
        lookups.push(
            Lookup {
                qname,
                qtype,
                server: ROOT_SERVER,
                referrals: 0,
                waiting: Waiting::Response,
            },
        );
        (RecursiveWalk { lookups }, WalkStep::Query { qname: q, qtype, server: ROOT_SERVER })
    }

    /// Starts a nested lookup of the A records of `host` at the root server,
    /// or ends the walk with SERVFAIL when lookups nest too deep.
    fn nest(&mut self, host: String) -> (r: WalkStep)
        requires
            0 < old(self).lookups@.len() <= MAX_DEPTH,
            forall|i: int|
                0 <= i < old(self).lookups@.len() ==> !(#[trigger] old(self).lookups@[i].waiting is Response),
            forall|i: int|
                0 <= i < old(self).lookups@.len() ==> #[trigger] old(self).lookups@[i].referrals
                    <= MAX_REFERRALS,
        ensures
            final(self).asks(r),
            r is Failed ==> false,
            old(self).lookups@.len() < MAX_DEPTH ==> (r matches WalkStep::Query { qname, qtype, server }
                && qname@ == host@ && qtype == QueryType::A && server == ROOT_SERVER
                && final(self).lookups@.drop_last() == old(self).lookups@
                && final(self).lookups@.last().referrals == 0),
            old(self).lookups@.len() >= MAX_DEPTH ==> (r matches WalkStep::Done(p) && coded(
                p@,
                ResponseCode::SERVFAIL,
            )),
    {
        if self.lookups.len() >= MAX_DEPTH {
            self.lookups = Vec::new();
            return WalkStep::Done(coded_packet(ResponseCode::SERVFAIL));
        }
        let q = host.clone();
        self.lookups.push(
            Lookup {
                qname: host,
                qtype: QueryType::A,
                server: ROOT_SERVER,
                referrals: 0,
                waiting: Waiting::Response,
            },
        );
        assert(self.lookups@.drop_last() =~= old(self).lookups@);
        WalkStep::Query { qname: q, qtype: QueryType::A, server: ROOT_SERVER }
    }

    /// Asks again for the query of `lookup`, now sent to `server` after a
    /// referral, or ends the walk with SERVFAIL past the referral bound.
    fn refer(&mut self, lookup: Lookup, server: [u8; 4]) -> (r: WalkStep)
        requires
            old(self).lookups@.len() < MAX_DEPTH,
            forall|i: int|
                0 <= i < old(self).lookups@.len() ==> !(#[trigger] old(self).lookups@[i].waiting is Response),
            forall|i: int|
                0 <= i < old(self).lookups@.len() ==> #[trigger] old(self).lookups@[i].referrals
                    <= MAX_REFERRALS,
            lookup.referrals <= MAX_REFERRALS,
        ensures
            final(self).asks(r),
            r is Failed ==> false,
            lookup.referrals < MAX_REFERRALS ==> (r matches WalkStep::Query {
                qname,
                qtype,
                server: s,
            } && qname@ == lookup.qname@ && qtype == lookup.qtype && s == server
                && final(self).lookups@.drop_last() == old(self).lookups@
                && final(self).lookups@.last().referrals == lookup.referrals + 1),
            lookup.referrals >= MAX_REFERRALS ==> (r matches WalkStep::Done(p) && coded(
                p@,
                ResponseCode::SERVFAIL,
            )),
    {
        if lookup.referrals >= MAX_REFERRALS {
            self.lookups = Vec::new();
            return WalkStep::Done(coded_packet(ResponseCode::SERVFAIL));
        }
        let q = lookup.qname.clone();
        let t = lookup.qtype;
        self.lookups.push(
            Lookup {
                qname: lookup.qname,
                qtype: lookup.qtype,
                server,
                referrals: lookup.referrals + 1,
                waiting: Waiting::Response,
            },
        );
        assert(self.lookups@.drop_last() =~= old(self).lookups@);
        WalkStep::Query { qname: q, qtype: t, server }
    }

    /// Hands `finished`, the response that ended the innermost lookup, to
    /// the lookup that waits for it, and on up while those end too.
    #[verifier::spinoff_prover]
    #[verifier::rlimit(100)]
    fn deliver(&mut self, finished: DnsPacket) -> (r: WalkStep)
        requires
            old(self).lookups@.len() < MAX_DEPTH,
            forall|i: int|
                0 <= i < old(self).lookups@.len() ==> !(#[trigger] old(self).lookups@[i].waiting is Response),
            forall|i: int|
                0 <= i < old(self).lookups@.len() ==> #[trigger] old(self).lookups@[i].referrals
                    <= MAX_REFERRALS,
        ensures
            final(self).asks(r),
            delivers(old(self).lookups@, finished@, r, final(self).lookups@),
        decreases old(self).lookups@.len(),
    {
        let ghost before = self.lookups@;
        let mut parent = match self.lookups.pop() {
            Some(l) => l,
            None => {
                return WalkStep::Done(finished);
            },
        };
        proof {
            assert(self.lookups@ == before.drop_last());
            assert(forall|i: int|
                0 <= i < self.lookups@.len() ==> before[i] == #[trigger] self.lookups@[i]);
        }
        let mut waiting = Waiting::Response;
        std::mem::swap(&mut waiting, &mut parent.waiting);
        match waiting {
            Waiting::Response => {
                self.lookups = Vec::new();
                WalkStep::Failed
            },
            Waiting::NameServer { response } => {
                match finished.get_random_a() {
                    Some(addr) => self.refer(parent, addr),
                    None => self.deliver(response),
                }
            },
            Waiting::Alias { mut response, next, mut found } => {
                let ghost r0 = response@;
                let ghost f0 = records_view(found@);
                let mut finished = finished;
                let ghost c = finished@;
                response.header.rescode = finished.header.rescode;
                let added = finished.answers.len();
                response.header.answers = ((response.header.answers as usize + added % 65536)
                    % 65536) as u16;
                found.append(&mut finished.answers);
                proof {
                    assert(records_view(found@) =~= f0 + c.answers);
                    assert(response@ == merged(r0, c));
                }
                let following = if next < response.answers.len() {
                    next_cname(&response.answers, next + 1)
                } else {
                    None
                };
                match following {
                    Some(k) => {
                        let host = match &response.answers[k] {
                            DnsRecord::CNAME { host, .. } => host.clone(),
                            _ => String::new(),
                        };
                        proof {
                            assert(response@.answers[k as int] == response.answers@[k as int]@);
                        }
                        let ghost n = before.len();
                        parent.waiting = Waiting::Alias { response, next: k, found };
                        self.lookups.push(parent);
                        let ghost mid = self.lookups@;
                        proof {
                            assert(mid.take(n - 1) =~= before.take(n - 1));
                        }
                        let r = self.nest(host);
                        proof {
                            if mid.len() < MAX_DEPTH {
                                assert(self.lookups@.drop_last() == mid);
                                assert(self.lookups@.take(n - 1) =~= mid.take(n - 1));
                                assert(self.lookups@[n - 1] == mid[n - 1]);
                            }
                        }
                        r
                    },
                    None => {
                        let ghost fnd = records_view(found@);
                        response.answers.append(&mut found);
                        proof {
                            assert(response@.answers =~= r0.answers + fnd);
                            assert(response@ == with_found(merged(r0, c), fnd));
                        }
                        self.deliver(response)
                    },
                }
            },
        }
    }

    /// The innermost lookup, whose query was asked for last.
    pub open spec fn innermost(&self) -> Lookup {
        self.lookups@.last()
    }

    /// Hands the walk the response to its last query, or `None` when that
    /// query failed, and gives what it asks for next. A failed query ends
    /// the walk. A final answer ends the innermost lookup, and is handed to
    /// the lookup that waits for it (see `delivers`); for an A query whose
    /// answer holds a CNAME, the CNAME's target is resolved first. A
    /// referral with glue asks the same question of the server it names,
    /// one referral more, and past the referral bound ends the walk with
    /// SERVFAIL. A referral without glue starts a lookup of a name server's
    /// address at the root. A nested lookup past the depth bound ends the
    /// walk with SERVFAIL. With no name server to go to, the response
    /// stands as the lookup's answer.
    #[verifier::spinoff_prover]
    #[verifier::rlimit(100)]
    pub fn step(&mut self, response: Option<DnsPacket>) -> (r: WalkStep)
        requires
            old(self).running(),
        ensures
            final(self).asks(r),
            response is None ==> r is Failed,
            response is Some && settles(response->Some_0@, old(self).innermost()) ==> delivers(
                old(self).lookups@.drop_last(),
                response->Some_0@,
                r,
                final(self).lookups@,
            ),
            response is Some && aliases(response->Some_0@, old(self).innermost()) && old(
                self).lookups@.len() < MAX_DEPTH ==> (r matches WalkStep::Query {
                qname,
                qtype,
                server,
            } && qname@ == cname_host(
                response->Some_0@.answers,
                cname_from(response->Some_0@.answers, 0)->Some_0,
            ) && qtype == QueryType::A && server == ROOT_SERVER && final(self).lookups@.len()
                == old(self).lookups@.len() + 1 && waits_alias(
                final(self).lookups@[old(self).lookups@.len() - 1].waiting,
                response->Some_0@,
                cname_from(response->Some_0@.answers, 0)->Some_0,
                Seq::empty(),
            ) && final(self).lookups@.take(old(self).lookups@.len() - 1) == old(
                self).lookups@.take(old(self).lookups@.len() - 1)),
            response is Some && !is_final(response->Some_0@) && glue_addresses(
                response->Some_0@.authorities,
                response->Some_0@.resources,
                old(self).innermost().qname@,
            ).len() > 0 && old(self).innermost().referrals < MAX_REFERRALS ==> (
            r matches WalkStep::Query { qname, qtype, server } && qname@ == old(self).innermost().qname@
                && qtype == old(self).innermost().qtype && server@ == glue_addresses(
                response->Some_0@.authorities,
                response->Some_0@.resources,
                old(self).innermost().qname@,
            )[0] && final(self).lookups@.drop_last() == old(self).lookups@.drop_last()
                && final(self).innermost().referrals == old(self).innermost().referrals + 1),
            response is Some && !is_final(response->Some_0@) && glue_addresses(
                response->Some_0@.authorities,
                response->Some_0@.resources,
                old(self).innermost().qname@,
            ).len() > 0 && old(self).innermost().referrals >= MAX_REFERRALS ==> (
            r matches WalkStep::Done(q) && coded(q@, ResponseCode::SERVFAIL)),
            response is Some && !is_final(response->Some_0@) && glue_addresses(
                response->Some_0@.authorities,
                response->Some_0@.resources,
                old(self).innermost().qname@,
            ).len() == 0 && ns_hosts(response->Some_0@.authorities, old(self).innermost().qname@).len()
                > 0 && old(self).lookups@.len() < MAX_DEPTH ==> (r matches WalkStep::Query {
                qname,
                qtype,
                server,
            } && ns_hosts(response->Some_0@.authorities, old(self).innermost().qname@).contains(
                qname@,
            ) && qtype == QueryType::A && server == ROOT_SERVER && final(self).lookups@.len()
                == old(self).lookups@.len() + 1 && waits_name_server(
                final(self).lookups@[old(self).lookups@.len() - 1].waiting,
                response->Some_0@,
            ) && final(self).lookups@.take(old(self).lookups@.len() - 1) == old(
                self).lookups@.take(old(self).lookups@.len() - 1)),
            response is Some && (aliases(response->Some_0@, old(self).innermost()) || (!is_final(
                response->Some_0@,
            ) && glue_addresses(
                response->Some_0@.authorities,
                response->Some_0@.resources,
                old(self).innermost().qname@,
            ).len() == 0 && ns_hosts(response->Some_0@.authorities, old(self).innermost().qname@).len()
                > 0)) && old(self).lookups@.len() >= MAX_DEPTH ==> (r matches WalkStep::Done(q)
                && coded(q@, ResponseCode::SERVFAIL)),
    {
        let ghost before = self.lookups@;
        let mut top = match self.lookups.pop() {
            Some(l) => l,
            None => {
                return WalkStep::Failed;
            },
        };
        let resp = match response {
            Some(p) => p,
            None => {
                self.lookups = Vec::new();
                return WalkStep::Failed;
            },
        };
        proof {
            assert(self.lookups@ == before.drop_last());
            assert(forall|i: int|
                0 <= i < self.lookups@.len() ==> before[i] == #[trigger] self.lookups@[i]);
        }
        let ghost p0 = resp@;
        match judge(&resp, top.qname.as_str(), top.qtype) {
            Verdict::Final | Verdict::Stuck => self.deliver(resp),
            Verdict::Referral(addr) => self.refer(top, addr),
            Verdict::NameServer(host) => {
                let ghost n = before.len();
                top.waiting = Waiting::NameServer { response: resp };
                self.lookups.push(top);
                let ghost mid = self.lookups@;
                proof {
                    assert(mid.take(n - 1) =~= before.take(n - 1));
                }
                let r = self.nest(host);
                proof {
                    if mid.len() < MAX_DEPTH {
                        assert(self.lookups@.drop_last() == mid);
                        assert(self.lookups@.take(n - 1) =~= mid.take(n - 1));
                        assert(self.lookups@[n - 1] == mid[n - 1]);
                    }
                }
                r
            },
            Verdict::Alias(k) => {
                let count = resp.answers.len();
                proof {
                    assert(p0.answers.len() == count);
                    assert(p0.answers[k as int] == resp.answers@[k as int]@);
                    if aliases(p0, old(self).innermost()) {
                        lemma_cname_from_bounds(p0.answers, 0);
                        assert(k as int == cname_from(p0.answers, 0)->Some_0);
                    }
                }
                let host = match &resp.answers[k] {
                    DnsRecord::CNAME { host, .. } => {
                        let h = host.clone();
                        assert(cname_host(p0.answers, k as int) == h@);
                        h
                    },
                    _ => {
                        assert(!aliases(p0, old(self).innermost()));
                        String::new()
                    },
                };
                let ghost n = before.len();
                let found: Vec<DnsRecord> = Vec::new();
                proof {
                    assert(records_view(found@) =~= Seq::<RecordView>::empty());
                }
                top.waiting = Waiting::Alias { response: resp, next: k, found };
                self.lookups.push(top);
                let ghost mid = self.lookups@;
                proof {
                    assert(mid.take(n - 1) =~= before.take(n - 1));
                }
                let r = self.nest(host);
                proof {
                    if mid.len() < MAX_DEPTH {
                        assert(self.lookups@.drop_last() == mid);
                        assert(self.lookups@.take(n - 1) =~= mid.take(n - 1));
                        assert(self.lookups@[n - 1] == mid[n - 1]);
                    }
                }
                r
            },
        }
    }
}

/// The host of the CNAME record at `k`.
pub open spec fn cname_host(rs: Seq<RecordView>, k: int) -> Seq<char> {
    match rs[k] {
        RecordView::CNAME { host, .. } => host,
        _ => Seq::empty(),
    }
}

/// A response that ends a lookup as it stands: a final answer with no CNAME
/// to chase, or a response with no name server to go to.
pub open spec fn settles(p: PacketView, l: Lookup) -> bool {
    (is_final(p) && !(l.qtype == QueryType::A && cname_from(p.answers, 0) is Some)) || (!is_final(
        p,
    ) && glue_addresses(p.authorities, p.resources, l.qname@).len() == 0 && ns_hosts(
        p.authorities,
        l.qname@,
    ).len() == 0)
}

/// A final answer to an A query that holds a CNAME, whose target is to be
/// resolved first.
pub open spec fn aliases(p: PacketView, l: Lookup) -> bool {
    is_final(p) && l.qtype == QueryType::A && cname_from(p.answers, 0) is Some
}

/// The response a lookup keeps once the A records of a CNAME target, `c`,
/// are in: the code of `c`, and the answer count raised by the answers `c`
/// holds.
pub open spec fn merged(r: PacketView, c: PacketView) -> PacketView {
    PacketView {
        header: DnsHeader {
            rescode: c.header.rescode,
            answers: ((r.header.answers + c.answers.len() % 65536) % 65536) as u16,
            ..r.header
        },
        ..r
    }
}

/// A lookup's response once every CNAME target is in: its answers followed
/// by the answers found for the targets.
pub open spec fn with_found(r: PacketView, found: Seq<RecordView>) -> PacketView {
    PacketView { answers: r.answers + found, ..r }
}

/// `w` waits for the target of the CNAME answer at `next` of `r`, with
/// `found` the answers found for earlier targets.
pub open spec fn waits_alias(w: Waiting, r: PacketView, next: int, found: Seq<RecordView>) -> bool {
    match w {
        Waiting::Alias { response, next: n, found: f } => response@ == r && n == next
            && records_view(f@) == found,
        _ => false,
    }
}

/// `w` waits for a name server's address, keeping `r`.
pub open spec fn waits_name_server(w: Waiting, r: PacketView) -> bool {
    match w {
        Waiting::NameServer { response } => response@ == r,
        _ => false,
    }
}

/// What handing `c`, the response that ended the innermost lookup, to the
/// lookups `before` gives (`r`, and the lookups `after`). With no lookup
/// waiting, `c` is the walk's result. A lookup waiting for a name server's
/// address asks its question of one of the A records of `c`, one referral
/// more (SERVFAIL past the bound); with none, its kept response ends it in
/// turn. A lookup waiting on a CNAME target takes the code of `c`, counts
/// and keeps the answers of `c`, and resolves the next CNAME target; with
/// none left, its answers followed by those found end it in turn. Where a
/// lookup ends in turn, what is stated is the result when it is the
/// outermost.
pub open spec fn delivers(before: Seq<Lookup>, c: PacketView, r: WalkStep, after: Seq<Lookup>) -> bool {
    let n = before.len();
    let par = before.last();
    &&& n == 0 ==> (r matches WalkStep::Done(q) && q@ == c)
    &&& n > 0 ==> match par.waiting {
        Waiting::Response => true,
        Waiting::NameServer { response } => {
            &&& a_addresses(c.answers).len() > 0 && par.referrals < MAX_REFERRALS ==> (
            r matches WalkStep::Query { qname, qtype, server } && qname@ == par.qname@ && qtype
                == par.qtype && a_addresses(c.answers).contains(server@) && after.drop_last()
                == before.drop_last() && after.last().referrals == par.referrals + 1)
            &&& a_addresses(c.answers).len() > 0 && par.referrals >= MAX_REFERRALS ==> (
            r matches WalkStep::Done(q) && coded(q@, ResponseCode::SERVFAIL))
            &&& a_addresses(c.answers).len() == 0 && n == 1 ==> (r matches WalkStep::Done(q) && q@
                == response@)
        },
        Waiting::Alias { response, next, found } => {
            &&& cname_from(response@.answers, next + 1) is Some ==> (r matches WalkStep::Query {
                qname,
                qtype,
                server,
            } && qname@ == cname_host(
                response@.answers,
                cname_from(response@.answers, next + 1)->Some_0,
            ) && qtype == QueryType::A && server == ROOT_SERVER && after.len() == n + 1
                && waits_alias(
                after[n - 1].waiting,
                merged(response@, c),
                cname_from(response@.answers, next + 1)->Some_0,
                records_view(found@) + c.answers,
            ) && after.take(n - 1) == before.take(n - 1))
            &&& cname_from(response@.answers, next + 1) is None && n == 1 ==> (
            r matches WalkStep::Done(q) && q@ == with_found(
                merged(response@, c),
                records_view(found@) + c.answers,
            ))
        },
    }
}

} // verus!
