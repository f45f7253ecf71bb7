//! What the servers and the transport client decide: transaction ids, the
//! query sent upstream, the response to a client, and TCP length prefixes.
use crate::protocol::{
    empty_header, records_view, DnsHeader, DnsPacket, DnsQuestion, DnsRecord, PacketView,
    QueryType, QuestionView, ResponseCode,
};
use vstd::prelude::*;

verus! {

/// A 16-bit transaction id source that counts up, wrapping around.
pub struct IdSequence {
    pub next: u16,
}

/// `id` was issued by a sequence that went from `before` to `after`.
pub open spec fn issued(before: IdSequence, id: u16, after: IdSequence) -> bool {
    id == before.next && after.next == (before.next + 1) % 65536
}

impl IdSequence {
    pub fn new(start: u16) -> (r: IdSequence)
        ensures
            r.next == start,
    {
        IdSequence { next: start }
    }

    /// The next id; the sequence moves on by one, wrapping around.
    pub fn next_id(&mut self) -> (r: u16)
        ensures
            issued(*old(self), r, *final(self)),
    {
        let id = self.next;
        self.next = self.next.wrapping_add(1);
        id
    }
}

/// Transaction ids increase by one from each call to the next, modulo 2^16.
pub proof fn law_ids_increase(
    s0: IdSequence,
    id1: u16,
    s1: IdSequence,
    id2: u16,
    s2: IdSequence,
)
    requires
        issued(s0, id1, s1),
        issued(s1, id2, s2),
    ensures
        id2 == (id1 + 1) % 65536,
{
}

/// The query sent upstream for `qname` of type `qtype`.
pub open spec fn is_query(p: PacketView, id: u16, qname: Seq<char>, qtype: QueryType, rd: bool) -> bool {
    p.header == (DnsHeader { id, questions: 1, recursion_desired: rd, ..empty_header() })
        && p.questions == seq![QuestionView { name: qname, qtype }] && p.answers.len() == 0
        && p.authorities.len() == 0 && p.resources.len() == 0
}

/// A query packet: the id given, one question, RD as asked.
pub fn build_query(id: u16, qname: &str, qtype: QueryType, recursion_desired: bool) -> (r:
    DnsPacket)
    ensures
        is_query(r@, id, qname@, qtype, recursion_desired),
{
    let mut packet = DnsPacket::new();
    packet.header.id = id;
    packet.header.questions = 1;
    packet.header.recursion_desired = recursion_desired;
    packet.questions.push(DnsQuestion::new(qname.to_owned(), qtype));
    proof {
        assert(packet@.questions =~= seq![QuestionView { name: qname@, qtype }]);
    }
    packet
}

/// Appends copies of `from` to `to`.
fn copy_records(to: &mut Vec<DnsRecord>, from: Vec<DnsRecord>)
    ensures
        records_view(final(to)@) == records_view(old(to)@) + records_view(from@),
{
    let mut from = from;
    let ghost before = records_view(to@);
    let ghost added = records_view(from@);
    to.append(&mut from);
    proof {
        assert(records_view(to@) =~= before + added);
    }
}

/// The header of a response to `request`: its id and RD, RA as the server
/// allows, QR set, and `code`.
pub open spec fn response_header(request: DnsHeader, allow_recursion: bool, code: ResponseCode) -> DnsHeader {
    DnsHeader {
        id: request.id,
        recursion_desired: request.recursion_desired,
        recursion_available: allow_recursion,
        response: true,
        rescode: code,
        ..empty_header()
    }
}

/// The response to `request`. Without a question it is FORMERR. Otherwise
/// `result` is what resolving its first question gave: none when that
/// failed, which gives SERVFAIL; else the response echoes the question and
/// carries the result's code and records.
pub fn execute_query(request: &DnsPacket, allow_recursion: bool, result: Option<DnsPacket>) -> (r:
    DnsPacket)
    ensures
        request.questions@.len() == 0 ==> r@ == (PacketView {
            header: response_header(request.header, allow_recursion, ResponseCode::FORMERR),
            questions: Seq::empty(),
            answers: Seq::empty(),
            authorities: Seq::empty(),
            resources: Seq::empty(),
        }),
        request.questions@.len() > 0 && result is None ==> r@ == (PacketView {
            header: response_header(request.header, allow_recursion, ResponseCode::SERVFAIL),
            questions: Seq::empty(),
            answers: Seq::empty(),
            authorities: Seq::empty(),
            resources: Seq::empty(),
        }),
        request.questions@.len() > 0 && result is Some ==> r@ == (PacketView {
            header: response_header(
                request.header,
                allow_recursion,
                result->Some_0.header.rescode,
            ),
            questions: seq![request@.questions[0]],
            answers: result->Some_0@.answers,
            authorities: result->Some_0@.authorities,
            resources: result->Some_0@.resources,
        }),
{
    let mut response = DnsPacket::new();
    response.header.id = request.header.id;
    response.header.recursion_desired = request.header.recursion_desired;
    response.header.recursion_available = allow_recursion;
    response.header.response = true;
    if request.questions.len() == 0 {
        response.header.rescode = ResponseCode::FORMERR;
        proof {
            assert(response@.questions =~= Seq::<QuestionView>::empty());
            assert(response@.answers =~= Seq::empty());
            assert(response@.authorities =~= Seq::empty());
            assert(response@.resources =~= Seq::empty());
        }
        return response;
    }
    match result {
        Some(found) => {
            let question = &request.questions[0];
            response.questions.push(DnsQuestion::new(question.name.clone(), question.qtype));
            response.header.rescode = found.header.rescode;
            copy_records(&mut response.answers, found.answers);
            copy_records(&mut response.authorities, found.authorities);
            copy_records(&mut response.resources, found.resources);
            proof {
                assert(response@.questions =~= seq![request@.questions[0]]);
                assert(records_view(Seq::<DnsRecord>::empty()) =~= Seq::empty());
                assert(response@.answers =~= result->Some_0@.answers);
                assert(response@.authorities =~= result->Some_0@.authorities);
                assert(response@.resources =~= result->Some_0@.resources);
            }
        },
        None => {
            response.header.rescode = ResponseCode::SERVFAIL;
            proof {
                assert(response@.questions =~= Seq::<QuestionView>::empty());
                assert(response@.answers =~= Seq::empty());
                assert(response@.authorities =~= Seq::empty());
                assert(response@.resources =~= Seq::empty());
            }
        },
    }
    response
}

/// A message prefixed by its length as two big-endian bytes, as sent over
/// TCP; none when the message is longer than 65535 bytes.
pub fn tcp_frame(message: &[u8]) -> (r: Option<Vec<u8>>)
    ensures
        message@.len() > 65535 <==> r is None,
        r is Some ==> r->Some_0@ == seq![(message@.len() / 256) as u8, (message@.len() % 256) as u8]
            + message@,
{
    let n = message.len();
    if n > 65535 {
        return None;
    }
    let mut out: Vec<u8> = Vec::new();
    out.push((n / 256) as u8);
    out.push((n % 256) as u8);
    let mut i: usize = 0;
    while i < n
        invariant
            n == message@.len(),
            i <= n,
            out@ == seq![(n / 256) as u8, (n % 256) as u8] + message@.take(i as int),
        decreases n - i,
    {
        out.push(message[i]);
        i = i + 1;
        proof {
            assert(message@.take(i as int) =~= message@.take(i - 1).push(message@[i - 1]));
        }
    }
    proof {
        assert(message@.take(n as int) =~= message@);
    }
    Some(out)
}

/// The length a TCP length prefix carries.
pub fn tcp_length(prefix: [u8; 2]) -> (r: usize)
    ensures
        r == prefix[0] * 256 + prefix[1],
{
    (prefix[0] as usize) * 256 + prefix[1] as usize
}

} // verus!
