//! Laws of the message codec: a packet written and read back is the packet
//! as written, counts and truncation included.
use crate::buffer::{u16_at, u16_wire, u32_at, u32_wire};
use crate::laws::{lemma_name_round_trip, name_ok};
use crate::name::{lower_bytes, name_wire, read_name, text_of, WireError};
use crate::protocol::{
    bit, body_wire, counts_fit, fit_count, flags_of, header_at, header_of, header_wire,
    known_count, name_bytes, packet_at, packet_wire, preamble_wire, qtype_num, qtype_of,
    question_at, question_wire, questions_from, questions_wire, rcode_num, rcode_of, rdata_wire,
    record_at, record_room, record_valid, record_wire, records_from, sections_written,
    written_header, DnsHeader, PacketView, QuestionView, RecordView,
};
use vstd::prelude::*;
use vstd::utf8::{encode_utf8_decode_utf8, encode_utf8_valid_utf8};

verus! {

/// A name that reads back as itself: labels of 1 to 63 bytes, no upper case
/// ASCII letter.
pub open spec fn name_canonical(s: Seq<char>) -> bool {
    name_ok(name_bytes(s)) && lower_bytes(name_bytes(s)) == name_bytes(s)
}

/// A question that reads back as itself.
pub open spec fn question_canonical(q: QuestionView) -> bool {
    name_canonical(q.name) && qtype_of(qtype_num(q.qtype)) == q.qtype
}

/// A record of a supported type that reads back as itself.
pub open spec fn record_canonical(r: RecordView) -> bool {
    match r {
        RecordView::UNKNOWN { .. } => false,
        RecordView::A { domain, addr, .. } => name_canonical(domain) && addr.len() == 4,
        RecordView::AAAA { domain, addr, .. } => name_canonical(domain) && addr.len() == 16,
        RecordView::NS { domain, host, .. } => name_canonical(domain) && name_canonical(host),
        RecordView::CNAME { domain, host, .. } => name_canonical(domain) && name_canonical(host),
        RecordView::MX { domain, host, .. } => name_canonical(domain) && name_canonical(host),
    }
}

pub open spec fn records_canonical(rs: Seq<RecordView>) -> bool {
    forall|i: int| 0 <= i < rs.len() ==> record_canonical(#[trigger] rs[i])
}

/// A packet whose parts all read back as themselves.
pub open spec fn packet_canonical(p: PacketView) -> bool {
    &&& p.header.opcode < 16
    &&& counts_fit(p)
    &&& forall|i: int| 0 <= i < p.questions.len() ==> question_canonical(#[trigger] p.questions[i])
    &&& records_canonical(p.answers)
    &&& records_canonical(p.authorities)
    &&& records_canonical(p.resources)
}

/// `w` stands at offset `p` of `data`.
pub open spec fn holds_at(data: Seq<u8>, p: int, w: Seq<u8>) -> bool {
    0 <= p && p + w.len() <= data.len() && data.subrange(p, p + w.len()) == w
}

proof fn lemma_holds_split(data: Seq<u8>, p: int, a: Seq<u8>, b: Seq<u8>)
    requires
        holds_at(data, p, a + b),
    ensures
        holds_at(data, p, a),
        holds_at(data, p + a.len(), b),
{
    assert(data.subrange(p, p + a.len()) =~= (a + b).subrange(0, a.len() as int));
    assert((a + b).subrange(0, a.len() as int) =~= a);
    assert(data.subrange(p + a.len(), p + a.len() + b.len()) =~= (a + b).subrange(
        a.len() as int,
        (a + b).len() as int,
    ));
    assert((a + b).subrange(a.len() as int, (a + b).len() as int) =~= b);
}

proof fn lemma_u16_read(data: Seq<u8>, p: int, v: u16)
    requires
        holds_at(data, p, u16_wire(v)),
    ensures
        u16_at(data, p) == v,
{
    assert(data[p] == u16_wire(v)[0]);
    assert(data[p + 1] == u16_wire(v)[1]);
}

proof fn lemma_u32_read(data: Seq<u8>, p: int, v: u32)
    requires
        holds_at(data, p, u32_wire(v)),
    ensures
        u32_at(data, p) == v,
{
    lemma_holds_split(data, p, u16_wire((v / 65536) as u16), u16_wire((v % 65536) as u16));
    lemma_u16_read(data, p, (v / 65536) as u16);
    lemma_u16_read(data, p + 2, (v % 65536) as u16);
}

/// The flag word reads back as the header's flags, the opcode cut to its
/// four bits.
proof fn lemma_flags_round_trip(h: DnsHeader)
    ensures
        header_of(
            h.id,
            flags_of(h),
            h.questions,
            h.answers,
            h.authoritative_entries,
            h.resource_entries,
        ) == (DnsHeader { opcode: h.opcode & 0xF, ..h }),
        h.opcode < 16 ==> h.opcode & 0xF == h.opcode,
{
    let qr = bit(h.response);
    let aa = bit(h.authoritative_answer);
    let tc = bit(h.truncated_message);
    let rd = bit(h.recursion_desired);
    let ra = bit(h.recursion_available);
    let z = bit(h.z);
    let ad = bit(h.authed_data);
    let cd = bit(h.checking_disabled);
    let op8 = h.opcode;
    let op = (h.opcode & 0xF) as u16;
    let rc = rcode_num(h.rescode) as u16;
    let f = flags_of(h);
    assert(op8 < 16 ==> op8 & 0xF == op8) by (bit_vector);
    assert(op8 & 0xF <= 15) by (bit_vector);
    assert(f == (qr << 15u16) | (op << 11u16) | (aa << 10u16) | (tc << 9u16) | (rd << 8u16) | (ra
        << 7u16) | (z << 6u16) | (ad << 5u16) | (cd << 4u16) | rc);
    assert((f >> 15u16) & 1 == qr && (f >> 11u16) & 0xF == op && (f >> 10u16) & 1 == aa && (f
        >> 9u16) & 1 == tc && (f >> 8u16) & 1 == rd && (f >> 7u16) & 1 == ra && (f >> 6u16) & 1
        == z && (f >> 5u16) & 1 == ad && (f >> 4u16) & 1 == cd && f & 0xF == rc) by (bit_vector)
        requires
            f == (qr << 15u16) | (op << 11u16) | (aa << 10u16) | (tc << 9u16) | (rd << 8u16) | (ra
                << 7u16) | (z << 6u16) | (ad << 5u16) | (cd << 4u16) | rc,
            qr <= 1,
            aa <= 1,
            tc <= 1,
            rd <= 1,
            ra <= 1,
            z <= 1,
            ad <= 1,
            cd <= 1,
            op <= 15,
            rc <= 15,
    ;
    assert(rcode_of(rc as u8) == h.rescode);
}

/// A header written at `p` reads back as itself, the opcode cut to its four
/// bits.
pub proof fn lemma_header_round_trip(data: Seq<u8>, p: int, h: DnsHeader)
    requires
        holds_at(data, p, header_wire(h)),
    ensures
        header_at(data, p) == (DnsHeader { opcode: h.opcode & 0xF, ..h }),
        h.opcode < 16 ==> header_at(data, p) == h,
{
    let w1 = u16_wire(h.id);
    let w2 = u16_wire(flags_of(h));
    let w3 = u16_wire(h.questions);
    let w4 = u16_wire(h.answers);
    let w5 = u16_wire(h.authoritative_entries);
    let w6 = u16_wire(h.resource_entries);
    lemma_holds_split(data, p, w1 + w2 + w3 + w4 + w5, w6);
    lemma_holds_split(data, p, w1 + w2 + w3 + w4, w5);
    lemma_holds_split(data, p, w1 + w2 + w3, w4);
    lemma_holds_split(data, p, w1 + w2, w3);
    lemma_holds_split(data, p, w1, w2);
    lemma_u16_read(data, p, h.id);
    lemma_u16_read(data, p + 2, flags_of(h));
    lemma_u16_read(data, p + 4, h.questions);
    lemma_u16_read(data, p + 6, h.answers);
    lemma_u16_read(data, p + 8, h.authoritative_entries);
    lemma_u16_read(data, p + 10, h.resource_entries);
    lemma_flags_round_trip(h);
}

/// A canonical name written at `p` reads back as itself.
pub proof fn lemma_text_round_trip(data: Seq<u8>, p: int, s: Seq<char>)
    requires
        name_canonical(s),
        holds_at(data, p, name_wire(name_bytes(s))),
    ensures
        read_name(data, p) == Ok::<(Seq<u8>, int), WireError>(
            (name_bytes(s), p + name_wire(name_bytes(s)).len()),
        ),
        text_of(name_bytes(s)) == s,
{
    lemma_name_round_trip(data, p, name_bytes(s));
    encode_utf8_valid_utf8(s);
    encode_utf8_decode_utf8(s);
}

/// A canonical question written at `p` reads back as itself.
pub proof fn lemma_question_round_trip(data: Seq<u8>, p: int, q: QuestionView)
    requires
        question_canonical(q),
        holds_at(data, p, question_wire(q)),
    ensures
        question_at(data, p) == Ok::<(QuestionView, int), WireError>((q, p + question_wire(q).len())),
{
    let nw = name_wire(name_bytes(q.name));
    lemma_holds_split(data, p, nw + u16_wire(qtype_num(q.qtype)), u16_wire(1));
    lemma_holds_split(data, p, nw, u16_wire(qtype_num(q.qtype)));
    lemma_text_round_trip(data, p, q.name);
    lemma_u16_read(data, p + nw.len(), qtype_num(q.qtype));
}

/// The preamble of a record read back: its name, then type and TTL.
proof fn lemma_preamble_read(data: Seq<u8>, p: int, domain: Seq<char>, t: u16, ttl: u32, rest: Seq<u8>)
    requires
        name_canonical(domain),
        holds_at(data, p, preamble_wire(domain, t, ttl) + rest),
    ensures
        read_name(data, p) == Ok::<(Seq<u8>, int), WireError>(
            (name_bytes(domain), p + name_wire(name_bytes(domain)).len()),
        ),
        text_of(name_bytes(domain)) == domain,
        u16_at(data, p + name_wire(name_bytes(domain)).len()) == t,
        u32_at(data, p + name_wire(name_bytes(domain)).len() + 4) == ttl,
        p + preamble_wire(domain, t, ttl).len() + rest.len() <= data.len(),
        preamble_wire(domain, t, ttl).len() == name_wire(name_bytes(domain)).len() + 8,
        holds_at(data, p + preamble_wire(domain, t, ttl).len(), rest),
{
    let nw = name_wire(name_bytes(domain));
    let pre = preamble_wire(domain, t, ttl);
    lemma_holds_split(data, p, pre, rest);
    lemma_holds_split(data, p, nw + u16_wire(t) + u16_wire(1), u32_wire(ttl));
    lemma_holds_split(data, p, nw + u16_wire(t), u16_wire(1));
    lemma_holds_split(data, p, nw, u16_wire(t));
    lemma_text_round_trip(data, p, domain);
    lemma_u16_read(data, p + nw.len(), t);
    lemma_u32_read(data, p + nw.len() + 4, ttl);
}

/// A canonical record written at `p` reads back as itself.
#[verifier::spinoff_prover]
#[verifier::rlimit(100)]
pub proof fn lemma_record_round_trip(data: Seq<u8>, p: int, r: RecordView)
    requires
        record_canonical(r),
        holds_at(data, p, record_wire(r)),
    ensures
        record_at(data, p) == Ok::<(RecordView, int), WireError>((r, p + record_wire(r).len())),
{
    match r {
        RecordView::UNKNOWN { .. } => {},
        RecordView::A { domain, addr, ttl } => {
            lemma_preamble_read(data, p, domain, 1, ttl, rdata_wire(addr));
            let c = p + name_wire(name_bytes(domain)).len();
            lemma_holds_split(data, c + 8, u16_wire((addr.len() % 65536) as u16), addr);
            assert(data.subrange(c + 10, c + 14) =~= addr);
        },
        RecordView::AAAA { domain, addr, ttl } => {
            lemma_preamble_read(data, p, domain, 28, ttl, rdata_wire(addr));
            let c = p + name_wire(name_bytes(domain)).len();
            lemma_holds_split(data, c + 8, u16_wire((addr.len() % 65536) as u16), addr);
            assert(data.subrange(c + 10, c + 26) =~= addr);
        },
        RecordView::NS { domain, host, ttl } => {
            let hw = name_wire(name_bytes(host));
            lemma_preamble_read(data, p, domain, 2, ttl, rdata_wire(hw));
            let c = p + name_wire(name_bytes(domain)).len();
            lemma_holds_split(data, c + 8, u16_wire((hw.len() % 65536) as u16), hw);
            lemma_text_round_trip(data, c + 10, host);
        },
        RecordView::CNAME { domain, host, ttl } => {
            let hw = name_wire(name_bytes(host));
            lemma_preamble_read(data, p, domain, 5, ttl, rdata_wire(hw));
            let c = p + name_wire(name_bytes(domain)).len();
            lemma_holds_split(data, c + 8, u16_wire((hw.len() % 65536) as u16), hw);
            lemma_text_round_trip(data, c + 10, host);
        },
        RecordView::MX { domain, priority, host, ttl } => {
            let hw = name_wire(name_bytes(host));
            let d = u16_wire(priority) + hw;
            lemma_preamble_read(data, p, domain, 15, ttl, rdata_wire(d));
            let c = p + name_wire(name_bytes(domain)).len();
            lemma_holds_split(data, c + 8, u16_wire((d.len() % 65536) as u16), d);
            lemma_holds_split(data, c + 10, u16_wire(priority), hw);
            lemma_u16_read(data, c + 10, priority);
            lemma_text_round_trip(data, c + 12, host);
        },
    }
}

/// The questions' wire forms, taken from the front.
proof fn lemma_questions_wire_front(qs: Seq<QuestionView>)
    requires
        qs.len() > 0,
    ensures
        questions_wire(qs) == question_wire(qs[0]) + questions_wire(qs.drop_first()),
    decreases qs.len(),
{
    if qs.len() == 1 {
        assert(qs.drop_last() =~= Seq::<QuestionView>::empty());
        assert(qs.drop_first() =~= Seq::<QuestionView>::empty());
        assert(questions_wire(qs.drop_last()) =~= Seq::<u8>::empty());
        assert(questions_wire(qs.drop_first()) =~= Seq::<u8>::empty());
        assert(qs.last() == qs[0]);
        assert(questions_wire(qs) =~= question_wire(qs[0]) + Seq::<u8>::empty());
    } else {
        lemma_questions_wire_front(qs.drop_last());
        assert(qs.drop_last().drop_first() =~= qs.drop_first().drop_last());
        assert(qs.drop_first().last() == qs.last());
        assert(qs.drop_last()[0] == qs[0]);
    }
}

/// Canonical questions written one after another read back as themselves.
proof fn lemma_questions_round_trip(data: Seq<u8>, p: int, qs: Seq<QuestionView>, acc: Seq<QuestionView>)
    requires
        forall|i: int| 0 <= i < qs.len() ==> question_canonical(#[trigger] qs[i]),
        holds_at(data, p, questions_wire(qs)),
    ensures
        questions_from(data, p, qs.len(), acc) == Ok::<(Seq<QuestionView>, int), WireError>(
            (acc + qs, p + questions_wire(qs).len()),
        ),
    decreases qs.len(),
{
    if qs.len() == 0 {
        assert(acc + qs =~= acc);
    } else {
        lemma_questions_wire_front(qs);
        let rest = qs.drop_first();
        lemma_holds_split(data, p, question_wire(qs[0]), questions_wire(rest));
        assert(question_canonical(qs[0]));
        lemma_question_round_trip(data, p, qs[0]);
        assert forall|i: int| 0 <= i < rest.len() implies question_canonical(#[trigger] rest[i]) by {
            assert(rest[i] == qs[i + 1]);
        }
        lemma_questions_round_trip(data, p + question_wire(qs[0]).len(), rest, acc.push(qs[0]));
        assert(acc.push(qs[0]) + rest =~= acc + qs);
    }
}

/// The first `k` records' wire forms, taken from the front.
proof fn lemma_body_wire_front(rs: Seq<RecordView>, k: int)
    requires
        0 < k <= rs.len(),
    ensures
        body_wire(rs, k) == record_wire(rs[0]) + body_wire(rs.drop_first(), k - 1),
    decreases k,
{
    if k == 1 {
        assert(body_wire(rs, 0) =~= Seq::<u8>::empty());
        assert(body_wire(rs.drop_first(), 0) =~= Seq::<u8>::empty());
        assert(body_wire(rs, 1) =~= record_wire(rs[0]) + Seq::<u8>::empty());
    } else {
        lemma_body_wire_front(rs, k - 1);
        assert(rs.drop_first()[k - 2] == rs[k - 1]);
    }
}

/// The first `k` of canonical records written one after another read back
/// as themselves.
#[verifier::spinoff_prover]
#[verifier::rlimit(100)]
proof fn lemma_records_round_trip(
    data: Seq<u8>,
    p: int,
    rs: Seq<RecordView>,
    k: int,
    acc: Seq<RecordView>,
)
    requires
        0 <= k <= rs.len(),
        records_canonical(rs),
        holds_at(data, p, body_wire(rs, k)),
    ensures
        records_from(data, p, k as nat, acc) == Ok::<(Seq<RecordView>, int), WireError>(
            (acc + rs.take(k), p + body_wire(rs, k).len()),
        ),
    decreases k,
{
    if k == 0 {
        assert(acc + rs.take(0) =~= acc);
    } else {
        lemma_body_wire_front(rs, k);
        let rest = rs.drop_first();
        lemma_holds_split(data, p, record_wire(rs[0]), body_wire(rest, k - 1));
        assert(record_canonical(rs[0]));
        lemma_record_round_trip(data, p, rs[0]);
        assert forall|i: int| 0 <= i < rest.len() implies record_canonical(#[trigger] rest[i]) by {
            assert(rest[i] == rs[i + 1]);
        }
        lemma_records_round_trip(data, p + record_wire(rs[0]).len(), rest, k - 1, acc.push(rs[0]));
        assert(acc.push(rs[0]) + rest.take(k - 1) =~= acc + rs.take(k));
    }
}

/// Where writing stops, no earlier than `i` and no later than the end.
proof fn lemma_fit_count_bounds(rs: Seq<RecordView>, i: int, room: int)
    requires
        0 <= i <= rs.len(),
    ensures
        i <= fit_count(rs, i, room) <= rs.len(),
    decreases rs.len() - i,
{
    if i < rs.len() && record_valid(rs[i]) && record_wire(rs[i]).len() <= room {
        lemma_fit_count_bounds(rs, i + 1, room - record_wire(rs[i]).len());
    }
}

/// Records the writer passes fit in the room they were given.
proof fn lemma_fit_count_room(rs: Seq<RecordView>, i: int, room: int)
    requires
        0 <= i <= rs.len(),
        room >= 0,
    ensures
        body_wire(rs, fit_count(rs, i, room)).len() - body_wire(rs, i).len() <= room,
    decreases rs.len() - i,
{
    lemma_fit_count_bounds(rs, i, room);
    if i < rs.len() && record_valid(rs[i]) && record_wire(rs[i]).len() <= room {
        lemma_fit_count_room(rs, i + 1, room - record_wire(rs[i]).len());
    }
}

/// Valid records that fit all together are all passed.
proof fn lemma_fit_count_all(rs: Seq<RecordView>, i: int, room: int)
    requires
        0 <= i <= rs.len(),
        records_canonical(rs),
        body_wire(rs, rs.len() as int).len() - body_wire(rs, i).len() <= room,
    ensures
        fit_count(rs, i, room) == rs.len(),
    decreases rs.len() - i,
{
    if i < rs.len() {
        assert(record_canonical(rs[i]));
        lemma_body_wire_mono(rs, i + 1, rs.len() as int);
        lemma_fit_count_all(rs, i + 1, room - record_wire(rs[i]).len());
    }
}

/// A longer prefix of records writes no fewer bytes.
proof fn lemma_body_wire_mono(rs: Seq<RecordView>, j: int, k: int)
    requires
        0 <= j <= k <= rs.len(),
    ensures
        body_wire(rs, j).len() <= body_wire(rs, k).len(),
    decreases k - j,
{
    if j < k {
        lemma_body_wire_mono(rs, j, k - 1);
    }
}

/// Records of supported types are all counted.
proof fn lemma_known_count(rs: Seq<RecordView>, k: int)
    requires
        0 <= k <= rs.len(),
        records_canonical(rs),
    ensures
        known_count(rs, k) == k,
    decreases k,
{
    if k > 0 {
        assert(record_canonical(rs[k - 1]));
        lemma_known_count(rs, k - 1);
    }
}

/// What reading back a packet written with `room` bytes gives: the header
/// as written, the questions, and each section cut to the records written.
pub open spec fn read_back(p: PacketView, room: int) -> PacketView {
    let (ka, kn, kr) = sections_written(p, record_room(p, room));
    PacketView {
        header: written_header(p, room),
        questions: p.questions,
        answers: p.answers.take(ka),
        authorities: p.authorities.take(kn),
        resources: p.resources.take(kr),
    }
}

/// A canonical packet, written with `room` bytes where its header and
/// questions fit, reads back as `read_back(p, room)`; its header counts are
/// the lengths of the sections read, and TC is set when records were left
/// out.
#[verifier::spinoff_prover]
#[verifier::rlimit(100)]
pub proof fn law_written_packet_reads_back(p: PacketView, room: int, data: Seq<u8>, pos: int)
    requires
        packet_canonical(p),
        12 + questions_wire(p.questions).len() <= room,
        holds_at(data, pos, packet_wire(p, room)),
    ensures
        packet_at(data, pos) == Ok::<PacketView, WireError>(read_back(p, room)),
        read_back(p, room).header.questions == p.questions.len(),
        read_back(p, room).header.answers == read_back(p, room).answers.len(),
        read_back(p, room).header.authoritative_entries == read_back(p, room).authorities.len(),
        read_back(p, room).header.resource_entries == read_back(p, room).resources.len(),
        read_back(p, room).header.truncated_message == (p.header.truncated_message
            || read_back(p, room).answers.len() < p.answers.len()
            || read_back(p, room).authorities.len() < p.authorities.len()
            || read_back(p, room).resources.len() < p.resources.len()),
{
    reveal(sections_written);
    reveal(written_header);
    reveal(packet_wire);
    let rr = record_room(p, room);
    let (ka, kn, kr) = sections_written(p, rr);
    let h = written_header(p, room);
    let qw = questions_wire(p.questions);
    let ba = body_wire(p.answers, ka);
    let bn = body_wire(p.authorities, kn);
    let br = body_wire(p.resources, kr);
    lemma_fit_count_bounds(p.answers, 0, rr);
    let room2 = rr - ba.len();
    if ka == p.answers.len() {
        lemma_fit_count_bounds(p.authorities, 0, room2);
    }
    let room3 = room2 - bn.len();
    if ka == p.answers.len() && kn == p.authorities.len() {
        lemma_fit_count_bounds(p.resources, 0, room3);
    }
    assert(0 <= ka <= p.answers.len());
    assert(0 <= kn <= p.authorities.len());
    assert(0 <= kr <= p.resources.len());
    lemma_known_count(p.answers, ka);
    lemma_known_count(p.authorities, kn);
    lemma_known_count(p.resources, kr);
    assert(h.opcode < 16);
    lemma_holds_split(data, pos, header_wire(h) + qw + ba + bn, br);
    lemma_holds_split(data, pos, header_wire(h) + qw + ba, bn);
    lemma_holds_split(data, pos, header_wire(h) + qw, ba);
    lemma_holds_split(data, pos, header_wire(h), qw);
    crate::protocol::lemma_header_wire_len(h);
    lemma_header_round_trip(data, pos, h);
    lemma_questions_round_trip(data, pos + 12, p.questions, Seq::empty());
    assert(Seq::<QuestionView>::empty() + p.questions =~= p.questions);
    let c1 = pos + 12 + qw.len();
    lemma_records_round_trip(data, c1, p.answers, ka, Seq::empty());
    assert(Seq::<RecordView>::empty() + p.answers.take(ka) =~= p.answers.take(ka));
    let c2 = c1 + ba.len();
    lemma_records_round_trip(data, c2, p.authorities, kn, Seq::empty());
    assert(Seq::<RecordView>::empty() + p.authorities.take(kn) =~= p.authorities.take(kn));
    let c3 = c2 + bn.len();
    lemma_records_round_trip(data, c3, p.resources, kr, Seq::empty());
    assert(Seq::<RecordView>::empty() + p.resources.take(kr) =~= p.resources.take(kr));
}

/// Round trip: a canonical packet whose header counts its sections, written
/// with room for all of it, reads back as itself.
pub proof fn law_round_trip(p: PacketView, room: int, data: Seq<u8>, pos: int)
    requires
        packet_canonical(p),
        p.header.questions == p.questions.len(),
        p.header.answers == p.answers.len(),
        p.header.authoritative_entries == p.authorities.len(),
        p.header.resource_entries == p.resources.len(),
        12 + questions_wire(p.questions).len() + body_wire(p.answers, p.answers.len() as int).len()
            + body_wire(p.authorities, p.authorities.len() as int).len() + body_wire(
            p.resources,
            p.resources.len() as int,
        ).len() <= room,
        holds_at(data, pos, packet_wire(p, room)),
    ensures
        packet_at(data, pos) == Ok::<PacketView, WireError>(p),
{
    reveal(sections_written);
    reveal(written_header);
    let rr = record_room(p, room);
    let ba = body_wire(p.answers, p.answers.len() as int);
    let bn = body_wire(p.authorities, p.authorities.len() as int);
    assert(body_wire(p.answers, 0) =~= Seq::<u8>::empty());
    assert(body_wire(p.authorities, 0) =~= Seq::<u8>::empty());
    assert(body_wire(p.resources, 0) =~= Seq::<u8>::empty());
    lemma_fit_count_all(p.answers, 0, rr);
    lemma_fit_count_all(p.authorities, 0, rr - ba.len());
    lemma_fit_count_all(p.resources, 0, rr - ba.len() - bn.len());
    law_written_packet_reads_back(p, room, data, pos);
    assert(p.answers.take(p.answers.len() as int) =~= p.answers);
    assert(p.authorities.take(p.authorities.len() as int) =~= p.authorities);
    assert(p.resources.take(p.resources.len() as int) =~= p.resources);
    assert(read_back(p, room).header == p.header);
}

/// Truncation: when a canonical packet's records do not all fit in the room
/// left after its header and questions, TC is set, and each section counts
/// only the records written, whose wire forms fit in that room.
#[verifier::spinoff_prover]
#[verifier::rlimit(100)]
pub proof fn law_truncation(p: PacketView, room: int)
    requires
        packet_canonical(p),
        12 + questions_wire(p.questions).len() <= room,
        12 + questions_wire(p.questions).len() + body_wire(p.answers, p.answers.len() as int).len()
            + body_wire(p.authorities, p.authorities.len() as int).len() + body_wire(
            p.resources,
            p.resources.len() as int,
        ).len() > room,
    ensures
        written_header(p, room).truncated_message,
        written_header(p, room).answers == sections_written(p, record_room(p, room)).0,
        written_header(p, room).authoritative_entries == sections_written(p, record_room(p, room)).1,
        written_header(p, room).resource_entries == sections_written(p, record_room(p, room)).2,
        body_wire(p.answers, sections_written(p, record_room(p, room)).0).len() + body_wire(
            p.authorities,
            sections_written(p, record_room(p, room)).1,
        ).len() + body_wire(p.resources, sections_written(p, record_room(p, room)).2).len()
            <= record_room(p, room),
{
    reveal(sections_written);
    reveal(written_header);
    let rr = record_room(p, room);
    let (ka, kn, kr) = sections_written(p, rr);
    assert(body_wire(p.answers, 0) =~= Seq::<u8>::empty());
    assert(body_wire(p.authorities, 0) =~= Seq::<u8>::empty());
    assert(body_wire(p.resources, 0) =~= Seq::<u8>::empty());
    lemma_fit_count_bounds(p.answers, 0, rr);
    lemma_fit_count_room(p.answers, 0, rr);
    let room2 = rr - body_wire(p.answers, ka).len();
    if ka == p.answers.len() {
        lemma_fit_count_bounds(p.authorities, 0, room2);
        lemma_fit_count_room(p.authorities, 0, room2);
    }
    let room3 = room2 - body_wire(p.authorities, kn).len();
    if ka == p.answers.len() && kn == p.authorities.len() {
        lemma_fit_count_bounds(p.resources, 0, room3);
        lemma_fit_count_room(p.resources, 0, room3);
    }
    lemma_known_count(p.answers, ka);
    lemma_known_count(p.authorities, kn);
    lemma_known_count(p.resources, kr);
}

/// At most `k` of the first `k` records are counted.
proof fn lemma_known_count_le(rs: Seq<RecordView>, k: int)
    requires
        0 <= k <= rs.len(),
    ensures
        known_count(rs, k) <= k,
    decreases k,
{
    if k > 0 {
        lemma_known_count_le(rs, k - 1);
    }
}

/// Section counts and truncation, for any packet whose sections fit their
/// counts: the header on the wire counts the questions and, in each
/// section, the records written to the body (records of unknown type write
/// nothing and are not counted), and its TC bit is set exactly when a
/// record was left out or TC was set before. Writing stops at the first
/// record that cannot be written or does not fit in what is left of
/// `room`.
pub proof fn law_written_counts(p: PacketView, room: int)
    requires
        counts_fit(p),
    ensures
        header_at(packet_wire(p, room), 0).questions == p.questions.len(),
        header_at(packet_wire(p, room), 0).answers == known_count(
            p.answers,
            sections_written(p, record_room(p, room)).0,
        ),
        header_at(packet_wire(p, room), 0).authoritative_entries == known_count(
            p.authorities,
            sections_written(p, record_room(p, room)).1,
        ),
        header_at(packet_wire(p, room), 0).resource_entries == known_count(
            p.resources,
            sections_written(p, record_room(p, room)).2,
        ),
        header_at(packet_wire(p, room), 0).truncated_message == (p.header.truncated_message
            || sections_written(p, record_room(p, room)).0 < p.answers.len()
            || sections_written(p, record_room(p, room)).1 < p.authorities.len()
            || sections_written(p, record_room(p, room)).2 < p.resources.len()),
{
    reveal(sections_written);
    reveal(written_header);
    reveal(packet_wire);
    let rr = record_room(p, room);
    let (ka, kn, kr) = sections_written(p, rr);
    let h = written_header(p, room);
    let pw = packet_wire(p, room);
    let rest = pw.subrange(12, pw.len() as int);
    crate::protocol::lemma_header_wire_len(h);
    assert(header_wire(h) + rest =~= pw);
    assert(pw.subrange(0, pw.len() as int) =~= pw);
    lemma_holds_split(pw, 0, header_wire(h), rest);
    lemma_header_round_trip(pw, 0, h);
    lemma_fit_count_bounds(p.answers, 0, rr);
    let room2 = rr - body_wire(p.answers, ka).len();
    if ka == p.answers.len() {
        lemma_fit_count_bounds(p.authorities, 0, room2);
    }
    let room3 = room2 - body_wire(p.authorities, kn).len();
    if ka == p.answers.len() && kn == p.authorities.len() {
        lemma_fit_count_bounds(p.resources, 0, room3);
    }
    lemma_known_count_le(p.answers, ka);
    lemma_known_count_le(p.authorities, kn);
    lemma_known_count_le(p.resources, kr);
}

} // verus!
