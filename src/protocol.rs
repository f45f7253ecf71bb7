//! The DNS message model: header, questions, records and packets, with their
//! wire forms.
use crate::buffer::{
    lemma_splice_concat, lemma_wf_splice_len, put_all, put_name, put_u16, put_u32, splice,
    u16_at, u16_wire, u32_at, u32_wire, ByteBuffer,
};
use crate::name::{check_labels, labels_fit, name_wire, read_name, text_of, WireError};
use vstd::prelude::*;
use vstd::string::StringSliceAdditionalSpecFns;
use vstd::utf8::encode_utf8;

verus! {

/// DNS response code.
#[derive(Copy, Clone, Debug, PartialEq, Eq, Structural)]
#[allow(non_camel_case_types, clippy::upper_case_acronyms)]
pub enum ResponseCode {
    NOERROR,
    FORMERR,
    SERVFAIL,
    NXDOMAIN,
    NOTIMP,
    REFUSED,
}

/// The code a number on the wire stands for; unknown numbers read as NOERROR.
pub open spec fn rcode_of(num: u8) -> ResponseCode {
    if num == 1 {
        ResponseCode::FORMERR
    } else if num == 2 {
        ResponseCode::SERVFAIL
    } else if num == 3 {
        ResponseCode::NXDOMAIN
    } else if num == 4 {
        ResponseCode::NOTIMP
    } else if num == 5 {
        ResponseCode::REFUSED
    } else {
        ResponseCode::NOERROR
    }
}

/// The number of a code on the wire.
pub open spec fn rcode_num(c: ResponseCode) -> u8 {
    match c {
        ResponseCode::NOERROR => 0,
        ResponseCode::FORMERR => 1,
        ResponseCode::SERVFAIL => 2,
        ResponseCode::NXDOMAIN => 3,
        ResponseCode::NOTIMP => 4,
        ResponseCode::REFUSED => 5,
    }
}

impl ResponseCode {
    pub fn from_num(num: u8) -> (r: ResponseCode)
        ensures
            r == rcode_of(num),
    {
        match num {
            1 => ResponseCode::FORMERR,
            2 => ResponseCode::SERVFAIL,
            3 => ResponseCode::NXDOMAIN,
            4 => ResponseCode::NOTIMP,
            5 => ResponseCode::REFUSED,
            _ => ResponseCode::NOERROR,
        }
    }

    pub fn to_num(&self) -> (r: u8)
        ensures
            r == rcode_num(*self),
    {
        match self {
            ResponseCode::NOERROR => 0,
            ResponseCode::FORMERR => 1,
            ResponseCode::SERVFAIL => 2,
            ResponseCode::NXDOMAIN => 3,
            ResponseCode::NOTIMP => 4,
            ResponseCode::REFUSED => 5,
        }
    }
}

/// Record and query types; any other code is kept as `UNKNOWN`.
#[derive(PartialEq, Eq, Debug, Clone, Hash, Copy, Structural)]
#[allow(clippy::upper_case_acronyms)]
pub enum QueryType {
    UNKNOWN(u16),
    A,
    NS,
    CNAME,
    MX,
    AAAA,
}

/// The type a number on the wire stands for.
pub open spec fn qtype_of(num: u16) -> QueryType {
    if num == 1 {
        QueryType::A
    } else if num == 2 {
        QueryType::NS
    } else if num == 5 {
        QueryType::CNAME
    } else if num == 15 {
        QueryType::MX
    } else if num == 28 {
        QueryType::AAAA
    } else {
        QueryType::UNKNOWN(num)
    }
}

/// The number of a type on the wire.
pub open spec fn qtype_num(t: QueryType) -> u16 {
    match t {
        QueryType::UNKNOWN(n) => n,
        QueryType::A => 1,
        QueryType::NS => 2,
        QueryType::CNAME => 5,
        QueryType::MX => 15,
        QueryType::AAAA => 28,
    }
}

impl QueryType {
    pub fn to_num(&self) -> (r: u16)
        ensures
            r == qtype_num(*self),
    {
        match *self {
            QueryType::UNKNOWN(n) => n,
            QueryType::A => 1,
            QueryType::NS => 2,
            QueryType::CNAME => 5,
            QueryType::MX => 15,
            QueryType::AAAA => 28,
        }
    }

    pub fn from_num(num: u16) -> (r: QueryType)
        ensures
            r == qtype_of(num),
    {
        match num {
            1 => QueryType::A,
            2 => QueryType::NS,
            5 => QueryType::CNAME,
            15 => QueryType::MX,
            28 => QueryType::AAAA,
            _ => QueryType::UNKNOWN(num),
        }
    }
}

/// The fixed 12-byte header of a DNS message.
#[derive(Clone, Copy, Debug, PartialEq, Eq, Structural)]
pub struct DnsHeader {
    pub id: u16,
    pub recursion_desired: bool,
    pub truncated_message: bool,
    pub authoritative_answer: bool,
    pub opcode: u8,
    pub response: bool,
    pub rescode: ResponseCode,
    pub checking_disabled: bool,
    pub authed_data: bool,
    pub z: bool,
    pub recursion_available: bool,
    pub questions: u16,
    pub answers: u16,
    pub authoritative_entries: u16,
    pub resource_entries: u16,
}

pub open spec fn bit(b: bool) -> u16 {
    if b {
        1
    } else {
        0
    }
}

/// The flag word, most significant bit first:
/// `QR | Opcode(4) | AA | TC | RD | RA | Z | AD | CD | RCODE(4)`.
pub open spec fn flags_of(h: DnsHeader) -> u16 {
    (bit(h.response) << 15u16) | (((h.opcode & 0xF) as u16) << 11u16) | (bit(
        h.authoritative_answer,
    ) << 10u16) | (bit(h.truncated_message) << 9u16) | (bit(h.recursion_desired) << 8u16) | (
    bit(h.recursion_available) << 7u16) | (bit(h.z) << 6u16) | (bit(h.authed_data) << 5u16) | (
    bit(h.checking_disabled) << 4u16) | (rcode_num(h.rescode) as u16)
}

/// The header a flag word and the other fields read as.
pub open spec fn header_of(
    id: u16,
    flags: u16,
    questions: u16,
    answers: u16,
    authoritative_entries: u16,
    resource_entries: u16,
) -> DnsHeader {
    DnsHeader {
        id,
        rescode: rcode_of((flags & 0xF) as u8),
        checking_disabled: (flags >> 4u16) & 1 == 1,
        authed_data: (flags >> 5u16) & 1 == 1,
        z: (flags >> 6u16) & 1 == 1,
        recursion_available: (flags >> 7u16) & 1 == 1,
        recursion_desired: (flags >> 8u16) & 1 == 1,
        truncated_message: (flags >> 9u16) & 1 == 1,
        authoritative_answer: (flags >> 10u16) & 1 == 1,
        opcode: ((flags >> 11u16) & 0xF) as u8,
        response: (flags >> 15u16) & 1 == 1,
        questions,
        answers,
        authoritative_entries,
        resource_entries,
    }
}

/// The wire form of a header.
pub open spec fn header_wire(h: DnsHeader) -> Seq<u8> {
    u16_wire(h.id) + u16_wire(flags_of(h)) + u16_wire(h.questions) + u16_wire(h.answers)
        + u16_wire(h.authoritative_entries) + u16_wire(h.resource_entries)
}

/// The header held at offset `p` (twelve bytes there).
pub open spec fn header_at(data: Seq<u8>, p: int) -> DnsHeader {
    header_of(
        u16_at(data, p),
        u16_at(data, p + 2),
        u16_at(data, p + 4),
        u16_at(data, p + 6),
        u16_at(data, p + 8),
        u16_at(data, p + 10),
    )
}

impl DnsHeader {
    /// A header with every field zero or false and the code NOERROR.
    pub fn new() -> (r: DnsHeader)
        ensures
            r == empty_header(),
    {
        DnsHeader {
            id: 0,
            recursion_desired: false,
            truncated_message: false,
            authoritative_answer: false,
            opcode: 0,
            response: false,
            rescode: ResponseCode::NOERROR,
            checking_disabled: false,
            authed_data: false,
            z: false,
            recursion_available: false,
            questions: 0,
            answers: 0,
            authoritative_entries: 0,
            resource_entries: 0,
        }
    }

    /// Reads the twelve header bytes at the cursor into `self`. On an error
    /// `self` does not change.
    pub fn read<B: ByteBuffer>(&mut self, buffer: &mut B) -> (r: Result<(), WireError>)
        requires
            old(buffer).wf(),
        ensures
            final(buffer).wf(),
            final(buffer).bytes() == old(buffer).bytes(),
            final(buffer).limit() == old(buffer).limit(),
            r is Ok <==> old(buffer).cursor() + 12 <= old(buffer).bytes().len(),
            r is Ok ==> *final(self) == header_at(old(buffer).bytes(), old(buffer).cursor() as int)
                && final(buffer).cursor() == old(buffer).cursor() + 12,
            r is Err ==> *final(self) == *old(self) && r->Err_0 == WireError::EndOfBuffer,
    {
        proof {
            buffer.lemma_wf();
        }
        if buffer.size() - buffer.head() < 12 {
            return Err(WireError::EndOfBuffer);
        }
        let id = buffer.read_u16()?;
        let flags = buffer.read_u16()?;
        let questions = buffer.read_u16()?;
        let answers = buffer.read_u16()?;
        let authoritative_entries = buffer.read_u16()?;
        let resource_entries = buffer.read_u16()?;
        self.id = id;
        self.rescode = ResponseCode::from_num((flags & 0xF) as u8);
        self.checking_disabled = (flags >> 4u16) & 1 == 1;
        self.authed_data = (flags >> 5u16) & 1 == 1;
        self.z = (flags >> 6u16) & 1 == 1;
        self.recursion_available = (flags >> 7u16) & 1 == 1;
        self.recursion_desired = (flags >> 8u16) & 1 == 1;
        self.truncated_message = (flags >> 9u16) & 1 == 1;
        self.authoritative_answer = (flags >> 10u16) & 1 == 1;
        self.opcode = ((flags >> 11u16) & 0xF) as u8;
        self.response = (flags >> 15u16) & 1 == 1;
        self.questions = questions;
        self.answers = answers;
        self.authoritative_entries = authoritative_entries;
        self.resource_entries = resource_entries;
        Ok(())
    }

    /// The packed flag word.
    pub fn flags(&self) -> (r: u16)
        ensures
            r == flags_of(*self),
    {
        let qr: u16 = if self.response { 1 } else { 0 };
        let aa: u16 = if self.authoritative_answer { 1 } else { 0 };
        let tc: u16 = if self.truncated_message { 1 } else { 0 };
        let rd: u16 = if self.recursion_desired { 1 } else { 0 };
        let ra: u16 = if self.recursion_available { 1 } else { 0 };
        let z: u16 = if self.z { 1 } else { 0 };
        let ad: u16 = if self.authed_data { 1 } else { 0 };
        let cd: u16 = if self.checking_disabled { 1 } else { 0 };
        (qr << 15u16) | (((self.opcode & 0xF) as u16) << 11u16) | (aa << 10u16) | (tc << 9u16) | (
        rd << 8u16) | (ra << 7u16) | (z << 6u16) | (ad << 5u16) | (cd << 4u16) | (
        self.rescode.to_num() as u16)
    }

    /// Writes the header's twelve bytes at the cursor. Fails, writing
    /// nothing, when they do not fit.
    pub fn write<B: ByteBuffer>(&self, buffer: &mut B) -> (r: Result<(), WireError>)
        requires
            old(buffer).wf(),
        ensures
            final(buffer).wf(),
            r is Ok <==> old(buffer).cursor() + 12 <= old(buffer).limit(),
            r is Ok ==> final(buffer).bytes() == splice(
                old(buffer).bytes(),
                old(buffer).cursor() as int,
                header_wire(*self),
            ) && final(buffer).limit() == old(buffer).limit() && final(buffer).cursor() == old(
                buffer).cursor() + 12,
            r is Err ==> *final(buffer) == *old(buffer) && r->Err_0 == WireError::EndOfBuffer,
    {
        proof {
            buffer.lemma_wf();
        }
        if buffer.remaining() < 12 {
            return Err(WireError::EndOfBuffer);
        }
        let ghost s0 = buffer.bytes();
        let ghost c0 = buffer.cursor() as int;
        let flags = self.flags();
        let ghost mut w: Seq<u8> = Seq::empty();
        proof {
            assert(splice(s0, c0, w) =~= s0);
        }
        put_u16(buffer, self.id, Ghost(s0), Ghost(c0), Ghost(w));
        proof {
            w = w + u16_wire(self.id);
        }
        put_u16(buffer, flags, Ghost(s0), Ghost(c0), Ghost(w));
        proof {
            w = w + u16_wire(flags);
        }
        put_u16(buffer, self.questions, Ghost(s0), Ghost(c0), Ghost(w));
        proof {
            w = w + u16_wire(self.questions);
        }
        put_u16(buffer, self.answers, Ghost(s0), Ghost(c0), Ghost(w));
        proof {
            w = w + u16_wire(self.answers);
        }
        put_u16(buffer, self.authoritative_entries, Ghost(s0), Ghost(c0), Ghost(w));
        proof {
            w = w + u16_wire(self.authoritative_entries);
        }
        put_u16(buffer, self.resource_entries, Ghost(s0), Ghost(c0), Ghost(w));
        proof {
            w = w + u16_wire(self.resource_entries);
            assert(w =~= header_wire(*self));
        }
        Ok(())
    }
}

pub open spec fn empty_header() -> DnsHeader {
    DnsHeader {
        id: 0,
        recursion_desired: false,
        truncated_message: false,
        authoritative_answer: false,
        opcode: 0,
        response: false,
        rescode: ResponseCode::NOERROR,
        checking_disabled: false,
        authed_data: false,
        z: false,
        recursion_available: false,
        questions: 0,
        answers: 0,
        authoritative_entries: 0,
        resource_entries: 0,
    }
}

/// The bytes of a name as written: its UTF-8 encoding.
pub open spec fn name_bytes(name: Seq<char>) -> Seq<u8> {
    encode_utf8(name)
}

/// A question: a name and the type asked for. The class is always IN.
#[derive(Debug, Clone, PartialEq, Eq)]
pub struct DnsQuestion {
    pub name: String,
    pub qtype: QueryType,
}

/// What a question holds.
pub struct QuestionView {
    pub name: Seq<char>,
    pub qtype: QueryType,
}

impl View for DnsQuestion {
    type V = QuestionView;

    open spec fn view(&self) -> QuestionView {
        QuestionView { name: self.name@, qtype: self.qtype }
    }
}

/// The wire form of a question: name, type, class IN.
pub open spec fn question_wire(q: QuestionView) -> Seq<u8> {
    name_wire(name_bytes(q.name)) + u16_wire(qtype_num(q.qtype)) + u16_wire(1)
}

/// The question at offset `p` and the offset after it.
pub open spec fn question_at(data: Seq<u8>, p: int) -> Result<(QuestionView, int), WireError> {
    match read_name(data, p) {
        Err(e) => Err(e),
        Ok((n, c)) => if c + 4 > data.len() {
            Err(WireError::EndOfBuffer)
        } else {
            Ok((QuestionView { name: text_of(n), qtype: qtype_of(u16_at(data, c)) }, c + 4))
        },
    }
}

impl DnsQuestion {
    pub fn new(name: String, qtype: QueryType) -> (r: DnsQuestion)
        ensures
            r.name == name,
            r.qtype == qtype,
    {
        DnsQuestion { name, qtype }
    }

    /// Reads a question at the cursor, appending its name to `self.name`.
    pub fn read<B: ByteBuffer>(&mut self, buffer: &mut B) -> (r: Result<(), WireError>)
        requires
            old(buffer).wf(),
        ensures
            final(buffer).wf(),
            final(buffer).bytes() == old(buffer).bytes(),
            final(buffer).limit() == old(buffer).limit(),
            match question_at(old(buffer).bytes(), old(buffer).cursor() as int) {
                Ok((q, c)) => r is Ok && final(self)@ == (QuestionView {
                    name: old(self).name@ + q.name,
                    qtype: q.qtype,
                }) && final(buffer).cursor() == c,
                Err(e) => r == Err::<(), WireError>(e),
            },
    {
        buffer.read_qname(&mut self.name)?;
        let qtype = buffer.read_u16()?;
        let _ = buffer.read_u16()?;
        self.qtype = QueryType::from_num(qtype);
        Ok(())
    }

    /// Writes the question at the cursor. Fails, writing nothing, when a
    /// label is too long or the question does not fit.
    pub fn write<B: ByteBuffer>(&self, buffer: &mut B) -> (r: Result<(), WireError>)
        requires
            old(buffer).wf(),
        ensures
            final(buffer).wf(),
            !labels_fit(name_bytes(self.name@)) ==> r == Err::<(), WireError>(WireError::LabelTooLong),
            r is Ok <==> labels_fit(name_bytes(self.name@)) && old(buffer).cursor() + question_wire(
                self@,
            ).len() <= old(buffer).limit(),
            r is Ok ==> final(buffer).bytes() == splice(
                old(buffer).bytes(),
                old(buffer).cursor() as int,
                question_wire(self@),
            ) && final(buffer).limit() == old(buffer).limit() && final(buffer).cursor() == old(
                buffer).cursor() + question_wire(self@).len(),
            r is Err ==> *final(buffer) == *old(buffer),
    {
        proof {
            buffer.lemma_wf();
            crate::buffer::lemma_name_wire_len(name_bytes(self.name@));
        }
        let name = self.name.as_str();
        if !check_labels(name.as_bytes()) {
            return Err(WireError::LabelTooLong);
        }
        if buffer.remaining() < 6 || buffer.remaining() - 6 < name.as_bytes().len() {
            return Err(WireError::EndOfBuffer);
        }
        let ghost s0 = buffer.bytes();
        let ghost c0 = buffer.cursor() as int;
        buffer.write_qname(name)?;
        buffer.write_u16(self.qtype.to_num())?;
        buffer.write_u16(1)?;
        proof {
            let w1 = name_wire(name_bytes(self.name@));
            lemma_splice_concat(s0, c0, w1, u16_wire(qtype_num(self.qtype)));
            lemma_wf_splice_len(s0, c0, w1 + u16_wire(qtype_num(self.qtype)));
            lemma_splice_concat(s0, c0, w1 + u16_wire(qtype_num(self.qtype)), u16_wire(1));
        }
        Ok(())
    }
}

/// A resource record: a common preamble (domain, TTL, class IN) and a payload
/// that depends on its type. Records of other types are kept as `UNKNOWN`
/// when read and dropped when written.
#[derive(Debug, Clone, PartialEq, Eq)]
#[allow(clippy::upper_case_acronyms)]
pub enum DnsRecord {
    UNKNOWN { domain: String, qtype: u16, data_len: u16, ttl: u32 },
    A { domain: String, addr: [u8; 4], ttl: u32 },
    NS { domain: String, host: String, ttl: u32 },
    CNAME { domain: String, host: String, ttl: u32 },
    MX { domain: String, priority: u16, host: String, ttl: u32 },
    AAAA { domain: String, addr: [u8; 16], ttl: u32 },
}

/// What a record holds.
#[allow(clippy::upper_case_acronyms)]
pub enum RecordView {
    UNKNOWN { domain: Seq<char>, qtype: u16, data_len: u16, ttl: u32 },
    A { domain: Seq<char>, addr: Seq<u8>, ttl: u32 },
    NS { domain: Seq<char>, host: Seq<char>, ttl: u32 },
    CNAME { domain: Seq<char>, host: Seq<char>, ttl: u32 },
    MX { domain: Seq<char>, priority: u16, host: Seq<char>, ttl: u32 },
    AAAA { domain: Seq<char>, addr: Seq<u8>, ttl: u32 },
}

impl View for DnsRecord {
    type V = RecordView;

    open spec fn view(&self) -> RecordView {
        match self {
            DnsRecord::UNKNOWN { domain, qtype, data_len, ttl } => RecordView::UNKNOWN {
                domain: domain@,
                qtype: *qtype,
                data_len: *data_len,
                ttl: *ttl,
            },
            DnsRecord::A { domain, addr, ttl } => RecordView::A {
                domain: domain@,
                addr: addr@,
                ttl: *ttl,
            },
            DnsRecord::NS { domain, host, ttl } => RecordView::NS {
                domain: domain@,
                host: host@,
                ttl: *ttl,
            },
            DnsRecord::CNAME { domain, host, ttl } => RecordView::CNAME {
                domain: domain@,
                host: host@,
                ttl: *ttl,
            },
            DnsRecord::MX { domain, priority, host, ttl } => RecordView::MX {
                domain: domain@,
                priority: *priority,
                host: host@,
                ttl: *ttl,
            },
            DnsRecord::AAAA { domain, addr, ttl } => RecordView::AAAA {
                domain: domain@,
                addr: addr@,
                ttl: *ttl,
            },
        }
    }
}

/// The common preamble: name, type, class IN, TTL.
pub open spec fn preamble_wire(domain: Seq<char>, t: u16, ttl: u32) -> Seq<u8> {
    name_wire(name_bytes(domain)) + u16_wire(t) + u16_wire(1) + u32_wire(ttl)
}

/// A payload prefixed by its length, cut to 16 bits.
pub open spec fn rdata_wire(d: Seq<u8>) -> Seq<u8> {
    u16_wire((d.len() % 65536) as u16) + d
}

/// Whether every name of the record can be written.
pub open spec fn record_valid(r: RecordView) -> bool {
    match r {
        RecordView::UNKNOWN { .. } => true,
        RecordView::A { domain, .. } => labels_fit(name_bytes(domain)),
        RecordView::AAAA { domain, .. } => labels_fit(name_bytes(domain)),
        RecordView::NS { domain, host, .. } => labels_fit(name_bytes(domain)) && labels_fit(
            name_bytes(host),
        ),
        RecordView::CNAME { domain, host, .. } => labels_fit(name_bytes(domain)) && labels_fit(
            name_bytes(host),
        ),
        RecordView::MX { domain, host, .. } => labels_fit(name_bytes(domain)) && labels_fit(
            name_bytes(host),
        ),
    }
}

/// The wire form of a record; an `UNKNOWN` one writes nothing.
pub open spec fn record_wire(r: RecordView) -> Seq<u8> {
    match r {
        RecordView::UNKNOWN { .. } => Seq::<u8>::empty(),
        RecordView::A { domain, addr, ttl } => preamble_wire(domain, 1, ttl) + rdata_wire(addr),
        RecordView::NS { domain, host, ttl } => preamble_wire(domain, 2, ttl) + rdata_wire(
            name_wire(name_bytes(host)),
        ),
        RecordView::CNAME { domain, host, ttl } => preamble_wire(domain, 5, ttl) + rdata_wire(
            name_wire(name_bytes(host)),
        ),
        RecordView::MX { domain, priority, host, ttl } => preamble_wire(domain, 15, ttl)
            + rdata_wire(u16_wire(priority) + name_wire(name_bytes(host))),
        RecordView::AAAA { domain, addr, ttl } => preamble_wire(domain, 28, ttl) + rdata_wire(
            addr,
        ),
    }
}

/// The payload of a record of type `t` at offset `p`, after its preamble.
/// A payload of a known type is read by its own structure (an address of
/// fixed size, or a possibly compressed name); the length field `len` is
/// compared with nothing there, and only says how much an `UNKNOWN` payload
/// skips.
pub open spec fn record_body_at(
    data: Seq<u8>,
    p: int,
    domain: Seq<char>,
    t: u16,
    ttl: u32,
    len: u16,
) -> Result<(RecordView, int), WireError> {
    match qtype_of(t) {
        QueryType::A => if p + 4 > data.len() {
            Err(WireError::EndOfBuffer)
        } else {
            Ok((RecordView::A { domain, addr: data.subrange(p, p + 4), ttl }, p + 4))
        },
        QueryType::AAAA => if p + 16 > data.len() {
            Err(WireError::EndOfBuffer)
        } else {
            Ok((RecordView::AAAA { domain, addr: data.subrange(p, p + 16), ttl }, p + 16))
        },
        QueryType::NS => match read_name(data, p) {
            Err(e) => Err(e),
            Ok((h, c)) => Ok((RecordView::NS { domain, host: text_of(h), ttl }, c)),
        },
        QueryType::CNAME => match read_name(data, p) {
            Err(e) => Err(e),
            Ok((h, c)) => Ok((RecordView::CNAME { domain, host: text_of(h), ttl }, c)),
        },
        QueryType::MX => if p + 2 > data.len() {
            Err(WireError::EndOfBuffer)
        } else {
            match read_name(data, p + 2) {
                Err(e) => Err(e),
                Ok((h, c)) => Ok(
                    (
                        RecordView::MX { domain, priority: u16_at(data, p), host: text_of(h), ttl },
                        c,
                    ),
                ),
            }
        },
        QueryType::UNKNOWN(_) => if p + len > data.len() {
            Err(WireError::EndOfBuffer)
        } else {
            Ok((RecordView::UNKNOWN { domain, qtype: t, data_len: len, ttl }, p + len))
        },
    }
}

/// The record at offset `p` and the offset after it.
pub open spec fn record_at(data: Seq<u8>, p: int) -> Result<(RecordView, int), WireError> {
    match read_name(data, p) {
        Err(e) => Err(e),
        Ok((n, c)) => if c + 10 > data.len() {
            Err(WireError::EndOfBuffer)
        } else {
            record_body_at(
                data,
                c + 10,
                text_of(n),
                u16_at(data, c),
                u32_at(data, c + 4),
                u16_at(data, c + 8),
            )
        },
    }
}

/// Writes a record preamble and a payload of fixed size.
fn write_fixed<B: ByteBuffer>(buffer: &mut B, domain: &str, t: u16, ttl: u32, data: &[u8]) -> (r:
    Result<(), WireError>)
    requires
        old(buffer).wf(),
        data@.len() < 65536,
    ensures
        final(buffer).wf(),
        !labels_fit(name_bytes(domain@)) ==> r == Err::<(), WireError>(WireError::LabelTooLong),
        r is Ok <==> labels_fit(name_bytes(domain@)) && old(buffer).cursor() + preamble_wire(
            domain@,
            t,
            ttl,
        ).len() + rdata_wire(data@).len() <= old(buffer).limit(),
        r is Ok ==> final(buffer).bytes() == splice(
            old(buffer).bytes(),
            old(buffer).cursor() as int,
            preamble_wire(domain@, t, ttl) + rdata_wire(data@),
        ) && final(buffer).limit() == old(buffer).limit() && final(buffer).cursor() == old(
            buffer).cursor() + preamble_wire(domain@, t, ttl).len() + rdata_wire(data@).len(),
        r is Err ==> *final(buffer) == *old(buffer),
{
    proof {
        buffer.lemma_wf();
        crate::buffer::lemma_name_wire_len(name_bytes(domain@));
    }
    if !check_labels(domain.as_bytes()) {
        return Err(WireError::LabelTooLong);
    }
    if buffer.remaining() < 12 || buffer.remaining() - 12 < domain.as_bytes().len()
        || buffer.remaining() - 12 - domain.as_bytes().len() < data.len() {
        return Err(WireError::EndOfBuffer);
    }
    let ghost s0 = buffer.bytes();
    let ghost c0 = buffer.cursor() as int;
    let ghost mut w: Seq<u8> = Seq::empty();
    proof {
        assert(splice(s0, c0, w) =~= s0);
    }
    put_name(buffer, domain, Ghost(s0), Ghost(c0), Ghost(w));
    proof {
        w = w + name_wire(name_bytes(domain@));
    }
    put_u16(buffer, t, Ghost(s0), Ghost(c0), Ghost(w));
    proof {
        w = w + u16_wire(t);
    }
    put_u16(buffer, 1, Ghost(s0), Ghost(c0), Ghost(w));
    proof {
        w = w + u16_wire(1);
    }
    put_u32(buffer, ttl, Ghost(s0), Ghost(c0), Ghost(w));
    proof {
        w = w + u32_wire(ttl);
        assert(w =~= preamble_wire(domain@, t, ttl));
    }
    put_u16(buffer, data.len() as u16, Ghost(s0), Ghost(c0), Ghost(w));
    proof {
        w = w + u16_wire(data.len() as u16);
    }
    put_all(buffer, data, Ghost(s0), Ghost(c0), Ghost(w));
    proof {
        w = w + data@;
        assert(w =~= preamble_wire(domain@, t, ttl) + rdata_wire(data@));
    }
    Ok(())
}

/// Writes a record preamble and a payload of `prefix` and then the name
/// `host`: a placeholder length first, patched in place once the payload is
/// written.
fn write_named<B: ByteBuffer>(
    buffer: &mut B,
    domain: &str,
    t: u16,
    ttl: u32,
    prefix: &[u8],
    host: &str,
) -> (r: Result<(), WireError>)
    requires
        old(buffer).wf(),
        prefix@.len() <= 2,
    ensures
        final(buffer).wf(),
        !(labels_fit(name_bytes(domain@)) && labels_fit(name_bytes(host@))) ==> r == Err::<
            (),
            WireError,
        >(WireError::LabelTooLong),
        r is Ok <==> labels_fit(name_bytes(domain@)) && labels_fit(name_bytes(host@)) && old(
            buffer).cursor() + preamble_wire(domain@, t, ttl).len() + rdata_wire(
            prefix@ + name_wire(name_bytes(host@)),
        ).len() <= old(buffer).limit(),
        r is Ok ==> final(buffer).bytes() == splice(
            old(buffer).bytes(),
            old(buffer).cursor() as int,
            preamble_wire(domain@, t, ttl) + rdata_wire(prefix@ + name_wire(name_bytes(host@))),
        ) && final(buffer).limit() == old(buffer).limit() && final(buffer).cursor() == old(
            buffer).cursor() + preamble_wire(domain@, t, ttl).len() + rdata_wire(
            prefix@ + name_wire(name_bytes(host@)),
        ).len(),
        r is Err ==> *final(buffer) == *old(buffer),
{
    proof {
        buffer.lemma_wf();
        crate::buffer::lemma_name_wire_len(name_bytes(domain@));
        crate::buffer::lemma_name_wire_len(name_bytes(host@));
    }
    if !check_labels(domain.as_bytes()) || !check_labels(host.as_bytes()) {
        return Err(WireError::LabelTooLong);
    }
    let room = buffer.remaining();
    let dlen = domain.as_bytes().len();
    let hlen = host.as_bytes().len();
    proof {
        assert(preamble_wire(domain@, t, ttl).len() == dlen + 10);
        assert(rdata_wire(prefix@ + name_wire(name_bytes(host@))).len() == prefix@.len() + hlen
            + 4);
    }
    if room < 14 || room - 14 < dlen || room - 14 - dlen < hlen || room - 14 - dlen - hlen
        < prefix.len() {
        return Err(WireError::EndOfBuffer);
    }
    let ghost s0 = buffer.bytes();
    let ghost c0 = buffer.cursor() as int;
    let ghost mut w: Seq<u8> = Seq::empty();
    proof {
        assert(splice(s0, c0, w) =~= s0);
    }
    put_name(buffer, domain, Ghost(s0), Ghost(c0), Ghost(w));
    proof {
        w = w + name_wire(name_bytes(domain@));
    }
    put_u16(buffer, t, Ghost(s0), Ghost(c0), Ghost(w));
    proof {
        w = w + u16_wire(t);
    }
    put_u16(buffer, 1, Ghost(s0), Ghost(c0), Ghost(w));
    proof {
        w = w + u16_wire(1);
    }
    put_u32(buffer, ttl, Ghost(s0), Ghost(c0), Ghost(w));
    proof {
        w = w + u32_wire(ttl);
        assert(w =~= preamble_wire(domain@, t, ttl));
    }
    let ghost pre = w;
    // Placeholder for the payload length.
    let pos = buffer.head();
    put_u16(buffer, 0, Ghost(s0), Ghost(c0), Ghost(w));
    proof {
        w = w + u16_wire(0);
    }
    put_all(buffer, prefix, Ghost(s0), Ghost(c0), Ghost(w));
    proof {
        w = w + prefix@;
    }
    put_name(buffer, host, Ghost(s0), Ghost(c0), Ghost(w));
    proof {
        w = w + name_wire(name_bytes(host@));
        crate::buffer::lemma_wf_splice_len(s0, c0, w);
    }
    let ghost d = prefix@ + name_wire(name_bytes(host@));
    let size = buffer.head() - (pos + 2);
    assert(size == d.len());
    let _ = buffer.set_u16(pos, (size % 65536) as u16);
    proof {
        assert(w =~= pre + u16_wire(0) + d);
        crate::buffer::lemma_splice_patch(s0, c0, pre, u16_wire(0), d, u16_wire((size % 65536) as u16));
        assert(pre + u16_wire((size % 65536) as u16) + d =~= preamble_wire(domain@, t, ttl)
            + rdata_wire(d));
    }
    Ok(())
}

impl DnsRecord {
    /// Reads the record at the cursor. The payload of an `UNKNOWN` record is
    /// skipped.
    pub fn read<B: ByteBuffer>(buffer: &mut B) -> (r: Result<DnsRecord, WireError>)
        requires
            old(buffer).wf(),
        ensures
            final(buffer).wf(),
            final(buffer).bytes() == old(buffer).bytes(),
            final(buffer).limit() == old(buffer).limit(),
            match record_at(old(buffer).bytes(), old(buffer).cursor() as int) {
                Ok((rv, c)) => r is Ok && r->Ok_0@ == rv && final(buffer).cursor() == c,
                Err(e) => r == Err::<DnsRecord, WireError>(e),
            },
    {
        proof {
            buffer.lemma_wf();
        }
        let ghost data = buffer.bytes();
        let mut domain = String::new();
        buffer.read_qname(&mut domain)?;
        proof {
            assert(domain@ =~= Seq::<char>::empty() + domain@);
            buffer.lemma_wf();
        }
        if buffer.size() - buffer.head() < 10 {
            return Err(WireError::EndOfBuffer);
        }
        let qtype = buffer.read_u16()?;
        let _ = buffer.read_u16()?;
        let ttl = buffer.read_u32()?;
        let data_len = buffer.read_u16()?;
        match QueryType::from_num(qtype) {
            QueryType::A => {
                proof {
                    buffer.lemma_wf();
                }
                if buffer.size() - buffer.head() < 4 {
                    return Err(WireError::EndOfBuffer);
                }
                let ghost p = buffer.cursor() as int;
                let a0 = buffer.read()?;
                let a1 = buffer.read()?;
                let a2 = buffer.read()?;
                let a3 = buffer.read()?;
                let addr = [a0, a1, a2, a3];
                assert(addr@ =~= data.subrange(p, p + 4));
                Ok(DnsRecord::A { domain, addr, ttl })
            },
            QueryType::AAAA => {
                proof {
                    buffer.lemma_wf();
                }
                if buffer.size() - buffer.head() < 16 {
                    return Err(WireError::EndOfBuffer);
                }
                let ghost p = buffer.cursor() as int;
                let mut addr = [0u8; 16];
                let mut i: usize = 0;
                while i < 16
                    invariant
                        buffer.wf(),
                        buffer.bytes() == data,
                        buffer.limit() == old(buffer).limit(),
                        i <= 16,
                        p + 16 <= data.len(),
                        buffer.cursor() == p + i,
                        addr@.len() == 16,
                        forall|k: int| 0 <= k < i ==> addr@[k] == data[p + k],
                    decreases 16 - i,
                {
                    let b = buffer.read()?;
                    addr[i] = b;
                    i = i + 1;
                }
                assert(addr@ =~= data.subrange(p, p + 16));
                Ok(DnsRecord::AAAA { domain, addr, ttl })
            },
            QueryType::NS => {
                let mut host = String::new();
                buffer.read_qname(&mut host)?;
                proof {
                    assert(host@ =~= Seq::<char>::empty() + host@);
                }
                Ok(DnsRecord::NS { domain, host, ttl })
            },
            QueryType::CNAME => {
                let mut host = String::new();
                buffer.read_qname(&mut host)?;
                proof {
                    assert(host@ =~= Seq::<char>::empty() + host@);
                }
                Ok(DnsRecord::CNAME { domain, host, ttl })
            },
            QueryType::MX => {
                let priority = buffer.read_u16()?;
                let mut host = String::new();
                buffer.read_qname(&mut host)?;
                proof {
                    assert(host@ =~= Seq::<char>::empty() + host@);
                }
                Ok(DnsRecord::MX { domain, priority, host, ttl })
            },
            QueryType::UNKNOWN(_) => {
                buffer.step(data_len as usize)?;
                Ok(DnsRecord::UNKNOWN { domain, qtype, data_len, ttl })
            },
        }
    }

    /// Writes the record at the cursor and gives the number of bytes written;
    /// an `UNKNOWN` record is dropped and writes nothing. Fails, writing
    /// nothing, when a name has a label longer than 63 bytes or the record
    /// does not fit.
    pub fn write<B: ByteBuffer>(&self, buffer: &mut B) -> (r: Result<usize, WireError>)
        requires
            old(buffer).wf(),
        ensures
            final(buffer).wf(),
            !record_valid(self@) ==> r == Err::<usize, WireError>(WireError::LabelTooLong),
            r is Ok <==> record_valid(self@) && old(buffer).cursor() + record_wire(self@).len()
                <= old(buffer).limit(),
            r is Ok ==> final(buffer).bytes() == splice(
                old(buffer).bytes(),
                old(buffer).cursor() as int,
                record_wire(self@),
            ) && final(buffer).limit() == old(buffer).limit() && final(buffer).cursor() == old(
                buffer).cursor() + record_wire(self@).len() && r->Ok_0 == record_wire(self@).len(),
            r is Err ==> *final(buffer) == *old(buffer),
    {
        proof {
            buffer.lemma_wf();
        }
        let start = buffer.head();
        match self {
            DnsRecord::UNKNOWN { .. } => {
                proof {
                    assert(splice(old(buffer).bytes(), start as int, Seq::<u8>::empty())
                        =~= old(buffer).bytes());
                }
                return Ok(0);
            },
            DnsRecord::A { domain, addr, ttl } => {
                write_fixed(buffer, domain.as_str(), 1, *ttl, addr.as_slice())?;
            },
            DnsRecord::AAAA { domain, addr, ttl } => {
                write_fixed(buffer, domain.as_str(), 28, *ttl, addr.as_slice())?;
            },
            DnsRecord::NS { domain, host, ttl } => {
                write_named(buffer, domain.as_str(), 2, *ttl, &[], host.as_str())?;
                proof {
                    assert(Seq::<u8>::empty() + name_wire(name_bytes(host@)) =~= name_wire(
                        name_bytes(host@),
                    ));
                }
            },
            DnsRecord::CNAME { domain, host, ttl } => {
                write_named(buffer, domain.as_str(), 5, *ttl, &[], host.as_str())?;
                proof {
                    assert(Seq::<u8>::empty() + name_wire(name_bytes(host@)) =~= name_wire(
                        name_bytes(host@),
                    ));
                }
            },
            DnsRecord::MX { domain, priority, host, ttl } => {
                let p = [(*priority / 256) as u8, (*priority % 256) as u8];
                assert(p@ =~= u16_wire(*priority));
                write_named(buffer, domain.as_str(), 15, *ttl, p.as_slice(), host.as_str())?;
            },
        }
        Ok(buffer.head() - start)
    }
}

/// A DNS message: header and four ordered sections.
#[derive(Clone, Debug)]
pub struct DnsPacket {
    pub header: DnsHeader,
    pub questions: Vec<DnsQuestion>,
    pub answers: Vec<DnsRecord>,
    pub authorities: Vec<DnsRecord>,
    pub resources: Vec<DnsRecord>,
}

/// What a packet holds.
pub struct PacketView {
    pub header: DnsHeader,
    pub questions: Seq<QuestionView>,
    pub answers: Seq<RecordView>,
    pub authorities: Seq<RecordView>,
    pub resources: Seq<RecordView>,
}

pub open spec fn questions_view(v: Seq<DnsQuestion>) -> Seq<QuestionView> {
    v.map_values(|q: DnsQuestion| q@)
}

pub open spec fn records_view(v: Seq<DnsRecord>) -> Seq<RecordView> {
    v.map_values(|r: DnsRecord| r@)
}

impl View for DnsPacket {
    type V = PacketView;

    open spec fn view(&self) -> PacketView {
        PacketView {
            header: self.header,
            questions: questions_view(self.questions@),
            answers: records_view(self.answers@),
            authorities: records_view(self.authorities@),
            resources: records_view(self.resources@),
        }
    }
}

/// `n` questions from offset `p` on, after those in `acc`.
pub open spec fn questions_from(data: Seq<u8>, p: int, n: nat, acc: Seq<QuestionView>) -> Result<
    (Seq<QuestionView>, int),
    WireError,
>
    decreases n,
{
    if n == 0 {
        Ok((acc, p))
    } else {
        match question_at(data, p) {
            Err(e) => Err(e),
            Ok((q, c)) => questions_from(data, c, (n - 1) as nat, acc.push(q)),
        }
    }
}

/// `n` records from offset `p` on, after those in `acc`.
pub open spec fn records_from(data: Seq<u8>, p: int, n: nat, acc: Seq<RecordView>) -> Result<
    (Seq<RecordView>, int),
    WireError,
>
    decreases n,
{
    if n == 0 {
        Ok((acc, p))
    } else {
        match record_at(data, p) {
            Err(e) => Err(e),
            Ok((r, c)) => records_from(data, c, (n - 1) as nat, acc.push(r)),
        }
    }
}

/// The packet at offset `p`: its header, then as many entries in each section
/// as the header counts.
pub open spec fn packet_at(data: Seq<u8>, p: int) -> Result<PacketView, WireError> {
    if p + 12 > data.len() {
        Err(WireError::EndOfBuffer)
    } else {
        let h = header_at(data, p);
        match questions_from(data, p + 12, h.questions as nat, Seq::empty()) {
            Err(e) => Err(e),
            Ok((qs, c1)) => match records_from(data, c1, h.answers as nat, Seq::empty()) {
                Err(e) => Err(e),
                Ok((an, c2)) => match records_from(
                    data,
                    c2,
                    h.authoritative_entries as nat,
                    Seq::empty(),
                ) {
                    Err(e) => Err(e),
                    Ok((ns, c3)) => match records_from(
                        data,
                        c3,
                        h.resource_entries as nat,
                        Seq::empty(),
                    ) {
                        Err(e) => Err(e),
                        Ok((ar, c4)) => Ok(
                            PacketView {
                                header: h,
                                questions: qs,
                                answers: an,
                                authorities: ns,
                                resources: ar,
                            },
                        ),
                    },
                },
            },
        }
    }
}

/// Reads `n` records at the cursor.
fn read_records<B: ByteBuffer>(buffer: &mut B, n: u16) -> (r: Result<Vec<DnsRecord>, WireError>)
    requires
        old(buffer).wf(),
    ensures
        final(buffer).wf(),
        final(buffer).bytes() == old(buffer).bytes(),
        final(buffer).limit() == old(buffer).limit(),
        match records_from(old(buffer).bytes(), old(buffer).cursor() as int, n as nat, Seq::empty()) {
            Ok((rs, c)) => r is Ok && records_view(r->Ok_0@) == rs && final(buffer).cursor() == c,
            Err(e) => r == Err::<Vec<DnsRecord>, WireError>(e),
        },
{
    let ghost data = buffer.bytes();
    let ghost start = buffer.cursor() as int;
    let mut out: Vec<DnsRecord> = Vec::new();
    let mut i: u16 = 0;
    proof {
        assert(records_view(out@) =~= Seq::<RecordView>::empty());
    }
    while i < n
        invariant
            buffer.wf(),
            buffer.bytes() == data,
            data == old(buffer).bytes(),
            start == old(buffer).cursor(),
            buffer.limit() == old(buffer).limit(),
            i <= n,
            records_from(data, buffer.cursor() as int, (n - i) as nat, records_view(out@))
                == records_from(data, start, n as nat, Seq::empty()),
        decreases n - i,
    {
        let ghost before = records_view(out@);
        let rec = DnsRecord::read(buffer)?;
        out.push(rec);
        proof {
            assert(records_view(out@) =~= before.push(rec@));
        }
        i = i + 1;
    }
    Ok(out)
}

impl DnsPacket {
    /// An empty packet with a zeroed header.
    pub fn new() -> (r: DnsPacket)
        ensures
            r.header == empty_header(),
            r.questions@.len() == 0,
            r.answers@.len() == 0,
            r.authorities@.len() == 0,
            r.resources@.len() == 0,
    {
        DnsPacket {
            header: DnsHeader::new(),
            questions: Vec::new(),
            answers: Vec::new(),
            authorities: Vec::new(),
            resources: Vec::new(),
        }
    }

    /// Reads a packet at the cursor: the header, then exactly as many
    /// questions, answers, authorities and additional records as it counts.
    pub fn from_buffer<B: ByteBuffer>(buffer: &mut B) -> (r: Result<DnsPacket, WireError>)
        requires
            old(buffer).wf(),
        ensures
            final(buffer).wf(),
            match packet_at(old(buffer).bytes(), old(buffer).cursor() as int) {
                Ok(p) => r is Ok && r->Ok_0@ == p,
                Err(e) => r == Err::<DnsPacket, WireError>(e),
            },
    {
        let ghost data = buffer.bytes();
        let ghost start = buffer.cursor() as int;
        let mut result = DnsPacket::new();
        result.header.read(buffer)?;
        let nq = result.header.questions;
        let mut i: u16 = 0;
        proof {
            assert(questions_view(result.questions@) =~= Seq::<QuestionView>::empty());
        }
        while i < nq
            invariant
                buffer.wf(),
                buffer.bytes() == data,
                data == old(buffer).bytes(),
                start == old(buffer).cursor(),
                i <= nq,
                start + 12 <= data.len(),
                result.header == header_at(data, start),
                nq == result.header.questions,
                questions_from(
                    data,
                    buffer.cursor() as int,
                    (nq - i) as nat,
                    questions_view(result.questions@),
                ) == questions_from(data, start + 12, nq as nat, Seq::empty()),
            decreases nq - i,
        {
            let ghost before = questions_view(result.questions@);
            let mut question = DnsQuestion::new(String::new(), QueryType::UNKNOWN(0));
            question.read(buffer)?;
            proof {
                assert(question@.name =~= Seq::<char>::empty() + question@.name);
            }
            result.questions.push(question);
            proof {
                assert(questions_view(result.questions@) =~= before.push(question@));
            }
            i = i + 1;
        }
        result.answers = read_records(buffer, result.header.answers)?;
        result.authorities = read_records(buffer, result.header.authoritative_entries)?;
        result.resources = read_records(buffer, result.header.resource_entries)?;
        Ok(result)
    }
}

/// The questions' wire forms, one after another.
pub open spec fn questions_wire(qs: Seq<QuestionView>) -> Seq<u8>
    decreases qs.len(),
{
    if qs.len() == 0 {
        Seq::<u8>::empty()
    } else {
        questions_wire(qs.drop_last()) + question_wire(qs.last())
    }
}

/// Every question's name can be written.
pub open spec fn questions_valid(qs: Seq<QuestionView>) -> bool {
    forall|i: int| 0 <= i < qs.len() ==> labels_fit(name_bytes(#[trigger] qs[i].name))
}

/// The first `k` records' wire forms, one after another.
pub open spec fn body_wire(rs: Seq<RecordView>, k: int) -> Seq<u8>
    decreases k,
{
    if k <= 0 {
        Seq::<u8>::empty()
    } else {
        body_wire(rs, k - 1) + record_wire(rs[k - 1])
    }
}

/// How many of the records `rs[lo..hi]` are not `UNKNOWN`.
pub open spec fn known_count(rs: Seq<RecordView>, hi: int) -> nat
    decreases hi,
{
    if hi <= 0 {
        0
    } else {
        known_count(rs, hi - 1) + (if rs[hi - 1] is UNKNOWN {
            0nat
        } else {
            1nat
        })
    }
}

/// Where writing `rs` from index `i` on, with `room` bytes left, stops: at the
/// first record that cannot be written or does not fit, or at the end.
pub open spec fn fit_count(rs: Seq<RecordView>, i: int, room: int) -> int
    decreases rs.len() - i,
{
    if i < 0 || i >= rs.len() {
        rs.len() as int
    } else if !record_valid(rs[i]) || record_wire(rs[i]).len() > room {
        i
    } else {
        fit_count(rs, i + 1, room - record_wire(rs[i]).len())
    }
}

/// How many answers, authorities and additionals are written when `room`
/// bytes are left after the header and the questions: each section in turn,
/// stopping at the first record that cannot be written.
#[verifier::opaque]
pub open spec fn sections_written(p: PacketView, room: int) -> (int, int, int) {
    let ka = fit_count(p.answers, 0, room);
    let room2 = room - body_wire(p.answers, ka).len();
    let kn = if ka < p.answers.len() {
        0
    } else {
        fit_count(p.authorities, 0, room2)
    };
    let room3 = room2 - body_wire(p.authorities, kn).len();
    let kr = if ka < p.answers.len() || kn < p.authorities.len() {
        0
    } else {
        fit_count(p.resources, 0, room3)
    };
    (ka, kn, kr)
}

/// The room left for records when a packet is written with `room` bytes.
pub open spec fn record_room(p: PacketView, room: int) -> int {
    room - 12 - questions_wire(p.questions).len()
}

/// The header written with a packet given `room` bytes: the question count,
/// the count of each section's records actually written, and TC set when a
/// record was left out.
#[verifier::opaque]
pub open spec fn written_header(p: PacketView, room: int) -> DnsHeader {
    let (ka, kn, kr) = sections_written(p, record_room(p, room));
    DnsHeader {
        questions: p.questions.len() as u16,
        answers: known_count(p.answers, ka) as u16,
        authoritative_entries: known_count(p.authorities, kn) as u16,
        resource_entries: known_count(p.resources, kr) as u16,
        truncated_message: p.header.truncated_message || ka < p.answers.len() || kn
            < p.authorities.len() || kr < p.resources.len(),
        ..p.header
    }
}

/// The bytes a packet is written as given `room` bytes.
#[verifier::opaque]
pub open spec fn packet_wire(p: PacketView, room: int) -> Seq<u8> {
    let (ka, kn, kr) = sections_written(p, record_room(p, room));
    header_wire(written_header(p, room)) + questions_wire(p.questions) + body_wire(p.answers, ka)
        + body_wire(p.authorities, kn) + body_wire(p.resources, kr)
}

/// Every section's length can be carried by a 16-bit count.
pub open spec fn counts_fit(p: PacketView) -> bool {
    p.questions.len() <= 65535 && p.answers.len() <= 65535 && p.authorities.len() <= 65535
        && p.resources.len() <= 65535
}

/// Writes `recs` in order after `w` until one fails, and gives how many were
/// passed and how many of those were written rather than dropped.
fn write_records<B: ByteBuffer>(
    buffer: &mut B,
    recs: &Vec<DnsRecord>,
    Ghost(s0): Ghost<Seq<u8>>,
    Ghost(c0): Ghost<int>,
    Ghost(w): Ghost<Seq<u8>>,
) -> (r: (usize, u16))
    requires
        old(buffer).wf(),
        0 <= c0 <= s0.len(),
        old(buffer).bytes() == splice(s0, c0, w),
        old(buffer).cursor() == c0 + w.len(),
        recs@.len() <= 65535,
    ensures
        final(buffer).wf(),
        final(buffer).limit() == old(buffer).limit(),
        r.0 == fit_count(records_view(recs@), 0, old(buffer).limit() - old(buffer).cursor()),
        r.0 <= recs@.len(),
        r.1 == known_count(records_view(recs@), r.0 as int),
        final(buffer).bytes() == splice(s0, c0, w + body_wire(records_view(recs@), r.0 as int)),
        final(buffer).cursor() == c0 + w.len() + body_wire(records_view(recs@), r.0 as int).len(),
{
    let ghost rs = records_view(recs@);
    let ghost room0 = buffer.limit() - buffer.cursor();
    let mut i: usize = 0;
    let mut count: u16 = 0;
    proof {
        assert(w + body_wire(rs, 0) =~= w);
    }
    while i < recs.len()
        invariant
            buffer.wf(),
            0 <= c0 <= s0.len(),
            rs == records_view(recs@),
            recs@.len() <= 65535,
            i <= recs@.len(),
            count == known_count(rs, i as int),
            count <= i,
            buffer.limit() == old(buffer).limit(),
            room0 == old(buffer).limit() - old(buffer).cursor(),
            buffer.bytes() == splice(s0, c0, w + body_wire(rs, i as int)),
            buffer.cursor() == c0 + w.len() + body_wire(rs, i as int).len(),
            fit_count(rs, i as int, buffer.limit() - buffer.cursor()) == fit_count(rs, 0, room0),
        ensures
            i == fit_count(rs, 0, room0),
            i <= recs@.len(),
            buffer.wf(),
            count == known_count(rs, i as int),
            buffer.limit() == old(buffer).limit(),
            buffer.bytes() == splice(s0, c0, w + body_wire(rs, i as int)),
            buffer.cursor() == c0 + w.len() + body_wire(rs, i as int).len(),
        decreases recs@.len() - i,
    {
        proof {
            buffer.lemma_wf();
        }
        match recs[i].write(buffer) {
            Ok(_) => {
                proof {
                    lemma_splice_concat(s0, c0, w + body_wire(rs, i as int), record_wire(rs[i as int]));
                    assert(w + body_wire(rs, i as int) + record_wire(rs[i as int]) =~= w + body_wire(rs, i + 1));
                }
                if !matches!(recs[i], DnsRecord::UNKNOWN { .. }) {
                    count = count + 1;
                }
                i = i + 1;
            },
            Err(_) => {
                proof {
                    assert(rs[i as int] == recs@[i as int]@);
                    assert(fit_count(rs, i as int, buffer.limit() - buffer.cursor()) == i);
                }
                break;
            },
        }
    }
    (i, count)
}

/// Writes `qs` in order after `w`, where they are known to fit.
fn write_questions<B: ByteBuffer>(
    buffer: &mut B,
    qs: &Vec<DnsQuestion>,
    Ghost(s0): Ghost<Seq<u8>>,
    Ghost(c0): Ghost<int>,
    Ghost(w): Ghost<Seq<u8>>,
)
    requires
        old(buffer).wf(),
        0 <= c0 <= s0.len(),
        old(buffer).bytes() == splice(s0, c0, w),
        old(buffer).cursor() == c0 + w.len(),
        questions_valid(questions_view(qs@)),
        old(buffer).cursor() + questions_wire(questions_view(qs@)).len() <= old(buffer).limit(),
    ensures
        final(buffer).wf(),
        final(buffer).limit() == old(buffer).limit(),
        final(buffer).bytes() == splice(s0, c0, w + questions_wire(questions_view(qs@))),
        final(buffer).cursor() == c0 + w.len() + questions_wire(questions_view(qs@)).len(),
{
    let ghost qv = questions_view(qs@);
    let mut i: usize = 0;
    proof {
        assert(w + questions_wire(qv.take(0)) =~= w);
        lemma_questions_wire_prefix_len(qv, 0, qv.len() as int);
    }
    while i < qs.len()
        invariant
            buffer.wf(),
            0 <= c0 <= s0.len(),
            qv == questions_view(qs@),
            questions_valid(qv),
            i <= qs@.len(),
            buffer.limit() == old(buffer).limit(),
            c0 + w.len() + questions_wire(qv).len() <= buffer.limit(),
            buffer.bytes() == splice(s0, c0, w + questions_wire(qv.take(i as int))),
            buffer.cursor() == c0 + w.len() + questions_wire(qv.take(i as int)).len(),
        decreases qs@.len() - i,
    {
        proof {
            assert(qv.take(i + 1).drop_last() =~= qv.take(i as int));
            assert(qv.take(i + 1).last() == qv[i as int]);
            assert(questions_wire(qv.take(i + 1)) == questions_wire(qv.take(i as int)) + question_wire(qv[i as int]));
            lemma_questions_wire_prefix_len(qv, i + 1, qv.len() as int);
            assert(qv.take(qv.len() as int) =~= qv);
            assert(labels_fit(name_bytes(qv[i as int].name)));
            assert(qs@[i as int]@ == qv[i as int]);
        }
        let _ = qs[i].write(buffer);
        proof {
            lemma_splice_concat(s0, c0, w + questions_wire(qv.take(i as int)), question_wire(qv[i as int]));
            assert(w + questions_wire(qv.take(i as int)) + question_wire(qv[i as int]) =~= w
                + questions_wire(qv.take(i + 1)));
        }
        i = i + 1;
    }
    proof {
        assert(qv.take(i as int) =~= qv);
    }
}

/// A prefix of the questions writes no more than all of them.
pub proof fn lemma_questions_wire_prefix_len(qs: Seq<QuestionView>, i: int, j: int)
    requires
        0 <= i <= j <= qs.len(),
    ensures
        questions_wire(qs.take(i)).len() <= questions_wire(qs.take(j)).len(),
    decreases j - i,
{
    if i < j {
        assert(qs.take(j).drop_last() =~= qs.take(j - 1));
        lemma_questions_wire_prefix_len(qs, i, j - 1);
    }
}

/// The length of the questions' wire forms; fails when a name cannot be
/// written or the length does not fit in a `usize`.
fn questions_len(qs: &Vec<DnsQuestion>) -> (r: Result<usize, WireError>)
    ensures
        !questions_valid(questions_view(qs@)) <==> r == Err::<usize, WireError>(
            WireError::LabelTooLong,
        ),
        r is Ok ==> r->Ok_0 == questions_wire(questions_view(qs@)).len(),
        r is Err ==> r->Err_0 == WireError::LabelTooLong || questions_wire(
            questions_view(qs@),
        ).len() > usize::MAX,
{
    let ghost qv = questions_view(qs@);
    let mut qlen: usize = 0;
    let mut overflow = false;
    let mut i: usize = 0;
    while i < qs.len()
        invariant
            qv == questions_view(qs@),
            i <= qv.len(),
            forall|j: int| 0 <= j < i ==> labels_fit(name_bytes(#[trigger] qv[j].name)),
            !overflow ==> qlen == questions_wire(qv.take(i as int)).len(),
            overflow ==> questions_wire(qv.take(i as int)).len() > usize::MAX,
        decreases qv.len() - i,
    {
        let name = qs[i].name.as_str();
        proof {
            assert(qv[i as int] == qs@[i as int]@);
            crate::buffer::lemma_name_wire_len(name_bytes(qv[i as int].name));
            assert(qv.take(i + 1).drop_last() =~= qv.take(i as int));
            assert(qv.take(i + 1).last() == qv[i as int]);
        }
        if !check_labels(name.as_bytes()) {
            return Err(WireError::LabelTooLong);
        }
        let n = name.as_bytes().len();
        if !overflow {
            if qlen > usize::MAX - 6 || usize::MAX - 6 - qlen < n {
                overflow = true;
            } else {
                qlen = qlen + n + 6;
            }
        }
        i = i + 1;
    }
    proof {
        assert(qv.take(qv.len() as int) =~= qv);
    }
    if overflow {
        return Err(WireError::EndOfBuffer);
    }
    Ok(qlen)
}

/// Writes a header and questions that fit.
fn write_head<B: ByteBuffer>(buffer: &mut B, header: &DnsHeader, qs: &Vec<DnsQuestion>)
    requires
        old(buffer).wf(),
        questions_valid(questions_view(qs@)),
        old(buffer).cursor() + 12 + questions_wire(questions_view(qs@)).len() <= old(buffer).limit(),
    ensures
        final(buffer).wf(),
        final(buffer).limit() == old(buffer).limit(),
        final(buffer).bytes() == splice(
            old(buffer).bytes(),
            old(buffer).cursor() as int,
            header_wire(*header) + questions_wire(questions_view(qs@)),
        ),
        final(buffer).cursor() == old(buffer).cursor() + 12 + questions_wire(
            questions_view(qs@),
        ).len(),
{
    proof {
        buffer.lemma_wf();
        lemma_header_wire_len(*header);
    }
    let ghost s0 = buffer.bytes();
    let ghost c0 = buffer.cursor() as int;
    let _ = header.write(buffer);
    write_questions(buffer, qs, Ghost(s0), Ghost(c0), Ghost(header_wire(*header)));
}

/// Writes a packet whose counts fit, whose questions can be written, and
/// whose header and questions fit in the buffer.
#[verifier::spinoff_prover]
#[verifier::rlimit(100)]
fn write_checked<B: ByteBuffer>(p: &DnsPacket, buffer: &mut B, Ghost(qlen): Ghost<int>) -> (r: DnsHeader)
    requires
        old(buffer).wf(),
        counts_fit(p@),
        questions_valid(p@.questions),
        qlen == questions_wire(p@.questions).len(),
        old(buffer).cursor() + 12 + qlen <= old(buffer).limit(),
    ensures
        final(buffer).wf(),
        r == written_header(p@, old(buffer).limit() - old(buffer).cursor()),
        final(buffer).bytes() == splice(
            old(buffer).bytes(),
            old(buffer).cursor() as int,
            packet_wire(p@, old(buffer).limit() - old(buffer).cursor()),
        ),
        final(buffer).cursor() == old(buffer).cursor() + packet_wire(
            p@,
            old(buffer).limit() - old(buffer).cursor(),
        ).len(),
        final(buffer).limit() == old(buffer).limit(),
{
    proof {
        buffer.lemma_wf();
    }
    let ghost p0 = p@;
    let ghost qv = p0.questions;
    let ghost s0 = buffer.bytes();
    let ghost c0 = buffer.cursor() as int;
    let ghost room = buffer.limit() - buffer.cursor();
    let start = buffer.head();
    let mut header = p.header;
    header.questions = p.questions.len() as u16;
    write_head(buffer, &header, &p.questions);
    let ghost hw0 = header_wire(header);
    let ghost w1 = hw0 + questions_wire(qv);
    let (ka, ca, kn, cn, kr, cr) = write_sections(buffer, p, Ghost(s0), Ghost(c0), Ghost(w1));
    let ghost w4 = w1 + body_wire(p0.answers, ka as int) + body_wire(p0.authorities, kn as int)
        + body_wire(p0.resources, kr as int);
    header.answers = ca;
    header.authoritative_entries = cn;
    header.resource_entries = cr;
    if ka < p.answers.len() || kn < p.authorities.len() || kr < p.resources.len() {
        header.truncated_message = true;
    }
    proof {
        lemma_written_packet(p0, room, qlen, header, ka as int, ca, kn as int, cn, kr as int, cr);
        lemma_header_wire_len(p.header);
        assert(w4.subrange(0, 12) =~= hw0);
        assert(header_wire(header) + w4.subrange(12, w4.len() as int) == packet_wire(p0, room))
            by {
            reveal(packet_wire);
            reveal(written_header);
            assert(header_wire(header) + w4.subrange(12, w4.len() as int) =~= packet_wire(
                p0,
                room,
            ));
        }
    }
    // Write the header again, with the counts of what was written.
    rewrite_header(buffer, &header, start, Ghost(s0), Ghost(hw0), Ghost(w4));
    header
}

/// Writes the answers, authorities and additionals of `p` after `w`, each
/// section in turn until a record cannot be written, and gives for each
/// section how many records were passed and how many were written.
#[verifier::spinoff_prover]
fn write_sections<B: ByteBuffer>(
    buffer: &mut B,
    p: &DnsPacket,
    Ghost(s0): Ghost<Seq<u8>>,
    Ghost(c0): Ghost<int>,
    Ghost(w): Ghost<Seq<u8>>,
) -> (r: (usize, u16, usize, u16, usize, u16))
    requires
        old(buffer).wf(),
        0 <= c0 <= s0.len(),
        old(buffer).bytes() == splice(s0, c0, w),
        old(buffer).cursor() == c0 + w.len(),
        counts_fit(p@),
    ensures
        final(buffer).wf(),
        final(buffer).limit() == old(buffer).limit(),
        r.0 as int == sections_written(p@, old(buffer).limit() - old(buffer).cursor()).0,
        r.2 as int == sections_written(p@, old(buffer).limit() - old(buffer).cursor()).1,
        r.4 as int == sections_written(p@, old(buffer).limit() - old(buffer).cursor()).2,
        r.1 == known_count(p@.answers, r.0 as int),
        r.3 == known_count(p@.authorities, r.2 as int),
        r.5 == known_count(p@.resources, r.4 as int),
        final(buffer).bytes() == splice(
            s0,
            c0,
            w + body_wire(p@.answers, r.0 as int) + body_wire(p@.authorities, r.2 as int)
                + body_wire(p@.resources, r.4 as int),
        ),
        final(buffer).cursor() == c0 + (w + body_wire(p@.answers, r.0 as int) + body_wire(
            p@.authorities,
            r.2 as int,
        ) + body_wire(p@.resources, r.4 as int)).len(),
{
    let (ka, ca) = write_records(buffer, &p.answers, Ghost(s0), Ghost(c0), Ghost(w));
    let ghost w2 = w + body_wire(p@.answers, ka as int);
    let (kn, cn) = if ka == p.answers.len() {
        write_records(buffer, &p.authorities, Ghost(s0), Ghost(c0), Ghost(w2))
    } else {
        (0, 0)
    };
    proof {
        assert(w2 + body_wire(p@.authorities, 0) =~= w2);
    }
    let ghost w3 = w2 + body_wire(p@.authorities, kn as int);
    let (kr, cr) = if ka == p.answers.len() && kn == p.authorities.len() {
        write_records(buffer, &p.resources, Ghost(s0), Ghost(c0), Ghost(w3))
    } else {
        (0, 0)
    };
    proof {
        reveal(sections_written);
        assert(w3 + body_wire(p@.resources, 0) =~= w3);
        let room = old(buffer).limit() - old(buffer).cursor();
        assert(p@.answers.len() == p.answers@.len());
        assert(p@.authorities.len() == p.authorities@.len());
        let ka2 = fit_count(p@.answers, 0, room);
        let room2 = room - body_wire(p@.answers, ka2).len();
        assert(ka == ka2);
        if ka == p.answers.len() {
            assert(kn == fit_count(p@.authorities, 0, room2));
        } else {
            assert(kn == 0);
        }
        let kn2 = if ka2 < p@.answers.len() { 0 } else { fit_count(p@.authorities, 0, room2) };
        assert(kn == kn2);
        let room3 = room2 - body_wire(p@.authorities, kn2).len();
        if ka == p.answers.len() && kn == p.authorities.len() {
            assert(kr == fit_count(p@.resources, 0, room3));
        } else {
            assert(kr == 0);
        }
    }
    (ka, ca, kn, cn, kr, cr)
}

/// Writes `header` again over the first twelve bytes of `w`, written at
/// `start` over `s0`, and puts the cursor back at the end of `w`.
fn rewrite_header<B: ByteBuffer>(
    buffer: &mut B,
    header: &DnsHeader,
    start: usize,
    Ghost(s0): Ghost<Seq<u8>>,
    Ghost(hw0): Ghost<Seq<u8>>,
    Ghost(w): Ghost<Seq<u8>>,
)
    requires
        old(buffer).wf(),
        start <= s0.len(),
        hw0.len() == 12,
        w.subrange(0, 12) == hw0,
        w.len() >= 12,
        old(buffer).bytes() == splice(s0, start as int, w),
        old(buffer).cursor() == start + w.len(),
    ensures
        final(buffer).wf(),
        final(buffer).limit() == old(buffer).limit(),
        final(buffer).bytes() == splice(s0, start as int, header_wire(*header) + w.subrange(12, w.len() as int)),
        final(buffer).cursor() == start + w.len(),
{
    proof {
        buffer.lemma_wf();
        crate::buffer::lemma_wf_splice_len(s0, start as int, w);
        lemma_header_wire_len(*header);
    }
    let end = buffer.head();
    let _ = buffer.seek(start);
    let _ = header.write(buffer);
    proof {
        let rest = w.subrange(12, w.len() as int);
        assert(Seq::<u8>::empty() + hw0 + rest =~= w);
        crate::buffer::lemma_splice_patch(s0, start as int, Seq::<u8>::empty(), hw0, rest, header_wire(*header));
        assert(Seq::<u8>::empty() + header_wire(*header) + rest =~= header_wire(*header) + rest);
        crate::buffer::lemma_wf_splice_len(s0, start as int, header_wire(*header) + rest);
    }
    let _ = buffer.seek(end);
}

/// The header set up for writing, given what was written of each section,
/// is the header the packet is written with.
proof fn lemma_written_packet(
    p: PacketView,
    room: int,
    qlen: int,
    h: DnsHeader,
    ka: int,
    ca: u16,
    kn: int,
    cn: u16,
    kr: int,
    cr: u16,
)
    requires
        qlen == questions_wire(p.questions).len(),
        ka == sections_written(p, room - 12 - qlen).0,
        kn == sections_written(p, room - 12 - qlen).1,
        kr == sections_written(p, room - 12 - qlen).2,
        ca == known_count(p.answers, ka),
        cn == known_count(p.authorities, kn),
        cr == known_count(p.resources, kr),
        h == (DnsHeader {
            questions: p.questions.len() as u16,
            answers: ca,
            authoritative_entries: cn,
            resource_entries: cr,
            truncated_message: p.header.truncated_message || ka < p.answers.len() || kn
                < p.authorities.len() || kr < p.resources.len(),
            ..p.header
        }),
    ensures
        h == written_header(p, room),
{
    reveal(written_header);
}

/// The header's wire form is twelve bytes.
pub proof fn lemma_header_wire_len(h: DnsHeader)
    ensures
        header_wire(h).len() == 12,
{
}

impl DnsPacket {
    /// Writes the packet at the cursor: the header, the questions, then the
    /// answers, authorities and additionals in order until a record cannot
    /// be written or does not fit. The header is then written again over the
    /// first one, now counting the questions and the records actually
    /// written, with TC set when a record was left out; `self.header` takes
    /// those values. `UNKNOWN` records are dropped and not counted. Fails,
    /// writing nothing, when a section is too long for its count, a
    /// question's name cannot be written, or the header and questions do not
    /// fit.
    #[verifier::spinoff_prover]
    #[verifier::rlimit(80)]
    pub fn write<B: ByteBuffer>(&mut self, buffer: &mut B) -> (r: Result<(), WireError>)
        requires
            old(buffer).wf(),
        ensures
            final(buffer).wf(),
            !counts_fit(old(self)@) ==> r == Err::<(), WireError>(WireError::TooManyEntries),
            counts_fit(old(self)@) && !questions_valid(old(self)@.questions) ==> r == Err::<
                (),
                WireError,
            >(WireError::LabelTooLong),
            r is Ok <==> counts_fit(old(self)@) && questions_valid(old(self)@.questions) && old(
                buffer).cursor() + 12 + questions_wire(old(self)@.questions).len() <= old(
                buffer).limit(),
            r is Ok ==> final(self)@ == (PacketView {
                header: written_header(old(self)@, old(buffer).limit() - old(buffer).cursor()),
                ..old(self)@
            }) && final(buffer).bytes() == splice(
                old(buffer).bytes(),
                old(buffer).cursor() as int,
                packet_wire(old(self)@, old(buffer).limit() - old(buffer).cursor()),
            ) && final(buffer).cursor() == old(buffer).cursor() + packet_wire(
                old(self)@,
                old(buffer).limit() - old(buffer).cursor(),
            ).len() && final(buffer).limit() == old(buffer).limit(),
            r is Err ==> *final(buffer) == *old(buffer) && *final(self) == *old(self),
    {
        proof {
            buffer.lemma_wf();
        }
        if self.questions.len() > 65535 || self.answers.len() > 65535 || self.authorities.len()
            > 65535 || self.resources.len() > 65535 {
            return Err(WireError::TooManyEntries);
        }
        // Every question must be writable, and fit with the header.
        let qlen = match questions_len(&self.questions) {
            Ok(n) => n,
            Err(e) => {
                return Err(e);
            },
        };
        if buffer.remaining() < 12 || buffer.remaining() - 12 < qlen {
            return Err(WireError::EndOfBuffer);
        }
        let header = write_checked(self, buffer, Ghost(qlen as int));
        self.header = header;
        Ok(())
    }
}

} // verus!
