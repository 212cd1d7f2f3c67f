use vstd::prelude::*;
use vstd::string::StringSliceAdditionalSpecFns;
use crate::codec::spec_be16;
use crate::names::{encode_name_unchecked, spec_encode_name};
use crate::protocol::{
    copy_questions, copy_records, DnsPacket, DnsPacketHeader, DnsPacketView, DnsQuestion,
    DnsQuestionView, DnsRecordView, DnsResourceRecord,
};

verus! {

/// IPv4 address record type code.
pub const DNS_TYPE_A: u16 = 1;

/// Name server record type code.
pub const DNS_TYPE_NS: u16 = 2;

/// Canonical name record type code.
pub const DNS_TYPE_CNAME: u16 = 5;

/// Start of authority record type code.
pub const DNS_TYPE_SOA: u16 = 6;

/// Pointer record type code.
pub const DNS_TYPE_PTR: u16 = 12;

/// Mail exchange record type code.
pub const DNS_TYPE_MX: u16 = 15;

/// Text record type code.
pub const DNS_TYPE_TXT: u16 = 16;

/// IPv6 address record type code.
pub const DNS_TYPE_AAAA: u16 = 28;

/// Internet class code.
pub const DNS_CLASS_IN: u16 = 1;

/// An IP address as the bytes an answer record carries.
#[derive(Clone, Copy, Debug, PartialEq, Eq)]
pub enum IpData {
    /// An IPv4 address: four octets.
    V4([u8; 4]),
    /// An IPv6 address: sixteen octets.
    V6([u8; 16]),
}

/// The answer record that an address answer for `name` carries: type A with
/// the four octets for IPv4, type AAAA with the sixteen octets for IPv6.
pub open spec fn spec_ip_record(name: Seq<char>, ip: IpData, ttl: u32) -> DnsRecordView {
    match ip {
        IpData::V4(o) => DnsRecordView {
            name,
            rtype: DNS_TYPE_A,
            rclass: DNS_CLASS_IN,
            ttl,
            rdlength: 4,
            rdata: o@,
        },
        IpData::V6(o) => DnsRecordView {
            name,
            rtype: DNS_TYPE_AAAA,
            rclass: DNS_CLASS_IN,
            ttl,
            rdlength: 16,
            rdata: o@,
        },
    }
}

/// Mathematical model of the response builder.
pub struct DnsResponseBuilderView {
    pub header: DnsPacketHeader,
    pub questions: Seq<DnsQuestionView>,
    pub answers: Seq<DnsRecordView>,
}

/// Builder for response packets: a response header template plus the
/// accumulated questions and answers.
pub struct DnsResponseBuilder {
    response_header: DnsPacketHeader,
    questions: Vec<DnsQuestion>,
    answers: Vec<DnsResourceRecord>,
}

impl View for DnsResponseBuilder {
    type V = DnsResponseBuilderView;

    closed spec fn view(&self) -> DnsResponseBuilderView {
        DnsResponseBuilderView {
            header: self.response_header,
            questions: self.questions.deep_view(),
            answers: self.answers.deep_view(),
        }
    }
}

/// The header template a fresh builder starts from: a standard-query
/// response that offers recursion and reports no error.
pub open spec fn spec_template_header() -> DnsPacketHeader {
    DnsPacketHeader {
        id: 0,
        qr: true,
        opcode: 0,
        aa: false,
        tc: false,
        rd: false,
        ra: true,
        z: 0,
        rcode: 0,
        qdcount: 0,
        ancount: 0,
        nscount: 0,
        arcount: 0,
    }
}

impl DnsResponseBuilder {
    /// Creates a builder whose header starts from the response template and
    /// whose question and answer lists are empty.
    pub fn new() -> (r: Self)
        ensures
            r@ == (DnsResponseBuilderView {
                header: spec_template_header(),
                questions: Seq::<DnsQuestionView>::empty(),
                answers: Seq::<DnsRecordView>::empty(),
            }),
    {
        let r = DnsResponseBuilder {
            response_header: DnsPacketHeader {
                id: 0,
                qr: true,
                opcode: 0,
                aa: false,
                tc: false,
                rd: false,
                ra: true,
                z: 0,
                rcode: 0,
                qdcount: 0,
                ancount: 0,
                nscount: 0,
                arcount: 0,
            },
            questions: Vec::new(),
            answers: Vec::new(),
        };
        proof {
            assert(r@.questions =~~= Seq::<DnsQuestionView>::empty());
            assert(r@.answers =~~= Seq::<DnsRecordView>::empty());
        }
        r
    }

    /// How many answers have accumulated.
    pub fn answers_count(&self) -> (r: usize)
        ensures
            r == self@.answers.len(),
    {
        self.answers.len()
    }

    /// Drops the accumulated answers so the builder can be reused.
    pub fn clear_answers(&mut self)
        ensures
            final(self)@ == (DnsResponseBuilderView {
                answers: Seq::<DnsRecordView>::empty(),
                ..old(self)@
            }),
    {
        self.answers.clear();
        proof {
            assert(self@.answers =~~= Seq::<DnsRecordView>::empty());
        }
    }

    /// Default echo: copies identifier and recursion-desired from the query,
    /// carries the query's questions verbatim and the accumulated answers,
    /// and sets both counters to the query's question count.
    pub fn build_response(&mut self, query_packet: &DnsPacket) -> (r: DnsPacket)
        ensures
            final(self)@.header == (DnsPacketHeader {
                id: query_packet@.header.id,
                rd: query_packet@.header.rd,
                qdcount: query_packet@.header.qdcount,
                ancount: query_packet@.header.qdcount,
                ..old(self)@.header
            }),
            final(self)@.questions == old(self)@.questions,
            final(self)@.answers == old(self)@.answers,
            r@ == (DnsPacketView {
                header: final(self)@.header,
                questions: query_packet@.questions,
                answers: old(self)@.answers,
            }),
    {
        self.response_header.id = query_packet.header.id;
        self.response_header.rd = query_packet.header.rd;
        self.response_header.qdcount = query_packet.header.qdcount;
        self.response_header.ancount = query_packet.header.qdcount;
        DnsPacket {
            header: self.response_header,
            questions: copy_questions(&query_packet.questions),
            answers: copy_records(&self.answers),
        }
    }

    /// Starts a fluent response assembly seeded from this builder's state
    /// and the query packet.
    pub fn build_custom_response(&self, query_packet: &DnsPacket) -> (r: ResponseBuilder)
        ensures
            r@ == (ResponseBuilderView {
                header: self@.header,
                questions: self@.questions,
                answers: self@.answers,
                query_id: query_packet@.header.id,
                query_rd: query_packet@.header.rd,
                query_opcode: query_packet@.header.opcode,
                query_qdcount: query_packet@.header.qdcount,
                query_questions: query_packet@.questions,
            }),
    {
        ResponseBuilder {
            header: self.response_header,
            questions: copy_questions(&self.questions),
            answers: copy_records(&self.answers),
            query_id: query_packet.header.id,
            query_rd: query_packet.header.rd,
            query_opcode: query_packet.header.opcode,
            query_qdcount: query_packet.header.qdcount,
            query_questions: copy_questions(&query_packet.questions),
        }
    }

    /// A response for one A-record question on `domain` that carries the
    /// given record as its single answer.
    pub fn build_domain_response(
        &mut self,
        domain: &str,
        dns_resource_record: DnsResourceRecord,
        query_id: u16,
    ) -> (r: DnsPacket)
        ensures
            final(self)@.header == (DnsPacketHeader {
                id: query_id,
                qdcount: 1,
                ancount: 1,
                ..old(self)@.header
            }),
            final(self)@.questions == old(self)@.questions,
            final(self)@.answers == old(self)@.answers,
            r@ == (DnsPacketView {
                header: final(self)@.header,
                questions: seq![
                    DnsQuestionView { name: domain@, qtype: DNS_TYPE_A, qclass: DNS_CLASS_IN },
                ],
                answers: seq![dns_resource_record@],
            }),
    {
        self.response_header.id = query_id;
        self.response_header.qdcount = 1;
        self.response_header.ancount = 1;
        let question = DnsQuestion { name: domain.to_owned(), qtype: DNS_TYPE_A, qclass: DNS_CLASS_IN };
        let mut questions: Vec<DnsQuestion> = Vec::new();
        questions.push(question);
        let mut answers: Vec<DnsResourceRecord> = Vec::new();
        answers.push(dns_resource_record);
        let r = DnsPacket { header: self.response_header, questions, answers };
        proof {
            assert(r@.questions =~~= seq![
                DnsQuestionView { name: domain@, qtype: DNS_TYPE_A, qclass: DNS_CLASS_IN },
            ]);
            assert(r@.answers =~~= seq![dns_resource_record@]);
        }
        r
    }
}

impl Default for DnsResponseBuilder {
    /// The same state `new` gives.
    fn default() -> (r: Self)
        ensures
            r@ == (DnsResponseBuilderView {
                header: spec_template_header(),
                questions: Seq::<DnsQuestionView>::empty(),
                answers: Seq::<DnsRecordView>::empty(),
            }),
    {
        Self::new()
    }
}

/// Mathematical model of an in-progress fluent response.
pub struct ResponseBuilderView {
    pub header: DnsPacketHeader,
    pub questions: Seq<DnsQuestionView>,
    pub answers: Seq<DnsRecordView>,
    pub query_id: u16,
    pub query_rd: bool,
    pub query_opcode: u8,
    pub query_qdcount: u16,
    pub query_questions: Seq<DnsQuestionView>,
}

/// Fluent interface for assembling a response: each operation takes the
/// builder by value and hands it back, so calls chain.
pub struct ResponseBuilder {
    header: DnsPacketHeader,
    questions: Vec<DnsQuestion>,
    answers: Vec<DnsResourceRecord>,
    query_id: u16,
    query_rd: bool,
    query_opcode: u8,
    query_qdcount: u16,
    query_questions: Vec<DnsQuestion>,
}

impl View for ResponseBuilder {
    type V = ResponseBuilderView;

    closed spec fn view(&self) -> ResponseBuilderView {
        ResponseBuilderView {
            header: self.header,
            questions: self.questions.deep_view(),
            answers: self.answers.deep_view(),
            query_id: self.query_id,
            query_rd: self.query_rd,
            query_opcode: self.query_opcode,
            query_qdcount: self.query_qdcount,
            query_questions: self.query_questions.deep_view(),
        }
    }
}

/// The packet that finishing a fluent assembly yields. Once any question or
/// answer was added, the response carries the accumulated questions and
/// answers, echoes identifier, recursion-desired and opcode from the query,
/// and derives the response code from the query's opcode: no error for a
/// standard query, not-implemented otherwise. With nothing added it is the
/// default echo: the query's questions verbatim and both counters set to
/// the query's question count.
pub open spec fn spec_build(v: ResponseBuilderView) -> DnsPacketView {
    if v.questions.len() > 0 || v.answers.len() > 0 {
        DnsPacketView {
            header: DnsPacketHeader {
                id: v.query_id,
                rd: v.query_rd,
                opcode: v.query_opcode,
                rcode: if v.query_opcode == 0 {
                    0
                } else {
                    4
                },
                ..v.header
            },
            questions: v.questions,
            answers: v.answers,
        }
    } else {
        DnsPacketView {
            header: DnsPacketHeader {
                id: v.query_id,
                rd: v.query_rd,
                qdcount: v.query_qdcount,
                ancount: v.query_qdcount,
                ..v.header
            },
            questions: v.query_questions,
            answers: v.answers,
        }
    }
}

impl ResponseBuilder {
    /// Sets the response code.
    pub fn with_rcode(self, rcode: u8) -> (r: Self)
        ensures
            r@ == (ResponseBuilderView {
                header: (DnsPacketHeader { rcode, ..self@.header }),
                ..self@
            }),
    {
        let mut s = self;
        s.header.rcode = rcode;
        s
    }

    /// Sets the query/response flag.
    pub fn with_qr(self, qr: bool) -> (r: Self)
        ensures
            r@ == (ResponseBuilderView { header: (DnsPacketHeader { qr, ..self@.header }), ..self@ }),
    {
        let mut s = self;
        s.header.qr = qr;
        s
    }

    /// Sets the reserved bits.
    pub fn with_z(self, z: u8) -> (r: Self)
        ensures
            r@ == (ResponseBuilderView { header: (DnsPacketHeader { z, ..self@.header }), ..self@ }),
    {
        let mut s = self;
        s.header.z = z;
        s
    }

    /// Sets the authoritative-answer flag.
    pub fn with_authoritative(self, aa: bool) -> (r: Self)
        ensures
            r@ == (ResponseBuilderView { header: (DnsPacketHeader { aa, ..self@.header }), ..self@ }),
    {
        let mut s = self;
        s.header.aa = aa;
        s
    }

    /// Sets the recursion-available flag.
    pub fn with_recursion_available(self, ra: bool) -> (r: Self)
        ensures
            r@ == (ResponseBuilderView { header: (DnsPacketHeader { ra, ..self@.header }), ..self@ }),
    {
        let mut s = self;
        s.header.ra = ra;
        s
    }

    /// Replaces the question list with the one given question and sets the
    /// counters for a single question and its expected answer.
    pub fn with_question(self, domain: &str, qtype: u16, qclass: u16) -> (r: Self)
        ensures
            r@ == (ResponseBuilderView {
                header: (DnsPacketHeader { qdcount: 1, ancount: 1, ..self@.header }),
                questions: seq![DnsQuestionView { name: domain@, qtype, qclass }],
                ..self@
            }),
    {
        let mut s = self;
        s.questions.clear();
        s.questions.push(DnsQuestion { name: domain.to_owned(), qtype, qclass });
        s.header.qdcount = 1;
        s.header.ancount = 1;
        proof {
            assert(s@.questions =~~= seq![DnsQuestionView { name: domain@, qtype, qclass }]);
        }
        s
    }

    /// Asks for an A record (IPv4 address) for `domain`.
    pub fn with_a_record(self, domain: &str) -> (r: Self)
        ensures
            r@ == (ResponseBuilderView {
                header: (DnsPacketHeader { qdcount: 1, ancount: 1, ..self@.header }),
                questions: seq![
                    DnsQuestionView { name: domain@, qtype: DNS_TYPE_A, qclass: DNS_CLASS_IN },
                ],
                ..self@
            }),
    {
        self.with_question(domain, DNS_TYPE_A, DNS_CLASS_IN)
    }

    /// Asks for an AAAA record (IPv6 address) for `domain`.
    pub fn with_aaaa_record(self, domain: &str) -> (r: Self)
        ensures
            r@ == (ResponseBuilderView {
                header: (DnsPacketHeader { qdcount: 1, ancount: 1, ..self@.header }),
                questions: seq![
                    DnsQuestionView { name: domain@, qtype: DNS_TYPE_AAAA, qclass: DNS_CLASS_IN },
                ],
                ..self@
            }),
    {
        self.with_question(domain, DNS_TYPE_AAAA, DNS_CLASS_IN)
    }

    /// Asks for a CNAME record (canonical name) for `domain`.
    pub fn with_cname_record(self, domain: &str) -> (r: Self)
        ensures
            r@ == (ResponseBuilderView {
                header: (DnsPacketHeader { qdcount: 1, ancount: 1, ..self@.header }),
                questions: seq![
                    DnsQuestionView { name: domain@, qtype: DNS_TYPE_CNAME, qclass: DNS_CLASS_IN },
                ],
                ..self@
            }),
    {
        self.with_question(domain, DNS_TYPE_CNAME, DNS_CLASS_IN)
    }

    /// Asks for an MX record (mail exchange) for `domain`.
    pub fn with_mx_record(self, domain: &str) -> (r: Self)
        ensures
            r@ == (ResponseBuilderView {
                header: (DnsPacketHeader { qdcount: 1, ancount: 1, ..self@.header }),
                questions: seq![
                    DnsQuestionView { name: domain@, qtype: DNS_TYPE_MX, qclass: DNS_CLASS_IN },
                ],
                ..self@
            }),
    {
        self.with_question(domain, DNS_TYPE_MX, DNS_CLASS_IN)
    }

    /// Asks for a TXT record (text) for `domain`.
    pub fn with_txt_record(self, domain: &str) -> (r: Self)
        ensures
            r@ == (ResponseBuilderView {
                header: (DnsPacketHeader { qdcount: 1, ancount: 1, ..self@.header }),
                questions: seq![
                    DnsQuestionView { name: domain@, qtype: DNS_TYPE_TXT, qclass: DNS_CLASS_IN },
                ],
                ..self@
            }),
    {
        self.with_question(domain, DNS_TYPE_TXT, DNS_CLASS_IN)
    }

    /// Appends an address answer for `domain`: an A record for an IPv4
    /// address, an AAAA record for an IPv6 address. Also resets the question
    /// list to the one matching A question and keeps the answer counter in
    /// step with the answer list.
    pub fn with_an_answer(self, domain: &str, ip: IpData, ttl: u32) -> (r: Self)
        ensures
            r@ == (ResponseBuilderView {
                header: (DnsPacketHeader {
                    qdcount: 1,
                    ancount: ((self@.answers.len() + 1) % 0x10000) as u16,
                    ..self@.header
                }),
                questions: seq![
                    DnsQuestionView { name: domain@, qtype: DNS_TYPE_A, qclass: DNS_CLASS_IN },
                ],
                answers: self@.answers.push(spec_ip_record(domain@, ip, ttl)),
                ..self@
            }),
    {
        let mut s = self;
        s.questions.clear();
        s.questions.push(DnsQuestion { name: domain.to_owned(), qtype: DNS_TYPE_A, qclass: DNS_CLASS_IN });
        s.header.qdcount = 1;
        let rdata = ip_bytes(&ip);
        let answer = DnsResourceRecord::new(
            domain.to_owned(),
            match ip {
                IpData::V4(_) => DNS_TYPE_A,
                IpData::V6(_) => DNS_TYPE_AAAA,
            },
            DNS_CLASS_IN,
            ttl,
            rdata,
        );
        s.answers.push(answer);
        s.header.ancount = (s.answers.len() % 0x10000) as u16;
        proof {
            assert(s@.questions =~~= seq![
                DnsQuestionView { name: domain@, qtype: DNS_TYPE_A, qclass: DNS_CLASS_IN },
            ]);
            assert(s@.answers =~~= self@.answers.push(spec_ip_record(domain@, ip, ttl)));
        }
        s
    }

    /// Appends an AAAA answer for `domain` from sixteen IPv6 octets. Also
    /// resets the question list to the one matching AAAA question.
    pub fn with_aaaa_answer(self, domain: &str, ip: [u8; 16], ttl: u32) -> (r: Self)
        ensures
            r@ == (ResponseBuilderView {
                header: (DnsPacketHeader {
                    qdcount: 1,
                    ancount: ((self@.answers.len() + 1) % 0x10000) as u16,
                    ..self@.header
                }),
                questions: seq![
                    DnsQuestionView { name: domain@, qtype: DNS_TYPE_AAAA, qclass: DNS_CLASS_IN },
                ],
                answers: self@.answers.push(spec_ip_record(domain@, IpData::V6(ip), ttl)),
                ..self@
            }),
    {
        let mut s = self;
        s.questions.clear();
        s.questions.push(
            DnsQuestion { name: domain.to_owned(), qtype: DNS_TYPE_AAAA, qclass: DNS_CLASS_IN },
        );
        s.header.qdcount = 1;
        let rdata = ip_bytes(&IpData::V6(ip));
        let answer = DnsResourceRecord::new(
            domain.to_owned(),
            DNS_TYPE_AAAA,
            DNS_CLASS_IN,
            ttl,
            rdata,
        );
        s.answers.push(answer);
        s.header.ancount = (s.answers.len() % 0x10000) as u16;
        proof {
            assert(s@.questions =~~= seq![
                DnsQuestionView { name: domain@, qtype: DNS_TYPE_AAAA, qclass: DNS_CLASS_IN },
            ]);
            assert(s@.answers =~~= self@.answers.push(
                spec_ip_record(domain@, IpData::V6(ip), ttl),
            ));
        }
        s
    }

    /// Appends a CNAME answer whose data is `cname` in label form.
    pub fn with_cname_answer(self, domain: &str, cname: &str, ttl: u32) -> (r: Self)
        ensures
            r@ == (ResponseBuilderView {
                header: (DnsPacketHeader {
                    ancount: ((self@.answers.len() + 1) % 0x10000) as u16,
                    ..self@.header
                }),
                answers: self@.answers.push(
                    DnsRecordView {
                        name: domain@,
                        rtype: DNS_TYPE_CNAME,
                        rclass: DNS_CLASS_IN,
                        ttl,
                        rdlength: (spec_encode_name(cname@).len() % 0x10000) as u16,
                        rdata: spec_encode_name(cname@),
                    },
                ),
                ..self@
            }),
    {
        let mut s = self;
        let mut data: Vec<u8> = Vec::new();
        encode_name_unchecked(cname, &mut data);
        let answer = DnsResourceRecord::new(
            domain.to_owned(),
            DNS_TYPE_CNAME,
            DNS_CLASS_IN,
            ttl,
            data,
        );
        s.answers.push(answer);
        s.header.ancount = (s.answers.len() % 0x10000) as u16;
        proof {
            assert(s@.answers =~~= self@.answers.push(
                DnsRecordView {
                    name: domain@,
                    rtype: DNS_TYPE_CNAME,
                    rclass: DNS_CLASS_IN,
                    ttl,
                    rdlength: (spec_encode_name(cname@).len() % 0x10000) as u16,
                    rdata: spec_encode_name(cname@),
                },
            ));
        }
        s
    }

    /// Appends a TXT answer whose data is one length byte then the text.
    pub fn with_txt_answer(self, domain: &str, text: &str, ttl: u32) -> (r: Self)
        ensures
            r@ == (ResponseBuilderView {
                header: (DnsPacketHeader {
                    ancount: ((self@.answers.len() + 1) % 0x10000) as u16,
                    ..self@.header
                }),
                answers: self@.answers.push(
                    DnsRecordView {
                        name: domain@,
                        rtype: DNS_TYPE_TXT,
                        rclass: DNS_CLASS_IN,
                        ttl,
                        rdlength: ((text.spec_bytes().len() + 1) % 0x10000) as u16,
                        rdata: seq![(text.spec_bytes().len() % 256) as u8] + text.spec_bytes(),
                    },
                ),
                ..self@
            }),
    {
        let mut s = self;
        let mut data: Vec<u8> = Vec::new();
        let bytes = text.as_bytes();
        data.push((bytes.len() % 256) as u8);
        assert(data@ =~= seq![(bytes@.len() % 256) as u8] + bytes@.take(0));
        let mut k: usize = 0;
        while k < bytes.len()
            invariant
                k <= bytes@.len(),
                data@ == seq![(bytes@.len() % 256) as u8] + bytes@.take(k as int),
            decreases bytes@.len() - k,
        {
            data.push(bytes[k]);
            assert(data@ =~= seq![(bytes@.len() % 256) as u8] + bytes@.take(k as int + 1));
            k = k + 1;
        }
        assert(data@ =~= seq![(bytes@.len() % 256) as u8] + bytes@);
        let answer = DnsResourceRecord::new(domain.to_owned(), DNS_TYPE_TXT, DNS_CLASS_IN, ttl, data);
        s.answers.push(answer);
        s.header.ancount = (s.answers.len() % 0x10000) as u16;
        proof {
            assert(s@.answers =~~= self@.answers.push(
                DnsRecordView {
                    name: domain@,
                    rtype: DNS_TYPE_TXT,
                    rclass: DNS_CLASS_IN,
                    ttl,
                    rdlength: ((text.spec_bytes().len() + 1) % 0x10000) as u16,
                    rdata: seq![(text.spec_bytes().len() % 256) as u8] + text.spec_bytes(),
                },
            ));
        }
        s
    }

    /// Appends an MX answer whose data is the big-endian priority then the
    /// exchange name in label form.
    pub fn with_mx_answer(self, domain: &str, priority: u16, exchange: &str, ttl: u32) -> (r: Self)
        ensures
            r@ == (ResponseBuilderView {
                header: (DnsPacketHeader {
                    ancount: ((self@.answers.len() + 1) % 0x10000) as u16,
                    ..self@.header
                }),
                answers: self@.answers.push(
                    DnsRecordView {
                        name: domain@,
                        rtype: DNS_TYPE_MX,
                        rclass: DNS_CLASS_IN,
                        ttl,
                        rdlength: (((spec_be16(priority) + spec_encode_name(exchange@)).len())
                            % 0x10000) as u16,
                        rdata: spec_be16(priority) + spec_encode_name(exchange@),
                    },
                ),
                ..self@
            }),
    {
        let mut s = self;
        let mut data: Vec<u8> = Vec::new();
        data.push((priority >> 8) as u8);
        data.push((priority & 0xFF) as u8);
        assert(data@ =~= spec_be16(priority));
        encode_name_unchecked(exchange, &mut data);
        let answer = DnsResourceRecord::new(domain.to_owned(), DNS_TYPE_MX, DNS_CLASS_IN, ttl, data);
        s.answers.push(answer);
        s.header.ancount = (s.answers.len() % 0x10000) as u16;
        proof {
            assert(s@.answers =~~= self@.answers.push(
                DnsRecordView {
                    name: domain@,
                    rtype: DNS_TYPE_MX,
                    rclass: DNS_CLASS_IN,
                    ttl,
                    rdlength: (((spec_be16(priority) + spec_encode_name(exchange@)).len())
                        % 0x10000) as u16,
                    rdata: spec_be16(priority) + spec_encode_name(exchange@),
                },
            ));
        }
        s
    }

    /// Finishes the assembly. Once any question or answer was added, the
    /// response carries the accumulated questions and answers, echoes
    /// identifier, recursion-desired and opcode from the query, and derives
    /// the response code from the query's opcode: no error for a standard
    /// query, not-implemented otherwise. With nothing added it falls back
    /// to the default echo of the query.
    pub fn build(self) -> (r: DnsPacket)
        ensures
            r@ == spec_build(self@),
    {
        let mut header = self.header;
        if self.questions.len() > 0 || self.answers.len() > 0 {
            header.id = self.query_id;
            header.rd = self.query_rd;
            header.opcode = self.query_opcode;
            header.rcode = if self.query_opcode == 0 {
                0
            } else {
                4
            };
            DnsPacket { header, questions: self.questions, answers: self.answers }
        } else {
            header.id = self.query_id;
            header.rd = self.query_rd;
            header.qdcount = self.query_qdcount;
            header.ancount = self.query_qdcount;
            DnsPacket { header, questions: self.query_questions, answers: self.answers }
        }
    }
}

/// The bytes an address carries: four octets for IPv4, sixteen for IPv6.
fn ip_bytes(ip: &IpData) -> (r: Vec<u8>)
    ensures
        r@ == (match *ip {
            IpData::V4(o) => o@,
            IpData::V6(o) => o@,
        }),
{
    let mut v: Vec<u8> = Vec::new();
    match ip {
        IpData::V4(o) => {
            let mut k: usize = 0;
            while k < 4
                invariant
                    k <= 4,
                    v@ == o@.take(k as int),
                decreases 4 - k,
            {
                v.push(o[k]);
                assert(v@ =~= o@.take(k as int + 1));
                k = k + 1;
            }
            assert(v@ =~= o@);
        },
        IpData::V6(o) => {
            let mut k: usize = 0;
            while k < 16
                invariant
                    k <= 16,
                    v@ == o@.take(k as int),
                decreases 16 - k,
            {
                v.push(o[k]);
                assert(v@ =~= o@.take(k as int + 1));
                k = k + 1;
            }
            assert(v@ =~= o@);
        },
    }
    v
}

} // verus!
