use vstd::prelude::*;

verus! {

/// The fixed 12-byte DNS message header.
#[derive(Clone, Copy, Debug, PartialEq, Eq, Structural)]
pub struct DnsPacketHeader {
    /// Identifier, 16 bits.
    pub id: u16,
    /// Query (false) or response (true), 1 bit.
    pub qr: bool,
    /// Operation code, 4 bits.
    pub opcode: u8,
    /// Authoritative answer, 1 bit.
    pub aa: bool,
    /// Truncated, 1 bit.
    pub tc: bool,
    /// Recursion desired, 1 bit.
    pub rd: bool,
    /// Recursion available, 1 bit.
    pub ra: bool,
    /// Reserved for future use, 3 bits.
    pub z: u8,
    /// Response code, 4 bits.
    pub rcode: u8,
    /// Number of questions, 16 bits.
    pub qdcount: u16,
    /// Number of answers, 16 bits.
    pub ancount: u16,
    /// Number of authority records, 16 bits.
    pub nscount: u16,
    /// Number of additional records, 16 bits.
    pub arcount: u16,
}

impl DnsPacketHeader {
    /// The sub-byte fields fit the widths the wire format gives them.
    pub open spec fn wf(self) -> bool {
        self.opcode < 16 && self.z < 8 && self.rcode < 16
    }
}

/// Mathematical model of a question: the name as its characters.
pub struct DnsQuestionView {
    pub name: Seq<char>,
    pub qtype: u16,
    pub qclass: u16,
}

/// One entry of the question section.
#[derive(Clone, Debug, PartialEq, Eq)]
pub struct DnsQuestion {
    /// Domain name in dotted textual form.
    pub name: String,
    /// Query type code (A = 1, AAAA = 28, ...).
    pub qtype: u16,
    /// Query class code (IN = 1).
    pub qclass: u16,
}

impl View for DnsQuestion {
    type V = DnsQuestionView;

    open spec fn view(&self) -> DnsQuestionView {
        DnsQuestionView { name: self.name@, qtype: self.qtype, qclass: self.qclass }
    }
}

impl DeepView for DnsQuestion {
    type V = DnsQuestionView;

    open spec fn deep_view(&self) -> DnsQuestionView {
        self.view()
    }
}

/// Mathematical model of a resource record.
pub struct DnsRecordView {
    pub name: Seq<char>,
    pub rtype: u16,
    pub rclass: u16,
    pub ttl: u32,
    pub rdlength: u16,
    pub rdata: Seq<u8>,
}

/// One answer record.
#[derive(Clone, Debug, PartialEq, Eq)]
pub struct DnsResourceRecord {
    /// Domain name in dotted textual form.
    pub name: String,
    /// Resource type code.
    pub rtype: u16,
    /// Resource class code.
    pub rclass: u16,
    /// Time to live in seconds.
    pub ttl: u32,
    /// Length of the resource data in bytes.
    pub rdlength: u16,
    /// Resource data.
    pub rdata: Vec<u8>,
}

impl View for DnsResourceRecord {
    type V = DnsRecordView;

    open spec fn view(&self) -> DnsRecordView {
        DnsRecordView {
            name: self.name@,
            rtype: self.rtype,
            rclass: self.rclass,
            ttl: self.ttl,
            rdlength: self.rdlength,
            rdata: self.rdata@,
        }
    }
}

impl DeepView for DnsResourceRecord {
    type V = DnsRecordView;

    open spec fn deep_view(&self) -> DnsRecordView {
        self.view()
    }
}

impl DnsResourceRecord {
    /// Builds a record whose data-length field comes from the payload itself.
    pub fn new(name: String, rtype: u16, rclass: u16, ttl: u32, rdata: Vec<u8>) -> (r: Self)
        ensures
            r@ == (DnsRecordView {
                name: name@,
                rtype,
                rclass,
                ttl,
                rdlength: (rdata@.len() % 0x10000) as u16,
                rdata: rdata@,
            }),
    {
        let rdlength: u16 = (rdata.len() % 0x10000) as u16;
        DnsResourceRecord { name, rtype, rclass, ttl, rdlength, rdata }
    }
}

/// Mathematical model of a whole packet.
pub struct DnsPacketView {
    pub header: DnsPacketHeader,
    pub questions: Seq<DnsQuestionView>,
    pub answers: Seq<DnsRecordView>,
}

/// A header plus the question and answer sections.
#[derive(Clone, Debug)]
pub struct DnsPacket {
    pub header: DnsPacketHeader,
    pub questions: Vec<DnsQuestion>,
    pub answers: Vec<DnsResourceRecord>,
}

impl View for DnsPacket {
    type V = DnsPacketView;

    open spec fn view(&self) -> DnsPacketView {
        DnsPacketView {
            header: self.header,
            questions: self.questions.deep_view(),
            answers: self.answers.deep_view(),
        }
    }
}

/// Copies a question; the derived clone says nothing to the verifier.
pub fn copy_question(q: &DnsQuestion) -> (r: DnsQuestion)
    ensures
        r@ == q@,
{
    DnsQuestion { name: q.name.clone(), qtype: q.qtype, qclass: q.qclass }
}

/// Copies a question list element by element.
pub fn copy_questions(qs: &Vec<DnsQuestion>) -> (r: Vec<DnsQuestion>)
    ensures
        r.deep_view() == qs.deep_view(),
{
    let mut r: Vec<DnsQuestion> = Vec::new();
    let mut i: usize = 0;
    while i < qs.len()
        invariant
            i <= qs@.len(),
            r@.len() == i,
            forall|j: int| 0 <= j < i ==> r@[j]@ == qs@[j]@,
        decreases qs@.len() - i,
    {
        let q = copy_question(&qs[i]);
        r.push(q);
        i = i + 1;
    }
    assert(r.deep_view() =~~= qs.deep_view());
    r
}

/// Copies a record; the derived clone says nothing to the verifier.
pub fn copy_record(a: &DnsResourceRecord) -> (r: DnsResourceRecord)
    ensures
        r@ == a@,
{
    let mut rdata: Vec<u8> = Vec::new();
    let mut i: usize = 0;
    while i < a.rdata.len()
        invariant
            i <= a.rdata.len(),
            rdata@ =~= a.rdata@.take(i as int),
        decreases a.rdata.len() - i,
    {
        rdata.push(a.rdata[i]);
        i = i + 1;
    }
    assert(rdata@ =~= a.rdata@);
    DnsResourceRecord {
        name: a.name.clone(),
        rtype: a.rtype,
        rclass: a.rclass,
        ttl: a.ttl,
        rdlength: a.rdlength,
        rdata,
    }
}

/// Copies an answer list element by element.
pub fn copy_records(ans: &Vec<DnsResourceRecord>) -> (r: Vec<DnsResourceRecord>)
    ensures
        r.deep_view() == ans.deep_view(),
{
    let mut r: Vec<DnsResourceRecord> = Vec::new();
    let mut i: usize = 0;
    while i < ans.len()
        invariant
            i <= ans@.len(),
            r@.len() == i,
            forall|j: int| 0 <= j < i ==> r@[j]@ == ans@[j]@,
        decreases ans@.len() - i,
    {
        r.push(copy_record(&ans[i]));
        i = i + 1;
    }
    assert(r.deep_view() =~~= ans.deep_view());
    r
}

} // verus!
