use vstd::prelude::*;
use crate::errors::DnsCodecError;
use crate::names::{
    labels_fit, name_encodable, spec_encode_labels, spec_encode_name, split_bytes_from,
    string_from_utf8, lemma_encode_labels_push,
};
use crate::protocol::{
    DnsPacket, DnsPacketHeader, DnsPacketView, DnsQuestionView, DnsRecordView,
};

verus! {

/// The 16-bit flags word of a header, assembled bit by bit.
pub open spec fn spec_flags_word(h: DnsPacketHeader) -> u16 {
    (if h.qr {
        0x8000u16
    } else {
        0u16
    }) | (((h.opcode as u16) & 0x0F) << 11) | (if h.aa {
        0x0400u16
    } else {
        0u16
    }) | (if h.tc {
        0x0200u16
    } else {
        0u16
    }) | (if h.rd {
        0x0100u16
    } else {
        0u16
    }) | (if h.ra {
        0x0080u16
    } else {
        0u16
    }) | (((h.z as u16) & 0x07) << 4) | ((h.rcode as u16) & 0x0F)
}

/// A 16-bit value in big-endian byte order.
pub open spec fn spec_be16(x: u16) -> Seq<u8> {
    seq![(x >> 8) as u8, (x & 0xFF) as u8]
}

/// A 32-bit value in big-endian byte order.
pub open spec fn spec_be32(x: u32) -> Seq<u8> {
    seq![(x >> 24) as u8, ((x >> 16) & 0xFF) as u8, ((x >> 8) & 0xFF) as u8, (x & 0xFF) as u8]
}

/// The 12 header bytes: identifier, flags word, then the four counters.
pub open spec fn spec_encode_header(h: DnsPacketHeader) -> Seq<u8> {
    spec_be16(h.id) + spec_be16(spec_flags_word(h)) + spec_be16(h.qdcount) + spec_be16(h.ancount)
        + spec_be16(h.nscount) + spec_be16(h.arcount)
}

/// Wire form of one question: the name, then type and class.
pub open spec fn spec_encode_question(q: DnsQuestionView) -> Seq<u8> {
    spec_encode_name(q.name) + spec_be16(q.qtype) + spec_be16(q.qclass)
}

/// Wire form of the question section.
pub open spec fn spec_encode_questions(qs: Seq<DnsQuestionView>) -> Seq<u8>
    decreases qs.len(),
{
    if qs.len() == 0 {
        Seq::<u8>::empty()
    } else {
        spec_encode_question(qs[0]) + spec_encode_questions(qs.drop_first())
    }
}

/// Wire form of one answer: name, type, class, TTL, then the data length
/// derived from the payload itself, then the payload.
pub open spec fn spec_encode_record(a: DnsRecordView) -> Seq<u8> {
    spec_encode_name(a.name) + spec_be16(a.rtype) + spec_be16(a.rclass) + spec_be32(a.ttl)
        + spec_be16((a.rdata.len() % 0x10000) as u16) + a.rdata
}

/// Wire form of the answer section.
pub open spec fn spec_encode_records(ans: Seq<DnsRecordView>) -> Seq<u8>
    decreases ans.len(),
{
    if ans.len() == 0 {
        Seq::<u8>::empty()
    } else {
        spec_encode_record(ans[0]) + spec_encode_records(ans.drop_first())
    }
}

/// Every name of the packet can be put on the wire.
pub open spec fn packet_encodable(p: DnsPacketView) -> bool {
    &&& forall|i: int| 0 <= i < p.questions.len() ==> name_encodable(
        #[trigger] p.questions[i].name,
    )
    &&& forall|i: int| 0 <= i < p.answers.len() ==> name_encodable(#[trigger] p.answers[i].name)
}

/// The header as written: the counters replaced by the true section sizes.
pub open spec fn corrected_header(p: DnsPacketView) -> DnsPacketHeader {
    DnsPacketHeader {
        qdcount: (p.questions.len() % 0x10000) as u16,
        ancount: (p.answers.len() % 0x10000) as u16,
        ..p.header
    }
}

/// The whole wire form of a packet.
pub open spec fn spec_encode_packet(p: DnsPacketView) -> Seq<u8> {
    spec_encode_header(corrected_header(p)) + spec_encode_questions(p.questions)
        + spec_encode_records(p.answers)
}

pub proof fn lemma_encode_questions_push(qs: Seq<DnsQuestionView>, q: DnsQuestionView)
    ensures
        spec_encode_questions(qs.push(q)) == spec_encode_questions(qs) + spec_encode_question(q),
    decreases qs.len(),
{
    reveal_with_fuel(spec_encode_questions, 3);
    if qs.len() == 0 {
        let pushed = qs.push(q);
        assert(pushed.drop_first() =~= Seq::<DnsQuestionView>::empty());
        assert(spec_encode_questions(qs.push(q)) =~= spec_encode_questions(qs)
            + spec_encode_question(q));
    } else {
        lemma_encode_questions_push(qs.drop_first(), q);
        assert(qs.push(q).drop_first() =~= qs.drop_first().push(q));
        assert(qs.push(q)[0] == qs[0]);
        assert(spec_encode_questions(qs.push(q)) =~= spec_encode_questions(qs)
            + spec_encode_question(q));
    }
}

pub proof fn lemma_encode_records_push(ans: Seq<DnsRecordView>, a: DnsRecordView)
    ensures
        spec_encode_records(ans.push(a)) == spec_encode_records(ans) + spec_encode_record(a),
    decreases ans.len(),
{
    reveal_with_fuel(spec_encode_records, 3);
    if ans.len() == 0 {
        let pushed = ans.push(a);
        assert(pushed.drop_first() =~= Seq::<DnsRecordView>::empty());
        assert(spec_encode_records(ans.push(a)) =~= spec_encode_records(ans)
            + spec_encode_record(a));
    } else {
        lemma_encode_records_push(ans.drop_first(), a);
        assert(ans.push(a).drop_first() =~= ans.drop_first().push(a));
        assert(ans.push(a)[0] == ans[0]);
        assert(spec_encode_records(ans.push(a)) =~= spec_encode_records(ans)
            + spec_encode_record(a));
    }
}

/// A name that comes back unchanged from the wire: every label is non-empty
/// and fits in 63 bytes.
pub open spec fn name_round_trippable(name: Seq<char>) -> bool {
    &&& name_encodable(name)
    &&& forall|i: int| 0 <= i < crate::names::name_labels(name).len()
        ==> (#[trigger] crate::names::name_labels(name)[i]).len() > 0
}

/// Every question name of the packet comes back unchanged from the wire.
pub open spec fn packet_round_trippable(p: DnsPacketView) -> bool {
    forall|i: int| 0 <= i < p.questions.len() ==> name_round_trippable(
        #[trigger] p.questions[i].name,
    )
}

/// The labels of a round-trippable name spell that name again.
pub proof fn lemma_labels_of_round_trippable_name(name: Seq<char>)
    requires
        name_round_trippable(name),
    ensures
        crate::names::nonempty_labels(crate::names::name_labels(name)) == crate::names::name_labels(
            name,
        ),
        crate::names::labels_name_valid(crate::names::name_labels(name)),
        crate::names::spec_labels_name(crate::names::name_labels(name)) == name,
{
    broadcast use vstd::utf8::encode_utf8_valid_utf8, vstd::utf8::encode_utf8_decode_utf8;

    crate::names::lemma_nonempty_labels_id(crate::names::name_labels(name));
    crate::names::lemma_join_split(vstd::utf8::encode_utf8(name), 46);
}

/// Reading the two bytes a 16-bit value was written as gives the value back.
pub proof fn lemma_be16_round_trip(data: Seq<u8>, i: int, x: u16)
    requires
        0 <= i,
        i + 2 <= data.len(),
        data[i] == (x >> 8) as u8,
        data[i + 1] == (x & 0xFF) as u8,
    ensures
        crate::parsers::spec_be16_at(data, i) == x,
{
    let hi = (x >> 8) as u8;
    let lo = (x & 0xFF) as u8;
    assert(hi == (x >> 8) as u8 && lo == (x & 0xFF) as u8 ==> (hi as u16) * 256 + (lo as u16)
        == x) by (bit_vector);
    assert((hi as int) * 256 + (lo as int) == x);
}

/// Taking the flags word of a well-formed header apart gives each field
/// back.
pub proof fn lemma_flags_round_trip(h: DnsPacketHeader)
    requires
        h.wf(),
    ensures
        ({
            let f = spec_flags_word(h);
            &&& ((f & 0x8000) != 0) == h.qr
            &&& ((f & 0x7800) >> 11) as u8 == h.opcode
            &&& ((f & 0x0400) != 0) == h.aa
            &&& ((f & 0x0200) != 0) == h.tc
            &&& ((f & 0x0100) != 0) == h.rd
            &&& ((f & 0x0080) != 0) == h.ra
            &&& ((f & 0x0070) >> 4) as u8 == h.z
            &&& (f & 0x000F) as u8 == h.rcode
        }),
{
    let f = spec_flags_word(h);
    let q: u16 = if h.qr { 1 } else { 0 };
    let o: u16 = h.opcode as u16;
    let a: u16 = if h.aa { 1 } else { 0 };
    let t: u16 = if h.tc { 1 } else { 0 };
    let rd: u16 = if h.rd { 1 } else { 0 };
    let ra: u16 = if h.ra { 1 } else { 0 };
    let z: u16 = h.z as u16;
    let rc: u16 = h.rcode as u16;
    assert(f == (if q == 1 { 0x8000u16 } else { 0u16 }) | ((o & 0x0F) << 11) | (if a == 1 {
        0x0400u16
    } else {
        0u16
    }) | (if t == 1 { 0x0200u16 } else { 0u16 }) | (if rd == 1 { 0x0100u16 } else { 0u16 }) | (
    if ra == 1 { 0x0080u16 } else { 0u16 }) | ((z & 0x07) << 4) | (rc & 0x0F));
    assert((q == 0 || q == 1) && (a == 0 || a == 1) && (t == 0 || t == 1) && (rd == 0 || rd == 1)
        && (ra == 0 || ra == 1) && o < 16 && z < 8 && rc < 16 && f == (if q == 1 {
        0x8000u16
    } else {
        0u16
    }) | ((o & 0x0F) << 11) | (if a == 1 { 0x0400u16 } else { 0u16 }) | (if t == 1 {
        0x0200u16
    } else {
        0u16
    }) | (if rd == 1 { 0x0100u16 } else { 0u16 }) | (if ra == 1 { 0x0080u16 } else { 0u16 }) | ((z
        & 0x07) << 4) | (rc & 0x0F) ==> ((f & 0x8000 != 0) == (q == 1) && ((f & 0x7800) >> 11) == o
        && (f & 0x0400 != 0) == (a == 1) && (f & 0x0200 != 0) == (t == 1) && (f & 0x0100 != 0) == (
    rd == 1) && (f & 0x0080 != 0) == (ra == 1) && ((f & 0x0070) >> 4) == z && (f & 0x000F)
        == rc)) by (bit_vector);
}

/// The twelve bytes a header is written as, byte by byte.
pub proof fn lemma_encode_header_bytes(h: DnsPacketHeader)
    ensures
        ({
            let b = spec_encode_header(h);
            let f = spec_flags_word(h);
            &&& b.len() == 12
            &&& b[0] == (h.id >> 8) as u8
            &&& b[1] == (h.id & 0xFF) as u8
            &&& b[2] == (f >> 8) as u8
            &&& b[3] == (f & 0xFF) as u8
            &&& b[4] == (h.qdcount >> 8) as u8
            &&& b[5] == (h.qdcount & 0xFF) as u8
            &&& b[6] == (h.ancount >> 8) as u8
            &&& b[7] == (h.ancount & 0xFF) as u8
            &&& b[8] == (h.nscount >> 8) as u8
            &&& b[9] == (h.nscount & 0xFF) as u8
            &&& b[10] == (h.arcount >> 8) as u8
            &&& b[11] == (h.arcount & 0xFF) as u8
        }),
{
    let b = spec_encode_header(h);
    let f = spec_flags_word(h);
    assert(b =~= seq![
        (h.id >> 8) as u8,
        (h.id & 0xFF) as u8,
        (f >> 8) as u8,
        (f & 0xFF) as u8,
        (h.qdcount >> 8) as u8,
        (h.qdcount & 0xFF) as u8,
        (h.ancount >> 8) as u8,
        (h.ancount & 0xFF) as u8,
        (h.nscount >> 8) as u8,
        (h.nscount & 0xFF) as u8,
        (h.arcount >> 8) as u8,
        (h.arcount & 0xFF) as u8,
    ]);
}

/// Parsing the first twelve bytes of data that starts with a well-formed
/// header's wire form gives that header back.
pub proof fn lemma_parse_encoded_header(data: Seq<u8>, h: DnsPacketHeader)
    requires
        h.wf(),
        data.len() >= 12,
        data.subrange(0, 12) == spec_encode_header(h),
    ensures
        crate::parsers::spec_parse_header(data) == h,
{
    lemma_encode_header_bytes(h);
    let b = spec_encode_header(h);
    let f = spec_flags_word(h);
    assert(forall|j: int| 0 <= j < 12 ==> data[j] == #[trigger] b[j]) by {
        assert(forall|j: int| 0 <= j < 12 ==> #[trigger] b[j] == data.subrange(0, 12)[j]);
    }
    lemma_be16_round_trip(data, 0, h.id);
    lemma_be16_round_trip(data, 2, f);
    lemma_be16_round_trip(data, 4, h.qdcount);
    lemma_be16_round_trip(data, 6, h.ancount);
    lemma_be16_round_trip(data, 8, h.nscount);
    lemma_be16_round_trip(data, 10, h.arcount);
    lemma_flags_round_trip(h);
}

/// The name a question comes back as after one round over the wire: its
/// labels with the empty ones dropped, joined with dots again. A name whose
/// labels are all non-empty comes back as itself.
pub open spec fn normalized_name(name: Seq<char>) -> Seq<char> {
    crate::names::spec_labels_name(
        crate::names::nonempty_labels(crate::names::name_labels(name)),
    )
}

/// A question as it comes back from the wire: the same type and class, the
/// name normalized.
pub open spec fn normalized_question(q: DnsQuestionView) -> DnsQuestionView {
    DnsQuestionView { name: normalized_name(q.name), qtype: q.qtype, qclass: q.qclass }
}

/// Parsing at `pos` of data that carries one question's wire form there
/// gives that question back, its name normalized.
pub proof fn lemma_parse_encoded_question(data: Seq<u8>, pos: int, q: DnsQuestionView)
    requires
        name_encodable(q.name),
        0 <= pos,
        pos + spec_encode_question(q).len() <= data.len(),
        data.subrange(pos, pos + spec_encode_question(q).len()) == spec_encode_question(q),
    ensures
        crate::parsers::spec_parse_question(data, pos) == Some(
            ((pos + spec_encode_question(q).len()) as int, normalized_question(q)),
        ),
{
    let enc = spec_encode_question(q);
    let name_bytes = spec_encode_name(q.name);
    let labels = crate::names::name_labels(q.name);
    let nlen = name_bytes.len() as int;
    assert(enc.len() == nlen + 4);
    assert(forall|j: int| 0 <= j < enc.len() ==> data[pos + j] == #[trigger] enc[j]) by {
        assert(forall|j: int| 0 <= j < enc.len() ==> #[trigger] enc[j] == data.subrange(
            pos,
            pos + enc.len(),
        )[j]);
    }
    assert forall|j: int| 0 <= j < nlen implies data.subrange(pos, pos + nlen)[j]
        == (spec_encode_labels(labels) + seq![0u8])[j] by {
        assert(data[pos + j] == enc[j]);
        assert(enc[j] == name_bytes[j]);
    }
    assert(data.subrange(pos, pos + nlen) =~= spec_encode_labels(labels) + seq![0u8]);
    crate::names::lemma_parse_encoded_labels(
        data,
        pos,
        labels,
        crate::names::MAX_POINTER_DEPTH as int,
    );
    crate::names::lemma_name_labels_valid(q.name);
    let p = pos + nlen;
    assert(data[p] == enc[nlen + 0]);
    assert(data[p + 1] == enc[nlen + 1]);
    assert(data[p + 2] == enc[nlen + 2]);
    assert(data[p + 3] == enc[nlen + 3]);
    assert(enc[nlen + 0] == spec_be16(q.qtype)[0]);
    assert(enc[nlen + 1] == spec_be16(q.qtype)[1]);
    assert(enc[nlen + 2] == spec_be16(q.qclass)[0]);
    assert(enc[nlen + 3] == spec_be16(q.qclass)[1]);
    lemma_be16_round_trip(data, p, q.qtype);
    lemma_be16_round_trip(data, p + 2, q.qclass);
}

/// Parsing at `pos` of data that carries a question section's wire form
/// there gives the questions back, their names normalized.
pub proof fn lemma_parse_encoded_questions(data: Seq<u8>, pos: int, qs: Seq<DnsQuestionView>)
    requires
        forall|i: int| 0 <= i < qs.len() ==> name_encodable(#[trigger] qs[i].name),
        0 <= pos,
        pos + spec_encode_questions(qs).len() <= data.len(),
        data.subrange(pos, pos + spec_encode_questions(qs).len()) == spec_encode_questions(qs),
    ensures
        crate::parsers::spec_parse_questions(data, pos, qs.len() as int) == Some(
            (
                (pos + spec_encode_questions(qs).len()) as int,
                qs.map_values(|q: DnsQuestionView| normalized_question(q)),
            ),
        ),
    decreases qs.len(),
{
    let f = |q: DnsQuestionView| normalized_question(q);
    let enc = spec_encode_questions(qs);
    if qs.len() == 0 {
        assert(crate::parsers::spec_parse_questions(data, pos, 0) == Some(
            (pos, Seq::<DnsQuestionView>::empty()),
        ));
        assert(qs.map_values(f) =~= Seq::<DnsQuestionView>::empty());
    } else {
        let q = qs[0];
        let enc_q = spec_encode_question(q);
        let rest = qs.drop_first();
        let enc_rest = spec_encode_questions(rest);
        assert(enc == enc_q + enc_rest);
        assert(forall|j: int| 0 <= j < enc.len() ==> data[pos + j] == #[trigger] enc[j]) by {
            assert(forall|j: int| 0 <= j < enc.len() ==> #[trigger] enc[j] == data.subrange(
                pos,
                pos + enc.len(),
            )[j]);
        }
        assert forall|j: int| 0 <= j < enc_q.len() implies data.subrange(
            pos,
            pos + enc_q.len(),
        )[j] == enc_q[j] by {
            assert(data[pos + j] == enc[j]);
            assert(enc[j] == enc_q[j]);
        }
        assert(data.subrange(pos, pos + enc_q.len()) =~= enc_q);
        lemma_parse_encoded_question(data, pos, q);
        let pos2 = pos + enc_q.len() as int;
        assert forall|j: int| 0 <= j < enc_rest.len() implies data.subrange(
            pos2,
            pos2 + enc_rest.len(),
        )[j] == enc_rest[j] by {
            assert(data[pos + (enc_q.len() + j)] == enc[enc_q.len() + j]);
            assert(enc[enc_q.len() + j] == enc_rest[j]);
        }
        assert(data.subrange(pos2, pos2 + enc_rest.len()) =~= enc_rest);
        lemma_parse_encoded_questions(data, pos2, rest);
        assert(seq![f(q)] + rest.map_values(f) =~= qs.map_values(f));
    }
}

/// Header round trip: decoding a packet's wire form gives back its header
/// unchanged, for any packet whose header counters match the true section
/// sizes and whose names fit the wire. The questions come back with their
/// names normalized; the decoded answer section is empty, as answers are
/// not parsed.
pub proof fn lemma_header_round_trip(p: DnsPacketView)
    requires
        p.header.wf(),
        p.header.qdcount == p.questions.len(),
        p.header.ancount == p.answers.len(),
        forall|i: int| 0 <= i < p.questions.len() ==> name_encodable(
            #[trigger] p.questions[i].name,
        ),
    ensures
        ({
            let decoded = crate::parsers::spec_decode_packet(spec_encode_packet(p));
            &&& decoded is Some
            &&& decoded.unwrap().1.header == p.header
            &&& decoded.unwrap().1.questions == p.questions.map_values(
                |q: DnsQuestionView| normalized_question(q),
            )
            &&& decoded.unwrap().1.answers == Seq::<DnsRecordView>::empty()
            &&& decoded.unwrap().0 == 12 + spec_encode_questions(p.questions).len()
        }),
{
    let data = spec_encode_packet(p);
    let ch = corrected_header(p);
    assert(ch == p.header);
    lemma_encode_header_bytes(ch);
    assert(data.len() >= 12);
    assert forall|j: int| 0 <= j < 12 implies data.subrange(0, 12)[j] == spec_encode_header(
        ch,
    )[j] by {
        assert(data[j] == spec_encode_header(ch)[j]);
    }
    assert(data.subrange(0, 12) =~= spec_encode_header(ch));
    lemma_parse_encoded_header(data, ch);
    let enc_qs = spec_encode_questions(p.questions);
    assert forall|j: int| 0 <= j < enc_qs.len() implies data.subrange(
        12,
        12 + enc_qs.len() as int,
    )[j] == enc_qs[j] by {
        assert(data[12 + j] == (spec_encode_header(ch) + enc_qs + spec_encode_records(
            p.answers,
        ))[12 + j]);
    }
    assert(data.subrange(12, 12 + enc_qs.len() as int) =~= enc_qs);
    lemma_parse_encoded_questions(data, 12, p.questions);
}

/// Packet round trip: when every question name is made of non-empty labels,
/// normalization changes nothing, and the questions too come back exactly.
pub proof fn lemma_packet_round_trip(p: DnsPacketView)
    requires
        p.header.wf(),
        p.header.qdcount == p.questions.len(),
        p.header.ancount == p.answers.len(),
        packet_round_trippable(p),
    ensures
        ({
            let decoded = crate::parsers::spec_decode_packet(spec_encode_packet(p));
            &&& decoded is Some
            &&& decoded.unwrap().1.header == p.header
            &&& decoded.unwrap().1.questions == p.questions
            &&& decoded.unwrap().1.answers == Seq::<DnsRecordView>::empty()
            &&& decoded.unwrap().0 == 12 + spec_encode_questions(p.questions).len()
        }),
{
    lemma_header_round_trip(p);
    let f = |q: DnsQuestionView| normalized_question(q);
    assert forall|i: int| 0 <= i < p.questions.len() implies p.questions.map_values(f)[i]
        == p.questions[i] by {
        lemma_labels_of_round_trippable_name(p.questions[i].name);
    }
    assert(p.questions.map_values(f) =~= p.questions);
}

/// Count self-correction: whatever counters the header carries, the wire
/// form holds the true number of questions at byte offsets 4 and 5 and the
/// true number of answers at byte offsets 6 and 7, big-endian.
pub proof fn lemma_encoded_counts(p: DnsPacketView)
    requires
        p.questions.len() <= 0xFFFF,
        p.answers.len() <= 0xFFFF,
    ensures
        spec_encode_packet(p).subrange(4, 6) == spec_be16(p.questions.len() as u16),
        spec_encode_packet(p).subrange(6, 8) == spec_be16(p.answers.len() as u16),
{
    let data = spec_encode_packet(p);
    let ch = corrected_header(p);
    lemma_encode_header_bytes(ch);
    assert(ch.qdcount == p.questions.len() as u16);
    assert(ch.ancount == p.answers.len() as u16);
    assert(data[4] == spec_encode_header(ch)[4]);
    assert(data[5] == spec_encode_header(ch)[5]);
    assert(data[6] == spec_encode_header(ch)[6]);
    assert(data[7] == spec_encode_header(ch)[7]);
    assert(data.subrange(4, 6) =~= spec_be16(ch.qdcount));
    assert(data.subrange(6, 8) =~= spec_be16(ch.ancount));
}

fn push_be16(dst: &mut Vec<u8>, x: u16)
    ensures
        final(dst)@ == old(dst)@ + spec_be16(x),
{
    dst.push((x >> 8) as u8);
    dst.push((x & 0xFF) as u8);
    assert(dst@ =~= old(dst)@ + spec_be16(x));
}

fn push_be32(dst: &mut Vec<u8>, x: u32)
    ensures
        final(dst)@ == old(dst)@ + spec_be32(x),
{
    dst.push((x >> 24) as u8);
    dst.push(((x >> 16) & 0xFF) as u8);
    dst.push(((x >> 8) & 0xFF) as u8);
    dst.push((x & 0xFF) as u8);
    assert(dst@ =~= old(dst)@ + spec_be32(x));
}

/// Codec for one DNS datagram: decodes the leading bytes of a buffer into a
/// packet and appends a packet's wire form to a buffer.
#[derive(Debug)]
pub struct DnsCodec;

impl DnsCodec {
    /// Creates a new codec instance.
    pub fn new() -> (r: Self) {
        DnsCodec
    }

    /// Writes the 12 header bytes, the flags word assembled bit by bit.
    pub fn encode_header(&self, header: &DnsPacketHeader, dst: &mut Vec<u8>)
        ensures
            final(dst)@ == old(dst)@ + spec_encode_header(*header),
    {
        push_be16(dst, header.id);
        let flags: u16 = (if header.qr {
            0x8000u16
        } else {
            0u16
        }) | (((header.opcode as u16) & 0x0F) << 11) | (if header.aa {
            0x0400u16
        } else {
            0u16
        }) | (if header.tc {
            0x0200u16
        } else {
            0u16
        }) | (if header.rd {
            0x0100u16
        } else {
            0u16
        }) | (if header.ra {
            0x0080u16
        } else {
            0u16
        }) | (((header.z as u16) & 0x07) << 4) | ((header.rcode as u16) & 0x0F);
        push_be16(dst, flags);
        push_be16(dst, header.qdcount);
        push_be16(dst, header.ancount);
        push_be16(dst, header.nscount);
        push_be16(dst, header.arcount);
        assert(dst@ =~= old(dst)@ + spec_encode_header(*header));
    }

    /// Appends a name in label form: a length byte and the bytes of each
    /// non-empty label, then the terminating zero byte. A label longer than
    /// 63 bytes is rejected and the buffer is left untouched.
    pub fn encode_domain_name(&self, domain_name: &str, dst: &mut Vec<u8>) -> (r: Result<
        (),
        DnsCodecError,
    >)
        ensures
            name_encodable(domain_name@) ==> r is Ok && final(dst)@ == old(dst)@ + spec_encode_name(
                domain_name@,
            ),
            !name_encodable(domain_name@) ==> (r matches Err(e) && e matches
                DnsCodecError::InvalidDomainName(label) && label@ == vstd::utf8::decode_utf8(
                crate::names::spec_first_oversize_label(
                    crate::names::name_labels(domain_name@),
                ),
            )) && final(dst)@ == old(dst)@,
    {
        let bytes = domain_name.as_bytes();
        let labels = split_bytes_from(bytes, 0, 46);
        proof {
            assert(bytes@.skip(0) =~= bytes@);
        }
        let ghost parts = labels.deep_view();
        proof {
            assert(parts == crate::names::name_labels(domain_name@));
        }
        // First pass: find any label over 63 bytes.
        let mut i: usize = 0;
        while i < labels.len()
            invariant
                i <= labels@.len(),
                parts == labels.deep_view(),
                parts == crate::names::name_labels(domain_name@),
                forall|j: int| 0 <= j < i ==> (#[trigger] parts[j]).len() <= 63,
            decreases labels@.len() - i,
        {
            if labels[i].len() > 63 {
                // Carry the offending label in the error, as text. It is a
                // dot-split piece of the input string's UTF-8 bytes, so it
                // is itself valid UTF-8 and its text is its decoding.
                let mut owned: Vec<u8> = Vec::new();
                let lab = &labels[i];
                let mut k: usize = 0;
                while k < lab.len()
                    invariant
                        k <= lab@.len(),
                        owned@ == lab@.take(k as int),
                    decreases lab@.len() - k,
                {
                    owned.push(lab[k]);
                    assert(owned@ =~= lab@.take(k as int + 1));
                    k = k + 1;
                }
                proof {
                    assert(owned@ =~= lab@);
                    assert(parts[i as int] == labels@[i as int]@);
                    assert(!labels_fit(parts));
                    crate::names::lemma_name_parts_valid(domain_name@);
                    crate::names::lemma_first_oversize_label(parts, i as int);
                }
                let text = match string_from_utf8(owned) {
                    Some(s) => s,
                    None => {
                        proof {
                            assert(false);
                        }
                        String::new()
                    },
                };
                return Err(DnsCodecError::InvalidDomainName(text));
            }
            i = i + 1;
        }
        assert(labels_fit(parts));
        // Second pass: write each non-empty label.
        let mut i: usize = 0;
        while i < labels.len()
            invariant
                i <= labels@.len(),
                parts == labels.deep_view(),
                parts == crate::names::name_labels(domain_name@),
                labels_fit(parts),
                dst@ == old(dst)@ + spec_encode_labels(parts.take(i as int)),
            decreases labels@.len() - i,
        {
            let lab = &labels[i];
            proof {
                assert(parts[i as int] == labels@[i as int]@);
                assert(parts[i as int].len() <= 63);
            }
            if lab.len() > 0 {
                dst.push(lab.len() as u8);
                let mut k: usize = 0;
                let ghost mid = dst@;
                while k < lab.len()
                    invariant
                        k <= lab@.len(),
                        dst@ == mid + lab@.take(k as int),
                    decreases lab@.len() - k,
                {
                    dst.push(lab[k]);
                    assert(dst@ =~= mid + lab@.take(k as int + 1));
                    k = k + 1;
                }
                assert(dst@ =~= mid + lab@);
            }
            proof {
                lemma_encode_labels_push(parts.take(i as int), parts[i as int]);
                assert(parts.take(i as int).push(parts[i as int]) =~= parts.take(i as int + 1));
                assert(parts[i as int] == lab@);
                assert(dst@ =~= old(dst)@ + spec_encode_labels(parts.take(i as int + 1)));
            }
            i = i + 1;
        }
        dst.push(0);
        proof {
            assert(parts.take(parts.len() as int) =~= parts);
            assert(dst@ =~= old(dst)@ + spec_encode_name(domain_name@));
        }
        Ok(())
    }

    /// Appends the packet's wire form: the header with its counters replaced
    /// by the true section sizes, then the questions, then the answers. When
    /// any name holds a label over 63 bytes nothing is written.
    pub fn encode(&self, item: DnsPacket, dst: &mut Vec<u8>) -> (r: Result<(), DnsCodecError>)
        ensures
            packet_encodable(item@) ==> r is Ok && final(dst)@ == old(dst)@ + spec_encode_packet(item@),
            !packet_encodable(item@) ==> (r matches Err(e) && e is InvalidDomainName)
                && final(dst)@ == old(dst)@,
    {
        let ghost pv = item@;
        // First pass: reject any name that cannot be put on the wire.
        let mut scratch: Vec<u8> = Vec::new();
        let mut i: usize = 0;
        while i < item.questions.len()
            invariant
                i <= item.questions@.len(),
                pv == item@,
                forall|j: int| 0 <= j < i ==> name_encodable(#[trigger] pv.questions[j].name),
            decreases item.questions@.len() - i,
        {
            proof {
                assert(pv.questions[i as int] == item.questions@[i as int]@);
            }
            match self.encode_domain_name(item.questions[i].name.as_str(), &mut scratch) {
                Ok(()) => {},
                Err(e) => {
                    proof {
                        assert(!name_encodable(pv.questions[i as int].name));
                    }
                    return Err(e);
                },
            }
            i = i + 1;
        }
        let mut i: usize = 0;
        while i < item.answers.len()
            invariant
                i <= item.answers@.len(),
                pv == item@,
                forall|j: int| 0 <= j < pv.questions.len() ==> name_encodable(
                    #[trigger] pv.questions[j].name,
                ),
                forall|j: int| 0 <= j < i ==> name_encodable(#[trigger] pv.answers[j].name),
            decreases item.answers@.len() - i,
        {
            proof {
                assert(pv.answers[i as int] == item.answers@[i as int]@);
            }
            match self.encode_domain_name(item.answers[i].name.as_str(), &mut scratch) {
                Ok(()) => {},
                Err(e) => {
                    proof {
                        assert(!name_encodable(pv.answers[i as int].name));
                    }
                    return Err(e);
                },
            }
            i = i + 1;
        }
        assert(packet_encodable(pv));
        // Header, with the counters corrected to the true section sizes.
        let corrected = DnsPacketHeader {
            qdcount: (item.questions.len() % 0x10000) as u16,
            ancount: (item.answers.len() % 0x10000) as u16,
            ..item.header
        };
        self.encode_header(&corrected, dst);
        assert(corrected == corrected_header(pv));
        let ghost base = old(dst)@ + spec_encode_header(corrected_header(pv));
        // Questions.
        let mut i: usize = 0;
        while i < item.questions.len()
            invariant
                i <= item.questions@.len(),
                pv == item@,
                packet_encodable(pv),
                dst@ == base + spec_encode_questions(pv.questions.take(i as int)),
            decreases item.questions@.len() - i,
        {
            let q = &item.questions[i];
            proof {
                assert(pv.questions[i as int] == item.questions@[i as int]@);
                assert(q.name@ == pv.questions[i as int].name);
                assert(name_encodable(q.name@));
            }
            match self.encode_domain_name(q.name.as_str(), dst) {
                Ok(()) => {},
                Err(_) => {
                    proof {
                        assert(false);
                    }
                    return Err(DnsCodecError::InvalidDomainName(String::new()));
                },
            }
            push_be16(dst, q.qtype);
            push_be16(dst, q.qclass);
            proof {
                lemma_encode_questions_push(pv.questions.take(i as int), pv.questions[i as int]);
                assert(pv.questions.take(i as int).push(pv.questions[i as int]) =~= pv.questions
                    .take(i as int + 1));
                assert(dst@ =~= base + spec_encode_questions(pv.questions.take(i as int + 1)));
            }
            i = i + 1;
        }
        proof {
            assert(pv.questions.take(pv.questions.len() as int) =~= pv.questions);
        }
        let ghost base2 = base + spec_encode_questions(pv.questions);
        // Answers.
        let mut i: usize = 0;
        while i < item.answers.len()
            invariant
                i <= item.answers@.len(),
                pv == item@,
                packet_encodable(pv),
                dst@ == base2 + spec_encode_records(pv.answers.take(i as int)),
            decreases item.answers@.len() - i,
        {
            let a = &item.answers[i];
            proof {
                assert(pv.answers[i as int] == item.answers@[i as int]@);
                assert(a.name@ == pv.answers[i as int].name);
                assert(name_encodable(a.name@));
            }
            match self.encode_domain_name(a.name.as_str(), dst) {
                Ok(()) => {},
                Err(_) => {
                    proof {
                        assert(false);
                    }
                    return Err(DnsCodecError::InvalidDomainName(String::new()));
                },
            }
            push_be16(dst, a.rtype);
            push_be16(dst, a.rclass);
            push_be32(dst, a.ttl);
            push_be16(dst, (a.rdata.len() % 0x10000) as u16);
            let mut k: usize = 0;
            let ghost mid = dst@;
            while k < a.rdata.len()
                invariant
                    k <= a.rdata@.len(),
                    dst@ == mid + a.rdata@.take(k as int),
                decreases a.rdata@.len() - k,
            {
                dst.push(a.rdata[k]);
                assert(dst@ =~= mid + a.rdata@.take(k as int + 1));
                k = k + 1;
            }
            assert(dst@ =~= mid + a.rdata@);
            proof {
                lemma_encode_records_push(pv.answers.take(i as int), pv.answers[i as int]);
                assert(pv.answers.take(i as int).push(pv.answers[i as int]) =~= pv.answers.take(
                    i as int + 1,
                ));
                assert(dst@ =~= base2 + spec_encode_records(pv.answers.take(i as int + 1)));
            }
            i = i + 1;
        }
        proof {
            assert(pv.answers.take(pv.answers.len() as int) =~= pv.answers);
            assert(dst@ =~= old(dst)@ + spec_encode_packet(pv));
        }
        Ok(())
    }

    /// Decodes the leading bytes of a buffer. A buffer shorter than the 12
    /// header bytes yields `Ok(None)`: more data is needed. Malformed bytes
    /// yield a `ParseFailure`.
    pub fn decode(&self, src: &[u8]) -> (r: Result<Option<DnsPacket>, DnsCodecError>)
        ensures
            src@.len() < 12 ==> r == Ok::<Option<DnsPacket>, DnsCodecError>(None),
            src@.len() >= 12 ==> match crate::parsers::spec_decode_packet(src@) {
                Some(v) => r matches Ok(o) && o matches Some(p) && p@ == v.1,
                None => r matches Err(e) && e is ParseFailure,
            },
    {
        if src.len() < 12 {
            return Ok(None);
        }
        match crate::parsers::parse_dns_packet(src) {
            Ok(ok) => Ok(Some(ok.1)),
            Err(e) => Err(e),
        }
    }
}

} // verus!
