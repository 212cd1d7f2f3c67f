use vstd::prelude::*;
use crate::codec::{packet_encodable, spec_encode_packet, DnsCodec};
use crate::protocol::{DnsPacket, DnsPacketHeader, DnsQuestionView};
use crate::response_builder::{
    spec_build, spec_ip_record, spec_template_header, DnsResponseBuilder, IpData, ResponseBuilder,
    ResponseBuilderView, DNS_CLASS_IN, DNS_TYPE_A,
};

verus! {

/// Time to live, in seconds, for the answers the processor synthesizes.
pub const ANSWER_TTL: u32 = 60;

/// Starts the response for a decoded query: a fresh builder seeded from the
/// query, with the flags this server sends on every response: it is a
/// response, not authoritative, not advertising recursion, reserved bits
/// zero.
pub fn begin_response(query: &DnsPacket) -> (r: ResponseBuilder)
    ensures
        r@ == (ResponseBuilderView {
            header: (DnsPacketHeader { ra: false, ..spec_template_header() }),
            questions: Seq::<DnsQuestionView>::empty(),
            answers: Seq::empty(),
            query_id: query@.header.id,
            query_rd: query@.header.rd,
            query_opcode: query@.header.opcode,
            query_qdcount: query@.header.qdcount,
            query_questions: query@.questions,
        }),
{
    let builder = DnsResponseBuilder::new();
    builder.build_custom_response(query).with_qr(true).with_authoritative(false)
        .with_recursion_available(false).with_z(0)
}

/// Appends one address answer for `name` per resolved address, each with the
/// given time to live. With no addresses the builder comes back unchanged;
/// the question resolution failed on is then left without answers.
pub fn add_answers_for(rb: ResponseBuilder, name: &str, ips: &Vec<IpData>, ttl: u32) -> (r:
    ResponseBuilder)
    ensures
        r@.answers == rb@.answers + ips@.map(
            |j: int, ip: IpData| spec_ip_record(name@, ip, ttl),
        ),
        ips@.len() == 0 ==> r@ == rb@,
        ips@.len() > 0 ==> r@.questions == seq![
            DnsQuestionView { name: name@, qtype: DNS_TYPE_A, qclass: DNS_CLASS_IN },
        ],
        ips@.len() > 0 ==> r@.header == (DnsPacketHeader {
            qdcount: 1,
            ancount: ((rb@.answers.len() + ips@.len()) % 0x10000) as u16,
            ..rb@.header
        }),
        r@.query_id == rb@.query_id,
        r@.query_rd == rb@.query_rd,
        r@.query_opcode == rb@.query_opcode,
        r@.query_qdcount == rb@.query_qdcount,
        r@.query_questions == rb@.query_questions,
{
    let ghost orig = rb@;
    let ghost f = |j: int, ip: IpData| spec_ip_record(name@, ip, ttl);
    let mut out = rb;
    let mut i: usize = 0;
    while i < ips.len()
        invariant
            i <= ips@.len(),
            out@.answers == orig.answers + ips@.take(i as int).map(f),
            i == 0 ==> out@ == orig,
            i > 0 ==> out@.questions == seq![
                DnsQuestionView { name: name@, qtype: DNS_TYPE_A, qclass: DNS_CLASS_IN },
            ],
            i > 0 ==> out@.header == (DnsPacketHeader {
                qdcount: 1,
                ancount: ((orig.answers.len() + i) % 0x10000) as u16,
                ..orig.header
            }),
            out@.query_id == orig.query_id,
            out@.query_rd == orig.query_rd,
            out@.query_opcode == orig.query_opcode,
            out@.query_qdcount == orig.query_qdcount,
            out@.query_questions == orig.query_questions,
            f == (|j: int, ip: IpData| spec_ip_record(name@, ip, ttl)),
        decreases ips@.len() - i,
    {
        let ghost before = out@;
        out = out.with_an_answer(name, ips[i], ttl);
        proof {
            assert(ips@.take(i as int).map(f).len() == i);
            assert(before.answers.len() == orig.answers.len() + i);
            assert(ips@.take(i as int + 1).map(f) =~= ips@.take(i as int).map(f).push(
                spec_ip_record(name@, ips@[i as int], ttl),
            ));
            assert(out@.answers =~= orig.answers + ips@.take(i as int + 1).map(f));
        }
        i = i + 1;
    }
    proof {
        assert(ips@.take(ips@.len() as int) =~= ips@);
        assert(out@.answers =~= orig.answers + ips@.map(f));
    }
    out
}

/// The mailbox's reply for one lookup outcome: a failed lookup and an empty
/// address list collapse to the same "no answer" reply; addresses come back
/// as they arrived.
pub fn collapse_lookup(result: Option<Vec<IpData>>) -> (r: Option<Vec<IpData>>)
    ensures
        r is None <==> (result is None || result.unwrap()@.len() == 0),
        r matches Some(v) ==> v@ == result.unwrap()@,
{
    match result {
        Some(ips) => {
            if ips.len() == 0 {
                None
            } else {
                Some(ips)
            }
        },
        None => None,
    }
}

/// Builds and encodes the response. When the response cannot be put on the
/// wire, because a name holds a label over 63 bytes, the original query
/// bytes come back unchanged: the fallback echo.
pub fn finalize_response(rb: ResponseBuilder, original: &[u8]) -> (r: Vec<u8>)
    ensures
        packet_encodable(spec_build(rb@)) ==> r@ == spec_encode_packet(spec_build(rb@)),
        !packet_encodable(spec_build(rb@)) ==> r@ == original@,
{
    let ghost built = spec_build(rb@);
    let packet = rb.build();
    let codec = DnsCodec::new();
    let mut out: Vec<u8> = Vec::new();
    match codec.encode(packet, &mut out) {
        Ok(()) => {
            assert(out@ =~= spec_encode_packet(built));
            out
        },
        Err(_) => {
            let mut echo: Vec<u8> = Vec::new();
            let mut k: usize = 0;
            while k < original.len()
                invariant
                    k <= original@.len(),
                    echo@ == original@.take(k as int),
                decreases original@.len() - k,
            {
                echo.push(original[k]);
                assert(echo@ =~= original@.take(k as int + 1));
                k = k + 1;
            }
            assert(echo@ =~= original@);
            echo
        },
    }
}

} // verus!
