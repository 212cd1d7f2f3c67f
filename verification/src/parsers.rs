use vstd::prelude::*;
use crate::errors::DnsCodecError;
use crate::names::{
    labels_name_valid, parse_name_labels, labels_to_name, spec_labels_name, spec_parse_name,
    MAX_POINTER_DEPTH,
};
use crate::protocol::{DnsPacket, DnsPacketHeader, DnsPacketView, DnsQuestion, DnsQuestionView};

verus! {

/// The big-endian 16-bit value at byte offset `i`.
pub open spec fn spec_be16_at(data: Seq<u8>, i: int) -> u16 {
    ((data[i] as int) * 256 + (data[i + 1] as int)) as u16
}

/// The header the first 12 bytes spell: the identifier, the flags word taken
/// apart bit by bit, and the four section counters.
pub open spec fn spec_parse_header(data: Seq<u8>) -> DnsPacketHeader
    recommends
        data.len() >= 12,
{
    let flags = spec_be16_at(data, 2);
    DnsPacketHeader {
        id: spec_be16_at(data, 0),
        qr: (flags & 0x8000) != 0,
        opcode: ((flags & 0x7800) >> 11) as u8,
        aa: (flags & 0x0400) != 0,
        tc: (flags & 0x0200) != 0,
        rd: (flags & 0x0100) != 0,
        ra: (flags & 0x0080) != 0,
        z: ((flags & 0x0070) >> 4) as u8,
        rcode: (flags & 0x000F) as u8,
        qdcount: spec_be16_at(data, 4),
        ancount: spec_be16_at(data, 6),
        nscount: spec_be16_at(data, 8),
        arcount: spec_be16_at(data, 10),
    }
}

/// What parsing one question at `pos` yields: a name, then the type and the
/// class as big-endian 16-bit values.
pub open spec fn spec_parse_question(data: Seq<u8>, pos: int) -> Option<(int, DnsQuestionView)> {
    match spec_parse_name(data, pos, MAX_POINTER_DEPTH as int) {
        Some(r) => {
            if labels_name_valid(r.1) && r.0 + 4 <= data.len() {
                Some(
                    (
                        r.0 + 4,
                        DnsQuestionView {
                            name: spec_labels_name(r.1),
                            qtype: spec_be16_at(data, r.0),
                            qclass: spec_be16_at(data, r.0 + 2),
                        },
                    ),
                )
            } else {
                None
            }
        },
        None => None,
    }
}

/// What parsing `n` questions in a row at `pos` yields.
pub open spec fn spec_parse_questions(data: Seq<u8>, pos: int, n: int) -> Option<
    (int, Seq<DnsQuestionView>),
>
    decreases n,
{
    if n <= 0 {
        Some((pos, Seq::<DnsQuestionView>::empty()))
    } else {
        match spec_parse_question(data, pos) {
            Some(r) => match spec_parse_questions(data, r.0, n - 1) {
                Some(rr) => Some((rr.0, seq![r.1] + rr.1)),
                None => None,
            },
            None => None,
        }
    }
}

/// What decoding a whole datagram yields: the header read as it stands, the
/// `qdcount` questions that follow it, and no answers, which this decoder
/// leaves unparsed. `None` stands for every malformed case once at least the
/// 12 header bytes are there.
pub open spec fn spec_decode_packet(data: Seq<u8>) -> Option<(int, DnsPacketView)> {
    if data.len() < 12 {
        None
    } else {
        let h = spec_parse_header(data);
        match spec_parse_questions(data, 12, h.qdcount as int) {
            Some(r) => Some(
                (
                    r.0,
                    DnsPacketView {
                        header: h,
                        questions: r.1,
                        answers: Seq::empty(),
                    },
                ),
            ),
            None => None,
        }
    }
}

/// A successful question parse moves forward and stays inside the packet.
pub proof fn lemma_parse_question_bounds(data: Seq<u8>, pos: int)
    requires
        spec_parse_question(data, pos) is Some,
    ensures
        pos < spec_parse_question(data, pos).unwrap().0 <= data.len(),
{
    crate::names::lemma_parse_name_bounds(data, pos, MAX_POINTER_DEPTH as int);
}

fn read_be16(data: &[u8], i: usize) -> (r: u16)
    requires
        i + 2 <= data@.len(),
    ensures
        r == spec_be16_at(data@, i as int),
{
    (data[i] as u16) * 256 + (data[i + 1] as u16)
}

/// Reads the 12-byte header; on shorter input reports how many bytes a
/// header needs and how many are there.
pub fn parse_dns_packet_header(input: &[u8]) -> (r: Result<
    (usize, DnsPacketHeader),
    DnsCodecError,
>)
    ensures
        input@.len() < 12 ==> r == Err::<(usize, DnsPacketHeader), DnsCodecError>(
            DnsCodecError::IncompletePacket { needed: 12, available: input@.len() as usize },
        ),
        input@.len() >= 12 ==> r == Ok::<(usize, DnsPacketHeader), DnsCodecError>(
            (12usize, spec_parse_header(input@)),
        ),
{
    if input.len() < 12 {
        return Err(DnsCodecError::IncompletePacket { needed: 12, available: input.len() });
    }
    let flags = read_be16(input, 2);
    let header = DnsPacketHeader {
        id: read_be16(input, 0),
        qr: (flags & 0x8000) != 0,
        opcode: ((flags & 0x7800) >> 11) as u8,
        aa: (flags & 0x0400) != 0,
        tc: (flags & 0x0200) != 0,
        rd: (flags & 0x0100) != 0,
        ra: (flags & 0x0080) != 0,
        z: ((flags & 0x0070) >> 4) as u8,
        rcode: (flags & 0x000F) as u8,
        qdcount: read_be16(input, 4),
        ancount: read_be16(input, 6),
        nscount: read_be16(input, 8),
        arcount: read_be16(input, 10),
    };
    Ok((12, header))
}

/// Parses one question at `pos`: a domain name, then type and class.
fn parse_dns_question(data: &[u8], pos: usize) -> (r: Result<(usize, DnsQuestion), DnsCodecError>)
    ensures
        match spec_parse_question(data@, pos as int) {
            Some(v) => r matches Ok(ok) && ok.0 == v.0 && ok.1@ == v.1,
            None => r matches Err(e) && e is ParseFailure,
        },
{
    let (end, labels) = match parse_name_labels(data, pos, MAX_POINTER_DEPTH) {
        Ok(ok) => ok,
        Err(e) => {
            return Err(e);
        },
    };
    proof {
        crate::names::lemma_parse_name_bounds(data@, pos as int, MAX_POINTER_DEPTH as int);
    }
    let name = match labels_to_name(&labels) {
        Ok(s) => s,
        Err(e) => {
            return Err(e);
        },
    };
    if data.len() - end < 4 {
        return Err(
            DnsCodecError::ParseFailure("question runs past the end of the packet".to_owned()),
        );
    }
    let qtype = read_be16(data, end);
    let qclass = read_be16(data, end + 2);
    Ok((end + 4, DnsQuestion { name, qtype, qclass }))
}

/// Parses a whole datagram: the header, then `qdcount` questions. Answers
/// are not parsed; the answer section of the result is always empty.
pub fn parse_dns_packet(input: &[u8]) -> (r: Result<(usize, DnsPacket), DnsCodecError>)
    ensures
        input@.len() < 12 ==> (r matches Err(e) && e == (DnsCodecError::IncompletePacket {
            needed: 12,
            available: input@.len() as usize,
        })),
        input@.len() >= 12 ==> match spec_decode_packet(input@) {
            Some(v) => r matches Ok(ok) && ok.0 == v.0 && ok.1@ == v.1 && v.0 <= input@.len(),
            None => r matches Err(e) && e is ParseFailure,
        },
{
    let (mut pos, header) = match parse_dns_packet_header(input) {
        Ok(ok) => ok,
        Err(e) => {
            return Err(e);
        },
    };
    let qd = header.qdcount;
    let mut questions: Vec<DnsQuestion> = Vec::new();
    let mut i: u16 = 0;
    while i < qd
        invariant
            i <= qd,
            input@.len() >= 12,
            pos <= input@.len(),
            header == spec_parse_header(input@),
            qd == header.qdcount,
            questions@.len() == i,
            spec_parse_questions(input@, 12, qd as int) == (match spec_parse_questions(
                input@,
                pos as int,
                qd as int - i as int,
            ) {
                Some(rr) => Some((rr.0, questions.deep_view() + rr.1)),
                None => None::<(int, Seq<DnsQuestionView>)>,
            }),
        decreases qd - i,
    {
        let ghost remaining = spec_parse_questions(input@, pos as int, qd as int - i as int);
        match parse_dns_question(input, pos) {
            Ok(ok) => {
                let (next, q) = ok;
                proof {
                    lemma_parse_question_bounds(input@, pos as int);
                    let v = spec_parse_question(input@, pos as int).unwrap();
                    let tail = spec_parse_questions(input@, v.0, qd as int - i as int - 1);
                    if tail is Some {
                        assert(questions.deep_view().push(q@) + tail.unwrap().1
                            =~= questions.deep_view() + (seq![v.1] + tail.unwrap().1));
                    }
                }
                questions.push(q);
                pos = next;
            },
            Err(e) => {
                proof {
                    assert(spec_parse_questions(input@, pos as int, qd as int - i as int) is None);
                    assert(spec_parse_questions(input@, 12, qd as int) is None);
                    assert(spec_decode_packet(input@) is None);
                }
                return Err(e);
            },
        }
        i = i + 1;
    }
    proof {
        assert(spec_parse_questions(input@, pos as int, 0) == Some(
            (pos as int, Seq::<DnsQuestionView>::empty()),
        ));
        assert(questions.deep_view() + Seq::<DnsQuestionView>::empty() =~= questions.deep_view());
    }
    let packet = DnsPacket { header, questions, answers: Vec::new() };
    proof {
        assert(packet@.answers =~~= Seq::empty());
    }
    Ok((pos, packet))
}

} // verus!
