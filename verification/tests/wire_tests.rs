use rust_dns::codec::DnsCodec;
use rust_dns::errors::DnsCodecError;
use rust_dns::parsers::{parse_dns_packet, parse_dns_packet_header};
use rust_dns::processor::{add_answers_for, begin_response, finalize_response};
use rust_dns::protocol::{DnsPacket, DnsPacketHeader, DnsQuestion, DnsResourceRecord};
use rust_dns::response_builder::{DnsResponseBuilder, IpData};

fn query_header(id: u16, qdcount: u16) -> DnsPacketHeader {
    DnsPacketHeader {
        id,
        qr: false,
        opcode: 0,
        aa: false,
        tc: false,
        rd: true,
        ra: false,
        z: 0,
        rcode: 0,
        qdcount,
        ancount: 0,
        nscount: 0,
        arcount: 0,
    }
}

#[test]
fn test_empty_buffer_needs_twelve_bytes() {
    let buf: Vec<u8> = Vec::new();
    let result = parse_dns_packet(&buf);
    assert!(matches!(
        result,
        Err(DnsCodecError::IncompletePacket { needed: 12, available: 0 })
    ));
}

#[test]
fn test_eleven_byte_buffer_needs_twelve_bytes() {
    let buf: Vec<u8> = vec![0; 11];
    let result = parse_dns_packet(&buf);
    assert!(matches!(
        result,
        Err(DnsCodecError::IncompletePacket { needed: 12, available: 11 })
    ));
    let result = parse_dns_packet_header(&buf);
    assert!(matches!(
        result,
        Err(DnsCodecError::IncompletePacket { needed: 12, available: 11 })
    ));
}

#[test]
fn test_trailing_dot_encodes_identically() {
    let codec = DnsCodec::new();
    let mut with_dot: Vec<u8> = Vec::new();
    let mut without_dot: Vec<u8> = Vec::new();
    assert!(codec.encode_domain_name("test.org.", &mut with_dot).is_ok());
    assert!(codec.encode_domain_name("test.org", &mut without_dot).is_ok());
    assert_eq!(with_dot, without_dot);
}

#[test]
fn test_label_over_63_bytes_rejected() {
    let codec = DnsCodec::new();
    let long_label = "a".repeat(64);
    let name = format!("{}.com", long_label);
    let mut buf: Vec<u8> = Vec::new();
    let result = codec.encode_domain_name(&name, &mut buf);
    assert!(matches!(result, Err(DnsCodecError::InvalidDomainName(_))));
    // Nothing was written.
    assert!(buf.is_empty());

    // A 63-byte label is still fine.
    let ok_label = "a".repeat(63);
    let ok_name = format!("{}.com", ok_label);
    let result = codec.encode_domain_name(&ok_name, &mut buf);
    assert!(result.is_ok());
}

#[test]
fn test_header_only_encode_exact_bytes() {
    let codec = DnsCodec::new();
    let mut buf: Vec<u8> = Vec::new();
    let header = DnsPacketHeader {
        id: 0x1234,
        qr: true,
        opcode: 0,
        aa: true,
        tc: false,
        rd: true,
        ra: true,
        z: 0,
        rcode: 0,
        qdcount: 1,
        ancount: 1,
        nscount: 0,
        arcount: 0,
    };
    let packet = DnsPacket { header, questions: vec![], answers: vec![] };
    assert!(codec.encode(packet, &mut buf).is_ok());
    assert_eq!(
        buf,
        vec![0x12, 0x34, 0x85, 0x80, 0x00, 0x00, 0x00, 0x00, 0x00, 0x00, 0x00, 0x00]
    );
}

#[test]
fn test_single_a_query_encode_exact_bytes() {
    let codec = DnsCodec::new();
    let mut buf: Vec<u8> = Vec::new();
    let packet = DnsPacket {
        header: query_header(0x1234, 1),
        questions: vec![DnsQuestion { name: "google.com".to_string(), qtype: 1, qclass: 1 }],
        answers: vec![],
    };
    assert!(codec.encode(packet, &mut buf).is_ok());
    assert_eq!(
        buf,
        vec![
            0x12, 0x34, 0x01, 0x00, 0x00, 0x01, 0x00, 0x00, 0x00, 0x00, 0x00, 0x00, 0x06, 0x67,
            0x6f, 0x6f, 0x67, 0x6c, 0x65, 0x03, 0x63, 0x6f, 0x6d, 0x00, 0x00, 0x01, 0x00, 0x01,
        ]
    );
}

#[test]
fn test_decode_compressed_name() {
    // Header with two questions, then "abc" and a pointer back to it.
    let mut buf: Vec<u8> = vec![0x00, 0x01, 0x00, 0x00, 0x00, 0x02, 0x00, 0x00, 0x00, 0x00, 0x00, 0x00];
    buf.extend_from_slice(&[3, b'a', b'b', b'c', 0, 0x00, 0x01, 0x00, 0x01]);
    buf.extend_from_slice(&[0xC0, 12, 0x00, 0x1C, 0x00, 0x01]);

    let (consumed, packet) = parse_dns_packet(&buf).unwrap();
    assert_eq!(consumed, buf.len());
    assert_eq!(packet.questions.len(), 2);
    assert_eq!(packet.questions[0].name, "abc");
    assert_eq!(packet.questions[1].name, "abc");
    assert_eq!(packet.questions[1].qtype, 28);
}

#[test]
fn test_decoder_rejects_pointer_loop() {
    // A pointer at offset 12 that points at itself.
    let mut buf: Vec<u8> = vec![0x00, 0x01, 0x00, 0x00, 0x00, 0x01, 0x00, 0x00, 0x00, 0x00, 0x00, 0x00];
    buf.extend_from_slice(&[0xC0, 12, 0x00, 0x01, 0x00, 0x01]);
    let result = parse_dns_packet(&buf);
    assert!(matches!(result, Err(DnsCodecError::ParseFailure(_))));
}

#[test]
fn test_decoder_rejects_out_of_range_pointer() {
    let mut buf: Vec<u8> = vec![0x00, 0x01, 0x00, 0x00, 0x00, 0x01, 0x00, 0x00, 0x00, 0x00, 0x00, 0x00];
    buf.extend_from_slice(&[0xC3, 0xE8, 0x00, 0x01, 0x00, 0x01]);
    let result = parse_dns_packet(&buf);
    assert!(matches!(result, Err(DnsCodecError::ParseFailure(_))));
}

#[test]
fn test_decoder_rejects_reserved_length_bits() {
    // 0x40 has the top two bits 01: reserved.
    let mut buf: Vec<u8> = vec![0x00, 0x01, 0x00, 0x00, 0x00, 0x01, 0x00, 0x00, 0x00, 0x00, 0x00, 0x00];
    buf.extend_from_slice(&[0x40, 0x00, 0x00, 0x01, 0x00, 0x01]);
    let result = parse_dns_packet(&buf);
    assert!(matches!(result, Err(DnsCodecError::ParseFailure(_))));
}

#[test]
fn test_decoder_rejects_bad_utf8_label() {
    // A one-byte label 0xFF is not UTF-8.
    let mut buf: Vec<u8> = vec![0x00, 0x01, 0x00, 0x00, 0x00, 0x01, 0x00, 0x00, 0x00, 0x00, 0x00, 0x00];
    buf.extend_from_slice(&[1, 0xFF, 0, 0x00, 0x01, 0x00, 0x01]);
    let result = parse_dns_packet(&buf);
    assert!(matches!(result, Err(DnsCodecError::ParseFailure(_))));
}

#[test]
fn test_decoder_rejects_truncated_question() {
    // The name runs past the end of the datagram.
    let mut buf: Vec<u8> = vec![0x00, 0x01, 0x00, 0x00, 0x00, 0x01, 0x00, 0x00, 0x00, 0x00, 0x00, 0x00];
    buf.extend_from_slice(&[9, b'a', b'b']);
    let result = parse_dns_packet(&buf);
    assert!(matches!(result, Err(DnsCodecError::ParseFailure(_))));
}

#[test]
fn test_address_answer_payload_sizes() {
    let query = DnsPacket { header: query_header(7, 1), questions: vec![], answers: vec![] };
    let rb = begin_response(&query);
    let rb = add_answers_for(rb, "example.com", &vec![IpData::V4([10, 0, 0, 1])], 60);
    let rb = add_answers_for(
        rb,
        "example.com",
        &vec![IpData::V6([0x20, 0x01, 0x0d, 0xb8, 0, 0, 0, 0, 0, 0, 0, 0, 0, 0, 0, 2])],
        60,
    );
    let packet = rb.build();
    assert_eq!(packet.answers.len(), 2);
    assert_eq!(packet.answers[0].rtype, 1);
    assert_eq!(packet.answers[0].rdata.len(), 4);
    assert_eq!(packet.answers[0].rdlength, 4);
    assert_eq!(packet.answers[1].rtype, 28);
    assert_eq!(packet.answers[1].rdata.len(), 16);
    assert_eq!(packet.answers[1].rdlength, 16);
}

#[test]
fn test_processor_pipeline_builds_response() {
    // A query for google.com, as it would arrive on the wire.
    let codec = DnsCodec::new();
    let mut query_bytes: Vec<u8> = Vec::new();
    let query = DnsPacket {
        header: query_header(0x1234, 1),
        questions: vec![DnsQuestion { name: "google.com".to_string(), qtype: 1, qclass: 1 }],
        answers: vec![],
    };
    assert!(codec.encode(query, &mut query_bytes).is_ok());

    let decoded = codec.decode(&query_bytes).unwrap().unwrap();
    let mut rb = begin_response(&decoded);
    for q in decoded.questions.iter() {
        let ips = vec![IpData::V4([1, 1, 1, 1]), IpData::V4([8, 8, 8, 8])];
        rb = add_answers_for(rb, &q.name, &ips, 60);
    }
    let out = finalize_response(rb, &query_bytes);

    // The response echoes the identifier and flips the response bit; it does
    // not advertise recursion.
    let response = codec.decode(&out).unwrap().unwrap();
    assert_eq!(response.header.id, 0x1234);
    assert!(response.header.qr);
    assert!(!response.header.ra);
    assert!(response.header.rd);
    assert_eq!(response.header.qdcount, 1);
    assert_eq!(response.header.ancount, 2);
    assert_eq!(response.questions.len(), 1);
    assert_eq!(response.questions[0].name, "google.com");

    // The answer counter on the wire holds the true answer count.
    assert_eq!(u16::from_be_bytes([out[6], out[7]]), 2);
}

#[test]
fn test_processor_falls_back_to_echo() {
    let query = DnsPacket { header: query_header(42, 1), questions: vec![], answers: vec![] };
    let original: Vec<u8> = vec![0xAB; 20];
    let long_label = "x".repeat(70);
    let rb = begin_response(&query).with_question(&long_label, 1, 1);
    let out = finalize_response(rb, &original);
    assert_eq!(out, original);
}

#[test]
fn test_resolution_failure_leaves_no_answers() {
    let codec = DnsCodec::new();
    let mut query_bytes: Vec<u8> = Vec::new();
    let query = DnsPacket {
        header: query_header(9, 1),
        questions: vec![DnsQuestion { name: "nosuch.example".to_string(), qtype: 1, qclass: 1 }],
        answers: vec![],
    };
    assert!(codec.encode(query, &mut query_bytes).is_ok());
    let decoded = codec.decode(&query_bytes).unwrap().unwrap();

    let mut rb = begin_response(&decoded);
    for q in decoded.questions.iter() {
        // The lookup yielded nothing: no answers are added.
        let ips: Vec<IpData> = Vec::new();
        rb = add_answers_for(rb, &q.name, &ips, 60);
    }
    let out = finalize_response(rb, &query_bytes);
    let response = codec.decode(&out).unwrap().unwrap();
    assert_eq!(response.header.id, 9);
    assert!(response.header.qr);
    assert_eq!(u16::from_be_bytes([out[6], out[7]]), 0);
    assert_eq!(response.questions.len(), 1);
    assert_eq!(response.questions[0].name, "nosuch.example");
}

#[test]
fn test_unicode_name_round_trip() {
    let codec = DnsCodec::new();
    let packet = DnsPacket {
        header: query_header(3, 1),
        questions: vec![DnsQuestion { name: "b\u{00FC}cher.example".to_string(), qtype: 1, qclass: 1 }],
        answers: vec![],
    };
    let mut buf: Vec<u8> = Vec::new();
    assert!(codec.encode(packet, &mut buf).is_ok());
    let decoded = codec.decode(&buf).unwrap().unwrap();
    assert_eq!(decoded.questions[0].name, "b\u{00FC}cher.example");
}

#[test]
fn test_trailing_dot_normalizes_through_round_trip() {
    let codec = DnsCodec::new();
    let packet = DnsPacket {
        header: query_header(5, 1),
        questions: vec![DnsQuestion { name: "test.org.".to_string(), qtype: 1, qclass: 1 }],
        answers: vec![],
    };
    let mut buf: Vec<u8> = Vec::new();
    assert!(codec.encode(packet, &mut buf).is_ok());
    let decoded = codec.decode(&buf).unwrap().unwrap();
    assert_eq!(decoded.questions[0].name, "test.org");
}

#[test]
fn test_build_domain_response() {
    let mut builder = DnsResponseBuilder::new();
    let record = DnsResourceRecord::new(
        "example.com".to_string(),
        1,
        1,
        120,
        vec![10, 0, 0, 7],
    );
    let response = builder.build_domain_response("example.com", record, 4242);

    assert_eq!(response.header.id, 4242);
    assert_eq!(response.header.qdcount, 1);
    assert_eq!(response.header.ancount, 1);
    assert_eq!(response.questions.len(), 1);
    assert_eq!(response.questions[0].name, "example.com");
    assert_eq!(response.questions[0].qtype, 1);
    assert_eq!(response.questions[0].qclass, 1);
    assert_eq!(response.answers.len(), 1);
    assert_eq!(response.answers[0].rdlength, 4);
    assert_eq!(response.answers[0].rdata, vec![10, 0, 0, 7]);
}
