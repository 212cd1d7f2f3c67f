use rust_dns::codec::DnsCodec;
use rust_dns::protocol::{DnsPacket, DnsPacketHeader, DnsQuestion, DnsResourceRecord};

fn query_header(id: u16, qdcount: u16) -> DnsPacketHeader {
    DnsPacketHeader {
        id,
        qr: false,
        opcode: 0,
        aa: false,
        tc: false,
        rd: true,
        ra: false,
        z: 0,
        rcode: 0,
        qdcount,
        ancount: 0,
        nscount: 0,
        arcount: 0,
    }
}

#[test]
fn test_dns_codec_insufficient_bytes() {
    let codec = DnsCodec::new();
    let buf: Vec<u8> = b"short".to_vec();

    let result = codec.decode(&buf);
    assert!(result.is_ok());
    assert!(result.unwrap().is_none());
}

#[test]
fn test_dns_codec_empty_buffer() {
    let codec = DnsCodec::new();
    let buf: Vec<u8> = Vec::new();

    let result = codec.decode(&buf);
    assert!(result.is_ok());
    assert!(result.unwrap().is_none());
}

#[test]
fn test_dns_codec_encode_header() {
    let codec = DnsCodec::new();
    let mut buf: Vec<u8> = Vec::new();

    let header = DnsPacketHeader {
        id: 0x1234,
        qr: true,
        opcode: 0,
        aa: true,
        tc: false,
        rd: true,
        ra: true,
        z: 0,
        rcode: 0,
        qdcount: 1,
        ancount: 1,
        nscount: 0,
        arcount: 0,
    };

    let packet = DnsPacket { header, questions: vec![], answers: vec![] };

    let result = codec.encode(packet, &mut buf);
    assert!(result.is_ok());
    assert_eq!(buf.len(), 12);

    let bytes = &buf;

    // ID should be 0x1234.
    assert_eq!(bytes[0], 0x12);
    assert_eq!(bytes[1], 0x34);

    // Flags should have QR=1, AA=1, RD=1, RA=1: 0x8580.
    assert_eq!(bytes[2], 0x85);
    assert_eq!(bytes[3], 0x80);

    // QDCOUNT corrected from 1 to the true question count 0.
    assert_eq!(bytes[4], 0x00);
    assert_eq!(bytes[5], 0x00);

    // ANCOUNT corrected from 1 to the true answer count 0.
    assert_eq!(bytes[6], 0x00);
    assert_eq!(bytes[7], 0x00);
}

#[test]
fn test_dns_codec_encode_with_questions() {
    let codec = DnsCodec::new();
    let mut buf: Vec<u8> = Vec::new();

    let header = query_header(0x1234, 1);
    let question = DnsQuestion { name: "google.com".to_string(), qtype: 1, qclass: 1 };

    let packet = DnsPacket { header, questions: vec![question], answers: vec![] };

    let result = codec.encode(packet, &mut buf);
    assert!(result.is_ok());

    let bytes = &buf;

    assert_eq!(bytes[0], 0x12);
    assert_eq!(bytes[1], 0x34);

    // Flags: RD only.
    assert_eq!(bytes[2], 0x01);
    assert_eq!(bytes[3], 0x00);

    assert_eq!(bytes[4], 0x00);
    assert_eq!(bytes[5], 0x01);
    assert_eq!(bytes[6], 0x00);
    assert_eq!(bytes[7], 0x00);

    // "google.com" encoded as 6 "google" 3 "com" 0.
    assert_eq!(bytes[12], 6);
    assert_eq!(&bytes[13..19], b"google");
    assert_eq!(bytes[19], 3);
    assert_eq!(&bytes[20..23], b"com");
    assert_eq!(bytes[23], 0);

    // QTYPE A = 1.
    assert_eq!(bytes[24], 0x00);
    assert_eq!(bytes[25], 0x01);

    // QCLASS IN = 1.
    assert_eq!(bytes[26], 0x00);
    assert_eq!(bytes[27], 0x01);

    assert_eq!(bytes.len(), 28);
}

#[test]
fn test_dns_codec_encode_domain_name_edge_cases() {
    let codec = DnsCodec::new();
    let mut buf: Vec<u8> = Vec::new();

    let result = codec.encode_domain_name("example.com", &mut buf);
    assert!(result.is_ok());

    let expected = vec![
        7, b'e', b'x', b'a', b'm', b'p', b'l', b'e', // "example"
        3, b'c', b'o', b'm', // "com"
        0,    // terminator
    ];
    assert_eq!(&buf, &expected);

    // A trailing dot adds no empty label.
    buf.clear();
    let result = codec.encode_domain_name("test.org.", &mut buf);
    assert!(result.is_ok());

    let expected = vec![
        4, b't', b'e', b's', b't', // "test"
        3, b'o', b'r', b'g', // "org"
        0,    // terminator
    ];
    assert_eq!(&buf, &expected);
}

#[test]
fn test_dns_codec_round_trip_single_question() {
    let codec = DnsCodec::new();

    let original_packet = DnsPacket {
        header: query_header(0x1234, 1),
        questions: vec![DnsQuestion { name: "example.com".to_string(), qtype: 1, qclass: 1 }],
        answers: vec![],
    };

    let mut encoded_buf: Vec<u8> = Vec::new();
    let encode_result = codec.encode(original_packet.clone(), &mut encoded_buf);
    assert!(encode_result.is_ok());

    let decode_result = codec.decode(&encoded_buf);
    assert!(decode_result.is_ok());

    let decoded_packet = decode_result.unwrap().unwrap();

    assert_eq!(decoded_packet.header.id, original_packet.header.id);
    assert_eq!(decoded_packet.header.qr, original_packet.header.qr);
    assert_eq!(decoded_packet.header.rd, original_packet.header.rd);
    assert_eq!(decoded_packet.header.qdcount, original_packet.header.qdcount);
    assert_eq!(decoded_packet.questions.len(), original_packet.questions.len());

    for (decoded_q, original_q) in
        decoded_packet.questions.iter().zip(original_packet.questions.iter())
    {
        assert_eq!(decoded_q.name, original_q.name);
        assert_eq!(decoded_q.qtype, original_q.qtype);
        assert_eq!(decoded_q.qclass, original_q.qclass);
    }
}

#[test]
fn test_dns_codec_round_trip_multiple_questions() {
    let codec = DnsCodec::new();

    let original_packet = DnsPacket {
        header: query_header(0x5678, 2),
        questions: vec![
            DnsQuestion { name: "example.com".to_string(), qtype: 1, qclass: 1 },
            DnsQuestion { name: "test.org".to_string(), qtype: 28, qclass: 1 },
        ],
        answers: vec![],
    };

    let mut encoded_buf: Vec<u8> = Vec::new();
    let encode_result = codec.encode(original_packet.clone(), &mut encoded_buf);
    assert!(encode_result.is_ok());

    let decode_result = codec.decode(&encoded_buf);
    assert!(decode_result.is_ok());

    let decoded_packet = decode_result.unwrap().unwrap();

    assert_eq!(decoded_packet.header.id, original_packet.header.id);
    assert_eq!(decoded_packet.header.qr, original_packet.header.qr);
    assert_eq!(decoded_packet.header.rd, original_packet.header.rd);
    assert_eq!(decoded_packet.header.qdcount, original_packet.header.qdcount);
    assert_eq!(decoded_packet.questions.len(), original_packet.questions.len());

    for (decoded_q, original_q) in
        decoded_packet.questions.iter().zip(original_packet.questions.iter())
    {
        assert_eq!(decoded_q.name, original_q.name);
        assert_eq!(decoded_q.qtype, original_q.qtype);
        assert_eq!(decoded_q.qclass, original_q.qclass);
    }
}

#[test]
fn test_dns_codec_qdcount_correction() {
    let codec = DnsCodec::new();

    // The header's QDCOUNT of 99 disagrees with the three questions.
    let packet = DnsPacket {
        header: query_header(0x1234, 99),
        questions: vec![
            DnsQuestion { name: "example.com".to_string(), qtype: 1, qclass: 1 },
            DnsQuestion { name: "test.org".to_string(), qtype: 28, qclass: 1 },
            DnsQuestion { name: "foo.bar".to_string(), qtype: 1, qclass: 1 },
        ],
        answers: vec![],
    };

    let mut encoded_buf: Vec<u8> = Vec::new();
    let encode_result = codec.encode(packet, &mut encoded_buf);
    assert!(encode_result.is_ok());

    let bytes = &encoded_buf;

    let qdcount_encoded = u16::from_be_bytes([bytes[4], bytes[5]]);
    assert_eq!(
        qdcount_encoded, 3,
        "QDCOUNT should be corrected to match actual questions count"
    );

    let decode_result = codec.decode(&encoded_buf);
    assert!(decode_result.is_ok());

    let decoded_packet = decode_result.unwrap().unwrap();
    assert_eq!(decoded_packet.header.qdcount, 3);
    assert_eq!(decoded_packet.questions.len(), 3);
}

#[test]
fn test_dns_codec_encode_with_answers() {
    let codec = DnsCodec::new();
    let mut buf: Vec<u8> = Vec::new();

    let header = DnsPacketHeader {
        id: 0x5678,
        qr: true,
        opcode: 0,
        aa: true,
        tc: false,
        rd: true,
        ra: true,
        z: 0,
        rcode: 0,
        qdcount: 1,
        ancount: 1,
        nscount: 0,
        arcount: 0,
    };

    let question = DnsQuestion { name: "example.com".to_string(), qtype: 1, qclass: 1 };

    let answer = DnsResourceRecord::new(
        "example.com".to_string(),
        rust_dns::response_builder::DNS_TYPE_A,
        rust_dns::response_builder::DNS_CLASS_IN,
        300,
        vec![192, 168, 1, 1],
    );

    let packet = DnsPacket { header, questions: vec![question], answers: vec![answer] };

    let result = codec.encode(packet, &mut buf);
    assert!(result.is_ok());

    let bytes = &buf;

    assert_eq!(bytes[0], 0x56);
    assert_eq!(bytes[1], 0x78);

    // Flags: QR=1, AA=1, RD=1, RA=1: 0x8580.
    assert_eq!(bytes[2], 0x85);
    assert_eq!(bytes[3], 0x80);

    assert_eq!(bytes[4], 0x00);
    assert_eq!(bytes[5], 0x01);
    assert_eq!(bytes[6], 0x00);
    assert_eq!(bytes[7], 0x01);

    // Question section: 13 name bytes + 4 = 17; answers start at 29.
    let answer_start = 12 + 17;

    assert_eq!(bytes[answer_start], 7);
    assert_eq!(&bytes[answer_start + 1..answer_start + 8], b"example");
    assert_eq!(bytes[answer_start + 8], 3);
    assert_eq!(&bytes[answer_start + 9..answer_start + 12], b"com");
    assert_eq!(bytes[answer_start + 12], 0);

    let rtype_start = answer_start + 13;
    assert_eq!(bytes[rtype_start], 0x00);
    assert_eq!(bytes[rtype_start + 1], 0x01);

    assert_eq!(bytes[rtype_start + 2], 0x00);
    assert_eq!(bytes[rtype_start + 3], 0x01);

    let ttl_bytes = &bytes[rtype_start + 4..rtype_start + 8];
    let ttl = u32::from_be_bytes([ttl_bytes[0], ttl_bytes[1], ttl_bytes[2], ttl_bytes[3]]);
    assert_eq!(ttl, 300);

    assert_eq!(bytes[rtype_start + 8], 0x00);
    assert_eq!(bytes[rtype_start + 9], 0x04);

    assert_eq!(bytes[rtype_start + 10], 192);
    assert_eq!(bytes[rtype_start + 11], 168);
    assert_eq!(bytes[rtype_start + 12], 1);
    assert_eq!(bytes[rtype_start + 13], 1);

    assert_eq!(bytes.len(), 56);
}
