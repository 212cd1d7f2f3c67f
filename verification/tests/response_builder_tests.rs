use rust_dns::protocol::{DnsPacket, DnsPacketHeader};
use rust_dns::response_builder::{
    DnsResponseBuilder, IpData, DNS_TYPE_A, DNS_TYPE_AAAA, DNS_TYPE_CNAME, DNS_TYPE_MX,
    DNS_TYPE_TXT,
};

fn mock_query(id: u16) -> DnsPacket {
    DnsPacket {
        header: DnsPacketHeader {
            id,
            qr: false,
            opcode: 0,
            aa: false,
            tc: false,
            rd: true,
            ra: false,
            z: 0,
            rcode: 0,
            qdcount: 1,
            ancount: 0,
            nscount: 0,
            arcount: 0,
        },
        questions: vec![],
        answers: vec![],
    }
}

#[test]
fn test_response_builder() {
    let mut builder = DnsResponseBuilder::new();

    let query = mock_query(1234);

    let response = builder.build_response(&query);

    assert_eq!(response.header.id, 1234);
    assert!(response.header.qr);
    assert!(response.header.ra);
    assert_eq!(response.header.ancount, 1);
}

#[test]
fn test_fluent_builder() {
    let builder = DnsResponseBuilder::new();

    let query = mock_query(5678);

    let response = builder
        .build_custom_response(&query)
        .with_rcode(3) // NXDOMAIN
        .with_authoritative(true)
        .build();

    assert_eq!(response.header.rcode, 3);
    assert!(response.header.aa);
}

#[test]
fn test_fluent_builder_with_custom_domain() {
    let builder = DnsResponseBuilder::new();

    let query = mock_query(9999);

    let response = builder
        .build_custom_response(&query)
        .with_a_record("example.com")
        .with_authoritative(true)
        .with_rcode(0)
        .build();

    assert_eq!(response.header.id, 9999);
    assert!(response.header.aa);
    assert_eq!(response.header.rcode, 0);
    assert_eq!(response.questions.len(), 1);
    assert_eq!(response.questions[0].name, "example.com");
    assert_eq!(response.questions[0].qtype, DNS_TYPE_A);
}

#[test]
fn test_different_record_types() {
    let builder = DnsResponseBuilder::new();

    let query = mock_query(1111);

    let response = builder.build_custom_response(&query).with_aaaa_record("ipv6.google.com").build();
    assert_eq!(response.questions[0].qtype, DNS_TYPE_AAAA);

    let response = builder.build_custom_response(&query).with_cname_record("www.example.com").build();
    assert_eq!(response.questions[0].qtype, DNS_TYPE_CNAME);

    let response = builder.build_custom_response(&query).with_mx_record("mail.example.com").build();
    assert_eq!(response.questions[0].qtype, DNS_TYPE_MX);

    let response = builder
        .build_custom_response(&query)
        .with_txt_record("verification.example.com")
        .build();
    assert_eq!(response.questions[0].qtype, DNS_TYPE_TXT);
}

#[test]
fn test_answer_records() {
    let query = mock_query(2222);

    // A record answer.
    let builder1 = DnsResponseBuilder::new();
    let response = builder1
        .build_custom_response(&query)
        .with_a_record("example.com")
        .with_an_answer("example.com", IpData::V4([192, 168, 1, 1]), 300)
        .build();

    assert_eq!(response.answers.len(), 1);
    assert_eq!(response.answers[0].name, "example.com");
    assert_eq!(response.answers[0].rtype, DNS_TYPE_A);
    assert_eq!(response.answers[0].ttl, 300);
    assert_eq!(response.answers[0].rdata, vec![192, 168, 1, 1]);
    assert_eq!(response.header.ancount, 1);

    // AAAA record answer: 2001:db8::1.
    let builder2 = DnsResponseBuilder::new();
    let response = builder2
        .build_custom_response(&query)
        .with_aaaa_answer(
            "ipv6.example.com",
            [0x20, 0x01, 0x0d, 0xb8, 0, 0, 0, 0, 0, 0, 0, 0, 0, 0, 0, 1],
            600,
        )
        .build();

    assert_eq!(response.answers.len(), 1);
    assert_eq!(response.answers[0].rtype, DNS_TYPE_AAAA);
    assert_eq!(response.answers[0].ttl, 600);

    // CNAME record answer.
    let builder3 = DnsResponseBuilder::new();
    let response = builder3
        .build_custom_response(&query)
        .with_cname_record("www.example.com")
        .with_cname_answer("www.example.com", "example.com", 1800)
        .build();

    assert_eq!(response.answers.len(), 1);
    assert_eq!(response.answers[0].rtype, DNS_TYPE_CNAME);
    assert_eq!(response.answers[0].ttl, 1800);

    // TXT record answer.
    let builder4 = DnsResponseBuilder::new();
    let response = builder4
        .build_custom_response(&query)
        .with_txt_record("verification.example.com")
        .with_txt_answer(
            "verification.example.com",
            "v=spf1 include:_spf.google.com ~all",
            3600,
        )
        .build();

    assert_eq!(response.answers.len(), 1);
    assert_eq!(response.answers[0].rtype, DNS_TYPE_TXT);
    assert_eq!(response.answers[0].ttl, 3600);

    // MX record answer.
    let builder5 = DnsResponseBuilder::new();
    let response = builder5
        .build_custom_response(&query)
        .with_mx_record("example.com")
        .with_mx_answer("example.com", 10, "mail.example.com", 7200)
        .build();

    assert_eq!(response.answers.len(), 1);
    assert_eq!(response.answers[0].rtype, DNS_TYPE_MX);
    assert_eq!(response.answers[0].ttl, 7200);
    // The first two data bytes hold the priority, big-endian.
    assert_eq!(response.answers[0].rdata[0], 0);
    assert_eq!(response.answers[0].rdata[1], 10);
}

#[test]
fn test_answers_only_selects_explicit_mode() {
    // Adding an answer without any question must not fall back to the
    // default echo: the response carries the accumulated (empty) question
    // list and the derived response code.
    let builder = DnsResponseBuilder::new();

    let query = mock_query(7777);

    let response = builder
        .build_custom_response(&query)
        .with_cname_answer("www.example.com", "example.com", 1800)
        .build();

    assert_eq!(response.header.id, 7777);
    assert!(response.header.rd);
    assert_eq!(response.header.opcode, 0);
    assert_eq!(response.header.rcode, 0);
    assert_eq!(response.questions.len(), 0);
    assert_eq!(response.header.ancount, 1);
    assert_eq!(response.answers.len(), 1);
    assert_eq!(response.answers[0].rtype, DNS_TYPE_CNAME);

    // A non-standard query opcode turns into a not-implemented code.
    let mut odd_query = mock_query(7778);
    odd_query.header.opcode = 2;
    let response = DnsResponseBuilder::new()
        .build_custom_response(&odd_query)
        .with_txt_answer("example.com", "hello", 60)
        .build();
    assert_eq!(response.header.opcode, 2);
    assert_eq!(response.header.rcode, 4);
    assert_eq!(response.questions.len(), 0);
    assert_eq!(response.answers.len(), 1);
}
