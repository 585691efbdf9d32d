//! Tests of the DNS wire codec: fixture queries, round trips, and a
//! comparison against an independent DNS library.

use doh_gateway::dns::{
    DnsEdns, DnsMessage, DnsMessageType, DnsQuery, DnsRData, DnsRecord, DnsRecordType,
    check_dns_name,
};
use doh_gateway::wire::{encode_of_decoded, message_from_bytes, message_to_bytes};

fn query_fixture(id: u16, name: &str, qtype: DnsRecordType, edns_cookie: bool) -> Vec<u8> {
    let mut msg = DnsMessage::new();
    msg.id = id;
    msg.message_type = DnsMessageType::Query;
    msg.recursion_desired = true;
    msg.queries.push(DnsQuery::query(String::from(name), qtype));
    if edns_cookie {
        msg.edns = Some(DnsEdns {
            payload_size: 4096,
            ext_rcode: 0,
            version: 0,
            flags: 0,
            options: vec![(10, vec![0xde, 0xad, 0xbe, 0xef, 0x01, 0x02, 0x03, 0x04])],
        });
    }
    message_to_bytes(&msg).unwrap()
}

#[test]
fn should_deserialize_udp_query_example_com() {
    let buf = query_fixture(0x1234, "example.com.", DnsRecordType::A, true);
    let dns_req_result = message_from_bytes(&buf);

    assert!(dns_req_result.is_ok());
    let dns_req = dns_req_result.unwrap();

    assert_eq!(dns_req.message_type, DnsMessageType::Query);
    assert!(dns_req.id > 0);
    assert_eq!(dns_req.queries.len(), 1);
    assert_eq!(dns_req.answers.len(), 0);
    assert_eq!(dns_req.name_servers.len(), 0);
    assert_eq!(dns_req.additionals.len(), 0);

    let dns_query = &(dns_req.queries)[0];
    assert_eq!(dns_query.query_type, DnsRecordType::A);
    assert_eq!(dns_query.query_class, 1);
    assert_eq!(dns_query.name, "example.com.");

    assert!(dns_req.edns.is_some());
    let edns = dns_req.edns.unwrap();
    assert_eq!(edns.version, 0);
    assert_eq!(edns.options.len(), 1);
    assert!(edns.option(10).is_some());
}

#[test]
fn should_deserialize_udp_query_noedns_example_com() {
    let buf = query_fixture(0x2b67, "example.com.", DnsRecordType::A, false);
    let dns_req_result = message_from_bytes(&buf);

    assert!(dns_req_result.is_ok());
    let dns_req = dns_req_result.unwrap();

    assert_eq!(dns_req.message_type, DnsMessageType::Query);
    assert!(dns_req.id > 0);
    assert_eq!(dns_req.queries.len(), 1);
    assert_eq!(dns_req.answers.len(), 0);
    assert_eq!(dns_req.name_servers.len(), 0);
    assert_eq!(dns_req.additionals.len(), 0);

    let dns_query = &(dns_req.queries)[0];
    assert_eq!(dns_query.query_type, DnsRecordType::A);
    assert_eq!(dns_query.query_class, 1);
    assert_eq!(dns_query.name, "example.com.");

    assert!(dns_req.edns.is_none());
}

#[test]
fn should_deserialize_udp_query_aaaa_www_ivandemarino_me() {
    let buf = query_fixture(0x5678, "www.ivandemarino.me.", DnsRecordType::AAAA, true);
    let dns_req_result = message_from_bytes(&buf);

    assert!(dns_req_result.is_ok());
    let dns_req = dns_req_result.unwrap();

    assert_eq!(dns_req.message_type, DnsMessageType::Query);
    assert!(dns_req.id > 0);
    assert_eq!(dns_req.queries.len(), 1);
    assert_eq!(dns_req.answers.len(), 0);
    assert_eq!(dns_req.name_servers.len(), 0);

    let dns_query = &(dns_req.queries)[0];
    assert_eq!(dns_query.query_type, DnsRecordType::AAAA);
    assert_eq!(dns_query.query_class, 1);
    assert_eq!(dns_query.name, "www.ivandemarino.me.");

    assert!(dns_req.edns.is_some());
    let edns = dns_req.edns.unwrap();
    assert_eq!(edns.version, 0);
    assert_eq!(edns.options.len(), 1);
    assert!(edns.option(10).is_some());
}

#[test]
fn decode_then_encode_is_identity_on_bytes() {
    let buf = query_fixture(0x1234, "example.com.", DnsRecordType::A, true);
    assert_eq!(encode_of_decoded(&buf).unwrap(), buf);

    let mut response = DnsMessage::new();
    response.id = 0x1234;
    response.message_type = DnsMessageType::Response;
    response.authoritative = true;
    response.recursion_desired = true;
    response.recursion_available = true;
    response.queries.push(DnsQuery::query(String::from("example.com."), DnsRecordType::A));
    response.answers.push(DnsRecord::from_rdata(
        String::from("example.com."),
        3600,
        DnsRecordType::A,
        DnsRData::A(vec![93, 184, 216, 34]),
    ));
    response.answers.push(DnsRecord::from_rdata(
        String::from("www.example.com."),
        3600,
        DnsRecordType::CNAME,
        DnsRData::CNAME(String::from("example.com.")),
    ));
    let bytes = message_to_bytes(&response).unwrap();
    assert_eq!(encode_of_decoded(&bytes).unwrap(), bytes);

    let decoded = message_from_bytes(&bytes).unwrap();
    assert_eq!(decoded, response);
}

#[test]
fn root_name_round_trips() {
    let mut msg = DnsMessage::new();
    msg.queries.push(DnsQuery::query(String::from("."), DnsRecordType::NS));
    let bytes = message_to_bytes(&msg).unwrap();
    let decoded = message_from_bytes(&bytes).unwrap();
    assert_eq!(decoded.queries[0].name, ".");
    assert_eq!(encode_of_decoded(&bytes).unwrap(), bytes);
}

#[test]
fn malformed_bytes_are_rejected() {
    assert!(message_from_bytes(&[]).is_err());
    assert!(message_from_bytes(&[0u8; 5]).is_err());
    // a header announcing a question that is not there
    let mut short = vec![0x12, 0x34, 0x01, 0x00, 0x00, 0x01, 0, 0, 0, 0, 0, 0];
    assert!(message_from_bytes(&short).is_err());
    // a name using a compression pointer is refused rather than mis-read
    short = vec![
        0x12, 0x34, 0x01, 0x00, 0x00, 0x01, 0, 0, 0, 0, 0, 0, 0xC0, 0x0C, 0, 1, 0, 1,
    ];
    assert!(message_from_bytes(&short).is_err());
}

#[test]
fn unserializable_message_is_refused() {
    let mut msg = DnsMessage::new();
    msg.queries.push(DnsQuery::query(String::from("no-trailing-dot"), DnsRecordType::A));
    assert!(message_to_bytes(&msg).is_err());

    let mut msg = DnsMessage::new();
    msg.op_code = 31;
    assert!(message_to_bytes(&msg).is_err());
}

#[test]
fn name_well_formedness_edges() {
    assert!(check_dns_name("."));
    assert!(check_dns_name("a."));
    assert!(check_dns_name("example.com."));
    assert!(!check_dns_name(""));
    assert!(!check_dns_name("example.com"));
    assert!(!check_dns_name("a..b."));
    assert!(!check_dns_name("exa mple.com."));
    let label_63 = format!("{}.", "a".repeat(63));
    assert!(check_dns_name(&label_63));
    let label_64 = format!("{}.", "a".repeat(64));
    assert!(!check_dns_name(&label_64));
    let mut long = String::new();
    for _ in 0..63 {
        long.push_str("abc.");
    }
    assert_eq!(long.len(), 252);
    assert!(check_dns_name(&long));
    long.push_str("abcd.");
    assert!(!check_dns_name(&long));
}

#[test]
fn record_type_numeric_round_trip() {
    for code in [1u16, 2, 5, 12, 28, 41, 99, 257, 65535] {
        assert_eq!(DnsRecordType::from_u16(code).to_u16(), code);
    }
    assert_eq!(DnsRecordType::from_u16(1), DnsRecordType::A);
    assert_eq!(DnsRecordType::from_u16(28), DnsRecordType::AAAA);
    assert_eq!(DnsRecordType::from_u16(5), DnsRecordType::CNAME);
    assert_eq!(DnsRecordType::from_u16(2), DnsRecordType::NS);
    assert_eq!(DnsRecordType::from_u16(12), DnsRecordType::PTR);
    assert_eq!(DnsRecordType::from_u16(41), DnsRecordType::OPT);
    assert_eq!(DnsRecordType::from_u16(16), DnsRecordType::Unknown(16));
}

#[test]
fn codec_agrees_with_independent_dns_library() {
    // a query built by trust-dns decodes identically here, and re-encodes
    // to the same bytes
    let mut their_msg = trust_dns_proto::op::Message::new();
    their_msg.set_id(0xBEEF);
    their_msg.set_message_type(trust_dns_proto::op::MessageType::Query);
    their_msg.set_recursion_desired(true);
    their_msg.add_query(trust_dns_proto::op::Query::query(
        trust_dns_proto::rr::domain::Name::from_ascii("example.com.").unwrap(),
        trust_dns_proto::rr::record_type::RecordType::A,
    ));
    let their_bytes = their_msg.to_vec().unwrap();

    let ours = message_from_bytes(&their_bytes).unwrap();
    assert_eq!(ours.id, 0xBEEF);
    assert_eq!(ours.message_type, DnsMessageType::Query);
    assert!(ours.recursion_desired);
    assert_eq!(ours.queries.len(), 1);
    assert_eq!(ours.queries[0].name, "example.com.");
    assert_eq!(ours.queries[0].query_type, DnsRecordType::A);
    assert_eq!(message_to_bytes(&ours).unwrap(), their_bytes);

    // a response built here is read back identically by trust-dns
    let mut our_msg = DnsMessage::new();
    our_msg.id = 0x0A0B;
    our_msg.message_type = DnsMessageType::Response;
    our_msg.authoritative = true;
    our_msg.queries.push(DnsQuery::query(String::from("example.com."), DnsRecordType::A));
    our_msg.answers.push(DnsRecord::from_rdata(
        String::from("example.com."),
        60,
        DnsRecordType::A,
        DnsRData::A(vec![1, 2, 3, 4]),
    ));
    let our_bytes = message_to_bytes(&our_msg).unwrap();

    let theirs = trust_dns_proto::op::Message::from_vec(&our_bytes).unwrap();
    assert_eq!(theirs.id(), 0x0A0B);
    assert_eq!(theirs.message_type(), trust_dns_proto::op::MessageType::Response);
    assert!(theirs.authoritative());
    assert_eq!(theirs.queries().len(), 1);
    assert_eq!(theirs.queries()[0].name().to_utf8(), "example.com.");
    assert_eq!(theirs.answers().len(), 1);
    assert_eq!(theirs.answers()[0].name().to_utf8(), "example.com.");
    assert_eq!(theirs.answers()[0].ttl(), 60);
}
