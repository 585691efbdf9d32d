//! Tests of the resolver core: response preparation, folding upstream
//! outcomes, and the failure paths.

use doh_gateway::dns::{DnsEdns, DnsMessage, DnsMessageType, DnsQuery, DnsRData, DnsRecordType};
use doh_gateway::subnet::IpNet;
use doh_gateway::doh_json::{DoHJsonResponse, DoHJsonAnswer, DoHJsonQuestion};
use doh_gateway::provider::DoHJsonProvider;
use doh_gateway::resolver::{
    DoHResolutionError, DoHResolver, build_question_requests, resolve_with_outcomes,
};

fn query_message(id: u16, names_and_types: &[(&str, DnsRecordType)]) -> DnsMessage {
    let mut msg = DnsMessage::new();
    msg.id = id;
    msg.message_type = DnsMessageType::Query;
    msg.recursion_desired = true;
    for (name, qtype) in names_and_types {
        msg.queries.push(DnsQuery::query(String::from(*name), *qtype));
    }
    msg
}

fn reply(name: &str, answers: &[(&str, DnsRecordType, u32, &str)], rcode: u16) -> DoHJsonResponse {
    let mut r: DoHJsonResponse = Default::default();
    r.response_code = rcode;
    r.question.push(DoHJsonQuestion {
        name: String::from(name),
        question_type: DnsRecordType::A,
    });
    for (aname, atype, ttl, data) in answers {
        r.answer.push(DoHJsonAnswer {
            name: String::from(*aname),
            answer_type: *atype,
            ttl: *ttl,
            data: String::from(*data),
        });
    }
    r
}

#[test]
fn query_a_example_com_yields_authoritative_response() {
    let req = query_message(0x1234, &[("example.com.", DnsRecordType::A)]);
    let outcomes = vec![Ok(reply(
        "example.com.",
        &[("example.com.", DnsRecordType::A, 3600, "93.184.216.34")],
        0,
    ))];

    let res = resolve_with_outcomes(&req, &outcomes).unwrap();
    assert_eq!(res.id, 0x1234);
    assert_eq!(res.message_type, DnsMessageType::Response);
    assert!(res.authoritative);
    assert_eq!(res.op_code, req.op_code);
    assert_eq!(res.answers.len(), 1);
    assert!(res.answers[0].ttl >= 1);
    assert_eq!(res.answers[0].rdata, DnsRData::A(vec![93, 184, 216, 34]));
}

#[test]
fn cname_chain_keeps_reply_order() {
    let req = query_message(0x5678, &[("www.ivandemarino.me.", DnsRecordType::AAAA)]);
    let outcomes = vec![Ok(reply(
        "www.ivandemarino.me.",
        &[
            ("www.ivandemarino.me.", DnsRecordType::CNAME, 300, "detro.github.com."),
            ("detro.github.com.", DnsRecordType::CNAME, 300, "github.github.io."),
        ],
        0,
    ))];

    let res = resolve_with_outcomes(&req, &outcomes).unwrap();
    assert_eq!(res.id, 0x5678);
    assert_eq!(res.answers.len(), 2);
    assert_eq!(res.answers[0].name, "www.ivandemarino.me.");
    assert_eq!(res.answers[0].rdata, DnsRData::CNAME(String::from("detro.github.com.")));
    assert_eq!(res.answers[1].name, "detro.github.com.");
    assert_eq!(res.answers[1].rdata, DnsRData::CNAME(String::from("github.github.io.")));
}

#[test]
fn empty_question_list_yields_empty_response() {
    let req = query_message(0x4242, &[]);
    let outcomes: Vec<Result<DoHJsonResponse, DoHResolutionError>> = Vec::new();
    let res = resolve_with_outcomes(&req, &outcomes).unwrap();
    assert_eq!(res.id, 0x4242);
    assert_eq!(res.message_type, DnsMessageType::Response);
    assert!(res.authoritative);
    assert_eq!(res.answers.len(), 0);
    assert_eq!(res.queries.len(), 0);
    assert_eq!(res.response_code, 0);
}

#[test]
fn failed_question_contributes_nothing() {
    let req = query_message(
        0x7777,
        &[("good.example.", DnsRecordType::A), ("bad.example.", DnsRecordType::A)],
    );
    let outcomes = vec![
        Ok(reply("good.example.", &[("good.example.", DnsRecordType::A, 120, "10.0.0.1")], 0)),
        Err(DoHResolutionError::new(String::from("upstream returned HTTP 500"))),
    ];

    let res = resolve_with_outcomes(&req, &outcomes).unwrap();
    assert_eq!(res.answers.len(), 1);
    assert_eq!(res.answers[0].name, "good.example.");
    assert_eq!(res.queries.len(), 1);
    assert_eq!(res.response_code, 0);
}

#[test]
fn answers_keep_outcome_arrival_order() {
    let req = query_message(
        0x0101,
        &[("one.example.", DnsRecordType::A), ("two.example.", DnsRecordType::A)],
    );
    let outcomes = vec![
        Ok(reply("two.example.", &[("two.example.", DnsRecordType::A, 60, "10.0.0.2")], 0)),
        Ok(reply("one.example.", &[("one.example.", DnsRecordType::A, 60, "10.0.0.1")], 0)),
    ];
    let res = resolve_with_outcomes(&req, &outcomes).unwrap();
    assert_eq!(res.answers.len(), 2);
    assert_eq!(res.answers[0].name, "two.example.");
    assert_eq!(res.answers[1].name, "one.example.");
}

#[test]
fn unsupported_answer_types_are_dropped_not_fatal() {
    let req = query_message(0x0202, &[("example.com.", DnsRecordType::A)]);
    let outcomes = vec![Ok(reply(
        "example.com.",
        &[
            ("example.com.", DnsRecordType::Unknown(16), 60, "some text"),
            ("example.com.", DnsRecordType::A, 60, "10.1.2.3"),
            ("example.com.", DnsRecordType::A, 60, "not-an-address"),
        ],
        0,
    ))];
    let res = resolve_with_outcomes(&req, &outcomes).unwrap();
    assert_eq!(res.answers.len(), 1);
    assert_eq!(res.answers[0].rdata, DnsRData::A(vec![10, 1, 2, 3]));
}

#[test]
fn non_query_input_is_rejected() {
    let mut msg = query_message(0x0303, &[("example.com.", DnsRecordType::A)]);
    msg.message_type = DnsMessageType::Response;
    let outcomes: Vec<Result<DoHJsonResponse, DoHResolutionError>> = Vec::new();
    assert!(resolve_with_outcomes(&msg, &outcomes).is_err());
}

struct FixedResolver {
    response: DnsMessage,
}

impl DoHResolver for FixedResolver {
    fn resolve_query(&self, _dns_message: &DnsMessage) -> Result<DnsMessage, DoHResolutionError> {
        Ok(self.response.clone())
    }
}

#[test]
fn resolver_trait_rejects_non_queries_before_the_transport() {
    let canned = query_message(0x0404, &[]);
    let resolver = FixedResolver { response: canned };

    let mut not_a_query = query_message(0x0405, &[]);
    not_a_query.message_type = DnsMessageType::Response;
    assert!(resolver.resolve(&not_a_query).is_err());

    let query = query_message(0x0406, &[]);
    assert!(resolver.resolve(&query).is_ok());
}

#[test]
fn one_request_is_built_per_question() {
    let provider = DoHJsonProvider::provider_for_id(&String::from("cloudflare")).unwrap();
    let req = query_message(
        0x0505,
        &[("ivandemarino.me.", DnsRecordType::AAAA), ("example.com.", DnsRecordType::A)],
    );
    let requests = build_question_requests(&provider, &req);
    assert_eq!(requests.len(), 2);
    assert_eq!(
        requests[0].uri,
        "https://cloudflare-dns.com/dns-query?type=AAAA&name=ivandemarino.me."
    );
    assert_eq!(
        requests[1].uri,
        "https://cloudflare-dns.com/dns-query?type=A&name=example.com."
    );
}

#[test]
fn oversized_reply_is_skipped() {
    let req = query_message(0x0606, &[("example.com.", DnsRecordType::A)]);
    let mut huge = reply("example.com.", &[], 0);
    for _ in 0..70000 {
        huge.question.push(DoHJsonQuestion {
            name: String::from("example.com."),
            question_type: DnsRecordType::A,
        });
    }
    let outcomes = vec![Ok(huge)];
    let res = resolve_with_outcomes(&req, &outcomes).unwrap();
    assert_eq!(res.queries.len(), 0);
    assert_eq!(res.answers.len(), 0);
}

#[test]
fn request_client_subnet_prefix_is_written_into_the_option() {
    let mut req = query_message(0x0707, &[("example.com.", DnsRecordType::A)]);
    // the client asked for a source prefix of 10 via its own Client Subnet option
    req.edns = Some(DnsEdns {
        payload_size: 4096,
        ext_rcode: 0,
        version: 0,
        flags: 0,
        options: vec![(8, vec![0, 1, 10, 0, 192, 0, 2, 0])],
    });
    let mut upstream = reply(
        "example.com.",
        &[("example.com.", DnsRecordType::A, 60, "192.0.2.1")],
        0,
    );
    upstream.edns_client_subnet = Some(IpNet {
        v6: false,
        octets: vec![12, 34, 56, 0],
        prefix_len: 0,
    });
    let outcomes = vec![Ok(upstream)];

    let res = resolve_with_outcomes(&req, &outcomes).unwrap();
    let edns = res.edns.expect("the reply's subnet must synthesize an OPT");
    let data = edns.option(8).unwrap();
    assert_eq!(&data[..], [0, 1, 10, 0, 12, 34, 56, 0]);

    // without a request option the source prefix is zero
    let req_plain = query_message(0x0708, &[("example.com.", DnsRecordType::A)]);
    let mut upstream = reply(
        "example.com.",
        &[("example.com.", DnsRecordType::A, 60, "192.0.2.1")],
        0,
    );
    upstream.edns_client_subnet = Some(IpNet {
        v6: false,
        octets: vec![12, 34, 56, 0],
        prefix_len: 0,
    });
    let res = resolve_with_outcomes(&req_plain, &vec![Ok(upstream)]).unwrap();
    let edns = res.edns.unwrap();
    assert_eq!(&edns.option(8).unwrap()[..], [0, 1, 0, 0, 12, 34, 56, 0]);
}
