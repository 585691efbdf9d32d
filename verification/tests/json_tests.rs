//! Tests of the DoH JSON response codec and of applying replies to a DNS
//! message.

use doh_gateway::dns::{DnsMessage, DnsRData, DnsRecordType};
use doh_gateway::doh_json::{DoHJsonResponse, DoHJsonQuestion, DoHJsonAnswer};
use doh_gateway::subnet::IpNet;

const EXAMPLE_JSON_RESPONSE: &str = r#"{
    "Status": 0,
    "TC": false,
    "RD": true,
    "RA": true,
    "AD": false,
    "CD": false,
    "Question": [
      {
        "name": "apple.com.",
        "type": 1
      }
    ],
    "Answer": [
      {
        "name": "apple.com.",
        "type": 1,
        "TTL": 3599,
        "data": "17.178.96.59"
      },
      {
        "name": "apple.com.",
        "type": 1,
        "TTL": 3599,
        "data": "17.172.224.47"
      },
      {
        "name": "apple.com.",
        "type": 1,
        "TTL": 3599,
        "data": "17.142.160.59"
      }
    ],
    "Additional": [ ],
    "edns_client_subnet": "12.34.56.0/0"
  }"#;

fn ipv4_net(octets: [u8; 4], prefix_len: u8) -> IpNet {
    IpNet { v6: false, octets: octets.to_vec(), prefix_len }
}

#[test]
fn protocol_should_deserialize_response() {
    let dns_resp = DoHJsonResponse::from_json_str(EXAMPLE_JSON_RESPONSE).unwrap();

    assert_eq!(dns_resp.response_code, 0);
    assert_eq!(dns_resp.truncated, false);
    assert_eq!(dns_resp.recursion_desired, true);
    assert_eq!(dns_resp.recursion_available, true);
    assert_eq!(dns_resp.authenticated_data, false);
    assert_eq!(dns_resp.checking_disabled, false);

    assert_eq!(dns_resp.question.len(), 1);
    assert_eq!(dns_resp.question.get(0).unwrap().name, "apple.com.");
    assert_eq!(dns_resp.question.get(0).unwrap().question_type, DnsRecordType::A);

    assert_eq!(dns_resp.answer.len(), 3);
    for answer in &(dns_resp.answer) {
        assert_eq!(answer.name, "apple.com.");
        assert_eq!(answer.answer_type, DnsRecordType::A);
        assert_eq!(answer.ttl, 3599);
        assert!(answer.data.starts_with("17."));
    }

    assert_eq!(dns_resp.additional_raw, "[ ]");
    assert_eq!(dns_resp.edns_client_subnet, Some(ipv4_net([12, 34, 56, 0], 0)));
    assert_eq!(dns_resp.comment, "");
}

#[test]
fn protocol_should_serialize_response() {
    let dns_resp_json_orig = r#"{"Status":0,"TC":false,"RD":true,"RA":true,"AD":false,"CD":false,"Question":[{"name":"apple.com.","type":1}],"Answer":[{"name":"apple.com.","type":1,"TTL":3599,"data":"17.178.96.59"},{"name":"apple.com.","type":1,"TTL":3599,"data":"17.172.224.47"},{"name":"apple.com.","type":1,"TTL":3599,"data":"17.142.160.59"}],"Additional":[],"edns_client_subnet":"12.34.56.78/0","Comment":""}"#;
    let dns_resp = DoHJsonResponse::from_json_str(dns_resp_json_orig).unwrap();
    assert_eq!(dns_resp.to_json_string(), dns_resp_json_orig);

    let dns_resp: DoHJsonResponse = Default::default();
    assert_eq!(dns_resp.edns_client_subnet, None);
    assert_eq!(
        dns_resp.to_json_string(),
        r#"{"Status":0,"TC":false,"RD":true,"RA":true,"AD":false,"CD":false,"Question":[],"Answer":[],"Additional":[],"edns_client_subnet":"","Comment":""}"#
    );
}

#[test]
fn response_should_deserialize_response() {
    let dns_resp = DoHJsonResponse::from_json_str(EXAMPLE_JSON_RESPONSE).unwrap();
    assert_eq!(dns_resp.response_code, 0);
    assert_eq!(dns_resp.question.len(), 1);
    assert_eq!(dns_resp.answer.len(), 3);
    assert_eq!(dns_resp.edns_client_subnet, Some(ipv4_net([12, 34, 56, 0], 0)));
    println!("{:?}", dns_resp);
}

#[test]
fn response_should_serialize_response() {
    let parsed = DoHJsonResponse::from_json_str(EXAMPLE_JSON_RESPONSE).unwrap();
    let text = parsed.to_json_string();
    let reparsed = DoHJsonResponse::from_json_str(&text).unwrap();
    assert_eq!(reparsed, parsed);
}

#[test]
fn dns_response_type_should_deserialize_correctly() {
    let with_subnet = r#"{"Status":0,"TC":false,"RD":true,"RA":true,"AD":false,"CD":false,"Question":[{"name":"apple.com.","type":1}],"Answer":[{"name":"apple.com.","type":1,"TTL":3599,"data":"17.178.96.59"}],"Additional":[],"edns_client_subnet":"12.34.56.78/0"}"#;
    let dns_resp = DoHJsonResponse::from_json_str(with_subnet).unwrap();
    assert_eq!(dns_resp.response_code, 0);
    assert_eq!(dns_resp.question.len(), 1);
    assert_eq!(dns_resp.question[0].question_type, DnsRecordType::A);
    assert_eq!(dns_resp.answer.len(), 1);
    assert_eq!(dns_resp.answer[0].ttl, 3599);
    assert_eq!(dns_resp.edns_client_subnet, Some(ipv4_net([12, 34, 56, 78], 0)));
    assert_eq!(dns_resp.comment, "");
}

#[test]
fn dns_response_type_should_serialize_correctly() {
    let resp = DoHJsonResponse {
        response_code: 0,
        truncated: false,
        recursion_desired: true,
        recursion_available: true,
        authenticated_data: false,
        checking_disabled: false,
        question: vec![DoHJsonQuestion {
            name: String::from("apple.com."),
            question_type: DnsRecordType::A,
        }],
        answer: vec![DoHJsonAnswer {
            name: String::from("apple.com."),
            answer_type: DnsRecordType::A,
            ttl: 3599,
            data: String::from("17.178.96.59"),
        }],
        additional_raw: String::from("[]"),
        edns_client_subnet: Some(ipv4_net([12, 34, 56, 78], 0)),
        comment: String::new(),
    };
    assert_eq!(
        resp.to_json_string(),
        r#"{"Status":0,"TC":false,"RD":true,"RA":true,"AD":false,"CD":false,"Question":[{"name":"apple.com.","type":1}],"Answer":[{"name":"apple.com.","type":1,"TTL":3599,"data":"17.178.96.59"}],"Additional":[],"edns_client_subnet":"12.34.56.78/0","Comment":""}"#
    );
}

#[test]
fn should_apply_to_dns_message() {
    let mut dns_msg = DnsMessage::new();

    assert_eq!(dns_msg.truncated, false);
    assert_eq!(dns_msg.recursion_desired, false);
    assert_eq!(dns_msg.recursion_available, false);
    assert_eq!(dns_msg.authentic_data, false);
    assert_eq!(dns_msg.checking_disabled, false);
    assert_eq!(dns_msg.response_code, 0);
    assert!(dns_msg.edns.is_none());
    assert_eq!(dns_msg.queries.len(), 0);
    assert_eq!(dns_msg.answers.len(), 0);
    assert_eq!(dns_msg.name_servers.len(), 0);
    assert_eq!(dns_msg.additionals.len(), 0);

    let dns_resp = DoHJsonResponse::from_json_str(EXAMPLE_JSON_RESPONSE).unwrap();
    dns_resp.apply(10, &mut dns_msg);

    assert_eq!(dns_msg.truncated, false);
    assert_eq!(dns_msg.recursion_desired, true);
    assert_eq!(dns_msg.recursion_available, true);
    assert_eq!(dns_msg.authentic_data, false);
    assert_eq!(dns_msg.checking_disabled, false);
    assert_eq!(dns_msg.response_code, 0);

    assert_eq!(dns_msg.queries.len(), 1);
    let q = &dns_msg.queries[0];
    assert_eq!(q.name, "apple.com.");
    assert_eq!(q.query_type, DnsRecordType::A);

    assert_eq!(dns_msg.answers.len(), 3);
    let a = &dns_msg.answers[0];
    assert_eq!(a.name, "apple.com.");
    assert_eq!(a.record_type, DnsRecordType::A);
    assert_eq!(a.ttl, 3599);
    assert_eq!(a.rdata, DnsRData::A(vec![17, 178, 96, 59]));
    let a = &dns_msg.answers[1];
    assert_eq!(a.name, "apple.com.");
    assert_eq!(a.record_type, DnsRecordType::A);
    assert_eq!(a.ttl, 3599);
    assert_eq!(a.rdata, DnsRData::A(vec![17, 172, 224, 47]));
    let a = &dns_msg.answers[2];
    assert_eq!(a.name, "apple.com.");
    assert_eq!(a.record_type, DnsRecordType::A);
    assert_eq!(a.ttl, 3599);
    assert_eq!(a.rdata, DnsRData::A(vec![17, 142, 160, 59]));

    assert!(dns_msg.edns.is_some());
    let edns = dns_msg.edns.as_ref().unwrap();
    assert_eq!(edns.options.len(), 1);
    let subnet_opt = edns.option(8).unwrap();
    assert_eq!(subnet_opt.len(), 8);
    assert_eq!(&subnet_opt[..], [0, 1, 10, 0, 12, 34, 56, 0]);

    assert_eq!(dns_msg.name_servers.len(), 0);
    assert_eq!(dns_msg.additionals.len(), 0);
}

#[test]
fn serializer_agrees_with_serde_json() {
    let parsed = DoHJsonResponse::from_json_str(EXAMPLE_JSON_RESPONSE).unwrap();
    let text = parsed.to_json_string();
    let value: serde_json::Value = serde_json::from_str(&text).unwrap();
    assert_eq!(value["Status"], 0);
    assert_eq!(value["TC"], false);
    assert_eq!(value["RD"], true);
    assert_eq!(value["RA"], true);
    assert_eq!(value["AD"], false);
    assert_eq!(value["CD"], false);
    assert_eq!(value["Question"][0]["name"], "apple.com.");
    assert_eq!(value["Question"][0]["type"], 1);
    assert_eq!(value["Answer"].as_array().unwrap().len(), 3);
    assert_eq!(value["Answer"][0]["TTL"], 3599);
    assert_eq!(value["Answer"][2]["data"], "17.142.160.59");
    assert_eq!(value["Additional"].as_array().unwrap().len(), 0);
    assert_eq!(value["edns_client_subnet"], "12.34.56.0/0");
    assert_eq!(value["Comment"], "");
}

#[test]
fn parser_accepts_unknown_fields_and_any_order() {
    let text = r#"{"Answer":[],"Question":[],"Comment":"ok","Authority":[{"name":"github.io.","type":6,"TTL":60,"data":"ns1.example.net."}],"CD":false,"AD":true,"RA":true,"RD":true,"TC":false,"Status":3}"#;
    let resp = DoHJsonResponse::from_json_str(text).unwrap();
    assert_eq!(resp.response_code, 3);
    assert_eq!(resp.authenticated_data, true);
    assert_eq!(resp.comment, "ok");
    assert_eq!(resp.question.len(), 0);
    assert_eq!(resp.answer.len(), 0);
    assert_eq!(resp.edns_client_subnet, None);
}

#[test]
fn parser_rejects_missing_mandatory_fields() {
    let no_status = r#"{"TC":false,"RD":true,"RA":true,"AD":false,"CD":false,"Question":[],"Answer":[]}"#;
    assert!(DoHJsonResponse::from_json_str(no_status).is_err());
    let no_answer = r#"{"Status":0,"TC":false,"RD":true,"RA":true,"AD":false,"CD":false,"Question":[]}"#;
    assert!(DoHJsonResponse::from_json_str(no_answer).is_err());
    assert!(DoHJsonResponse::from_json_str("not json at all").is_err());
    assert!(DoHJsonResponse::from_json_str("").is_err());
}

#[test]
fn unparseable_client_subnet_reads_as_absent() {
    let text = r#"{"Status":0,"TC":false,"RD":true,"RA":true,"AD":false,"CD":false,"Question":[],"Answer":[],"edns_client_subnet":"not-a-subnet"}"#;
    let resp = DoHJsonResponse::from_json_str(text).unwrap();
    assert_eq!(resp.edns_client_subnet, None);
}

#[test]
fn client_subnet_parses_ipv6() {
    let text = r#"{"Status":0,"TC":false,"RD":true,"RA":true,"AD":false,"CD":false,"Question":[],"Answer":[],"edns_client_subnet":"2001:db8::1/56"}"#;
    let resp = DoHJsonResponse::from_json_str(text).unwrap();
    let net = resp.edns_client_subnet.unwrap();
    assert!(net.v6);
    assert_eq!(net.prefix_len, 56);
    assert_eq!(
        net.octets,
        vec![0x20, 0x01, 0x0d, 0xb8, 0, 0, 0, 0, 0, 0, 0, 0, 0, 0, 0, 1]
    );
    assert_eq!(net.to_text(), "2001:db8:0:0:0:0:0:1/56");
}

#[test]
fn from_slice_reads_body_bytes() {
    let resp = DoHJsonResponse::from_slice(EXAMPLE_JSON_RESPONSE.as_bytes()).unwrap();
    assert_eq!(resp.answer.len(), 3);
    assert!(DoHJsonResponse::from_slice(&[0xFF, 0xFE]).is_err());
}
