//! Tests of the lifecycle state machine, the loop policies and the
//! datagram decision.

use doh_gateway::dns::{DnsMessage, DnsMessageType, DnsQuery, DnsRData, DnsRecordType};
use doh_gateway::doh_json::{DoHJsonAnswer, DoHJsonQuestion, DoHJsonResponse};
use doh_gateway::service::{
    DatagramDecision, LoopAction, LoopEvent, ServiceStatus, ServiceStatusFlag, Supervisor,
    handle_datagram, loop_step, wire_response_for_datagram,
};
use doh_gateway::wire::{message_from_bytes, message_to_bytes};

#[test]
fn status_advances_along_the_chain() {
    let mut flag = ServiceStatusFlag::new();
    assert_eq!(flag.status, ServiceStatus::NotStarted);
    assert!(!flag.is_started());
    flag.starting();
    assert_eq!(flag.status, ServiceStatus::Starting);
    flag.started();
    assert!(flag.is_started());
    assert!(!flag.is_stopping());
    flag.stopping();
    assert!(flag.is_stopping());
    assert!(!flag.is_stopped());
    flag.stopped();
    assert!(flag.is_stopped());
    assert_eq!(flag.status, ServiceStatus::Stopped);
}

#[test]
fn supervisor_brings_both_services_up_and_down() {
    let mut sup = Supervisor::new();
    sup.start_and_await();
    assert_eq!(sup.processor.status, ServiceStatus::Started);
    assert_eq!(sup.server.status, ServiceStatus::Started);
    sup.stop_and_await();
    assert_eq!(sup.processor.status, ServiceStatus::Stopped);
    assert_eq!(sup.server.status, ServiceStatus::Stopped);
}

#[test]
fn loop_policy_matches_the_design() {
    assert_eq!(loop_step(LoopEvent::Received, false), LoopAction::Handle);
    assert_eq!(loop_step(LoopEvent::Received, true), LoopAction::Handle);
    assert_eq!(loop_step(LoopEvent::TimedOut, false), LoopAction::Continue);
    assert_eq!(loop_step(LoopEvent::TimedOut, true), LoopAction::Exit);
    assert_eq!(loop_step(LoopEvent::Failed, false), LoopAction::Continue);
    assert_eq!(loop_step(LoopEvent::Failed, true), LoopAction::Continue);
}

#[test]
fn datagram_decision_publishes_only_queries() {
    let mut query = DnsMessage::new();
    query.id = 0x1111;
    query.queries.push(DnsQuery::query(String::from("example.com."), DnsRecordType::A));
    let query_bytes = message_to_bytes(&query).unwrap();
    match handle_datagram(&query_bytes) {
        DatagramDecision::Publish(m) => {
            assert_eq!(m.id, 0x1111);
            assert_eq!(m.message_type, DnsMessageType::Query);
        },
        _ => panic!("a well-formed query must be published"),
    }

    let mut response = query;
    response.message_type = DnsMessageType::Response;
    let response_bytes = message_to_bytes(&response).unwrap();
    assert!(matches!(handle_datagram(&response_bytes), DatagramDecision::IgnoreNotQuery));

    assert!(matches!(handle_datagram(&[1, 2, 3]), DatagramDecision::IgnoreBadDatagram));
}

#[test]
fn full_reply_path_mirrors_the_query() {
    let mut query = DnsMessage::new();
    query.id = 0x1234;
    query.recursion_desired = true;
    query.queries.push(DnsQuery::query(String::from("example.com."), DnsRecordType::A));
    let datagram = message_to_bytes(&query).unwrap();

    let mut reply: DoHJsonResponse = Default::default();
    reply.question.push(DoHJsonQuestion {
        name: String::from("example.com."),
        question_type: DnsRecordType::A,
    });
    reply.answer.push(DoHJsonAnswer {
        name: String::from("example.com."),
        answer_type: DnsRecordType::A,
        ttl: 3600,
        data: String::from("93.184.216.34"),
    });
    let outcomes = vec![Ok(reply)];

    let wire_bytes = wire_response_for_datagram(&datagram, &outcomes).unwrap();
    let response = message_from_bytes(&wire_bytes).unwrap();
    assert_eq!(response.id, 0x1234);
    assert_eq!(response.message_type, DnsMessageType::Response);
    assert!(response.authoritative);
    assert_eq!(response.op_code, query.op_code);
    assert_eq!(response.answers.len(), 1);
    assert_eq!(response.answers[0].rdata, DnsRData::A(vec![93, 184, 216, 34]));

    // a non-query datagram never gets a response
    let mut not_query = query;
    not_query.message_type = DnsMessageType::Response;
    let bad_datagram = message_to_bytes(&not_query).unwrap();
    assert!(wire_response_for_datagram(&bad_datagram, &Vec::new()).is_none());
}
