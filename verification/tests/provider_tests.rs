//! Tests of the provider registry and of upstream request construction.

use doh_gateway::dns::{DnsQuery, DnsRecordType};
use doh_gateway::protocol::DoHProtocol;
use doh_gateway::provider::{DoHJsonProvider, HttpMethod, HttpVersion};

#[test]
fn should_describe_a_doh_provider() {
}

fn provider_by_id(id: &str) -> DoHJsonProvider {
    DoHJsonProvider::provider_for_id(&String::from(id)).unwrap()
}

#[test]
fn should_provide_cloudflare_provider() {
    let example_query = DnsQuery::query(String::from("ivandemarino.me."), DnsRecordType::AAAA);

    let default_provider: DoHJsonProvider = Default::default();
    let cloudflare_provider = provider_by_id("cloudflare");

    let providers = vec![default_provider, cloudflare_provider];

    for provider in providers {
        let http_request = provider.build_http_request(&example_query);
        assert_eq!(http_request.method, HttpMethod::Get);
        assert_eq!(http_request.version, HttpVersion::Http11);
        assert_eq!(
            http_request.uri,
            "https://cloudflare-dns.com/dns-query?type=AAAA&name=ivandemarino.me."
        );
        assert_eq!(http_request.headers.len(), 1);
        assert_eq!(http_request.headers[0].0, "accept");
        assert_eq!(http_request.headers[0].1, "application/dns-json");
    }
}

#[test]
fn should_provide_google_provider() {
    let example_query = DnsQuery::query(String::from("github.com."), DnsRecordType::A);

    let provider = provider_by_id("google");

    let http_request = provider.build_http_request(&example_query);
    assert_eq!(http_request.method, HttpMethod::Get);
    assert_eq!(http_request.version, HttpVersion::Http11);
    assert_eq!(http_request.uri, "https://dns.google.com/resolve?type=A&name=github.com.");
    assert_eq!(http_request.headers.len(), 0);
}

#[test]
fn should_provide_quad9_provider() {
    let example_query = DnsQuery::query(String::from("github.com."), DnsRecordType::A);

    let provider = provider_by_id("quad9");

    let http_request = provider.build_http_request(&example_query);
    assert_eq!(http_request.method, HttpMethod::Get);
    assert_eq!(http_request.version, HttpVersion::Http11);
    assert_eq!(http_request.uri, "https://dns.quad9.net/dns-query?type=A&name=github.com.");
    assert_eq!(http_request.headers.len(), 0);
}

#[test]
fn should_provide_quad9_secured_provider() {
    let example_query = DnsQuery::query(String::from("github.com."), DnsRecordType::A);

    let provider = provider_by_id("quad9-secured");

    let http_request = provider.build_http_request(&example_query);
    assert_eq!(http_request.method, HttpMethod::Get);
    assert_eq!(http_request.version, HttpVersion::Http11);
    assert_eq!(http_request.uri, "https://dns9.quad9.net/dns-query?type=A&name=github.com.");
    assert_eq!(http_request.headers.len(), 0);
}

#[test]
fn should_provide_quad9_unsecured_provider() {
    let example_query = DnsQuery::query(String::from("github.com."), DnsRecordType::A);

    let provider = provider_by_id("quad9-unsecured");

    let http_request = provider.build_http_request(&example_query);
    assert_eq!(http_request.method, HttpMethod::Get);
    assert_eq!(http_request.version, HttpVersion::Http11);
    assert_eq!(http_request.uri, "https://dns10.quad9.net/dns-query?type=A&name=github.com.");
    assert_eq!(http_request.headers.len(), 0);
}

#[test]
fn should_provide_rubyfish_provider() {
    let example_query = DnsQuery::query(String::from("apple.com."), DnsRecordType::A);

    let provider = provider_by_id("rubyfish");

    let http_request = provider.build_http_request(&example_query);
    assert_eq!(http_request.method, HttpMethod::Get);
    assert_eq!(http_request.version, HttpVersion::Http11);
    assert_eq!(http_request.uri, "https://dns.rubyfish.cn/dns-query?type=A&name=apple.com.");
    assert_eq!(http_request.headers.len(), 0);
}

#[test]
fn should_provide_blahdns_provider() {
    let example_query = DnsQuery::query(String::from("apple.com."), DnsRecordType::A);

    let provider = provider_by_id("blahdns");

    let http_request = provider.build_http_request(&example_query);
    assert_eq!(http_request.method, HttpMethod::Get);
    assert_eq!(http_request.version, HttpVersion::Http11);
    assert_eq!(http_request.uri, "https://doh-de.blahdns.com/dns-query?type=A&name=apple.com.");
    assert_eq!(http_request.headers.len(), 0);
}

#[test]
fn should_provide_default_provider_ids() {
    assert_eq!(DoHJsonProvider::available_ids().len(), 7);
    assert!(DoHJsonProvider::available_ids().contains(&"cloudflare"));
    assert!(DoHJsonProvider::available_ids().contains(&"google"));
    assert!(DoHJsonProvider::available_ids().contains(&"quad9"));
    assert!(DoHJsonProvider::available_ids().contains(&"quad9-secured"));
    assert!(DoHJsonProvider::available_ids().contains(&"quad9-unsecured"));
    assert!(DoHJsonProvider::available_ids().contains(&"rubyfish"));
    assert!(DoHJsonProvider::available_ids().contains(&"blahdns"));
}

#[test]
fn unknown_provider_id_is_refused() {
    assert!(DoHJsonProvider::provider_for_id(&String::from("does-not-exist")).is_none());
    assert_eq!(DoHJsonProvider::default_id(), "cloudflare");
}

#[test]
fn mnemonic_of_unknown_record_type_is_decimal() {
    let q = DnsQuery::query(String::from("example.com."), DnsRecordType::Unknown(257));
    let provider = provider_by_id("google");
    let http_request = provider.build_http_request(&q);
    assert_eq!(http_request.uri, "https://dns.google.com/resolve?type=257&name=example.com.");
}

#[test]
fn protocol_names_round_trip() {
    assert_eq!(DoHProtocol::from_str("json").unwrap(), DoHProtocol::JSON);
    assert_eq!(DoHProtocol::from_str("wire").unwrap(), DoHProtocol::WIRE);
    assert_eq!(DoHProtocol::JSON.as_str(), "json");
    assert_eq!(DoHProtocol::WIRE.as_str(), "wire");
    let err = DoHProtocol::from_str("gopher").unwrap_err();
    assert_eq!(err.token, "gopher");
}
