//! The registry of public DoH JSON providers, and the construction of the
//! HTTPS request that asks one of them a DNS question.

use vstd::prelude::*;
use crate::dns::{DnsQuery, DnsRecordType};
use crate::protocol::DoHProtocol;
use crate::text::{dec_digits, u32_to_string};

verus! {

/// The method of an upstream request; this gateway only ever issues GET.
#[derive(Clone, Copy, Debug, PartialEq, Eq, Structural)]
pub enum HttpMethod {
    Get,
}

/// The HTTP version an upstream request asks for.
#[derive(Clone, Copy, Debug, PartialEq, Eq, Structural)]
pub enum HttpVersion {
    Http10,
    Http11,
    Http2,
}

/// An upstream HTTPS request as plain values: the transport layer executes
/// it verbatim. The body is always empty.
#[derive(Clone, Debug)]
pub struct HttpRequest {
    pub method: HttpMethod,
    pub version: HttpVersion,
    pub uri: String,
    pub headers: Vec<(String, String)>,
}

/// The views of a header list: each name and value as characters.
pub open spec fn headers_view(h: Seq<(String, String)>) -> Seq<(Seq<char>, Seq<char>)> {
    h.map_values(|kv: (String, String)| (kv.0@, kv.1@))
}

/// The mnemonic of a record type as the DoH JSON query string spells it;
/// a type without a mnemonic is spelled as its decimal value.
pub open spec fn spec_mnemonic(t: DnsRecordType) -> Seq<char> {
    match t {
        DnsRecordType::A => "A"@,
        DnsRecordType::NS => "NS"@,
        DnsRecordType::CNAME => "CNAME"@,
        DnsRecordType::PTR => "PTR"@,
        DnsRecordType::AAAA => "AAAA"@,
        DnsRecordType::OPT => "OPT"@,
        DnsRecordType::Unknown(v) => dec_digits(v as nat),
    }
}

/// The record-type mnemonic written into the query string.
pub fn record_type_mnemonic(t: DnsRecordType) -> (r: String)
    ensures
        r@ == spec_mnemonic(t),
{
    match t {
        DnsRecordType::A => String::from_str("A"),
        DnsRecordType::NS => String::from_str("NS"),
        DnsRecordType::CNAME => String::from_str("CNAME"),
        DnsRecordType::PTR => String::from_str("PTR"),
        DnsRecordType::AAAA => String::from_str("AAAA"),
        DnsRecordType::OPT => String::from_str("OPT"),
        DnsRecordType::Unknown(v) => u32_to_string(v as u32),
    }
}

/// One upstream DoH JSON endpoint: its identifier, the pieces of its base
/// URI, and the headers it requires on every request.
#[derive(Clone, Debug)]
pub struct DoHJsonProvider {
    pub id: String,
    pub scheme: String,
    pub authority: String,
    pub path: String,
    /// A query string the provider requires on every request, without the
    /// leading separator.
    pub query: Option<String>,
    pub headers: Vec<(String, String)>,
}

/// The URI of the request that asks `provider` for records of type `t`
/// under `name`.
pub open spec fn spec_request_uri(
    p: DoHJsonProvider,
    t: DnsRecordType,
    name: Seq<char>,
) -> Seq<char> {
    p.scheme@ + "://"@ + p.authority@ + p.path@ + "?type="@ + spec_mnemonic(t) + "&name="@ + name
        + match p.query {
        Some(q) => "&"@ + q@,
        None => Seq::<char>::empty(),
    }
}

impl DoHJsonProvider {
    /// The protocol every provider of this registry speaks.
    pub fn protocol(&self) -> (r: DoHProtocol)
        ensures
            r == DoHProtocol::JSON,
    {
        DoHProtocol::JSON
    }

    /// The GET request that asks this provider the given question: the
    /// provider's base URI with `type` and `name` filled from the question
    /// and any provider-required query pairs appended, under the provider's
    /// mandatory headers. The caller passes a name that already carries its
    /// trailing dot.
    pub fn build_http_request(&self, dns_query: &DnsQuery) -> (r: HttpRequest)
        ensures
            r.method == HttpMethod::Get,
            r.version == HttpVersion::Http11,
            r.uri@ == spec_request_uri(*self, dns_query.query_type, dns_query.name@),
            headers_view(r.headers@) == headers_view(self.headers@),
    {
        let mut uri = clone_string(&self.scheme);
        uri.append("://");
        uri.append(self.authority.as_str());
        uri.append(self.path.as_str());
        uri.append("?type=");
        let mnemonic = record_type_mnemonic(dns_query.query_type);
        uri.append(mnemonic.as_str());
        uri.append("&name=");
        uri.append(dns_query.name.as_str());
        match &self.query {
            Some(q) => {
                uri.append("&");
                uri.append(q.as_str());
            },
            None => {},
        }
        proof {
            assert(uri@ =~= spec_request_uri(*self, dns_query.query_type, dns_query.name@));
        }
        let headers = clone_headers(&self.headers);
        HttpRequest { method: HttpMethod::Get, version: HttpVersion::Http11, uri, headers }
    }
}

/// A substring occurs somewhere in `s`.
pub open spec fn contains_seq(s: Seq<char>, sub: Seq<char>) -> bool {
    exists|k: int|
        0 <= k && k + sub.len() <= s.len() && #[trigger] s.subrange(k, k + sub.len() as int)
            == sub
}

/// The request URI always names the record type as `type=<mnemonic>` and
/// the question name as `name=<name>`; together with the header clause of
/// `build_http_request` this is the whole contract of request construction.
pub proof fn lemma_request_uri_contains(p: DoHJsonProvider, t: DnsRecordType, name: Seq<char>)
    ensures
        contains_seq(spec_request_uri(p, t, name), "type="@ + spec_mnemonic(t)),
        contains_seq(spec_request_uri(p, t, name), "name="@ + name),
{
    reveal_strlit("://");
    reveal_strlit("?type=");
    reveal_strlit("type=");
    reveal_strlit("&name=");
    reveal_strlit("name=");
    let u = spec_request_uri(p, t, name);
    let sub1 = "type="@ + spec_mnemonic(t);
    let k1: int = p.scheme@.len() as int + 3 + p.authority@.len() as int + p.path@.len() as int + 1;
    assert(u.subrange(k1, k1 + sub1.len() as int) =~= sub1);
    let sub2 = "name="@ + name;
    let k2: int = k1 + 5 + spec_mnemonic(t).len() as int + 1;
    assert(u.subrange(k2, k2 + sub2.len() as int) =~= sub2);
}

/// Identifies the Google Public DNS resolver entry of the registry.
pub open spec fn is_google(p: DoHJsonProvider) -> bool {
    &&& p.id@ == "google"@
    &&& p.scheme@ == "https"@
    &&& p.authority@ == "dns.google.com"@
    &&& p.path@ == "/resolve"@
    &&& p.query is None
    &&& p.headers@.len() == 0
}

/// Identifies the Cloudflare resolver entry of the registry; Cloudflare
/// requires the `accept: application/dns-json` header.
pub open spec fn is_cloudflare(p: DoHJsonProvider) -> bool {
    &&& p.id@ == "cloudflare"@
    &&& p.scheme@ == "https"@
    &&& p.authority@ == "cloudflare-dns.com"@
    &&& p.path@ == "/dns-query"@
    &&& p.query is None
    &&& p.headers@.len() == 1
    &&& p.headers@[0].0@ == "accept"@
    &&& p.headers@[0].1@ == "application/dns-json"@
}

/// Identifies the Quad9 "recommended" resolver entry of the registry.
pub open spec fn is_quad9(p: DoHJsonProvider) -> bool {
    &&& p.id@ == "quad9"@
    &&& p.scheme@ == "https"@
    &&& p.authority@ == "dns.quad9.net"@
    &&& p.path@ == "/dns-query"@
    &&& p.query is None
    &&& p.headers@.len() == 0
}

/// Identifies the Quad9 "secured" resolver entry of the registry.
pub open spec fn is_quad9_secured(p: DoHJsonProvider) -> bool {
    &&& p.id@ == "quad9-secured"@
    &&& p.scheme@ == "https"@
    &&& p.authority@ == "dns9.quad9.net"@
    &&& p.path@ == "/dns-query"@
    &&& p.query is None
    &&& p.headers@.len() == 0
}

/// Identifies the Quad9 "unsecured" resolver entry of the registry.
pub open spec fn is_quad9_unsecured(p: DoHJsonProvider) -> bool {
    &&& p.id@ == "quad9-unsecured"@
    &&& p.scheme@ == "https"@
    &&& p.authority@ == "dns10.quad9.net"@
    &&& p.path@ == "/dns-query"@
    &&& p.query is None
    &&& p.headers@.len() == 0
}

/// Identifies the Rubyfish resolver entry of the registry.
pub open spec fn is_rubyfish(p: DoHJsonProvider) -> bool {
    &&& p.id@ == "rubyfish"@
    &&& p.scheme@ == "https"@
    &&& p.authority@ == "dns.rubyfish.cn"@
    &&& p.path@ == "/dns-query"@
    &&& p.query is None
    &&& p.headers@.len() == 0
}

/// Identifies the BlahDNS resolver entry of the registry.
pub open spec fn is_blahdns(p: DoHJsonProvider) -> bool {
    &&& p.id@ == "blahdns"@
    &&& p.scheme@ == "https"@
    &&& p.authority@ == "doh-de.blahdns.com"@
    &&& p.path@ == "/dns-query"@
    &&& p.query is None
    &&& p.headers@.len() == 0
}

/// The provider is one of the seven registry entries.
pub open spec fn in_registry(p: DoHJsonProvider) -> bool {
    is_google(p) || is_cloudflare(p) || is_quad9(p) || is_quad9_secured(p) || is_quad9_unsecured(
        p,
    ) || is_rubyfish(p) || is_blahdns(p)
}

/// A registry entry without required headers or query pairs.
fn plain_provider(id: &str, authority: &str) -> (r: DoHJsonProvider)
    ensures
        r.id@ == id@,
        r.scheme@ == "https"@,
        r.authority@ == authority@,
        r.path@ == "/dns-query"@,
        r.query is None,
        r.headers@.len() == 0,
{
    DoHJsonProvider {
        id: id.to_owned(),
        scheme: String::from_str("https"),
        authority: authority.to_owned(),
        path: String::from_str("/dns-query"),
        query: None,
        headers: Vec::new(),
    }
}

impl DoHJsonProvider {
    /// The registry of upstream endpoints this gateway can use, in a fixed
    /// order; every entry speaks the JSON protocol.
    pub fn available() -> (r: Vec<DoHJsonProvider>)
        ensures
            r@.len() == 7,
            is_google(r@[0]),
            is_cloudflare(r@[1]),
            is_quad9(r@[2]),
            is_quad9_secured(r@[3]),
            is_quad9_unsecured(r@[4]),
            is_rubyfish(r@[5]),
            is_blahdns(r@[6]),
    {
        let mut r: Vec<DoHJsonProvider> = Vec::new();
        r.push(
            DoHJsonProvider {
                id: String::from_str("google"),
                scheme: String::from_str("https"),
                authority: String::from_str("dns.google.com"),
                path: String::from_str("/resolve"),
                query: None,
                headers: Vec::new(),
            },
        );
        let mut cloudflare_headers: Vec<(String, String)> = Vec::new();
        cloudflare_headers.push(
            (String::from_str("accept"), String::from_str("application/dns-json")),
        );
        r.push(
            DoHJsonProvider {
                id: String::from_str("cloudflare"),
                scheme: String::from_str("https"),
                authority: String::from_str("cloudflare-dns.com"),
                path: String::from_str("/dns-query"),
                query: None,
                headers: cloudflare_headers,
            },
        );
        r.push(plain_provider("quad9", "dns.quad9.net"));
        r.push(plain_provider("quad9-secured", "dns9.quad9.net"));
        r.push(plain_provider("quad9-unsecured", "dns10.quad9.net"));
        r.push(plain_provider("rubyfish", "dns.rubyfish.cn"));
        r.push(plain_provider("blahdns", "doh-de.blahdns.com"));
        r
    }

    /// The identifier of the provider used when none is configured.
    pub fn default_id() -> (r: &'static str)
        ensures
            r@ == "cloudflare"@,
    {
        "cloudflare"
    }

    /// The identifiers of the registry's entries, in registry order.
    pub fn available_ids() -> (r: Vec<&'static str>)
        ensures
            r@.len() == 7,
            r@[0]@ == "google"@,
            r@[1]@ == "cloudflare"@,
            r@[2]@ == "quad9"@,
            r@[3]@ == "quad9-secured"@,
            r@[4]@ == "quad9-unsecured"@,
            r@[5]@ == "rubyfish"@,
            r@[6]@ == "blahdns"@,
    {
        let mut r: Vec<&'static str> = Vec::new();
        r.push("google");
        r.push("cloudflare");
        r.push("quad9");
        r.push("quad9-secured");
        r.push("quad9-unsecured");
        r.push("rubyfish");
        r.push("blahdns");
        r
    }

    /// The registry entry with the given identifier: `Some` exactly for the
    /// seven identifiers of the registry.
    pub fn provider_for_id(id: &String) -> (r: Option<DoHJsonProvider>)
        ensures
            match r {
                Some(p) => p.id@ == id@ && in_registry(p),
                None => {
                    &&& id@ != "google"@
                    &&& id@ != "cloudflare"@
                    &&& id@ != "quad9"@
                    &&& id@ != "quad9-secured"@
                    &&& id@ != "quad9-unsecured"@
                    &&& id@ != "rubyfish"@
                    &&& id@ != "blahdns"@
                },
            },
    {
        let mut v = DoHJsonProvider::available();
        let mut i: usize = 0;
        while i < v.len()
            invariant
                v@.len() == 7,
                is_google(v@[0]),
                is_cloudflare(v@[1]),
                is_quad9(v@[2]),
                is_quad9_secured(v@[3]),
                is_quad9_unsecured(v@[4]),
                is_rubyfish(v@[5]),
                is_blahdns(v@[6]),
                0 <= i <= 7,
                forall|j: int| 0 <= j < i ==> #[trigger] v@[j].id@ != id@,
            decreases 7 - i,
        {
            if v[i].id.eq(id) {
                let p = v.remove(i);
                return Some(p);
            }
            i += 1;
        }
        None
    }
}

impl Default for DoHJsonProvider {
    /// The provider used when none is configured: Cloudflare.
    fn default() -> (r: DoHJsonProvider)
        ensures
            is_cloudflare(r),
    {
        let mut cloudflare_headers: Vec<(String, String)> = Vec::new();
        cloudflare_headers.push(
            (String::from_str("accept"), String::from_str("application/dns-json")),
        );
        DoHJsonProvider {
            id: String::from_str("cloudflare"),
            scheme: String::from_str("https"),
            authority: String::from_str("cloudflare-dns.com"),
            path: String::from_str("/dns-query"),
            query: None,
            headers: cloudflare_headers,
        }
    }
}

/// A copy of a string with the same characters.
pub fn clone_string(s: &String) -> (r: String)
    ensures
        r@ == s@,
{
    s.as_str().to_owned()
}

/// A copy of a header list with the same names and values.
pub fn clone_headers(h: &Vec<(String, String)>) -> (r: Vec<(String, String)>)
    ensures
        headers_view(r@) == headers_view(h@),
{
    let mut r: Vec<(String, String)> = Vec::new();
    let mut i: usize = 0;
    while i < h.len()
        invariant
            0 <= i <= h@.len(),
            r@.len() == i,
            forall|k: int|
                0 <= k < i ==> #[trigger] r@[k].0@ == h@[k].0@ && r@[k].1@ == h@[k].1@,
        decreases h@.len() - i,
    {
        let name = clone_string(&h[i].0);
        let value = clone_string(&h[i].1);
        r.push((name, value));
        i += 1;
    }
    proof {
        assert(headers_view(r@) =~= headers_view(h@));
    }
    r
}

} // verus!
