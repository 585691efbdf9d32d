//! Data model for DNS messages: record types, questions, resource records,
//! the EDNS pseudo-record and the message itself, together with the
//! well-formedness predicates that the wire codec and the resolver rely on.

use vstd::prelude::*;

verus! {

/// The class used for every question and record this server produces.
pub const DNS_CLASS_IN: u16 = 1;

/// Whether a DNS message is a query or a response (the QR header bit).
#[derive(Clone, Copy, Debug, PartialEq, Eq, Structural)]
pub enum DnsMessageType {
    Query,
    Response,
}

/// A DNS resource-record type. The variants are the types this gateway
/// understands; every other IANA value is carried as `Unknown`.
#[derive(Clone, Copy, Debug, PartialEq, Eq, Structural)]
pub enum DnsRecordType {
    A,
    NS,
    CNAME,
    PTR,
    AAAA,
    OPT,
    Unknown(u16),
}

impl DnsRecordType {
    /// The IANA numeric value of this record type.
    pub open spec fn spec_to_u16(self) -> u16 {
        match self {
            DnsRecordType::A => 1,
            DnsRecordType::NS => 2,
            DnsRecordType::CNAME => 5,
            DnsRecordType::PTR => 12,
            DnsRecordType::AAAA => 28,
            DnsRecordType::OPT => 41,
            DnsRecordType::Unknown(v) => v,
        }
    }

    /// `Unknown` never shadows a value that has a variant of its own, so the
    /// numeric value determines the variant.
    pub open spec fn wf(self) -> bool {
        match self {
            DnsRecordType::Unknown(v) => v != 1 && v != 2 && v != 5 && v != 12 && v != 28
                && v != 41,
            _ => true,
        }
    }

    /// The record type a numeric value denotes.
    pub open spec fn spec_from_u16(code: u16) -> DnsRecordType {
        if code == 1 {
            DnsRecordType::A
        } else if code == 2 {
            DnsRecordType::NS
        } else if code == 5 {
            DnsRecordType::CNAME
        } else if code == 12 {
            DnsRecordType::PTR
        } else if code == 28 {
            DnsRecordType::AAAA
        } else if code == 41 {
            DnsRecordType::OPT
        } else {
            DnsRecordType::Unknown(code)
        }
    }

    #[verifier::when_used_as_spec(spec_to_u16)]
    pub fn to_u16(self) -> (r: u16)
        ensures
            r == self.spec_to_u16(),
    {
        match self {
            DnsRecordType::A => 1,
            DnsRecordType::NS => 2,
            DnsRecordType::CNAME => 5,
            DnsRecordType::PTR => 12,
            DnsRecordType::AAAA => 28,
            DnsRecordType::OPT => 41,
            DnsRecordType::Unknown(v) => v,
        }
    }

    pub fn from_u16(code: u16) -> (r: DnsRecordType)
        ensures
            r == DnsRecordType::spec_from_u16(code),
            r.wf(),
            r.spec_to_u16() == code,
    {
        if code == 1 {
            DnsRecordType::A
        } else if code == 2 {
            DnsRecordType::NS
        } else if code == 5 {
            DnsRecordType::CNAME
        } else if code == 12 {
            DnsRecordType::PTR
        } else if code == 28 {
            DnsRecordType::AAAA
        } else if code == 41 {
            DnsRecordType::OPT
        } else {
            DnsRecordType::Unknown(code)
        }
    }

    /// The numeric value round-trips through the variant for every
    /// well-formed record type.
    pub proof fn lemma_u16_round_trip(t: DnsRecordType)
        requires
            t.wf(),
        ensures
            DnsRecordType::spec_from_u16(t.spec_to_u16()) == t,
    {
    }
}

/// Characters a domain-name label may contain: printable ASCII other than
/// the dot, which separates labels.
pub open spec fn is_name_char(c: char) -> bool {
    33 <= c as int <= 126 && c != '.'
}

/// The index of the first `.` in `s`, or `s.len()` when there is none.
pub open spec fn dot_pos(s: Seq<char>) -> int
    decreases s.len(),
{
    if s.len() == 0 {
        0
    } else if s[0] == '.' {
        0
    } else {
        1 + dot_pos(s.skip(1))
    }
}

pub proof fn lemma_dot_pos_bounds(s: Seq<char>)
    ensures
        0 <= dot_pos(s) <= s.len(),
        forall|i: int| 0 <= i < dot_pos(s) ==> s[i] != '.',
        dot_pos(s) < s.len() ==> s[dot_pos(s)] == '.',
    decreases s.len(),
{
    if s.len() != 0 && s[0] != '.' {
        lemma_dot_pos_bounds(s.skip(1));
        assert forall|i: int| 0 <= i < dot_pos(s) implies s[i] != '.' by {
            if i > 0 {
                assert(s.skip(1)[i - 1] == s[i]);
            }
        }
        if dot_pos(s) < s.len() {
            assert(s.skip(1)[dot_pos(s) - 1] == s[dot_pos(s)]);
        }
    }
}

/// A sequence of dot-terminated labels: each label is 1 to 63 name
/// characters followed by a dot, and nothing follows the last dot.
pub open spec fn wf_name_labels(s: Seq<char>) -> bool
    decreases s.len(),
{
    if s.len() == 0 {
        true
    } else {
        let k = dot_pos(s);
        &&& k < s.len()
        &&& 1 <= k <= 63
        &&& (forall|i: int| 0 <= i < k ==> is_name_char(s[i]))
        &&& wf_name_labels(s.skip(k + 1))
    }
}

/// A well-formed, fully qualified domain name: either the root name `.` or
/// a dot-terminated label sequence short enough for the wire format.
pub open spec fn wf_dns_name(s: Seq<char>) -> bool {
    if s.len() <= 1 {
        s == seq!['.']
    } else {
        wf_name_labels(s) && s.len() <= 254
    }
}

/// The first `.` of `s` is at `j` when no dot precedes `j` and `s[j]` is a
/// dot; when `s` has no dot at all, `dot_pos` is the length.
pub proof fn lemma_dot_pos_unique(s: Seq<char>, j: int)
    requires
        0 <= j <= s.len(),
        forall|m: int| 0 <= m < j ==> s[m] != '.',
        j < s.len() ==> s[j] == '.',
    ensures
        dot_pos(s) == if j < s.len() {
            j
        } else {
            s.len() as int
        },
    decreases s.len(),
{
    if s.len() != 0 && s[0] != '.' {
        assert forall|m: int| 0 <= m < j - 1 implies s.skip(1)[m] != '.' by {
            assert(s.skip(1)[m] == s[m + 1]);
        }
        if j < s.len() {
            assert(s.skip(1)[j - 1] == s[j]);
        }
        lemma_dot_pos_unique(s.skip(1), j - 1);
    }
}

/// Every character of a well-formed label sequence is a dot or a name
/// character, hence ASCII.
pub proof fn lemma_wf_name_labels_ascii(s: Seq<char>)
    requires
        wf_name_labels(s),
    ensures
        forall|i: int| 0 <= i < s.len() ==> '\0' <= #[trigger] s[i] <= '\u{7f}',
    decreases s.len(),
{
    if s.len() != 0 {
        let k = dot_pos(s);
        lemma_dot_pos_bounds(s);
        lemma_wf_name_labels_ascii(s.skip(k + 1));
        assert forall|i: int| 0 <= i < s.len() implies '\0' <= #[trigger] s[i] <= '\u{7f}' by {
            if i > k {
                assert(s.skip(k + 1)[i - k - 1] == s[i]);
            }
        }
    }
}

/// Whether `s` is a well-formed, fully qualified domain name.
pub fn check_dns_name(s: &str) -> (r: bool)
    ensures
        r == wf_dns_name(s@),
{
    if !s.is_ascii() {
        proof {
            if wf_dns_name(s@) {
                if s@.len() <= 1 {
                    reveal_strlit(".");
                    assert(s@ == seq!['.']);
                    assert(vstd::utf8::is_ascii_chars(s@));
                } else {
                    lemma_wf_name_labels_ascii(s@);
                    assert(vstd::utf8::is_ascii_chars(s@));
                }
            }
        }
        return false;
    }
    let n: usize = s.unicode_len();
    if n == 0 {
        return false;
    }
    if n == 1 {
        let is_root: bool = s.get_ascii(0) == 46;
        proof {
            if is_root {
                assert(s@ =~= seq!['.']);
            } else {
                assert(s@ != seq!['.']);
            }
        }
        return is_root;
    }
    if n > 254 {
        return false;
    }
    proof {
        assert(s@.skip(0) =~= s@);
    }
    let mut i: usize = 0;
    while i < n
        invariant
            s.is_ascii(),
            s@.len() == n,
            1 < n <= 254,
            0 <= i <= n,
            wf_name_labels(s@) == wf_name_labels(s@.skip(i as int)),
        decreases n - i,
    {
        let ghost rest = s@.skip(i as int);
        let mut k: usize = i;
        while k < n && s.get_ascii(k) != 46
            invariant
                s.is_ascii(),
                s@.len() == n,
                i <= k <= n,
                forall|m: int| i <= m < k ==> s@[m] != '.',
            decreases n - k,
        {
            k += 1;
        }
        proof {
            assert forall|m: int| 0 <= m < k - i implies rest[m] != '.' by {
                assert(rest[m] == s@[i + m]);
            }
            if k < n {
                assert(rest[k - i] == s@[k as int]);
            }
            lemma_dot_pos_unique(rest, k - i);
        }
        if k >= n {
            // no closing dot: the last label is not terminated
            proof {
                assert(dot_pos(rest) == rest.len());
                assert(!wf_name_labels(rest));
            }
            return false;
        }
        let label_len: usize = k - i;
        if label_len == 0 || label_len > 63 {
            proof {
                assert(!wf_name_labels(rest));
            }
            return false;
        }
        let mut m: usize = i;
        while m < k
            invariant
                s.is_ascii(),
                s@.len() == n,
                1 < n <= 254,
                i <= m <= k < n,
                rest == s@.skip(i as int),
                dot_pos(rest) == k - i,
                wf_name_labels(s@) == wf_name_labels(rest),
                forall|t: int| i <= t < m ==> is_name_char(s@[t]),
            decreases k - m,
        {
            let c: u8 = s.get_ascii(m);
            if c < 33 || c > 126 || c == 46 {
                proof {
                    assert(!is_name_char(s@[m as int]));
                    assert(rest[m - i] == s@[m as int]);
                    assert(!wf_name_labels(rest));
                }
                return false;
            }
            m += 1;
        }
        proof {
            assert forall|t: int| 0 <= t < dot_pos(rest) implies is_name_char(rest[t]) by {
                assert(rest[t] == s@[i + t]);
            }
            assert(rest.skip(k - i + 1) =~= s@.skip(k + 1));
            assert(wf_name_labels(rest) == wf_name_labels(s@.skip(k + 1)));
        }
        i = k + 1;
    }
    proof {
        assert(s@.skip(n as int) =~= Seq::<char>::empty());
        assert(wf_name_labels(s@.skip(n as int)));
    }
    true
}

/// A question carried in a DNS message.
#[derive(Clone, Debug, PartialEq, Eq)]
pub struct DnsQuery {
    /// Fully qualified name with a trailing dot.
    pub name: String,
    pub query_type: DnsRecordType,
    pub query_class: u16,
}

impl DnsQuery {
    pub open spec fn wf(self) -> bool {
        wf_dns_name(self.name@) && self.query_type.wf()
    }

    /// A question of class IN, as every query this gateway handles uses.
    pub fn query(name: String, query_type: DnsRecordType) -> (r: DnsQuery)
        ensures
            r.name == name,
            r.query_type == query_type,
            r.query_class == DNS_CLASS_IN,
    {
        DnsQuery { name, query_type, query_class: DNS_CLASS_IN }
    }
}

/// The data of a resource record. Typed variants cover the record types the
/// gateway interprets; `Unknown` carries the raw RDATA of any other record.
#[derive(Clone, Debug, PartialEq, Eq)]
pub enum DnsRData {
    /// Four octets of an IPv4 address.
    A(Vec<u8>),
    /// Sixteen octets of an IPv6 address.
    AAAA(Vec<u8>),
    CNAME(String),
    NS(String),
    PTR(String),
    /// Raw RDATA of a record type the gateway does not interpret.
    Unknown(Vec<u8>),
}

impl DnsRData {
    /// The record type this data belongs to, when the variant fixes one.
    pub fn to_record_type(&self) -> (r: Option<DnsRecordType>)
        ensures
            r == match self {
                DnsRData::A(_) => Some(DnsRecordType::A),
                DnsRData::AAAA(_) => Some(DnsRecordType::AAAA),
                DnsRData::CNAME(_) => Some(DnsRecordType::CNAME),
                DnsRData::NS(_) => Some(DnsRecordType::NS),
                DnsRData::PTR(_) => Some(DnsRecordType::PTR),
                DnsRData::Unknown(_) => None::<DnsRecordType>,
            },
    {
        match self {
            DnsRData::A(_) => Some(DnsRecordType::A),
            DnsRData::AAAA(_) => Some(DnsRecordType::AAAA),
            DnsRData::CNAME(_) => Some(DnsRecordType::CNAME),
            DnsRData::NS(_) => Some(DnsRecordType::NS),
            DnsRData::PTR(_) => Some(DnsRecordType::PTR),
            DnsRData::Unknown(_) => None,
        }
    }
}

/// A resource record of the answer, authority or additional section.
#[derive(Clone, Debug, PartialEq, Eq)]
pub struct DnsRecord {
    /// Fully qualified name with a trailing dot.
    pub name: String,
    pub record_type: DnsRecordType,
    pub dns_class: u16,
    pub ttl: u32,
    pub rdata: DnsRData,
}

impl DnsRecord {
    /// A typed RDATA variant must agree with the record type, names must be
    /// well formed, and raw RDATA must fit its 16-bit length field.
    pub open spec fn wf(self) -> bool {
        &&& wf_dns_name(self.name@)
        &&& self.record_type.wf()
        &&& self.record_type != DnsRecordType::OPT
        &&& match self.rdata {
            DnsRData::A(v) => self.record_type == DnsRecordType::A && v@.len() == 4,
            DnsRData::AAAA(v) => self.record_type == DnsRecordType::AAAA && v@.len() == 16,
            DnsRData::CNAME(n) => self.record_type == DnsRecordType::CNAME && wf_dns_name(n@),
            DnsRData::NS(n) => self.record_type == DnsRecordType::NS && wf_dns_name(n@),
            DnsRData::PTR(n) => self.record_type == DnsRecordType::PTR && wf_dns_name(n@),
            DnsRData::Unknown(v) => v@.len() <= 0xFFFF,
        }
    }

    /// Constructor mirroring how answers are assembled from a parsed reply.
    pub fn from_rdata(name: String, ttl: u32, record_type: DnsRecordType, rdata: DnsRData) -> (
        r: DnsRecord)
        ensures
            r == (DnsRecord { name, record_type, dns_class: DNS_CLASS_IN, ttl, rdata }),
    {
        DnsRecord { name, record_type, dns_class: DNS_CLASS_IN, ttl, rdata }
    }
}

/// The EDNS pseudo-record (RFC 6891): the fields packed into the OPT
/// record's class and TTL, plus its options as (code, data) pairs in wire
/// order.
#[derive(Clone, Debug, PartialEq, Eq)]
pub struct DnsEdns {
    /// Maximum UDP payload size the sender accepts (the OPT class field).
    pub payload_size: u16,
    /// Upper eight bits of the extended response code.
    pub ext_rcode: u8,
    pub version: u8,
    pub flags: u16,
    pub options: Vec<(u16, Vec<u8>)>,
}

/// The EDNS option code for Client Subnet (RFC 7871).
pub const EDNS_OPTION_CODE_SUBNET: u16 = 8;

/// The classic maximum DNS-over-UDP payload, used as the advertised
/// payload size of OPT records this gateway synthesizes.
pub const EDNS_DEFAULT_PAYLOAD_SIZE: u16 = 512;

impl DnsEdns {
    /// Every option's data must fit its 16-bit length field, and the whole
    /// RDATA must fit the record's 16-bit length field.
    pub open spec fn wf(self) -> bool {
        &&& self.options@.len() <= 0xFFFF
        &&& (forall|i: int|
            0 <= i < self.options@.len() ==> #[trigger] self.options@[i].1@.len() <= 0xFFFF)
        &&& spec_edns_rdata_len(self.options@) <= 0xFFFF
    }

    /// The option data stored under `code`: the first match in wire
    /// order, exactly as `find_option` states.
    pub fn option(&self, code: u16) -> (r: Option<&Vec<u8>>)
        ensures
            match r {
                Some(v) => find_option(self.options@, code) == Some(v@),
                None => find_option(self.options@, code) is None,
            },
    {
        proof {
            assert(self.options@.skip(0) =~= self.options@);
        }
        let mut j: usize = 0;
        while j < self.options.len()
            invariant
                0 <= j <= self.options@.len(),
                find_option(self.options@, code) == find_option(
                    self.options@.skip(j as int),
                    code,
                ),
            decreases self.options@.len() - j,
        {
            proof {
                assert(self.options@.skip(j as int)[0] == self.options@[j as int]);
                assert(self.options@.skip(j as int).skip(1) =~= self.options@.skip(j + 1));
            }
            if self.options[j].0 == code {
                return Some(&self.options[j].1);
            }
            j += 1;
        }
        proof {
            assert(self.options@.skip(self.options@.len() as int) =~= Seq::<(u16, Vec<u8>)>::empty());
        }
        None
    }
}

/// The data of the first option stored under `code`, in wire order.
pub open spec fn find_option(options: Seq<(u16, Vec<u8>)>, code: u16) -> Option<Seq<u8>>
    decreases options.len(),
{
    if options.len() == 0 {
        None
    } else if options[0].0 == code {
        Some(options[0].1@)
    } else {
        find_option(options.skip(1), code)
    }
}

/// The wire length of the RDATA that a sequence of EDNS options encodes to:
/// four octets of code and length, then the data, for each option.
pub open spec fn spec_edns_rdata_len(options: Seq<(u16, Vec<u8>)>) -> int
    decreases options.len(),
{
    if options.len() == 0 {
        0
    } else {
        4 + options[0].1@.len() + spec_edns_rdata_len(options.skip(1))
    }
}

/// A DNS message: the RFC 1035 header fields, the four record sections and
/// the optional EDNS pseudo-record split out of the additional section.
#[derive(Clone, Debug, PartialEq, Eq)]
pub struct DnsMessage {
    pub id: u16,
    pub message_type: DnsMessageType,
    /// Four-bit operation code.
    pub op_code: u8,
    pub authoritative: bool,
    pub truncated: bool,
    pub recursion_desired: bool,
    pub recursion_available: bool,
    pub authentic_data: bool,
    pub checking_disabled: bool,
    /// Four-bit header response code.
    pub response_code: u16,
    pub queries: Vec<DnsQuery>,
    pub answers: Vec<DnsRecord>,
    pub name_servers: Vec<DnsRecord>,
    pub additionals: Vec<DnsRecord>,
    pub edns: Option<DnsEdns>,
}

impl DnsMessage {
    /// Well-formedness for the wire: bounded header fields, well-formed
    /// sections, and section counts that fit their 16-bit header fields.
    pub open spec fn wf(self) -> bool {
        &&& self.op_code < 16
        &&& self.response_code < 16
        &&& self.queries@.len() <= 0xFFFF
        &&& self.answers@.len() <= 0xFFFF
        &&& self.name_servers@.len() <= 0xFFFF
        &&& self.additionals@.len() + (if self.edns is Some {
            1int
        } else {
            0int
        }) <= 0xFFFF
        &&& (forall|i: int| 0 <= i < self.queries@.len() ==> #[trigger] self.queries@[i].wf())
        &&& (forall|i: int| 0 <= i < self.answers@.len() ==> #[trigger] self.answers@[i].wf())
        &&& (forall|i: int|
            0 <= i < self.name_servers@.len() ==> #[trigger] self.name_servers@[i].wf())
        &&& (forall|i: int|
            0 <= i < self.additionals@.len() ==> #[trigger] self.additionals@[i].wf())
        &&& match self.edns {
            Some(e) => e.wf(),
            None => true,
        }
    }

    /// A fresh message with every field at its neutral value, as a new
    /// response starts out.
    pub fn new() -> (r: DnsMessage)
        ensures
            r.id == 0,
            r.message_type == DnsMessageType::Query,
            r.op_code == 0,
            r.authoritative == false,
            r.truncated == false,
            r.recursion_desired == false,
            r.recursion_available == false,
            r.authentic_data == false,
            r.checking_disabled == false,
            r.response_code == 0,
            r.queries@ == Seq::<DnsQuery>::empty(),
            r.answers@ == Seq::<DnsRecord>::empty(),
            r.name_servers@ == Seq::<DnsRecord>::empty(),
            r.additionals@ == Seq::<DnsRecord>::empty(),
            r.edns is None,
            r.wf(),
    {
        DnsMessage {
            id: 0,
            message_type: DnsMessageType::Query,
            op_code: 0,
            authoritative: false,
            truncated: false,
            recursion_desired: false,
            recursion_available: false,
            authentic_data: false,
            checking_disabled: false,
            response_code: 0,
            queries: Vec::new(),
            answers: Vec::new(),
            name_servers: Vec::new(),
            additionals: Vec::new(),
            edns: None,
        }
    }

    pub fn add_query(&mut self, query: DnsQuery)
        ensures
            *final(self) == (DnsMessage {
                queries: final(self).queries,
                ..*old(self)
            }),
            final(self).queries@ == old(self).queries@.push(query),
    {
        self.queries.push(query);
    }

    pub fn add_answer(&mut self, answer: DnsRecord)
        ensures
            *final(self) == (DnsMessage {
                answers: final(self).answers,
                ..*old(self)
            }),
            final(self).answers@ == old(self).answers@.push(answer),
    {
        self.answers.push(answer);
    }

    pub fn set_edns(&mut self, edns: DnsEdns)
        ensures
            *final(self) == (DnsMessage { edns: Some(edns), ..*old(self) }),
    {
        self.edns = Some(edns);
    }
}

} // verus!
