//! The DoH JSON response model: the fields of the ad-hoc JSON schema that
//! Google defined and the other public resolvers adopted, and the logic
//! that applies such a reply to the DNS response message under
//! construction.

use vstd::prelude::*;
use crate::dns::{DnsMessage, DnsQuery, DnsRecord, DnsRData, DnsRecordType, DnsEdns, check_dns_name,
    wf_dns_name, DNS_CLASS_IN, EDNS_OPTION_CODE_SUBNET, EDNS_DEFAULT_PAYLOAD_SIZE,
    spec_edns_rdata_len};
use crate::subnet::{IpNet, ipv4_text, ipnet_v4_text, ipv6_bytes_text, parse_ipv4, parse_ipv6};
use crate::text::{dec_digits, dec_bytes, u32_to_string, parse_dec_u32, span_eq};
use crate::provider::clone_string;

verus! {

/// A question echoed by a DoH JSON reply.
#[derive(Clone, Debug, PartialEq, Eq)]
pub struct DoHJsonQuestion {
    /// Fully qualified name with a trailing dot.
    pub name: String,
    pub question_type: DnsRecordType,
}

impl DoHJsonQuestion {
    /// The record type assumed when a reply omits the question's `type`.
    pub fn question_type_default() -> (r: DnsRecordType)
        ensures
            r == DnsRecordType::A,
    {
        DnsRecordType::A
    }
}

/// An answer record of a DoH JSON reply; `data` is the textual RDATA whose
/// meaning depends on the record type.
#[derive(Clone, Debug, PartialEq, Eq)]
pub struct DoHJsonAnswer {
    /// Fully qualified name with a trailing dot.
    pub name: String,
    pub answer_type: DnsRecordType,
    pub ttl: u32,
    pub data: String,
}

impl DoHJsonAnswer {
    /// The record type assumed when a reply omits an answer's `type`.
    pub fn answer_type_default() -> (r: DnsRecordType)
        ensures
            r == DnsRecordType::A,
    {
        DnsRecordType::A
    }
}

/// The deserialized body of a DoH JSON reply.
#[derive(Clone, Debug, PartialEq, Eq)]
pub struct DoHJsonResponse {
    /// The numeric DNS response code (the schema's `Status`).
    pub response_code: u16,
    pub truncated: bool,
    pub recursion_desired: bool,
    pub recursion_available: bool,
    pub authenticated_data: bool,
    pub checking_disabled: bool,
    pub question: Vec<DoHJsonQuestion>,
    pub answer: Vec<DoHJsonAnswer>,
    /// The raw JSON text of the `Additional` array, carried through unread.
    pub additional_raw: String,
    /// The reply's Client Subnet, when the CIDR text was present and valid.
    pub edns_client_subnet: Option<IpNet>,
    pub comment: String,
}

impl Default for DoHJsonResponse {
    /// A reply with no questions and no answers, and the flags a recursive
    /// resolver typically reports.
    fn default() -> (r: DoHJsonResponse)
        ensures
            r.response_code == 0,
            r.truncated == false,
            r.recursion_desired == true,
            r.recursion_available == true,
            r.authenticated_data == false,
            r.checking_disabled == false,
            r.question@.len() == 0,
            r.answer@.len() == 0,
            r.additional_raw@ == "[]"@,
            r.edns_client_subnet is None,
            r.comment@.len() == 0,
    {
        proof {
            reveal_strlit("");
        }
        DoHJsonResponse {
            response_code: 0,
            truncated: false,
            recursion_desired: true,
            recursion_available: true,
            authenticated_data: false,
            checking_disabled: false,
            question: Vec::new(),
            answer: Vec::new(),
            additional_raw: String::from_str("[]"),
            edns_client_subnet: None,
            comment: String::new(),
        }
    }
}

/// The RDATA of the Client Subnet option synthesized from a reply whose
/// `edns_client_subnet` named `net`: two octets of address family, the
/// source prefix length the client asked for, the scope prefix length of
/// the reply, then the address octets (RFC 7871).
pub open spec fn spec_subnet_option_data(req_prefix: u8, net: IpNet) -> Seq<u8> {
    seq![
        0u8,
        if net.v6 {
            2u8
        } else {
            1u8
        },
        req_prefix,
        net.prefix_len,
    ] + net.octets@
}

/// The EDNS pseudo-record carrying the Client Subnet of a reply.
pub fn edns_from_client_subnet(req_subnet_prefix_len: u8, res_subnet: &IpNet) -> (r: DnsEdns)
    requires
        res_subnet.wf(),
    ensures
        r.payload_size == EDNS_DEFAULT_PAYLOAD_SIZE,
        r.ext_rcode == 0,
        r.version == 0,
        r.flags == 0,
        r.options@.len() == 1,
        r.options@[0].0 == EDNS_OPTION_CODE_SUBNET,
        r.options@[0].1@ == spec_subnet_option_data(req_subnet_prefix_len, *res_subnet),
        r.wf(),
{
    let mut data: Vec<u8> = Vec::new();
    data.push(0);
    if res_subnet.v6 {
        data.push(2);
    } else {
        data.push(1);
    }
    data.push(req_subnet_prefix_len);
    data.push(res_subnet.prefix_len);
    let mut oi: usize = 0;
    while oi < res_subnet.octets.len()
        invariant
            res_subnet.wf(),
            0 <= oi <= res_subnet.octets@.len(),
            data@.len() == 4 + oi,
            data@.subrange(0, 4) == spec_subnet_option_data(
                req_subnet_prefix_len,
                *res_subnet,
            ).subrange(0, 4),
            data@.subrange(4, data@.len() as int) == res_subnet.octets@.subrange(0, oi as int),
        decreases res_subnet.octets@.len() - oi,
    {
        data.push(res_subnet.octets[oi]);
        proof {
            assert(data@.subrange(0, 4) =~= spec_subnet_option_data(
                req_subnet_prefix_len,
                *res_subnet,
            ).subrange(0, 4));
            assert(data@.subrange(4, data@.len() as int) =~= res_subnet.octets@.subrange(
                0,
                oi + 1,
            ));
        }
        oi += 1;
    }
    proof {
        let spec_data = spec_subnet_option_data(req_subnet_prefix_len, *res_subnet);
        assert(data@.subrange(4, data@.len() as int) =~= res_subnet.octets@);
        assert forall|i: int| 0 <= i < data@.len() implies data@[i] == spec_data[i] by {
            if i < 4 {
                assert(data@[i] == data@.subrange(0, 4)[i]);
                assert(spec_data[i] == spec_data.subrange(0, 4)[i]);
            } else {
                assert(data@[i] == data@.subrange(4, data@.len() as int)[i - 4]);
            }
        }
        assert(data@ =~= spec_data);
    }
    let mut options: Vec<(u16, Vec<u8>)> = Vec::new();
    options.push((EDNS_OPTION_CODE_SUBNET, data));
    let r = DnsEdns {
        payload_size: EDNS_DEFAULT_PAYLOAD_SIZE,
        ext_rcode: 0,
        version: 0,
        flags: 0,
        options,
    };
    proof {
        assert(spec_edns_rdata_len(r.options@) == 4 + r.options@[0].1@.len()) by {
            assert(r.options@.skip(1) =~= Seq::<(u16, Vec<u8>)>::empty());
            assert(spec_edns_rdata_len(Seq::<(u16, Vec<u8>)>::empty()) == 0);
        }
    }
    r
}

/// The appended query mirrors the reply's question: same name, same type,
/// class IN.
pub open spec fn query_matches_question(dq: DnsQuery, q: DoHJsonQuestion) -> bool {
    &&& dq.name@ == q.name@
    &&& dq.query_type == q.question_type
    &&& dq.query_class == DNS_CLASS_IN
}

/// The appended record mirrors the reply's answer: same name, type and TTL,
/// class IN, and RDATA read from the answer's `data` text according to the
/// record type.
pub open spec fn record_matches_answer(rec: DnsRecord, a: DoHJsonAnswer) -> bool {
    &&& rec.name@ == a.name@
    &&& wf_dns_name(rec.name@)
    &&& rec.record_type == a.answer_type
    &&& rec.dns_class == DNS_CLASS_IN
    &&& rec.ttl == a.ttl
    &&& match rec.rdata {
        DnsRData::A(o) => a.answer_type == DnsRecordType::A && o@.len() == 4 && a.data@
            == ipv4_text(o@),
        DnsRData::AAAA(o) => a.answer_type == DnsRecordType::AAAA && o@.len() == 16,
        DnsRData::CNAME(n) => a.answer_type == DnsRecordType::CNAME && n@ == a.data@,
        DnsRData::NS(n) => a.answer_type == DnsRecordType::NS && n@ == a.data@,
        DnsRData::PTR(n) => a.answer_type == DnsRecordType::PTR && n@ == a.data@,
        DnsRData::Unknown(_) => false,
    }
}

/// The answers whose interpretation this crate's contracts promise: the
/// names are well formed and the `data` text is of the shape the record
/// type requires. An AAAA answer is appended exactly when its text parses
/// as an IPv6 address; that textual grammar is not restated here, so no
/// promise is made for AAAA (nor for types the gateway does not interpret).
pub open spec fn answer_definitely_interpreted(a: DoHJsonAnswer) -> bool {
    &&& wf_dns_name(a.name@)
    &&& match a.answer_type {
        DnsRecordType::A => exists|o: Seq<u8>| o.len() == 4 && a.data@ == ipv4_text(o),
        DnsRecordType::CNAME => wf_dns_name(a.data@),
        DnsRecordType::NS => wf_dns_name(a.data@),
        DnsRecordType::PTR => wf_dns_name(a.data@),
        DnsRecordType::AAAA => false,
        DnsRecordType::OPT => false,
        DnsRecordType::Unknown(_) => false,
    }
}

/// Every answer the contracts promise is picked by the index sequence.
pub open spec fn covers_interpreted(ix: Seq<int>, answers: Seq<DoHJsonAnswer>) -> bool {
    forall|j: int|
        0 <= j < answers.len() && #[trigger] answer_definitely_interpreted(answers[j])
            ==> exists|k: int| 0 <= k < ix.len() && #[trigger] ix[k] == j
}

/// The resource record a reply answer stands for: `Some` only when the
/// record type is one this gateway interprets, the names are well formed,
/// and the `data` text parses under that type; the record then mirrors the
/// answer exactly. `None` never drops a promised answer.
pub fn answer_to_record(answer: &DoHJsonAnswer) -> (r: Option<DnsRecord>)
    ensures
        match r {
            Some(rec) => record_matches_answer(rec, *answer) && rec.wf(),
            None => !answer_definitely_interpreted(*answer),
        },
{
    if !check_dns_name(answer.name.as_str()) {
        return None;
    }
    let name = clone_string(&answer.name);
    match answer.answer_type {
        DnsRecordType::A => {
            if !answer.data.is_ascii() {
                proof {
                    assert forall|o: Seq<u8>| !(o.len() == 4 && answer.data@ == #[trigger] ipv4_text(
                        o,
                    )) by {
                        if o.len() == 4 && answer.data@ == ipv4_text(o) {
                            crate::subnet::lemma_ipv4_text_ascii(o);
                            assert(vstd::utf8::is_ascii_chars(answer.data@));
                        }
                    }
                }
                return None;
            }
            let dr = parse_ipv4(answer.data.as_str(), 0);
            let dlen = answer.data.as_str().unicode_len();
            match dr {
                Some((o, end)) => {
                    if end == dlen {
                        proof {
                            assert(answer.data@.subrange(0, answer.data@.len() as int)
                                =~= answer.data@);
                        }
                        Some(DnsRecord {
                            name,
                            record_type: DnsRecordType::A,
                            dns_class: DNS_CLASS_IN,
                            ttl: answer.ttl,
                            rdata: DnsRData::A(o),
                        })
                    } else {
                        proof {
                            assert forall|oh: Seq<u8>| !(oh.len() == 4 && answer.data@
                                == #[trigger] ipv4_text(oh)) by {
                                if oh.len() == 4 && answer.data@ == ipv4_text(oh) {
                                    assert(answer.data@.subrange(0, answer.data@.len() as int)
                                        =~= answer.data@);
                                    assert(dr is Some && dr.unwrap().0@ == oh && dr.unwrap().1
                                        == answer.data@.len());
                                }
                            }
                        }
                        None
                    }
                },
                None => {
                    proof {
                        assert forall|oh: Seq<u8>| !(oh.len() == 4 && answer.data@
                            == #[trigger] ipv4_text(oh)) by {
                            if oh.len() == 4 && answer.data@ == ipv4_text(oh) {
                                assert(answer.data@.subrange(0, answer.data@.len() as int)
                                    =~= answer.data@);
                                assert(dr is Some && dr.unwrap().0@ == oh && dr.unwrap().1
                                    == answer.data@.len());
                            }
                        }
                    }
                    None
                },
            }
        },
        DnsRecordType::AAAA => {
            if !answer.data.is_ascii() {
                return None;
            }
            let dlen = answer.data.as_str().unicode_len();
            match parse_ipv6(answer.data.as_str(), 0, dlen) {
                Some(o) => Some(DnsRecord {
                    name,
                    record_type: DnsRecordType::AAAA,
                    dns_class: DNS_CLASS_IN,
                    ttl: answer.ttl,
                    rdata: DnsRData::AAAA(o),
                }),
                None => None,
            }
        },
        DnsRecordType::CNAME => {
            if !check_dns_name(answer.data.as_str()) {
                return None;
            }
            let target = clone_string(&answer.data);
            Some(DnsRecord {
                name,
                record_type: DnsRecordType::CNAME,
                dns_class: DNS_CLASS_IN,
                ttl: answer.ttl,
                rdata: DnsRData::CNAME(target),
            })
        },
        DnsRecordType::NS => {
            if !check_dns_name(answer.data.as_str()) {
                return None;
            }
            let target = clone_string(&answer.data);
            Some(DnsRecord {
                name,
                record_type: DnsRecordType::NS,
                dns_class: DNS_CLASS_IN,
                ttl: answer.ttl,
                rdata: DnsRData::NS(target),
            })
        },
        DnsRecordType::PTR => {
            if !check_dns_name(answer.data.as_str()) {
                return None;
            }
            let target = clone_string(&answer.data);
            Some(DnsRecord {
                name,
                record_type: DnsRecordType::PTR,
                dns_class: DNS_CLASS_IN,
                ttl: answer.ttl,
                rdata: DnsRData::PTR(target),
            })
        },
        DnsRecordType::OPT => None,
        DnsRecordType::Unknown(_) => None,
    }
}

/// The records appended by `apply` are, in order, the interpretable
/// answers of the reply: an increasing index sequence `ix` picks the reply
/// answers they mirror.
pub open spec fn answers_appended(
    base: int,
    out: Seq<DnsRecord>,
    answers: Seq<DoHJsonAnswer>,
    ix: Seq<int>,
) -> bool {
    &&& 0 <= base <= out.len()
    &&& ix.len() == out.len() - base
    &&& (forall|k: int| 0 <= k < ix.len() ==> 0 <= #[trigger] ix[k] < answers.len())
    &&& (forall|k: int| 0 <= k < ix.len() - 1 ==> #[trigger] ix[k] < ix[k + 1])
    &&& (forall|k: int|
        0 <= k < ix.len() ==> record_matches_answer(#[trigger] out[base + k], answers[ix[k]]))
}

impl DoHJsonResponse {
    /// Applies this reply to the DNS response message under construction:
    /// copies the reply's flags and response code into the header, appends
    /// one query per reply question and one record per interpretable reply
    /// answer, and attaches the Client Subnet option when the reply carried
    /// one. The message's identity fields are never touched.
    pub fn apply(&self, req_edns_client_subnet_prefix_len: u8, res_dns_msg: &mut DnsMessage)
        requires
            old(res_dns_msg).queries@.len() + self.question@.len() <= 0xFFFF,
            old(res_dns_msg).answers@.len() + self.answer@.len() <= 0xFFFF,
            match self.edns_client_subnet {
                Some(net) => net.wf(),
                None => true,
            },
        ensures
            final(res_dns_msg).id == old(res_dns_msg).id,
            final(res_dns_msg).message_type == old(res_dns_msg).message_type,
            final(res_dns_msg).op_code == old(res_dns_msg).op_code,
            final(res_dns_msg).authoritative == old(res_dns_msg).authoritative,
            final(res_dns_msg).name_servers == old(res_dns_msg).name_servers,
            final(res_dns_msg).additionals == old(res_dns_msg).additionals,
            final(res_dns_msg).truncated == self.truncated,
            final(res_dns_msg).recursion_desired == self.recursion_desired,
            final(res_dns_msg).recursion_available == self.recursion_available,
            final(res_dns_msg).authentic_data == self.authenticated_data,
            final(res_dns_msg).checking_disabled == self.checking_disabled,
            final(res_dns_msg).response_code == self.response_code,
            final(res_dns_msg).queries@.len() == old(res_dns_msg).queries@.len()
                + self.question@.len(),
            final(res_dns_msg).queries@.subrange(0, old(res_dns_msg).queries@.len() as int) == old(
                res_dns_msg,
            ).queries@,
            forall|i: int|
                0 <= i < self.question@.len() ==> query_matches_question(
                    #[trigger] final(res_dns_msg).queries@[old(res_dns_msg).queries@.len() + i],
                    self.question@[i],
                ),
            final(res_dns_msg).answers@.len() >= old(res_dns_msg).answers@.len(),
            final(res_dns_msg).answers@.subrange(0, old(res_dns_msg).answers@.len() as int) == old(
                res_dns_msg,
            ).answers@,
            forall|i: int|
                old(res_dns_msg).answers@.len() <= i < final(res_dns_msg).answers@.len()
                    ==> #[trigger] final(res_dns_msg).answers@[i].wf(),
            exists|ix: Seq<int>|
                answers_appended(
                    old(res_dns_msg).answers@.len() as int,
                    final(res_dns_msg).answers@,
                    self.answer@,
                    ix,
                ) && covers_interpreted(ix, self.answer@),
            match self.edns_client_subnet {
                Some(net) => match final(res_dns_msg).edns {
                    Some(e) => {
                        &&& e.payload_size == EDNS_DEFAULT_PAYLOAD_SIZE
                        &&& e.ext_rcode == 0
                        &&& e.version == 0
                        &&& e.flags == 0
                        &&& e.options@.len() == 1
                        &&& e.options@[0].0 == EDNS_OPTION_CODE_SUBNET
                        &&& e.options@[0].1@ == spec_subnet_option_data(
                            req_edns_client_subnet_prefix_len,
                            net,
                        )
                        &&& e.wf()
                    },
                    None => false,
                },
                None => final(res_dns_msg).edns == old(res_dns_msg).edns,
            },
    {
        res_dns_msg.truncated = self.truncated;
        res_dns_msg.recursion_desired = self.recursion_desired;
        res_dns_msg.recursion_available = self.recursion_available;
        res_dns_msg.authentic_data = self.authenticated_data;
        res_dns_msg.checking_disabled = self.checking_disabled;
        res_dns_msg.response_code = self.response_code;

        let ghost q_base = res_dns_msg.queries@.len() as int;
        let mut qi: usize = 0;
        while qi < self.question.len()
            invariant
                0 <= qi <= self.question@.len(),
                res_dns_msg.queries@.len() == q_base + qi,
                q_base >= 0,
                res_dns_msg.queries@.subrange(0, q_base) == old(res_dns_msg).queries@.subrange(
                    0,
                    q_base,
                ),
                res_dns_msg.queries@.len() >= q_base,
                forall|i: int|
                    0 <= i < qi ==> query_matches_question(
                        #[trigger] res_dns_msg.queries@[q_base + i],
                        self.question@[i],
                    ),
                res_dns_msg.answers == old(res_dns_msg).answers,
                res_dns_msg.name_servers == old(res_dns_msg).name_servers,
                res_dns_msg.additionals == old(res_dns_msg).additionals,
                res_dns_msg.edns == old(res_dns_msg).edns,
                res_dns_msg.id == old(res_dns_msg).id,
                res_dns_msg.message_type == old(res_dns_msg).message_type,
                res_dns_msg.op_code == old(res_dns_msg).op_code,
                res_dns_msg.authoritative == old(res_dns_msg).authoritative,
                res_dns_msg.truncated == self.truncated,
                res_dns_msg.recursion_desired == self.recursion_desired,
                res_dns_msg.recursion_available == self.recursion_available,
                res_dns_msg.authentic_data == self.authenticated_data,
                res_dns_msg.checking_disabled == self.checking_disabled,
                res_dns_msg.response_code == self.response_code,
            decreases self.question@.len() - qi,
        {
            let q = &self.question[qi];
            let name = clone_string(&q.name);
            res_dns_msg.add_query(DnsQuery { name, query_type: q.question_type, query_class: 1 });
            proof {
                assert(res_dns_msg.queries@.subrange(0, q_base) =~= old(
                    res_dns_msg,
                ).queries@.subrange(0, q_base));
            }
            qi += 1;
        }

        let ghost a_base = res_dns_msg.answers@.len() as int;
        let ghost queries_done = res_dns_msg.queries;
        let ghost mut ix: Seq<int> = Seq::empty();
        let mut ai: usize = 0;
        while ai < self.answer.len()
            invariant
                0 <= ai <= self.answer@.len(),
                a_base == old(res_dns_msg).answers@.len(),
                res_dns_msg.answers@.len() >= a_base,
                res_dns_msg.answers@.subrange(0, a_base) == old(res_dns_msg).answers@,
                answers_appended(a_base, res_dns_msg.answers@, self.answer@, ix),
                ix.len() > 0 ==> ix[ix.len() - 1] < ai,
                forall|j: int|
                    0 <= j < ai && #[trigger] answer_definitely_interpreted(self.answer@[j])
                        ==> exists|k: int| 0 <= k < ix.len() && #[trigger] ix[k] == j,
                forall|i: int|
                    a_base <= i < res_dns_msg.answers@.len()
                        ==> #[trigger] res_dns_msg.answers@[i].wf(),
                res_dns_msg.queries == queries_done,
                res_dns_msg.name_servers == old(res_dns_msg).name_servers,
                res_dns_msg.additionals == old(res_dns_msg).additionals,
                res_dns_msg.edns == old(res_dns_msg).edns,
                res_dns_msg.id == old(res_dns_msg).id,
                res_dns_msg.message_type == old(res_dns_msg).message_type,
                res_dns_msg.op_code == old(res_dns_msg).op_code,
                res_dns_msg.authoritative == old(res_dns_msg).authoritative,
                res_dns_msg.truncated == self.truncated,
                res_dns_msg.recursion_desired == self.recursion_desired,
                res_dns_msg.recursion_available == self.recursion_available,
                res_dns_msg.authentic_data == self.authenticated_data,
                res_dns_msg.checking_disabled == self.checking_disabled,
                res_dns_msg.response_code == self.response_code,
            decreases self.answer@.len() - ai,
        {
            match answer_to_record(&self.answer[ai]) {
                Some(rec) => {
                    res_dns_msg.add_answer(rec);
                    proof {
                        let ix0 = ix;
                        ix = ix.push(ai as int);
                        assert(res_dns_msg.answers@.subrange(0, a_base) =~= old(
                            res_dns_msg,
                        ).answers@);
                        assert forall|j: int|
                            0 <= j < ai + 1 && #[trigger] answer_definitely_interpreted(
                                self.answer@[j],
                            ) implies exists|k: int|
                            0 <= k < ix.len() && #[trigger] ix[k] == j by {
                            if j == ai {
                                assert(ix[ix.len() - 1] == j);
                            } else {
                                let k0 = choose|k0: int| 0 <= k0 < ix0.len() && #[trigger] ix0[k0]
                                    == j;
                                assert(ix[k0] == j);
                            }
                        }
                    }
                },
                None => {},
            }
            ai += 1;
        }

        proof {
            assert(answers_appended(a_base, res_dns_msg.answers@, self.answer@, ix));
        }
        match &self.edns_client_subnet {
            Some(client_subnet) => {
                let edns = edns_from_client_subnet(req_edns_client_subnet_prefix_len,
                    client_subnet);
                res_dns_msg.set_edns(edns);
            },
            None => {},
        }
        proof {
            assert(answers_appended(
                old(res_dns_msg).answers@.len() as int,
                res_dns_msg.answers@,
                self.answer@,
                ix,
            ) && covers_interpreted(ix, self.answer@));
        }
    }
}

/// The error produced when a reply body is not a JSON document of the DoH
/// schema.
#[derive(Clone, Debug)]
pub struct DoHParseError {
    pub desc: String,
}

impl DoHParseError {
    pub fn new(desc: &str) -> (r: DoHParseError)
        ensures
            r.desc@ == desc@,
    {
        DoHParseError { desc: desc.to_owned() }
    }
}

/// The JSON spelling of a boolean.
pub open spec fn json_bool(b: bool) -> Seq<char> {
    if b {
        "true"@
    } else {
        "false"@
    }
}

/// The JSON object a question serializes to.
pub open spec fn json_of_question(q: DoHJsonQuestion) -> Seq<char> {
    "{\"name\":\""@ + q.name@ + "\",\"type\":"@ + dec_digits(q.question_type.spec_to_u16() as nat)
        + "}"@
}

/// The JSON objects of a question list, comma separated.
pub open spec fn json_of_questions(qs: Seq<DoHJsonQuestion>) -> Seq<char>
    decreases qs.len(),
{
    if qs.len() == 0 {
        Seq::empty()
    } else if qs.len() == 1 {
        json_of_question(qs[0])
    } else {
        json_of_question(qs[0]) + ","@ + json_of_questions(qs.skip(1))
    }
}

/// The JSON object an answer serializes to.
pub open spec fn json_of_answer(a: DoHJsonAnswer) -> Seq<char> {
    "{\"name\":\""@ + a.name@ + "\",\"type\":"@ + dec_digits(a.answer_type.spec_to_u16() as nat)
        + ",\"TTL\":"@ + dec_digits(a.ttl as nat) + ",\"data\":\""@ + a.data@ + "\"}"@
}

/// The JSON objects of an answer list, comma separated.
pub open spec fn json_of_answers(ans: Seq<DoHJsonAnswer>) -> Seq<char>
    decreases ans.len(),
{
    if ans.len() == 0 {
        Seq::empty()
    } else if ans.len() == 1 {
        json_of_answer(ans[0])
    } else {
        json_of_answer(ans[0]) + ","@ + json_of_answers(ans.skip(1))
    }
}

/// The text serialized into the `edns_client_subnet` field: the CIDR text
/// of the subnet, or empty when the reply carried none.
pub open spec fn json_of_subnet(net: Option<IpNet>) -> Seq<char> {
    match net {
        Some(n) => if n.v6 {
            (ipv6_bytes_text(n.octets@) + seq![47u8] + dec_bytes(n.prefix_len as nat)).map_values(
                |b: u8| b as char,
            )
        } else {
            ipnet_v4_text(n.octets@, n.prefix_len)
        },
        None => Seq::empty(),
    }
}

/// The JSON document a reply serializes to: the schema's fields in their
/// canonical order, compact, with the `Additional` array written back
/// verbatim.
pub open spec fn json_of_response(r: DoHJsonResponse) -> Seq<char> {
    "{\"Status\":"@ + dec_digits(r.response_code as nat) + ",\"TC\":"@ + json_bool(r.truncated)
        + ",\"RD\":"@ + json_bool(r.recursion_desired) + ",\"RA\":"@ + json_bool(
        r.recursion_available,
    ) + ",\"AD\":"@ + json_bool(r.authenticated_data) + ",\"CD\":"@ + json_bool(
        r.checking_disabled,
    ) + ",\"Question\":["@ + json_of_questions(r.question@) + "],\"Answer\":["@ + json_of_answers(
        r.answer@,
    ) + "],\"Additional\":"@ + r.additional_raw@ + ",\"edns_client_subnet\":\""@ + json_of_subnet(
        r.edns_client_subnet,
    ) + "\",\"Comment\":\""@ + r.comment@ + "\"}"@
}

fn append_bool(b: bool, out: &mut String)
    ensures
        final(out)@ == old(out)@ + json_bool(b),
{
    if b {
        out.append("true");
    } else {
        out.append("false");
    }
}

fn append_question(q: &DoHJsonQuestion, out: &mut String)
    ensures
        final(out)@ == old(out)@ + json_of_question(*q),
{
    out.append("{\"name\":\"");
    out.append(q.name.as_str());
    out.append("\",\"type\":");
    let num = u32_to_string(q.question_type.to_u16() as u32);
    out.append(num.as_str());
    out.append("}");
    proof {
        assert(final(out)@ =~= old(out)@ + json_of_question(*q));
    }
}

fn append_answer(a: &DoHJsonAnswer, out: &mut String)
    ensures
        final(out)@ == old(out)@ + json_of_answer(*a),
{
    out.append("{\"name\":\"");
    out.append(a.name.as_str());
    out.append("\",\"type\":");
    let num = u32_to_string(a.answer_type.to_u16() as u32);
    out.append(num.as_str());
    out.append(",\"TTL\":");
    let ttl = u32_to_string(a.ttl);
    out.append(ttl.as_str());
    out.append(",\"data\":\"");
    out.append(a.data.as_str());
    out.append("\"}");
    proof {
        assert(final(out)@ =~= old(out)@ + json_of_answer(*a));
    }
}

impl DoHJsonResponse {
    /// The JSON text of this reply, exactly `json_of_response`.
    pub fn to_json_string(&self) -> (r: String)
        requires
            match self.edns_client_subnet {
                Some(net) => net.wf(),
                None => true,
            },
        ensures
            r@ == json_of_response(*self),
    {
        let mut out = String::new();
        out.append("{\"Status\":");
        let num = u32_to_string(self.response_code as u32);
        out.append(num.as_str());
        out.append(",\"TC\":");
        append_bool(self.truncated, &mut out);
        out.append(",\"RD\":");
        append_bool(self.recursion_desired, &mut out);
        out.append(",\"RA\":");
        append_bool(self.recursion_available, &mut out);
        out.append(",\"AD\":");
        append_bool(self.authenticated_data, &mut out);
        out.append(",\"CD\":");
        append_bool(self.checking_disabled, &mut out);
        out.append(",\"Question\":[");
        let ghost q_mark = out@;
        let mut qi: usize = 0;
        proof {
            assert(self.question@.skip(0) =~= self.question@);
        }
        while qi < self.question.len()
            invariant
                0 <= qi <= self.question@.len(),
                q_mark + json_of_questions(self.question@) == out@ + json_of_questions(
                    self.question@.skip(qi as int),
                ),
            decreases self.question@.len() - qi,
        {
            let ghost pre = out@;
            append_question(&self.question[qi], &mut out);
            if qi + 1 < self.question.len() {
                out.append(",");
            }
            proof {
                assert(self.question@.skip(qi as int)[0] == self.question@[qi as int]);
                assert(self.question@.skip(qi as int).skip(1) =~= self.question@.skip(qi + 1));
                if qi + 1 < self.question@.len() {
                    reveal_strlit(",");
                    assert(out@ + json_of_questions(self.question@.skip(qi + 1)) =~= pre
                        + json_of_questions(self.question@.skip(qi as int)));
                } else {
                    assert(self.question@.skip(qi as int).len() == 1);
                    assert(out@ + json_of_questions(self.question@.skip(qi + 1)) =~= pre
                        + json_of_questions(self.question@.skip(qi as int)));
                }
            }
            qi += 1;
        }
        proof {
            assert(self.question@.skip(self.question@.len() as int) =~= Seq::<
                DoHJsonQuestion,
            >::empty());
            assert(out@ =~= q_mark + json_of_questions(self.question@));
        }
        out.append("],\"Answer\":[");
        let ghost a_mark = out@;
        let mut ai: usize = 0;
        proof {
            assert(self.answer@.skip(0) =~= self.answer@);
        }
        while ai < self.answer.len()
            invariant
                0 <= ai <= self.answer@.len(),
                a_mark + json_of_answers(self.answer@) == out@ + json_of_answers(
                    self.answer@.skip(ai as int),
                ),
            decreases self.answer@.len() - ai,
        {
            let ghost pre = out@;
            append_answer(&self.answer[ai], &mut out);
            if ai + 1 < self.answer.len() {
                out.append(",");
            }
            proof {
                assert(self.answer@.skip(ai as int)[0] == self.answer@[ai as int]);
                assert(self.answer@.skip(ai as int).skip(1) =~= self.answer@.skip(ai + 1));
                if ai + 1 < self.answer@.len() {
                    reveal_strlit(",");
                    assert(out@ + json_of_answers(self.answer@.skip(ai + 1)) =~= pre
                        + json_of_answers(self.answer@.skip(ai as int)));
                } else {
                    assert(self.answer@.skip(ai as int).len() == 1);
                    assert(out@ + json_of_answers(self.answer@.skip(ai + 1)) =~= pre
                        + json_of_answers(self.answer@.skip(ai as int)));
                }
            }
            ai += 1;
        }
        proof {
            assert(self.answer@.skip(self.answer@.len() as int) =~= Seq::<DoHJsonAnswer>::empty());
            assert(out@ =~= a_mark + json_of_answers(self.answer@));
        }
        out.append("],\"Additional\":");
        out.append(self.additional_raw.as_str());
        out.append(",\"edns_client_subnet\":\"");
        match &self.edns_client_subnet {
            Some(net) => {
                let t = net.to_text();
                out.append(t.as_str());
            },
            None => {},
        }
        out.append("\",\"Comment\":\"");
        out.append(self.comment.as_str());
        out.append("\"}");
        proof {
            assert(out@ =~= json_of_response(*self));
        }
        out
    }
}

/// The position of the first non-blank character at or after `pos`.
fn skip_ws(s: &str, pos: usize) -> (r: usize)
    requires
        s.is_ascii(),
        pos <= s@.len(),
    ensures
        pos <= r <= s@.len(),
{
    let n: usize = s.unicode_len();
    let mut i: usize = pos;
    while i < n
        invariant
            s.is_ascii(),
            s@.len() == n,
            pos <= i <= n,
        decreases n - i,
    {
        let c: u8 = s.get_ascii(i);
        if c != 32 && c != 9 && c != 10 && c != 13 {
            return i;
        }
        i += 1;
    }
    i
}

/// Reads a JSON string starting at `pos`: returns the content span and the
/// position after the closing quote, which is the first quote after the
/// opening one. Strings with escape sequences are not accepted.
fn parse_string_span(s: &str, pos: usize) -> (r: Option<(usize, usize, usize)>)
    requires
        s.is_ascii(),
        pos <= s@.len(),
    ensures
        match r {
            Some(v) => {
                &&& pos < v.0 <= v.1 < v.2 <= s@.len()
                &&& v.0 == pos + 1
                &&& v.2 == v.1 + 1
                &&& s@[pos as int] == '"'
                &&& s@[v.1 as int] == '"'
                &&& forall|k: int| v.0 <= k < v.1 ==> s@[k] != '"' && s@[k] != '\\'
            },
            None => true,
        },
{
    let n: usize = s.unicode_len();
    if pos >= n || s.get_ascii(pos) != 34 {
        return None;
    }
    let mut i: usize = pos + 1;
    while i < n
        invariant
            s.is_ascii(),
            s@.len() == n,
            pos + 1 <= i <= n,
            s@[pos as int] == '"',
            forall|k: int| pos + 1 <= k < i ==> s@[k] != '"' && s@[k] != '\\',
        decreases n - i,
    {
        let c: u8 = s.get_ascii(i);
        if c == 34 {
            return Some((pos + 1, i, i + 1));
        }
        if c == 92 {
            return None;
        }
        i += 1;
    }
    None
}

/// Reads the literal `true` or `false` starting at `pos`.
fn parse_bool(s: &str, pos: usize) -> (r: Option<(bool, usize)>)
    requires
        s.is_ascii(),
        pos <= s@.len(),
    ensures
        match r {
            Some(v) => pos < v.1 <= s@.len(),
            None => true,
        },
{
    let n: usize = s.unicode_len();
    proof {
        reveal_strlit("true");
        reveal_strlit("false");
    }
    if n - pos >= 4 && span_eq(s, pos, pos + 4, "true") {
        return Some((true, pos + 4));
    }
    if n - pos >= 5 && span_eq(s, pos, pos + 5, "false") {
        return Some((false, pos + 5));
    }
    None
}

/// Skips one JSON value of any shape starting at `pos`: an object, array,
/// string, number, or literal. Returns the position after it.
fn skip_json_value(s: &str, pos: usize) -> (r: Option<usize>)
    requires
        s.is_ascii(),
        pos <= s@.len(),
    ensures
        match r {
            Some(end) => pos < end <= s@.len(),
            None => true,
        },
    decreases s@.len() - pos, 0int,
{
    let n: usize = s.unicode_len();
    if pos >= n {
        return None;
    }
    let c: u8 = s.get_ascii(pos);
    if c == 34 {
        // a string; escapes are tolerated here, since the value is skipped
        let mut i: usize = pos + 1;
        while i < n
            invariant
                s.is_ascii(),
                s@.len() == n,
                pos + 1 <= i <= n,
            decreases n - i,
        {
            let d: u8 = s.get_ascii(i);
            if d == 34 {
                return Some(i + 1);
            }
            if d == 92 {
                if n - i < 2 {
                    return None;
                }
                i += 2;
            } else {
                i += 1;
            }
        }
        return None;
    }
    if c == 91 {
        return skip_json_composite(s, pos + 1, 93);
    }
    if c == 123 {
        return skip_json_composite(s, pos + 1, 125);
    }
    // a number or literal: consume its plain characters
    let mut i: usize = pos;
    while i < n
        invariant
            s.is_ascii(),
            s@.len() == n,
            pos <= i <= n,
        decreases n - i,
    {
        let d: u8 = s.get_ascii(i);
        if d == 44 || d == 93 || d == 125 || d == 32 || d == 9 || d == 10 || d == 13 {
            if i == pos {
                return None;
            }
            return Some(i);
        }
        i += 1;
    }
    if i == pos {
        return None;
    }
    Some(i)
}

/// Skips the members of an array or object whose opening bracket was
/// consumed, up to and including the closing character `close`.
fn skip_json_composite(s: &str, pos: usize, close: u8) -> (r: Option<usize>)
    requires
        s.is_ascii(),
        pos <= s@.len(),
    ensures
        match r {
            Some(end) => pos < end <= s@.len(),
            None => true,
        },
    decreases s@.len() - pos, 1int,
{
    let n: usize = s.unicode_len();
    let mut i: usize = pos;
    while i < n
        invariant
            s.is_ascii(),
            s@.len() == n,
            pos <= i <= n,
        decreases n - i,
    {
        let c: u8 = s.get_ascii(i);
        if c == close {
            return Some(i + 1);
        }
        if c == 32 || c == 9 || c == 10 || c == 13 || c == 44 || c == 58 {
            i += 1;
        } else {
            let next = match skip_json_value(s, i) {
                Some(v) => v,
                None => { return None; },
            };
            i = next;
        }
    }
    None
}

/// Reads one question object of a reply's `Question` array.
fn parse_question_object(s: &str, pos: usize) -> (r: Option<(DoHJsonQuestion, usize)>)
    requires
        s.is_ascii(),
        pos <= s@.len(),
    ensures
        match r {
            Some(v) => pos < v.1 <= s@.len(),
            None => true,
        },
{
    let n: usize = s.unicode_len();
    if pos >= n || s.get_ascii(pos) != 123 {
        return None;
    }
    let mut i: usize = skip_ws(s, pos + 1);
    let mut name: Option<String> = None;
    let mut qtype: DnsRecordType = DoHJsonQuestion::question_type_default();
    if i < n && s.get_ascii(i) == 125 {
        return None;
    }
    loop
        invariant
            s.is_ascii(),
            s@.len() == n,
            pos < i <= n,
        decreases n - i,
    {
        let (ks, ke, after_key) = match parse_string_span(s, i) {
            Some(v) => v,
            None => { return None; },
        };
        let mut j: usize = skip_ws(s, after_key);
        if j >= n || s.get_ascii(j) != 58 {
            return None;
        }
        j = skip_ws(s, j + 1);
        proof {
            reveal_strlit("name");
            reveal_strlit("type");
        }
        if span_eq(s, ks, ke, "name") {
            let (cs, ce, after) = match parse_string_span(s, j) {
                Some(v) => v,
                None => { return None; },
            };
            name = Some(s.substring_ascii(cs, ce).to_owned());
            j = after;
        } else if span_eq(s, ks, ke, "type") {
            let (num, after) = match parse_dec_u32(s, j) {
                Some(v) => v,
                None => { return None; },
            };
            if num > 0xFFFF {
                return None;
            }
            qtype = DnsRecordType::from_u16(num as u16);
            j = after;
        } else {
            let after = match skip_json_value(s, j) {
                Some(v) => v,
                None => { return None; },
            };
            j = after;
        }
        j = skip_ws(s, j);
        if j < n && s.get_ascii(j) == 44 {
            i = skip_ws(s, j + 1);
            if i <= j {
                return None;
            }
        } else if j < n && s.get_ascii(j) == 125 {
            match name {
                Some(nm) => {
                    return Some((DoHJsonQuestion { name: nm, question_type: qtype }, j + 1));
                },
                None => {
                    return None;
                },
            }
        } else {
            return None;
        }
    }
}

/// Reads one answer object of a reply's `Answer` array.
fn parse_answer_object(s: &str, pos: usize) -> (r: Option<(DoHJsonAnswer, usize)>)
    requires
        s.is_ascii(),
        pos <= s@.len(),
    ensures
        match r {
            Some(v) => pos < v.1 <= s@.len(),
            None => true,
        },
{
    let n: usize = s.unicode_len();
    if pos >= n || s.get_ascii(pos) != 123 {
        return None;
    }
    let mut i: usize = skip_ws(s, pos + 1);
    let mut name: Option<String> = None;
    let mut atype: DnsRecordType = DoHJsonAnswer::answer_type_default();
    let mut ttl: Option<u32> = None;
    let mut data: Option<String> = None;
    if i < n && s.get_ascii(i) == 125 {
        return None;
    }
    loop
        invariant
            s.is_ascii(),
            s@.len() == n,
            pos < i <= n,
        decreases n - i,
    {
        let (ks, ke, after_key) = match parse_string_span(s, i) {
            Some(v) => v,
            None => { return None; },
        };
        let mut j: usize = skip_ws(s, after_key);
        if j >= n || s.get_ascii(j) != 58 {
            return None;
        }
        j = skip_ws(s, j + 1);
        proof {
            reveal_strlit("name");
            reveal_strlit("type");
            reveal_strlit("TTL");
            reveal_strlit("data");
        }
        if span_eq(s, ks, ke, "name") {
            let (cs, ce, after) = match parse_string_span(s, j) {
                Some(v) => v,
                None => { return None; },
            };
            name = Some(s.substring_ascii(cs, ce).to_owned());
            j = after;
        } else if span_eq(s, ks, ke, "type") {
            let (num, after) = match parse_dec_u32(s, j) {
                Some(v) => v,
                None => { return None; },
            };
            if num > 0xFFFF {
                return None;
            }
            atype = DnsRecordType::from_u16(num as u16);
            j = after;
        } else if span_eq(s, ks, ke, "TTL") {
            let (num, after) = match parse_dec_u32(s, j) {
                Some(v) => v,
                None => { return None; },
            };
            ttl = Some(num);
            j = after;
        } else if span_eq(s, ks, ke, "data") {
            let (cs, ce, after) = match parse_string_span(s, j) {
                Some(v) => v,
                None => { return None; },
            };
            data = Some(s.substring_ascii(cs, ce).to_owned());
            j = after;
        } else {
            let after = match skip_json_value(s, j) {
                Some(v) => v,
                None => { return None; },
            };
            j = after;
        }
        j = skip_ws(s, j);
        if j < n && s.get_ascii(j) == 44 {
            i = skip_ws(s, j + 1);
            if i <= j {
                return None;
            }
        } else if j < n && s.get_ascii(j) == 125 {
            match (name, ttl, data) {
                (Some(nm), Some(t), Some(d)) => {
                    return Some(
                        (DoHJsonAnswer { name: nm, answer_type: atype, ttl: t, data: d }, j + 1),
                    );
                },
                _ => {
                    return None;
                },
            }
        } else {
            return None;
        }
    }
}

/// Reads the `[` ... `]` array of question objects starting at `pos`.
fn parse_question_array(s: &str, pos: usize) -> (r: Option<(Vec<DoHJsonQuestion>, usize)>)
    requires
        s.is_ascii(),
        pos <= s@.len(),
    ensures
        match r {
            Some(v) => pos < v.1 <= s@.len(),
            None => true,
        },
{
    let n: usize = s.unicode_len();
    if pos >= n || s.get_ascii(pos) != 91 {
        return None;
    }
    let mut out: Vec<DoHJsonQuestion> = Vec::new();
    let mut i: usize = skip_ws(s, pos + 1);
    if i < n && s.get_ascii(i) == 93 {
        return Some((out, i + 1));
    }
    loop
        invariant
            s.is_ascii(),
            s@.len() == n,
            pos < i <= n,
        decreases n - i,
    {
        let (q, after) = match parse_question_object(s, i) {
            Some(v) => v,
            None => { return None; },
        };
        out.push(q);
        let j: usize = skip_ws(s, after);
        if j < n && s.get_ascii(j) == 44 {
            i = skip_ws(s, j + 1);
            if i <= j {
                return None;
            }
        } else if j < n && s.get_ascii(j) == 93 {
            return Some((out, j + 1));
        } else {
            return None;
        }
    }
}

/// Reads the `[` ... `]` array of answer objects starting at `pos`.
fn parse_answer_array(s: &str, pos: usize) -> (r: Option<(Vec<DoHJsonAnswer>, usize)>)
    requires
        s.is_ascii(),
        pos <= s@.len(),
    ensures
        match r {
            Some(v) => pos < v.1 <= s@.len(),
            None => true,
        },
{
    let n: usize = s.unicode_len();
    if pos >= n || s.get_ascii(pos) != 91 {
        return None;
    }
    let mut out: Vec<DoHJsonAnswer> = Vec::new();
    let mut i: usize = skip_ws(s, pos + 1);
    if i < n && s.get_ascii(i) == 93 {
        return Some((out, i + 1));
    }
    loop
        invariant
            s.is_ascii(),
            s@.len() == n,
            pos < i <= n,
        decreases n - i,
    {
        let (a, after) = match parse_answer_object(s, i) {
            Some(v) => v,
            None => { return None; },
        };
        out.push(a);
        let j: usize = skip_ws(s, after);
        if j < n && s.get_ascii(j) == 44 {
            i = skip_ws(s, j + 1);
            if i <= j {
                return None;
            }
        } else if j < n && s.get_ascii(j) == 93 {
            return Some((out, j + 1));
        } else {
            return None;
        }
    }
}

impl DoHJsonResponse {
    /// Reads a reply from its JSON text, as the upstream providers write
    /// it: the schema's fields in any order, unknown fields skipped, the
    /// `Additional` array kept verbatim, and an unparseable
    /// `edns_client_subnet` read as absent. `Status`, the five flags,
    /// `Question` and `Answer` must be present. By design only ASCII
    /// documents are accepted, and escape sequences in the strings the
    /// gateway reads make the reply unparseable: DNS names, addresses and
    /// CIDR texts never contain escapes, and an unparseable reply only
    /// skips that question.
    pub fn from_json_str(s: &str) -> (r: Result<DoHJsonResponse, DoHParseError>)
        ensures
            match r {
                Ok(resp) => match resp.edns_client_subnet {
                    Some(net) => net.wf(),
                    None => true,
                },
                Err(_) => true,
            },
    {
        if !s.is_ascii() {
            return Err(DoHParseError::new("the reply is not ASCII text"));
        }
        let n: usize = s.unicode_len();
        let mut i: usize = skip_ws(s, 0);
        if i >= n || s.get_ascii(i) != 123 {
            return Err(DoHParseError::new("the reply is not a JSON object"));
        }
        i = skip_ws(s, i + 1);
        let mut status: Option<u16> = None;
        let mut tc: Option<bool> = None;
        let mut rd: Option<bool> = None;
        let mut ra: Option<bool> = None;
        let mut ad: Option<bool> = None;
        let mut cd: Option<bool> = None;
        let mut question: Option<Vec<DoHJsonQuestion>> = None;
        let mut answer: Option<Vec<DoHJsonAnswer>> = None;
        let mut additional_raw: Option<String> = None;
        let mut ecs: Option<IpNet> = None;
        let mut comment: Option<String> = None;
        let mut closed: bool = false;
        if i < n && s.get_ascii(i) == 125 {
            closed = true;
            i = i + 1;
        }
        while !closed
            invariant
                s.is_ascii(),
                s@.len() == n,
                i <= n,
                match ecs {
                    Some(net) => net.wf(),
                    None => true,
                },
            decreases n - i,
        {
            let (ks, ke, after_key) = match parse_string_span(s, i) {
                Some(v) => v,
                None => { return Err(DoHParseError::new("expected a field name")); },
            };
            let mut j: usize = skip_ws(s, after_key);
            if j >= n || s.get_ascii(j) != 58 {
                return Err(DoHParseError::new("expected a colon after a field name"));
            }
            j = skip_ws(s, j + 1);
            proof {
                reveal_strlit("Status");
                reveal_strlit("TC");
                reveal_strlit("RD");
                reveal_strlit("RA");
                reveal_strlit("AD");
                reveal_strlit("CD");
                reveal_strlit("Question");
                reveal_strlit("Answer");
                reveal_strlit("Additional");
                reveal_strlit("edns_client_subnet");
                reveal_strlit("Comment");
            }
            if span_eq(s, ks, ke, "Status") {
                let (num, after) = match parse_dec_u32(s, j) {
                    Some(v) => v,
                    None => { return Err(DoHParseError::new("Status is not a number")); },
                };
                if num > 0xFFFF {
                    return Err(DoHParseError::new("Status is out of range"));
                }
                status = Some(num as u16);
                j = after;
            } else if span_eq(s, ks, ke, "TC") {
                let (v, after) = match parse_bool(s, j) {
                    Some(v) => v,
                    None => { return Err(DoHParseError::new("TC is not a boolean")); },
                };
                tc = Some(v);
                j = after;
            } else if span_eq(s, ks, ke, "RD") {
                let (v, after) = match parse_bool(s, j) {
                    Some(v) => v,
                    None => { return Err(DoHParseError::new("RD is not a boolean")); },
                };
                rd = Some(v);
                j = after;
            } else if span_eq(s, ks, ke, "RA") {
                let (v, after) = match parse_bool(s, j) {
                    Some(v) => v,
                    None => { return Err(DoHParseError::new("RA is not a boolean")); },
                };
                ra = Some(v);
                j = after;
            } else if span_eq(s, ks, ke, "AD") {
                let (v, after) = match parse_bool(s, j) {
                    Some(v) => v,
                    None => { return Err(DoHParseError::new("AD is not a boolean")); },
                };
                ad = Some(v);
                j = after;
            } else if span_eq(s, ks, ke, "CD") {
                let (v, after) = match parse_bool(s, j) {
                    Some(v) => v,
                    None => { return Err(DoHParseError::new("CD is not a boolean")); },
                };
                cd = Some(v);
                j = after;
            } else if span_eq(s, ks, ke, "Question") {
                let (v, after) = match parse_question_array(s, j) {
                    Some(v) => v,
                    None => { return Err(DoHParseError::new("Question is not a question array")); },
                };
                question = Some(v);
                j = after;
            } else if span_eq(s, ks, ke, "Answer") {
                let (v, after) = match parse_answer_array(s, j) {
                    Some(v) => v,
                    None => { return Err(DoHParseError::new("Answer is not an answer array")); },
                };
                answer = Some(v);
                j = after;
            } else if span_eq(s, ks, ke, "Additional") {
                let after = match skip_json_value(s, j) {
                    Some(v) => v,
                    None => { return Err(DoHParseError::new("Additional is not a JSON value")); },
                };
                additional_raw = Some(s.substring_ascii(j, after).to_owned());
                j = after;
            } else if span_eq(s, ks, ke, "edns_client_subnet") {
                let (cs, ce, after) = match parse_string_span(s, j) {
                    Some(v) => v,
                    None => {
                        return Err(DoHParseError::new("edns_client_subnet is not a string"));
                    },
                };
                proof {
                    assert(!crate::text::is_dec_digit(s@[ce as int]));
                }
                ecs = IpNet::parse(s, cs, ce);
                j = after;
            } else if span_eq(s, ks, ke, "Comment") {
                let (cs, ce, after) = match parse_string_span(s, j) {
                    Some(v) => v,
                    None => { return Err(DoHParseError::new("Comment is not a string")); },
                };
                comment = Some(s.substring_ascii(cs, ce).to_owned());
                j = after;
            } else {
                let after = match skip_json_value(s, j) {
                    Some(v) => v,
                    None => { return Err(DoHParseError::new("a field holds no JSON value")); },
                };
                j = after;
            }
            j = skip_ws(s, j);
            if j < n && s.get_ascii(j) == 44 {
                let next: usize = skip_ws(s, j + 1);
                if next <= i {
                    return Err(DoHParseError::new("the reply does not advance"));
                }
                i = next;
            } else if j < n && s.get_ascii(j) == 125 {
                closed = true;
                i = j + 1;
            } else {
                return Err(DoHParseError::new("expected a comma or a closing brace"));
            }
        }
        let tail: usize = skip_ws(s, i);
        if tail != n {
            return Err(DoHParseError::new("text follows the JSON object"));
        }
        let status = match status {
            Some(v) => v,
            None => { return Err(DoHParseError::new("Status is missing")); },
        };
        let tc = match tc {
            Some(v) => v,
            None => { return Err(DoHParseError::new("TC is missing")); },
        };
        let rd = match rd {
            Some(v) => v,
            None => { return Err(DoHParseError::new("RD is missing")); },
        };
        let ra = match ra {
            Some(v) => v,
            None => { return Err(DoHParseError::new("RA is missing")); },
        };
        let ad = match ad {
            Some(v) => v,
            None => { return Err(DoHParseError::new("AD is missing")); },
        };
        let cd = match cd {
            Some(v) => v,
            None => { return Err(DoHParseError::new("CD is missing")); },
        };
        let question = match question {
            Some(v) => v,
            None => { return Err(DoHParseError::new("Question is missing")); },
        };
        let answer = match answer {
            Some(v) => v,
            None => { return Err(DoHParseError::new("Answer is missing")); },
        };
        let additional_raw = match additional_raw {
            Some(v) => v,
            None => String::from_str("[]"),
        };
        let comment = match comment {
            Some(v) => v,
            None => String::new(),
        };
        Ok(
            DoHJsonResponse {
                response_code: status,
                truncated: tc,
                recursion_desired: rd,
                recursion_available: ra,
                authenticated_data: ad,
                checking_disabled: cd,
                question,
                answer,
                additional_raw,
                edns_client_subnet: ecs,
                comment,
            },
        )
    }

    /// Reads a reply from the raw bytes of an HTTPS response body.
    pub fn from_slice(bytes: &[u8]) -> (r: Result<DoHJsonResponse, DoHParseError>)
        ensures
            match r {
                Ok(resp) => match resp.edns_client_subnet {
                    Some(net) => net.wf(),
                    None => true,
                },
                Err(_) => true,
            },
    {
        let mut ok: bool = true;
        let mut i: usize = 0;
        while i < bytes.len()
            invariant
                0 <= i <= bytes@.len(),
                ok == forall|k: int| 0 <= k < i ==> bytes@[k] < 128,
            decreases bytes@.len() - i,
        {
            if bytes[i] >= 128 {
                proof {
                    assert(!(forall|k: int| 0 <= k < i + 1 ==> bytes@[k] < 128));
                }
                ok = false;
            }
            i += 1;
        }
        if !ok {
            return Err(DoHParseError::new("the reply is not ASCII text"));
        }
        let owned: Vec<u8> = vstd::slice::slice_to_vec(bytes);
        let text = crate::text::ascii_bytes_to_string(&owned);
        DoHJsonResponse::from_json_str(text.as_str())
    }
}

} // verus!
