//! The resolver core: preparing the DNS response for a query, folding the
//! outcome of each upstream HTTPS call into it, and the resolver interface
//! the request processor drives.
//!
//! The HTTPS transport itself lives outside this crate; everything here is
//! a function of the query and of the outcomes the transport delivered.

use vstd::prelude::*;
use crate::dns::{DnsMessage, DnsMessageType, find_option, EDNS_OPTION_CODE_SUBNET,
    EDNS_DEFAULT_PAYLOAD_SIZE};
use crate::doh_json::{DoHJsonResponse, query_matches_question, answers_appended,
    covers_interpreted, spec_subnet_option_data};
use crate::provider::{DoHJsonProvider, HttpRequest, spec_request_uri};

verus! {

/// The error a resolution produces; it carries a description of what
/// failed.
#[derive(Clone, Debug)]
pub struct DoHResolutionError {
    pub desc: String,
}

impl DoHResolutionError {
    pub fn new(desc: String) -> (r: DoHResolutionError)
        ensures
            r.desc == desc,
    {
        DoHResolutionError { desc }
    }
}

/// The empty response that resolution grows: it mirrors the query's id and
/// operation code, is marked as an authoritative response, and starts with
/// no questions, answers or EDNS data.
pub fn prepare_response(req_dns_msg: &DnsMessage) -> (r: DnsMessage)
    ensures
        r.id == req_dns_msg.id,
        r.op_code == req_dns_msg.op_code,
        r.message_type == DnsMessageType::Response,
        r.authoritative == true,
        r.queries@.len() == 0,
        r.answers@.len() == 0,
        r.name_servers@.len() == 0,
        r.additionals@.len() == 0,
        r.edns is None,
        r.response_code == 0,
        r.truncated == false,
        r.recursion_desired == false,
        r.recursion_available == false,
        r.authentic_data == false,
        r.checking_disabled == false,
{
    let mut res = DnsMessage::new();
    res.id = req_dns_msg.id;
    res.op_code = req_dns_msg.op_code;
    res.message_type = DnsMessageType::Response;
    res.authoritative = true;
    res
}

/// The reply's sections still fit the response's 16-bit section counters.
pub open spec fn reply_fits(msg: DnsMessage, reply: DoHJsonResponse) -> bool {
    &&& msg.queries@.len() + reply.question@.len() <= 0xFFFF
    &&& msg.answers@.len() + reply.answer@.len() <= 0xFFFF
}

/// The reply's Client Subnet, when present, has a valid address length.
pub open spec fn reply_subnet_wf(reply: DoHJsonResponse) -> bool {
    match reply.edns_client_subnet {
        Some(net) => net.wf(),
        None => true,
    }
}

/// How one upstream outcome relates the response before and after it is
/// folded in: the identity fields, the earlier sections and the question
/// order are kept; a fitting reply's flags, response code, questions,
/// promised answers and Client Subnet option are taken over exactly as
/// `DoHJsonResponse::apply` states, with the request's source prefix
/// written into the option; a failed call, or a reply too large for the
/// 16-bit section counters, changes nothing.
pub open spec fn outcome_applied(
    outcome: Result<DoHJsonResponse, DoHResolutionError>,
    req_subnet_prefix: u8,
    pre: DnsMessage,
    post: DnsMessage,
) -> bool {
    &&& post.id == pre.id
    &&& post.message_type == pre.message_type
    &&& post.op_code == pre.op_code
    &&& post.authoritative == pre.authoritative
    &&& post.name_servers == pre.name_servers
    &&& post.additionals == pre.additionals
    &&& post.queries@.len() >= pre.queries@.len()
    &&& post.answers@.len() >= pre.answers@.len()
    &&& post.queries@.subrange(0, pre.queries@.len() as int) == pre.queries@
    &&& post.answers@.subrange(0, pre.answers@.len() as int) == pre.answers@
    &&& match outcome {
        Ok(reply) => if reply_fits(pre, reply) && reply_subnet_wf(reply) {
            &&& post.truncated == reply.truncated
            &&& post.recursion_desired == reply.recursion_desired
            &&& post.recursion_available == reply.recursion_available
            &&& post.authentic_data == reply.authenticated_data
            &&& post.checking_disabled == reply.checking_disabled
            &&& post.response_code == reply.response_code
            &&& post.queries@.len() == pre.queries@.len() + reply.question@.len()
            &&& (forall|i: int|
                0 <= i < reply.question@.len() ==> query_matches_question(
                    #[trigger] post.queries@[pre.queries@.len() + i],
                    reply.question@[i],
                ))
            &&& (forall|i: int|
                pre.answers@.len() <= i < post.answers@.len() ==> (#[trigger] post.answers@[i]).wf())
            &&& (exists|ix: Seq<int>|
                answers_appended(pre.answers@.len() as int, post.answers@, reply.answer@, ix)
                    && covers_interpreted(ix, reply.answer@))
            &&& match reply.edns_client_subnet {
                Some(net) => match post.edns {
                    Some(e) => {
                        &&& e.payload_size == EDNS_DEFAULT_PAYLOAD_SIZE
                        &&& e.ext_rcode == 0
                        &&& e.version == 0
                        &&& e.flags == 0
                        &&& e.options@.len() == 1
                        &&& e.options@[0].0 == EDNS_OPTION_CODE_SUBNET
                        &&& e.options@[0].1@ == spec_subnet_option_data(req_subnet_prefix, net)
                        &&& e.wf()
                    },
                    None => false,
                },
                None => post.edns == pre.edns,
            }
        } else {
            post == pre
        },
        Err(_) => post == pre,
    }
}

/// Folds one upstream outcome into the response, exactly as
/// `outcome_applied` relates the response before and after the call.
pub fn apply_outcome(
    outcome: &Result<DoHJsonResponse, DoHResolutionError>,
    req_subnet_prefix: u8,
    res_dns_msg: &mut DnsMessage,
)
    ensures
        outcome_applied(*outcome, req_subnet_prefix, *old(res_dns_msg), *final(res_dns_msg)),
{
    match outcome {
        Ok(reply) => {
            let fits: bool = res_dns_msg.queries.len() <= 0xFFFF && res_dns_msg.answers.len()
                <= 0xFFFF && reply.question.len() <= 0xFFFF - res_dns_msg.queries.len()
                && reply.answer.len() <= 0xFFFF - res_dns_msg.answers.len();
            let subnet_ok: bool = match &reply.edns_client_subnet {
                Some(net) => {
                    if net.v6 {
                        net.octets.len() == 16 && net.prefix_len <= 128
                    } else {
                        net.octets.len() == 4 && net.prefix_len <= 32
                    }
                },
                None => true,
            };
            if fits && subnet_ok {
                reply.apply(req_subnet_prefix, res_dns_msg);
            } else {
                proof {
                    assert(res_dns_msg.queries@.subrange(0, res_dns_msg.queries@.len() as int)
                        =~= res_dns_msg.queries@);
                    assert(res_dns_msg.answers@.subrange(0, res_dns_msg.answers@.len() as int)
                        =~= res_dns_msg.answers@);
                }
            }
        },
        Err(_) => {
            proof {
                assert(res_dns_msg.queries@.subrange(0, res_dns_msg.queries@.len() as int)
                    =~= res_dns_msg.queries@);
                assert(res_dns_msg.answers@.subrange(0, res_dns_msg.answers@.len() as int)
                    =~= res_dns_msg.answers@);
            }
        },
    }
}

/// The responses a list of outcomes can fold a response into, one
/// `outcome_applied` step per outcome, in list order.
pub open spec fn outcomes_folded(
    outcomes: Seq<Result<DoHJsonResponse, DoHResolutionError>>,
    req_subnet_prefix: u8,
    pre: DnsMessage,
    post: DnsMessage,
) -> bool
    decreases outcomes.len(),
{
    if outcomes.len() == 0 {
        post == pre
    } else {
        exists|mid: DnsMessage|
            outcome_applied(outcomes[0], req_subnet_prefix, pre, mid) && outcomes_folded(
                outcomes.skip(1),
                req_subnet_prefix,
                mid,
                post,
            )
    }
}

/// Appending one applied outcome extends a fold by one step.
pub proof fn lemma_outcomes_folded_snoc(
    outcomes: Seq<Result<DoHJsonResponse, DoHResolutionError>>,
    outcome: Result<DoHJsonResponse, DoHResolutionError>,
    req_subnet_prefix: u8,
    pre: DnsMessage,
    mid: DnsMessage,
    post: DnsMessage,
)
    requires
        outcomes_folded(outcomes, req_subnet_prefix, pre, mid),
        outcome_applied(outcome, req_subnet_prefix, mid, post),
    ensures
        outcomes_folded(outcomes.push(outcome), req_subnet_prefix, pre, post),
    decreases outcomes.len(),
{
    if outcomes.len() == 0 {
        assert(mid == pre);
        assert(outcomes.push(outcome)[0] == outcome);
        assert(outcomes.push(outcome).skip(1) =~= Seq::<
            Result<DoHJsonResponse, DoHResolutionError>,
        >::empty());
        assert(outcomes_folded(outcomes.push(outcome).skip(1), req_subnet_prefix, post, post));
    } else {
        let m1 = choose|m1: DnsMessage|
            outcome_applied(outcomes[0], req_subnet_prefix, pre, m1) && outcomes_folded(
                outcomes.skip(1),
                req_subnet_prefix,
                m1,
                mid,
            );
        lemma_outcomes_folded_snoc(outcomes.skip(1), outcome, req_subnet_prefix, m1, mid, post);
        assert(outcomes.push(outcome)[0] == outcomes[0]);
        assert(outcomes.push(outcome).skip(1) =~= outcomes.skip(1).push(outcome));
    }
}

/// What `prepare_response` promises, as a predicate on the start message.
pub open spec fn is_prepared_for(start: DnsMessage, req: DnsMessage) -> bool {
    &&& start.id == req.id
    &&& start.op_code == req.op_code
    &&& start.message_type == DnsMessageType::Response
    &&& start.authoritative == true
    &&& start.queries@.len() == 0
    &&& start.answers@.len() == 0
    &&& start.name_servers@.len() == 0
    &&& start.additionals@.len() == 0
    &&& start.edns is None
    &&& start.response_code == 0
    &&& start.truncated == false
    &&& start.recursion_desired == false
    &&& start.recursion_available == false
    &&& start.authentic_data == false
    &&& start.checking_disabled == false
}

/// The source prefix length the request's Client Subnet option asks for:
/// the third octet of the first such option's data, or zero when the
/// request carries none (RFC 7871).
pub open spec fn spec_req_subnet_prefix(req: DnsMessage) -> u8 {
    match req.edns {
        Some(e) => match find_option(e.options@, EDNS_OPTION_CODE_SUBNET) {
            Some(data) => if data.len() >= 3 {
                data[2]
            } else {
                0
            },
            None => 0,
        },
        None => 0,
    }
}

/// The response is a resolution of the query under the given outcomes: the
/// prepared empty response for the query, folded one outcome at a time,
/// with the request's Client Subnet source prefix on every synthesized
/// option.
pub open spec fn resolution_of(
    req: DnsMessage,
    outcomes: Seq<Result<DoHJsonResponse, DoHResolutionError>>,
    res: DnsMessage,
) -> bool {
    exists|start: DnsMessage|
        #[trigger] is_prepared_for(start, req) && outcomes_folded(
            outcomes,
            spec_req_subnet_prefix(req),
            start,
            res,
        )
}

/// The whole resolution as a function of the query and of the outcomes the
/// transport delivered, one per question, in arrival order: for a query it
/// returns exactly the prepared response folded through the outcomes, so
/// it mirrors the query's id and operation code, is marked authoritative,
/// and holds exactly the questions and promised answers of the fitting
/// successful replies, in arrival order; for any other message it returns
/// an error and does nothing else.
pub fn resolve_with_outcomes(
    req_dns_msg: &DnsMessage,
    outcomes: &Vec<Result<DoHJsonResponse, DoHResolutionError>>,
) -> (r: Result<DnsMessage, DoHResolutionError>)
    ensures
        match r {
            Ok(res) => {
                &&& req_dns_msg.message_type == DnsMessageType::Query
                &&& res.id == req_dns_msg.id
                &&& res.op_code == req_dns_msg.op_code
                &&& res.message_type == DnsMessageType::Response
                &&& res.authoritative == true
                &&& resolution_of(*req_dns_msg, outcomes@, res)
                &&& (outcomes@.len() == 0 ==> res.answers@.len() == 0 && res.queries@.len() == 0
                    && res.response_code == 0)
            },
            Err(_) => req_dns_msg.message_type != DnsMessageType::Query,
        },
{
    if !matches!(req_dns_msg.message_type, DnsMessageType::Query) {
        return Err(
            DoHResolutionError::new(
                String::from_str("invalid input: the message is not a query"),
            ),
        );
    }
    let req_prefix: u8 = match &req_dns_msg.edns {
        Some(e) => match e.option(EDNS_OPTION_CODE_SUBNET) {
            Some(data) => if data.len() >= 3 {
                data[2]
            } else {
                0
            },
            None => 0,
        },
        None => 0,
    };
    proof {
        assert(req_prefix == spec_req_subnet_prefix(*req_dns_msg));
    }
    let mut res = prepare_response(req_dns_msg);
    let ghost start = res;
    proof {
        assert(is_prepared_for(start, *req_dns_msg));
        assert(outcomes@.subrange(0, 0) =~= Seq::<
            Result<DoHJsonResponse, DoHResolutionError>,
        >::empty());
    }
    let mut i: usize = 0;
    while i < outcomes.len()
        invariant
            0 <= i <= outcomes@.len(),
            res.id == req_dns_msg.id,
            res.op_code == req_dns_msg.op_code,
            res.message_type == DnsMessageType::Response,
            res.authoritative == true,
            is_prepared_for(start, *req_dns_msg),
            req_prefix == spec_req_subnet_prefix(*req_dns_msg),
            outcomes_folded(outcomes@.subrange(0, i as int), req_prefix, start, res),
            i == 0 ==> res == start,
        decreases outcomes@.len() - i,
    {
        let ghost pre = res;
        apply_outcome(&outcomes[i], req_prefix, &mut res);
        proof {
            lemma_outcomes_folded_snoc(
                outcomes@.subrange(0, i as int),
                outcomes@[i as int],
                req_prefix,
                start,
                pre,
                res,
            );
            assert(outcomes@.subrange(0, i as int).push(outcomes@[i as int]) =~= outcomes@.subrange(
                0,
                i + 1,
            ));
        }
        i += 1;
    }
    proof {
        assert(outcomes@.subrange(0, outcomes@.len() as int) =~= outcomes@);
        assert(resolution_of(*req_dns_msg, outcomes@, res));
    }
    Ok(res)
}

/// A resolver of DNS queries over some DoH transport. The transport is
/// outside this crate, so `resolve_query` carries no promise about its
/// result; `resolve` adds the checked entry point that rejects any message
/// that is not a query before the transport is touched.
pub trait DoHResolver {
    /// Resolves a message already known to be a query.
    fn resolve_query(&self, dns_message: &DnsMessage) -> Result<DnsMessage, DoHResolutionError>;

    /// Resolves a query, rejecting any other message type without side
    /// effects; a query's result is exactly what `resolve_query` returned
    /// for it.
    fn resolve(&self, dns_message: &DnsMessage) -> (r: Result<DnsMessage, DoHResolutionError>)
        ensures
            dns_message.message_type != DnsMessageType::Query ==> r is Err,
            dns_message.message_type == DnsMessageType::Query ==> call_ensures(
                Self::resolve_query,
                (self, dns_message),
                r,
            ),
    {
        if matches!(dns_message.message_type, DnsMessageType::Query) {
            self.resolve_query(dns_message)
        } else {
            Err(
                DoHResolutionError::new(
                    String::from_str("invalid input: the message is not a query"),
                ),
            )
        }
    }
}

/// The upstream requests a query fans out to: one GET per question, against
/// the same provider, in question order.
pub fn build_question_requests(provider: &DoHJsonProvider, req_dns_msg: &DnsMessage) -> (r: Vec<
    HttpRequest,
>)
    ensures
        r@.len() == req_dns_msg.queries@.len(),
        forall|i: int|
            0 <= i < r@.len() ==> #[trigger] r@[i].uri@ == spec_request_uri(
                *provider,
                req_dns_msg.queries@[i].query_type,
                req_dns_msg.queries@[i].name@,
            ),
{
    let mut r: Vec<HttpRequest> = Vec::new();
    let mut i: usize = 0;
    while i < req_dns_msg.queries.len()
        invariant
            0 <= i <= req_dns_msg.queries@.len(),
            r@.len() == i,
            forall|k: int|
                0 <= k < i ==> #[trigger] r@[k].uri@ == spec_request_uri(
                    *provider,
                    req_dns_msg.queries@[k].query_type,
                    req_dns_msg.queries@[k].name@,
                ),
        decreases req_dns_msg.queries@.len() - i,
    {
        r.push(provider.build_http_request(&req_dns_msg.queries[i]));
        i += 1;
    }
    r
}

} // verus!
