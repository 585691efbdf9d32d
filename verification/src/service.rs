//! Service lifecycle: the status state machine shared by the Server and
//! the Processor, the loop policies both follow, and the supervisor that
//! starts and stops them in the right order.
//!
//! Threads, sockets and channels live outside this crate; what is here is
//! every decision those loops take, as a function of state and event.

use vstd::prelude::*;
use crate::dns::{DnsMessage, DnsMessageType};
use crate::doh_json::DoHJsonResponse;
use crate::resolver::{DoHResolutionError, resolution_of, resolve_with_outcomes};
use crate::wire::{message_from_bytes, message_to_bytes, ser_message};

verus! {

/// The lifecycle states of a service.
#[derive(Clone, Copy, Debug, PartialEq, Eq, Structural)]
pub enum ServiceStatus {
    NotStarted,
    Starting,
    Started,
    Stopping,
    Stopped,
}

impl ServiceStatus {
    /// The position of the state along the lifecycle chain.
    pub open spec fn rank(self) -> int {
        match self {
            ServiceStatus::NotStarted => 0,
            ServiceStatus::Starting => 1,
            ServiceStatus::Started => 2,
            ServiceStatus::Stopping => 3,
            ServiceStatus::Stopped => 4,
        }
    }
}

/// The transitions the lifecycle admits: one step forward along
/// NotStarted, Starting, Started, Stopping, Stopped.
pub open spec fn status_step(pre: ServiceStatus, post: ServiceStatus) -> bool {
    ||| (pre == ServiceStatus::NotStarted && post == ServiceStatus::Starting)
    ||| (pre == ServiceStatus::Starting && post == ServiceStatus::Started)
    ||| (pre == ServiceStatus::Started && post == ServiceStatus::Stopping)
    ||| (pre == ServiceStatus::Stopping && post == ServiceStatus::Stopped)
}

/// Status transitions are monotonic: every admitted step moves exactly one
/// position forward along the chain, so no run of steps ever revisits or
/// skips a state.
pub proof fn lemma_status_monotonic(pre: ServiceStatus, post: ServiceStatus)
    requires
        status_step(pre, post),
    ensures
        post.rank() == pre.rank() + 1,
{
}

/// A stopped service admits no further transition: there is no
/// resurrection.
pub proof fn lemma_stopped_is_final(post: ServiceStatus)
    ensures
        !status_step(ServiceStatus::Stopped, post),
{
}

/// The status flag a service carries through its lifecycle. Each
/// transition method demands the state it steps from, so a verified caller
/// can only drive the flag along the chain.
#[derive(Clone, Copy, Debug, PartialEq, Eq, Structural)]
pub struct ServiceStatusFlag {
    pub status: ServiceStatus,
}

impl ServiceStatusFlag {
    pub fn new() -> (r: ServiceStatusFlag)
        ensures
            r.status == ServiceStatus::NotStarted,
    {
        ServiceStatusFlag { status: ServiceStatus::NotStarted }
    }

    pub fn starting(&mut self)
        requires
            old(self).status == ServiceStatus::NotStarted,
        ensures
            final(self).status == ServiceStatus::Starting,
            status_step(old(self).status, final(self).status),
    {
        self.status = ServiceStatus::Starting;
    }

    pub fn started(&mut self)
        requires
            old(self).status == ServiceStatus::Starting,
        ensures
            final(self).status == ServiceStatus::Started,
            status_step(old(self).status, final(self).status),
    {
        self.status = ServiceStatus::Started;
    }

    pub fn stopping(&mut self)
        requires
            old(self).status == ServiceStatus::Started,
        ensures
            final(self).status == ServiceStatus::Stopping,
            status_step(old(self).status, final(self).status),
    {
        self.status = ServiceStatus::Stopping;
    }

    pub fn stopped(&mut self)
        requires
            old(self).status == ServiceStatus::Stopping,
        ensures
            final(self).status == ServiceStatus::Stopped,
            status_step(old(self).status, final(self).status),
    {
        self.status = ServiceStatus::Stopped;
    }

    /// Whether `await_started` may unblock: exactly in the Started state.
    pub fn is_started(&self) -> (r: bool)
        ensures
            r == (self.status == ServiceStatus::Started),
    {
        matches!(self.status, ServiceStatus::Started)
    }

    /// Whether the service was asked to stop.
    pub fn is_stopping(&self) -> (r: bool)
        ensures
            r == (self.status == ServiceStatus::Stopping),
    {
        matches!(self.status, ServiceStatus::Stopping)
    }

    /// Whether `await_stopped` may unblock: exactly in the Stopped state.
    pub fn is_stopped(&self) -> (r: bool)
        ensures
            r == (self.status == ServiceStatus::Stopped),
    {
        matches!(self.status, ServiceStatus::Stopped)
    }
}

/// What a listener's bounded receive, or the processor's bounded dequeue,
/// reported: data, the timeout that lets the loop poll its stop flag, or
/// another error.
#[derive(Clone, Copy, Debug, PartialEq, Eq, Structural)]
pub enum LoopEvent {
    Received,
    TimedOut,
    Failed,
}

/// What the loop does next: handle the data, keep looping, or leave the
/// loop.
#[derive(Clone, Copy, Debug, PartialEq, Eq, Structural)]
pub enum LoopAction {
    Handle,
    Continue,
    Exit,
}

/// The policy both the listener loops and the processor's dequeue loop
/// follow: data is handled; a timeout exits exactly when the service is
/// stopping, and otherwise resumes waiting; any other error is logged by
/// the caller and the loop resumes.
pub fn loop_step(event: LoopEvent, stopping: bool) -> (r: LoopAction)
    ensures
        r == (match event {
            LoopEvent::Received => LoopAction::Handle,
            LoopEvent::TimedOut => if stopping {
                LoopAction::Exit
            } else {
                LoopAction::Continue
            },
            LoopEvent::Failed => LoopAction::Continue,
        }),
{
    match event {
        LoopEvent::Received => LoopAction::Handle,
        LoopEvent::TimedOut => if stopping {
            LoopAction::Exit
        } else {
            LoopAction::Continue
        },
        LoopEvent::Failed => LoopAction::Continue,
    }
}

/// What the server does with one received datagram.
pub enum DatagramDecision {
    /// A well-formed query: wrap it into a request and publish it.
    Publish(DnsMessage),
    /// A message that is not a query: drop it with a warning.
    IgnoreNotQuery,
    /// Bytes that do not decode: drop them with an error log.
    IgnoreBadDatagram,
}

/// Decodes one datagram and decides its fate: published messages are
/// exactly the well-formed queries, and re-encode to the received bytes;
/// a datagram is ignored as a non-query only when it decodes to one.
pub fn handle_datagram(buf: &[u8]) -> (r: DatagramDecision)
    ensures
        match r {
            DatagramDecision::Publish(m) => m.wf() && m.message_type == DnsMessageType::Query
                && ser_message(m) == buf@,
            DatagramDecision::IgnoreNotQuery => exists|m: DnsMessage|
                m.wf() && #[trigger] ser_message(m) == buf@ && m.message_type
                    != DnsMessageType::Query,
            DatagramDecision::IgnoreBadDatagram => true,
        },
{
    match message_from_bytes(buf) {
        Ok(m) => {
            if matches!(m.message_type, DnsMessageType::Query) {
                DatagramDecision::Publish(m)
            } else {
                proof {
                    assert(m.wf() && ser_message(m) == buf@ && m.message_type
                        != DnsMessageType::Query);
                }
                DatagramDecision::IgnoreNotQuery
            }
        },
        Err(_) => DatagramDecision::IgnoreBadDatagram,
    }
}

/// The supervisor's view of the two services it owns. Starting brings the
/// consumer up before the producer; stopping retires the producer before
/// the consumer, so no request is published without a processor to drain
/// it.
pub struct Supervisor {
    pub processor: ServiceStatusFlag,
    pub server: ServiceStatusFlag,
}

impl Supervisor {
    pub fn new() -> (r: Supervisor)
        ensures
            r.processor.status == ServiceStatus::NotStarted,
            r.server.status == ServiceStatus::NotStarted,
    {
        Supervisor { processor: ServiceStatusFlag::new(), server: ServiceStatusFlag::new() }
    }

    /// Drives both services to Started: the processor first, the server
    /// only after the processor has fully started.
    pub fn start_and_await(&mut self)
        requires
            old(self).processor.status == ServiceStatus::NotStarted,
            old(self).server.status == ServiceStatus::NotStarted,
        ensures
            final(self).processor.status == ServiceStatus::Started,
            final(self).server.status == ServiceStatus::Started,
    {
        self.processor.starting();
        self.processor.started();
        self.server.starting();
        self.server.started();
    }

    /// Drives both services to Stopped: the server first, so that no new
    /// request is produced while the processor drains the queue.
    pub fn stop_and_await(&mut self)
        requires
            old(self).processor.status == ServiceStatus::Started,
            old(self).server.status == ServiceStatus::Started,
        ensures
            final(self).processor.status == ServiceStatus::Stopped,
            final(self).server.status == ServiceStatus::Stopped,
    {
        self.server.stopping();
        self.server.stopped();
        self.processor.stopping();
        self.processor.stopped();
    }
}

/// The server's whole reply path as a function of the received datagram
/// and of the upstream outcomes: whenever the gateway puts a response on
/// the wire for a datagram, the datagram was a well-formed query, and the
/// encoded response is a well-formed resolution of it under the given
/// outcomes, mirroring its id and operation code, marked as an
/// authoritative response.
pub fn wire_response_for_datagram(
    buf: &[u8],
    outcomes: &Vec<Result<DoHJsonResponse, DoHResolutionError>>,
) -> (r: Option<Vec<u8>>)
    ensures
        match r {
            Some(bytes) => exists|d: DnsMessage, res: DnsMessage|
                {
                    &&& #[trigger] ser_message(d) == buf@
                    &&& d.wf()
                    &&& d.message_type == DnsMessageType::Query
                    &&& #[trigger] ser_message(res) == bytes@
                    &&& res.wf()
                    &&& resolution_of(d, outcomes@, res)
                    &&& res.id == d.id
                    &&& res.op_code == d.op_code
                    &&& res.message_type == DnsMessageType::Response
                    &&& res.authoritative == true
                },
            None => true,
        },
{
    match handle_datagram(buf) {
        DatagramDecision::Publish(d) => {
            match resolve_with_outcomes(&d, outcomes) {
                Ok(res) => {
                    match message_to_bytes(&res) {
                        Ok(bytes) => {
                            proof {
                                assert(ser_message(d) == buf@ && ser_message(res) == bytes@
                                    && resolution_of(d, outcomes@, res));
                            }
                            Some(bytes)
                        },
                        Err(_) => None,
                    }
                },
                Err(_) => {
                    // unreachable: only queries are published
                    proof {
                        assert(false);
                    }
                    None
                },
            }
        },
        DatagramDecision::IgnoreNotQuery => None,
        DatagramDecision::IgnoreBadDatagram => None,
    }
}

} // verus!
