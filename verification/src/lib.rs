//! A local DNS server that answers classic DNS-over-UDP queries by calling
//! public DNS-over-HTTPS (DoH) JSON resolvers such as Cloudflare or Google.
//!
//! The crate holds the verified core of the gateway: the DNS data model and
//! wire codec, the DoH JSON response model with its parser and serializer,
//! the provider registry that builds upstream HTTPS requests, the resolver
//! logic that turns upstream replies into a DNS response, and the lifecycle
//! state machine that coordinates start and stop of the services.

pub mod dns;
pub mod text;
pub mod subnet;
pub mod protocol;
pub mod provider;
pub mod doh_json;
pub mod wire;
pub mod resolver;
pub mod service;
