//! The DNS-over-HTTPS protocol variants this gateway knows about, and the
//! error produced when a protocol name cannot be recognised.

use vstd::prelude::*;
use crate::text::str_eq;

verus! {

/// A DNS-over-HTTPS protocol: the ad-hoc JSON schema, or the standardised
/// binary wire format, which no provider of this registry implements yet.
#[derive(Clone, Copy, Debug, PartialEq, Eq, Structural)]
pub enum DoHProtocol {
    JSON,
    WIRE,
}

impl DoHProtocol {
    /// The name of this protocol, as configuration spells it.
    pub fn as_str(self) -> (r: &'static str)
        ensures
            self == DoHProtocol::JSON ==> r@ == "json"@,
            self == DoHProtocol::WIRE ==> r@ == "wire"@,
            r.is_ascii(),
    {
        proof {
            reveal_strlit("json");
            reveal_strlit("wire");
        }
        match self {
            DoHProtocol::JSON => "json",
            DoHProtocol::WIRE => "wire",
        }
    }

    /// The protocol a name denotes: `Ok` exactly for the two spellings
    /// `json` and `wire`; any other token is returned inside the error.
    pub fn from_str(raw: &str) -> (r: Result<DoHProtocol, DoHProtocolParseError>)
        ensures
            match r {
                Ok(p) => (p == DoHProtocol::JSON && raw@ == "json"@) || (p == DoHProtocol::WIRE
                    && raw@ == "wire"@),
                Err(e) => raw@ != "json"@ && raw@ != "wire"@ && e.token@ == raw@,
            },
    {
        proof {
            reveal_strlit("json");
            reveal_strlit("wire");
        }
        if str_eq(raw, "json") {
            Ok(DoHProtocol::JSON)
        } else if str_eq(raw, "wire") {
            Ok(DoHProtocol::WIRE)
        } else {
            Err(DoHProtocolParseError::new(raw))
        }
    }
}

/// The error produced when a protocol name is not recognised; it carries
/// the offending token.
#[derive(Clone, Debug)]
pub struct DoHProtocolParseError {
    pub token: String,
}

impl DoHProtocolParseError {
    pub fn new(token: &str) -> (r: DoHProtocolParseError)
        ensures
            r.token@ == token@,
    {
        DoHProtocolParseError { token: token.to_owned() }
    }
}

} // verus!
