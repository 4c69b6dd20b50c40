//! The errors of the bus.
use vstd::prelude::*;
use vstd::string::*;
use crate::text::{decimal, u64_to_decimal};

verus! {

/// Every error the bus reports.
#[derive(Clone, Debug, PartialEq)]
pub enum BusError {
    InvalidTopicString(String),
    RequestFailedChannelClosed,
    RequestFailedTimeout,
    RequestFailed(String),
    InvalidRequestId,
    TopicAlreadyClaimed,
    ClaimWildcardNotSupported,
    ChannelClosed,
    ServiceNotFound(String),
    DeliveryFailed(u32, String),
    UnknownClient(u32),
    MalformedMessage(String, String),
    UnserializableMessage(String),
    IOError(String),
    InternalError(String),
    TlsConfigError(String),
}

pub type BusResult<T> = Result<T, BusError>;

/// The text with which an error is reported.
pub open spec fn error_message(e: BusError) -> Seq<char> {
    match e {
        BusError::InvalidTopicString(s) => "Invalid topic string: "@ + s@,
        BusError::RequestFailedChannelClosed => "Request failed: Channel closed while awaiting ACK"@,
        BusError::RequestFailedTimeout => "Request failed: Timeout while awaiting ACK"@,
        BusError::RequestFailed(s) => "Request failed: "@ + s@,
        BusError::InvalidRequestId => "Respond failed: Invalid request ID"@,
        BusError::TopicAlreadyClaimed => "Claim topic failed: Already claimed"@,
        BusError::ClaimWildcardNotSupported => "Claim topic failed: Wildcards not supported"@,
        BusError::ChannelClosed => "Channel closed by peer"@,
        BusError::ServiceNotFound(s) => "Service not found: "@ + s@,
        BusError::DeliveryFailed(c, s) => "Message delivery failed: Client #"@ + decimal(c as nat)
            + ": "@ + s@,
        BusError::UnknownClient(c) => "Message delivery failed: Unknown client "@ + decimal(
            c as nat,
        ),
        BusError::MalformedMessage(p, s) => "Deserialize message failed. Protocol: "@ + p@
            + ". Error: "@ + s@,
        BusError::UnserializableMessage(s) => "Serialize message failed: "@ + s@,
        BusError::IOError(s) => "IO error: "@ + s@,
        BusError::InternalError(s) => "Internal error: "@ + s@,
        BusError::TlsConfigError(s) => "TLS configuration error: "@ + s@,
    }
}

impl BusError {
    /// The text with which this error is reported.
    pub fn to_string(&self) -> (r: String)
        ensures
            r@ == error_message(*self),
    {
        match self {
            BusError::InvalidTopicString(s) => String::from_str("Invalid topic string: ").concat(
                s.as_str(),
            ),
            BusError::RequestFailedChannelClosed => String::from_str(
                "Request failed: Channel closed while awaiting ACK",
            ),
            BusError::RequestFailedTimeout => String::from_str(
                "Request failed: Timeout while awaiting ACK",
            ),
            BusError::RequestFailed(s) => String::from_str("Request failed: ").concat(s.as_str()),
            BusError::InvalidRequestId => String::from_str("Respond failed: Invalid request ID"),
            BusError::TopicAlreadyClaimed => String::from_str("Claim topic failed: Already claimed"),
            BusError::ClaimWildcardNotSupported => String::from_str(
                "Claim topic failed: Wildcards not supported",
            ),
            BusError::ChannelClosed => String::from_str("Channel closed by peer"),
            BusError::ServiceNotFound(s) => String::from_str("Service not found: ").concat(
                s.as_str(),
            ),
            BusError::DeliveryFailed(c, s) => {
                let n = u64_to_decimal(*c as u64);
                String::from_str("Message delivery failed: Client #").concat(n.as_str()).concat(
                    ": ",
                ).concat(s.as_str())
            },
            BusError::UnknownClient(c) => {
                let n = u64_to_decimal(*c as u64);
                String::from_str("Message delivery failed: Unknown client ").concat(n.as_str())
            },
            BusError::MalformedMessage(p, s) => String::from_str(
                "Deserialize message failed. Protocol: ",
            ).concat(p.as_str()).concat(". Error: ").concat(s.as_str()),
            BusError::UnserializableMessage(s) => String::from_str(
                "Serialize message failed: ",
            ).concat(s.as_str()),
            BusError::IOError(s) => String::from_str("IO error: ").concat(s.as_str()),
            BusError::InternalError(s) => String::from_str("Internal error: ").concat(s.as_str()),
            BusError::TlsConfigError(s) => String::from_str("TLS configuration error: ").concat(
                s.as_str(),
            ),
        }
    }
}

/// The outcome of several parts taken together: the first failure, in order,
/// or success when every part succeeded.
pub open spec fn first_failure(results: Seq<BusResult<()>>) -> BusResult<()>
    decreases results.len(),
{
    if results.len() == 0 {
        Ok(())
    } else if results[0] is Err {
        results[0]
    } else {
        first_failure(results.drop_first())
    }
}

proof fn lemma_first_failure_skip(results: Seq<BusResult<()>>, i: int)
    requires
        0 <= i < results.len(),
        results[i] is Ok,
    ensures
        first_failure(results.skip(i)) == first_failure(results.skip(i + 1)),
{
    assert(results.skip(i).drop_first() =~= results.skip(i + 1));
}

/// Combines the results of stopping or joining several processes, all of which
/// have already run: the first error in list order, or `Ok` when none failed.
pub fn combined_result(results: Vec<BusResult<()>>) -> (r: BusResult<()>)
    ensures
        r == first_failure(results@),
{
    let ghost all = results@;
    let mut pending = results;
    let mut i: usize = 0;
    assert(all.skip(0) =~= all);
    while i < pending.len()
        invariant
            pending@ == all,
            all == results@,
            i <= all.len(),
            first_failure(all) == first_failure(all.skip(i as int)),
        decreases all.len() - i,
    {
        if pending[i].is_err() {
            let ghost rest = all.skip(i as int);
            assert(rest.len() > 0 && rest[0] == all[i as int]);
            assert(first_failure(rest) == all[i as int]);
            let e = pending.remove(i);
            assert(e == all[i as int]);
            assert(first_failure(all) == e);
            return e;
        }
        proof {
            lemma_first_failure_skip(all, i as int);
        }
        i = i + 1;
    }
    assert(all.skip(i as int) =~= Seq::<BusResult<()>>::empty());
    Ok(())
}

} // verus!
