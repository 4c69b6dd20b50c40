//! The messages exchanged between clients and the bus server.
use vstd::prelude::*;
use crate::err::BusError;
use crate::payload::Payload;

verus! {

pub type MsgId = u32;

/// A publish/subscribe protocol: its messages travel on topics that start
/// with its prefix.
pub trait PublishProtocol {
    /// The first topic fragment of this protocol; unique among the protocols of a bus.
    fn prefix() -> &'static str;
}

#[derive(Clone, Debug, PartialEq)]
pub struct SubMsg {
    pub topic: String,
}

#[derive(Clone, Debug, PartialEq)]
pub struct UnsubMsg {
    pub topic: String,
}

#[derive(Clone, Debug, PartialEq)]
pub struct PubMsg {
    pub topic: String,
    pub payload: Payload,
}

#[derive(Clone, Debug, PartialEq)]
pub struct SrvMsg {
    pub topic: String,
}

#[derive(Clone, Debug, PartialEq)]
pub struct UnsrvMsg {
    pub topic: String,
}

#[derive(Clone, Debug, PartialEq)]
pub struct ReqMsg {
    pub topic: String,
    pub payload: Payload,
}

#[derive(Clone, Debug, PartialEq)]
pub enum RspMsgStatus {
    /// The request was answered (`Ok` on the wire).
    Success,
    Timeout,
}

#[derive(Clone, Debug, PartialEq)]
pub struct RspMsg {
    pub req_id: MsgId,
    pub status: RspMsgStatus,
    pub payload: Payload,
}

#[derive(Clone, Debug, PartialEq)]
pub struct AckMsg {
    pub msg_id: MsgId,
    pub err: Option<BusError>,
    pub num_recipients: Option<usize>,
}

/// The messages a client sends to the server.
#[derive(Clone, Debug, PartialEq)]
pub enum ProtocolClient {
    Sub(SubMsg),
    Pub(PubMsg),
    Srv(SrvMsg),
    Req(ReqMsg),
    Rsp(RspMsg),
    Unsub(UnsubMsg),
    Unsrv(UnsrvMsg),
    Stop,
    KeepAlive,
}

/// The messages the server sends to a client.
#[derive(Clone, Debug, PartialEq)]
pub enum ProtocolServer {
    Pub(PubMsg),
    Req(ReqMsg),
    Rsp(RspMsg),
    Ack(AckMsg),
}

/// A message with its identifier.
#[derive(Clone, Debug, PartialEq)]
pub struct Msg<T> {
    pub id: MsgId,
    pub content: T,
}

} // verus!
