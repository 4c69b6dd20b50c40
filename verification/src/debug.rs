//! One-line descriptions of protocol messages, for logs.
use vstd::prelude::*;
use vstd::string::*;
use crate::err::error_message;
use crate::payload::payload_description;
use crate::protocol::{Msg, ProtocolClient, ProtocolServer};
use crate::text::{decimal, pad_left, pad_left_exec, u64_to_decimal};

verus! {

/// A payload's description in parentheses.
pub open spec fn payload_part(p: crate::payload::Payload) -> Seq<char> {
    "("@ + payload_description(p.spec_data().len(), p.spec_is_compressed()) + ")"@
}

/// The description of a message the server sends.
pub open spec fn server_content_text(c: ProtocolServer) -> Seq<char> {
    match c {
        ProtocolServer::Pub(m) => "PUB   "@ + m.topic@ + " "@ + payload_part(m.payload),
        ProtocolServer::Req(m) => "REQ   "@ + m.topic@ + " "@ + payload_part(m.payload),
        ProtocolServer::Rsp(m) => "RSP   "@ + decimal(m.req_id as nat) + " "@ + payload_part(
            m.payload,
        ),
        ProtocolServer::Ack(m) => "ACK   "@ + decimal(m.msg_id as nat) + " "@ + match m.err {
            Some(e) => error_message(e),
            None => Seq::empty(),
        },
    }
}

/// The description of a message a client sends.
pub open spec fn client_content_text(c: ProtocolClient) -> Seq<char> {
    match c {
        ProtocolClient::Sub(m) => "SUB   "@ + m.topic@,
        ProtocolClient::Unsub(m) => "UNSUB "@ + m.topic@,
        ProtocolClient::Pub(m) => "PUB   "@ + m.topic@ + " "@ + payload_part(m.payload),
        ProtocolClient::Srv(m) => "SRV   "@ + m.topic@,
        ProtocolClient::Unsrv(m) => "UNSRV "@ + m.topic@,
        ProtocolClient::Req(m) => "REQ   "@ + m.topic@ + " "@ + payload_part(m.payload),
        ProtocolClient::Rsp(m) => "RSP   #"@ + decimal(m.req_id as nat) + " "@ + payload_part(
            m.payload,
        ),
        ProtocolClient::Stop => "STOP"@,
        ProtocolClient::KeepAlive => "KEEP_ALIVE"@,
    }
}

/// A message's identifier right-aligned in six columns, a space, then its description.
pub open spec fn msg_line(id: u32, content: Seq<char>) -> Seq<char> {
    pad_left(decimal(id as nat), 6) + " "@ + content
}

fn payload_part_exec(p: &crate::payload::Payload) -> (r: String)
    ensures
        r@ == payload_part(*p),
{
    String::from_str("(").concat(p.describe().as_str()).concat(")")
}

fn line(id: u32, content: String) -> (r: String)
    ensures
        r@ == msg_line(id, content@),
{
    let id_text = pad_left_exec(u64_to_decimal(id as u64), 6);
    id_text.concat(" ").concat(content.as_str())
}

/// Describes a message from the server in one line.
pub fn server_msg_to_string(msg: &Msg<ProtocolServer>) -> (r: String)
    ensures
        r@ == msg_line(msg.id, server_content_text(msg.content)),
{
    let content = match &msg.content {
        ProtocolServer::Pub(m) => String::from_str("PUB   ").concat(m.topic.as_str()).concat(
            " ",
        ).concat(payload_part_exec(&m.payload).as_str()),
        ProtocolServer::Req(m) => String::from_str("REQ   ").concat(m.topic.as_str()).concat(
            " ",
        ).concat(payload_part_exec(&m.payload).as_str()),
        ProtocolServer::Rsp(m) => String::from_str("RSP   ").concat(
            u64_to_decimal(m.req_id as u64).as_str(),
        ).concat(" ").concat(payload_part_exec(&m.payload).as_str()),
        ProtocolServer::Ack(m) => {
            let err_text = match &m.err {
                Some(e) => e.to_string(),
                None => String::new(),
            };
            String::from_str("ACK   ").concat(u64_to_decimal(m.msg_id as u64).as_str()).concat(
                " ",
            ).concat(err_text.as_str())
        },
    };
    line(msg.id, content)
}

/// Describes a message from a client in one line.
pub fn client_msg_to_string(msg: &Msg<ProtocolClient>) -> (r: String)
    ensures
        r@ == msg_line(msg.id, client_content_text(msg.content)),
{
    let content = match &msg.content {
        ProtocolClient::Sub(m) => String::from_str("SUB   ").concat(m.topic.as_str()),
        ProtocolClient::Unsub(m) => String::from_str("UNSUB ").concat(m.topic.as_str()),
        ProtocolClient::Pub(m) => String::from_str("PUB   ").concat(m.topic.as_str()).concat(
            " ",
        ).concat(payload_part_exec(&m.payload).as_str()),
        ProtocolClient::Srv(m) => String::from_str("SRV   ").concat(m.topic.as_str()),
        ProtocolClient::Unsrv(m) => String::from_str("UNSRV ").concat(m.topic.as_str()),
        ProtocolClient::Req(m) => String::from_str("REQ   ").concat(m.topic.as_str()).concat(
            " ",
        ).concat(payload_part_exec(&m.payload).as_str()),
        ProtocolClient::Rsp(m) => String::from_str("RSP   #").concat(
            u64_to_decimal(m.req_id as u64).as_str(),
        ).concat(" ").concat(payload_part_exec(&m.payload).as_str()),
        ProtocolClient::Stop => String::from_str("STOP"),
        ProtocolClient::KeepAlive => String::from_str("KEEP_ALIVE"),
    };
    line(msg.id, content)
}

} // verus!
