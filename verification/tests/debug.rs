use t2_bus::debug::{client_msg_to_string, server_msg_to_string};
use t2_bus::err::BusError;
use t2_bus::payload::Payload;
use t2_bus::protocol::{AckMsg, Msg, ProtocolClient, ProtocolServer, PubMsg, RspMsg, RspMsgStatus, SubMsg};

#[test]
fn client_messages() {
    let m = Msg { id: 1, content: ProtocolClient::Sub(SubMsg { topic: "test/a".into() }) };
    assert_eq!(client_msg_to_string(&m), "     1 SUB   test/a");
    let m = Msg { id: 1234567, content: ProtocolClient::Stop };
    assert_eq!(client_msg_to_string(&m), "1234567 STOP");
    let m = Msg {
        id: 12,
        content: ProtocolClient::Rsp(RspMsg {
            req_id: 3,
            status: RspMsgStatus::Success,
            payload: Payload::from_bytes(vec![1, 2]),
        }),
    };
    assert_eq!(client_msg_to_string(&m), "    12 RSP   #3 (2 bytes)");
    let m = Msg { id: 0, content: ProtocolClient::KeepAlive };
    assert_eq!(client_msg_to_string(&m), "     0 KEEP_ALIVE");
}

#[test]
fn server_messages() {
    let m = Msg {
        id: 5,
        content: ProtocolServer::Pub(PubMsg { topic: "t".into(), payload: Payload::from_parts(vec![0; 10], true) }),
    };
    assert_eq!(server_msg_to_string(&m), "     5 PUB   t (10 bytes compressed)");
    let m = Msg {
        id: 6,
        content: ProtocolServer::Ack(AckMsg { msg_id: 2, err: Some(BusError::InvalidRequestId), num_recipients: None }),
    };
    assert_eq!(server_msg_to_string(&m), "     6 ACK   2 Respond failed: Invalid request ID");
    let m = Msg { id: 6, content: ProtocolServer::Ack(AckMsg { msg_id: 2, err: None, num_recipients: Some(1) }) };
    assert_eq!(server_msg_to_string(&m), "     6 ACK   2 ");
}
