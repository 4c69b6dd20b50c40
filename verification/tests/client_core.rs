use t2_bus::client_core::{ack_result, response_payload, AckOutcome, ClientCore, Outgoing, Route};
use t2_bus::err::BusError;
use t2_bus::payload::Payload;
use t2_bus::protocol::{
    AckMsg, Msg, ProtocolClient, ProtocolServer, PubMsg, ReqMsg, RspMsg, RspMsgStatus, SrvMsg, SubMsg,
    UnsrvMsg,
};

fn pub_msg(topic: &str) -> Msg<ProtocolServer> {
    Msg { id: 100, content: ProtocolServer::Pub(PubMsg { topic: topic.into(), payload: Payload::from_bytes(vec![]) }) }
}

#[test]
fn ids_count_up() {
    let mut core = ClientCore::new();
    let (id1, r1) = core.before_send(Outgoing::StopBus);
    let (id2, r2) = core.before_send(Outgoing::Sub(SubMsg { topic: "test/a".into() }));
    assert_eq!((id1, id2), (1, 2));
    assert_eq!(r1.unwrap(), Msg { id: 1, content: ProtocolClient::Stop });
    assert_eq!(r2.unwrap(), Msg { id: 2, content: ProtocolClient::Sub(SubMsg { topic: "test/a".into() }) });
}

#[test]
fn invalid_subscription_topic_uses_up_an_id() {
    let mut core = ClientCore::new();
    let (id, r) = core.before_send(Outgoing::Sub(SubMsg { topic: "Bad".into() }));
    assert_eq!(id, 1);
    assert_eq!(r, Err(BusError::InvalidTopicString("Invalid topic string: Bad".into())));
    let (id, _) = core.before_send(Outgoing::StopBus);
    assert_eq!(id, 2);
}

#[test]
fn publications_reach_matching_subscriptions() {
    let mut core = ClientCore::new();
    let (a, _) = core.before_send(Outgoing::Sub(SubMsg { topic: "test/a/b".into() }));
    let (b, _) = core.before_send(Outgoing::Sub(SubMsg { topic: "test/*/b".into() }));
    let (_c, _) = core.before_send(Outgoing::Sub(SubMsg { topic: "other".into() }));
    match core.route(&pub_msg("test/a/b")).unwrap() {
        Route::Pub(mut ids) => {
            ids.sort();
            assert_eq!(ids, vec![a, b]);
        }
        other => panic!("unexpected route {:?}", other),
    }
    assert_eq!(core.route(&pub_msg("test/x/c")).unwrap(), Route::Pub(vec![]));
    assert!(core.route(&pub_msg("test//")).is_err());
}

#[test]
fn gone_subscriber_is_unsubscribed() {
    let mut core = ClientCore::new();
    let (a, _) = core.before_send(Outgoing::Sub(SubMsg { topic: "test/a/b".into() }));
    let (b, _) = core.before_send(Outgoing::Sub(SubMsg { topic: "test/a".into() }));
    let (_c, _) = core.before_send(Outgoing::Sub(SubMsg { topic: "test/a".into() }));
    assert_eq!(core.subscriber_gone(a), vec!["test/a/b".to_string()]);
    assert_eq!(core.subscriber_gone(b), Vec::<String>::new());
    assert_eq!(core.route(&pub_msg("test/a/b")).unwrap(), Route::Pub(vec![]));
}

#[test]
fn requests_go_to_the_serving_claim() {
    let mut core = ClientCore::new();
    let (srv, r) = core.before_send(Outgoing::Srv(SrvMsg { topic: "test/ping".into() }));
    assert!(r.is_ok());
    assert_eq!(core.serving_claim("test/ping"), Some(srv));
    let req = Msg {
        id: 9,
        content: ProtocolServer::Req(ReqMsg { topic: "test/ping".into(), payload: Payload::from_bytes(vec![1]) }),
    };
    assert_eq!(core.route(&req).unwrap(), Route::Req(Some(srv)));
    let (_, r2) = core.before_send(Outgoing::Srv(SrvMsg { topic: "test/ping".into() }));
    assert_eq!(r2, Err(BusError::TopicAlreadyClaimed));
    let (_, r3) = core.before_send(Outgoing::Unsrv(UnsrvMsg { topic: "test/ping".into() }));
    assert!(r3.is_ok());
    assert_eq!(core.route(&req).unwrap(), Route::Req(None));
    let (_, r4) = core.before_send(Outgoing::Srv(SrvMsg { topic: "test/*".into() }));
    assert_eq!(r4, Err(BusError::ClaimWildcardNotSupported));
}

#[test]
fn acks_and_responses_route_by_id() {
    let core = ClientCore::new();
    let ack = Msg { id: 1, content: ProtocolServer::Ack(AckMsg { msg_id: 4, err: None, num_recipients: Some(2) }) };
    assert_eq!(core.route(&ack).unwrap(), Route::Ack(4));
    let rsp = Msg {
        id: 1,
        content: ProtocolServer::Rsp(RspMsg { req_id: 8, status: RspMsgStatus::Success, payload: Payload::from_bytes(vec![]) }),
    };
    assert_eq!(core.route(&rsp).unwrap(), Route::Rsp(8));
}

#[test]
fn ack_outcomes() {
    assert_eq!(ack_result(AckOutcome::Received(AckMsg { msg_id: 1, err: None, num_recipients: Some(3) })), Ok(Some(3)));
    assert_eq!(
        ack_result(AckOutcome::Received(AckMsg { msg_id: 1, err: Some(BusError::InvalidRequestId), num_recipients: None })),
        Err(BusError::RequestFailed("Respond failed: Invalid request ID".into()))
    );
    assert_eq!(ack_result(AckOutcome::ChannelClosed), Err(BusError::RequestFailedChannelClosed));
    assert_eq!(ack_result(AckOutcome::TimedOut), Err(BusError::RequestFailedTimeout));
}

#[test]
fn response_status() {
    let p = Payload::from_bytes(vec![5]);
    assert_eq!(response_payload(RspMsg { req_id: 1, status: RspMsgStatus::Success, payload: p.clone() }), Ok(p.clone()));
    assert_eq!(
        response_payload(RspMsg { req_id: 1, status: RspMsgStatus::Timeout, payload: p }),
        Err(BusError::RequestFailedTimeout)
    );
}
