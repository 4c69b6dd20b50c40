//! The decisions of a bus client: numbering outgoing messages, keeping track of
//! local subscriptions and served topics, and routing incoming messages to the
//! subscriptions and requests they belong to.
//!
//! The client's own subscriptions are kept in a `Directory` keyed by the id of
//! the message that made each subscription or claim; the callbacks that carry
//! messages to the subscribers are held by the caller under the same ids.
use vstd::prelude::*;
use crate::directory::{
    Directory,
    NodeView,
    after_subscribe,
    after_claim,
    after_unclaim,
    after_drop_client,
    owner_of,
    matching_subscribers,
    sole_subscriber_paths,
    sole_subscriber_topics,
    valid_paths,
    lemma_valid_paths_kept,
};
use crate::err::{BusError, BusResult};
use crate::payload::Payload;
use crate::protocol::{
    AckMsg,
    Msg,
    MsgId,
    ProtocolClient,
    ProtocolServer,
    PubMsg,
    ReqMsg,
    RspMsg,
    RspMsgStatus,
    SrvMsg,
    SubMsg,
    UnsrvMsg,
    UnsubMsg,
};
use crate::topic::{TopicPath, is_valid_topic, split_topic, strings_view, parse_topic, invalid_topic_message};

verus! {

/// A message the client asks its core to send to the server.
pub enum Outgoing {
    Pub(PubMsg),
    Sub(SubMsg),
    Req(ReqMsg),
    Rsp(RspMsg),
    Srv(SrvMsg),
    Unsub(UnsubMsg),
    Unsrv(UnsrvMsg),
    StopBus,
}

/// Where an incoming message goes.
#[derive(Debug, PartialEq)]
pub enum Route {
    /// To the acknowledgement callback of the message with this id.
    Ack(MsgId),
    /// To the response callback of the request with this id.
    Rsp(MsgId),
    /// To the publication callbacks of these subscriptions.
    Pub(Vec<MsgId>),
    /// To the request callback of this served topic's claim, if it is served here.
    Req(Option<MsgId>),
}

/// The id after `id`; ids wrap around.
pub open spec fn next_id(id: u32) -> u32 {
    if id == u32::MAX {
        0
    } else {
        (id + 1) as u32
    }
}

/// Why a message cannot be sent: its topic string is invalid (the error then
/// names it), or the local directory refuses it.
pub enum SendFailure {
    InvalidTopic(Seq<char>),
    Refused(BusError),
}

/// `r` is the error that `f` describes.
pub open spec fn failure_is(r: BusError, f: SendFailure) -> bool {
    match f {
        SendFailure::InvalidTopic(t) => r matches BusError::InvalidTopicString(m) && m@
            == invalid_topic_message(t),
        SendFailure::Refused(e) => r == e,
    }
}

/// The local directory, and the message to send (or why not), after sending
/// `task` with id `id`.
pub open spec fn after_send(m: Map<TopicPath, NodeView>, id: u32, task: Outgoing) -> (Map<
    TopicPath,
    NodeView,
>, Result<ProtocolClient, SendFailure>) {
    match task {
        Outgoing::Pub(p) => (m, Ok(ProtocolClient::Pub(p))),
        Outgoing::Sub(p) => if is_valid_topic(p.topic@) {
            (after_subscribe(m, id, split_topic(p.topic@)), Ok(ProtocolClient::Sub(p)))
        } else {
            (m, Err(SendFailure::InvalidTopic(p.topic@)))
        },
        Outgoing::Req(p) => (m, Ok(ProtocolClient::Req(p))),
        Outgoing::Rsp(p) => (m, Ok(ProtocolClient::Rsp(p))),
        Outgoing::Unsub(p) => (m, Ok(ProtocolClient::Unsub(p))),
        Outgoing::Unsrv(p) => if is_valid_topic(p.topic@) {
            let t = split_topic(p.topic@);
            let m2 = after_unclaim(m, owner_of(m, t).unwrap(), t);
            if after_unclaim_fails(m, t) {
                (m2, Err(SendFailure::Refused(BusError::ClaimWildcardNotSupported)))
            } else {
                (m2, Ok(ProtocolClient::Unsrv(p)))
            }
        } else {
            (m, Err(SendFailure::InvalidTopic(p.topic@)))
        },
        Outgoing::Srv(p) => if is_valid_topic(p.topic@) {
            let (m2, r) = after_claim(m, id, split_topic(p.topic@));
            match r {
                Ok(_) => (m2, Ok(ProtocolClient::Srv(p))),
                Err(e) => (m2, Err(SendFailure::Refused(e))),
            }
        } else {
            (m, Err(SendFailure::InvalidTopic(p.topic@)))
        },
        Outgoing::StopBus => (m, Ok(ProtocolClient::Stop)),
    }
}

/// Whether unclaiming `t` fails (a wildcard met before a missing node).
pub open spec fn after_unclaim_fails(m: Map<TopicPath, NodeView>, t: TopicPath) -> bool {
    crate::directory::unclaim_blocked(m, t)
}

/// A sent `Unsrv` needs the topic to be served here.
pub open spec fn send_allowed(m: Map<TopicPath, NodeView>, task: Outgoing) -> bool {
    match task {
        Outgoing::Unsrv(p) => is_valid_topic(p.topic@) ==> owner_of(m, split_topic(p.topic@)) is Some,
        _ => true,
    }
}

/// What happened while awaiting an acknowledgement.
pub enum AckOutcome {
    Received(AckMsg),
    ChannelClosed,
    TimedOut,
}

/// The client-side state: the id of the last message sent and the local
/// subscriptions and served topics.
pub struct ClientCore {
    next_msg_id: MsgId,
    subscriptions: Directory,
}

impl ClientCore {
    pub closed spec fn last_id(self) -> u32 {
        self.next_msg_id
    }

    pub closed spec fn directory(self) -> Map<TopicPath, NodeView> {
        self.subscriptions@
    }

    pub closed spec fn wf(self) -> bool {
        self.subscriptions.wf() && valid_paths(self.subscriptions@)
    }

    /// A client that has sent nothing and subscribes to nothing.
    pub fn new() -> (c: ClientCore)
        ensures
            c.wf(),
            c.last_id() == 0,
            c.directory() == map![Seq::<Seq<char>>::empty() => crate::directory::empty_node()],
    {
        ClientCore { next_msg_id: 0, subscriptions: Directory::new() }
    }

    /// Whether the topic `topic` is served by this client (and which claim serves it).
    pub fn serving_claim(&self, topic: &str) -> (r: Option<MsgId>)
        requires
            self.wf(),
        ensures
            is_valid_topic(topic@) ==> r == owner_of(self.directory(), split_topic(topic@)),
            !is_valid_topic(topic@) ==> r is None,
    {
        match parse_topic(topic) {
            Ok(t) => self.subscriptions.get_owner(t.as_slice()),
            Err(_) => None,
        }
    }

    /// Numbers `task` with the next id and turns it into the message to send,
    /// recording subscriptions and claims locally under that id. The id is used
    /// up whether or not an error comes back.
    pub fn before_send(&mut self, task: Outgoing) -> (r: (MsgId, BusResult<Msg<ProtocolClient>>))
        requires
            old(self).wf(),
            send_allowed(old(self).directory(), task),
        ensures
            final(self).wf(),
            r.0 == next_id(old(self).last_id()),
            final(self).last_id() == r.0,
            final(self).directory() == after_send(old(self).directory(), r.0, task).0,
            match after_send(old(self).directory(), r.0, task).1 {
                Ok(c) => r.1 == Ok::<Msg<ProtocolClient>, BusError>(Msg { id: r.0, content: c }),
                Err(f) => r.1 is Err && failure_is(r.1->Err_0, f),
            },
    {
        let id: u32 = if self.next_msg_id == u32::MAX {
            0
        } else {
            self.next_msg_id + 1
        };
        self.next_msg_id = id;
        proof {
            let m = self.subscriptions@;
            match task {
                Outgoing::Sub(ref p) => if is_valid_topic(p.topic@) {
                    lemma_valid_paths_kept(m, id, split_topic(p.topic@));
                },
                Outgoing::Srv(ref p) => if is_valid_topic(p.topic@) {
                    lemma_valid_paths_kept(m, id, split_topic(p.topic@));
                },
                Outgoing::Unsrv(ref p) => if is_valid_topic(p.topic@) {
                    lemma_valid_paths_kept(m, owner_of(m, split_topic(p.topic@)).unwrap(), split_topic(p.topic@));
                },
                _ => {},
            }
        }
        let content = match task {
            Outgoing::Pub(p) => ProtocolClient::Pub(p),
            Outgoing::Sub(p) => {
                let t = match parse_topic(p.topic.as_str()) {
                    Ok(t) => t,
                    Err(e) => {
                        return (id, Err(e));
                    },
                };
                self.subscriptions.subscribe(id, t.as_slice());
                ProtocolClient::Sub(p)
            },
            Outgoing::Req(p) => ProtocolClient::Req(p),
            Outgoing::Rsp(p) => ProtocolClient::Rsp(p),
            Outgoing::Unsub(p) => ProtocolClient::Unsub(p),
            Outgoing::Unsrv(p) => {
                let t = match parse_topic(p.topic.as_str()) {
                    Ok(t) => t,
                    Err(e) => {
                        return (id, Err(e));
                    },
                };
                let owner = self.subscriptions.get_owner(t.as_slice()).unwrap();
                if let Err(e) = self.subscriptions.unclaim(owner, t.as_slice()) {
                    return (id, Err(e));
                }
                ProtocolClient::Unsrv(p)
            },
            Outgoing::Srv(p) => {
                let t = match parse_topic(p.topic.as_str()) {
                    Ok(t) => t,
                    Err(e) => {
                        return (id, Err(e));
                    },
                };
                if let Err(e) = self.subscriptions.claim(id, t.as_slice()) {
                    return (id, Err(e));
                }
                ProtocolClient::Srv(p)
            },
            Outgoing::StopBus => ProtocolClient::Stop,
        };
        (id, Ok(Msg { id, content }))
    }

    /// Where an incoming message goes. Publications and requests on invalid
    /// topics are errors.
    pub fn route(&self, msg: &Msg<ProtocolServer>) -> (r: BusResult<Route>)
        requires
            self.wf(),
        ensures
            match msg.content {
                ProtocolServer::Ack(a) => r == Ok::<Route, BusError>(Route::Ack(a.msg_id)),
                ProtocolServer::Rsp(p) => r == Ok::<Route, BusError>(Route::Rsp(p.req_id)),
                ProtocolServer::Pub(p) => if is_valid_topic(p.topic@) {
                    r matches Ok(Route::Pub(ids)) && ids@.no_duplicates() && ids@.to_set()
                        == matching_subscribers(self.directory(), split_topic(p.topic@))
                } else {
                    r is Err && failure_is(r->Err_0, SendFailure::InvalidTopic(p.topic@))
                },
                ProtocolServer::Req(p) => if is_valid_topic(p.topic@) {
                    r == Ok::<Route, BusError>(
                        Route::Req(owner_of(self.directory(), split_topic(p.topic@))),
                    )
                } else {
                    r is Err && failure_is(r->Err_0, SendFailure::InvalidTopic(p.topic@))
                },
            },
    {
        match &msg.content {
            ProtocolServer::Ack(a) => Ok(Route::Ack(a.msg_id)),
            ProtocolServer::Rsp(p) => Ok(Route::Rsp(p.req_id)),
            ProtocolServer::Pub(p) => {
                let t = parse_topic(p.topic.as_str())?;
                Ok(Route::Pub(self.subscriptions.get_subscribers(t.as_slice())))
            },
            ProtocolServer::Req(p) => {
                let t = parse_topic(p.topic.as_str())?;
                Ok(Route::Req(self.subscriptions.get_owner(t.as_slice())))
            },
        }
    }

    /// Forgets the subscription made by message `callback_id` (its receiver is
    /// gone). Returns the topics that no local subscription covers any more,
    /// which the client should unsubscribe from at the server.
    pub fn subscriber_gone(&mut self, callback_id: MsgId) -> (r: Vec<String>)
        requires
            old(self).wf(),
        ensures
            final(self).wf(),
            final(self).last_id() == old(self).last_id(),
            final(self).directory() == after_drop_client(old(self).directory(), callback_id),
            strings_view(r@).to_set() == sole_subscriber_topics(old(self).directory(), callback_id),
            strings_view(r@).no_duplicates(),
            r@.len() == sole_subscriber_paths(old(self).directory(), callback_id).len(),
    {
        proof {
            lemma_valid_paths_kept(self.subscriptions@, callback_id, Seq::empty());
        }
        self.subscriptions.drop_client(callback_id)
    }
}

/// The outcome of a request as its acknowledgement tells it: the number of
/// recipients (for publications) when the server accepted it; an error when it
/// refused, when the channel closed or when no acknowledgement came in time.
pub fn ack_result(outcome: AckOutcome) -> (r: BusResult<Option<usize>>)
    ensures
        match outcome {
            AckOutcome::Received(ack) => match ack.err {
                Some(e) => r matches Err(BusError::RequestFailed(m)) && m@
                    == crate::err::error_message(e),
                None => r == Ok::<Option<usize>, BusError>(ack.num_recipients),
            },
            AckOutcome::ChannelClosed => r == Err::<Option<usize>, BusError>(
                BusError::RequestFailedChannelClosed,
            ),
            AckOutcome::TimedOut => r == Err::<Option<usize>, BusError>(
                BusError::RequestFailedTimeout,
            ),
        },
{
    match outcome {
        AckOutcome::Received(ack) => match ack.err {
            Some(err) => Err(BusError::RequestFailed(err.to_string())),
            None => Ok(ack.num_recipients),
        },
        AckOutcome::ChannelClosed => Err(BusError::RequestFailedChannelClosed),
        AckOutcome::TimedOut => Err(BusError::RequestFailedTimeout),
    }
}

/// The payload of a response, or the timeout error when the server answered
/// that nobody responded in time.
pub fn response_payload(rsp: RspMsg) -> (r: BusResult<Payload>)
    ensures
        rsp.status == RspMsgStatus::Success ==> r == Ok::<Payload, BusError>(rsp.payload),
        rsp.status == RspMsgStatus::Timeout ==> r == Err::<Payload, BusError>(
            BusError::RequestFailedTimeout,
        ),
{
    match rsp.status {
        RspMsgStatus::Success => Ok(rsp.payload),
        RspMsgStatus::Timeout => Err(BusError::RequestFailedTimeout),
    }
}

/// Messages that record nothing locally are sent as given: publications,
/// requests, responses (answering the request they name) and unsubscriptions
/// pass on unchanged, a bus stop becomes `Stop`, and the local directory stays
/// as it was.
pub proof fn lemma_passed_on_unchanged(m: Map<TopicPath, NodeView>, id: u32, task: Outgoing)
    ensures
        task matches Outgoing::Pub(p) ==> after_send(m, id, task) == (m, Ok::<ProtocolClient, SendFailure>(ProtocolClient::Pub(p))),
        task matches Outgoing::Req(p) ==> after_send(m, id, task) == (m, Ok::<ProtocolClient, SendFailure>(ProtocolClient::Req(p))),
        task matches Outgoing::Rsp(p) ==> after_send(m, id, task) == (m, Ok::<ProtocolClient, SendFailure>(ProtocolClient::Rsp(p))),
        task matches Outgoing::Unsub(p) ==> after_send(m, id, task) == (m, Ok::<ProtocolClient, SendFailure>(ProtocolClient::Unsub(p))),
        task is StopBus ==> after_send(m, id, task) == (m, Ok::<ProtocolClient, SendFailure>(ProtocolClient::Stop)),
{
}

/// A response goes out under the sender's next message id and answers the
/// request it names: its request id, status and payload are those given.
pub proof fn lemma_response_answers_its_request(m: Map<TopicPath, NodeView>, id: u32, rsp: RspMsg)
    ensures
        after_send(m, id, Outgoing::Rsp(rsp)).1 matches Ok(ProtocolClient::Rsp(sent)) && sent.req_id
            == rsp.req_id && sent.status == rsp.status && sent.payload == rsp.payload,
{
}

/// Message ids count up by one, wrapping around after `u32::MAX`.
pub proof fn lemma_ids_count_up(id: u32)
    ensures
        next_id(id) as int == (id as int + 1) % 4294967296,
{
}

} // verus!
