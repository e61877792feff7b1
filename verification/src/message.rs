//! The message envelope, the events a node reacts to, and the handshake.
use vstd::prelude::*;

verus! {

/// The part of a message below its addresses: the sender's message id, the id
/// of the request this answers (if it answers one), and the payload.
#[derive(Clone, Debug, PartialEq, Eq)]
pub struct Body<P> {
    pub id: Option<usize>,
    pub in_reply_to: Option<usize>,
    pub payload: P,
}

/// One addressed message.
#[derive(Clone, Debug, PartialEq, Eq)]
pub struct Message<P> {
    pub src: String,
    pub dst: String,
    pub body: Body<P>,
}

/// The mathematical value of a [`Message`]: names as character sequences, the
/// payload by its own view.
pub ghost struct MessageView<PV> {
    pub src: Seq<char>,
    pub dst: Seq<char>,
    pub id: Option<usize>,
    pub in_reply_to: Option<usize>,
    pub payload: PV,
}

impl<P: View> View for Message<P> {
    type V = MessageView<P::V>;

    open spec fn view(&self) -> MessageView<P::V> {
        MessageView {
            src: self.src@,
            dst: self.dst@,
            id: self.body.id,
            in_reply_to: self.body.in_reply_to,
            payload: self.body.payload@,
        }
    }
}

impl<P> Message<P> {
    /// Turns a request into the envelope of its answer: the addresses change
    /// places, the answer gets `msg_id` as its own id and the request's id as
    /// the id it replies to. The payload is carried over for the caller to
    /// replace.
    pub fn into_reply(self, msg_id: Option<usize>) -> (reply: Self)
        ensures
            reply.src == self.dst,
            reply.dst == self.src,
            reply.body.id == msg_id,
            reply.body.in_reply_to == self.body.id,
            reply.body.payload == self.body.payload,
    {
        Message {
            src: self.dst,
            dst: self.src,
            body: Body { id: msg_id, in_reply_to: self.body.id, payload: self.body.payload },
        }
    }
}

/// What a node's event loop hands to its responder, one at a time.
pub enum MessageEvent<P, I> {
    /// A message that arrived from the network.
    External(Message<P>),
    /// An event the node raised for itself.
    Internal(I),
    /// The input has ended.
    EOF,
}

/// The identity a node is given at the handshake.
#[derive(Clone, Debug, PartialEq, Eq)]
pub struct InitMsg {
    pub node_id: String,
    pub node_ids: Vec<String>,
}

/// The two payloads of the handshake.
#[derive(Clone, Debug, PartialEq, Eq)]
pub enum InitPayload {
    Init(InitMsg),
    InitOk,
}

/// What a responder asks the event loop to do after an event.
#[derive(Clone, Debug, PartialEq, Eq)]
pub enum Action<P> {
    /// Write this message to the output.
    Send(Message<P>),
    /// Tell the periodic ticker to stop.
    StopTicker,
}

/// The mathematical value of an [`Action`].
pub ghost enum ActionView<PV> {
    Send(MessageView<PV>),
    StopTicker,
}

impl<P: View> View for Action<P> {
    type V = ActionView<P::V>;

    open spec fn view(&self) -> ActionView<P::V> {
        match self {
            Action::Send(message) => ActionView::Send(message@),
            Action::StopTicker => ActionView::StopTicker,
        }
    }
}

/// The values of a list of actions, in order.
pub open spec fn action_views<P: View>(actions: Seq<Action<P>>) -> Seq<ActionView<P::V>> {
    Seq::new(actions.len(), |i: int| actions[i]@)
}

/// Why a responder could not handle an event.
#[derive(Clone, Copy, Debug, PartialEq, Eq, Structural)]
pub enum ResponderError {
    /// The node has no message id left to give out.
    MessageIdsExhausted,
}

/// Why a handshake failed.
#[derive(Clone, Copy, Debug, PartialEq, Eq, Structural)]
pub enum HandshakeError {
    /// The first message did not carry the `Init` payload.
    UnexpectedPayload,
}

/// A protocol that a node can run: built from the handshake's identity, then
/// fed one event at a time.
pub trait Responder<P, I = ()>: Sized {
    /// The events this responder may be handed in its current state.
    spec fn accepts(&self, event: &MessageEvent<P, I>) -> bool;

    /// The responder of the node that the handshake named.
    fn init(init_msg: InitMsg) -> (responder: Self);

    /// Handles one event and returns what the event loop is to do for it, in
    /// order.
    fn respond(&mut self, event: MessageEvent<P, I>) -> (actions: Result<
        Vec<Action<P>>,
        ResponderError,
    >)
        requires
            old(self).accepts(&event),
    ;
}

/// The message id of the handshake's acknowledgment.
pub const INIT_OK_ID: usize = 0;

/// What the handshake owes for a first message: on `Init`, the acknowledgment
/// to send back; otherwise nothing.
pub open spec fn handshake_reply(first: Message<InitPayload>) -> Option<Message<InitPayload>> {
    match first.body.payload {
        InitPayload::Init(_) => Some(
            Message {
                src: first.dst,
                dst: first.src,
                body: Body {
                    id: Some(INIT_OK_ID),
                    in_reply_to: first.body.id,
                    payload: InitPayload::InitOk,
                },
            },
        ),
        InitPayload::InitOk => None,
    }
}

/// Handles the first message a node receives. If it carries `Init`, returns
/// the acknowledgment (id 0, replying to the first message's id, addresses
/// exchanged) together with the identity that was assigned. Any other payload
/// is refused.
pub fn handshake(first: Message<InitPayload>) -> (outcome: Result<
    (Message<InitPayload>, InitMsg),
    HandshakeError,
>)
    ensures
        match outcome {
            Ok((reply, identity)) => {
                &&& handshake_reply(first) == Some(reply)
                &&& first.body.payload == InitPayload::Init(identity)
            },
            Err(e) => {
                &&& first.body.payload is InitOk
                &&& e == HandshakeError::UnexpectedPayload
            },
        },
{
    match first.body.payload {
        InitPayload::Init(identity) => {
            let reply = Message {
                src: first.dst,
                dst: first.src,
                body: Body {
                    id: Some(INIT_OK_ID),
                    in_reply_to: first.body.id,
                    payload: InitPayload::InitOk,
                },
            };
            Ok((reply, identity))
        },
        InitPayload::InitOk => Err(HandshakeError::UnexpectedPayload),
    }
}

} // verus!
