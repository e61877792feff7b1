//! The echo protocol: every `Echo` is answered with the text it carried.
use crate::message::{
    action_views, Action, ActionView, InitMsg, MessageEvent, MessageView, Responder,
    ResponderError,
};
use vstd::prelude::*;

verus! {

/// The payloads of the echo protocol.
#[derive(Clone, Debug, PartialEq, Eq)]
pub enum EchoPayload {
    Echo { echo: String },
    EchoOk { echo: String },
}

/// The mathematical value of an [`EchoPayload`].
pub ghost enum EchoPayloadView {
    Echo { echo: Seq<char> },
    EchoOk { echo: Seq<char> },
}

impl View for EchoPayload {
    type V = EchoPayloadView;

    open spec fn view(&self) -> EchoPayloadView {
        match self {
            EchoPayload::Echo { echo } => EchoPayloadView::Echo { echo: echo@ },
            EchoPayload::EchoOk { echo } => EchoPayloadView::EchoOk { echo: echo@ },
        }
    }
}

/// What an echo node sends for a message when its next id is `next_id`: for
/// an `Echo`, the same text back to the sender, under that id and in reply to
/// the request's id; for anything else, nothing.
pub open spec fn echo_replies(next_id: usize, request: MessageView<EchoPayloadView>) -> Seq<
    ActionView<EchoPayloadView>,
> {
    match request.payload {
        EchoPayloadView::Echo { echo } => seq![
            ActionView::Send(
                MessageView {
                    src: request.dst,
                    dst: request.src,
                    id: Some(next_id),
                    in_reply_to: request.id,
                    payload: EchoPayloadView::EchoOk { echo },
                },
            ),
        ],
        EchoPayloadView::EchoOk { .. } => Seq::empty(),
    }
}

/// A node of the echo protocol. All it holds is the id of its next message.
pub struct EchoResponder {
    msg_id: usize,
}

impl View for EchoResponder {
    type V = usize;

    closed spec fn view(&self) -> usize {
        self.msg_id
    }
}

impl Responder<EchoPayload, ()> for EchoResponder {
    /// An echo node takes messages from the network and nothing else.
    open spec fn accepts(&self, event: &MessageEvent<EchoPayload, ()>) -> bool {
        event is External
    }

    /// A node whose first message will have the id 1.
    fn init(init_msg: InitMsg) -> (responder: Self)
        ensures
            responder@ == 1,
    {
        EchoResponder { msg_id: 1 }
    }

    /// Answers an `Echo` with its text and uses up one id, answered or not.
    /// A node with no id left refuses and stays as it is.
    fn respond(&mut self, event: MessageEvent<EchoPayload, ()>) -> (actions: Result<
        Vec<Action<EchoPayload>>,
        ResponderError,
    >)
        ensures
            match actions {
                Ok(list) => {
                    &&& old(self)@ < usize::MAX
                    &&& final(self)@ == old(self)@ + 1
                    &&& action_views(list@) == echo_replies(old(self)@, event->External_0@)
                },
                Err(e) => {
                    &&& old(self)@ == usize::MAX
                    &&& e == ResponderError::MessageIdsExhausted
                    &&& final(self)@ == old(self)@
                },
            },
    {
        if self.msg_id == usize::MAX {
            return Err(ResponderError::MessageIdsExhausted);
        }
        let mut list: Vec<Action<EchoPayload>> = Vec::new();
        match event {
            MessageEvent::External(msg) => {
                let ghost request = msg@;
                let mut response = msg.into_reply(Some(self.msg_id));
                match response.body.payload {
                    EchoPayload::Echo { echo } => {
                        response.body.payload = EchoPayload::EchoOk { echo };
                        list.push(Action::Send(response));
                    },
                    _ => {},
                }
                assert(action_views(list@) =~= echo_replies(self.msg_id, request));
            },
            _ => {},
        }
        self.msg_id = self.msg_id + 1;
        Ok(list)
    }
}

} // verus!
