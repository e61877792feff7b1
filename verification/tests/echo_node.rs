use rostengan_my::echo::{EchoPayload, EchoResponder};
use rostengan_my::message::{Action, Body, InitMsg, Message, MessageEvent, Responder};

fn echo_node() -> EchoResponder {
    EchoResponder::init(InitMsg { node_id: "n1".to_string(), node_ids: vec!["n1".to_string()] })
}

fn from_client(id: Option<usize>, payload: EchoPayload) -> MessageEvent<EchoPayload, ()> {
    MessageEvent::External(Message {
        src: "c1".to_string(),
        dst: "n1".to_string(),
        body: Body { id, in_reply_to: None, payload },
    })
}

#[test]
fn echo_is_answered_with_its_text() {
    let mut node = echo_node();
    let out = node
        .respond(from_client(Some(4), EchoPayload::Echo { echo: "hello".to_string() }))
        .unwrap();
    assert_eq!(
        out,
        vec![Action::Send(Message {
            src: "n1".to_string(),
            dst: "c1".to_string(),
            body: Body {
                id: Some(1),
                in_reply_to: Some(4),
                payload: EchoPayload::EchoOk { echo: "hello".to_string() },
            },
        })]
    );
}

#[test]
fn echo_ids_count_up_answered_or_not() {
    let mut node = echo_node();
    let none = node
        .respond(from_client(Some(1), EchoPayload::EchoOk { echo: "x".to_string() }))
        .unwrap();
    assert!(none.is_empty());
    let out =
        node.respond(from_client(Some(2), EchoPayload::Echo { echo: "y".to_string() })).unwrap();
    match &out[0] {
        Action::Send(m) => {
            assert_eq!(m.body.id, Some(2));
            assert_eq!(m.body.in_reply_to, Some(2));
        },
        Action::StopTicker => panic!("no message"),
    }
}
