use rostengan_my::broadcast::{next_tick, BroadcastPayload, InternalMessage, StopPoll};
use rostengan_my::message::{
    Action, Body, InitMsg, Message, MessageEvent, Responder, ResponderError,
};
use rostengan_my::node::{relay_to, BroadcastResponder};
use std::collections::HashSet;

fn names(list: &[&str]) -> Vec<String> {
    list.iter().map(|s| s.to_string()).collect()
}

fn values(list: &[usize]) -> HashSet<usize> {
    list.iter().copied().collect()
}

fn node(name: &str) -> BroadcastResponder {
    BroadcastResponder::init(InitMsg { node_id: name.to_string(), node_ids: names(&[name]) })
}

fn request(
    src: &str,
    dst: &str,
    id: Option<usize>,
    in_reply_to: Option<usize>,
    payload: BroadcastPayload,
) -> MessageEvent<BroadcastPayload, InternalMessage> {
    MessageEvent::External(Message {
        src: src.to_string(),
        dst: dst.to_string(),
        body: Body { id, in_reply_to, payload },
    })
}

fn reply(
    src: &str,
    dst: &str,
    id: usize,
    in_reply_to: Option<usize>,
    payload: BroadcastPayload,
) -> Action<BroadcastPayload> {
    Action::Send(Message {
        src: src.to_string(),
        dst: dst.to_string(),
        body: Body { id: Some(id), in_reply_to, payload },
    })
}

fn topology(entries: &[(&str, &[&str])]) -> BroadcastPayload {
    BroadcastPayload::Topology {
        topology: entries.iter().map(|(n, list)| (n.to_string(), names(list))).collect(),
    }
}

fn tick() -> MessageEvent<BroadcastPayload, InternalMessage> {
    MessageEvent::Internal(InternalMessage::Gossip)
}

fn sent(actions: Vec<Action<BroadcastPayload>>) -> Vec<Message<BroadcastPayload>> {
    actions
        .into_iter()
        .map(|a| match a {
            Action::Send(m) => m,
            Action::StopTicker => panic!("no message"),
        })
        .collect()
}

#[test]
fn a_new_node_knows_nothing() {
    let n1 = node("n1");
    assert_eq!(n1.node_id(), "n1");
    assert_eq!(n1.next_msg_id(), 1);
    assert!(n1.neighbours().is_empty());
    assert!(n1.messages().is_empty());
    assert_eq!(n1.in_flight_count(), 0);
    assert!(n1.pending_for(&"n2".to_string()).is_empty());
}

#[test]
fn single_node_broadcast_then_read() {
    let mut n1 = node("n1");
    let out = n1.respond(request("c1", "n1", Some(1), None, topology(&[("n1", &[])]))).unwrap();
    assert_eq!(out, vec![reply("n1", "c1", 1, Some(1), BroadcastPayload::TopologyOk)]);
    let out = n1
        .respond(request("c1", "n1", Some(2), None, BroadcastPayload::Broadcast { message: 5 }))
        .unwrap();
    assert_eq!(out, vec![reply("n1", "c1", 2, Some(2), BroadcastPayload::BroadcastOk)]);
    let out = n1.respond(request("c1", "n1", Some(3), None, BroadcastPayload::Read)).unwrap();
    assert_eq!(
        out,
        vec![reply("n1", "c1", 3, Some(3), BroadcastPayload::ReadOk { messages: values(&[5]) })]
    );
    let out = n1.respond(tick()).unwrap();
    assert!(out.is_empty());
    assert_eq!(n1.in_flight_count(), 0);
    assert_eq!(n1.next_msg_id(), 4);
}

#[test]
fn two_nodes_gossip_and_acknowledge() {
    let mut n1 = node("n1");
    let mut n2 = node("n2");
    let both: &[(&str, &[&str])] = &[("n1", &["n2"]), ("n2", &["n1"])];
    n1.respond(request("c1", "n1", Some(1), None, topology(both))).unwrap();
    n2.respond(request("c1", "n2", Some(1), None, topology(both))).unwrap();
    assert_eq!(n1.neighbours(), &names(&["n2"]));
    assert_eq!(n2.neighbours(), &names(&["n1"]));

    n1.respond(request("c1", "n1", Some(2), None, BroadcastPayload::Broadcast { message: 7 }))
        .unwrap();
    assert_eq!(n1.pending_for(&"n2".to_string()), values(&[7]));

    let gossip = sent(n1.respond(tick()).unwrap());
    assert_eq!(
        gossip,
        vec![Message {
            src: "n1".to_string(),
            dst: "n2".to_string(),
            body: Body {
                id: Some(3),
                in_reply_to: None,
                payload: BroadcastPayload::Gossip {
                    messages: values(&[7]),
                    also_sent_to: names(&["n2"]),
                },
            },
        }]
    );
    assert_eq!(n1.in_flight_count(), 1);
    assert_eq!(n1.next_msg_id(), 4);
    assert_eq!(n1.pending_for(&"n2".to_string()), values(&[7]));

    let acks = sent(n2.respond(MessageEvent::External(gossip[0].clone())).unwrap());
    assert_eq!(
        acks,
        vec![Message {
            src: "n2".to_string(),
            dst: "n1".to_string(),
            body: Body { id: Some(2), in_reply_to: Some(3), payload: BroadcastPayload::GossipOk },
        }]
    );
    let read = n2.respond(request("c2", "n2", Some(9), None, BroadcastPayload::Read)).unwrap();
    assert_eq!(
        read,
        vec![reply("n2", "c2", 3, Some(9), BroadcastPayload::ReadOk { messages: values(&[7]) })]
    );
    assert!(n2.pending_for(&"n1".to_string()).is_empty());

    let out = n1.respond(MessageEvent::External(acks[0].clone())).unwrap();
    assert!(out.is_empty());
    assert!(n1.pending_for(&"n2".to_string()).is_empty());
    assert_eq!(n1.in_flight_count(), 0);
    assert!(n1.respond(tick()).unwrap().is_empty());
}

#[test]
fn a_value_broadcast_twice_is_read_once() {
    let mut n1 = node("n1");
    n1.respond(request("c1", "n1", Some(1), None, topology(&[("n1", &["n2", "n3"])]))).unwrap();
    let first = n1
        .respond(request("c1", "n1", Some(2), None, BroadcastPayload::Broadcast { message: 11 }))
        .unwrap();
    let second = n1
        .respond(request("c2", "n1", Some(8), None, BroadcastPayload::Broadcast { message: 11 }))
        .unwrap();
    assert_eq!(first, vec![reply("n1", "c1", 2, Some(2), BroadcastPayload::BroadcastOk)]);
    assert_eq!(second, vec![reply("n1", "c2", 3, Some(8), BroadcastPayload::BroadcastOk)]);
    let read =
        sent(n1.respond(request("c1", "n1", Some(3), None, BroadcastPayload::Read)).unwrap());
    match &read[0].body.payload {
        BroadcastPayload::ReadOk { messages } => {
            assert_eq!(messages.len(), 1);
            assert!(messages.contains(&11));
        },
        other => panic!("unexpected {:?}", other),
    }
    assert_eq!(n1.pending_for(&"n2".to_string()), values(&[11]));
    assert_eq!(n1.pending_for(&"n3".to_string()), values(&[11]));
}

#[test]
fn every_reply_names_its_request() {
    let mut n1 = node("n1");
    let requests = vec![
        (Some(10), topology(&[("n1", &["n2"])])),
        (Some(20), BroadcastPayload::Broadcast { message: 1 }),
        (Some(30), BroadcastPayload::Read),
        (None, BroadcastPayload::Read),
        (Some(40), BroadcastPayload::Gossip { messages: values(&[2]), also_sent_to: vec![] }),
    ];
    let mut expected_id = 1;
    for (id, payload) in requests {
        let out = sent(n1.respond(request("x", "n1", id, None, payload)).unwrap());
        assert_eq!(out.len(), 1);
        assert_eq!(out[0].body.in_reply_to, id);
        assert_eq!(out[0].body.id, Some(expected_id));
        assert_eq!(out[0].src, "n1");
        assert_eq!(out[0].dst, "x");
        expected_id += 1;
    }
}

#[test]
fn tick_sends_each_bucket_in_order_of_first_use() {
    let mut n1 = node("n1");
    n1.respond(request("c", "n1", Some(1), None, topology(&[("n1", &["n2", "n3", "n4"])])))
        .unwrap();
    n1.respond(request("c", "n1", Some(2), None, BroadcastPayload::Broadcast { message: 1 }))
        .unwrap();
    n1.respond(request("c", "n1", Some(3), None, BroadcastPayload::Broadcast { message: 2 }))
        .unwrap();
    let gossip = sent(n1.respond(tick()).unwrap());
    assert_eq!(gossip.len(), 3);
    for (k, target) in ["n2", "n3", "n4"].iter().enumerate() {
        assert_eq!(gossip[k].src, "n1");
        assert_eq!(gossip[k].dst, *target);
        assert_eq!(gossip[k].body.id, Some(4 + k));
        assert_eq!(gossip[k].body.in_reply_to, None);
        assert_eq!(
            gossip[k].body.payload,
            BroadcastPayload::Gossip {
                messages: values(&[1, 2]),
                also_sent_to: names(&["n2", "n3", "n4"]),
            }
        );
    }
    assert_eq!(n1.next_msg_id(), 7);
    assert_eq!(n1.in_flight_count(), 3);
}

#[test]
fn unacknowledged_gossip_is_sent_again() {
    let mut n1 = node("n1");
    n1.respond(request("c", "n1", Some(1), None, topology(&[("n1", &["n2"])]))).unwrap();
    n1.respond(request("c", "n1", Some(2), None, BroadcastPayload::Broadcast { message: 3 }))
        .unwrap();
    let first = sent(n1.respond(tick()).unwrap());
    let second = sent(n1.respond(tick()).unwrap());
    assert_eq!(first[0].body.id, Some(3));
    assert_eq!(second[0].body.id, Some(4));
    assert_eq!(first[0].body.payload, second[0].body.payload);
    assert_eq!(n1.in_flight_count(), 2);
}

#[test]
fn acknowledgment_keeps_values_queued_after_the_batch() {
    let mut n1 = node("n1");
    n1.respond(request("c", "n1", Some(1), None, topology(&[("n1", &["n2"])]))).unwrap();
    n1.respond(request("c", "n1", Some(2), None, BroadcastPayload::Broadcast { message: 3 }))
        .unwrap();
    let gossip = sent(n1.respond(tick()).unwrap());
    assert_eq!(gossip[0].body.id, Some(3));
    n1.respond(request("c", "n1", Some(3), None, BroadcastPayload::Broadcast { message: 4 }))
        .unwrap();
    assert_eq!(n1.pending_for(&"n2".to_string()), values(&[3, 4]));
    let ack = request("n2", "n1", Some(1), Some(3), BroadcastPayload::GossipOk);
    let out = n1.respond(ack).unwrap();
    assert!(out.is_empty());
    assert_eq!(n1.pending_for(&"n2".to_string()), values(&[4]));
    assert_eq!(n1.in_flight_count(), 0);
}

#[test]
fn a_late_or_repeated_acknowledgment_is_ignored() {
    let mut n1 = node("n1");
    n1.respond(request("c", "n1", Some(1), None, topology(&[("n1", &["n2"])]))).unwrap();
    n1.respond(request("c", "n1", Some(2), None, BroadcastPayload::Broadcast { message: 3 }))
        .unwrap();
    n1.respond(tick()).unwrap();
    n1.respond(request("n2", "n1", Some(1), Some(3), BroadcastPayload::GossipOk)).unwrap();
    let before = n1.next_msg_id();
    let again = n1.respond(request("n2", "n1", Some(2), Some(3), BroadcastPayload::GossipOk));
    assert_eq!(again, Ok(vec![]));
    let unknown = n1.respond(request("n2", "n1", Some(3), Some(77), BroadcastPayload::GossipOk));
    assert_eq!(unknown, Ok(vec![]));
    let none = n1.respond(request("n2", "n1", Some(4), None, BroadcastPayload::GossipOk));
    assert_eq!(none, Ok(vec![]));
    assert!(n1.pending_for(&"n2".to_string()).is_empty());
    assert_eq!(n1.next_msg_id(), before + 3);
}

#[test]
fn gossip_is_relayed_past_the_sender_and_those_it_served() {
    let mut n1 = node("n1");
    n1.respond(request("c", "n1", Some(1), None, topology(&[("n1", &["n2", "n3", "n4", "n5"])])))
        .unwrap();
    let out = n1
        .respond(request(
            "n2",
            "n1",
            Some(6),
            None,
            BroadcastPayload::Gossip {
                messages: values(&[8, 9]),
                also_sent_to: names(&["n1", "n4"]),
            },
        ))
        .unwrap();
    assert_eq!(out, vec![reply("n1", "n2", 2, Some(6), BroadcastPayload::GossipOk)]);
    assert_eq!(n1.messages(), &values(&[8, 9]));
    assert!(n1.pending_for(&"n2".to_string()).is_empty());
    assert!(n1.pending_for(&"n4".to_string()).is_empty());
    assert_eq!(n1.pending_for(&"n3".to_string()), values(&[8, 9]));
    assert_eq!(n1.pending_for(&"n5".to_string()), values(&[8, 9]));
    let gossip = sent(n1.respond(tick()).unwrap());
    assert_eq!(gossip.len(), 2);
    assert_eq!(gossip[0].dst, "n3");
    assert_eq!(gossip[1].dst, "n5");
}

#[test]
fn gossip_relays_only_what_is_new() {
    let mut n1 = node("n1");
    n1.respond(request("c", "n1", Some(1), None, topology(&[("n1", &["n2", "n3"])]))).unwrap();
    n1.respond(request("c", "n1", Some(2), None, BroadcastPayload::Broadcast { message: 1 }))
        .unwrap();
    n1.respond(request(
        "n2",
        "n1",
        Some(3),
        None,
        BroadcastPayload::Gossip { messages: values(&[1, 2]), also_sent_to: vec![] },
    ))
    .unwrap();
    assert_eq!(n1.messages(), &values(&[1, 2]));
    assert_eq!(n1.pending_for(&"n2".to_string()), values(&[1]));
    assert_eq!(n1.pending_for(&"n3".to_string()), values(&[1, 2]));
}

#[test]
fn gossip_without_news_is_acknowledged_and_queues_nothing() {
    let mut n1 = node("n1");
    n1.respond(request("c", "n1", Some(1), None, topology(&[("n1", &["n2", "n3"])]))).unwrap();
    n1.respond(request(
        "n2",
        "n1",
        Some(3),
        None,
        BroadcastPayload::Gossip { messages: values(&[]), also_sent_to: vec![] },
    ))
    .unwrap();
    let out = n1
        .respond(request(
            "n3",
            "n1",
            Some(4),
            None,
            BroadcastPayload::Gossip { messages: values(&[]), also_sent_to: vec![] },
        ))
        .unwrap();
    assert_eq!(out, vec![reply("n1", "n3", 3, Some(4), BroadcastPayload::GossipOk)]);
    assert!(n1.respond(tick()).unwrap().is_empty());
}

#[test]
fn a_tick_with_nothing_owed_is_silent() {
    let mut n1 = node("n1");
    n1.respond(request("c", "n1", Some(1), None, topology(&[("n1", &["n2"])]))).unwrap();
    let before = n1.next_msg_id();
    assert_eq!(n1.respond(tick()), Ok(vec![]));
    assert_eq!(n1.next_msg_id(), before);
    assert_eq!(n1.in_flight_count(), 0);
}

#[test]
fn a_topology_without_this_node_changes_nothing() {
    let mut n1 = node("n1");
    n1.respond(request("c", "n1", Some(1), None, topology(&[("n1", &["n2"])]))).unwrap();
    let out = n1.respond(request("c", "n1", Some(2), None, topology(&[("n9", &["n1"])]))).unwrap();
    assert_eq!(out, vec![reply("n1", "c", 2, Some(2), BroadcastPayload::TopologyOk)]);
    assert_eq!(n1.neighbours(), &names(&["n2"]));
}

#[test]
fn a_topology_replaces_the_neighbours() {
    let mut n1 = node("n1");
    n1.respond(request("c", "n1", Some(1), None, topology(&[("n1", &["n2"])]))).unwrap();
    n1.respond(request(
        "c",
        "n1",
        Some(2),
        None,
        topology(&[("n2", &["n1"]), ("n1", &["n3", "n4"]), ("n1", &["n5"])]),
    ))
    .unwrap();
    assert_eq!(n1.neighbours(), &names(&["n3", "n4"]));
}

#[test]
fn unexpected_payloads_are_ignored_but_use_an_id() {
    let mut n1 = node("n1");
    for payload in [
        BroadcastPayload::TopologyOk,
        BroadcastPayload::BroadcastOk,
        BroadcastPayload::ReadOk { messages: values(&[1]) },
    ] {
        assert_eq!(n1.respond(request("n2", "n1", Some(5), None, payload)), Ok(vec![]));
    }
    assert_eq!(n1.next_msg_id(), 4);
    assert!(n1.messages().is_empty());
}

#[test]
fn end_of_input_stops_the_ticker() {
    let mut n1 = node("n1");
    assert_eq!(n1.respond(MessageEvent::EOF), Ok(vec![Action::StopTicker]));
    assert_eq!(n1.next_msg_id(), 1);
}

#[test]
fn a_node_without_ids_refuses() {
    let mut n1 = BroadcastResponder::starting_at("n1".to_string(), usize::MAX).unwrap();
    let out = n1.respond(request("c", "n1", Some(1), None, BroadcastPayload::Read));
    assert_eq!(out, Err(ResponderError::MessageIdsExhausted));
    assert_eq!(n1.next_msg_id(), usize::MAX);
    assert_eq!(n1.respond(tick()), Ok(vec![]));
    assert_eq!(n1.respond(MessageEvent::EOF), Ok(vec![Action::StopTicker]));
}

#[test]
fn a_tick_that_needs_more_ids_than_are_left_sends_nothing() {
    let mut n1 = BroadcastResponder::starting_at("n1".to_string(), usize::MAX - 2).unwrap();
    n1.respond(request("c", "n1", Some(1), None, topology(&[("n1", &["n2", "n3"])]))).unwrap();
    n1.respond(request("c", "n1", Some(2), None, BroadcastPayload::Broadcast { message: 1 }))
        .unwrap();
    assert_eq!(n1.next_msg_id(), usize::MAX);
    assert_eq!(n1.respond(tick()), Err(ResponderError::MessageIdsExhausted));
    assert_eq!(n1.in_flight_count(), 0);
    assert_eq!(n1.pending_for(&"n2".to_string()), values(&[1]));
}

#[test]
fn the_last_id_can_still_be_used_by_a_tick() {
    let mut n1 = BroadcastResponder::starting_at("n1".to_string(), usize::MAX - 3).unwrap();
    n1.respond(request("c", "n1", Some(1), None, topology(&[("n1", &["n2"])]))).unwrap();
    n1.respond(request("c", "n1", Some(2), None, BroadcastPayload::Broadcast { message: 1 }))
        .unwrap();
    let gossip = sent(n1.respond(tick()).unwrap());
    assert_eq!(gossip[0].body.id, Some(usize::MAX - 1));
    assert_eq!(n1.next_msg_id(), usize::MAX);
}

#[test]
fn no_node_starts_at_the_reserved_id() {
    assert!(BroadcastResponder::starting_at("n1".to_string(), 0).is_none());
    let n1 = BroadcastResponder::starting_at("n1".to_string(), 1).unwrap();
    assert_eq!(n1.next_msg_id(), 1);
}

#[test]
fn the_ticker_fires_until_it_is_stopped() {
    assert_eq!(next_tick(StopPoll::Empty), Some(InternalMessage::Gossip));
    assert_eq!(next_tick(StopPoll::Signalled), None);
    assert_eq!(next_tick(StopPoll::Disconnected), None);
}

#[test]
fn relay_targets_keep_their_order() {
    let targets = relay_to(
        &names(&["a", "b", "c", "d", "b"]),
        &"c".to_string(),
        &names(&["d", "x"]),
    );
    assert_eq!(targets, names(&["a", "b", "b"]));
}

#[test]
fn a_cloned_payload_equals_its_source() {
    let payloads = vec![
        topology(&[("n1", &["n2", "n3"]), ("n2", &[])]),
        BroadcastPayload::TopologyOk,
        BroadcastPayload::Broadcast { message: 4 },
        BroadcastPayload::BroadcastOk,
        BroadcastPayload::Read,
        BroadcastPayload::ReadOk { messages: values(&[1, 2, 3]) },
        BroadcastPayload::Gossip { messages: values(&[5]), also_sent_to: names(&["n7"]) },
        BroadcastPayload::GossipOk,
    ];
    for payload in payloads {
        assert_eq!(payload.clone(), payload);
    }
}

#[test]
fn a_line_of_three_nodes_converges() {
    let mut a = node("a");
    let mut b = node("b");
    let mut c = node("c");
    let line: &[(&str, &[&str])] = &[("a", &["b"]), ("b", &["a", "c"]), ("c", &["b"])];
    a.respond(request("h", "a", Some(1), None, topology(line))).unwrap();
    b.respond(request("h", "b", Some(1), None, topology(line))).unwrap();
    c.respond(request("h", "c", Some(1), None, topology(line))).unwrap();
    a.respond(request("h", "a", Some(2), None, BroadcastPayload::Broadcast { message: 42 }))
        .unwrap();

    let from_a = sent(a.respond(tick()).unwrap());
    assert_eq!(from_a.len(), 1);
    let ack_b = sent(b.respond(MessageEvent::External(from_a[0].clone())).unwrap());
    a.respond(MessageEvent::External(ack_b[0].clone())).unwrap();
    assert!(b.messages().contains(&42));
    assert!(!c.messages().contains(&42));

    let from_b = sent(b.respond(tick()).unwrap());
    assert_eq!(from_b.len(), 1);
    assert_eq!(from_b[0].dst, "c");
    let ack_c = sent(c.respond(MessageEvent::External(from_b[0].clone())).unwrap());
    b.respond(MessageEvent::External(ack_c[0].clone())).unwrap();
    assert!(c.messages().contains(&42));

    assert!(a.respond(tick()).unwrap().is_empty());
    assert!(b.respond(tick()).unwrap().is_empty());
    assert!(c.respond(tick()).unwrap().is_empty());
}
