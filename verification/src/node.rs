//! The broadcast node itself: the state of the protocol in memory, and the
//! step that handles one event.
use crate::broadcast::{
    actions_for, after_broadcast, after_gossip, after_gossip_ok, after_payload, after_tick,
    after_topology, gossip_actions, gossip_message, has_ids, is_first_listing,
    lemma_after_payload_wf, lemma_next_state_wf, listed_neighbours, next_state, relay_targets,
    replies, topology_view, with_batches, BroadcastPayload, InternalMessage, NodeState,
    PayloadView,
};
use crate::message::{
    action_views, Action, ActionView, Body, InitMsg, Message, MessageEvent, MessageView,
    Responder, ResponderError,
};
use crate::pending::{bucket_of, due, lemma_due_ends, lemma_due_step, Bucket, BucketView, Pending};
use crate::values::{copy_names, copy_set, has_name, merge_into, missing_from, names};
use std::collections::{HashMap, HashSet};
use vstd::prelude::*;

verus! {

broadcast use vstd::std_specs::hash::group_hash_axioms;

/// A node of the broadcast protocol.
pub struct BroadcastResponder {
    node_id: String,
    next_msg_id: usize,
    neighbours: Vec<String>,
    messages: HashSet<usize>,
    messages_to_gossip: Pending,
    gossip_sent: HashMap<usize, Bucket>,
}

/// The batches of a table of sent gossip, each by its value.
pub open spec fn batches_view(sent: Map<usize, Bucket>) -> Map<usize, BucketView> {
    Map::new(|id: usize| sent.contains_key(id), |id: usize| sent[id]@)
}

impl View for BroadcastResponder {
    type V = NodeState;

    closed spec fn view(&self) -> NodeState {
        NodeState {
            node_id: self.node_id@,
            next_msg_id: self.next_msg_id,
            neighbours: names(self.neighbours@),
            messages: self.messages@,
            pending: self.messages_to_gossip@,
            in_flight: batches_view(self.gossip_sent@),
        }
    }
}

/// The neighbours to pass a batch on to: all but its sender and those the
/// sender has served itself.
pub fn relay_to(neighbours: &Vec<String>, sender: &String, also_sent_to: &Vec<String>) -> (targets:
    Vec<String>)
    ensures
        names(targets@) == relay_targets(names(neighbours@), sender@, names(also_sent_to@)),
{
    let ghost all = names(neighbours@);
    let ghost keep = |n: Seq<char>| n != sender@ && !names(also_sent_to@).contains(n);
    let mut targets: Vec<String> = Vec::new();
    let mut i: usize = 0;
    proof {
        reveal(Seq::filter);
        assert(all.take(0) =~= Seq::<Seq<char>>::empty());
        assert(names(targets@) =~= all.take(0).filter(keep));
    }
    while i < neighbours.len()
        invariant
            i <= neighbours.len(),
            all == names(neighbours@),
            keep == |n: Seq<char>| n != sender@ && !names(also_sent_to@).contains(n),
            names(targets@) == all.take(i as int).filter(keep),
        decreases neighbours.len() - i,
    {
        proof {
            assert(all.take(i + 1) =~= all.take(i as int).push(all[i as int]));
            all.take(i as int).lemma_filter_push(all[i as int], keep);
        }
        if neighbours[i] != *sender && !has_name(also_sent_to, &neighbours[i]) {
            let ghost before = names(targets@);
            targets.push(neighbours[i].clone());
            assert(names(targets@) =~= before.push(all[i as int]));
        }
        i += 1;
    }
    assert(all.take(neighbours.len() as int) =~= all);
    targets
}

impl BroadcastResponder {
    /// The node's state is one it can reach.
    pub open spec fn wf(&self) -> bool {
        self@.wf()
    }

    /// A node that has just been given the name `node_id`: it knows no value,
    /// has no neighbour, and its first message will have the id 1.
    pub fn new(node_id: String) -> (node: Self)
        ensures
            node.wf(),
            node@ == NodeState::initial(node_id@),
    {
        let node = BroadcastResponder {
            node_id,
            next_msg_id: 1,
            neighbours: Vec::new(),
            messages: HashSet::new(),
            messages_to_gossip: Pending::new(),
            gossip_sent: HashMap::new(),
        };
        assert(node@.neighbours =~= Seq::<Seq<char>>::empty());
        assert(node@.in_flight =~= Map::<usize, BucketView>::empty());
        node
    }

    /// A node named `node_id` whose first message will have the id
    /// `first_id`. The id 0 belongs to the handshake's acknowledgment: asked
    /// to start there, this returns nothing.
    pub fn starting_at(node_id: String, first_id: usize) -> (node: Option<Self>)
        ensures
            first_id == 0 <==> node is None,
            node matches Some(n) ==> n.wf() && n@ == (NodeState {
                next_msg_id: first_id,
                ..NodeState::initial(node_id@)
            }),
    {
        if first_id == 0 {
            return None;
        }
        let mut node = BroadcastResponder::new(node_id);
        node.next_msg_id = first_id;
        assert(node@.in_flight == NodeState::initial(node_id@).in_flight);
        Some(node)
    }

    /// The node's name.
    pub fn node_id(&self) -> (name: &String)
        ensures
            name@ == self@.node_id,
    {
        &self.node_id
    }

    /// The id that the node's next message gets.
    pub fn next_msg_id(&self) -> (id: usize)
        ensures
            id == self@.next_msg_id,
    {
        self.next_msg_id
    }

    /// The nodes this node gossips with.
    pub fn neighbours(&self) -> (list: &Vec<String>)
        ensures
            names(list@) == self@.neighbours,
    {
        &self.neighbours
    }

    /// The values this node has seen.
    pub fn messages(&self) -> (values: &HashSet<usize>)
        ensures
            values@ == self@.messages,
    {
        &self.messages
    }

    /// The values that `neighbour` is still owed.
    pub fn pending_for(&self, neighbour: &String) -> (values: HashSet<usize>)
        requires
            self.wf(),
        ensures
            values@ == bucket_of(self@.pending, neighbour@),
    {
        match self.messages_to_gossip.find(neighbour) {
            Some(i) => copy_set(self.messages_to_gossip.values(i)),
            None => HashSet::new(),
        }
    }

    /// The number of batches sent and not yet acknowledged.
    pub fn in_flight_count(&self) -> (n: usize)
        ensures
            n == self@.in_flight.dom().len(),
    {
        assert(self@.in_flight.dom() =~= self.gossip_sent@.dom());
        self.gossip_sent.len()
    }

    /// Takes the node's neighbours from `topology`.
    pub fn learn_topology(&mut self, topology: &Vec<(String, Vec<String>)>)
        requires
            old(self).wf(),
        ensures
            final(self).wf(),
            final(self)@ == after_topology(old(self)@, topology_view(topology@)),
    {
        let ghost listing = topology_view(topology@);
        let mut i: usize = 0;
        while i < topology.len()
            invariant
                i <= topology.len(),
                listing == topology_view(topology@),
                *self == *old(self),
                self.wf(),
                forall|j: int| 0 <= j < i ==> listing[j].0 != self.node_id@,
            decreases topology.len() - i,
        {
            if topology[i].0 == self.node_id {
                proof {
                    assert(is_first_listing(listing, self.node_id@, i as int));
                    let chosen = choose|k: int| is_first_listing(listing, self.node_id@, k);
                    assert(chosen == i);
                }
                self.neighbours = copy_names(&topology[i].1);
                assert(self@.in_flight == old(self)@.in_flight);
                return ;
            }
            i += 1;
        }
        assert(listed_neighbours(listing, self.node_id@) is None);
    }

    /// Takes in a value that a client broadcast.
    pub fn accept_broadcast(&mut self, value: usize)
        requires
            old(self).wf(),
        ensures
            final(self).wf(),
            final(self)@ == after_broadcast(old(self)@, value),
    {
        proof {
            lemma_after_payload_wf(
                self@,
                MessageView {
                    src: self@.node_id,
                    dst: self@.node_id,
                    id: None,
                    in_reply_to: None,
                    payload: PayloadView::Broadcast { message: value },
                },
            );
        }
        if !self.messages.contains(&value) {
            self.messages.insert(value);
            let mut single: HashSet<usize> = HashSet::new();
            single.insert(value);
            assert(single@ =~= set![value]);
            self.messages_to_gossip.enqueue(&self.neighbours, &single);
        }
    }

    /// Takes in a batch of values that the neighbour `sender` gossiped.
    pub fn accept_gossip(
        &mut self,
        sender: &String,
        batch: &HashSet<usize>,
        also_sent_to: &Vec<String>,
    )
        requires
            old(self).wf(),
        ensures
            final(self).wf(),
            final(self)@ == after_gossip(old(self)@, sender@, batch@, names(also_sent_to@)),
    {
        proof {
            lemma_after_payload_wf(
                self@,
                MessageView {
                    src: sender@,
                    dst: self@.node_id,
                    id: None,
                    in_reply_to: None,
                    payload: PayloadView::Gossip {
                        messages: batch@,
                        also_sent_to: names(also_sent_to@),
                    },
                },
            );
        }
        let fresh = missing_from(batch, &self.messages);
        if !fresh.is_empty() {
            merge_into(&mut self.messages, &fresh);
            let targets = relay_to(&self.neighbours, sender, also_sent_to);
            self.messages_to_gossip.enqueue(&targets, &fresh);
        }
    }

    /// Takes in the acknowledgment of the gossip that went out under the id
    /// `in_reply_to`.
    pub fn accept_gossip_ok(&mut self, in_reply_to: Option<usize>)
        requires
            old(self).wf(),
        ensures
            final(self).wf(),
            final(self)@ == after_gossip_ok(old(self)@, in_reply_to),
    {
        proof {
            lemma_after_payload_wf(
                self@,
                MessageView {
                    src: self@.node_id,
                    dst: self@.node_id,
                    id: None,
                    in_reply_to,
                    payload: PayloadView::GossipOk,
                },
            );
        }
        if let Some(id) = in_reply_to {
            match self.gossip_sent.remove(&id) {
                Some(batch) => {
                    self.messages_to_gossip.confirm(&batch.neighbour, &batch.values);
                    assert(self@.in_flight =~= old(self)@.in_flight.remove(id));
                },
                None => {
                    assert(self@.in_flight =~= old(self)@.in_flight);
                },
            }
        }
    }

    /// Sends every neighbour what it is owed: one gossip message for each
    /// bucket that holds something, each recorded as in flight under its id.
    pub fn flush(&mut self) -> (actions: Vec<Action<BroadcastPayload>>)
        requires
            old(self).wf(),
            old(self)@.next_msg_id + due(old(self)@.pending).len() <= usize::MAX,
        ensures
            final(self).wf(),
            final(self)@ == after_tick(old(self)@),
            action_views(actions@) == gossip_actions(old(self)@, due(old(self)@.pending)),
    {
        let ghost start = self@;
        let mut actions: Vec<Action<BroadcastPayload>> = Vec::new();
        let mut i: usize = 0;
        proof {
            lemma_due_ends(start.pending);
            lemma_next_state_wf(start, MessageEvent::Internal(InternalMessage::Gossip));
            assert(self@.in_flight =~= with_batches(
                start.in_flight,
                start.next_msg_id,
                due(start.pending.take(0)),
            ));
            assert(action_views(actions@) =~= gossip_actions(start, due(start.pending.take(0))));
        }
        while i < self.messages_to_gossip.len()
            invariant
                i <= start.pending.len(),
                start == old(self)@,
                start.next_msg_id + due(start.pending).len() <= usize::MAX,
                start.wf(),
                after_tick(start).wf(),
                self@.node_id == start.node_id,
                self@.neighbours == start.neighbours,
                self@.messages == start.messages,
                self@.pending == start.pending,
                due(start.pending.take(i as int)).len() <= due(start.pending).len(),
                self@.next_msg_id == start.next_msg_id + due(start.pending.take(i as int)).len(),
                self@.in_flight == with_batches(
                    start.in_flight,
                    start.next_msg_id,
                    due(start.pending.take(i as int)),
                ),
                action_views(actions@) == gossip_actions(start, due(start.pending.take(i as int))),
            decreases start.pending.len() - i,
        {
            let ghost sent = due(start.pending.take(i as int));
            proof {
                lemma_due_step(start.pending, i as int);
            }
            if !self.messages_to_gossip.values(i).is_empty() {
                let ghost views = action_views(actions@);
                let ghost flying = self@.in_flight;
                let id = self.next_msg_id;
                let message = Message {
                    src: self.node_id.clone(),
                    dst: self.messages_to_gossip.neighbour(i).clone(),
                    body: Body {
                        id: Some(id),
                        in_reply_to: None,
                        payload: BroadcastPayload::Gossip {
                            messages: copy_set(self.messages_to_gossip.values(i)),
                            also_sent_to: copy_names(&self.neighbours),
                        },
                    },
                };
                let batch = Bucket {
                    neighbour: self.messages_to_gossip.neighbour(i).clone(),
                    values: copy_set(self.messages_to_gossip.values(i)),
                };
                assert(batch@ == start.pending[i as int]);
                assert(message@ == gossip_message(start, start.pending[i as int], id));
                self.gossip_sent.insert(id, batch);
                actions.push(Action::Send(message));
                self.next_msg_id = id + 1;
                proof {
                    let grown = sent.push(start.pending[i as int]);
                    assert(id == start.next_msg_id + sent.len());
                    assert(self@.in_flight =~= flying.insert(id, start.pending[i as int]));
                    assert(flying.insert(id, start.pending[i as int]) =~= with_batches(
                        start.in_flight,
                        start.next_msg_id,
                        grown,
                    )) by {
                        assert forall|k: usize| #[trigger]
                            start.in_flight.contains_key(k) implies k < start.next_msg_id by {}
                    }
                    assert(action_views(actions@) =~= views.push(
                        ActionView::Send(gossip_message(start, start.pending[i as int], id)),
                    ));
                    assert(gossip_actions(start, grown) =~= gossip_actions(start, sent).push(
                        ActionView::Send(gossip_message(start, start.pending[i as int], id)),
                    ));
                }
            }
            i += 1;
        }
        proof {
            lemma_due_ends(start.pending);
        }
        actions
    }
}

impl Responder<BroadcastPayload, InternalMessage> for BroadcastResponder {
    /// A node in a state it can reach takes every event.
    open spec fn accepts(&self, event: &MessageEvent<BroadcastPayload, InternalMessage>) -> bool {
        self.wf()
    }

    /// The node that the handshake's identity describes.
    fn init(init_msg: InitMsg) -> (responder: Self)
        ensures
            responder.wf(),
            responder@ == NodeState::initial(init_msg.node_id@),
    {
        BroadcastResponder::new(init_msg.node_id)
    }

    /// Handles one event. A message from the network changes the state as
    /// its payload says and is answered under the node's next id; a tick
    /// sends the pending gossip; the end of the input asks for the ticker to
    /// be stopped. Where the node has not enough ids left for the event, it
    /// refuses and stays as it is.
    fn respond(&mut self, event: MessageEvent<BroadcastPayload, InternalMessage>) -> (actions:
        Result<Vec<Action<BroadcastPayload>>, ResponderError>)
        ensures
            final(self).wf(),
            match actions {
                Ok(list) => {
                    &&& has_ids(old(self)@, event)
                    &&& final(self)@ == next_state(old(self)@, event)
                    &&& action_views(list@) == actions_for(old(self)@, event)
                },
                Err(e) => {
                    &&& !has_ids(old(self)@, event)
                    &&& e == ResponderError::MessageIdsExhausted
                    &&& final(self)@ == old(self)@
                },
            },
    {
        match event {
            MessageEvent::EOF => {
                let mut list: Vec<Action<BroadcastPayload>> = Vec::new();
                list.push(Action::StopTicker);
                assert(action_views(list@) =~= seq![ActionView::StopTicker]);
                Ok(list)
            },
            MessageEvent::Internal(InternalMessage::Gossip) => {
                let needed = self.messages_to_gossip.due_count();
                if needed > usize::MAX - self.next_msg_id {
                    return Err(ResponderError::MessageIdsExhausted);
                }
                Ok(self.flush())
            },
            MessageEvent::External(msg) => {
                if self.next_msg_id == usize::MAX {
                    return Err(ResponderError::MessageIdsExhausted);
                }
                let ghost request = msg@;
                let ghost start = self@;
                proof {
                    lemma_after_payload_wf(start, request);
                }
                let in_reply_to = msg.body.in_reply_to;
                let mut response = msg.into_reply(Some(self.next_msg_id));
                let mut list: Vec<Action<BroadcastPayload>> = Vec::new();
                match response.body.payload {
                    BroadcastPayload::Topology { topology } => {
                        self.learn_topology(&topology);
                        response.body.payload = BroadcastPayload::TopologyOk;
                        list.push(Action::Send(response));
                    },
                    BroadcastPayload::Broadcast { message } => {
                        self.accept_broadcast(message);
                        response.body.payload = BroadcastPayload::BroadcastOk;
                        list.push(Action::Send(response));
                    },
                    BroadcastPayload::Read => {
                        response.body.payload = BroadcastPayload::ReadOk {
                            messages: copy_set(&self.messages),
                        };
                        list.push(Action::Send(response));
                    },
                    BroadcastPayload::Gossip { messages, also_sent_to } => {
                        self.accept_gossip(&response.dst, &messages, &also_sent_to);
                        response.body.payload = BroadcastPayload::GossipOk;
                        list.push(Action::Send(response));
                    },
                    BroadcastPayload::GossipOk => {
                        self.accept_gossip_ok(in_reply_to);
                    },
                    _ => {},
                }
                assert(self@ == after_payload(start, request));
                assert(action_views(list@) =~= replies(start, request));
                self.next_msg_id = self.next_msg_id + 1;
                assert(self@.in_flight == after_payload(start, request).in_flight);
                Ok(list)
            },
        }
    }
}

} // verus!
