//! The broadcast protocol: what a node knows, what it still owes its
//! neighbours, and how each event changes that.
//!
//! A value given to one node reaches the others by gossip. A node queues every
//! value it learns for its neighbours, sends each neighbour its whole queue on
//! every tick, and takes a value out of a queue only when the neighbour has
//! acknowledged a batch that held it.
use crate::message::{ActionView, MessageEvent, MessageView};
use crate::pending::{
    all_within, confirm, distinct_neighbours, due, enqueue, has_values, lemma_confirm,
    lemma_enqueue, lemma_enqueue_within, BucketView,
};
use std::collections::HashSet;
use vstd::prelude::*;

verus! {

/// The payloads of the broadcast protocol.
#[derive(Debug, PartialEq, Eq)]
pub enum BroadcastPayload {
    /// For each listed node, its neighbours. A node listed twice counts as
    /// listed where it stands first.
    Topology { topology: Vec<(String, Vec<String>)> },
    TopologyOk,
    Broadcast { message: usize },
    BroadcastOk,
    Read,
    ReadOk { messages: HashSet<usize> },
    Gossip { messages: HashSet<usize>, also_sent_to: Vec<String> },
    GossipOk,
}

impl Clone for BroadcastPayload {
    /// A payload of the same value.
    fn clone(&self) -> (copy: Self)
        ensures
            copy@ == self@,
    {
        match self {
            BroadcastPayload::Topology { topology } => {
                let mut entries: Vec<(String, Vec<String>)> = Vec::new();
                let mut i: usize = 0;
                while i < topology.len()
                    invariant
                        i <= topology.len(),
                        topology_view(entries@) == topology_view(topology@).take(i as int),
                    decreases topology.len() - i,
                {
                    let ghost before = topology_view(entries@);
                    let node = topology[i].0.clone();
                    let neighbours = crate::values::copy_names(&topology[i].1);
                    entries.push((node, neighbours));
                    assert(topology_view(entries@) =~= before.push(
                        topology_view(topology@)[i as int],
                    ));
                    assert(topology_view(topology@).take(i + 1) =~= topology_view(
                        topology@,
                    ).take(i as int).push(topology_view(topology@)[i as int]));
                    i += 1;
                }
                assert(topology_view(topology@).take(topology.len() as int) =~= topology_view(
                    topology@,
                ));
                BroadcastPayload::Topology { topology: entries }
            },
            BroadcastPayload::TopologyOk => BroadcastPayload::TopologyOk,
            BroadcastPayload::Broadcast { message } => BroadcastPayload::Broadcast {
                message: *message,
            },
            BroadcastPayload::BroadcastOk => BroadcastPayload::BroadcastOk,
            BroadcastPayload::Read => BroadcastPayload::Read,
            BroadcastPayload::ReadOk { messages } => BroadcastPayload::ReadOk {
                messages: crate::values::copy_set(messages),
            },
            BroadcastPayload::Gossip { messages, also_sent_to } => BroadcastPayload::Gossip {
                messages: crate::values::copy_set(messages),
                also_sent_to: crate::values::copy_names(also_sent_to),
            },
            BroadcastPayload::GossipOk => BroadcastPayload::GossipOk,
        }
    }
}

/// The events a broadcast node raises for itself.
#[derive(Clone, Copy, Debug, PartialEq, Eq)]
pub enum InternalMessage {
    /// Time to send the neighbours what they are owed.
    Gossip,
}

/// What the ticker found when it looked for the signal to stop.
#[derive(Clone, Copy, Debug, PartialEq, Eq)]
pub enum StopPoll {
    /// The signal has come.
    Signalled,
    /// Nobody is left who could send the signal.
    Disconnected,
    /// No signal yet.
    Empty,
}

/// What the ticker does after each wait: as long as it has not been told to
/// stop and the node is still there, it raises one gossip tick; else it ends.
pub fn next_tick(poll: StopPoll) -> (tick: Option<InternalMessage>)
    ensures
        tick == (match poll {
            StopPoll::Empty => Some(InternalMessage::Gossip),
            StopPoll::Signalled => None,
            StopPoll::Disconnected => None,
        }),
{
    match poll {
        StopPoll::Empty => Some(InternalMessage::Gossip),
        StopPoll::Signalled => None,
        StopPoll::Disconnected => None,
    }
}

/// The mathematical value of a [`BroadcastPayload`].
pub ghost enum PayloadView {
    Topology { topology: Seq<(Seq<char>, Seq<Seq<char>>)> },
    TopologyOk,
    Broadcast { message: usize },
    BroadcastOk,
    Read,
    ReadOk { messages: Set<usize> },
    Gossip { messages: Set<usize>, also_sent_to: Seq<Seq<char>> },
    GossipOk,
}

/// The value of a topology: each entry's node and its neighbours, by name.
pub open spec fn topology_view(topology: Seq<(String, Vec<String>)>) -> Seq<
    (Seq<char>, Seq<Seq<char>>),
> {
    Seq::new(topology.len(), |i: int| (topology[i].0@, crate::values::names(topology[i].1@)))
}

impl View for BroadcastPayload {
    type V = PayloadView;

    open spec fn view(&self) -> PayloadView {
        match self {
            BroadcastPayload::Topology { topology } => PayloadView::Topology {
                topology: topology_view(topology@),
            },
            BroadcastPayload::TopologyOk => PayloadView::TopologyOk,
            BroadcastPayload::Broadcast { message } => PayloadView::Broadcast { message: *message },
            BroadcastPayload::BroadcastOk => PayloadView::BroadcastOk,
            BroadcastPayload::Read => PayloadView::Read,
            BroadcastPayload::ReadOk { messages } => PayloadView::ReadOk { messages: messages@ },
            BroadcastPayload::Gossip { messages, also_sent_to } => PayloadView::Gossip {
                messages: messages@,
                also_sent_to: crate::values::names(also_sent_to@),
            },
            BroadcastPayload::GossipOk => PayloadView::GossipOk,
        }
    }
}

/// Everything a broadcast node holds.
pub ghost struct NodeState {
    /// This node's name.
    pub node_id: Seq<char>,
    /// The id that the next message of this node gets.
    pub next_msg_id: usize,
    /// The nodes this node gossips with.
    pub neighbours: Seq<Seq<char>>,
    /// The values this node has seen.
    pub messages: Set<usize>,
    /// What each neighbour is still owed.
    pub pending: Seq<BucketView>,
    /// The batches sent and not yet acknowledged, by the id of the message that
    /// carried each.
    pub in_flight: Map<usize, BucketView>,
}

impl NodeState {
    /// What holds of every state a node can reach: no neighbour has two
    /// buckets, ids start at 1 and every batch in flight has an id that was
    /// already given out, and nothing is owed or in flight that the node does
    /// not know itself.
    pub open spec fn wf(self) -> bool {
        &&& distinct_neighbours(self.pending)
        &&& self.next_msg_id >= 1
        &&& forall|id: usize| #[trigger] self.in_flight.contains_key(id) ==> id < self.next_msg_id
        &&& all_within(self.pending, self.messages)
        &&& forall|id: usize| #[trigger]
            self.in_flight.contains_key(id) ==> self.in_flight[id].values.subset_of(self.messages)
    }

    /// The state of a node that has just been given its name.
    pub open spec fn initial(node_id: Seq<char>) -> NodeState {
        NodeState {
            node_id,
            next_msg_id: 1,
            neighbours: Seq::empty(),
            messages: Set::empty(),
            pending: Seq::empty(),
            in_flight: Map::empty(),
        }
    }
}

/// Whether entry `i` is the first of `topology` that lists `node`.
pub open spec fn is_first_listing(
    topology: Seq<(Seq<char>, Seq<Seq<char>>)>,
    node: Seq<char>,
    i: int,
) -> bool {
    &&& 0 <= i < topology.len()
    &&& topology[i].0 == node
    &&& forall|j: int| 0 <= j < i ==> topology[j].0 != node
}

/// The neighbours that `topology` lists for `node`, if it lists the node.
pub open spec fn listed_neighbours(
    topology: Seq<(Seq<char>, Seq<Seq<char>>)>,
    node: Seq<char>,
) -> Option<Seq<Seq<char>>> {
    if exists|i: int| is_first_listing(topology, node, i) {
        Some(topology[choose|i: int| is_first_listing(topology, node, i)].1)
    } else {
        None
    }
}

/// After a topology message: the node's neighbours are those the topology
/// lists for it. A topology that does not list the node changes nothing.
pub open spec fn after_topology(
    s: NodeState,
    topology: Seq<(Seq<char>, Seq<Seq<char>>)>,
) -> NodeState {
    match listed_neighbours(topology, s.node_id) {
        Some(neighbours) => NodeState { neighbours, ..s },
        None => s,
    }
}

/// After a client's broadcast of `value`: a value seen before changes
/// nothing; a new one is now known and owed to every neighbour.
pub open spec fn after_broadcast(s: NodeState, value: usize) -> NodeState {
    if s.messages.contains(value) {
        s
    } else {
        NodeState {
            messages: s.messages.insert(value),
            pending: enqueue(s.pending, s.neighbours, set![value]),
            ..s
        }
    }
}

/// The neighbours to pass a batch on to: all but the node the batch came from
/// and those that node says it sent the batch to itself.
pub open spec fn relay_targets(
    neighbours: Seq<Seq<char>>,
    sender: Seq<char>,
    also_sent_to: Seq<Seq<char>>,
) -> Seq<Seq<char>> {
    neighbours.filter(|n: Seq<char>| n != sender && !also_sent_to.contains(n))
}

/// After a gossip batch from `sender`: the values of the batch that are new to
/// this node are now known, and owed to the relay targets. A batch without a
/// new value changes nothing.
pub open spec fn after_gossip(
    s: NodeState,
    sender: Seq<char>,
    batch: Set<usize>,
    also_sent_to: Seq<Seq<char>>,
) -> NodeState {
    let fresh = batch.difference(s.messages);
    if fresh.is_empty() {
        s
    } else {
        NodeState {
            messages: s.messages.union(fresh),
            pending: enqueue(s.pending, relay_targets(s.neighbours, sender, also_sent_to), fresh),
            ..s
        }
    }
}

/// After the acknowledgment of the batch that message `in_reply_to` carried:
/// the batch's values leave the bucket of the neighbour it went to, and the
/// batch is no longer in flight. An acknowledgment that names no batch in
/// flight changes nothing.
pub open spec fn after_gossip_ok(s: NodeState, in_reply_to: Option<usize>) -> NodeState {
    match in_reply_to {
        Some(id) => if s.in_flight.contains_key(id) {
            NodeState {
                pending: confirm(
                    s.pending,
                    s.in_flight[id].neighbour,
                    s.in_flight[id].values,
                ),
                in_flight: s.in_flight.remove(id),
                ..s
            }
        } else {
            s
        },
        None => s,
    }
}

/// What a message's payload does to the state, the id counter aside.
pub open spec fn after_payload(s: NodeState, message: MessageView<PayloadView>) -> NodeState {
    match message.payload {
        PayloadView::Topology { topology } => after_topology(s, topology),
        PayloadView::Broadcast { message: value } => after_broadcast(s, value),
        PayloadView::Gossip { messages, also_sent_to } => after_gossip(
            s,
            message.src,
            messages,
            also_sent_to,
        ),
        PayloadView::GossipOk => after_gossip_ok(s, message.in_reply_to),
        _ => s,
    }
}

/// The payload that answers a request, if the request gets an answer.
pub open spec fn answer(s: NodeState, request: PayloadView) -> Option<PayloadView> {
    match request {
        PayloadView::Topology { .. } => Some(PayloadView::TopologyOk),
        PayloadView::Broadcast { .. } => Some(PayloadView::BroadcastOk),
        PayloadView::Read => Some(PayloadView::ReadOk { messages: s.messages }),
        PayloadView::Gossip { .. } => Some(PayloadView::GossipOk),
        _ => None,
    }
}

/// What the node sends for a message from the network: the answer, addressed
/// back to the sender, under the node's next id and in reply to the request's
/// id; nothing where the payload gets no answer.
pub open spec fn replies(s: NodeState, message: MessageView<PayloadView>) -> Seq<
    ActionView<PayloadView>,
> {
    match answer(s, message.payload) {
        Some(payload) => seq![
            ActionView::Send(
                MessageView {
                    src: message.dst,
                    dst: message.src,
                    id: Some(s.next_msg_id),
                    in_reply_to: message.id,
                    payload,
                },
            ),
        ],
        None => Seq::empty(),
    }
}

/// The gossip message that carries `batch` under the id `id`.
pub open spec fn gossip_message(s: NodeState, batch: BucketView, id: usize) -> MessageView<
    PayloadView,
> {
    MessageView {
        src: s.node_id,
        dst: batch.neighbour,
        id: Some(id),
        in_reply_to: None,
        payload: PayloadView::Gossip { messages: batch.values, also_sent_to: s.neighbours },
    }
}

/// One gossip message for each of `batches`, under consecutive ids from the
/// node's next id on.
pub open spec fn gossip_actions(s: NodeState, batches: Seq<BucketView>) -> Seq<
    ActionView<PayloadView>,
> {
    Seq::new(
        batches.len(),
        |i: int| ActionView::Send(gossip_message(s, batches[i], (s.next_msg_id + i) as usize)),
    )
}

/// `in_flight` with each of `batches` recorded under the id its message got.
pub open spec fn with_batches(
    in_flight: Map<usize, BucketView>,
    first_id: usize,
    batches: Seq<BucketView>,
) -> Map<usize, BucketView> {
    Map::new(
        |id: usize| in_flight.contains_key(id) || first_id <= id < first_id + batches.len(),
        |id: usize|
            if first_id <= id < first_id + batches.len() {
                batches[id - first_id]
            } else {
                in_flight[id]
            },
    )
}

/// After a tick: every bucket that holds something went out as a batch, is
/// recorded as in flight, and used up one id. The buckets themselves stay as
/// they are.
pub open spec fn after_tick(s: NodeState) -> NodeState {
    let batches = due(s.pending);
    NodeState {
        next_msg_id: (s.next_msg_id + batches.len()) as usize,
        in_flight: with_batches(s.in_flight, s.next_msg_id, batches),
        ..s
    }
}

/// The number of message ids that handling `event` uses up.
pub open spec fn ids_needed(
    s: NodeState,
    event: MessageEvent<BroadcastPayload, InternalMessage>,
) -> nat {
    match event {
        MessageEvent::External(_) => 1,
        MessageEvent::Internal(_) => due(s.pending).len(),
        MessageEvent::EOF => 0,
    }
}

/// Whether the node has the ids left that handling `event` uses up.
pub open spec fn has_ids(
    s: NodeState,
    event: MessageEvent<BroadcastPayload, InternalMessage>,
) -> bool {
    s.next_msg_id + ids_needed(s, event) <= usize::MAX
}

/// The state after a message from the network: what its payload does, and
/// one id used up, answered or not.
pub open spec fn after_message(s: NodeState, message: MessageView<PayloadView>) -> NodeState {
    NodeState { next_msg_id: (s.next_msg_id + 1) as usize, ..after_payload(s, message) }
}

/// The state after `event`.
pub open spec fn next_state(
    s: NodeState,
    event: MessageEvent<BroadcastPayload, InternalMessage>,
) -> NodeState {
    match event {
        MessageEvent::External(message) => after_message(s, message@),
        MessageEvent::Internal(_) => after_tick(s),
        MessageEvent::EOF => s,
    }
}

/// What the node asks for after `event`: the answer to a message from the
/// network, the gossip of a tick, or, at the end of the input, that the ticker
/// be stopped.
pub open spec fn actions_for(
    s: NodeState,
    event: MessageEvent<BroadcastPayload, InternalMessage>,
) -> Seq<ActionView<PayloadView>> {
    match event {
        MessageEvent::External(message) => replies(s, message@),
        MessageEvent::Internal(_) => gossip_actions(s, due(s.pending)),
        MessageEvent::EOF => seq![ActionView::StopTicker],
    }
}

/// Every state a node reaches from a well-formed one is well-formed.
pub proof fn lemma_next_state_wf(
    s: NodeState,
    event: MessageEvent<BroadcastPayload, InternalMessage>,
)
    requires
        s.wf(),
        has_ids(s, event),
    ensures
        next_state(s, event).wf(),
{
    match event {
        MessageEvent::External(message) => {
            lemma_after_payload_wf(s, message@);
        },
        MessageEvent::Internal(_) => {
            let batches = due(s.pending);
            let after = after_tick(s);
            assert forall|id: usize| #[trigger] after.in_flight.contains_key(id) implies id
                < after.next_msg_id && after.in_flight[id].values.subset_of(after.messages) by {
                if s.next_msg_id <= id < s.next_msg_id + batches.len() {
                    let batch = batches[id - s.next_msg_id];
                    s.pending.lemma_filter_contains_rev(|b: BucketView| has_values(b), batch);
                    assert(s.pending.contains(batch));
                } else {
                    assert(s.in_flight.contains_key(id));
                }
            }
        },
        MessageEvent::EOF => {},
    }
}

/// Whatever a message carries, the state after it is well-formed, and no id
/// has been given out that was not given out before.
pub proof fn lemma_after_payload_wf(s: NodeState, message: MessageView<PayloadView>)
    requires
        s.wf(),
    ensures
        after_payload(s, message).wf(),
        after_payload(s, message).next_msg_id == s.next_msg_id,
        after_payload(s, message).node_id == s.node_id,
        s.messages.subset_of(after_payload(s, message).messages),
{
    let after = after_payload(s, message);
    match message.payload {
        PayloadView::Topology { topology } => {},
        PayloadView::Broadcast { message: value } => {
            if !s.messages.contains(value) {
                lemma_enqueue(s.pending, s.neighbours, set![value], s.node_id);
                lemma_grown_within(s.pending, s.messages, after.messages);
                lemma_enqueue_within(s.pending, s.neighbours, set![value], after.messages);
                assert forall|id: usize| #[trigger]
                    after.in_flight.contains_key(id) implies after.in_flight[id].values.subset_of(
                    after.messages,
                ) by {
                    assert(s.in_flight[id].values.subset_of(s.messages));
                }
            }
        },
        PayloadView::Gossip { messages, also_sent_to } => {
            let fresh = messages.difference(s.messages);
            if !fresh.is_empty() {
                let targets = relay_targets(s.neighbours, message.src, also_sent_to);
                lemma_enqueue(s.pending, targets, fresh, s.node_id);
                lemma_grown_within(s.pending, s.messages, after.messages);
                lemma_enqueue_within(s.pending, targets, fresh, after.messages);
                assert forall|id: usize| #[trigger]
                    after.in_flight.contains_key(id) implies after.in_flight[id].values.subset_of(
                    after.messages,
                ) by {
                    assert(s.in_flight[id].values.subset_of(s.messages));
                }
            }
        },
        PayloadView::GossipOk => {
            match message.in_reply_to {
                Some(id) => {
                    if s.in_flight.contains_key(id) {
                        lemma_confirm(
                            s.pending,
                            s.in_flight[id].neighbour,
                            s.in_flight[id].values,
                            s.messages,
                            s.node_id,
                        );
                        assert forall|other: usize| #[trigger]
                            after.in_flight.contains_key(other) implies other < after.next_msg_id
                            && after.in_flight[other].values.subset_of(after.messages) by {
                            assert(s.in_flight.contains_key(other));
                        }
                    }
                },
                None => {},
            }
        },
        _ => {},
    }
}

/// Buckets within a bound are within every larger bound.
pub proof fn lemma_grown_within(buckets: Seq<BucketView>, bound: Set<usize>, larger: Set<usize>)
    requires
        all_within(buckets, bound),
        bound.subset_of(larger),
    ensures
        all_within(buckets, larger),
{
    assert forall|i: int| 0 <= i < buckets.len() implies (#[trigger] buckets[i]).values.subset_of(
        larger,
    ) by {
        assert(buckets[i].values.subset_of(bound));
    }
}

} // verus!
