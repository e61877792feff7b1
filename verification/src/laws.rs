//! What holds of a broadcast node whatever it is sent.
use crate::broadcast::{
    actions_for, after_message, after_tick, gossip_actions, gossip_message, has_ids,
    lemma_after_payload_wf, next_state, replies, BroadcastPayload, InternalMessage, NodeState,
    PayloadView,
};
use crate::message::{ActionView, MessageEvent, MessageView};
use crate::pending::{bucket_of, due, has_values, is_bucket_of, lemma_confirm, BucketView};
use vstd::prelude::*;

verus! {

/// A node never forgets a value: whatever message it handles, it knows
/// afterwards every value it knew before.
pub proof fn law_values_are_kept(s: NodeState, message: MessageView<PayloadView>)
    requires
        s.wf(),
    ensures
        s.messages.subset_of(after_message(s, message).messages),
{
    lemma_after_payload_wf(s, message);
}

/// Broadcasting a value that the node already knows changes nothing but the
/// id counter: the node knows the same values and owes the same values.
pub proof fn law_known_broadcast_changes_nothing(
    s: NodeState,
    message: MessageView<PayloadView>,
    value: usize,
)
    requires
        message.payload == (PayloadView::Broadcast { message: value }),
        s.messages.contains(value),
    ensures
        after_message(s, message).messages == s.messages,
        after_message(s, message).pending == s.pending,
        after_message(s, message).in_flight == s.in_flight,
        after_message(s, message).neighbours == s.neighbours,
{
}

/// A value broadcast to a node twice is read back as one member of the set
/// that a read returns: the second broadcast leaves the known values as the
/// first made them, and the read that follows answers with exactly the values
/// known before, and the value.
pub proof fn law_broadcast_twice_read_once(
    s: NodeState,
    first: MessageView<PayloadView>,
    second: MessageView<PayloadView>,
    read: MessageView<PayloadView>,
    value: usize,
)
    requires
        first.payload == (PayloadView::Broadcast { message: value }),
        second.payload == (PayloadView::Broadcast { message: value }),
        read.payload == PayloadView::Read,
    ensures
        ({
            let once = after_message(s, first);
            let twice = after_message(once, second);
            &&& once.messages == s.messages.insert(value)
            &&& twice.messages == once.messages
            &&& twice.pending == once.pending
            &&& replies(twice, read) == seq![
                ActionView::Send(
                    MessageView {
                        src: read.dst,
                        dst: read.src,
                        id: Some(twice.next_msg_id),
                        in_reply_to: read.id,
                        payload: PayloadView::ReadOk { messages: s.messages.insert(value) },
                    },
                ),
            ]
        }),
{
    let once = after_message(s, first);
    assert(once.messages =~= s.messages.insert(value));
}

/// Every answer is tied to its request: whatever a node sends for a message
/// from the network replies to that message's id, goes back to its sender in
/// the name of its addressee, and carries the node's next id.
pub proof fn law_replies_name_their_request(
    s: NodeState,
    request: MessageView<PayloadView>,
    i: int,
)
    requires
        0 <= i < replies(s, request).len(),
    ensures
        replies(s, request).len() == 1,
        replies(s, request)[i] is Send,
        replies(s, request)[i]->Send_0.in_reply_to == request.id,
        replies(s, request)[i]->Send_0.src == request.dst,
        replies(s, request)[i]->Send_0.dst == request.src,
        replies(s, request)[i]->Send_0.id == Some(s.next_msg_id),
{
}

/// Ids are given out once and in rising order: every message that a node
/// sends for an event carries an id, none below the node's next id and all
/// below the next id after the event, and of two messages the later has the
/// higher id.
pub proof fn law_ids_rise(
    s: NodeState,
    event: MessageEvent<BroadcastPayload, InternalMessage>,
    i: int,
    j: int,
)
    requires
        has_ids(s, event),
        0 <= i < j < actions_for(s, event).len(),
    ensures
        actions_for(s, event)[i] is Send,
        actions_for(s, event)[j] is Send,
        actions_for(s, event)[i]->Send_0.id is Some,
        actions_for(s, event)[j]->Send_0.id is Some,
        s.next_msg_id <= actions_for(s, event)[i]->Send_0.id->Some_0,
        actions_for(s, event)[i]->Send_0.id->Some_0 < actions_for(s, event)[j]->Send_0.id->Some_0,
        actions_for(s, event)[j]->Send_0.id->Some_0 < next_state(s, event).next_msg_id,
{
}

/// A message that a node sends alone for an event carries the node's next
/// id, and the node's next id after the event is higher.
pub proof fn law_single_id_is_fresh(
    s: NodeState,
    event: MessageEvent<BroadcastPayload, InternalMessage>,
)
    requires
        has_ids(s, event),
        actions_for(s, event).len() == 1,
        !(event is EOF),
    ensures
        actions_for(s, event)[0] is Send,
        actions_for(s, event)[0]->Send_0.id == Some(s.next_msg_id),
        s.next_msg_id < next_state(s, event).next_msg_id,
{
}

/// Once a batch is acknowledged, none of its values is owed to the neighbour
/// it went to: that neighbour's bucket keeps exactly what was queued besides
/// the batch, every other bucket is as it was, and the batch is no longer in
/// flight.
pub proof fn law_acknowledged_values_leave(
    s: NodeState,
    ack: MessageView<PayloadView>,
    id: usize,
    other: Seq<char>,
)
    requires
        s.wf(),
        ack.payload == PayloadView::GossipOk,
        ack.in_reply_to == Some(id),
        s.in_flight.contains_key(id),
    ensures
        ({
            let batch = s.in_flight[id];
            let after = after_message(s, ack);
            &&& bucket_of(after.pending, batch.neighbour) == bucket_of(
                s.pending,
                batch.neighbour,
            ).difference(batch.values)
            &&& forall|v: usize|
                batch.values.contains(v) ==> !bucket_of(after.pending, batch.neighbour).contains(v)
            &&& other != batch.neighbour ==> bucket_of(after.pending, other) == bucket_of(
                s.pending,
                other,
            )
            &&& !after.in_flight.contains_key(id)
            &&& after.messages == s.messages
        }),
{
    let batch = s.in_flight[id];
    lemma_confirm(s.pending, batch.neighbour, batch.values, s.messages, other);
}

/// An acknowledgment that names no batch in flight is no error and changes
/// nothing but the id counter.
pub proof fn law_stray_acknowledgment_changes_nothing(
    s: NodeState,
    ack: MessageView<PayloadView>,
)
    requires
        ack.payload == PayloadView::GossipOk,
        ack.in_reply_to is None || !s.in_flight.contains_key(ack.in_reply_to->Some_0),
    ensures
        after_message(s, ack) == (NodeState {
            next_msg_id: (s.next_msg_id + 1) as usize,
            ..s
        }),
        replies(s, ack) == Seq::<ActionView<PayloadView>>::empty(),
{
}

/// A node that owes nothing is quiet: when every bucket is empty, a tick
/// sends no message and leaves the node as it is.
pub proof fn law_tick_is_quiet_when_nothing_is_owed(s: NodeState)
    requires
        forall|i: int| 0 <= i < s.pending.len() ==> s.pending[i].values.is_empty(),
    ensures
        gossip_actions(s, due(s.pending)) == Seq::<ActionView<PayloadView>>::empty(),
        after_tick(s) == s,
{
    let batches = due(s.pending);
    if batches.len() > 0 {
        let first = batches[0];
        assert(batches.contains(first));
        s.pending.lemma_filter_contains_rev(|b: BucketView| has_values(b), first);
        let k = choose|k: int| 0 <= k < s.pending.len() && s.pending[k] == first;
        s.pending.lemma_filter_pred(|b: BucketView| has_values(b), 0);
        assert(has_values(first));
        assert(s.pending[k].values.is_empty());
    }
    assert(gossip_actions(s, batches) =~= Seq::<ActionView<PayloadView>>::empty());
    assert(after_tick(s).in_flight =~= s.in_flight);
}

/// A tick leaves no debt unsent: for every neighbour that is owed something,
/// the tick sends that neighbour one gossip message that carries all it is
/// owed, and records exactly that batch as in flight under the message's id.
pub proof fn law_tick_sends_what_is_owed(s: NodeState, neighbour: Seq<char>)
    requires
        s.wf(),
        s.next_msg_id + due(s.pending).len() <= usize::MAX,
        !bucket_of(s.pending, neighbour).is_empty(),
    ensures
        exists|k: int|
            {
                &&& 0 <= k < due(s.pending).len()
                &&& #[trigger] gossip_actions(s, due(s.pending))[k] == ActionView::Send(
                    gossip_message(
                        s,
                        BucketView { neighbour, values: bucket_of(s.pending, neighbour) },
                        (s.next_msg_id + k) as usize,
                    ),
                )
                &&& after_tick(s).in_flight.contains_key((s.next_msg_id + k) as usize)
                &&& after_tick(s).in_flight[(s.next_msg_id + k) as usize] == (BucketView {
                    neighbour,
                    values: bucket_of(s.pending, neighbour),
                })
            },
{
    let i = crate::pending::position(s.pending, neighbour)->Some_0;
    assert(is_bucket_of(s.pending, neighbour, i));
    let bucket = s.pending[i];
    assert(bucket == BucketView { neighbour, values: bucket_of(s.pending, neighbour) });
    assert(has_values(bucket));
    assert(s.pending.contains(bucket));
    s.pending.lemma_filter_contains(|b: BucketView| has_values(b), i);
    let batches = due(s.pending);
    assert(batches.contains(bucket));
    let k = choose|k: int| 0 <= k < batches.len() && batches[k] == bucket;
    assert(gossip_actions(s, batches)[k] == ActionView::Send(
        gossip_message(s, bucket, (s.next_msg_id + k) as usize),
    ));
}

} // verus!
