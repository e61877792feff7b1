//! Several nodes together: how a value spreads from node to node when every
//! tick's gossip is delivered and acknowledged.
//!
//! A network is a set of named nodes. In an exchange one node ticks, each
//! gossip message it sends is handed to the node it is addressed to, and each
//! acknowledgment is handed back. In a round every node has its exchange. A
//! step that a node has no message id left for does not happen: the functions
//! here then return `None`.
use crate::broadcast::{
    after_message, after_tick, gossip_actions, gossip_message, lemma_after_payload_wf, replies,
    relay_targets, NodeState, PayloadView,
};
use crate::message::{ActionView, MessageView};
use crate::pending::{
    bucket_of, due, has_values, is_bucket_of, lemma_confirm, lemma_enqueue, lemma_position_found,
    BucketView,
};
use vstd::prelude::*;

verus! {

/// The nodes of a network, by name.
pub type Network = Map<Seq<char>, NodeState>;

/// Every node goes by its own name and is in a state it can reach.
pub open spec fn sound(net: Network) -> bool {
    forall|n: Seq<char>| #[trigger] net.contains_key(n) ==> net[n].node_id == n && net[n].wf()
}

/// The node `n` knows the value `v`.
pub open spec fn knows(net: Network, n: Seq<char>, v: usize) -> bool {
    net.contains_key(n) && net[n].messages.contains(v)
}

/// The node `z` owes the value `v` to `y`.
pub open spec fn owes(net: Network, z: Seq<char>, y: Seq<char>, v: usize) -> bool {
    net.contains_key(z) && bucket_of(net[z].pending, y).contains(v)
}

/// `y` knows `v`, or some node owes it to `y`.
pub open spec fn served(net: Network, y: Seq<char>, v: usize) -> bool {
    knows(net, y, v) || exists|z: Seq<char>| owes(net, z, y, v)
}

/// `y` is a node of the network and the neighbour `i` of the node `a`.
pub open spec fn is_neighbour(net: Network, a: Seq<char>, i: int, y: Seq<char>) -> bool {
    &&& net.contains_key(a)
    &&& net.contains_key(y)
    &&& 0 <= i < net[a].neighbours.len()
    &&& net[a].neighbours[i] == y
}

/// Wherever a node knows `v`, each of its neighbours knows `v` too or is owed
/// it by some node.
pub open spec fn covered(net: Network, v: usize) -> bool {
    forall|a: Seq<char>, i: int, y: Seq<char>|
        #[trigger] is_neighbour(net, a, i, y) && knows(net, a, v) ==> served(net, y, v)
}

/// The network after `message` was handed to the node it is addressed to. A
/// message to a name that no node has is lost.
pub open spec fn receive(net: Network, message: MessageView<PayloadView>) -> Network {
    if net.contains_key(message.dst) {
        net.insert(message.dst, after_message(net[message.dst], message))
    } else {
        net
    }
}

/// Whether the node that `message` is addressed to has an id left to handle
/// it with.
pub open spec fn can_receive(net: Network, message: MessageView<PayloadView>) -> bool {
    net.contains_key(message.dst) ==> net[message.dst].next_msg_id < usize::MAX
}

/// What the node that `message` is addressed to sends in answer.
pub open spec fn answers(net: Network, message: MessageView<PayloadView>) -> Seq<
    ActionView<PayloadView>,
> {
    if net.contains_key(message.dst) {
        replies(net[message.dst], message)
    } else {
        Seq::empty()
    }
}

/// The network after `message` was delivered and its answer, if it got one,
/// was delivered in turn.
pub open spec fn round_trip(net: Network, message: MessageView<PayloadView>) -> Option<Network> {
    if !can_receive(net, message) {
        None
    } else if answers(net, message).len() == 0 {
        Some(receive(net, message))
    } else {
        let answer = answers(net, message)[0]->Send_0;
        if can_receive(receive(net, message), answer) {
            Some(receive(receive(net, message), answer))
        } else {
            None
        }
    }
}

/// The network after each of `actions`, in order, made its round trip.
pub open spec fn deliver_all(net: Network, actions: Seq<ActionView<PayloadView>>) -> Option<
    Network,
>
    decreases actions.len(),
{
    if actions.len() == 0 {
        Some(net)
    } else {
        match round_trip(net, actions[0]->Send_0) {
            Some(next) => deliver_all(next, actions.drop_first()),
            None => None,
        }
    }
}

/// The network after the node `x` ticked and all its gossip made its round
/// trip.
pub open spec fn exchange(net: Network, x: Seq<char>) -> Option<Network> {
    if !net.contains_key(x) {
        Some(net)
    } else if net[x].next_msg_id + due(net[x].pending).len() > usize::MAX {
        None
    } else {
        deliver_all(
            net.insert(x, after_tick(net[x])),
            gossip_actions(net[x], due(net[x].pending)),
        )
    }
}

/// The network after each node of `order`, in order, had its exchange.
pub open spec fn round(net: Network, order: Seq<Seq<char>>) -> Option<Network>
    decreases order.len(),
{
    if order.len() == 0 {
        Some(net)
    } else {
        match exchange(net, order[0]) {
            Some(next) => round(next, order.drop_first()),
            None => None,
        }
    }
}

/// The network after `count` rounds.
pub open spec fn rounds(net: Network, order: Seq<Seq<char>>, count: nat) -> Option<Network>
    decreases count,
{
    if count == 0 {
        Some(net)
    } else {
        match round(net, order) {
            Some(next) => rounds(next, order, (count - 1) as nat),
            None => None,
        }
    }
}

/// What a gossip message does to the node that handles it: the node then
/// knows the whole batch, keeps its neighbours and its batches in flight,
/// owes no neighbour less than before, and owes every new value to each
/// neighbour that is neither the sender nor served by the sender.
pub proof fn lemma_gossip_received(
    s: NodeState,
    gossip: MessageView<PayloadView>,
    u: Seq<char>,
    v: usize,
)
    requires
        s.wf(),
        gossip.payload is Gossip,
    ensures
        ({
            let t = after_message(s, gossip);
            let batch = gossip.payload->Gossip_messages;
            let served_by_sender = gossip.payload->Gossip_also_sent_to;
            &&& t.node_id == s.node_id
            &&& t.neighbours == s.neighbours
            &&& t.in_flight == s.in_flight
            &&& t.messages == s.messages.union(batch)
            &&& bucket_of(s.pending, u).subset_of(bucket_of(t.pending, u))
            &&& (batch.contains(v) && !s.messages.contains(v) && s.neighbours.contains(u) && u
                != gossip.src && !served_by_sender.contains(u)) ==> bucket_of(
                t.pending,
                u,
            ).contains(v)
        }),
{
    let t = after_message(s, gossip);
    let batch = gossip.payload->Gossip_messages;
    let served_by_sender = gossip.payload->Gossip_also_sent_to;
    let fresh = batch.difference(s.messages);
    let targets = relay_targets(s.neighbours, gossip.src, served_by_sender);
    assert(s.messages.union(fresh) =~= s.messages.union(batch));
    if fresh.is_empty() {
        assert(s.messages =~= s.messages.union(batch));
        if batch.contains(v) && !s.messages.contains(v) {
            assert(fresh.contains(v));
        }
    } else {
        lemma_enqueue(s.pending, targets, fresh, u);
        if batch.contains(v) && !s.messages.contains(v) && s.neighbours.contains(u) && u
            != gossip.src && !served_by_sender.contains(u) {
            let i = choose|i: int| 0 <= i < s.neighbours.len() && s.neighbours[i] == u;
            s.neighbours.lemma_filter_contains(
                |n: Seq<char>| n != gossip.src && !served_by_sender.contains(n),
                i,
            );
            assert(targets.contains(u));
            assert(fresh.contains(v));
        }
    }
}

/// What the acknowledgment of a batch in flight does to the node that
/// handles it: the node knows what it knew, keeps its neighbours, has that one
/// batch no longer in flight, and owes the batch's target what it owed it
/// less the batch, and every other neighbour what it owed it.
pub proof fn lemma_ack_received(s: NodeState, ack: MessageView<PayloadView>, u: Seq<char>)
    requires
        s.wf(),
        ack.payload is GossipOk,
        ack.in_reply_to is Some,
        s.in_flight.contains_key(ack.in_reply_to->Some_0),
    ensures
        ({
            let t = after_message(s, ack);
            let batch = s.in_flight[ack.in_reply_to->Some_0];
            &&& t.node_id == s.node_id
            &&& t.neighbours == s.neighbours
            &&& t.messages == s.messages
            &&& t.in_flight == s.in_flight.remove(ack.in_reply_to->Some_0)
            &&& bucket_of(t.pending, batch.neighbour) == bucket_of(
                s.pending,
                batch.neighbour,
            ).difference(batch.values)
            &&& u != batch.neighbour ==> bucket_of(t.pending, u) == bucket_of(s.pending, u)
        }),
{
    let batch = s.in_flight[ack.in_reply_to->Some_0];
    lemma_confirm(s.pending, batch.neighbour, batch.values, s.messages, u);
}

/// What a tick does to the node: it knows and owes what it did and keeps
/// its neighbours; message `k` of the tick goes to the neighbour of the due
/// bucket `k`, carries all that this neighbour is owed under the id `k` after
/// the node's next, and is recorded as in flight under that id.
pub proof fn lemma_ticked(s: NodeState, k: int)
    requires
        s.wf(),
        s.next_msg_id + due(s.pending).len() <= usize::MAX,
        0 <= k < due(s.pending).len(),
    ensures
        ({
            let t = after_tick(s);
            let batch = due(s.pending)[k];
            let id = (s.next_msg_id + k) as usize;
            &&& t.wf()
            &&& t.node_id == s.node_id
            &&& t.neighbours == s.neighbours
            &&& t.messages == s.messages
            &&& t.pending == s.pending
            &&& gossip_actions(s, due(s.pending))[k] == ActionView::Send(
                gossip_message(s, batch, id),
            )
            &&& t.in_flight.contains_key(id)
            &&& t.in_flight[id] == batch
            &&& batch.values == bucket_of(s.pending, batch.neighbour)
            &&& batch.values.subset_of(s.messages)
        }),
{
    let batch = due(s.pending)[k];
    crate::broadcast::lemma_next_state_wf(
        s,
        crate::message::MessageEvent::Internal(crate::broadcast::InternalMessage::Gossip),
    );
    assert(due(s.pending).contains(batch));
    s.pending.lemma_filter_contains_rev(|b: BucketView| has_values(b), batch);
    let i = choose|i: int| 0 <= i < s.pending.len() && s.pending[i] == batch;
    assert(is_bucket_of(s.pending, batch.neighbour, i));
    lemma_position_found(s.pending, batch.neighbour, i);
    assert(s.pending[i].values.subset_of(s.messages));
}

/// From `before` to `after` no node came or went or changed its neighbours,
/// no node forgot `v`, and whoever was owed `v` is still owed it or knows it.
pub open spec fn extends(before: Network, after: Network, v: usize) -> bool {
    &&& forall|n: Seq<char>| before.contains_key(n) <==> #[trigger] after.contains_key(n)
    &&& forall|n: Seq<char>| #[trigger]
        before.contains_key(n) ==> after[n].neighbours == before[n].neighbours
    &&& forall|n: Seq<char>| #[trigger] knows(before, n, v) ==> knows(after, n, v)
    &&& forall|z: Seq<char>, y: Seq<char>| #[trigger]
        owes(before, z, y, v) ==> owes(after, z, y, v) || knows(after, y, v)
}

/// Extension carries over: who was served before is served after.
pub proof fn lemma_served_kept(before: Network, after: Network, v: usize, y: Seq<char>)
    requires
        extends(before, after, v),
        served(before, y, v),
    ensures
        served(after, y, v),
{
    if !knows(before, y, v) {
        let z = choose|z: Seq<char>| owes(before, z, y, v);
        assert(owes(before, z, y, v));
    }
}

/// Extension composes.
pub proof fn lemma_extends_twice(first: Network, second: Network, third: Network, v: usize)
    requires
        extends(first, second, v),
        extends(second, third, v),
    ensures
        extends(first, third, v),
{
    assert forall|n: Seq<char>| first.contains_key(n) <==> #[trigger] third.contains_key(n) by {
        assert(first.contains_key(n) <==> second.contains_key(n));
    }
    assert forall|n: Seq<char>| #[trigger] first.contains_key(n) implies third[n].neighbours
        == first[n].neighbours by {
        assert(second.contains_key(n));
    }
    assert forall|n: Seq<char>| #[trigger] knows(first, n, v) implies knows(third, n, v) by {
        assert(knows(second, n, v));
    }
    assert forall|z: Seq<char>, y: Seq<char>| #[trigger] owes(first, z, y, v) implies owes(
        third,
        z,
        y,
        v,
    ) || knows(third, y, v) by {
        if owes(second, z, y, v) {
        } else {
            assert(knows(second, y, v));
        }
    }
}

/// A network stays covered when it is extended and every neighbour of a node
/// that has newly learnt `v` is served.
pub proof fn lemma_covered_kept(before: Network, after: Network, v: usize)
    requires
        covered(before, v),
        extends(before, after, v),
        forall|a: Seq<char>, i: int, y: Seq<char>|
            #[trigger] is_neighbour(after, a, i, y) && knows(after, a, v) && !knows(before, a, v)
                ==> served(after, y, v),
    ensures
        covered(after, v),
{
    assert forall|a: Seq<char>, i: int, y: Seq<char>| #[trigger]
        is_neighbour(after, a, i, y) && knows(after, a, v) implies served(after, y, v) by {
        if knows(before, a, v) {
            assert(before.contains_key(a));
            assert(after.contains_key(y));
            assert(before.contains_key(y));
            assert(is_neighbour(before, a, i, y));
            lemma_served_kept(before, after, v, y);
        }
    }
}

/// The gossip message `gossip` is one that the node `x` has sent and not yet
/// seen acknowledged: it names `x` as its sender and `x`'s neighbours as
/// served, and `x` has its batch in flight under its id.
pub open spec fn awaits_answer(
    net: Network,
    x: Seq<char>,
    gossip: MessageView<PayloadView>,
) -> bool {
    &&& net.contains_key(x)
    &&& gossip.src == x
    &&& gossip.payload is Gossip
    &&& gossip.payload->Gossip_also_sent_to == net[x].neighbours
    &&& gossip.id is Some
    &&& net[x].in_flight.contains_key(gossip.id->Some_0)
    &&& net[x].in_flight[gossip.id->Some_0] == (BucketView {
        neighbour: gossip.dst,
        values: gossip.payload->Gossip_messages,
    })
}

/// One gossip message's round trip keeps a sound, covered network sound and
/// covered. The node it went to knows the batch afterwards; the sender has
/// that one batch no longer in flight; no other node owes less than before.
pub proof fn lemma_round_trip(
    net: Network,
    x: Seq<char>,
    gossip: MessageView<PayloadView>,
    v: usize,
)
    requires
        sound(net),
        covered(net, v),
        awaits_answer(net, x, gossip),
        round_trip(net, gossip) is Some,
    ensures
        ({
            let fin = round_trip(net, gossip)->Some_0;
            &&& sound(fin)
            &&& covered(fin, v)
            &&& extends(net, fin, v)
            &&& net.contains_key(gossip.dst) && gossip.payload->Gossip_messages.contains(v)
                ==> knows(fin, gossip.dst, v)
            &&& forall|id: usize|
                id != gossip.id->Some_0 && #[trigger] net[x].in_flight.contains_key(id) ==> {
                    &&& fin[x].in_flight.contains_key(id)
                    &&& fin[x].in_flight[id] == net[x].in_flight[id]
                }
            &&& forall|z: Seq<char>, u: Seq<char>|
                z != x && #[trigger] owes(net, z, u, v) ==> owes(fin, z, u, v)
        }),
{
    let fin = round_trip(net, gossip)->Some_0;
    let y = gossip.dst;
    let m = gossip.id->Some_0;
    let batch = gossip.payload->Gossip_messages;
    if net.contains_key(y) {
        assert(net.contains_key(x));
        let sy = net[y];
        let ty = after_message(sy, gossip);
        lemma_after_payload_wf(sy, gossip);
        lemma_gossip_received(sy, gossip, x, v);
        let heard = net.insert(y, ty);
        assert(heard == receive(net, gossip));
        let ack = answers(net, gossip)[0]->Send_0;
        assert(ack.dst == x);
        assert(ack.in_reply_to == Some(m));
        assert(ack.payload is GossipOk);
        let hx = heard[x];
        assert(hx.in_flight == net[x].in_flight);
        assert(hx.neighbours == net[x].neighbours);
        assert(hx.wf());
        let tx = after_message(hx, ack);
        lemma_after_payload_wf(hx, ack);
        lemma_ack_received(hx, ack, x);
        assert(fin == heard.insert(x, tx));
        assert(batch.subset_of(net[x].messages));
        assert(ty.messages.contains(v) <== batch.contains(v));
        assert(fin[y].messages.contains(v) <== batch.contains(v));

        assert forall|z: Seq<char>, u: Seq<char>| #[trigger] owes(net, z, u, v) implies owes(
            fin,
            z,
            u,
            v,
        ) || knows(fin, u, v) by {
            lemma_gossip_received(sy, gossip, u, v);
            lemma_ack_received(hx, ack, u);
        }
        assert forall|z: Seq<char>, u: Seq<char>|
            z != x && #[trigger] owes(net, z, u, v) implies owes(fin, z, u, v) by {
            lemma_gossip_received(sy, gossip, u, v);
        }
        assert(extends(net, fin, v));
        assert forall|a: Seq<char>, i: int, u: Seq<char>| #[trigger]
            is_neighbour(fin, a, i, u) && knows(fin, a, v) && !knows(net, a, v) implies served(
            fin,
            u,
            v,
        ) by {
            assert(a == y);
            assert(batch.contains(v));
            assert(!sy.messages.contains(v));
            assert(knows(net, x, v));
            if u == x {
                assert(knows(fin, x, v));
            } else if gossip.payload->Gossip_also_sent_to.contains(u) {
                let j = choose|j: int|
                    0 <= j < net[x].neighbours.len() && net[x].neighbours[j] == u;
                assert(is_neighbour(net, x, j, u));
                assert(served(net, u, v));
                lemma_served_kept(net, fin, v, u);
            } else {
                lemma_gossip_received(sy, gossip, u, v);
                assert(sy.neighbours[i] == u);
                assert(sy.neighbours.contains(u));
                assert(bucket_of(ty.pending, u).contains(v));
                lemma_ack_received(hx, ack, u);
                assert(owes(fin, y, u, v));
            }
        }
        lemma_covered_kept(net, fin, v);
    } else {
        assert(fin == net);
        assert(extends(net, fin, v));
    }
}

/// A network extends itself.
pub proof fn lemma_extends_itself(net: Network, v: usize)
    ensures
        extends(net, net, v),
{
}

/// The round trips of gossip that one node has sent keep a sound, covered
/// network sound and covered. Every node that a batch with `v` went to knows
/// `v` afterwards, and no other node owes less than before.
pub proof fn lemma_deliver_all(
    net: Network,
    x: Seq<char>,
    actions: Seq<ActionView<PayloadView>>,
    v: usize,
)
    requires
        sound(net),
        covered(net, v),
        net.contains_key(x),
        forall|j: int|
            0 <= j < actions.len() ==> (#[trigger] actions[j]) is Send && awaits_answer(
                net,
                x,
                actions[j]->Send_0,
            ),
        forall|i: int, j: int|
            0 <= i < j < actions.len() ==> (#[trigger] actions[i])->Send_0.id != (
            #[trigger] actions[j])->Send_0.id,
        deliver_all(net, actions) is Some,
    ensures
        ({
            let fin = deliver_all(net, actions)->Some_0;
            &&& sound(fin)
            &&& covered(fin, v)
            &&& extends(net, fin, v)
            &&& forall|j: int|
                0 <= j < actions.len() && net.contains_key((#[trigger] actions[j])->Send_0.dst)
                    && actions[j]->Send_0.payload->Gossip_messages.contains(v) ==> knows(
                    fin,
                    actions[j]->Send_0.dst,
                    v,
                )
            &&& forall|z: Seq<char>, u: Seq<char>|
                z != x && #[trigger] owes(net, z, u, v) ==> owes(fin, z, u, v)
        }),
    decreases actions.len(),
{
    let fin = deliver_all(net, actions)->Some_0;
    if actions.len() == 0 {
        lemma_extends_itself(net, v);
    } else {
        let first = actions[0]->Send_0;
        let rest = actions.drop_first();
        assert(actions[0] is Send && awaits_answer(net, x, first));
        lemma_round_trip(net, x, first, v);
        let mid = round_trip(net, first)->Some_0;
        assert(mid.contains_key(x));
        assert forall|j: int| 0 <= j < rest.len() implies (#[trigger] rest[j]) is Send
            && awaits_answer(mid, x, rest[j]->Send_0) by {
            assert(rest[j] == actions[j + 1]);
            assert(actions[j + 1] is Send && awaits_answer(net, x, actions[j + 1]->Send_0));
            assert(actions[0]->Send_0.id != actions[j + 1]->Send_0.id);
            assert(net[x].in_flight.contains_key(actions[j + 1]->Send_0.id->Some_0));
        }
        assert forall|i: int, j: int| 0 <= i < j < rest.len() implies (
        #[trigger] rest[i])->Send_0.id != (#[trigger] rest[j])->Send_0.id by {
            assert(rest[i] == actions[i + 1]);
            assert(rest[j] == actions[j + 1]);
        }
        lemma_deliver_all(mid, x, rest, v);
        lemma_extends_twice(net, mid, fin, v);
        assert forall|j: int|
            0 <= j < actions.len() && net.contains_key((#[trigger] actions[j])->Send_0.dst)
                && actions[j]->Send_0.payload->Gossip_messages.contains(v) implies knows(
            fin,
            actions[j]->Send_0.dst,
            v,
        ) by {
            if j == 0 {
                assert(knows(mid, first.dst, v));
            } else {
                assert(rest[j - 1] == actions[j]);
                assert(mid.contains_key(rest[j - 1]->Send_0.dst));
            }
        }
        assert forall|z: Seq<char>, u: Seq<char>|
            z != x && #[trigger] owes(net, z, u, v) implies owes(fin, z, u, v) by {
            assert(owes(mid, z, u, v));
        }
    }
}

/// One node's exchange keeps a sound, covered network sound and covered.
/// Every node that it owed `v` knows `v` afterwards, and no other node owes
/// less than before.
pub proof fn lemma_exchange(net: Network, x: Seq<char>, v: usize)
    requires
        sound(net),
        covered(net, v),
        exchange(net, x) is Some,
    ensures
        ({
            let fin = exchange(net, x)->Some_0;
            &&& sound(fin)
            &&& covered(fin, v)
            &&& extends(net, fin, v)
            &&& forall|y: Seq<char>|
                net.contains_key(y) && #[trigger] owes(net, x, y, v) ==> knows(fin, y, v)
            &&& forall|z: Seq<char>, u: Seq<char>|
                z != x && #[trigger] owes(net, z, u, v) ==> owes(fin, z, u, v)
        }),
{
    let fin = exchange(net, x)->Some_0;
    if !net.contains_key(x) {
        lemma_extends_itself(net, v);
    } else {
        let s = net[x];
        let batches = due(s.pending);
        let actions = gossip_actions(s, batches);
        let ticked = net.insert(x, after_tick(s));
        crate::broadcast::lemma_next_state_wf(
            s,
            crate::message::MessageEvent::Internal(crate::broadcast::InternalMessage::Gossip),
        );
        assert(sound(ticked));
        assert(extends(net, ticked, v));
        lemma_covered_kept(net, ticked, v);
        assert forall|j: int| 0 <= j < actions.len() implies (#[trigger] actions[j]) is Send
            && awaits_answer(ticked, x, actions[j]->Send_0) by {
            lemma_ticked(s, j);
        }
        assert forall|i: int, j: int| 0 <= i < j < actions.len() implies (
        #[trigger] actions[i])->Send_0.id != (#[trigger] actions[j])->Send_0.id by {
            lemma_ticked(s, i);
            lemma_ticked(s, j);
        }
        lemma_deliver_all(ticked, x, actions, v);
        lemma_extends_twice(net, ticked, fin, v);
        assert forall|y: Seq<char>|
            net.contains_key(y) && #[trigger] owes(net, x, y, v) implies knows(fin, y, v) by {
            let i = crate::pending::position(s.pending, y)->Some_0;
            assert(is_bucket_of(s.pending, y, i));
            assert(has_values(s.pending[i]));
            s.pending.lemma_filter_contains(|b: BucketView| has_values(b), i);
            let k = choose|k: int| 0 <= k < batches.len() && batches[k] == s.pending[i];
            lemma_ticked(s, k);
            assert(actions[k]->Send_0.dst == y);
            assert(ticked.contains_key(actions[k]->Send_0.dst));
        }
        assert forall|z: Seq<char>, u: Seq<char>|
            z != x && #[trigger] owes(net, z, u, v) implies owes(fin, z, u, v) by {
            assert(owes(ticked, z, u, v));
        }
    }
}

/// A round keeps a sound, covered network sound and covered, and every node
/// that a node of the round's order owed `v` knows `v` afterwards.
pub proof fn lemma_round(net: Network, order: Seq<Seq<char>>, v: usize)
    requires
        sound(net),
        covered(net, v),
        round(net, order) is Some,
    ensures
        ({
            let fin = round(net, order)->Some_0;
            &&& sound(fin)
            &&& covered(fin, v)
            &&& extends(net, fin, v)
            &&& forall|z: Seq<char>, y: Seq<char>|
                order.contains(z) && net.contains_key(y) && #[trigger] owes(net, z, y, v)
                    ==> knows(fin, y, v)
        }),
    decreases order.len(),
{
    let fin = round(net, order)->Some_0;
    if order.len() == 0 {
        lemma_extends_itself(net, v);
    } else {
        let first = order[0];
        let rest = order.drop_first();
        lemma_exchange(net, first, v);
        let mid = exchange(net, first)->Some_0;
        lemma_round(mid, rest, v);
        lemma_extends_twice(net, mid, fin, v);
        assert forall|z: Seq<char>, y: Seq<char>|
            order.contains(z) && net.contains_key(y) && #[trigger] owes(net, z, y, v) implies knows(
            fin,
            y,
            v,
        ) by {
            if z == first {
                assert(knows(mid, y, v));
            } else {
                let k = choose|k: int| 0 <= k < order.len() && order[k] == z;
                assert(rest[k - 1] == z);
                assert(rest.contains(z));
                assert(owes(mid, z, y, v));
                assert(mid.contains_key(y));
            }
        }
    }
}

/// The rounds in the order `order` give every node of the network its
/// exchange.
pub open spec fn reaches_every_node(net: Network, order: Seq<Seq<char>>) -> bool {
    forall|n: Seq<char>| #[trigger] net.contains_key(n) ==> order.contains(n)
}

/// `path` leads through the network from neighbour to neighbour: it is not
/// empty, its nodes are nodes of the network, and each has the next among
/// its neighbours.
pub open spec fn is_path(net: Network, path: Seq<Seq<char>>) -> bool {
    &&& path.len() >= 1
    &&& net.contains_key(path[0])
    &&& forall|i: int|
        0 <= i < path.len() - 1 ==> {
            &&& net.contains_key(#[trigger] path[i + 1])
            &&& net[path[i]].neighbours.contains(path[i + 1])
        }
}

/// A value travels one hop per round. In a sound, covered network whose
/// rounds reach every node, take a path along which each node has the next
/// as a neighbour. If the path's first node knows `v`, then after as many
/// rounds as the path has hops, with no node out of ids, its last node knows
/// `v`.
pub proof fn law_value_travels_along_path(
    net: Network,
    order: Seq<Seq<char>>,
    path: Seq<Seq<char>>,
    v: usize,
)
    requires
        sound(net),
        covered(net, v),
        reaches_every_node(net, order),
        is_path(net, path),
        knows(net, path[0], v),
        rounds(net, order, (path.len() - 1) as nat) is Some,
    ensures
        knows(rounds(net, order, (path.len() - 1) as nat)->Some_0, path.last(), v),
        sound(rounds(net, order, (path.len() - 1) as nat)->Some_0),
        covered(rounds(net, order, (path.len() - 1) as nat)->Some_0, v),
    decreases path.len(),
{
    if path.len() > 1 {
        let mid = round(net, order)->Some_0;
        let onward = path.drop_first();
        lemma_round(net, order, v);
        let next = path[1];
        assert(net.contains_key(path[0int + 1]) && net[path[0int]].neighbours.contains(
            path[0int + 1],
        ));
        let i = choose|i: int| 0 <= i < net[path[0]].neighbours.len() && net[path[0]].neighbours[i]
            == next;
        assert(is_neighbour(net, path[0], i, next));
        assert(served(net, next, v));
        if !knows(net, next, v) {
            let z = choose|z: Seq<char>| owes(net, z, next, v);
            assert(net.contains_key(z));
            assert(order.contains(z));
            assert(owes(net, z, next, v));
        }
        assert(knows(mid, next, v));
        assert forall|n: Seq<char>| #[trigger] mid.contains_key(n) implies order.contains(n) by {
            assert(net.contains_key(n));
        }
        assert(mid.contains_key(onward[0]));
        assert forall|k: int| 0 <= k < onward.len() - 1 implies mid.contains_key(
            #[trigger] onward[k + 1],
        ) && mid[onward[k]].neighbours.contains(onward[k + 1]) by {
            assert(onward[k + 1] == path[(k + 1) + 1]);
            assert(onward[k] == path[k + 1]);
            assert(net.contains_key(path[(k + 1) + 1]) && net[path[k + 1]].neighbours.contains(
                path[(k + 1) + 1],
            ));
            assert(net.contains_key(path[k + 1])) by {
                assert(net.contains_key(path[k + 1]));
            }
        }
        law_value_travels_along_path(mid, order, onward, v);
        assert(onward.last() == path.last());
    }
}

/// A network in which no node knows `v` is covered.
pub proof fn law_unknown_value_is_covered(net: Network, v: usize)
    requires
        forall|n: Seq<char>| !knows(net, n, v),
    ensures
        covered(net, v),
{
}

/// A client's broadcast keeps a sound, covered network sound and covered,
/// and the node it was sent to knows the value afterwards.
pub proof fn lemma_broadcast_received(
    net: Network,
    request: MessageView<PayloadView>,
    v: usize,
)
    requires
        sound(net),
        covered(net, v),
        request.payload is Broadcast,
        can_receive(net, request),
    ensures
        sound(receive(net, request)),
        covered(receive(net, request), v),
        extends(net, receive(net, request), v),
        net.contains_key(request.dst) ==> knows(
            receive(net, request),
            request.dst,
            request.payload->Broadcast_message,
        ),
{
    let fin = receive(net, request);
    let a = request.dst;
    let value = request.payload->Broadcast_message;
    if net.contains_key(a) {
        let s = net[a];
        let t = after_message(s, request);
        lemma_after_payload_wf(s, request);
        assert forall|z: Seq<char>, u: Seq<char>| #[trigger] owes(net, z, u, v) implies owes(
            fin,
            z,
            u,
            v,
        ) || knows(fin, u, v) by {
            if !s.messages.contains(value) {
                lemma_enqueue(s.pending, s.neighbours, set![value], u);
            }
        }
        assert(extends(net, fin, v));
        assert forall|b: Seq<char>, i: int, u: Seq<char>| #[trigger]
            is_neighbour(fin, b, i, u) && knows(fin, b, v) && !knows(net, b, v) implies served(
            fin,
            u,
            v,
        ) by {
            assert(b == a);
            assert(value == v);
            lemma_enqueue(s.pending, s.neighbours, set![value], u);
            assert(s.neighbours[i] == u);
            assert(s.neighbours.contains(u));
            assert(owes(fin, a, u, v));
        }
        lemma_covered_kept(net, fin, v);
    } else {
        lemma_extends_itself(net, v);
    }
}

/// A broadcast value reaches every node that a path of neighbours leads to.
/// In a sound, covered network whose rounds reach every node, let a client
/// broadcast `v` to the first node of a path along which each node has the
/// next as a neighbour. After as many rounds as the path has hops, with no
/// node out of ids, the path's last node knows `v`.
pub proof fn law_broadcast_reaches_every_node(
    net: Network,
    order: Seq<Seq<char>>,
    path: Seq<Seq<char>>,
    request: MessageView<PayloadView>,
    v: usize,
)
    requires
        sound(net),
        covered(net, v),
        reaches_every_node(net, order),
        is_path(net, path),
        request.dst == path[0],
        request.payload == (PayloadView::Broadcast { message: v }),
        can_receive(net, request),
        rounds(receive(net, request), order, (path.len() - 1) as nat) is Some,
    ensures
        knows(
            rounds(receive(net, request), order, (path.len() - 1) as nat)->Some_0,
            path.last(),
            v,
        ),
{
    let told = receive(net, request);
    lemma_broadcast_received(net, request, v);
    assert forall|n: Seq<char>| #[trigger] told.contains_key(n) implies order.contains(n) by {
        assert(net.contains_key(n));
    }
    assert forall|i: int| 0 <= i < path.len() - 1 implies told.contains_key(
        #[trigger] path[i + 1],
    ) && told[path[i]].neighbours.contains(path[i + 1]) by {
        assert(net.contains_key(path[i + 1]) && net[path[i]].neighbours.contains(path[i + 1]));
        if i > 0 {
            assert(net.contains_key(path[(i - 1) + 1]));
        }
        assert(net.contains_key(path[i]));
    }
    law_value_travels_along_path(told, order, path, v);
}

} // verus!
