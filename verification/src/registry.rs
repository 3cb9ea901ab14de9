//! The pub/sub registry: which connection listens to which channel, and the
//! outbound mailbox of each connection.
//!
//! The registry keeps one relation between connections and channels, ordered
//! by connection id. The subscribers of a channel and the channels of a
//! connection are both read off that relation, so the two can never
//! disagree.

use std::collections::HashMap;
use vstd::prelude::*;
use tokio::sync::mpsc::UnboundedSender;
use crate::mailbox::try_send;
use crate::text::{byte_strings, bytes_eq, bytes_of, text};
use crate::values::{encoding, RedisValue, Value};

verus! {

broadcast use vstd::std_specs::hash::group_hash_axioms;

/// A subscription in memory: the connection and the channel it listens to.
pub type Subscription = (u32, Vec<u8>);

/// The content of a run of subscriptions.
pub open spec fn subscriptions_view(pairs: Seq<Subscription>) -> Seq<(u32, Seq<u8>)> {
    Seq::new(pairs.len(), |i: int| (pairs[i].0, pairs[i].1@))
}

/// The content of the registry: the subscriptions, ordered by connection
/// id, and the mailbox of each connection.
pub struct RegistryView {
    pub subscriptions: Seq<(u32, Seq<u8>)>,
    pub senders: Map<u32, UnboundedSender<Vec<u8>>>,
}

/// The connections that listen to `channel`, in the order of the
/// subscriptions.
pub open spec fn subscribers(subs: Seq<(u32, Seq<u8>)>, channel: Seq<u8>) -> Seq<u32>
    decreases subs.len(),
{
    if subs.len() == 0 {
        Seq::empty()
    } else {
        let front = subscribers(subs.drop_last(), channel);
        if subs.last().1 == channel {
            front.push(subs.last().0)
        } else {
            front
        }
    }
}

/// The channels that the connection `id` listens to, in the order of the
/// subscriptions.
pub open spec fn channels_of(subs: Seq<(u32, Seq<u8>)>, id: u32) -> Seq<Seq<u8>>
    decreases subs.len(),
{
    if subs.len() == 0 {
        Seq::empty()
    } else {
        let front = channels_of(subs.drop_last(), id);
        if subs.last().0 == id {
            front.push(subs.last().1)
        } else {
            front
        }
    }
}

/// The subscriptions of all connections but `id`.
pub open spec fn without_connection(subs: Seq<(u32, Seq<u8>)>, id: u32) -> Seq<(u32, Seq<u8>)>
    decreases subs.len(),
{
    if subs.len() == 0 {
        Seq::empty()
    } else {
        let front = without_connection(subs.drop_last(), id);
        if subs.last().0 == id {
            front
        } else {
            front.push(subs.last())
        }
    }
}

/// How many subscriptions belong to connections with an id up to `id`:
/// the place at which a new subscription of `id` is put.
pub open spec fn place_for(subs: Seq<(u32, Seq<u8>)>, id: u32) -> int
    decreases subs.len(),
{
    if subs.len() == 0 {
        0
    } else {
        place_for(subs.drop_last(), id) + if subs.last().0 <= id {
            1int
        } else {
            0int
        }
    }
}

/// The subscriptions with `(id, channel)` among them: unchanged where the
/// pair is there already, else with the pair behind the last subscription
/// of a connection with an id up to `id`.
pub open spec fn with_subscription(subs: Seq<(u32, Seq<u8>)>, id: u32, channel: Seq<u8>) -> Seq<
    (u32, Seq<u8>),
> {
    if subs.contains((id, channel)) {
        subs
    } else {
        subs.insert(place_for(subs, id), (id, channel))
    }
}

/// The subscriptions without `(id, channel)`.
pub open spec fn without_subscription(subs: Seq<(u32, Seq<u8>)>, id: u32, channel: Seq<u8>) -> Seq<
    (u32, Seq<u8>),
>
    decreases subs.len(),
{
    if subs.len() == 0 {
        Seq::empty()
    } else {
        let front = without_subscription(subs.drop_last(), id, channel);
        if subs.last() == (id, channel) {
            front
        } else {
            front.push(subs.last())
        }
    }
}

/// Whether the subscriptions are ordered by connection id and none occurs
/// twice.
pub open spec fn is_ordered(subs: Seq<(u32, Seq<u8>)>) -> bool {
    &&& forall|i: int, j: int| 0 <= i < j < subs.len() ==> subs[i].0 <= subs[j].0
    &&& forall|i: int, j: int| 0 <= i < j < subs.len() ==> subs[i] != subs[j]
}

/// The message that a subscriber receives for a publication.
pub open spec fn message_value(channel: Seq<u8>, message: Seq<u8>) -> Value {
    Value::Array(
        seq![
            Value::BulkString(text("message")),
            Value::BulkString(channel),
            Value::BulkString(message),
        ],
    )
}

/// A connection is among the subscribers of a channel exactly when the
/// pair is among the subscriptions.
pub proof fn lemma_subscribers_contains(subs: Seq<(u32, Seq<u8>)>, id: u32, channel: Seq<u8>)
    ensures
        subscribers(subs, channel).contains(id) <==> subs.contains((id, channel)),
    decreases subs.len(),
{
    if subs.len() > 0 {
        let front = subs.drop_last();
        lemma_subscribers_contains(front, id, channel);
        let found = subscribers(subs, channel);
        if subs.contains((id, channel)) {
            let i = choose|i: int| 0 <= i < subs.len() && subs[i] == (id, channel);
            if i == subs.len() - 1 {
                assert(found.last() == id);
            } else {
                assert(front[i] == (id, channel));
                let k = choose|k: int|
                    0 <= k < subscribers(front, channel).len() && subscribers(front, channel)[k]
                        == id;
                assert(found[k] == id);
            }
        }
        if found.contains(id) {
            let k = choose|k: int| 0 <= k < found.len() && found[k] == id;
            if k < subscribers(front, channel).len() {
                assert(subscribers(front, channel)[k] == id);
                let i = choose|i: int| 0 <= i < front.len() && front[i] == (id, channel);
                assert(subs[i] == (id, channel));
            } else {
                assert(subs[subs.len() - 1] == (id, channel));
            }
        }
    }
}

/// A channel is among the channels of a connection exactly when the pair
/// is among the subscriptions.
pub proof fn lemma_channels_of_contains(subs: Seq<(u32, Seq<u8>)>, id: u32, channel: Seq<u8>)
    ensures
        channels_of(subs, id).contains(channel) <==> subs.contains((id, channel)),
    decreases subs.len(),
{
    if subs.len() > 0 {
        let front = subs.drop_last();
        lemma_channels_of_contains(front, id, channel);
        let found = channels_of(subs, id);
        if subs.contains((id, channel)) {
            let i = choose|i: int| 0 <= i < subs.len() && subs[i] == (id, channel);
            if i == subs.len() - 1 {
                assert(found.last() == channel);
            } else {
                assert(front[i] == (id, channel));
                let k = choose|k: int|
                    0 <= k < channels_of(front, id).len() && channels_of(front, id)[k] == channel;
                assert(found[k] == channel);
            }
        }
        if found.contains(channel) {
            let k = choose|k: int| 0 <= k < found.len() && found[k] == channel;
            if k < channels_of(front, id).len() {
                assert(channels_of(front, id)[k] == channel);
                let i = choose|i: int| 0 <= i < front.len() && front[i] == (id, channel);
                assert(subs[i] == (id, channel));
            } else {
                assert(subs[subs.len() - 1] == (id, channel));
            }
        }
    }
}

/// The registry is symmetric: a connection is a subscriber of a channel
/// exactly when the channel is one of the connection's channels.
pub proof fn registry_is_symmetric(subs: Seq<(u32, Seq<u8>)>, id: u32, channel: Seq<u8>)
    ensures
        subscribers(subs, channel).contains(id) <==> channels_of(subs, id).contains(channel),
{
    lemma_subscribers_contains(subs, id, channel);
    lemma_channels_of_contains(subs, id, channel);
}

/// A front part of ordered subscriptions is ordered.
proof fn lemma_front_ordered(subs: Seq<(u32, Seq<u8>)>)
    requires
        is_ordered(subs),
        subs.len() > 0,
    ensures
        is_ordered(subs.drop_last()),
{
    let front = subs.drop_last();
    assert forall|i: int, j: int| 0 <= i < j < front.len() implies front[i].0 <= front[j].0
        && front[i] != front[j] by {
        assert(subs[i].0 <= subs[j].0);
        assert(subs[i] != subs[j]);
    }
}

/// In ordered subscriptions, the place for `id` parts those of connections
/// up to `id` from those of later connections.
proof fn lemma_place_for(subs: Seq<(u32, Seq<u8>)>, id: u32)
    requires
        is_ordered(subs),
    ensures
        0 <= place_for(subs, id) <= subs.len(),
        forall|i: int| 0 <= i < place_for(subs, id) ==> (#[trigger] subs[i]).0 <= id,
        forall|i: int| place_for(subs, id) <= i < subs.len() ==> (#[trigger] subs[i]).0 > id,
    decreases subs.len(),
{
    if subs.len() > 0 {
        let front = subs.drop_last();
        lemma_front_ordered(subs);
        lemma_place_for(front, id);
        let p = place_for(front, id);
        if subs.last().0 <= id {
            assert forall|i: int| 0 <= i < subs.len() implies (#[trigger] subs[i]).0 <= id by {
                assert(subs[i].0 <= subs[subs.len() - 1].0 || i == subs.len() - 1);
            }
            if p < front.len() {
                assert(front[p].0 > id);
                assert(subs[p].0 <= subs[subs.len() - 1].0);
            }
        } else {
            assert forall|i: int| 0 <= i < p implies (#[trigger] subs[i]).0 <= id by {
                assert(front[i].0 <= id);
            }
            assert forall|i: int| p <= i < subs.len() implies (#[trigger] subs[i]).0 > id by {
                if i < front.len() {
                    assert(front[i].0 > id);
                }
            }
        }
    }
}

/// A new subscription put at its place leaves the subscriptions ordered.
proof fn lemma_with_subscription_ordered(subs: Seq<(u32, Seq<u8>)>, id: u32, channel: Seq<u8>)
    requires
        is_ordered(subs),
    ensures
        is_ordered(with_subscription(subs, id, channel)),
{
    if !subs.contains((id, channel)) {
        lemma_place_for(subs, id);
        let p = place_for(subs, id);
        let more = subs.insert(p, (id, channel));
        assert forall|i: int, j: int| 0 <= i < j < more.len() implies more[i].0 <= more[j].0
            && more[i] != more[j] by {
            let a = if i < p {
                i
            } else {
                i - 1
            };
            let b = if j < p {
                j
            } else {
                j - 1
            };
            if i == p {
                assert(subs[b].0 > id);
            } else if j == p {
                assert(subs[a].0 <= id);
                assert(subs[a] != (id, channel));
            } else {
                assert(subs[a].0 <= subs[b].0);
                assert(subs[a] != subs[b]);
            }
        }
    }
}

/// How many channels a connection has after a subscription.
proof fn lemma_channels_of_insert(subs: Seq<(u32, Seq<u8>)>, p: int, pair: (u32, Seq<u8>), id: u32)
    requires
        0 <= p <= subs.len(),
    ensures
        channels_of(subs.insert(p, pair), id).len() == channels_of(subs, id).len() + if pair.0
            == id {
            1int
        } else {
            0int
        },
    decreases subs.len(),
{
    let more = subs.insert(p, pair);
    if p == subs.len() {
        assert(more.drop_last() =~= subs);
        assert(more.last() == pair);
    } else {
        lemma_channels_of_insert(subs.drop_last(), p, pair, id);
        assert(more.drop_last() =~= subs.drop_last().insert(p, pair));
        assert(more.last() == subs.last());
    }
}

/// Taking a subscription out leaves the subscriptions ordered, and takes
/// one channel from a connection that had the subscription.
proof fn lemma_without_subscription(subs: Seq<(u32, Seq<u8>)>, id: u32, channel: Seq<u8>)
    requires
        is_ordered(subs),
    ensures
        is_ordered(without_subscription(subs, id, channel)),
        !without_subscription(subs, id, channel).contains((id, channel)),
        forall|pair: (u32, Seq<u8>)|
            pair != (id, channel) ==> (without_subscription(subs, id, channel).contains(pair)
                <==> subs.contains(pair)),
        channels_of(without_subscription(subs, id, channel), id).len() == channels_of(subs, id).len()
            - if subs.contains((id, channel)) {
            1int
        } else {
            0int
        },
        without_subscription(subs, id, channel).len() <= subs.len(),
        forall|k: int|
            0 <= k < without_subscription(subs, id, channel).len() ==> exists|i: int|
                k <= i < subs.len() && subs[i] == #[trigger] without_subscription(
                    subs,
                    id,
                    channel,
                )[k],
    decreases subs.len(),
{
    let less = without_subscription(subs, id, channel);
    if subs.len() > 0 {
        let front = subs.drop_last();
        lemma_front_ordered(subs);
        lemma_without_subscription(front, id, channel);
        let front_less = without_subscription(front, id, channel);
        assert forall|k: int| 0 <= k < less.len() implies exists|i: int|
            k <= i < subs.len() && subs[i] == #[trigger] less[k] by {
            if k < front_less.len() {
                let i = choose|i: int| k <= i < front.len() && front[i] == front_less[k];
                assert(subs[i] == less[k]);
            } else {
                assert(subs[subs.len() - 1] == less[k]);
            }
        }
        assert forall|i: int, j: int| 0 <= i < j < less.len() implies less[i].0 <= less[j].0
            && less[i] != less[j] by {
            let a = choose|a: int| i <= a < subs.len() && subs[a] == less[i];
            if j < front_less.len() {
                assert(front_less[i].0 <= front_less[j].0);
            } else {
                assert(less[j] == subs.last());
                let a2 = choose|a2: int| i <= a2 < front.len() && front[a2] == front_less[i];
                assert(subs[a2].0 <= subs[subs.len() - 1].0);
                assert(subs[a2] != subs[subs.len() - 1]);
            }
        }
        assert forall|pair: (u32, Seq<u8>)| pair != (id, channel) implies (less.contains(pair)
            <==> subs.contains(pair)) by {
            if less.contains(pair) {
                let k = choose|k: int| 0 <= k < less.len() && less[k] == pair;
                let i = choose|i: int| k <= i < subs.len() && subs[i] == less[k];
                assert(subs[i] == pair);
            }
            if subs.contains(pair) {
                let i = choose|i: int| 0 <= i < subs.len() && subs[i] == pair;
                if i < front.len() {
                    assert(front[i] == pair);
                    assert(front.contains(pair));
                    let k = choose|k: int| 0 <= k < front_less.len() && front_less[k] == pair;
                    assert(less[k] == pair);
                } else {
                    assert(less[less.len() - 1] == pair);
                }
            }
        }
        if less.contains((id, channel)) {
            let k = choose|k: int| 0 <= k < less.len() && less[k] == (id, channel);
            if k < front_less.len() {
                assert(front_less[k] == (id, channel));
            }
        }
        if subs.last() == (id, channel) {
            if front.contains((id, channel)) {
                let i = choose|i: int| 0 <= i < front.len() && front[i] == (id, channel);
                assert(subs[i] != subs[subs.len() - 1]);
            }
            assert(subs[subs.len() - 1] == (id, channel));
        } else {
            assert(less.drop_last() =~= front_less);
            assert(less.last() == subs.last());
            if subs.contains((id, channel)) {
                let i = choose|i: int| 0 <= i < subs.len() && subs[i] == (id, channel);
                assert(front[i] == (id, channel));
            }
            if front.contains((id, channel)) {
                let i = choose|i: int| 0 <= i < front.len() && front[i] == (id, channel);
                assert(subs[i] == (id, channel));
            }
        }
    }
}

/// Taking all subscriptions of a connection out leaves the subscriptions
/// ordered.
proof fn lemma_without_connection(subs: Seq<(u32, Seq<u8>)>, id: u32)
    requires
        is_ordered(subs),
    ensures
        is_ordered(without_connection(subs, id)),
        without_connection(subs, id).len() <= subs.len(),
        forall|k: int|
            0 <= k < without_connection(subs, id).len() ==> exists|i: int|
                k <= i < subs.len() && subs[i] == #[trigger] without_connection(subs, id)[k],
    decreases subs.len(),
{
    let less = without_connection(subs, id);
    if subs.len() > 0 {
        let front = subs.drop_last();
        lemma_front_ordered(subs);
        lemma_without_connection(front, id);
        let front_less = without_connection(front, id);
        assert forall|k: int| 0 <= k < less.len() implies exists|i: int|
            k <= i < subs.len() && subs[i] == #[trigger] less[k] by {
            if k < front_less.len() {
                let i = choose|i: int| k <= i < front.len() && front[i] == front_less[k];
                assert(subs[i] == less[k]);
            } else {
                assert(subs[subs.len() - 1] == less[k]);
            }
        }
        assert forall|i: int, j: int| 0 <= i < j < less.len() implies less[i].0 <= less[j].0
            && less[i] != less[j] by {
            if j < front_less.len() {
                assert(front_less[i].0 <= front_less[j].0);
            } else {
                let a2 = choose|a2: int| i <= a2 < front.len() && front[a2] == front_less[i];
                assert(subs[a2].0 <= subs[subs.len() - 1].0);
                assert(subs[a2] != subs[subs.len() - 1]);
            }
        }
    }
}

/// The subscribers of a channel, read off ordered subscriptions, come in
/// strictly growing order of their ids.
pub proof fn lemma_subscribers_grow(subs: Seq<(u32, Seq<u8>)>, channel: Seq<u8>)
    requires
        is_ordered(subs),
    ensures
        forall|a: int, b: int|
            0 <= a < b < subscribers(subs, channel).len() ==> subscribers(subs, channel)[a]
                < subscribers(subs, channel)[b],
        subscribers(subs, channel).len() <= subs.len(),
        forall|k: int|
            0 <= k < subscribers(subs, channel).len() ==> exists|i: int|
                k <= i < subs.len() && subs[i] == (#[trigger] subscribers(subs, channel)[k], channel),
    decreases subs.len(),
{
    let found = subscribers(subs, channel);
    if subs.len() > 0 {
        let front = subs.drop_last();
        lemma_front_ordered(subs);
        lemma_subscribers_grow(front, channel);
        let front_found = subscribers(front, channel);
        assert forall|k: int| 0 <= k < found.len() implies exists|i: int|
            k <= i < subs.len() && subs[i] == (#[trigger] found[k], channel) by {
            if k < front_found.len() {
                let i = choose|i: int| k <= i < front.len() && front[i] == (front_found[k], channel);
                assert(subs[i] == (found[k], channel));
            } else {
                assert(subs[subs.len() - 1] == (found[k], channel));
            }
        }
        assert forall|a: int, b: int| 0 <= a < b < found.len() implies found[a] < found[b] by {
            if b < front_found.len() {
                assert(front_found[a] < front_found[b]);
            } else {
                let i = choose|i: int| a <= i < front.len() && front[i] == (front_found[a], channel);
                assert(subs[i].0 <= subs[subs.len() - 1].0);
                assert(subs[i] != subs[subs.len() - 1]);
            }
        }
    }
}

/// The pub/sub registry.
pub struct Registry {
    pairs: Vec<Subscription>,
    senders: HashMap<u32, UnboundedSender<Vec<u8>>>,
}

impl View for Registry {
    type V = RegistryView;

    closed spec fn view(&self) -> RegistryView {
        RegistryView { subscriptions: subscriptions_view(self.pairs@), senders: self.senders@ }
    }
}

impl Registry {
    #[verifier::type_invariant]
    spec fn ordered(self) -> bool {
        is_ordered(subscriptions_view(self.pairs@))
    }

    /// A registry without subscriptions and without mailboxes.
    pub fn new() -> (registry: Self)
        ensures
            registry@.subscriptions == Seq::<(u32, Seq<u8>)>::empty(),
            registry@.senders == Map::<u32, UnboundedSender<Vec<u8>>>::empty(),
    {
        let registry = Registry { pairs: Vec::new(), senders: HashMap::new() };
        assert(subscriptions_view(registry.pairs@) =~= Seq::<(u32, Seq<u8>)>::empty());
        registry
    }

    /// The subscriptions of every registry are ordered by connection id,
    /// and none occurs twice.
    pub fn subscriptions_are_ordered(&self)
        ensures
            is_ordered(self@.subscriptions),
    {
        proof {
            use_type_invariant(self);
        }
    }

    /// Records the outbound mailbox of the connection `id`, in place of one
    /// recorded before.
    pub fn register(&mut self, id: u32, sender: UnboundedSender<Vec<u8>>)
        ensures
            final(self)@.subscriptions == old(self)@.subscriptions,
            final(self)@.senders == old(self)@.senders.insert(id, sender),
    {
        proof {
            use_type_invariant(&*self);
        }
        let mut senders: HashMap<u32, UnboundedSender<Vec<u8>>> = HashMap::new();
        core::mem::swap(&mut self.senders, &mut senders);
        senders.insert(id, sender);
        core::mem::swap(&mut self.senders, &mut senders);
    }

    /// Forgets the connection `id`: its mailbox and all of its
    /// subscriptions.
    pub fn unregister(&mut self, id: u32)
        ensures
            final(self)@.subscriptions == without_connection(old(self)@.subscriptions, id),
            final(self)@.senders == old(self)@.senders.remove(id),
    {
        proof {
            use_type_invariant(&*self);
        }
        let mut senders: HashMap<u32, UnboundedSender<Vec<u8>>> = HashMap::new();
        core::mem::swap(&mut self.senders, &mut senders);
        senders.remove(&id);
        core::mem::swap(&mut self.senders, &mut senders);
        let ghost before = subscriptions_view(self.pairs@);
        let mut pairs: Vec<Subscription> = Vec::new();
        core::mem::swap(&mut self.pairs, &mut pairs);
        let mut kept: Vec<Subscription> = Vec::new();
        let mut i: usize = 0;
        assert(before.take(0) =~= Seq::<(u32, Seq<u8>)>::empty());
        assert(subscriptions_view(kept@) =~= Seq::<(u32, Seq<u8>)>::empty());
        while i < pairs.len()
            invariant
                i <= pairs.len(),
                before == subscriptions_view(pairs@),
                subscriptions_view(kept@) == without_connection(before.take(i as int), id),
            decreases pairs.len() - i,
        {
            let ghost so_far = subscriptions_view(kept@);
            proof {
                assert(before.take(i + 1).drop_last() =~= before.take(i as int));
                assert(before.take(i + 1).last() == before[i as int]);
            }
            if pairs[i].0 != id {
                kept.push((pairs[i].0, pairs[i].1.clone()));
                assert(subscriptions_view(kept@) =~= so_far.push(before[i as int]));
            }
            i += 1;
        }
        proof {
            assert(before.take(i as int) =~= before);
            lemma_without_connection(before, id);
        }
        core::mem::swap(&mut self.pairs, &mut kept);
    }

    /// The mailbox of the connection `id`, if one is recorded.
    pub fn sender(&self, id: u32) -> (res: Option<&UnboundedSender<Vec<u8>>>)
        ensures
            match res {
                Some(sender) => self@.senders.contains_key(id) && *sender == self@.senders[id],
                None => !self@.senders.contains_key(id),
            },
    {
        self.senders.get(&id)
    }

    /// Whether the connection `id` listens to `channel`, and the place at
    /// which a new subscription of `id` belongs.
    fn locate(&self, id: u32, channel: &[u8]) -> (res: (bool, usize))
        ensures
            res.0 == self@.subscriptions.contains((id, channel@)),
            res.1 == place_for(self@.subscriptions, id),
            res.1 <= self.pairs@.len(),
    {
        let ghost subs = subscriptions_view(self.pairs@);
        let mut found: bool = false;
        let mut place: usize = 0;
        let mut i: usize = 0;
        assert(subs.take(0) =~= Seq::<(u32, Seq<u8>)>::empty());
        while i < self.pairs.len()
            invariant
                i <= self.pairs.len(),
                subs == subscriptions_view(self.pairs@),
                place == place_for(subs.take(i as int), id),
                place <= i,
                found == subs.take(i as int).contains((id, channel@)),
            decreases self.pairs.len() - i,
        {
            proof {
                let shorter = subs.take(i as int);
                let longer = subs.take(i + 1);
                assert(longer.drop_last() =~= shorter);
                assert(longer.last() == subs[i as int]);
                if shorter.contains((id, channel@)) {
                    let k = choose|k: int| 0 <= k < shorter.len() && shorter[k] == (id, channel@);
                    assert(longer[k] == (id, channel@));
                }
                if longer.contains((id, channel@)) && subs[i as int] != (id, channel@) {
                    let k = choose|k: int| 0 <= k < longer.len() && longer[k] == (id, channel@);
                    assert(shorter[k] == (id, channel@));
                }
                if subs[i as int] == (id, channel@) {
                    assert(longer[i as int] == (id, channel@));
                }
            }
            if self.pairs[i].0 == id && bytes_eq(self.pairs[i].1.as_slice(), channel) {
                found = true;
            }
            if self.pairs[i].0 <= id {
                place += 1;
            }
            i += 1;
        }
        assert(subs.take(i as int) =~= subs);
        (found, place)
    }

    /// How many channels the connection `id` listens to.
    pub fn subscription_count(&self, id: u32) -> (count: usize)
        ensures
            count == channels_of(self@.subscriptions, id).len(),
    {
        let ghost subs = subscriptions_view(self.pairs@);
        let mut count: usize = 0;
        let mut i: usize = 0;
        assert(subs.take(0) =~= Seq::<(u32, Seq<u8>)>::empty());
        while i < self.pairs.len()
            invariant
                i <= self.pairs.len(),
                subs == subscriptions_view(self.pairs@),
                count == channels_of(subs.take(i as int), id).len(),
                count <= i,
            decreases self.pairs.len() - i,
        {
            proof {
                assert(subs.take(i + 1).drop_last() =~= subs.take(i as int));
                assert(subs.take(i + 1).last() == subs[i as int]);
            }
            if self.pairs[i].0 == id {
                count += 1;
            }
            i += 1;
        }
        assert(subs.take(i as int) =~= subs);
        count
    }

    /// The channels that the connection `id` listens to, in the order in
    /// which it subscribed to them.
    pub fn channels(&self, id: u32) -> (found: Vec<Vec<u8>>)
        ensures
            byte_strings(found@) == channels_of(self@.subscriptions, id),
    {
        let ghost subs = subscriptions_view(self.pairs@);
        let mut found: Vec<Vec<u8>> = Vec::new();
        let mut i: usize = 0;
        assert(subs.take(0) =~= Seq::<(u32, Seq<u8>)>::empty());
        assert(byte_strings(found@) =~= Seq::<Seq<u8>>::empty());
        while i < self.pairs.len()
            invariant
                i <= self.pairs.len(),
                subs == subscriptions_view(self.pairs@),
                byte_strings(found@) == channels_of(subs.take(i as int), id),
            decreases self.pairs.len() - i,
        {
            let ghost so_far = byte_strings(found@);
            proof {
                assert(subs.take(i + 1).drop_last() =~= subs.take(i as int));
                assert(subs.take(i + 1).last() == subs[i as int]);
            }
            if self.pairs[i].0 == id {
                found.push(self.pairs[i].1.clone());
                assert(byte_strings(found@) =~= so_far.push(subs[i as int].1));
            }
            i += 1;
        }
        assert(subs.take(i as int) =~= subs);
        found
    }

    /// The connections that listen to `channel`, in growing order of their
    /// ids.
    pub fn subscribers(&self, channel: &[u8]) -> (found: Vec<u32>)
        ensures
            found@ == subscribers(self@.subscriptions, channel@),
            forall|a: int, b: int| 0 <= a < b < found@.len() ==> found@[a] < found@[b],
    {
        let ghost subs = subscriptions_view(self.pairs@);
        let mut found: Vec<u32> = Vec::new();
        let mut i: usize = 0;
        assert(subs.take(0) =~= Seq::<(u32, Seq<u8>)>::empty());
        while i < self.pairs.len()
            invariant
                i <= self.pairs.len(),
                subs == subscriptions_view(self.pairs@),
                found@ == subscribers(subs.take(i as int), channel@),
            decreases self.pairs.len() - i,
        {
            proof {
                assert(subs.take(i + 1).drop_last() =~= subs.take(i as int));
                assert(subs.take(i + 1).last() == subs[i as int]);
            }
            if bytes_eq(self.pairs[i].1.as_slice(), channel) {
                found.push(self.pairs[i].0);
            }
            i += 1;
        }
        proof {
            assert(subs.take(i as int) =~= subs);
            use_type_invariant(self);
            lemma_subscribers_grow(subs, channel@);
        }
        found
    }

    /// Makes the connection `id` listen to `channel`, and says to how
    /// many channels it then listens.
    pub fn subscribe(&mut self, id: u32, channel: Vec<u8>) -> (count: usize)
        ensures
            final(self)@.senders == old(self)@.senders,
            final(self)@.subscriptions == with_subscription(
                old(self)@.subscriptions,
                id,
                channel@,
            ),
            count == channels_of(final(self)@.subscriptions, id).len(),
            count >= 1,
    {
        proof {
            use_type_invariant(&*self);
        }
        let ghost before = subscriptions_view(self.pairs@);
        let (found, place) = self.locate(id, channel.as_slice());
        if !found {
            proof {
                lemma_with_subscription_ordered(before, id, channel@);
            }
            let mut pairs: Vec<Subscription> = Vec::new();
            core::mem::swap(&mut self.pairs, &mut pairs);
            pairs.insert(place, (id, channel));
            assert(subscriptions_view(pairs@) =~= before.insert(place as int, (id, channel@)));
            core::mem::swap(&mut self.pairs, &mut pairs);
        }
        proof {
            let after = with_subscription(before, id, channel@);
            if found {
                lemma_channels_of_contains(before, id, channel@);
                let k = choose|k: int|
                    0 <= k < channels_of(before, id).len() && channels_of(before, id)[k]
                        == channel@;
            } else {
                lemma_channels_of_insert(before, place as int, (id, channel@), id);
            }
        }
        self.subscription_count(id)
    }

    /// Makes the connection `id` stop listening to `channel`, and says to
    /// how many channels it still listens.
    pub fn unsubscribe(&mut self, id: u32, channel: &[u8]) -> (remaining: usize)
        ensures
            final(self)@.senders == old(self)@.senders,
            final(self)@.subscriptions == without_subscription(
                old(self)@.subscriptions,
                id,
                channel@,
            ),
            remaining == channels_of(final(self)@.subscriptions, id).len(),
    {
        proof {
            use_type_invariant(&*self);
        }
        let ghost before = subscriptions_view(self.pairs@);
        let mut pairs: Vec<Subscription> = Vec::new();
        core::mem::swap(&mut self.pairs, &mut pairs);
        let mut kept: Vec<Subscription> = Vec::new();
        let mut i: usize = 0;
        assert(before.take(0) =~= Seq::<(u32, Seq<u8>)>::empty());
        assert(subscriptions_view(kept@) =~= Seq::<(u32, Seq<u8>)>::empty());
        while i < pairs.len()
            invariant
                i <= pairs.len(),
                before == subscriptions_view(pairs@),
                subscriptions_view(kept@) == without_subscription(
                    before.take(i as int),
                    id,
                    channel@,
                ),
            decreases pairs.len() - i,
        {
            let ghost so_far = subscriptions_view(kept@);
            proof {
                assert(before.take(i + 1).drop_last() =~= before.take(i as int));
                assert(before.take(i + 1).last() == before[i as int]);
            }
            if !(pairs[i].0 == id && bytes_eq(pairs[i].1.as_slice(), channel)) {
                kept.push((pairs[i].0, pairs[i].1.clone()));
                assert(subscriptions_view(kept@) =~= so_far.push(before[i as int]));
            }
            i += 1;
        }
        proof {
            assert(before.take(i as int) =~= before);
            lemma_without_subscription(before, id, channel@);
        }
        core::mem::swap(&mut self.pairs, &mut kept);
        self.subscription_count(id)
    }

    /// The frame that a subscriber receives for a publication.
    pub fn message_frame(channel: &[u8], message: &[u8]) -> (frame: Vec<u8>)
        ensures
            frame@ == encoding(message_value(channel@, message@)),
    {
        let mut parts: Vec<RedisValue> = Vec::new();
        parts.push(RedisValue::BulkString(bytes_of("message")));
        parts.push(RedisValue::BulkString(vstd::slice::slice_to_vec(channel)));
        parts.push(RedisValue::BulkString(vstd::slice::slice_to_vec(message)));
        let value = RedisValue::Array(parts);
        proof {
            crate::values::lemma_values_of(parts@);
            assert(value@->Array_0 =~= message_value(channel@, message@)->Array_0);
        }
        value.encode()
    }

    /// Publishes `message` on `channel`: the message frame is put into the
    /// mailbox of each subscriber, in growing order of their ids, and the
    /// number of subscribers is returned. A subscriber without a mailbox,
    /// or whose mailbox is closed, is passed over.
    pub fn publish(&self, channel: &[u8], message: &[u8]) -> (count: usize)
        ensures
            count == subscribers(self@.subscriptions, channel@).len(),
    {
        let targets = self.subscribers(channel);
        let frame = Registry::message_frame(channel, message);
        let mut i: usize = 0;
        while i < targets.len()
            invariant
                i <= targets.len(),
            decreases targets.len() - i,
        {
            match self.sender(targets[i]) {
                Some(sender) => {
                    let _ = try_send(sender, frame.clone());
                },
                None => {},
            }
            i += 1;
        }
        targets.len()
    }
}

} // verus!
