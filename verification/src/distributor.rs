//! The distributor: the shared pub/sub core every connection talks to,
//! and the per-connection handle around it.
//!
//! The core owns the topic table, a bounded queue of outbound messages and
//! the publish-lock bitset. A connection takes a publish permission with
//! [`InnerDistributor::try_lock`] before it processes an inbound packet,
//! publishes at most once under it, and releases it with
//! [`InnerDistributor::unlock_for_publishing`]. The admission rule keeps
//! the queue from ever running full: the queue length plus the number of
//! granted-but-unused permissions never exceeds the queue capacity.

use vstd::prelude::*;

use crate::bitset::BitSet;
use crate::codec::PacketWriter;
use crate::config::MAX_CONNECTIONS;
use crate::config::MAX_MESSAGE_SIZE;
use crate::config::MAX_WILL_LENGTH;
use crate::config::QUEUE_LEN;
use crate::errors::DistributorError;
use crate::packets::PublishData;
use crate::packets::SpecPacket;
use crate::packets::SpecPublish;
use crate::topics_list::spec_matches;
use crate::topics_list::TopicsList;

verus! {

/// A pre-serialized PUBLISH frame, ready to go out on the wire.
#[derive(Debug, Clone, Copy)]
pub struct Message {
    buf: PacketWriter<MAX_MESSAGE_SIZE>,
}

impl View for Message {
    type V = Seq<u8>;

    /// The serialized bytes.
    closed spec fn view(&self) -> Seq<u8> {
        self.buf@
    }
}

impl Message {
    pub closed spec fn wf(&self) -> bool {
        self.buf.wf()
    }

    /// The serialized packet.
    pub fn message(&self) -> (r: &[u8])
        requires
            self.wf(),
        ensures
            r@ == self@,
    {
        self.buf.get_written_data()
    }

    /// Wraps serialized bytes that fit the message buffer.
    pub fn from_bytes(bytes: &[u8]) -> (r: Self)
        requires
            bytes@.len() <= MAX_MESSAGE_SIZE,
        ensures
            r.wf(),
            r@ == bytes@,
    {
        let mut buf: PacketWriter<MAX_MESSAGE_SIZE> = PacketWriter::new();
        buf.write_slice(bytes);
        Message { buf }
    }
}

/// One queued message together with the subscribers still owed it.
#[derive(Debug, Clone, Copy)]
pub struct MessageInQueue {
    message: Message,
    subscribers: BitSet,
}

impl MessageInQueue {
    /// The serialized message bytes.
    pub closed spec fn spec_message(&self) -> Seq<u8> {
        self.message@
    }

    /// Which subscriber ids still have to consume the message.
    pub closed spec fn spec_subscribers(&self) -> Seq<bool> {
        self.subscribers@
    }

    pub closed spec fn wf(&self) -> bool {
        self.message.wf() && self.subscribers@.len() == MAX_CONNECTIONS
    }
}

#[verifier::external_type_specification]
#[verifier::external_body]
#[verifier::reject_recursive_types(T)]
pub struct ExDeque<T, const N: usize>(heapless::Deque<T, N>);

/// What the queue holds, front to back.
pub uninterp spec fn queue_seq(q: &heapless::Deque<MessageInQueue, QUEUE_LEN>) -> Seq<
    MessageInQueue,
>;

/// Relies on `heapless::Deque::new`: a new deque is empty.
#[verifier::external_body]
fn queue_new() -> (r: heapless::Deque<MessageInQueue, QUEUE_LEN>)
    ensures
        queue_seq(&r) == Seq::<MessageInQueue>::empty(),
{
    heapless::Deque::new()
}

/// Relies on `heapless::Deque::push_back`: appends at the back, handing
/// the item back exactly when the deque is full.
#[verifier::external_body]
fn queue_push_back(q: &mut heapless::Deque<MessageInQueue, QUEUE_LEN>, m: MessageInQueue) -> (r:
    Result<(), MessageInQueue>)
    ensures
        match r {
            Ok(_) => queue_seq(final(q)) == queue_seq(old(q)).push(m) && queue_seq(old(q)).len()
                < QUEUE_LEN,
            Err(back) => queue_seq(final(q)) == queue_seq(old(q)) && back == m && queue_seq(
                old(q),
            ).len() >= QUEUE_LEN,
        },
{
    q.push_back(m)
}

/// Relies on `heapless::Deque::push_front`: prepends at the front, handing
/// the item back exactly when the deque is full.
#[verifier::external_body]
fn queue_push_front(q: &mut heapless::Deque<MessageInQueue, QUEUE_LEN>, m: MessageInQueue) -> (r:
    Result<(), MessageInQueue>)
    ensures
        match r {
            Ok(_) => queue_seq(final(q)) == seq![m] + queue_seq(old(q)) && queue_seq(
                old(q),
            ).len() < QUEUE_LEN,
            Err(back) => queue_seq(final(q)) == queue_seq(old(q)) && back == m && queue_seq(
                old(q),
            ).len() >= QUEUE_LEN,
        },
{
    q.push_front(m)
}

/// Relies on `heapless::Deque::pop_back`: removes and returns the back
/// element, or `None` when the deque is empty.
#[verifier::external_body]
fn queue_pop_back(q: &mut heapless::Deque<MessageInQueue, QUEUE_LEN>) -> (r: Option<
    MessageInQueue,
>)
    ensures
        match r {
            Some(m) => queue_seq(old(q)).len() > 0 && m == queue_seq(old(q)).last() && queue_seq(
                final(q),
            ) == queue_seq(old(q)).drop_last(),
            None => queue_seq(old(q)).len() == 0 && queue_seq(final(q)) == queue_seq(old(q)),
        },
{
    q.pop_back()
}

/// Relies on `heapless::Deque::len`: the number of elements held.
#[verifier::external_body]
fn queue_len(q: &heapless::Deque<MessageInQueue, QUEUE_LEN>) -> (r: usize)
    ensures
        r == queue_seq(q).len(),
{
    q.len()
}

/// The ids granted publish permission that have not enqueued yet.
pub open spec fn pend_seq(lock: Seq<bool>, fired: Seq<bool>) -> Seq<bool> {
    Seq::new(MAX_CONNECTIONS as nat, |i: int| lock[i] && !fired[i])
}

/// How many granted permissions are still unused.
pub open spec fn pending_count(lock: Seq<bool>, fired: Seq<bool>) -> int {
    BitSet::ones(pend_seq(lock, fired), MAX_CONNECTIONS as int)
}

/// Updating one entry moves the count of set entries by at most one, in
/// the expected direction.
pub proof fn lemma_ones_update(s: Seq<bool>, i: int, v: bool, n: int)
    requires
        0 <= i < s.len(),
        n <= s.len(),
    ensures
        BitSet::ones(s.update(i, v), n) == BitSet::ones(s, n) + if i < n {
            (if v { 1int } else { 0int }) - (if s[i] { 1int } else { 0int })
        } else {
            0int
        },
    decreases n,
{
    if n > 0 {
        lemma_ones_update(s, i, v, n - 1);
    }
}

/// A pointwise-smaller sequence has no more set entries.
pub proof fn lemma_ones_le(a: Seq<bool>, b: Seq<bool>, n: int)
    requires
        n <= a.len(),
        n <= b.len(),
        forall|i: int| 0 <= i < n && a[i] ==> b[i],
    ensures
        BitSet::ones(a, n) <= BitSet::ones(b, n),
    decreases n,
{
    if n > 0 {
        lemma_ones_le(a, b, n - 1);
    }
}

/// A sequence with a set entry counts at least one.
pub proof fn lemma_ones_pos(s: Seq<bool>, i: int, n: int)
    requires
        0 <= i < n <= s.len(),
        s[i],
    ensures
        BitSet::ones(s, n) >= 1,
    decreases n,
{
    lemma_ones_nonneg(s, n - 1);
    if i < n - 1 {
        lemma_ones_pos(s, i, n - 1);
    }
}

/// The count of set entries is never negative.
pub proof fn lemma_ones_nonneg(s: Seq<bool>, n: int)
    ensures
        BitSet::ones(s, n) >= 0,
    decreases n,
{
    if n > 0 {
        lemma_ones_nonneg(s, n - 1);
    }
}

/// Pointwise equal sequences count the same.
pub proof fn lemma_ones_same(a: Seq<bool>, b: Seq<bool>, n: int)
    requires
        forall|i: int| 0 <= i < n ==> a[i] == b[i],
    ensures
        BitSet::ones(a, n) == BitSet::ones(b, n),
    decreases n,
{
    if n > 0 {
        lemma_ones_same(a, b, n - 1);
    }
}

/// Whether some filter of `topics` owned by `id` covers `topic`.
pub open spec fn spec_subscribed(
    topics: Set<(Seq<u8>, int)>,
    topic: Seq<u8>,
    id: int,
) -> bool {
    exists|f: Seq<u8>| topics.contains((f, id)) && spec_matches(f, topic)
}

/// A queued message, abstractly: its bytes and its subscriber bits.
pub open spec fn queue_views(q: Seq<MessageInQueue>) -> Seq<(Seq<u8>, Seq<bool>)> {
    q.map_values(|m: MessageInQueue| (m.spec_message(), m.spec_subscribers()))
}

/// Clearing bit `id` in every entry and dropping the entries that lose
/// their last subscriber, order kept.
pub open spec fn clear_and_filter(q: Seq<(Seq<u8>, Seq<bool>)>, id: int) -> Seq<
    (Seq<u8>, Seq<bool>),
>
    decreases q.len(),
{
    if q.len() == 0 {
        seq![]
    } else {
        let head = (q[0].0, q[0].1.update(id, false));
        let rest = clear_and_filter(q.drop_first(), id);
        if BitSet::all_clear(head.1) {
            rest
        } else {
            seq![head] + rest
        }
    }
}

/// The shared core: topic table, outbound queue and publish-lock state.
pub struct InnerDistributor {
    queue: heapless::Deque<MessageInQueue, QUEUE_LEN>,
    tree: TopicsList,
    lock: BitSet,
    fired: Ghost<Seq<bool>>,
}

impl InnerDistributor {
    /// The queued messages, front to back.
    pub closed spec fn spec_queue(&self) -> Seq<MessageInQueue> {
        queue_seq(&self.queue)
    }

    /// The topic table.
    pub closed spec fn spec_tree(&self) -> TopicsList {
        self.tree
    }

    /// The subscription pairs.
    pub open spec fn topics(&self) -> Set<(Seq<u8>, int)> {
        self.spec_tree()@
    }

    /// Which ids hold publish permission.
    pub closed spec fn lock_view(&self) -> Seq<bool> {
        self.lock@
    }

    /// Which permission holders have already enqueued their message.
    pub closed spec fn fired_view(&self) -> Seq<bool> {
        self.fired@
    }

    /// `id` holds an unused publish permission.
    pub open spec fn has_slot(&self, id: int) -> bool {
        self.lock_view()[id] && !self.fired_view()[id]
    }

    /// The distributor invariant. It carries the two laws of the core:
    /// the queue length plus the unused publish permissions never exceeds
    /// the queue capacity, and every queued message still has a
    /// subscriber.
    pub open spec fn wf(&self) -> bool {
        &&& self.lock_view().len() == MAX_CONNECTIONS
        &&& self.fired_view().len() == MAX_CONNECTIONS
        &&& self.spec_tree().wf()
        &&& self.spec_queue().len() + pending_count(self.lock_view(), self.fired_view())
            <= QUEUE_LEN
        &&& forall|i: int|
            0 <= i < MAX_CONNECTIONS && self.fired_view()[i] ==> self.lock_view()[i]
        &&& forall|k: int|
            0 <= k < self.spec_queue().len() ==> (#[trigger] self.spec_queue()[k]).wf()
                && !BitSet::all_clear(self.spec_queue()[k].spec_subscribers())
    }

    pub fn new() -> (r: Self)
        ensures
            r.wf(),
            r.spec_queue().len() == 0,
            r.topics() == Set::<(Seq<u8>, int)>::empty(),
            BitSet::all_clear(r.lock_view()),
    {
        let r = InnerDistributor {
            queue: queue_new(),
            tree: TopicsList::new(),
            lock: BitSet::new(),
            fired: Ghost(Seq::new(MAX_CONNECTIONS as nat, |i: int| false)),
        };
        proof {
            lemma_ones_le(
                pend_seq(r.lock_view(), r.fired_view()),
                r.lock_view(),
                MAX_CONNECTIONS as int,
            );
            lemma_ones_same(
                r.lock_view(),
                Seq::new(MAX_CONNECTIONS as nat, |i: int| false),
                MAX_CONNECTIONS as int,
            );
            lemma_ones_zero(MAX_CONNECTIONS as int);
        }
        r
    }

    /// How many messages are queued.
    pub fn queue_len(&self) -> (r: usize)
        ensures
            r == self.spec_queue().len(),
    {
        queue_len(&self.queue)
    }

    /// Tries to take publish permission for `id`: granted exactly when
    /// strictly more queue slots are free than permissions are out.
    pub fn try_lock(&mut self, id: usize) -> (r: bool)
        requires
            old(self).wf(),
            id < MAX_CONNECTIONS,
            !old(self).lock_view()[id as int],
        ensures
            final(self).wf(),
            r == (QUEUE_LEN - old(self).spec_queue().len() > BitSet::ones(
                old(self).lock_view(),
                MAX_CONNECTIONS as int,
            )),
            r ==> final(self).lock_view() == old(self).lock_view().update(id as int, true)
                && final(self).has_slot(id as int),
            !r ==> final(self).lock_view() == old(self).lock_view(),
            final(self).fired_view() == old(self).fired_view(),
            final(self).spec_queue() == old(self).spec_queue(),
            final(self).topics() == old(self).topics(),
    {
        proof {
            lemma_ones_nonneg(
                pend_seq(old(self).lock_view(), old(self).fired_view()),
                MAX_CONNECTIONS as int,
            );
        }
        let available = QUEUE_LEN - self.queue_len();
        if available > self.lock.count_ones() {
            let ghost oldp = pend_seq(self.lock_view(), self.fired_view());
            self.lock.set(id);
            proof {
                lemma_ones_le(oldp, old(self).lock_view(), MAX_CONNECTIONS as int);
                assert(pend_seq(self.lock_view(), self.fired_view()) =~= oldp.update(
                    id as int,
                    true,
                ));
                lemma_ones_update(oldp, id as int, true, MAX_CONNECTIONS as int);
            }
            true
        } else {
            false
        }
    }

    /// Releases `id`'s publish permission; a no-op if none is held.
    pub fn unlock_for_publishing(&mut self, id: usize)
        requires
            old(self).wf(),
            id < MAX_CONNECTIONS,
        ensures
            final(self).wf(),
            final(self).lock_view() == old(self).lock_view().update(id as int, false),
            final(self).fired_view() == old(self).fired_view().update(id as int, false),
            final(self).spec_queue() == old(self).spec_queue(),
            final(self).topics() == old(self).topics(),
    {
        let ghost oldp = pend_seq(self.lock_view(), self.fired_view());
        self.lock.unset(id);
        proof {
            self.fired@ = self.fired@.update(id as int, false);
            assert(pend_seq(self.lock_view(), self.fired_view()) =~= oldp.update(
                id as int,
                false,
            ));
            lemma_ones_update(oldp, id as int, false, MAX_CONNECTIONS as int);
        }
    }

    /// Subscribes `id` to `filter`.
    pub fn subscribe(&mut self, filter: &[u8], id: usize) -> (r: Result<(), DistributorError>)
        requires
            old(self).wf(),
            id < MAX_CONNECTIONS,
        ensures
            final(self).wf(),
            final(self).spec_queue() == old(self).spec_queue(),
            final(self).lock_view() == old(self).lock_view(),
            final(self).fired_view() == old(self).fired_view(),
            match r {
                Ok(_) => final(self).topics() == old(self).topics().insert(
                    (filter@, id as int),
                ) && filter@.len() <= crate::config::MAX_TOPIC_LENGTH,
                Err(DistributorError::TopicTooLong) => filter@.len()
                    > crate::config::MAX_TOPIC_LENGTH && final(self).topics() == old(
                    self,
                ).topics(),
                Err(DistributorError::QueueFull) => final(self).topics() == old(self).topics()
                    && filter@.len() <= crate::config::MAX_TOPIC_LENGTH && !old(
                    self,
                ).topics().contains((filter@, id as int)) && old(self).topics().len()
                    >= crate::config::TREE_SIZE,
                Err(_) => false,
            },
    {
        match self.tree.insert(filter, id) {
            Ok(_) => Ok(()),
            Err(e) => Err(DistributorError::from(e)),
        }
    }

    /// Unsubscribes `id` from the exact `filter`.
    pub fn unsubscribe(&mut self, filter: &[u8], id: usize)
        requires
            old(self).wf(),
        ensures
            final(self).wf(),
            final(self).spec_queue() == old(self).spec_queue(),
            final(self).lock_view() == old(self).lock_view(),
            final(self).fired_view() == old(self).fired_view(),
            final(self).topics() == old(self).topics().remove((filter@, id as int)),
    {
        self.tree.remove(filter, id);
    }

    /// Serializes `publish` and queues it for every subscriber of its
    /// topic, waking none when no filter matches. Requires an unused
    /// publish permission, which the enqueue consumes: that is what keeps
    /// the queue from running full.
    pub fn publish(&mut self, id: usize, publish: &PublishData) -> (r: Result<
        (),
        DistributorError,
    >)
        requires
            old(self).wf(),
            id < MAX_CONNECTIONS,
            old(self).has_slot(id as int),
            (SpecPacket::Publish(publish@)).wf(),
        ensures
            final(self).wf(),
            final(self).topics() == old(self).topics(),
            final(self).lock_view() == old(self).lock_view(),
            match r {
                Ok(_) => {
                    if (forall|i: int|
                        0 <= i < MAX_CONNECTIONS ==> !spec_subscribed(
                            old(self).topics(),
                            publish@.topic,
                            i,
                        )) {
                        final(self).spec_queue() == old(self).spec_queue() && final(self).fired_view() == old(self).fired_view()
                    } else {
                        &&& (SpecPacket::Publish(publish@)).bytes().len() <= MAX_MESSAGE_SIZE
                        &&& final(self).spec_queue().len() == old(self).spec_queue().len() + 1
                        &&& final(self).spec_queue() == old(self).spec_queue().push(
                            final(self).spec_queue().last(),
                        )
                        &&& final(self).spec_queue().last().spec_message() == (
                        SpecPacket::Publish(publish@)).bytes()
                        &&& forall|i: int|
                            0 <= i < MAX_CONNECTIONS ==> (final(self)
                                .spec_queue().last().spec_subscribers()[i] == spec_subscribed(
                                old(self).topics(),
                                publish@.topic,
                                i,
                            ))
                        &&& final(self).fired_view() == old(self).fired_view().update(
                            id as int,
                            true,
                        )
                    }
                },
                Err(e) => {
                    &&& e == DistributorError::MessageTooLong
                    &&& (SpecPacket::Publish(publish@)).bytes().len() > MAX_MESSAGE_SIZE
                    &&& exists|i: int|
                        0 <= i < MAX_CONNECTIONS && spec_subscribed(
                            old(self).topics(),
                            publish@.topic,
                            i,
                        )
                    &&& final(self).spec_queue() == old(self).spec_queue()
                    &&& final(self).fired_view() == old(self).fired_view()
                },
            },
    {
        proof {
            lemma_ones_nonneg(
                pend_seq(old(self).lock_view(), old(self).fired_view()),
                MAX_CONNECTIONS as int,
            );
        }
        let subscribers = self.tree.get_subscribed(publish.topic.as_slice());
        proof {
            assert forall|i: int| 0 <= i < MAX_CONNECTIONS implies (subscribers@[i]
                == spec_subscribed(old(self).topics(), publish@.topic, i)) by {
                if subscribers@[i] {
                    let f = choose|f: Seq<u8>|
                        old(self).topics().contains((f, i)) && spec_matches(f, publish@.topic);
                    assert(old(self).topics().contains((f, i)) && spec_matches(
                        f,
                        publish@.topic,
                    ));
                }
                if spec_subscribed(old(self).topics(), publish@.topic, i) {
                    let f = choose|f: Seq<u8>|
                        old(self).topics().contains((f, i)) && spec_matches(f, publish@.topic);
                    assert(old(self).topics().contains((f, i)) && spec_matches(
                        f,
                        publish@.topic,
                    ));
                }
            }
        }
        if subscribers.is_empty() {
            proof {
                assert forall|i: int|
                    0 <= i < MAX_CONNECTIONS implies !spec_subscribed(
                    old(self).topics(),
                    publish@.topic,
                    i,
                ) by {
                    assert(!subscribers@[i]);
                }
            }
            return Ok(());
        }
        proof {
            let w = choose|i: int| 0 <= i < MAX_CONNECTIONS && subscribers@[i];
            assert(spec_subscribed(old(self).topics(), publish@.topic, w));
        }
        let bytes = crate::packets::encode_publish(publish);
        if bytes.len() > MAX_MESSAGE_SIZE {
            return Err(DistributorError::MessageTooLong);
        }
        let message = Message::from_bytes(bytes.as_slice());
        let msg = MessageInQueue { message, subscribers };
        let ghost oldp = pend_seq(self.lock_view(), self.fired_view());
        proof {
            assert(oldp[id as int]);
            lemma_ones_pos(oldp, id as int, MAX_CONNECTIONS as int);
        }
        match queue_push_back(&mut self.queue, msg) {
            Ok(_) => {},
            Err(_) => {
                proof {
                    assert(false);
                }
                return Err(DistributorError::QueueFull);
            },
        }
        proof {
            self.fired@ = self.fired@.update(id as int, true);
            assert(pend_seq(self.lock_view(), self.fired_view()) =~= oldp.update(
                id as int,
                false,
            ));
            lemma_ones_update(oldp, id as int, false, MAX_CONNECTIONS as int);
        }
        Ok(())
    }

    /// Removes every subscription of `id` and clears its bit from every
    /// queued message, dropping messages left without subscribers; the
    /// order of the remaining messages is kept.
    pub fn unsubscribe_all_topics(&mut self, id: usize)
        requires
            old(self).wf(),
            id < MAX_CONNECTIONS,
        ensures
            final(self).wf(),
            final(self).lock_view() == old(self).lock_view(),
            final(self).fired_view() == old(self).fired_view(),
            final(self).topics() == old(self).topics().filter(
                |e: (Seq<u8>, int)| e.1 != id as int,
            ),
            queue_views(final(self).spec_queue()) == clear_and_filter(
                queue_views(old(self).spec_queue()),
                id as int,
            ),
            forall|k: int|
                0 <= k < final(self).spec_queue().len() ==> !(#[trigger] final(self).spec_queue()[k]).spec_subscribers()[id as int],
    {
        self.tree.remove_all_subscriptions(id);
        let len = queue_len(&self.queue);
        let ghost oldq = queue_views(old(self).spec_queue());
        let mut j: usize = 0;
        while j < len
            invariant
                old(self).wf(),
                j <= len,
                len == oldq.len(),
                len == old(self).spec_queue().len(),
                self.tree.wf(),
                self.tree@ == old(self).topics().filter(|e: (Seq<u8>, int)| e.1 != id as int),
                self.lock@ == old(self).lock_view(),
                self.fired@ == old(self).fired_view(),
                id < MAX_CONNECTIONS,
                oldq == queue_views(old(self).spec_queue()),
                queue_views(self.spec_queue()) =~= clear_and_filter(
                    oldq.skip(len - j),
                    id as int,
                ) + oldq.take(len - j),
                self.spec_queue().len() <= old(self).spec_queue().len(),
                forall|k: int|
                    0 <= k < self.spec_queue().len() ==> (#[trigger] self.spec_queue()[k]).wf(),
                forall|k: int|
                    clear_and_filter(oldq.skip(len - j), id as int).len() <= k
                        < self.spec_queue().len() ==> !BitSet::all_clear(
                        (#[trigger] self.spec_queue()[k]).spec_subscribers(),
                    ),
                forall|k: int|
                    0 <= k < clear_and_filter(oldq.skip(len - j), id as int).len()
                        ==> !BitSet::all_clear(
                        (#[trigger] self.spec_queue()[k]).spec_subscribers(),
                    ) && !self.spec_queue()[k].spec_subscribers()[id as int],
            decreases len - j,
        {
            let ghost pre = queue_views(self.spec_queue());
            let ghost pre_q = self.spec_queue();
            let mut m = match queue_pop_back(&mut self.queue) {
                Some(m) => m,
                None => {
                    proof {
                        assert(false);
                    }
                    return ;
                },
            };
            proof {
                assert(queue_views(pre_q)[pre_q.len() - 1] == (
                    pre_q.last().spec_message(),
                    pre_q.last().spec_subscribers(),
                ));
                lemma_queue_views_drop(pre_q);
                assert(oldq.take(len - j).drop_last() =~= oldq.take(len - j - 1));
                assert(pre.drop_last() =~= clear_and_filter(oldq.skip(len - j), id as int)
                    + oldq.take(len - j - 1));
                assert(pre.last() == oldq.take(len - j)[len - j - 1]);
                assert(pre.last() == oldq[len - j - 1]);
            }
            m.subscribers.unset(id);
            proof {
                assert(queue_views(self.spec_queue()) =~= pre.drop_last());
                assert(m.spec_subscribers() =~= oldq[len - j - 1].1.update(id as int, false));
                lemma_ones_nonneg(pend_seq(self.lock@, self.fired@), MAX_CONNECTIONS as int);
            }
            proof {
                assert(pre_q.len() <= QUEUE_LEN);
                assert(self.spec_queue().len() == pre_q.len() - 1);
            }
            if !m.subscribers.is_empty() {
                match queue_push_front(&mut self.queue, m) {
                    Ok(_) => {},
                    Err(_) => {
                        proof {
                            assert(false);
                        }
                        return ;
                    },
                }
            }
            proof {
                assert(oldq.skip(len - j - 1).drop_first() =~= oldq.skip(len - j));
                assert(oldq.skip(len - j - 1)[0] == oldq[len - j - 1]);
                if !BitSet::all_clear(m.spec_subscribers()) {
                    assert(queue_views(self.spec_queue()) =~= seq![
                        (m.spec_message(), m.spec_subscribers()),
                    ] + (clear_and_filter(oldq.skip(len - j), id as int) + oldq.take(
                        len - j - 1,
                    )));
                    assert(queue_views(self.spec_queue()) =~= clear_and_filter(
                        oldq.skip(len - j - 1),
                        id as int,
                    ) + oldq.take(len - j - 1));
                } else {
                    assert(queue_views(self.spec_queue()) =~= clear_and_filter(
                        oldq.skip(len - j - 1),
                        id as int,
                    ) + oldq.take(len - j - 1));
                }
            }
            j = j + 1;
        }
        proof {
            assert(oldq.skip(0) =~= oldq);
            assert(oldq.take(0) =~= Seq::<(Seq<u8>, Seq<bool>)>::empty());
            assert(queue_views(self.spec_queue()) =~= clear_and_filter(oldq, id as int));
            lemma_ones_le(
                pend_seq(self.lock_view(), self.fired_view()),
                pend_seq(old(self).lock_view(), old(self).fired_view()),
                MAX_CONNECTIONS as int,
            );
            assert forall|k: int| 0 <= k < self.spec_queue().len() implies !(
            #[trigger] self.spec_queue()[k]).spec_subscribers()[id as int] by {
                assert(!BitSet::all_clear(self.spec_queue()[k].spec_subscribers()));
            }
        }
    }

    /// Hands `id` the message at the back of the queue if one is owed to
    /// it: the last subscriber takes the message out of the queue, any
    /// other gets a copy with its bit cleared.
    pub fn try_next(&mut self, id: usize) -> (r: Option<Message>)
        requires
            old(self).wf(),
            id < MAX_CONNECTIONS,
        ensures
            final(self).wf(),
            final(self).topics() == old(self).topics(),
            final(self).lock_view() == old(self).lock_view(),
            final(self).fired_view() == old(self).fired_view(),
            match r {
                None => final(self).spec_queue() == old(self).spec_queue() && (old(
                    self,
                ).spec_queue().len() == 0 || !old(
                    self,
                ).spec_queue().last().spec_subscribers()[id as int]),
                Some(m) => {
                    &&& old(self).spec_queue().len() > 0
                    &&& old(self).spec_queue().last().spec_subscribers()[id as int]
                    &&& m.wf()
                    &&& m@ == old(self).spec_queue().last().spec_message()
                    &&& if BitSet::all_clear(
                        old(self).spec_queue().last().spec_subscribers().update(
                            id as int,
                            false,
                        ),
                    ) {
                        final(self).spec_queue() == old(self).spec_queue().drop_last()
                    } else {
                        queue_views(final(self).spec_queue()) == queue_views(
                            old(self).spec_queue(),
                        ).update(
                            old(self).spec_queue().len() - 1,
                            (
                                old(self).spec_queue().last().spec_message(),
                                old(self).spec_queue().last().spec_subscribers().update(
                                    id as int,
                                    false,
                                ),
                            ),
                        )
                    }
                },
            },
    {
        proof {
            lemma_ones_nonneg(
                pend_seq(old(self).lock_view(), old(self).fired_view()),
                MAX_CONNECTIONS as int,
            );
        }
        let mut m = match queue_pop_back(&mut self.queue) {
            None => {
                return None;
            },
            Some(m) => m,
        };
        let ghost m0 = m;
        proof {
            assert(queue_views(old(self).spec_queue())[old(self).spec_queue().len() - 1] == (
                m0.spec_message(),
                m0.spec_subscribers(),
            ));
        }
        if !m.subscribers.get(id) {
            let ghost popped = self.spec_queue();
            match queue_push_back(&mut self.queue, m) {
                Ok(_) => {},
                Err(_) => {
                    proof {
                        assert(false);
                    }
                    return None;
                },
            }
            proof {
                assert(self.spec_queue() =~= old(self).spec_queue());
            }
            return None;
        }
        m.subscribers.unset(id);
        if m.subscribers.is_empty() {
            proof {
                lemma_queue_views_drop(old(self).spec_queue());
            }
            Some(m.message)
        } else {
            let ghost popped = self.spec_queue();
            match queue_push_back(&mut self.queue, m) {
                Ok(_) => {},
                Err(_) => {
                    proof {
                        assert(false);
                    }
                    return None;
                },
            }
            proof {
                assert(self.spec_queue() =~= old(self).spec_queue().drop_last().push(m));
                assert(queue_views(self.spec_queue()) =~= queue_views(
                    old(self).spec_queue(),
                ).update(
                    old(self).spec_queue().len() - 1,
                    (m.spec_message(), m.spec_subscribers()),
                ));
            }
            Some(m.message)
        }
    }
}

/// Dropping the last element commutes with taking views.
proof fn lemma_queue_views_drop(q: Seq<MessageInQueue>)
    requires
        q.len() > 0,
    ensures
        queue_views(q.drop_last()) == queue_views(q).drop_last(),
{
    assert forall|k: int| 0 <= k < q.len() - 1 implies queue_views(q.drop_last())[k]
        == queue_views(q).drop_last()[k] by {
        assert(q.drop_last()[k] == q[k]);
    }
    assert(queue_views(q.drop_last()) =~= queue_views(q).drop_last());
}

/// An all-false sequence counts zero.
proof fn lemma_ones_zero(n: int)
    requires
        n <= MAX_CONNECTIONS,
    ensures
        BitSet::ones(Seq::new(MAX_CONNECTIONS as nat, |i: int| false), n) == 0,
    decreases n,
{
    if n > 0 {
        lemma_ones_zero(n - 1);
    }
}

/// How a successful publish of `p` under `id`'s permission transforms the
/// shared core.
pub open spec fn publish_outcome(
    pre: InnerDistributor,
    post: InnerDistributor,
    id: int,
    p: SpecPublish,
) -> bool {
    &&& post.topics() == pre.topics()
    &&& post.lock_view() == pre.lock_view()
    &&& if (forall|i: int| 0 <= i < MAX_CONNECTIONS ==> !spec_subscribed(pre.topics(), p.topic, i)) {
        post.spec_queue() == pre.spec_queue() && post.fired_view() == pre.fired_view()
    } else {
        &&& post.spec_queue().len() == pre.spec_queue().len() + 1
        &&& post.spec_queue() == pre.spec_queue().push(post.spec_queue().last())
        &&& post.spec_queue().last().spec_message() == (SpecPacket::Publish(p)).bytes()
        &&& forall|i: int|
            0 <= i < MAX_CONNECTIONS ==> (post.spec_queue().last().spec_subscribers()[i]
                == spec_subscribed(pre.topics(), p.topic, i))
        &&& post.fired_view() == pre.fired_view().update(id, true)
    }
}

/// The per-connection handle to the shared core: the connection's fixed
/// id, and the will to fire if the connection ends abnormally.
pub struct Distributor {
    id: usize,
    will: Option<PacketWriter<MAX_WILL_LENGTH>>,
}

impl Distributor {
    /// The connection's slot id.
    pub closed spec fn spec_id(&self) -> int {
        self.id as int
    }

    /// The stored will, as serialized PUBLISH bytes.
    pub closed spec fn spec_will(&self) -> Option<Seq<u8>> {
        match self.will {
            Some(w) => Some(w@),
            None => None,
        }
    }

    /// The id is a legal slot and any stored will is the wire form of a
    /// well-formed PUBLISH.
    pub closed spec fn wf(&self) -> bool {
        &&& self.id < MAX_CONNECTIONS
        &&& match self.will {
            Some(w) => w.wf() && exists|p: SpecPublish|
                (SpecPacket::Publish(p)).wf() && w@ == (SpecPacket::Publish(p)).bytes(),
            None => true,
        }
    }

    pub fn new(id: usize) -> (r: Self)
        requires
            id < MAX_CONNECTIONS,
        ensures
            r.wf(),
            r.spec_id() == id,
            r.spec_will() is None,
    {
        Distributor { id, will: None }
    }

    pub fn get_id(&self) -> (r: usize)
        ensures
            r == self.spec_id(),
    {
        self.id
    }

    /// Whether a will is stored.
    pub fn has_will(&self) -> (r: bool)
        ensures
            r == (self.spec_will() is Some),
    {
        match &self.will {
            Some(_) => true,
            None => false,
        }
    }

    /// Pre-serializes `will` into the handle's will buffer; refused when
    /// its wire form exceeds the will buffer.
    pub fn set_will(&mut self, will: &PublishData) -> (r: Result<(), DistributorError>)
        requires
            old(self).wf(),
            (SpecPacket::Publish(will@)).wf(),
        ensures
            final(self).wf(),
            final(self).spec_id() == old(self).spec_id(),
            match r {
                Ok(_) => final(self).spec_will() == Some(
                    (SpecPacket::Publish(will@)).bytes(),
                ) && (SpecPacket::Publish(will@)).bytes().len() <= MAX_WILL_LENGTH,
                Err(e) => e == DistributorError::MessageTooLong && (SpecPacket::Publish(
                    will@,
                )).bytes().len() > MAX_WILL_LENGTH && final(self).spec_will() == old(
                    self,
                ).spec_will(),
            },
    {
        let bytes = crate::packets::encode_publish(will);
        if bytes.len() > MAX_WILL_LENGTH {
            return Err(DistributorError::MessageTooLong);
        }
        let mut buf: PacketWriter<MAX_WILL_LENGTH> = PacketWriter::new();
        buf.write_slice(bytes.as_slice());
        self.will = Some(buf);
        Ok(())
    }

    /// Restores the distributor invariants for this slot after a
    /// connection ends: drops all its subscriptions, clears its bit from
    /// every queued message, and releases its publish permission. The will
    /// stays stored; firing it is a separate step.
    pub fn cleanup(&self, inner: &mut InnerDistributor)
        requires
            old(inner).wf(),
            self.wf(),
        ensures
            final(inner).wf(),
            final(inner).topics() == old(inner).topics().filter(
                |e: (Seq<u8>, int)| e.1 != self.spec_id(),
            ),
            queue_views(final(inner).spec_queue()) == clear_and_filter(
                queue_views(old(inner).spec_queue()),
                self.spec_id(),
            ),
            forall|k: int|
                0 <= k < final(inner).spec_queue().len() ==> !(#[trigger] final(inner)
                    .spec_queue()[k]).spec_subscribers()[self.spec_id()],
            final(inner).lock_view() == old(inner).lock_view().update(self.spec_id(), false),
            final(inner).fired_view() == old(inner).fired_view().update(self.spec_id(), false),
    {
        inner.unsubscribe_all_topics(self.id);
        inner.unlock_for_publishing(self.id);
    }

    #[verifier::rlimit(100)]
    #[verifier::spinoff_prover]
    /// Publishes the stored will, if any, and clears it. The caller holds
    /// an unused publish permission, exactly as a live publish would.
    pub fn fire_will(&mut self, inner: &mut InnerDistributor)
        requires
            old(inner).wf(),
            old(self).wf(),
            old(self).spec_will() is Some ==> old(inner).has_slot(old(self).spec_id()),
        ensures
            final(self).wf(),
            final(self).spec_id() == old(self).spec_id(),
            final(self).spec_will() is None,
            final(inner).wf(),
            match old(self).spec_will() {
                None => final(inner).spec_queue() == old(inner).spec_queue()
                    && final(inner).topics() == old(inner).topics()
                    && final(inner).lock_view() == old(inner).lock_view()
                    && final(inner).fired_view() == old(inner).fired_view(),
                Some(bytes) => exists|p: SpecPublish|
                    (SpecPacket::Publish(p)).wf() && bytes == (SpecPacket::Publish(p)).bytes()
                        && publish_outcome(
                        *old(inner),
                        *final(inner),
                        old(self).spec_id(),
                        p,
                    ),
            },
    {
        let w = match &self.will {
            None => {
                return ;
            },
            Some(w) => *w,
        };
        let ghost p = choose|p: SpecPublish|
            (SpecPacket::Publish(p)).wf() && w@ == (SpecPacket::Publish(p)).bytes();
        proof {
            crate::packets::lemma_packet_round_trip(SpecPacket::Publish(p));
            crate::codec::lemma_packet_writer_len(&w);
        }
        let frame = w.get_written_data();
        match crate::packets::parse_packet(frame) {
            Ok(crate::packets::Packet::Publish(d)) => {
                proof {
                    assert(d@ == p);
                }
                let r = inner.publish(self.id, &d);
                proof {
                    if r is Err {
                        assert((SpecPacket::Publish(p)).bytes().len() > MAX_MESSAGE_SIZE);
                        assert(w@.len() <= MAX_WILL_LENGTH);
                        assert(false);
                    }
                    assert(publish_outcome(*old(inner), *inner, self.id as int, p));
                }
            },
            _ => {
                proof {
                    assert(false);
                }
            },
        }
        self.will = None;
    }

    /// Takes publish permission for this connection if room is granted.
    pub fn try_lock(&self, inner: &mut InnerDistributor) -> (r: bool)
        requires
            old(inner).wf(),
            self.wf(),
            !old(inner).lock_view()[self.spec_id()],
        ensures
            final(inner).wf(),
            r == (QUEUE_LEN - old(inner).spec_queue().len() > BitSet::ones(
                old(inner).lock_view(),
                MAX_CONNECTIONS as int,
            )),
            r ==> final(inner).lock_view() == old(inner).lock_view().update(
                self.spec_id(),
                true,
            ) && final(inner).has_slot(self.spec_id()),
            !r ==> final(inner).lock_view() == old(inner).lock_view(),
            final(inner).fired_view() == old(inner).fired_view(),
            final(inner).spec_queue() == old(inner).spec_queue(),
            final(inner).topics() == old(inner).topics(),
    {
        inner.try_lock(self.id)
    }

    /// Releases this connection's publish permission.
    pub fn unlock(&self, inner: &mut InnerDistributor)
        requires
            old(inner).wf(),
            self.wf(),
        ensures
            final(inner).wf(),
            final(inner).lock_view() == old(inner).lock_view().update(self.spec_id(), false),
            final(inner).fired_view() == old(inner).fired_view().update(self.spec_id(), false),
            final(inner).spec_queue() == old(inner).spec_queue(),
            final(inner).topics() == old(inner).topics(),
    {
        inner.unlock_for_publishing(self.id);
    }

    /// Publishes under this connection's permission.
    pub fn publish(&self, inner: &mut InnerDistributor, publish: &PublishData) -> (r: Result<
        (),
        DistributorError,
    >)
        requires
            old(inner).wf(),
            self.wf(),
            old(inner).has_slot(self.spec_id()),
            (SpecPacket::Publish(publish@)).wf(),
        ensures
            final(inner).wf(),
            match r {
                Ok(_) => publish_outcome(*old(inner), *final(inner), self.spec_id(), publish@),
                Err(e) => {
                    &&& e == DistributorError::MessageTooLong
                    &&& (SpecPacket::Publish(publish@)).bytes().len() > MAX_MESSAGE_SIZE
                    &&& exists|i: int|
                        0 <= i < MAX_CONNECTIONS && spec_subscribed(
                            old(inner).topics(),
                            publish@.topic,
                            i,
                        )
                    &&& final(inner).spec_queue() == old(inner).spec_queue()
                    &&& final(inner).topics() == old(inner).topics()
                    &&& final(inner).lock_view() == old(inner).lock_view()
                    &&& final(inner).fired_view() == old(inner).fired_view()
                },
            },
    {
        inner.publish(self.id, publish)
    }

    /// Subscribes this connection to `filter`.
    pub fn subscribe(&self, inner: &mut InnerDistributor, filter: &[u8]) -> (r: Result<
        (),
        DistributorError,
    >)
        requires
            old(inner).wf(),
            self.wf(),
        ensures
            final(inner).wf(),
            final(inner).spec_queue() == old(inner).spec_queue(),
            final(inner).lock_view() == old(inner).lock_view(),
            final(inner).fired_view() == old(inner).fired_view(),
            match r {
                Ok(_) => final(inner).topics() == old(inner).topics().insert(
                    (filter@, self.spec_id()),
                ) && filter@.len() <= crate::config::MAX_TOPIC_LENGTH,
                Err(DistributorError::TopicTooLong) => filter@.len()
                    > crate::config::MAX_TOPIC_LENGTH && final(inner).topics() == old(
                    inner,
                ).topics(),
                Err(DistributorError::QueueFull) => final(inner).topics() == old(inner).topics()
                    && filter@.len() <= crate::config::MAX_TOPIC_LENGTH && !old(
                    inner,
                ).topics().contains((filter@, self.spec_id())) && old(inner).topics().len()
                    >= crate::config::TREE_SIZE,
                Err(_) => false,
            },
    {
        inner.subscribe(filter, self.id)
    }

    /// Unsubscribes this connection from the exact `filter`.
    pub fn unsubscribe(&self, inner: &mut InnerDistributor, filter: &[u8])
        requires
            old(inner).wf(),
            self.wf(),
        ensures
            final(inner).wf(),
            final(inner).spec_queue() == old(inner).spec_queue(),
            final(inner).lock_view() == old(inner).lock_view(),
            final(inner).fired_view() == old(inner).fired_view(),
            final(inner).topics() == old(inner).topics().remove((filter@, self.spec_id())),
    {
        inner.unsubscribe(filter, self.id);
    }

    /// Takes the next message owed to this connection, if one is ready.
    pub fn try_next(&self, inner: &mut InnerDistributor) -> (r: Option<Message>)
        requires
            old(inner).wf(),
            self.wf(),
        ensures
            final(inner).wf(),
            final(inner).topics() == old(inner).topics(),
            final(inner).lock_view() == old(inner).lock_view(),
            final(inner).fired_view() == old(inner).fired_view(),
            match r {
                None => final(inner).spec_queue() == old(inner).spec_queue() && (old(
                    inner,
                ).spec_queue().len() == 0 || !old(
                    inner,
                ).spec_queue().last().spec_subscribers()[self.spec_id()]),
                Some(m) => {
                    &&& old(inner).spec_queue().len() > 0
                    &&& old(inner).spec_queue().last().spec_subscribers()[self.spec_id()]
                    &&& m.wf()
                    &&& m@ == old(inner).spec_queue().last().spec_message()
                },
            },
    {
        inner.try_next(self.id)
    }
}

/// Law: however the operations interleave, the queue length and the
/// unused publish permissions together never exceed the queue capacity;
/// while no permission holder has enqueued yet, that bounds the queue
/// length plus the full lock count.
pub proof fn lemma_queue_lock_bound(d: &InnerDistributor)
    requires
        d.wf(),
    ensures
        d.spec_queue().len() + pending_count(d.lock_view(), d.fired_view()) <= QUEUE_LEN,
        BitSet::all_clear(d.fired_view()) ==> d.spec_queue().len() + BitSet::ones(
            d.lock_view(),
            MAX_CONNECTIONS as int,
        ) <= QUEUE_LEN,
{
    if BitSet::all_clear(d.fired_view()) {
        lemma_ones_same(
            pend_seq(d.lock_view(), d.fired_view()),
            d.lock_view(),
            MAX_CONNECTIONS as int,
        );
    }
}

/// Law: every message sitting in the queue is owed to at least one
/// subscriber.
pub proof fn lemma_queued_message_has_subscriber(d: &InnerDistributor, k: int)
    requires
        d.wf(),
        0 <= k < d.spec_queue().len(),
    ensures
        !BitSet::all_clear(d.spec_queue()[k].spec_subscribers()),
{
}

} // verus!
