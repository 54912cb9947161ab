//! Per-connection decision logic: what one inbound packet does to the
//! distributor and what goes back on the wire.
//!
//! The I/O loop around it is not here: a caller accepts a connection,
//! performs the handshake exchange, and then alternates between delivering
//! queued messages and handing inbound packets to [`handle_packet`],
//! holding a publish permission while it does. On any error it sends the
//! frame from [`disconnect_frame`] and tears the session down.

use vstd::prelude::*;

use crate::config::MAX_TOPIC_LENGTH;
use crate::config::TREE_SIZE;
use crate::config::MAX_CONNECTIONS;
use crate::distributor::publish_outcome;
use crate::distributor::Distributor;
use crate::distributor::InnerDistributor;
use crate::distributor::Message;
use crate::errors::spec_suback_reason_code;
use crate::errors::DistributorError;
use crate::packets::spec_parse_packet;
use crate::packets::views_of;
use crate::packets::Packet;
use crate::packets::PublishData;
use crate::packets::SpecPacket;
use crate::packets::SpecPublish;

verus! {

/// What the connection driver should do after one inbound packet.
pub enum SocketAction {
    /// Send these bytes and go on.
    Respond(Vec<u8>),
    /// Nothing to send; go on.
    Ignore,
    /// The peer closed cleanly: no will fires.
    Close,
    /// Close with this error; the will fires on the next cleanup.
    Fail(DistributorError),
}

/// Whether an attempt to subscribe `id` to `f` succeeds on `topics`.
pub open spec fn subscribe_ok(topics: Set<(Seq<u8>, int)>, f: Seq<u8>, id: int) -> bool {
    f.len() <= MAX_TOPIC_LENGTH && (topics.contains((f, id)) || topics.len() < TREE_SIZE)
}

/// The table after one attempt: a failed attempt changes nothing.
pub open spec fn subscribe_step(
    topics: Set<(Seq<u8>, int)>,
    f: Seq<u8>,
    id: int,
) -> Set<(Seq<u8>, int)> {
    if subscribe_ok(topics, f, id) {
        topics.insert((f, id))
    } else {
        topics
    }
}

/// The SUBACK reason code reported for a failed attempt.
pub open spec fn subscribe_fail_reason(f: Seq<u8>) -> u8 {
    if f.len() > MAX_TOPIC_LENGTH {
        spec_suback_reason_code(DistributorError::TopicTooLong)
    } else {
        spec_suback_reason_code(DistributorError::QueueFull)
    }
}

/// The table after attempting the filters in order; processing stops once
/// `budget` failures have been reported.
pub open spec fn sub_topics(
    topics: Set<(Seq<u8>, int)>,
    filters: Seq<Seq<u8>>,
    id: int,
    budget: int,
) -> Set<(Seq<u8>, int)>
    decreases filters.len(),
{
    if filters.len() == 0 || budget <= 0 {
        topics
    } else if subscribe_ok(topics, filters[0], id) {
        sub_topics(topics.insert((filters[0], id)), filters.drop_first(), id, budget)
    } else {
        sub_topics(topics, filters.drop_first(), id, budget - 1)
    }
}

/// The failure reason codes collected while attempting the filters in
/// order, at most `budget` of them.
pub open spec fn sub_reasons(
    topics: Set<(Seq<u8>, int)>,
    filters: Seq<Seq<u8>>,
    id: int,
    budget: int,
) -> Seq<u8>
    decreases filters.len(),
{
    if filters.len() == 0 || budget <= 0 {
        seq![]
    } else if subscribe_ok(topics, filters[0], id) {
        sub_reasons(topics.insert((filters[0], id)), filters.drop_first(), id, budget)
    } else {
        seq![subscribe_fail_reason(filters[0])] + sub_reasons(
            topics,
            filters.drop_first(),
            id,
            budget - 1,
        )
    }
}

/// The table after removing each filter in order.
pub open spec fn unsub_topics(
    topics: Set<(Seq<u8>, int)>,
    filters: Seq<Seq<u8>>,
    id: int,
) -> Set<(Seq<u8>, int)>
    decreases filters.len(),
{
    if filters.len() == 0 {
        topics
    } else {
        unsub_topics(topics.remove((filters[0], id)), filters.drop_first(), id)
    }
}

/// A PUBLISH as delivered to subscribers: the packet identifier cleared
/// (the broker does not forward client packet ids), and with it the
/// quality-of-service bits.
pub open spec fn cleared_publish(p: SpecPublish) -> SpecPublish {
    SpecPublish {
        topic: p.topic,
        payload: p.payload,
        packet_identifier: None,
        qos: 0,
        retain: p.retain,
        duplicate: p.duplicate,
    }
}

/// The DISCONNECT frame announcing `e` to the peer.
pub fn disconnect_frame(e: DistributorError) -> (r: Vec<u8>)
    ensures
        r@ == (SpecPacket::Disconnect { reason: spec_disconnect_reason(e) }).bytes(),
{
    let reason = crate::errors::disconnect_reason_code(e);
    crate::packets::encode_packet(&Packet::Disconnect { reason })
}

/// The reason code sent with the DISCONNECT for `e`.
pub open spec fn spec_disconnect_reason(e: DistributorError) -> u8 {
    crate::errors::spec_disconnect_reason_code(e)
}

/// The CONNACK frame accepting a connection: success, no session present.
pub fn connack_frame() -> (r: Vec<u8>)
    ensures
        r@ == (SpecPacket::Connack { session_present: false, reason: 0 }).bytes(),
{
    crate::packets::encode_packet(&Packet::Connack { session_present: false, reason: 0 })
}

/// What the handshake decided about the first inbound packet.
pub enum HandshakeOutcome {
    /// A CONNECT: store the will, if any, then send a CONNACK.
    Accept(Option<PublishData>),
    /// Anything else: close the socket.
    Reject,
}

/// Decides the handshake: the first packet must be a CONNECT; its will,
/// if present, becomes a PUBLISH to fire on abnormal close.
pub fn handshake(packet: &Packet) -> (r: HandshakeOutcome)
    requires
        packet@.wf(),
    ensures
        match r {
            HandshakeOutcome::Accept(will) => match packet@ {
                SpecPacket::Connect(c) => match c.will {
                    Some(w) => will is Some && (will matches Some(d) ==> d@ == (SpecPublish {
                        topic: w.topic,
                        payload: w.payload,
                        packet_identifier: None,
                        qos: 0,
                        retain: w.retain,
                        duplicate: false,
                    }) && (SpecPacket::Publish(d@)).wf()),
                    None => will is None,
                },
                _ => false,
            },
            HandshakeOutcome::Reject => !(packet@ is Connect),
        },
{
    match packet {
        Packet::Connect(c) => {
            match &c.will {
                Some(w) => {
                    let mut topic: Vec<u8> = Vec::new();
                    topic.extend_from_slice(w.topic.as_slice());
                    let mut payload: Vec<u8> = Vec::new();
                    payload.extend_from_slice(w.payload.as_slice());
                    proof {
                        assert(topic@ =~= w.topic@);
                        assert(payload@ =~= w.payload@);
                    }
                    let d = PublishData {
                        topic,
                        payload,
                        packet_identifier: None,
                        qos: 0,
                        retain: w.retain,
                        duplicate: false,
                    };
                    HandshakeOutcome::Accept(Some(d))
                },
                None => HandshakeOutcome::Accept(None),
            }
        },
        _ => HandshakeOutcome::Reject,
    }
}

/// Turns one queued message back into the frame sent to a subscriber: the
/// stored PUBLISH with its packet identifier cleared.
pub fn deliver_bytes(msg: &Message) -> (r: Result<Vec<u8>, DistributorError>)
    requires
        msg.wf(),
    ensures
        match spec_parse_packet(msg@) {
            Some(SpecPacket::Publish(p)) => r matches Ok(v) && v@ == (SpecPacket::Publish(
                cleared_publish(p),
            )).bytes(),
            _ => r == Err::<Vec<u8>, DistributorError>(DistributorError::Unknown),
        },
{
    match crate::packets::parse_packet(msg.message()) {
        Ok(Packet::Publish(d)) => {
            let out = PublishData {
                topic: d.topic,
                payload: d.payload,
                packet_identifier: None,
                qos: 0,
                retain: d.retain,
                duplicate: d.duplicate,
            };
            Ok(crate::packets::encode_publish(&out))
        },
        _ => Err(DistributorError::Unknown),
    }
}

/// Dispatches one inbound packet. The caller holds an unused publish
/// permission for this connection, as the driver loop always does when it
/// reads a packet.
pub fn handle_packet(
    handle: &Distributor,
    inner: &mut InnerDistributor,
    packet: &Packet,
) -> (r: SocketAction)
    requires
        old(inner).wf(),
        handle.wf(),
        old(inner).has_slot(handle.spec_id()),
        packet@.wf(),
    ensures
        final(inner).wf(),
        match packet@ {
            SpecPacket::Publish(p) => match r {
                SocketAction::Respond(v) => {
                    &&& publish_outcome(*old(inner), *final(inner), handle.spec_id(), p)
                    &&& v@ == (SpecPacket::Puback {
                        packet_identifier: (match p.packet_identifier {
                            Some(pid) => pid,
                            None => 1u16,
                        }),
                        reason: 0,
                    }).bytes()
                },
                SocketAction::Fail(e) => e == DistributorError::MessageTooLong && (
                SpecPacket::Publish(p)).bytes().len() > crate::config::MAX_MESSAGE_SIZE && (
                exists|i: int|
                    0 <= i < MAX_CONNECTIONS && crate::distributor::spec_subscribed(
                        old(inner).topics(),
                        p.topic,
                        i,
                    )) && final(inner).spec_queue() == old(inner).spec_queue()
                    && final(inner).topics() == old(inner).topics(),
                _ => false,
            },
            SpecPacket::Subscribe { packet_identifier, filters } => match r {
                SocketAction::Respond(v) => {
                    &&& final(inner).topics() == sub_topics(
                        old(inner).topics(),
                        filters,
                        handle.spec_id(),
                        8,
                    )
                    &&& final(inner).spec_queue() == old(inner).spec_queue()
                    &&& final(inner).lock_view() == old(inner).lock_view()
                    &&& final(inner).fired_view() == old(inner).fired_view()
                    &&& v@ == (SpecPacket::Suback {
                        packet_identifier,
                        reasons: sub_reasons(
                            old(inner).topics(),
                            filters,
                            handle.spec_id(),
                            8,
                        ),
                    }).bytes()
                },
                _ => false,
            },
            SpecPacket::Unsubscribe { packet_identifier, filters } => match r {
                SocketAction::Respond(v) => {
                    &&& final(inner).topics() == unsub_topics(
                        old(inner).topics(),
                        filters,
                        handle.spec_id(),
                    )
                    &&& final(inner).spec_queue() == old(inner).spec_queue()
                    &&& v@ == (SpecPacket::Unsuback { packet_identifier, reasons: seq![] }).bytes()
                },
                _ => false,
            },
            SpecPacket::Pingreq => match r {
                SocketAction::Respond(v) => v@ == SpecPacket::Pingresp.bytes() && *final(inner)
                    == *old(inner),
                _ => false,
            },
            SpecPacket::Disconnect { .. } => r is Close && *final(inner) == *old(inner),
            SpecPacket::Puback { .. } => r is Ignore && *final(inner) == *old(inner),
            _ => r == SocketAction::Fail(DistributorError::UnexpectedPacket) && *final(inner)
                == *old(inner),
        },
{
    match packet {
        Packet::Publish(d) => {
            match handle.publish(inner, d) {
                Ok(_) => {
                    let packet_identifier = match d.packet_identifier {
                        Some(pid) => pid,
                        None => 1,
                    };
                    let v = crate::packets::encode_packet(
                        &Packet::Puback { packet_identifier, reason: 0 },
                    );
                    SocketAction::Respond(v)
                },
                Err(e) => SocketAction::Fail(e),
            }
        },
        Packet::Subscribe { packet_identifier, filters } => {
            let ghost fviews = views_of(filters@);
            let ghost id = handle.spec_id();
            let mut reasons: Vec<u8> = Vec::new();
            proof {
                assert(fviews.skip(0) =~= fviews);
                assert(reasons@ + sub_reasons(inner.topics(), fviews, id, 8) =~= sub_reasons(
                    inner.topics(),
                    fviews,
                    id,
                    8,
                ));
            }
            let mut i: usize = 0;
            while i < filters.len() && reasons.len() < 8
                invariant
                    old(inner).wf(),
                    inner.wf(),
                    handle.wf(),
                    i <= filters@.len(),
                    fviews == views_of(filters@),
                    fviews.len() == filters@.len(),
                    id == handle.spec_id(),
                    reasons@.len() <= 8,
                    inner.spec_queue() == old(inner).spec_queue(),
                    inner.lock_view() == old(inner).lock_view(),
                    inner.fired_view() == old(inner).fired_view(),
                    sub_topics(inner.topics(), fviews.skip(i as int), id, 8 - reasons@.len())
                        == sub_topics(old(inner).topics(), fviews, id, 8),
                    reasons@ + sub_reasons(
                        inner.topics(),
                        fviews.skip(i as int),
                        id,
                        8 - reasons@.len(),
                    ) == sub_reasons(old(inner).topics(), fviews, id, 8),
                decreases filters@.len() - i,
            {
                let ghost pre_topics = inner.topics();
                let ghost pre_reasons = reasons@;
                proof {
                    assert(fviews.skip(i as int)[0] == fviews[i as int]);
                    assert(fviews[i as int] == filters@[i as int]@);
                    assert(fviews.skip(i as int).drop_first() =~= fviews.skip(i as int + 1));
                }
                match handle.subscribe(inner, filters[i].as_slice()) {
                    Ok(_) => {
                        proof {
                            assert(subscribe_ok(pre_topics, fviews[i as int], id));
                        }
                    },
                    Err(e) => {
                        proof {
                            assert(!subscribe_ok(pre_topics, fviews[i as int], id));
                            assert(spec_suback_reason_code(e) == subscribe_fail_reason(
                                fviews[i as int],
                            ));
                        }
                        reasons.push(crate::errors::suback_reason_code(e));
                        proof {
                            assert(reasons@ =~= pre_reasons + seq![
                                subscribe_fail_reason(fviews[i as int]),
                            ]);
                            assert(pre_reasons + (seq![subscribe_fail_reason(fviews[i as int])]
                                + sub_reasons(
                                inner.topics(),
                                fviews.skip(i as int + 1),
                                id,
                                8 - reasons@.len(),
                            )) =~= reasons@ + sub_reasons(
                                inner.topics(),
                                fviews.skip(i as int + 1),
                                id,
                                8 - reasons@.len(),
                            ));
                        }
                    },
                }
                i = i + 1;
            }
            proof {
                if i == filters@.len() {
                    assert(fviews.skip(i as int) =~= Seq::<Seq<u8>>::empty());
                }
                assert(sub_topics(inner.topics(), fviews.skip(i as int), id, 8 - reasons@.len())
                    == inner.topics());
                assert(reasons@ + sub_reasons(
                    inner.topics(),
                    fviews.skip(i as int),
                    id,
                    8 - reasons@.len(),
                ) =~= reasons@);
            }
            let v = crate::packets::encode_packet(
                &Packet::Suback { packet_identifier: *packet_identifier, reasons },
            );
            SocketAction::Respond(v)
        },
        Packet::Unsubscribe { packet_identifier, filters } => {
            let ghost fviews = views_of(filters@);
            let ghost id = handle.spec_id();
            proof {
                assert(fviews.skip(0) =~= fviews);
            }
            let mut i: usize = 0;
            while i < filters.len()
                invariant
                    old(inner).wf(),
                    inner.wf(),
                    handle.wf(),
                    i <= filters@.len(),
                    fviews == views_of(filters@),
                    fviews.len() == filters@.len(),
                    id == handle.spec_id(),
                    inner.spec_queue() == old(inner).spec_queue(),
                    inner.lock_view() == old(inner).lock_view(),
                    inner.fired_view() == old(inner).fired_view(),
                    unsub_topics(inner.topics(), fviews.skip(i as int), id) == unsub_topics(
                        old(inner).topics(),
                        fviews,
                        id,
                    ),
                decreases filters@.len() - i,
            {
                proof {
                    assert(fviews.skip(i as int)[0] == fviews[i as int]);
                    assert(fviews[i as int] == filters@[i as int]@);
                    assert(fviews.skip(i as int).drop_first() =~= fviews.skip(i as int + 1));
                }
                handle.unsubscribe(inner, filters[i].as_slice());
                i = i + 1;
            }
            proof {
                assert(fviews.skip(i as int) =~= Seq::<Seq<u8>>::empty());
            }
            let empty: Vec<u8> = Vec::new();
            let v = crate::packets::encode_packet(
                &Packet::Unsuback { packet_identifier: *packet_identifier, reasons: empty },
            );
            proof {
                assert(empty@ =~= Seq::<u8>::empty());
            }
            SocketAction::Respond(v)
        },
        Packet::Pingreq => {
            let v = crate::packets::encode_packet(&Packet::Pingresp);
            SocketAction::Respond(v)
        },
        Packet::Disconnect { .. } => SocketAction::Close,
        Packet::Puback { .. } => SocketAction::Ignore,
        _ => SocketAction::Fail(DistributorError::UnexpectedPacket),
    }
}

} // verus!
