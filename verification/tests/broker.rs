use mqtt_server::connection::deliver_bytes;
use mqtt_server::connection::handle_packet;
use mqtt_server::connection::handshake;
use mqtt_server::connection::HandshakeOutcome;
use mqtt_server::connection::SocketAction;
use mqtt_server::distributor::Distributor;
use mqtt_server::distributor::InnerDistributor;
use mqtt_server::distributor::Message;
use mqtt_server::errors::DistributorError;
use mqtt_server::packets::parse_packet;
use mqtt_server::packets::ConnectData;
use mqtt_server::packets::Packet;
use mqtt_server::packets::PublishData;
use mqtt_server::packets::WillData;

fn publish_packet(topic: &[u8], payload: &[u8]) -> Packet {
    Packet::Publish(PublishData {
        topic: topic.to_vec(),
        payload: payload.to_vec(),
        packet_identifier: None,
        qos: 0,
        retain: false,
        duplicate: false,
    })
}

/// Runs one inbound packet through a connection, as the driver loop does:
/// take the publish permission, dispatch, release the permission.
fn inbound(
    handle: &Distributor,
    inner: &mut InnerDistributor,
    packet: &Packet,
) -> SocketAction {
    assert!(handle.try_lock(inner), "publish permission denied");
    let action = handle_packet(handle, inner, packet);
    handle.unlock(inner);
    action
}

fn expect_reply(action: SocketAction) -> Packet {
    match action {
        SocketAction::Respond(bytes) => parse_packet(&bytes).expect("reply parses"),
        _ => panic!("expected a reply"),
    }
}

fn received_publish(handle: &Distributor, inner: &mut InnerDistributor) -> Option<(Vec<u8>, Vec<u8>)> {
    let msg: Message = handle.try_next(inner)?;
    let bytes = deliver_bytes(&msg).expect("queued message is a publish");
    match parse_packet(&bytes).expect("delivery parses") {
        Packet::Publish(d) => {
            assert_eq!(d.packet_identifier, None, "packet id is cleared on delivery");
            Some((d.topic, d.payload))
        }
        other => panic!("delivered something else: {:?}", other),
    }
}

#[test]
fn basic_pub_sub() {
    let mut inner = InnerDistributor::new();
    let a = Distributor::new(0);
    let b = Distributor::new(1);

    let sub = expect_reply(inbound(&a, &mut inner, &Packet::Subscribe {
        packet_identifier: 5,
        filters: vec![b"a/b".to_vec()],
    }));
    assert_eq!(sub, Packet::Suback { packet_identifier: 5, reasons: vec![] });

    let ack = expect_reply(inbound(&b, &mut inner, &publish_packet(b"a/b", &[1, 2, 3])));
    assert_eq!(ack, Packet::Puback { packet_identifier: 1, reason: 0 });

    let (topic, payload) = received_publish(&a, &mut inner).expect("a message for A");
    assert_eq!(topic, b"a/b".to_vec());
    assert_eq!(payload, vec![1, 2, 3]);
    assert!(received_publish(&a, &mut inner).is_none());
    assert!(received_publish(&b, &mut inner).is_none());
}

#[test]
fn single_level_wildcard() {
    let mut inner = InnerDistributor::new();
    let a = Distributor::new(0);
    let b = Distributor::new(1);

    expect_reply(inbound(&a, &mut inner, &Packet::Subscribe {
        packet_identifier: 1,
        filters: vec![b"sensors/+/temp".to_vec()],
    }));
    expect_reply(inbound(&b, &mut inner, &publish_packet(b"sensors/kitchen/temp", &[0x7E])));
    let (topic, payload) = received_publish(&a, &mut inner).expect("a message for A");
    assert_eq!(topic, b"sensors/kitchen/temp".to_vec());
    assert_eq!(payload, vec![0x7E]);

    // One level deeper than the filter: no subscriber, nothing enqueued.
    expect_reply(inbound(&b, &mut inner, &publish_packet(b"sensors/kitchen/temp/extra", &[0xFF])));
    assert_eq!(inner.queue_len(), 0);
    assert!(received_publish(&a, &mut inner).is_none());
}

#[test]
fn multi_level_wildcard_in_publish_order() {
    let mut inner = InnerDistributor::new();
    let a = Distributor::new(0);
    let b = Distributor::new(1);

    expect_reply(inbound(&a, &mut inner, &Packet::Subscribe {
        packet_identifier: 1,
        filters: vec![b"a/#".to_vec()],
    }));

    let mut received: Vec<Vec<u8>> = Vec::new();
    for topic in [b"a".as_slice(), b"a/b".as_slice(), b"a/b/c".as_slice()] {
        expect_reply(inbound(&b, &mut inner, &publish_packet(topic, &[1])));
        let (t, _) = received_publish(&a, &mut inner).expect("delivery");
        received.push(t);
    }
    assert_eq!(received, vec![b"a".to_vec(), b"a/b".to_vec(), b"a/b/c".to_vec()]);
}

#[test]
fn cleanup_on_disconnect() {
    let mut inner = InnerDistributor::new();
    let a = Distributor::new(0);
    let b = Distributor::new(1);

    expect_reply(inbound(&a, &mut inner, &Packet::Subscribe {
        packet_identifier: 1,
        filters: vec![b"x".to_vec()],
    }));
    expect_reply(inbound(&b, &mut inner, &publish_packet(b"x", &[9])));
    assert_eq!(inner.queue_len(), 1);

    // A's transport drops before it drains the queue.
    a.cleanup(&mut inner);
    assert_eq!(inner.queue_len(), 0);

    // The topic table no longer contains A: a new publish goes nowhere.
    expect_reply(inbound(&b, &mut inner, &publish_packet(b"x", &[10])));
    assert_eq!(inner.queue_len(), 0);
}

#[test]
fn will_fires_on_abnormal_close() {
    let mut inner = InnerDistributor::new();
    let mut a = Distributor::new(0);
    let b = Distributor::new(1);

    let connect = Packet::Connect(ConnectData {
        client_id: b"A".to_vec(),
        keep_alive: 10,
        clean_start: true,
        will: Some(WillData {
            topic: b"last".to_vec(),
            payload: b"bye".to_vec(),
            qos: 0,
            retain: false,
        }),
    });
    let will = match handshake(&connect) {
        HandshakeOutcome::Accept(Some(will)) => will,
        _ => panic!("handshake must accept the connect and carry the will"),
    };
    a.set_will(&will).unwrap();

    expect_reply(inbound(&b, &mut inner, &Packet::Subscribe {
        packet_identifier: 1,
        filters: vec![b"last".to_vec()],
    }));

    // A's transport drops: cleanup, then the will fires under a permission.
    a.cleanup(&mut inner);
    assert!(a.try_lock(&mut inner));
    a.fire_will(&mut inner);
    a.unlock(&mut inner);
    assert!(!a.has_will());

    let (topic, payload) = received_publish(&b, &mut inner).expect("B gets the will");
    assert_eq!(topic, b"last".to_vec());
    assert_eq!(payload, b"bye".to_vec());
}

#[test]
fn clean_disconnect_fires_no_will() {
    let mut inner = InnerDistributor::new();
    let a = Distributor::new(0);
    match inbound(&a, &mut inner, &Packet::Disconnect { reason: 0 }) {
        SocketAction::Close => {}
        _ => panic!("a DISCONNECT closes cleanly"),
    }
}

#[test]
fn publish_lock_back_pressure() {
    // With a queue of one slot, only one publisher proceeds at a time.
    let mut inner = InnerDistributor::new();
    let a = Distributor::new(0);
    let b = Distributor::new(1);
    let c = Distributor::new(2);

    expect_reply(inbound(&c, &mut inner, &Packet::Subscribe {
        packet_identifier: 1,
        filters: vec![b"t".to_vec()],
    }));

    assert!(a.try_lock(&mut inner), "first publisher takes the slot");
    assert!(!b.try_lock(&mut inner), "second publisher must wait");

    let ack = expect_reply(handle_packet(&a, &mut inner, &publish_packet(b"t", &[1])));
    assert_eq!(ack, Packet::Puback { packet_identifier: 1, reason: 0 });
    a.unlock(&mut inner);

    // Still no room: the queued message has not been consumed.
    assert!(!b.try_lock(&mut inner));
    let _ = received_publish(&c, &mut inner).expect("C drains the queue");
    assert!(b.try_lock(&mut inner), "the slot frees up once the queue drains");
    b.unlock(&mut inner);
}

#[test]
fn subscribe_reports_failures() {
    let mut inner = InnerDistributor::new();
    let a = Distributor::new(0);
    let long = vec![b'z'; 65];
    let reply = expect_reply(inbound(&a, &mut inner, &Packet::Subscribe {
        packet_identifier: 9,
        filters: vec![b"ok/topic".to_vec(), long],
    }));
    // One failure: the over-long filter, reported as TopicFilterInvalid.
    assert_eq!(reply, Packet::Suback { packet_identifier: 9, reasons: vec![0x8F] });
}

#[test]
fn unexpected_packet_fails_the_session() {
    let mut inner = InnerDistributor::new();
    let a = Distributor::new(0);
    match inbound(&a, &mut inner, &Packet::Connack { session_present: false, reason: 0 }) {
        SocketAction::Fail(e) => assert_eq!(e, DistributorError::UnexpectedPacket),
        _ => panic!("a CONNACK from a client is a protocol error"),
    }
}

#[test]
fn handshake_rejects_non_connect() {
    match handshake(&Packet::Pingreq) {
        HandshakeOutcome::Reject => {}
        _ => panic!("only CONNECT is accepted first"),
    }
}

#[test]
fn over_long_will_is_rejected() {
    let mut a = Distributor::new(0);
    let will = PublishData {
        topic: b"last".to_vec(),
        payload: vec![0u8; 200],
        packet_identifier: None,
        qos: 0,
        retain: false,
        duplicate: false,
    };
    assert_eq!(a.set_will(&will), Err(DistributorError::MessageTooLong));
    assert!(!a.has_will());
}

#[test]
fn non_publish_message_is_not_delivered() {
    let msg = Message::from_bytes(&[0xC0, 0x00]);
    assert_eq!(deliver_bytes(&msg), Err(DistributorError::Unknown));
}

#[test]
fn message_at_the_size_limit_is_accepted() {
    let mut inner = InnerDistributor::new();
    let a = Distributor::new(0);
    let b = Distributor::new(1);
    expect_reply(inbound(&a, &mut inner, &Packet::Subscribe {
        packet_identifier: 1,
        filters: vec![b"t".to_vec()],
    }));
    // Frame layout: 1 header byte, 2 length bytes, then topic field (3),
    // property length (1) and payload: 1017 payload bytes fill 1024 exactly.
    let payload = vec![0xABu8; 1017];
    expect_reply(inbound(&b, &mut inner, &publish_packet(b"t", &payload)));
    let (_, got) = received_publish(&a, &mut inner).expect("delivery at the limit");
    assert_eq!(got, payload);
}

#[test]
fn over_long_message_fails_the_publisher() {
    let mut inner = InnerDistributor::new();
    let a = Distributor::new(0);
    let b = Distributor::new(1);
    expect_reply(inbound(&a, &mut inner, &Packet::Subscribe {
        packet_identifier: 1,
        filters: vec![b"t".to_vec()],
    }));
    let payload = vec![0xABu8; 1018];
    match inbound(&b, &mut inner, &publish_packet(b"t", &payload)) {
        SocketAction::Fail(e) => assert_eq!(e, DistributorError::MessageTooLong),
        _ => panic!("an over-long message must fail the publisher"),
    }
    assert_eq!(inner.queue_len(), 0);
}
