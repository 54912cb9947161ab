use mqtt_server::codec::MqttCodec;
use mqtt_server::codec::PacketWriter;
use mqtt_server::errors::MqttCodecError;
use mqtt_server::packets::encode_packet;
use mqtt_server::packets::parse_packet;
use mqtt_server::packets::ConnectData;
use mqtt_server::packets::Packet;
use mqtt_server::packets::PublishData;
use mqtt_server::packets::WillData;

fn assert_round_trip(p: Packet) {
    let bytes = encode_packet(&p);
    let back = parse_packet(&bytes).expect("round trip parse");
    assert_eq!(back, p);
}

#[test]
fn round_trip_connect() {
    assert_round_trip(Packet::Connect(ConnectData {
        client_id: b"client-1".to_vec(),
        keep_alive: 30,
        clean_start: true,
        will: None,
    }));
    assert_round_trip(Packet::Connect(ConnectData {
        client_id: b"".to_vec(),
        keep_alive: 0,
        clean_start: false,
        will: Some(WillData {
            topic: b"last".to_vec(),
            payload: b"bye".to_vec(),
            qos: 1,
            retain: true,
        }),
    }));
}

#[test]
fn round_trip_connack() {
    assert_round_trip(Packet::Connack { session_present: false, reason: 0 });
    assert_round_trip(Packet::Connack { session_present: true, reason: 0x80 });
}

#[test]
fn round_trip_publish() {
    assert_round_trip(Packet::Publish(PublishData {
        topic: b"a/b".to_vec(),
        payload: vec![1, 2, 3],
        packet_identifier: None,
        qos: 0,
        retain: false,
        duplicate: false,
    }));
    assert_round_trip(Packet::Publish(PublishData {
        topic: b"a".to_vec(),
        payload: vec![],
        packet_identifier: Some(0x1234),
        qos: 1,
        retain: true,
        duplicate: true,
    }));
}

#[test]
fn round_trip_acks_and_pings() {
    assert_round_trip(Packet::Puback { packet_identifier: 7, reason: 0 });
    assert_round_trip(Packet::Suback { packet_identifier: 2, reasons: vec![0x8F, 0x97] });
    assert_round_trip(Packet::Unsuback { packet_identifier: 3, reasons: vec![] });
    assert_round_trip(Packet::Pingreq);
    assert_round_trip(Packet::Pingresp);
    assert_round_trip(Packet::Disconnect { reason: 0x82 });
}

#[test]
fn round_trip_subscribe() {
    assert_round_trip(Packet::Subscribe {
        packet_identifier: 10,
        filters: vec![b"a/b".to_vec(), b"sensors/+/temp".to_vec()],
    });
    assert_round_trip(Packet::Unsubscribe {
        packet_identifier: 11,
        filters: vec![b"a/#".to_vec()],
    });
}

#[test]
fn parse_rejects_garbage() {
    assert_eq!(parse_packet(&[]), Err(MqttCodecError::Invalid));
    assert_eq!(parse_packet(&[0x00, 0x00]), Err(MqttCodecError::Invalid));
    // A PUBLISH with the reserved quality-of-service value.
    assert_eq!(parse_packet(&[0x36, 0x04, 0x00, 0x01, 0x61, 0x00]), Err(MqttCodecError::Invalid));
}

#[test]
fn drip_fed_decoder_yields_one_packet() {
    let frame = encode_packet(&Packet::Publish(PublishData {
        topic: b"x/y".to_vec(),
        payload: vec![0x7E],
        packet_identifier: None,
        qos: 0,
        retain: false,
        duplicate: false,
    }));
    let mut codec: MqttCodec<1024> = MqttCodec::new();
    let mut yielded: Vec<Vec<u8>> = Vec::new();
    for (i, b) in frame.iter().enumerate() {
        assert_eq!(codec.feed(&[*b]), 1);
        match codec.next().expect("no codec error") {
            Some(out) => {
                assert_eq!(i, frame.len() - 1, "a packet before the last byte");
                yielded.push(out);
            }
            None => {
                assert!(i < frame.len() - 1, "no packet after the last byte");
            }
        }
    }
    assert_eq!(yielded.len(), 1);
    assert_eq!(yielded[0], frame);
    // The window is fully consumed: the next poll resets and asks for more.
    assert_eq!(codec.next(), Ok(None));
    assert_eq!(codec.free_space(), 1024);
}

#[test]
fn oversized_length_is_refused_without_consuming() {
    // Remaining length 2000: total 2003 exceeds the 1024-byte buffer.
    let mut codec: MqttCodec<1024> = MqttCodec::new();
    assert_eq!(codec.feed(&[0x30, 0xD0, 0x0F]), 3);
    let free = codec.free_space();
    assert_eq!(codec.next(), Err(MqttCodecError::InvalidLength));
    // No bytes were consumed past the header.
    assert_eq!(codec.free_space(), free);
    assert_eq!(codec.next(), Err(MqttCodecError::InvalidLength));
}

#[test]
fn malformed_varint_is_refused() {
    let mut codec: MqttCodec<1024> = MqttCodec::new();
    assert_eq!(codec.feed(&[0x30, 0x80, 0x80, 0x80, 0x80]), 5);
    assert_eq!(codec.next(), Err(MqttCodecError::InvalidLength));
}

#[test]
fn encoder_rejects_frames_over_its_buffer() {
    let codec: MqttCodec<16> = MqttCodec::new();
    let small = Packet::Pingresp;
    assert_eq!(codec.write(&small).unwrap(), encode_packet(&small));
    let big = Packet::Publish(PublishData {
        topic: b"t".to_vec(),
        payload: vec![0u8; 64],
        packet_identifier: None,
        qos: 0,
        retain: false,
        duplicate: false,
    });
    assert_eq!(codec.write(&big), Err(MqttCodecError::BufferTooSmall));
}

#[test]
fn packet_writer_accumulates() {
    let mut writer: PacketWriter<8> = PacketWriter::new();
    assert_eq!(writer.get_written_data(), &[]);
    writer.write_slice(&[1, 2, 3]);
    writer.write_slice(&[4]);
    assert_eq!(writer.get_written_data(), &[1, 2, 3, 4]);
    assert_eq!(writer.len(), 4);
}
