use mqtt_server::packet_reader::PacketReader;
use mqtt_server::packet_reader::ProtocolError;

#[test]
fn dont_panic_on_bad_data() {
    let buffer: Vec<u8> = vec![0x20, 0x99, 0x00, 0x00];
    let mut packet_reader = PacketReader::new(buffer);
    packet_reader.commit(4);
    packet_reader
        .receive_buffer()
        .expect_err("parsed packet with invalid length");
}

#[test]
fn reads_one_packet() {
    // A CONNACK frame followed by free buffer space.
    let mut buffer: Vec<u8> = vec![0x20, 0x03, 0x00, 0x00, 0x00];
    buffer.resize(16, 0);
    let mut reader = PacketReader::new(buffer);
    assert!(!reader.packet_available());
    reader.commit(2);
    let (start, end) = reader.receive_buffer().expect("a well-formed header");
    assert_eq!((start, end), (2, 5));
    reader.commit(3);
    assert!(reader.packet_available());
    let packet = reader.received_packet().expect("a whole packet");
    assert_eq!(packet, vec![0x20, 0x03, 0x00, 0x00, 0x00]);
    assert!(!reader.packet_available());
}

#[test]
fn received_packet_needs_a_probe() {
    let mut reader = PacketReader::new(vec![0; 8]);
    assert_eq!(reader.received_packet(), Err(ProtocolError::MalformedPacket));
}
