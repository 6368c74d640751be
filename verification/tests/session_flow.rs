use voip::packet::{AudioPacket, Packet, PacketType};
use voip::session::{audio_datagram, classify_datagram, relay_check, Incoming, SENT_INDEX};

#[test]
fn sent_frame_is_relayed_and_received() {
    let frame = vec![0xfc, 0xff, 0xfe, 1, 2, 3];
    let datagram = audio_datagram(frame.clone()).unwrap();
    assert!(relay_check(&datagram).is_ok());
    match classify_datagram(&datagram) {
        Incoming::Audio(f) => assert_eq!(f, frame),
        _ => panic!("audio frame expected"),
    }
}

#[test]
fn outgoing_datagram_carries_index_one() {
    let datagram = audio_datagram(vec![9]).unwrap();
    let packet = Packet::from_bytes(&datagram).unwrap();
    assert_eq!(
        packet,
        Packet {
            packet_type: Some(PacketType::Audio(AudioPacket { index: SENT_INDEX, frame: vec![9] }))
        }
    );
    assert_eq!(SENT_INDEX, 1);
}

#[test]
fn empty_datagram_is_an_empty_packet() {
    assert!(matches!(classify_datagram(&[]), Incoming::Empty));
    assert!(relay_check(&[]).is_ok());
}

#[test]
fn malformed_datagram_is_reported_and_not_relayed() {
    assert!(matches!(classify_datagram(&[8, 1]), Incoming::Malformed(_)));
    assert!(relay_check(&[8, 1]).is_err());
    assert!(relay_check(&[10, 5, 1]).is_err());
}

#[test]
fn audio_with_empty_frame_is_received_as_empty_frame() {
    match classify_datagram(&[10, 0]) {
        Incoming::Audio(f) => assert!(f.is_empty()),
        _ => panic!("audio frame expected"),
    }
}
