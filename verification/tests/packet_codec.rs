use voip::packet::{AudioPacket, Packet, PacketType};
use voip::wire::{skip_field, WireKind, RECURSION_LIMIT};

fn audio(index: u32, frame: Vec<u8>) -> Packet {
    Packet {
        packet_type: Some(PacketType::Audio(AudioPacket { index, frame })),
    }
}

#[test]
fn encodes_audio_packet_exactly() {
    let bytes = audio(1, vec![7, 8]).to_bytes().unwrap();
    assert_eq!(bytes, vec![10, 6, 8, 1, 18, 2, 7, 8]);
}

#[test]
fn encodes_empty_packet_as_nothing() {
    let bytes = Packet { packet_type: None }.to_bytes().unwrap();
    assert!(bytes.is_empty());
}

#[test]
fn encodes_default_audio_as_empty_field() {
    let bytes = audio(0, vec![]).to_bytes().unwrap();
    assert_eq!(bytes, vec![10, 0]);
}

#[test]
fn encodes_large_index_and_long_frame() {
    let frame: Vec<u8> = (0..300u32).map(|i| (i % 256) as u8).collect();
    let bytes = audio(u32::MAX, frame.clone()).to_bytes().unwrap();
    // key, body length 309 as a varint, then the body.
    assert_eq!(&bytes[..3], &[10, 0xb5, 0x02]);
    assert_eq!(&bytes[3..9], &[8, 0xff, 0xff, 0xff, 0xff, 0x0f]);
    assert_eq!(&bytes[9..12], &[18, 0xac, 0x02]);
    assert_eq!(&bytes[12..], frame.as_slice());
}

#[test]
fn roundtrips_packets() {
    let cases = vec![
        Packet { packet_type: None },
        audio(0, vec![]),
        audio(1, vec![]),
        audio(0, vec![0]),
        audio(1, vec![1, 2, 3]),
        audio(300, vec![0xff; 1000]),
        audio(u32::MAX, vec![0x80; 200]),
    ];
    for p in cases {
        let bytes = p.to_bytes().unwrap();
        assert_eq!(Packet::from_bytes(&bytes).unwrap(), p);
    }
}

#[test]
fn decodes_nothing_as_empty_packet() {
    assert_eq!(Packet::from_bytes(&[]).unwrap(), Packet { packet_type: None });
}

#[test]
fn skips_unknown_fields() {
    // field 5 varint, field 6 fixed32, field 7 fixed64, field 8 bytes,
    // field 9 a group holding a varint field, then the audio field.
    let mut bytes = vec![40, 0x96, 0x01];
    bytes.extend_from_slice(&[53, 1, 2, 3, 4]);
    bytes.extend_from_slice(&[57, 1, 2, 3, 4, 5, 6, 7, 8]);
    bytes.extend_from_slice(&[66, 2, 9, 9]);
    bytes.extend_from_slice(&[75, 8, 1, 76]);
    bytes.extend_from_slice(&[10, 6, 8, 1, 18, 2, 7, 8]);
    assert_eq!(Packet::from_bytes(&bytes).unwrap(), audio(1, vec![7, 8]));
}

#[test]
fn skips_unknown_fields_inside_audio() {
    // the audio body holds field 3 (varint) before its known fields.
    let bytes = vec![10, 8, 24, 5, 8, 1, 18, 2, 7, 8];
    assert_eq!(Packet::from_bytes(&bytes).unwrap(), audio(1, vec![7, 8]));
}

#[test]
fn later_fields_replace_earlier_ones() {
    let bytes = vec![10, 10, 8, 1, 18, 1, 5, 8, 2, 18, 1, 6];
    assert_eq!(Packet::from_bytes(&bytes).unwrap(), audio(2, vec![6]));
}

#[test]
fn repeated_audio_fields_merge() {
    // first audio: index 3, frame [1]; second: frame [2] only.
    let bytes = vec![10, 5, 8, 3, 18, 1, 1, 10, 3, 18, 1, 2];
    assert_eq!(Packet::from_bytes(&bytes).unwrap(), audio(3, vec![2]));
}

#[test]
fn index_keeps_low_32_bits() {
    // varint 2^32 + 5
    let bytes = vec![10, 6, 8, 0x85, 0x80, 0x80, 0x80, 0x10];
    assert_eq!(Packet::from_bytes(&bytes).unwrap(), audio(5, vec![]));
}

#[test]
fn rejects_malformed_packets() {
    let bad: Vec<Vec<u8>> = vec![
        vec![10],                      // length missing
        vec![10, 5, 8],                // body shorter than its length
        vec![8, 1],                    // field 1 with the varint wire type
        vec![10, 2, 16, 1],            // frame field given as a varint
        vec![10, 2, 18, 5],            // frame longer than the body
        vec![0, 1],                    // field number 0
        vec![14],                      // wire type 6
        vec![15],                      // wire type 7
        vec![44],                      // end of a group that never started
        vec![43, 8, 1],                // group never ended
        vec![43, 52],                  // group ended with another field number
        vec![0x80],                    // varint cut short
        vec![40, 0xff, 0xff, 0xff, 0xff, 0xff, 0xff, 0xff, 0xff, 0xff, 0x02], // varint past 64 bits
        vec![0x80, 0x80, 0x80, 0x80, 0x80, 0x10], // key past 32 bits
        vec![53, 1, 2],                // fixed32 cut short
        vec![57, 1, 2, 3],             // fixed64 cut short
        vec![66, 3, 1],                // bytes cut short
    ];
    for b in bad {
        assert!(Packet::from_bytes(&b).is_err(), "accepted {:?}", b);
    }
}

fn nested_groups(n: usize) -> Vec<u8> {
    let mut bytes = vec![43u8; n];
    bytes.extend(std::iter::repeat(44u8).take(n));
    bytes
}

#[test]
fn nesting_of_groups_is_limited() {
    assert!(Packet::from_bytes(&nested_groups(100)).is_ok());
    assert!(Packet::from_bytes(&nested_groups(101)).is_err());
}

#[test]
fn skip_field_agrees_with_prost() {
    let inputs: Vec<(WireKind, prost::encoding::WireType, u32, Vec<u8>)> = vec![
        (WireKind::Varint, prost::encoding::WireType::Varint, 1, vec![0x96, 0x01, 7]),
        (WireKind::ThirtyTwoBit, prost::encoding::WireType::ThirtyTwoBit, 1, vec![1, 2, 3, 4, 5]),
        (WireKind::SixtyFourBit, prost::encoding::WireType::SixtyFourBit, 1, vec![1, 2, 3]),
        (WireKind::LengthDelimited, prost::encoding::WireType::LengthDelimited, 1, vec![2, 1, 2, 3]),
        (WireKind::StartGroup, prost::encoding::WireType::StartGroup, 5, vec![8, 1, 44, 9]),
        (WireKind::StartGroup, prost::encoding::WireType::StartGroup, 5, vec![8, 1]),
        (WireKind::EndGroup, prost::encoding::WireType::EndGroup, 5, vec![1]),
    ];
    for (kind, wire_type, tag, bytes) in inputs {
        let ours = skip_field(kind, tag, &bytes, RECURSION_LIMIT);
        let mut theirs = bytes.as_slice();
        let res = prost::encoding::skip_field(wire_type, tag, &mut theirs, Default::default());
        match ours {
            Ok(rest) => {
                assert!(res.is_ok());
                assert_eq!(rest, theirs);
            }
            Err(_) => assert!(res.is_err()),
        }
    }
}

#[test]
fn varint_encoding_agrees_with_prost() {
    for v in [0u32, 1, 127, 128, 300, 16383, 16384, u32::MAX] {
        let p = audio(v, vec![]);
        let bytes = p.to_bytes().unwrap();
        let mut expected = Vec::new();
        prost::encoding::uint32::encode(1, &v, &mut expected);
        if v == 0 {
            expected.clear();
        }
        assert_eq!(&bytes[2..], expected.as_slice());
    }
}

#[test]
fn concatenated_packets_merge() {
    let first = audio(7, vec![1, 2, 3]);
    let second = audio(0, vec![9]);
    let mut bytes = first.to_bytes().unwrap();
    bytes.extend(second.to_bytes().unwrap());
    assert_eq!(Packet::from_bytes(&bytes).unwrap(), audio(7, vec![9]));

    let mut bytes = first.to_bytes().unwrap();
    bytes.extend(Packet { packet_type: None }.to_bytes().unwrap());
    assert_eq!(Packet::from_bytes(&bytes).unwrap(), first);

    let mut bytes = Packet { packet_type: None }.to_bytes().unwrap();
    bytes.extend(second.to_bytes().unwrap());
    assert_eq!(Packet::from_bytes(&bytes).unwrap(), second);
}

#[test]
fn encoded_len_counts_every_byte() {
    assert_eq!(Packet { packet_type: None }.encoded_len(), Some(0));
    assert_eq!(audio(0, vec![]).encoded_len(), Some(2));
    assert_eq!(audio(1, vec![7, 8]).encoded_len(), Some(8));
    assert_eq!(audio(u32::MAX, vec![0; 300]).encoded_len(), Some(3 + 309));
}

#[test]
fn defaults_carry_nothing() {
    assert_eq!(Packet::default(), Packet { packet_type: None });
    assert_eq!(AudioPacket::default(), AudioPacket { index: 0, frame: vec![] });
    assert_eq!(audio(0, vec![]).to_bytes().unwrap(), vec![10, 0]);
}
