//! What the client and the server do with the datagrams they exchange.
use vstd::prelude::*;

use crate::packet::{
    audio_packet_bytes, lemma_keys_one_byte, lemma_varint_bytes_len_bound, lemma_packet_roundtrip,
    packet_bytes, packet_decode, AudioPacket, AudioPacketModel,
    EncodeError, Packet, PacketModel, PacketType, PacketTypeModel,
};

verus! {

/// What a datagram that reached the client turned out to be.
pub enum Incoming {
    /// It does not decode as a packet.
    Malformed(prost::DecodeError),
    /// A packet that carries nothing.
    Empty,
    /// A packet that carries an encoded audio frame.
    Audio(Vec<u8>),
}

/// The index that the client puts on every audio packet it sends.
pub const SENT_INDEX: u32 = 1;

/// The packet the client sends for an encoded frame.
pub open spec fn outgoing_packet(frame: Seq<u8>) -> PacketModel {
    PacketModel {
        packet_type: Some(PacketTypeModel::Audio(AudioPacketModel { index: SENT_INDEX, frame })),
    }
}

/// Decodes a datagram that reached the client and tells what it carries.
pub fn classify_datagram(payload: &[u8]) -> (r: Incoming)
    ensures
        match packet_decode(payload@) {
            None => r is Malformed,
            Some(p) => match p.packet_type {
                None => r is Empty,
                Some(PacketTypeModel::Audio(a)) => r matches Incoming::Audio(f) && f@ == a.frame,
            },
        },
{
    match Packet::from_bytes(payload) {
        Err(e) => Incoming::Malformed(e),
        Ok(packet) => match packet.packet_type {
            None => Incoming::Empty,
            Some(PacketType::Audio(audio)) => Incoming::Audio(audio.frame),
        },
    }
}

/// The datagram the client sends for an encoded frame: it decodes to a
/// packet carrying an audio packet with index 1 and exactly that frame. It
/// is made for every frame up to the most bytes a `Vec` can hold, less the
/// few bytes of the packet around the frame.
pub fn audio_datagram(frame: Vec<u8>) -> (r: Result<Vec<u8>, EncodeError>)
    ensures
        match r {
            Ok(bytes) => bytes@ == packet_bytes(outgoing_packet(frame@)) && bytes@.len()
                <= isize::MAX,
            Err(_) => packet_bytes(outgoing_packet(frame@)).len() > isize::MAX,
        },
        r matches Ok(bytes) ==> packet_decode(bytes@) == Some(
            PacketModel {
                packet_type: Some(
                    PacketTypeModel::Audio(AudioPacketModel { index: 1, frame: frame@ }),
                ),
            },
        ),
        frame@.len() + 32 <= isize::MAX ==> r is Ok,
{
    let ghost f = frame@;
    let packet = Packet {
        packet_type: Some(PacketType::Audio(AudioPacket { index: SENT_INDEX, frame })),
    };
    let r = packet.to_bytes();
    proof {
        lemma_outgoing_len(f);
        if r is Ok {
            lemma_sent_frame_received(f);
        }
    }
    r
}

/// The datagram of a frame holds the frame and at most 32 bytes more.
proof fn lemma_outgoing_len(frame: Seq<u8>)
    ensures
        packet_bytes(outgoing_packet(frame)).len() >= frame.len(),
        frame.len() <= isize::MAX ==> packet_bytes(outgoing_packet(frame)).len() <= frame.len()
            + 32,
{
    let a = AudioPacketModel { index: SENT_INDEX, frame };
    let body = audio_packet_bytes(a);
    lemma_keys_one_byte();
    if frame.len() <= isize::MAX {
        lemma_varint_bytes_len_bound(frame.len());
        lemma_varint_bytes_len_bound(1);
        lemma_varint_bytes_len_bound(body.len());
    }
}

/// Whether the server passes a datagram on to the other clients: exactly
/// when it decodes as a packet; otherwise the decoding error, for the log.
/// The server passes on the datagram as it came.
pub fn relay_check(payload: &[u8]) -> (r: Result<(), prost::DecodeError>)
    ensures
        r is Ok <==> packet_decode(payload@) is Some,
{
    match Packet::from_bytes(payload) {
        Ok(_) => Ok(()),
        Err(e) => Err(e),
    }
}

/// A frame that a client sends reaches the other clients: the server passes
/// its datagram on, and the receiving client reads back from it an audio
/// packet with index 1 holding exactly that frame, whatever its length.
pub proof fn lemma_sent_frame_received(frame: Seq<u8>)
    requires
        frame.len() <= isize::MAX,
    ensures
        packet_decode(packet_bytes(outgoing_packet(frame))) == Some(
            PacketModel {
                packet_type: Some(
                    PacketTypeModel::Audio(AudioPacketModel { index: 1, frame: frame }),
                ),
            },
        ),
{
    lemma_packet_roundtrip(outgoing_packet(frame));
}

} // verus!
