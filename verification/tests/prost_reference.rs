//! Compares the library's codec with a `prost::Message` implementation of
//! the same two messages, written out as prost's derive would generate it.
use prost::bytes::{Buf, BufMut};
use prost::encoding::{self, DecodeContext, WireType};
use prost::{DecodeError, Message};
use voip::packet::{AudioPacket, Packet, PacketType};

#[derive(Clone, Debug, Default, PartialEq)]
struct RefAudioPacket {
    index: u32,
    frame: Vec<u8>,
}

impl Message for RefAudioPacket {
    fn encode_raw(&self, buf: &mut impl BufMut) {
        if self.index != 0 {
            encoding::uint32::encode(1, &self.index, buf);
        }
        if !self.frame.is_empty() {
            encoding::bytes::encode(2, &self.frame, buf);
        }
    }

    fn merge_field(
        &mut self,
        tag: u32,
        wire_type: WireType,
        buf: &mut impl Buf,
        ctx: DecodeContext,
    ) -> Result<(), DecodeError> {
        match tag {
            1 => encoding::uint32::merge(wire_type, &mut self.index, buf, ctx).map_err(|mut e| {
                e.push("AudioPacket", "index");
                e
            }),
            2 => encoding::bytes::merge(wire_type, &mut self.frame, buf, ctx).map_err(|mut e| {
                e.push("AudioPacket", "frame");
                e
            }),
            _ => encoding::skip_field(wire_type, tag, buf, ctx),
        }
    }

    fn encoded_len(&self) -> usize {
        (if self.index != 0 { encoding::uint32::encoded_len(1, &self.index) } else { 0 })
            + (if !self.frame.is_empty() { encoding::bytes::encoded_len(2, &self.frame) } else { 0 })
    }

    fn clear(&mut self) {
        self.index = 0;
        self.frame.clear();
    }
}

#[derive(Clone, Debug, Default, PartialEq)]
struct RefPacket {
    audio: Option<RefAudioPacket>,
}

impl Message for RefPacket {
    fn encode_raw(&self, buf: &mut impl BufMut) {
        if let Some(audio) = &self.audio {
            encoding::message::encode(1, audio, buf);
        }
    }

    fn merge_field(
        &mut self,
        tag: u32,
        wire_type: WireType,
        buf: &mut impl Buf,
        ctx: DecodeContext,
    ) -> Result<(), DecodeError> {
        match tag {
            1 => match &mut self.audio {
                Some(value) => encoding::message::merge(wire_type, value, buf, ctx),
                None => {
                    let mut owned = RefAudioPacket::default();
                    encoding::message::merge(wire_type, &mut owned, buf, ctx)
                        .map(|_| self.audio = Some(owned))
                }
            }
            .map_err(|mut e| {
                e.push("Packet", "packet_type");
                e
            }),
            _ => encoding::skip_field(wire_type, tag, buf, ctx),
        }
    }

    fn encoded_len(&self) -> usize {
        match &self.audio {
            Some(audio) => encoding::message::encoded_len(1, audio),
            None => 0,
        }
    }

    fn clear(&mut self) {
        self.audio = None;
    }
}

fn to_ref(p: &Packet) -> RefPacket {
    RefPacket {
        audio: p.packet_type.as_ref().map(|t| match t {
            PacketType::Audio(a) => RefAudioPacket { index: a.index, frame: a.frame.clone() },
        }),
    }
}

/// A small deterministic generator of test bytes.
struct Lcg(u64);

impl Lcg {
    fn next(&mut self) -> u64 {
        self.0 = self.0.wrapping_mul(6364136223846793005).wrapping_add(1442695040888963407);
        self.0 >> 33
    }
}

fn sample_packets() -> Vec<Packet> {
    let mut out = vec![Packet { packet_type: None }];
    let mut g = Lcg(7);
    for i in 0..60u32 {
        let len = (g.next() % 200) as usize;
        let frame: Vec<u8> = (0..len).map(|_| g.next() as u8).collect();
        let index = match i % 4 {
            0 => 0,
            1 => 1,
            2 => g.next() as u32,
            _ => u32::MAX,
        };
        out.push(Packet {
            packet_type: Some(PacketType::Audio(AudioPacket { index, frame })),
        });
    }
    out
}

#[test]
fn encoding_matches_reference() {
    for p in sample_packets() {
        let ours = p.to_bytes().unwrap();
        let theirs = to_ref(&p).encode_to_vec();
        assert_eq!(ours, theirs);
        assert_eq!(p.encoded_len(), Some(theirs.len()));
    }
}

fn compare(bytes: &[u8]) {
    let ours = Packet::from_bytes(bytes);
    let theirs = RefPacket::decode(bytes);
    match (ours, theirs) {
        (Ok(p), Ok(r)) => assert_eq!(to_ref(&p), r, "bytes {:?}", bytes),
        (Err(a), Err(b)) => assert_eq!(a.to_string(), b.to_string(), "bytes {:?}", bytes),
        (o, t) => panic!("disagree on {:?}: {:?} / {:?}", bytes, o.is_ok(), t.is_ok()),
    }
}

#[test]
fn decoding_matches_reference_on_mutated_encodings() {
    let mut g = Lcg(11);
    for p in sample_packets() {
        let bytes = p.to_bytes().unwrap();
        compare(&bytes);
        for _ in 0..20 {
            let mut m = bytes.clone();
            if m.is_empty() {
                m.push(g.next() as u8);
            }
            match g.next() % 4 {
                0 => {
                    let i = (g.next() as usize) % m.len();
                    m[i] = g.next() as u8;
                }
                1 => {
                    let n = (g.next() as usize) % (m.len() + 1);
                    m.truncate(n);
                }
                2 => {
                    let i = (g.next() as usize) % (m.len() + 1);
                    m.insert(i, g.next() as u8);
                }
                _ => {
                    let extra = to_ref(&p).encode_to_vec();
                    m.extend_from_slice(&extra);
                }
            }
            compare(&m);
        }
    }
}

#[test]
fn decoding_matches_reference_on_random_bytes() {
    let mut g = Lcg(3);
    for _ in 0..3000 {
        let len = (g.next() % 24) as usize;
        let bytes: Vec<u8> = (0..len)
            .map(|_| {
                let b = g.next() as u8;
                // favour small keys and lengths so that more inputs decode
                if g.next() % 2 == 0 { b % 64 } else { b }
            })
            .collect();
        compare(&bytes);
    }
}

#[test]
fn decoding_matches_reference_on_groups() {
    let cases: Vec<Vec<u8>> = vec![
        vec![43, 44],
        vec![43, 43, 44, 44],
        vec![43, 51, 52, 44, 10, 0],
        vec![10, 4, 43, 8, 1, 44],
        vec![10, 2, 43, 44, 8, 3],
        vec![43, 45, 1, 2, 3, 4, 44],
    ];
    for c in cases {
        compare(&c);
    }
    for n in [98usize, 99, 100, 101] {
        let mut top = vec![43u8; n];
        top.extend(std::iter::repeat(44u8).take(n));
        compare(&top);
        let mut inner = vec![43u8; n];
        inner.extend(std::iter::repeat(44u8).take(n));
        let mut nested = vec![10u8];
        let mut len_buf = Vec::new();
        encoding::encode_varint(inner.len() as u64, &mut len_buf);
        nested.extend(len_buf);
        nested.extend(inner);
        compare(&nested);
    }
}
