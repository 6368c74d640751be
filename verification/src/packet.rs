//! The messages that clients and the server exchange as datagrams, and their
//! protobuf encoding:
//!
//! ```text
//! message AudioPacket { uint32 index = 1; bytes frame = 2; }
//! message Packet { oneof packet_type { AudioPacket audio = 1; } }
//! ```
use vstd::prelude::*;

use crate::varint::{lemma_varint_limit_10, lemma_varint_parse_bytes, varint_bytes};
use crate::wire::{
    bytes_take, decode_error, key_bytes, key_take, lemma_key_take_shrinks,
    lemma_skip_value_suffix, lemma_varint_take_shrinks, put_bytes_field, put_key, put_uint32_field,
    put_varint, skip_field, skip_value, take_bytes_field, take_key, take_uint32_field, take_varint,
    uint32_take, varint_len, varint_take, check_length_delimited, is_suffix, lemma_suffix_trans,
    push_context, WireKind, RECURSION_LIMIT,
};

verus! {

/// One encoded audio frame, with its index.
#[derive(Clone, Debug, PartialEq, Eq)]
pub struct AudioPacket {
    pub index: u32,
    pub frame: Vec<u8>,
}

/// The payload a packet carries.
#[derive(Clone, Debug, PartialEq, Eq)]
pub enum PacketType {
    Audio(AudioPacket),
}

/// A datagram of the protocol.
#[derive(Clone, Debug, PartialEq, Eq)]
pub struct Packet {
    pub packet_type: Option<PacketType>,
}

/// What an `AudioPacket` holds.
pub struct AudioPacketModel {
    pub index: u32,
    pub frame: Seq<u8>,
}

/// What a `PacketType` holds.
pub enum PacketTypeModel {
    Audio(AudioPacketModel),
}

/// What a `Packet` holds.
pub struct PacketModel {
    pub packet_type: Option<PacketTypeModel>,
}

impl View for AudioPacket {
    type V = AudioPacketModel;

    open spec fn view(&self) -> AudioPacketModel {
        AudioPacketModel { index: self.index, frame: self.frame@ }
    }
}

impl View for PacketType {
    type V = PacketTypeModel;

    open spec fn view(&self) -> PacketTypeModel {
        match self {
            PacketType::Audio(a) => PacketTypeModel::Audio(a@),
        }
    }
}

impl View for Packet {
    type V = PacketModel;

    open spec fn view(&self) -> PacketModel {
        PacketModel {
            packet_type: match self.packet_type {
                Some(t) => Some(t@),
                None => None,
            },
        }
    }
}

/// The audio packet whose fields all hold their default values.
pub open spec fn empty_audio() -> AudioPacketModel {
    AudioPacketModel { index: 0, frame: Seq::empty() }
}

/// The packet that carries nothing.
pub open spec fn empty_packet() -> PacketModel {
    PacketModel { packet_type: None }
}

impl Default for AudioPacket {
    /// The audio packet whose fields hold their default values.
    fn default() -> (a: AudioPacket)
        ensures
            a@ == empty_audio(),
    {
        AudioPacket { index: 0, frame: Vec::new() }
    }
}

impl Default for Packet {
    /// The packet that carries nothing.
    fn default() -> (p: Packet)
        ensures
            p@ == empty_packet(),
    {
        Packet { packet_type: None }
    }
}

// ---------------------------------------------------------------------------
// Encoding.
/// The encoding of an audio packet: each field that does not hold its default
/// value, in field order.
pub open spec fn audio_packet_bytes(a: AudioPacketModel) -> Seq<u8> {
    (if a.index != 0 {
        key_bytes(1, WireKind::Varint) + varint_bytes(a.index as nat)
    } else {
        Seq::empty()
    }) + (if a.frame.len() != 0 {
        key_bytes(2, WireKind::LengthDelimited) + varint_bytes(a.frame.len()) + a.frame
    } else {
        Seq::empty()
    })
}

/// The encoding of a packet: nothing when it carries nothing, else field 1
/// holding the encoding of its audio packet, behind that encoding's length.
pub open spec fn packet_bytes(p: PacketModel) -> Seq<u8> {
    match p.packet_type {
        None => Seq::empty(),
        Some(PacketTypeModel::Audio(a)) => key_bytes(1, WireKind::LengthDelimited) + varint_bytes(
            audio_packet_bytes(a).len(),
        ) + audio_packet_bytes(a),
    }
}

/// The error of an encoding that needs more room than a buffer has left.
#[derive(Clone, Copy, Debug, PartialEq, Eq)]
pub struct EncodeError {
    required: usize,
    remaining: usize,
}

impl EncodeError {
    pub closed spec fn spec_required(self) -> usize {
        self.required
    }

    pub closed spec fn spec_remaining(self) -> usize {
        self.remaining
    }

    /// The number of bytes the encoding needed.
    pub fn required_capacity(&self) -> (n: usize)
        ensures
            n == self.spec_required(),
    {
        self.required
    }

    /// The number of bytes the buffer had room for.
    pub fn remaining(&self) -> (n: usize)
        ensures
            n == self.spec_remaining(),
    {
        self.remaining
    }
}

/// `n`, or the largest `usize` where `n` passes it.
pub open spec fn clamp_usize(n: nat) -> usize {
    if n > usize::MAX {
        usize::MAX
    } else {
        n as usize
    }
}

/// The number of bytes of `a`'s encoding.
fn audio_encoded_len(a: &AudioPacket) -> (n: u128)
    ensures
        n == audio_packet_bytes(a@).len(),
{
    let mut n: u128 = 0;
    if a.index != 0 {
        n = 1 + varint_len(a.index as u64) as u128;
    }
    if a.frame.len() != 0 {
        n = n + 1 + varint_len(a.frame.len() as u64) as u128 + a.frame.len() as u128;
    }
    proof {
        lemma_keys_one_byte();
    }
    n
}

/// Appends the encoding of `a` to `buf`.
fn audio_encode_raw(a: &AudioPacket, buf: &mut Vec<u8>)
    ensures
        final(buf)@ == old(buf)@ + audio_packet_bytes(a@),
{
    if a.index != 0 {
        put_uint32_field(1, a.index, buf);
    }
    if a.frame.len() != 0 {
        put_bytes_field(2, &a.frame, buf);
    }
    assert(final(buf)@ =~= old(buf)@ + audio_packet_bytes(a@));
}

impl Packet {
    /// The number of bytes of the packet's encoding, where that fits in a
    /// `usize`.
    pub fn encoded_len(&self) -> (n: Option<usize>)
        ensures
            match n {
                Some(k) => k == packet_bytes(self@).len(),
                None => packet_bytes(self@).len() > usize::MAX,
            },
    {
        match &self.packet_type {
            None => Some(0),
            Some(PacketType::Audio(a)) => {
                let body = audio_encoded_len(a);
                proof {
                    lemma_keys_one_byte();
                    crate::varint::lemma_varint_bytes_len(body as nat);
                }
                if body >= 0x1_0000_0000_0000_0000 {
                    return None;
                }
                proof {
                    lemma_varint_bytes_len_bound(body as nat);
                }
                let total = 1 + varint_len(body as u64) as u128 + body;
                if total > usize::MAX as u128 {
                    None
                } else {
                    Some(total as usize)
                }
            },
        }
    }

    /// Encodes the packet. Fails, as prost does for a `Vec` buffer, where the
    /// encoding would pass the most bytes a `Vec<u8>` can hold.
    pub fn to_bytes(&self) -> (r: Result<Vec<u8>, EncodeError>)
        ensures
            match r {
                Ok(bytes) => bytes@ == packet_bytes(self@) && bytes@.len() <= isize::MAX,
                Err(e) => packet_bytes(self@).len() > isize::MAX && e.spec_remaining()
                    == isize::MAX as usize && e.spec_required() == clamp_usize(
                    packet_bytes(self@).len(),
                ),
            },
    {
        let required = match self.encoded_len() {
            Some(n) => n,
            None => {
                return Err(EncodeError { required: usize::MAX, remaining: isize::MAX as usize });
            },
        };
        if required > isize::MAX as usize {
            return Err(EncodeError { required, remaining: isize::MAX as usize });
        }
        let mut buf: Vec<u8> = Vec::new();
        match &self.packet_type {
            None => {
                assert(buf@ =~= packet_bytes(self@));
            },
            Some(PacketType::Audio(a)) => {
                let body = audio_encoded_len(a);
                proof {
                    lemma_keys_one_byte();
                }
                put_key(1, WireKind::LengthDelimited, &mut buf);
                put_varint(body as u64, &mut buf);
                audio_encode_raw(a, &mut buf);
                assert(buf@ =~= packet_bytes(self@));
            },
        }
        Ok(buf)
    }

    /// Decodes a packet, as prost's generated decoder does: fields may come in
    /// any order and more than once, later values replace earlier ones, an
    /// audio field merges into the audio packet already read, and fields of
    /// unknown number are skipped. A failure inside the audio field names
    /// that field, and one inside a field of the audio packet names that
    /// field too.
    pub fn from_bytes(data: &[u8]) -> (r: Result<Packet, prost::DecodeError>)
        ensures
            match packet_decode(data@) {
                Some(p) => r matches Ok(q) && q@ == p,
                None => r is Err,
            },
    {
        let mut cur = data;
        let mut packet = Packet::default();
        while cur.len() > 0
            invariant
                merge_packet_fields(cur@, packet@) == packet_decode(data@),
            decreases cur@.len(),
        {
            let ghost before = cur@;
            let (tag, wire, rest) = take_key(cur)?;
            proof {
                lemma_key_take_shrinks(before);
            }
            if tag == 1 {
                let base = match packet.packet_type {
                    Some(PacketType::Audio(a)) => a,
                    None => AudioPacket::default(),
                };
                match merge_audio_message(wire, rest, base) {
                    Ok((audio, after)) => {
                        proof {
                            lemma_audio_message_suffix(wire, rest@, base@);
                        }
                        packet = Packet { packet_type: Some(PacketType::Audio(audio)) };
                        cur = after;
                    },
                    Err(e) => {
                        let mut e = e;
                        push_context(&mut e, "Packet", "packet_type");
                        return Err(e);
                    },
                }
            } else {
                let after = skip_field(wire, tag, rest, RECURSION_LIMIT)?;
                proof {
                    lemma_skip_value_suffix(wire, tag, rest@, RECURSION_LIMIT as nat);
                }
                cur = after;
            }
        }
        Ok(packet)
    }
}

/// Reads an audio packet held in a length-delimited field of wire type
/// `wire` from the front of `buf` into `init`, and gives it with what follows
/// the field.
fn merge_audio_message<'a>(wire: WireKind, buf: &'a [u8], init: AudioPacket) -> (r: Result<
    (AudioPacket, &'a [u8]),
    prost::DecodeError,
>)
    ensures
        match audio_message_take(wire, buf@, init@) {
            Some((a, rest)) => r matches Ok((b, after)) && b@ == a && after@ == rest,
            None => r is Err,
        },
{
    check_length_delimited(wire)?;
    let (len, after) = take_varint(buf)?;
    if len > after.len() as u64 {
        return Err(decode_error("buffer underflow"));
    }
    let limit = after.len() - len as usize;
    let depth = RECURSION_LIMIT - 1;
    let mut cur = after;
    let mut acc = init;
    while cur.len() > limit
        invariant
            depth == RECURSION_LIMIT - 1,
            wire == WireKind::LengthDelimited,
            varint_take(buf@) == Some((len as nat, after@)),
            len <= after@.len(),
            limit == after@.len() - len,
            merge_audio_until(cur@, limit as nat, acc@, depth as nat) == merge_audio_until(
                after@,
                limit as nat,
                init@,
                depth as nat,
            ),
        decreases cur@.len(),
    {
        let ghost before = cur@;
        let (tag, field_wire, rest) = take_key(cur)?;
        proof {
            lemma_key_take_shrinks(before);
            lemma_varint_take_shrinks(rest@);
        }
        if tag == 1 {
            match take_uint32_field(field_wire, rest) {
                Ok((index, after_field)) => {
                    acc.index = index;
                    cur = after_field;
                },
                Err(e) => {
                    let mut e = e;
                    push_context(&mut e, "AudioPacket", "index");
                    return Err(e);
                },
            }
        } else if tag == 2 {
            match take_bytes_field(field_wire, rest) {
                Ok((frame, after_field)) => {
                    acc.frame = frame;
                    cur = after_field;
                },
                Err(e) => {
                    let mut e = e;
                    push_context(&mut e, "AudioPacket", "frame");
                    return Err(e);
                },
            }
        } else {
            let after_field = skip_field(field_wire, tag, rest, depth)?;
            proof {
                lemma_skip_value_suffix(field_wire, tag, rest@, depth as nat);
            }
            cur = after_field;
        }
    }
    if cur.len() != limit {
        return Err(decode_error("delimited length exceeded"));
    }
    Ok((acc, cur))
}

// ---------------------------------------------------------------------------
// Decoding.
/// Reads the fields of an audio packet from the front of `s` into `acc`
/// until no more than `limit` bytes are left, and gives what is left; `depth`
/// is how many groups an unknown field may still nest.
pub open spec fn merge_audio_until(s: Seq<u8>, limit: nat, acc: AudioPacketModel, depth: nat) -> Option<
    (AudioPacketModel, Seq<u8>),
>
    decreases s.len(),
{
    if s.len() <= limit {
        Some((acc, s))
    } else {
        match key_take(s) {
            None => None,
            Some((tag, wire, rest)) => {
                proof {
                    lemma_key_take_shrinks(s);
                    lemma_varint_take_shrinks(rest);
                    lemma_skip_value_suffix(wire, tag, rest, depth);
                }
                if tag == 1 {
                    match uint32_take(wire, rest) {
                        Some((v, after)) => merge_audio_until(
                            after,
                            limit,
                            AudioPacketModel { index: v, frame: acc.frame },
                            depth,
                        ),
                        None => None,
                    }
                } else if tag == 2 {
                    match bytes_take(wire, rest) {
                        Some((v, after)) => merge_audio_until(
                            after,
                            limit,
                            AudioPacketModel { index: acc.index, frame: v },
                            depth,
                        ),
                        None => None,
                    }
                } else {
                    match skip_value(wire, tag, rest, depth) {
                        Some(after) => merge_audio_until(after, limit, acc, depth),
                        None => None,
                    }
                }
            },
        }
    }
}

/// An audio packet held in a length-delimited field of wire type `wire`,
/// read from the front of `s` into `base`, with what follows the field: the
/// length must fit in what follows it, and the fields read must end exactly
/// where the length says.
pub open spec fn audio_message_take(wire: WireKind, s: Seq<u8>, base: AudioPacketModel) -> Option<
    (AudioPacketModel, Seq<u8>),
> {
    if wire != WireKind::LengthDelimited {
        None
    } else {
        match varint_take(s) {
            Some((len, after)) => if len > after.len() {
                None
            } else {
                let limit = (after.len() - len) as nat;
                match merge_audio_until(after, limit, base, (RECURSION_LIMIT - 1) as nat) {
                    Some((a, rest)) => if rest.len() == limit {
                        Some((a, rest))
                    } else {
                        None
                    },
                    None => None,
                }
            },
            None => None,
        }
    }
}

/// What is left after reading an audio packet's fields is a suffix of what
/// they were read from.
pub proof fn lemma_merge_audio_until_suffix(s: Seq<u8>, limit: nat, acc: AudioPacketModel, depth: nat)
    ensures
        merge_audio_until(s, limit, acc, depth) matches Some((_, rest)) ==> is_suffix(rest, s),
    decreases s.len(),
{
    if s.len() <= limit {
        assert(s =~= s.skip(0));
    } else if let Some((tag, wire, rest)) = key_take(s) {
        lemma_key_take_shrinks(s);
        lemma_varint_take_shrinks(rest);
        lemma_skip_value_suffix(wire, tag, rest, depth);
        let next: Option<(AudioPacketModel, Seq<u8>)> = if tag == 1 {
            match uint32_take(wire, rest) {
                Some((v, after)) => Some((AudioPacketModel { index: v, frame: acc.frame }, after)),
                None => None,
            }
        } else if tag == 2 {
            match bytes_take(wire, rest) {
                Some((v, after)) => Some((AudioPacketModel { index: acc.index, frame: v }, after)),
                None => None,
            }
        } else {
            match skip_value(wire, tag, rest, depth) {
                Some(after) => Some((acc, after)),
                None => None,
            }
        };
        if let Some((acc2, after)) = next {
            if tag == 2 {
                if let Some((len, r2)) = varint_take(rest) {
                    assert(after =~= r2.skip(len as int));
                    assert(after =~= r2.skip(r2.len() - after.len()));
                    lemma_suffix_trans(after, r2, rest);
                }
            }
            lemma_suffix_trans(after, rest, s);
            lemma_merge_audio_until_suffix(after, limit, acc2, depth);
            if let Some((_, r)) = merge_audio_until(after, limit, acc2, depth) {
                lemma_suffix_trans(r, after, s);
            }
        }
    }
}

/// What follows an audio field is shorter than what it was read from.
pub proof fn lemma_audio_message_suffix(wire: WireKind, s: Seq<u8>, base: AudioPacketModel)
    ensures
        audio_message_take(wire, s, base) matches Some((_, rest)) ==> rest.len() < s.len(),
{
    lemma_varint_take_shrinks(s);
    if let Some((len, after)) = varint_take(s) {
        if len <= after.len() {
            lemma_merge_audio_until_suffix(
                after,
                (after.len() - len) as nat,
                base,
                (RECURSION_LIMIT - 1) as nat,
            );
        }
    }
}

/// Reads the fields of a packet from `s` into `acc`.
pub open spec fn merge_packet_fields(s: Seq<u8>, acc: PacketModel) -> Option<PacketModel>
    decreases s.len(),
{
    if s.len() == 0 {
        Some(acc)
    } else {
        match key_take(s) {
            None => None,
            Some((tag, wire, rest)) => {
                proof {
                    lemma_key_take_shrinks(s);
                    lemma_skip_value_suffix(wire, tag, rest, RECURSION_LIMIT as nat);
                }
                if tag == 1 {
                    let base = match acc.packet_type {
                        Some(PacketTypeModel::Audio(a)) => a,
                        None => empty_audio(),
                    };
                    proof {
                        lemma_audio_message_suffix(wire, rest, base);
                    }
                    match audio_message_take(wire, rest, base) {
                        Some((a, after)) => merge_packet_fields(
                            after,
                            PacketModel { packet_type: Some(PacketTypeModel::Audio(a)) },
                        ),
                        None => None,
                    }
                } else {
                    match skip_value(wire, tag, rest, RECURSION_LIMIT as nat) {
                        Some(after) => merge_packet_fields(after, acc),
                        None => None,
                    }
                }
            },
        }
    }
}

/// The packet that `s` decodes to, if it decodes.
pub open spec fn packet_decode(s: Seq<u8>) -> Option<PacketModel> {
    merge_packet_fields(s, empty_packet())
}

/// A varint of a value under 2^64 takes at most ten bytes.
pub proof fn lemma_varint_bytes_len_bound(v: nat)
    requires
        v < 0x1_0000_0000_0000_0000,
    ensures
        varint_bytes(v).len() <= 10,
{
    lemma_varint_limit_10();
    lemma_varint_parse_bytes(v, Seq::empty(), 10);
    crate::varint::lemma_varint_parse_bounds(varint_bytes(v) + Seq::empty(), 10);
    assert(varint_bytes(v) + Seq::<u8>::empty() =~= varint_bytes(v));
}

// ---------------------------------------------------------------------------
// Laws.
/// A varint under 2^64 reads back from its bytes, whatever follows them.
pub proof fn lemma_varint_take_bytes(v: nat, rest: Seq<u8>)
    requires
        v < 0x1_0000_0000_0000_0000,
    ensures
        varint_take(varint_bytes(v) + rest) == Some((v, rest)),
{
    lemma_varint_limit_10();
    lemma_varint_parse_bytes(v, rest, 10);
    let s = varint_bytes(v) + rest;
    assert(s.skip(varint_bytes(v).len() as int) =~= rest);
}

/// A key reads back from its bytes, whatever follows them.
pub proof fn lemma_key_take_bytes(tag: nat, wire: WireKind, rest: Seq<u8>)
    requires
        1 <= tag <= crate::wire::MAX_TAG,
    ensures
        key_take(key_bytes(tag, wire) + rest) == Some((tag as u32, wire, rest)),
{
    let k = tag * 8 + wire.code();
    lemma_varint_take_bytes(k, rest);
    assert(k % 8 == wire.code());
    assert(k / 8 == tag);
}

/// The keys of the two messages each take one byte.
pub proof fn lemma_keys_one_byte()
    ensures
        key_bytes(1, WireKind::Varint) == seq![8u8],
        key_bytes(2, WireKind::LengthDelimited) == seq![18u8],
        key_bytes(1, WireKind::LengthDelimited) == seq![10u8],
{
    assert(key_bytes(1, WireKind::Varint) =~= seq![8u8]);
    assert(key_bytes(2, WireKind::LengthDelimited) =~= seq![18u8]);
    assert(key_bytes(1, WireKind::LengthDelimited) =~= seq![10u8]);
}

/// `b` read on top of `base`: each field of `b` at its default value keeps
/// the one of `base`.
pub open spec fn merge_audio(base: AudioPacketModel, b: AudioPacketModel) -> AudioPacketModel {
    AudioPacketModel {
        index: if b.index != 0 {
            b.index
        } else {
            base.index
        },
        frame: if b.frame.len() != 0 {
            b.frame
        } else {
            base.frame
        },
    }
}

/// Reading the encoding of `a` into `base`, whatever follows it, merges `a`
/// into `base` and stops where the encoding ends.
pub proof fn lemma_audio_roundtrip(
    a: AudioPacketModel,
    base: AudioPacketModel,
    tail: Seq<u8>,
    depth: nat,
)
    requires
        a.frame.len() <= isize::MAX,
    ensures
        merge_audio_until(audio_packet_bytes(a) + tail, tail.len(), base, depth) == Some(
            (merge_audio(base, a), tail),
        ),
{
    lemma_keys_one_byte();
    let f2: Seq<u8> = if a.frame.len() != 0 {
        key_bytes(2, WireKind::LengthDelimited) + varint_bytes(a.frame.len()) + a.frame
    } else {
        Seq::empty()
    };
    let mid = AudioPacketModel {
        index: if a.index != 0 {
            a.index
        } else {
            base.index
        },
        frame: base.frame,
    };
    // The frame field, read into `mid`.
    if a.frame.len() != 0 {
        let after_key = varint_bytes(a.frame.len()) + (a.frame + tail);
        assert(f2 + tail =~= key_bytes(2, WireKind::LengthDelimited) + after_key);
        lemma_key_take_bytes(2, WireKind::LengthDelimited, after_key);
        lemma_varint_bytes_len_bound(a.frame.len());
        lemma_varint_take_bytes(a.frame.len(), a.frame + tail);
        assert((a.frame + tail).take(a.frame.len() as int) =~= a.frame);
        assert((a.frame + tail).skip(a.frame.len() as int) =~= tail);
        let done = AudioPacketModel { index: mid.index, frame: a.frame };
        assert(merge_audio_until(tail, tail.len(), done, depth) == Some((done, tail)));
        assert(done == merge_audio(base, a));
    } else {
        assert(f2 + tail =~= tail);
        assert(mid == merge_audio(base, a));
    }
    assert(merge_audio_until(f2 + tail, tail.len(), mid, depth) == Some(
        (merge_audio(base, a), tail),
    ));
    // The index field, read from the front.
    if a.index != 0 {
        let after_key = varint_bytes(a.index as nat) + (f2 + tail);
        assert(audio_packet_bytes(a) + tail =~= key_bytes(1, WireKind::Varint) + after_key);
        lemma_key_take_bytes(1, WireKind::Varint, after_key);
        lemma_varint_take_bytes(a.index as nat, f2 + tail);
    } else {
        assert(audio_packet_bytes(a) + tail =~= f2 + tail);
    }
}

/// Reading a packet's encoding, whatever follows it, on top of a packet
/// already read merges the two, and goes on with what follows.
pub proof fn lemma_packet_field(acc: PacketModel, q: PacketModel, tail: Seq<u8>)
    requires
        q.packet_type matches Some(PacketTypeModel::Audio(b)) ==> b.frame.len() <= isize::MAX,
    ensures
        merge_packet_fields(packet_bytes(q) + tail, acc) == merge_packet_fields(
            tail,
            merge_packets(acc, q),
        ),
{
    match q.packet_type {
        None => {
            assert(packet_bytes(q) + tail =~= tail);
        },
        Some(PacketTypeModel::Audio(b)) => {
            lemma_keys_one_byte();
            let body = audio_packet_bytes(b);
            lemma_varint_bytes_len_bound(b.frame.len());
            lemma_varint_bytes_len_bound(b.index as nat);
            let after_key = varint_bytes(body.len()) + (body + tail);
            assert(packet_bytes(q) + tail =~= key_bytes(1, WireKind::LengthDelimited) + after_key);
            lemma_key_take_bytes(1, WireKind::LengthDelimited, after_key);
            lemma_varint_take_bytes(body.len(), body + tail);
            let base = match acc.packet_type {
                Some(PacketTypeModel::Audio(a)) => a,
                None => empty_audio(),
            };
            lemma_audio_roundtrip(b, base, tail, (RECURSION_LIMIT - 1) as nat);
            assert((body + tail).len() - body.len() == tail.len());
            if acc.packet_type is None && b.frame.len() == 0 {
                assert(b.frame =~= Seq::<u8>::empty());
            }
            assert(PacketModel { packet_type: Some(PacketTypeModel::Audio(merge_audio(base, b))) }
                == merge_packets(acc, q));
        },
    }
}

/// Decoding the encoding of a packet gives back that packet.
pub proof fn lemma_packet_roundtrip(p: PacketModel)
    requires
        p.packet_type matches Some(PacketTypeModel::Audio(a)) ==> a.frame.len() <= isize::MAX,
    ensures
        packet_decode(packet_bytes(p)) == Some(p),
{
    lemma_packet_field(empty_packet(), p, Seq::empty());
    assert(packet_bytes(p) + Seq::<u8>::empty() =~= packet_bytes(p));
    if let Some(PacketTypeModel::Audio(a)) = p.packet_type {
        if a.frame.len() == 0 {
            assert(a.frame =~= Seq::<u8>::empty());
        }
    }
    assert(merge_packets(empty_packet(), p) == p);
}

/// Decoding nothing gives the packet that carries nothing, and that packet
/// encodes to nothing.
pub proof fn lemma_empty_packet()
    ensures
        packet_decode(Seq::empty()) == Some(empty_packet()),
        packet_bytes(empty_packet()) == Seq::<u8>::empty(),
{
}

/// What decoding `q` on top of `p` gives: `q`'s audio packet merged field by
/// field into `p`'s, a field of `q` at its default value keeping `p`'s.
pub open spec fn merge_packets(p: PacketModel, q: PacketModel) -> PacketModel {
    match (p.packet_type, q.packet_type) {
        (_, None) => p,
        (None, Some(_)) => q,
        (Some(PacketTypeModel::Audio(a)), Some(PacketTypeModel::Audio(b))) => PacketModel {
            packet_type: Some(PacketTypeModel::Audio(merge_audio(a, b))),
        },
    }
}

/// Two encoded packets one after the other decode as the second merged into
/// the first.
pub proof fn lemma_concatenation_merges(p: PacketModel, q: PacketModel)
    requires
        p.packet_type matches Some(PacketTypeModel::Audio(a)) ==> a.frame.len() <= isize::MAX,
        q.packet_type matches Some(PacketTypeModel::Audio(b)) ==> b.frame.len() <= isize::MAX,
    ensures
        packet_decode(packet_bytes(p) + packet_bytes(q)) == Some(merge_packets(p, q)),
{
    lemma_packet_field(empty_packet(), p, packet_bytes(q));
    lemma_packet_roundtrip(p);
    lemma_packet_field(empty_packet(), p, Seq::empty());
    assert(packet_bytes(p) + Seq::<u8>::empty() =~= packet_bytes(p));
    lemma_packet_field(p, q, Seq::empty());
    assert(packet_bytes(q) + Seq::<u8>::empty() =~= packet_bytes(q));
}

} // verus!
