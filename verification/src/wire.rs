//! The protobuf wire format: field keys, the six wire types, and skipping
//! the fields that a message does not know.
use vstd::prelude::*;

use crate::varint::{
    lemma_varint_limit_10, lemma_varint_parse_bounds, varint_bytes, varint_decode,
};

verus! {

/// Declares prost's decode error, which the decoders hand back as they get it.
#[verifier::external_type_specification]
#[verifier::external_body]
pub struct ExDecodeError(prost::DecodeError);

/// The largest field number that protobuf allows.
pub const MAX_TAG: u32 = 0x1fff_ffff;

/// How many groups may nest inside one another before decoding gives up.
pub const RECURSION_LIMIT: u32 = 100;

/// The wire type of a field, as the low three bits of its key give it.
#[derive(Clone, Copy, Debug, PartialEq, Eq, Structural)]
pub enum WireKind {
    Varint,
    SixtyFourBit,
    LengthDelimited,
    StartGroup,
    EndGroup,
    ThirtyTwoBit,
}

impl WireKind {
    /// The number that stands for the wire type in a key.
    pub open spec fn code(self) -> nat {
        match self {
            WireKind::Varint => 0,
            WireKind::SixtyFourBit => 1,
            WireKind::LengthDelimited => 2,
            WireKind::StartGroup => 3,
            WireKind::EndGroup => 4,
            WireKind::ThirtyTwoBit => 5,
        }
    }
}

/// The wire type with number `n`, for `n` up to 5.
pub open spec fn wire_of(n: nat) -> WireKind {
    if n == 0 {
        WireKind::Varint
    } else if n == 1 {
        WireKind::SixtyFourBit
    } else if n == 2 {
        WireKind::LengthDelimited
    } else if n == 3 {
        WireKind::StartGroup
    } else if n == 4 {
        WireKind::EndGroup
    } else {
        WireKind::ThirtyTwoBit
    }
}

/// The bytes of the key of field `tag` with wire type `wire`.
pub open spec fn key_bytes(tag: nat, wire: WireKind) -> Seq<u8> {
    varint_bytes(tag * 8 + wire.code())
}

/// A varint read from the front of `s`, with what follows it.
pub open spec fn varint_take(s: Seq<u8>) -> Option<(nat, Seq<u8>)> {
    match varint_decode(s) {
        Some((v, n)) => Some((v, s.skip(n as int))),
        None => None,
    }
}

/// A field key read from the front of `s`: its field number, its wire type and
/// what follows it. The key must fit in 32 bits, name a known wire type and a
/// field number of at least 1.
pub open spec fn key_take(s: Seq<u8>) -> Option<(u32, WireKind, Seq<u8>)> {
    match varint_take(s) {
        Some((k, rest)) => if k > u32::MAX || k % 8 > 5 || k / 8 == 0 {
            None
        } else {
            Some(((k / 8) as u32, wire_of(k % 8), rest))
        },
        None => None,
    }
}

/// A `uint32` field value read from the front of `s`: the wire type must be
/// varint, and the varint is cut to its low 32 bits.
pub open spec fn uint32_take(wire: WireKind, s: Seq<u8>) -> Option<(u32, Seq<u8>)> {
    if wire != WireKind::Varint {
        None
    } else {
        match varint_take(s) {
            Some((v, rest)) => Some(((v % 0x1_0000_0000) as u32, rest)),
            None => None,
        }
    }
}

/// A `bytes` field value read from the front of `s`: the wire type must be
/// length-delimited, and as many bytes as the length says must follow it.
pub open spec fn bytes_take(wire: WireKind, s: Seq<u8>) -> Option<(Seq<u8>, Seq<u8>)> {
    if wire != WireKind::LengthDelimited {
        None
    } else {
        match varint_take(s) {
            Some((len, rest)) => if len > rest.len() {
                None
            } else {
                Some((rest.take(len as int), rest.skip(len as int)))
            },
            None => None,
        }
    }
}

/// What is left of `s` after the value of a field of wire type `wire` and
/// number `tag` whose key has already been read; `depth` is how many more
/// groups may still open.
pub open spec fn skip_value(wire: WireKind, tag: u32, s: Seq<u8>, depth: nat) -> Option<Seq<u8>>
    decreases depth, s.len(), 1nat,
{
    if depth == 0 {
        None
    } else {
        match wire {
            WireKind::Varint => match varint_take(s) {
                Some((_, rest)) => Some(rest),
                None => None,
            },
            WireKind::SixtyFourBit => if s.len() < 8 {
                None
            } else {
                Some(s.skip(8))
            },
            WireKind::ThirtyTwoBit => if s.len() < 4 {
                None
            } else {
                Some(s.skip(4))
            },
            WireKind::LengthDelimited => match varint_take(s) {
                Some((len, rest)) => if len > rest.len() {
                    None
                } else {
                    Some(rest.skip(len as int))
                },
                None => None,
            },
            WireKind::StartGroup => skip_group(tag, s, depth),
            WireKind::EndGroup => None,
        }
    }
}

/// What is left of `s` after the fields of group `tag` and the key that ends
/// it; every field of the group may open `depth - 1` more groups.
pub open spec fn skip_group(tag: u32, s: Seq<u8>, depth: nat) -> Option<Seq<u8>>
    decreases depth, s.len(), 0nat,
{
    match key_take(s) {
        Some((t, w, rest)) => {
            if w == WireKind::EndGroup {
                if t == tag {
                    Some(rest)
                } else {
                    None
                }
            } else if depth == 0 {
                None
            } else {
                proof {
                    lemma_key_take_shrinks(s);
                }
                match skip_value(w, t, rest, (depth - 1) as nat) {
                    Some(after) => if after.len() < s.len() {
                        skip_group(tag, after, depth)
                    } else {
                        None
                    },
                    None => None,
                }
            }
        },
        None => None,
    }
}

/// `t` is what is left of `s` after some of its front.
pub open spec fn is_suffix(t: Seq<u8>, s: Seq<u8>) -> bool {
    t.len() <= s.len() && t == s.skip(s.len() - t.len())
}

pub proof fn lemma_varint_take_shrinks(s: Seq<u8>)
    ensures
        varint_take(s) matches Some((v, rest)) ==> rest.len() < s.len() && is_suffix(rest, s)
            && v < 0x1_0000_0000_0000_0000,
{
    lemma_varint_parse_bounds(s, 10);
    lemma_varint_limit_10();
    if let Some((v, rest)) = varint_take(s) {
        assert(rest =~= s.skip(s.len() - rest.len()));
    }
}

pub proof fn lemma_key_take_shrinks(s: Seq<u8>)
    ensures
        key_take(s) matches Some((t, w, rest)) ==> rest.len() < s.len() && is_suffix(rest, s),
{
    lemma_varint_take_shrinks(s);
}

pub proof fn lemma_suffix_trans(a: Seq<u8>, b: Seq<u8>, c: Seq<u8>)
    requires
        is_suffix(a, b),
        is_suffix(b, c),
    ensures
        is_suffix(a, c),
{
    assert(a =~= c.skip(c.len() - a.len()));
}

/// Skipping a field leaves a suffix of what it started from.
pub proof fn lemma_skip_value_suffix(wire: WireKind, tag: u32, s: Seq<u8>, depth: nat)
    ensures
        skip_value(wire, tag, s, depth) matches Some(rest) ==> is_suffix(rest, s),
    decreases depth, s.len(), 1nat,
{
    if depth > 0 {
        lemma_varint_take_shrinks(s);
        match wire {
            WireKind::SixtyFourBit => {
                if s.len() >= 8 {
                    assert(s.skip(8) =~= s.skip(s.len() - s.skip(8).len()));
                }
            },
            WireKind::ThirtyTwoBit => {
                if s.len() >= 4 {
                    assert(s.skip(4) =~= s.skip(s.len() - s.skip(4).len()));
                }
            },
            WireKind::LengthDelimited => {
                if let Some((len, rest)) = varint_take(s) {
                    if len <= rest.len() {
                        let r2 = rest.skip(len as int);
                        assert(r2 =~= rest.skip(rest.len() - r2.len()));
                        lemma_suffix_trans(r2, rest, s);
                    }
                }
            },
            WireKind::StartGroup => {
                lemma_skip_group_suffix(tag, s, depth);
            },
            _ => {},
        }
    }
}

pub proof fn lemma_skip_group_suffix(tag: u32, s: Seq<u8>, depth: nat)
    ensures
        skip_group(tag, s, depth) matches Some(rest) ==> is_suffix(rest, s),
    decreases depth, s.len(), 0nat,
{
    lemma_key_take_shrinks(s);
    if let Some((t, w, rest)) = key_take(s) {
        if w != WireKind::EndGroup && depth > 0 {
            lemma_skip_value_suffix(w, t, rest, (depth - 1) as nat);
            if let Some(after) = skip_value(w, t, rest, (depth - 1) as nat) {
                if after.len() < s.len() {
                    lemma_suffix_trans(after, rest, s);
                    lemma_skip_group_suffix(tag, after, depth);
                    if let Some(r) = skip_group(tag, after, depth) {
                        lemma_suffix_trans(r, after, s);
                    }
                }
            }
        }
    }
}

// ---------------------------------------------------------------------------
// Calls into prost's encoding module.
/// `prost::encoding::encode_varint`: appends the LEB128 bytes of `value`.
#[verifier::external_body]
pub(crate) fn put_varint(value: u64, buf: &mut Vec<u8>)
    ensures
        final(buf)@ == old(buf)@ + varint_bytes(value as nat),
{
    prost::encoding::encode_varint(value, buf)
}

/// `prost::encoding::encoded_len_varint`: the number of bytes of the LEB128
/// encoding of `value`.
#[verifier::external_body]
pub(crate) fn varint_len(value: u64) -> (n: usize)
    ensures
        n == varint_bytes(value as nat).len(),
{
    prost::encoding::encoded_len_varint(value)
}

/// `prost::encoding::encode_key`: appends the key of field `tag` with wire type
/// `wire`, the varint of `tag * 8` plus the wire type's number. prost asserts
/// in debug builds that `tag` is a valid field number.
#[verifier::external_body]
pub(crate) fn put_key(tag: u32, wire: WireKind, buf: &mut Vec<u8>)
    requires
        1 <= tag <= MAX_TAG,
    ensures
        final(buf)@ == old(buf)@ + key_bytes(tag as nat, wire),
{
    let wt = match wire {
        WireKind::Varint => prost::encoding::WireType::Varint,
        WireKind::SixtyFourBit => prost::encoding::WireType::SixtyFourBit,
        WireKind::LengthDelimited => prost::encoding::WireType::LengthDelimited,
        WireKind::StartGroup => prost::encoding::WireType::StartGroup,
        WireKind::EndGroup => prost::encoding::WireType::EndGroup,
        WireKind::ThirtyTwoBit => prost::encoding::WireType::ThirtyTwoBit,
    };
    prost::encoding::encode_key(tag, wt, buf)
}

/// `prost::encoding::uint32::encode`: appends field `tag` holding `value`, its
/// key with the varint wire type followed by the varint of `value`.
#[verifier::external_body]
pub(crate) fn put_uint32_field(tag: u32, value: u32, buf: &mut Vec<u8>)
    requires
        1 <= tag <= MAX_TAG,
    ensures
        final(buf)@ == old(buf)@ + key_bytes(tag as nat, WireKind::Varint) + varint_bytes(
            value as nat,
        ),
{
    prost::encoding::uint32::encode(tag, &value, buf)
}

/// `prost::encoding::bytes::encode`: appends field `tag` holding `value`: its
/// key with the length-delimited wire type, the varint of the length, then
/// the bytes themselves.
#[verifier::external_body]
pub(crate) fn put_bytes_field(tag: u32, value: &Vec<u8>, buf: &mut Vec<u8>)
    requires
        1 <= tag <= MAX_TAG,
    ensures
        final(buf)@ == old(buf)@ + key_bytes(tag as nat, WireKind::LengthDelimited)
            + varint_bytes(value@.len()) + value@,
{
    prost::encoding::bytes::encode(tag, value, buf)
}

/// `prost::encoding::decode_varint`: reads a varint of at most ten bytes from
/// the front of `buf` and gives it with the bytes that follow it; fails where
/// no byte of the first ten ends the varint or the value passes 64 bits.
#[verifier::external_body]
pub(crate) fn take_varint<'a>(buf: &'a [u8]) -> (r: Result<(u64, &'a [u8]), prost::DecodeError>)
    ensures
        match varint_take(buf@) {
            Some((v, rest)) => r matches Ok((x, after)) && x as nat == v && after@ == rest,
            None => r is Err,
        },
{
    let mut rest = buf;
    let value = prost::encoding::decode_varint(&mut rest)?;
    Ok((value, rest))
}

/// `prost::encoding::decode_key`: reads a field key from the front of `buf`
/// and gives its field number, its wire type and the bytes that follow; fails
/// where the varint fails, passes 32 bits, names no wire type or field 0.
#[verifier::external_body]
pub(crate) fn take_key<'a>(buf: &'a [u8]) -> (r: Result<(u32, WireKind, &'a [u8]), prost::DecodeError>)
    ensures
        match key_take(buf@) {
            Some((t, w, rest)) => r matches Ok((x, k, after)) && x == t && k == w && after@ == rest,
            None => r is Err,
        },
{
    let mut rest = buf;
    let (tag, wt) = prost::encoding::decode_key(&mut rest)?;
    let kind = match wt {
        prost::encoding::WireType::Varint => WireKind::Varint,
        prost::encoding::WireType::SixtyFourBit => WireKind::SixtyFourBit,
        prost::encoding::WireType::LengthDelimited => WireKind::LengthDelimited,
        prost::encoding::WireType::StartGroup => WireKind::StartGroup,
        prost::encoding::WireType::EndGroup => WireKind::EndGroup,
        prost::encoding::WireType::ThirtyTwoBit => WireKind::ThirtyTwoBit,
    };
    Ok((tag, kind, rest))
}

/// `prost::encoding::uint32::merge`: reads the value of a `uint32` field of
/// wire type `wire` from the front of `buf`, cut to 32 bits, and gives it with
/// the bytes that follow; fails where the wire type is not varint or the
/// varint fails.
#[verifier::external_body]
pub(crate) fn take_uint32_field<'a>(wire: WireKind, buf: &'a [u8]) -> (r: Result<
    (u32, &'a [u8]),
    prost::DecodeError,
>)
    ensures
        match uint32_take(wire, buf@) {
            Some((v, rest)) => r matches Ok((x, after)) && x == v && after@ == rest,
            None => r is Err,
        },
{
    let wt = match wire {
        WireKind::Varint => prost::encoding::WireType::Varint,
        WireKind::SixtyFourBit => prost::encoding::WireType::SixtyFourBit,
        WireKind::LengthDelimited => prost::encoding::WireType::LengthDelimited,
        WireKind::StartGroup => prost::encoding::WireType::StartGroup,
        WireKind::EndGroup => prost::encoding::WireType::EndGroup,
        WireKind::ThirtyTwoBit => prost::encoding::WireType::ThirtyTwoBit,
    };
    let (mut value, mut rest) = (0u32, buf);
    prost::encoding::uint32::merge(wt, &mut value, &mut rest, Default::default())?;
    Ok((value, rest))
}

/// `prost::encoding::bytes::merge`: reads the value of a `bytes` field of wire
/// type `wire` from the front of `buf` and gives it with the bytes that
/// follow; fails where the wire type is not length-delimited, the length's
/// varint fails or fewer bytes follow than it says.
#[verifier::external_body]
pub(crate) fn take_bytes_field<'a>(wire: WireKind, buf: &'a [u8]) -> (r: Result<
    (Vec<u8>, &'a [u8]),
    prost::DecodeError,
>)
    ensures
        match bytes_take(wire, buf@) {
            Some((v, rest)) => r matches Ok((x, after)) && x@ == v && after@ == rest,
            None => r is Err,
        },
{
    let wt = match wire {
        WireKind::Varint => prost::encoding::WireType::Varint,
        WireKind::SixtyFourBit => prost::encoding::WireType::SixtyFourBit,
        WireKind::LengthDelimited => prost::encoding::WireType::LengthDelimited,
        WireKind::StartGroup => prost::encoding::WireType::StartGroup,
        WireKind::EndGroup => prost::encoding::WireType::EndGroup,
        WireKind::ThirtyTwoBit => prost::encoding::WireType::ThirtyTwoBit,
    };
    let (mut value, mut rest) = (Vec::new(), buf);
    prost::encoding::bytes::merge(wt, &mut value, &mut rest, Default::default())?;
    Ok((value, rest))
}

/// `prost::encoding::check_wire_type` with the length-delimited wire type
/// expected: fails exactly where `wire` is another wire type.
#[verifier::external_body]
pub(crate) fn check_length_delimited(wire: WireKind) -> (r: Result<(), prost::DecodeError>)
    ensures
        r is Ok <==> wire == WireKind::LengthDelimited,
{
    let actual = match wire {
        WireKind::Varint => prost::encoding::WireType::Varint,
        WireKind::SixtyFourBit => prost::encoding::WireType::SixtyFourBit,
        WireKind::LengthDelimited => prost::encoding::WireType::LengthDelimited,
        WireKind::StartGroup => prost::encoding::WireType::StartGroup,
        WireKind::EndGroup => prost::encoding::WireType::EndGroup,
        WireKind::ThirtyTwoBit => prost::encoding::WireType::ThirtyTwoBit,
    };
    prost::encoding::check_wire_type(prost::encoding::WireType::LengthDelimited, actual)
}

/// `prost::DecodeError::push`: records in the error the message and field
/// whose decoding failed.
#[verifier::external_body]
pub(crate) fn push_context(error: &mut prost::DecodeError, message: &'static str, field: &'static str) {
    error.push(message, field)
}

/// `prost::encoding::DecodeError::new`: an error with the given description.
#[verifier::external_body]
pub(crate) fn decode_error(description: &'static str) -> prost::DecodeError {
    prost::DecodeError::new(description)
}

// ---------------------------------------------------------------------------
// Skipping unknown fields.
/// Skips the value of a field of wire type `wire` and number `tag` whose key
/// has been read, and gives what follows it.
pub fn skip_field<'a>(wire: WireKind, tag: u32, buf: &'a [u8], depth: u32) -> (r: Result<
    &'a [u8],
    prost::DecodeError,
>)
    ensures
        match skip_value(wire, tag, buf@, depth as nat) {
            Some(rest) => r matches Ok(after) && after@ == rest,
            None => r is Err,
        },
    decreases depth, buf@.len(), 1nat,
{
    if depth == 0 {
        return Err(decode_error("recursion limit reached"));
    }
    match wire {
        WireKind::Varint => {
            let (_, rest) = take_varint(buf)?;
            Ok(rest)
        },
        WireKind::SixtyFourBit => {
            if buf.len() < 8 {
                return Err(decode_error("buffer underflow"));
            }
            let (_, rest) = buf.split_at(8);
            assert(rest@ =~= buf@.skip(8));
            Ok(rest)
        },
        WireKind::ThirtyTwoBit => {
            if buf.len() < 4 {
                return Err(decode_error("buffer underflow"));
            }
            let (_, rest) = buf.split_at(4);
            assert(rest@ =~= buf@.skip(4));
            Ok(rest)
        },
        WireKind::LengthDelimited => {
            let (len, rest) = take_varint(buf)?;
            if len > rest.len() as u64 {
                return Err(decode_error("buffer underflow"));
            }
            let (_, after) = rest.split_at(len as usize);
            assert(after@ =~= rest@.skip(len as int));
            Ok(after)
        },
        WireKind::StartGroup => skip_group_fields(tag, buf, depth),
        WireKind::EndGroup => Err(decode_error("unexpected end group tag")),
    }
}

/// Skips the fields of group `tag` up to and including the key that ends it.
fn skip_group_fields<'a>(tag: u32, buf: &'a [u8], depth: u32) -> (r: Result<
    &'a [u8],
    prost::DecodeError,
>)
    requires
        depth >= 1,
    ensures
        match skip_group(tag, buf@, depth as nat) {
            Some(rest) => r matches Ok(after) && after@ == rest,
            None => r is Err,
        },
    decreases depth, buf@.len(), 0nat,
{
    let mut cur = buf;
    loop
        invariant
            depth >= 1,
            skip_group(tag, cur@, depth as nat) == skip_group(tag, buf@, depth as nat),
            cur@.len() <= buf@.len(),
        decreases cur@.len(),
    {
        let ghost before = cur@;
        let (t, w, rest) = take_key(cur)?;
        proof {
            lemma_key_take_shrinks(before);
        }
        if w == WireKind::EndGroup {
            if t != tag {
                return Err(decode_error("unexpected end group tag"));
            }
            return Ok(rest);
        }
        let after = skip_field(w, t, rest, depth - 1)?;
        proof {
            lemma_skip_value_suffix(w, t, rest@, (depth - 1) as nat);
        }
        cur = after;
    }
}

} // verus!
