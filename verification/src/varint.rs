//! LEB128 varints as the protobuf wire format uses them.
use vstd::prelude::*;

verus! {

/// The bytes of the LEB128 encoding of `v`: seven bits per byte, least
/// significant group first, the high bit set on every byte but the last.
pub open spec fn varint_bytes(v: nat) -> Seq<u8>
    decreases v,
{
    if v < 128 {
        seq![v as u8]
    } else {
        seq![(v % 128 + 128) as u8] + varint_bytes(v / 128)
    }
}

/// Reads a varint of at most `d` bytes from the front of `s`; the last of ten
/// bytes may only be 0 or 1, so that the value fits in 64 bits.
/// Gives the value and the number of bytes read.
pub open spec fn varint_parse(s: Seq<u8>, d: nat) -> Option<(nat, nat)>
    decreases d,
{
    if d == 0 || s.len() == 0 {
        None
    } else if s[0] < 128 {
        if d == 1 && s[0] >= 2 {
            None
        } else {
            Some((s[0] as nat, 1))
        }
    } else {
        match varint_parse(s.drop_first(), (d - 1) as nat) {
            Some((v, n)) => Some((((s[0] - 128) + 128 * v) as nat, n + 1)),
            None => None,
        }
    }
}

/// A protobuf varint read from the front of `s`: at most ten bytes.
pub open spec fn varint_decode(s: Seq<u8>) -> Option<(nat, nat)> {
    varint_parse(s, 10)
}

/// The largest value, plus one, that `varint_parse` with depth `d` can yield.
pub open spec fn varint_limit(d: nat) -> nat
    decreases d,
{
    if d <= 1 {
        2
    } else {
        128 * varint_limit((d - 1) as nat)
    }
}

pub proof fn lemma_varint_bytes_len(v: nat)
    ensures
        1 <= varint_bytes(v).len(),
        v < 128 ==> varint_bytes(v).len() == 1,
    decreases v,
{
    if v >= 128 {
        lemma_varint_bytes_len(v / 128);
    }
}

/// Reading back the bytes of `v`, whatever follows them, gives `v` and the
/// number of bytes written.
pub proof fn lemma_varint_parse_bytes(v: nat, rest: Seq<u8>, d: nat)
    requires
        1 <= d,
        v < varint_limit(d),
    ensures
        varint_parse(varint_bytes(v) + rest, d) == Some((v, varint_bytes(v).len())),
    decreases v,
{
    let s = varint_bytes(v) + rest;
    if v < 128 {
        assert(s[0] == v as u8);
        if d == 1 {
            assert(v < 2);
        }
    } else {
        if d == 1 {
            assert(false);
        }
        assert(varint_limit(d) == 128 * varint_limit((d - 1) as nat));
        lemma_varint_parse_bytes(v / 128, rest, (d - 1) as nat);
        assert(s.drop_first() =~= varint_bytes(v / 128) + rest);
        assert(s[0] == (v % 128 + 128) as u8);
    }
}

/// A varint read from `s` takes at least one byte, no more than `s` holds and
/// no more than `d`, and its value stays under `varint_limit(d)`.
pub proof fn lemma_varint_parse_bounds(s: Seq<u8>, d: nat)
    ensures
        varint_parse(s, d) matches Some((v, n)) ==> 1 <= n <= s.len() && n <= d && v
            < varint_limit(d),
    decreases d,
{
    if d > 0 && s.len() > 0 && s[0] >= 128 {
        lemma_varint_parse_bounds(s.drop_first(), (d - 1) as nat);
        if d >= 2 {
            assert(varint_limit(d) == 128 * varint_limit((d - 1) as nat));
        }
    }
    if d >= 2 {
        lemma_varint_limit_grows(d);
    }
}

proof fn lemma_varint_limit_grows(d: nat)
    requires
        d >= 2,
    ensures
        varint_limit(d) >= 256,
    decreases d,
{
    if d > 2 {
        lemma_varint_limit_grows((d - 1) as nat);
    } else {
        assert(varint_limit(1) == 2);
    }
    assert(varint_limit(d) == 128 * varint_limit((d - 1) as nat));
}

pub proof fn lemma_varint_limit_10()
    ensures
        varint_limit(10) == 0x1_0000_0000_0000_0000,
{
    reveal_with_fuel(varint_limit, 10);
}

} // verus!
