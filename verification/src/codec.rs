//! Width-dependent byte encoding and decoding.
//!
//! The counter's registers are moved over the bus as `width` bytes, most
//! significant first, where `width` is the active byte width in 1..=4.
//! Values narrower than four bytes are unsigned as read; reinterpreting
//! them as 32-bit two's complement is the separate, opt-in sign
//! extension.

use vstd::prelude::*;

verus! {

/// The big-endian byte image of `value` at the given byte width: `width`
/// bytes, most significant first.  Bytes of `value` above the width are
/// dropped.
pub open spec fn be_encode(width: int, value: u32) -> Seq<u8> {
    Seq::new(width as nat, |i: int| (value >> ((8 * (width - 1 - i)) as u32)) as u8)
}

/// The value that big-endian accumulation of `bytes` into a 32-bit
/// accumulator yields: `acc = (acc << 8) | byte`, oldest byte first.
pub open spec fn be_decode(bytes: Seq<u8>) -> u32
    decreases bytes.len(),
{
    if bytes.len() == 0 {
        0u32
    } else {
        (be_decode(bytes.drop_last()) << 8u32) | (bytes.last() as u32)
    }
}

/// The mask of the low `width` bytes of a 32-bit value.
pub open spec fn low_mask(width: int) -> u32 {
    if width == 1 {
        0xFF
    } else if width == 2 {
        0xFFFF
    } else if width == 3 {
        0xFFFFFF
    } else {
        0xFFFFFFFF
    }
}

/// The bits that sign extension fills in above the given byte width.
pub open spec fn sign_mask(width: int) -> u32 {
    if width == 1 {
        0xFFFFFF00
    } else if width == 2 {
        0xFFFF0000
    } else if width == 3 {
        0xFF000000
    } else {
        0
    }
}

/// The bit position of the most significant bit at the given byte width,
/// as a shift amount: `8 * width - 1`.
pub open spec fn width_msb_shift(width: int) -> u32 {
    if width == 1 {
        7
    } else if width == 2 {
        15
    } else if width == 3 {
        23
    } else {
        31
    }
}

/// The shift lookup agrees with the formula `8 * width - 1` on every
/// valid byte width.
pub proof fn lemma_width_msb_shift(width: int)
    requires
        1 <= width <= 4,
    ensures
        width_msb_shift(width) == 8 * width - 1,
{
}

/// Whether the most significant bit of `value` seen at the given byte
/// width is set: bit `8 * width - 1`.
pub open spec fn width_msb_set(width: int, value: u32) -> bool {
    (value >> width_msb_shift(width)) & 1 == 1
}

/// Sign extension of `value` from the given byte width to 32 bits: the
/// identity at width 4 and whenever the width's most significant bit is
/// clear, otherwise the bits above the width are ORed in.
pub open spec fn sign_extend(width: int, value: u32) -> u32 {
    if 1 <= width < 4 && width_msb_set(width, value) {
        value | sign_mask(width)
    } else {
        value
    }
}

/// Appending a byte to an accumulation shifts the accumulator left one
/// byte and ORs the new byte in.
pub proof fn lemma_be_decode_push(s: Seq<u8>, b: u8)
    ensures
        be_decode(s.push(b)) == (be_decode(s) << 8u32) | (b as u32),
{
    assert(s.push(b).drop_last() =~= s);
    assert(s.push(b).last() == b);
}

/// Round trip: decoding the big-endian image of `value` at any valid
/// byte width yields exactly the low `width` bytes of `value`,
/// zero-extended, whatever its discarded high bytes held.
pub proof fn lemma_encode_decode_round_trip(width: int, value: u32)
    requires
        1 <= width <= 4,
    ensures
        be_decode(be_encode(width, value)) == value & low_mask(width),
{
    let e: Seq<u8> = Seq::<u8>::empty();
    let b0: u8 = (value >> 0u32) as u8;
    let b1: u8 = (value >> 8u32) as u8;
    let b2: u8 = (value >> 16u32) as u8;
    let b3: u8 = (value >> 24u32) as u8;
    if width == 1 {
        assert(be_encode(width, value) =~= e.push(b0));
        lemma_be_decode_push(e, b0);
        assert((0u32 << 8u32) | (((value >> 0u32) as u8) as u32) == value & 0xFFu32)
            by (bit_vector);
    } else if width == 2 {
        assert(be_encode(width, value) =~= e.push(b1).push(b0));
        lemma_be_decode_push(e, b1);
        lemma_be_decode_push(e.push(b1), b0);
        assert((((0u32 << 8u32) | (((value >> 8u32) as u8) as u32)) << 8u32) | (((value
            >> 0u32) as u8) as u32) == value & 0xFFFFu32) by (bit_vector);
    } else if width == 3 {
        assert(be_encode(width, value) =~= e.push(b2).push(b1).push(b0));
        lemma_be_decode_push(e, b2);
        lemma_be_decode_push(e.push(b2), b1);
        lemma_be_decode_push(e.push(b2).push(b1), b0);
        assert(((((0u32 << 8u32) | (((value >> 16u32) as u8) as u32)) << 8u32) | (((value
            >> 8u32) as u8) as u32)) << 8u32 | (((value >> 0u32) as u8) as u32) == value
            & 0xFFFFFFu32) by (bit_vector);
    } else {
        assert(be_encode(width, value) =~= e.push(b3).push(b2).push(b1).push(b0));
        lemma_be_decode_push(e, b3);
        lemma_be_decode_push(e.push(b3), b2);
        lemma_be_decode_push(e.push(b3).push(b2), b1);
        lemma_be_decode_push(e.push(b3).push(b2).push(b1), b0);
        assert((((((0u32 << 8u32) | (((value >> 24u32) as u8) as u32)) << 8u32) | (((value
            >> 16u32) as u8) as u32)) << 8u32 | (((value >> 8u32) as u8) as u32)) << 8u32 | (((
        value >> 0u32) as u8) as u32) == value & 0xFFFFFFFFu32) by (bit_vector);
    }
}

/// Sign extension at full width is the identity: a four-byte reading is
/// already a complete 32-bit value.
pub proof fn lemma_sign_extend_full_width_identity(value: u32)
    ensures
        sign_extend(4, value) == value,
{
}

/// At a narrow width, sign extension returns the input unchanged when the
/// width's most significant bit is clear, and the input ORed with the
/// width's documented mask when it is set.
pub proof fn lemma_sign_extend_masks(width: int, value: u32)
    requires
        1 <= width <= 3,
    ensures
        !width_msb_set(width, value) ==> sign_extend(width, value) == value,
        width_msb_set(width, value) ==> sign_extend(width, value) == value | sign_mask(width),
{
}

/// Sign extension is idempotent: extending an already extended value
/// changes nothing, at every byte width and for every input.
pub proof fn lemma_sign_extend_idempotent(width: int, value: u32)
    requires
        1 <= width <= 4,
    ensures
        sign_extend(width, sign_extend(width, value)) == sign_extend(width, value),
{
    if width == 1 && width_msb_set(width, value) {
        assert(((value | 0xFFFFFF00u32) >> 7u32) & 1 == 1 && (value | 0xFFFFFF00u32)
            | 0xFFFFFF00u32 == (value | 0xFFFFFF00u32)) by (bit_vector)
            requires
                (value >> 7u32) & 1 == 1,
        ;
    }
    if width == 2 && width_msb_set(width, value) {
        assert(((value | 0xFFFF0000u32) >> 15u32) & 1 == 1 && (value | 0xFFFF0000u32)
            | 0xFFFF0000u32 == (value | 0xFFFF0000u32)) by (bit_vector)
            requires
                (value >> 15u32) & 1 == 1,
        ;
    }
    if width == 3 && width_msb_set(width, value) {
        assert(((value | 0xFF000000u32) >> 23u32) & 1 == 1 && (value | 0xFF000000u32)
            | 0xFF000000u32 == (value | 0xFF000000u32)) by (bit_vector)
            requires
                (value >> 23u32) & 1 == 1,
        ;
    }
}

} // verus!
