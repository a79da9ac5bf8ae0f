//! Bit-level facts about the packed row format, proved by bit blasting.
//!
//! A row is a `u32`: cells `0..9` take two bits each at offset `2 * column`,
//! the miniboard status takes two bits at offset 18, and the X, O and total
//! move counts take four bits each at offsets 20, 24 and 28.
use vstd::prelude::*;

verus! {

/// The `mask`-wide field of `x` that starts at bit `pos`.
pub open spec fn field(x: u32, pos: u32, mask: u32) -> u32 {
    (x >> pos) & mask
}

/// Masking then shifting down reads the same field as shifting then masking,
/// and a field never exceeds its mask.
pub proof fn lemma_get_field(x: u32, pos: u32, mask: u32)
    by (bit_vector)
    requires
        (mask == 3 && pos <= 30) || (mask == 15 && pos <= 28) || (mask == 63 && pos <= 26),
    ensures
        (x & (mask << pos)) >> pos == (x >> pos) & mask,
        (x >> pos) & mask <= mask,
{
}

/// Writing one cell of a row changes that cell only.
pub proof fn lemma_set_cell_bits(x: u32, v: u32, c: u32, c2: u32)
    by (bit_vector)
    requires
        c < 9,
        c2 < 9,
        v <= 3,
    ensures
        ((((x & !(3u32 << (c * 2))) | (v << (c * 2))) >> (c * 2)) & 3) == v,
        c2 != c ==> ((((x & !(3u32 << (c * 2))) | (v << (c * 2))) >> (c2 * 2)) & 3) == ((x >> (c2
            * 2)) & 3),
        (((x & !(3u32 << (c * 2))) | (v << (c * 2))) >> 18) & 3 == (x >> 18) & 3,
        (((x & !(3u32 << (c * 2))) | (v << (c * 2))) >> 20) & 15 == (x >> 20) & 15,
        (((x & !(3u32 << (c * 2))) | (v << (c * 2))) >> 24) & 15 == (x >> 24) & 15,
        (((x & !(3u32 << (c * 2))) | (v << (c * 2))) >> 28) & 15 == (x >> 28) & 15,
{
}

/// Writing a metadata field of a row (status at 18, counts at 20, 24 and 28)
/// changes that field only.
pub proof fn lemma_set_meta_bits(x: u32, v: u32, pos: u32, mask: u32)
    by (bit_vector)
    requires
        (pos == 18 && mask == 3) || ((pos == 20 || pos == 24 || pos == 28) && mask == 15),
        v <= mask,
    ensures
        (((x & !(mask << pos)) | (v << pos)) >> pos) & mask == v,
        ((x & !(mask << pos)) | (v << pos)) & 0x3ffff == x & 0x3ffff,
        pos != 18 ==> (((x & !(mask << pos)) | (v << pos)) >> 18) & 3 == (x >> 18) & 3,
        pos != 20 ==> (((x & !(mask << pos)) | (v << pos)) >> 20) & 15 == (x >> 20) & 15,
        pos != 24 ==> (((x & !(mask << pos)) | (v << pos)) >> 24) & 15 == (x >> 24) & 15,
        pos != 28 ==> (((x & !(mask << pos)) | (v << pos)) >> 28) & 15 == (x >> 28) & 15,
{
}

/// Writing any byte into the metadata bits of a row, at or above bit 18,
/// leaves its cells alone.
pub proof fn lemma_meta_write_keeps_cells(x: u32, v: u32, pos: u32, mask: u32)
    by (bit_vector)
    requires
        18 <= pos < 32,
        v < 256,
        mask < 256,
    ensures
        ((x & !(mask << pos)) | (v << pos)) & 0x3ffff == x & 0x3ffff,
{
}

/// The cells of a row live in its low 18 bits.
pub proof fn lemma_cells_in_low_bits(x: u32, y: u32, c: u32)
    by (bit_vector)
    requires
        c < 9,
        x & 0x3ffff == y & 0x3ffff,
    ensures
        (x >> (c * 2)) & 3 == (y >> (c * 2)) & 3,
{
}

/// The same facts for the win-count byte: X wins at offset 0, O wins at offset 3.
pub proof fn lemma_win_count_bits(w: u8, v: u8, off: u8, other: u8)
    by (bit_vector)
    requires
        (off == 0 && other == 3) || (off == 3 && other == 0),
        v <= 7,
    ensures
        (w & (7u8 << off)) >> off == (w >> off) & 7,
        (w >> off) & 7 <= 7,
        (((w & !(7u8 << off)) | (v << off)) >> off) & 7 == v,
        (((w & !(7u8 << off)) | (v << off)) >> other) & 7 == (w >> other) & 7,
{
}

/// Packing a six-bit row window into bits `6 * j ..` of an accumulator that is
/// zero from there up keeps the fields below and places the window's three
/// cells above them.
pub proof fn lemma_pack_window(acc: u32, window: u32, j: u32, o: u32, t: u32)
    by (bit_vector)
    requires
        j < 3,
        acc >> (6 * j) == 0,
        window <= 63,
        t < 3,
    ensures
        o + 2 <= 6 * j ==> ((acc | (window << (6 * j))) >> o) & 3 == (acc >> o) & 3,
        ((acc | (window << (6 * j))) >> (6 * j + 2 * t)) & 3 == (window >> (2 * t)) & 3,
        (acc | (window << (6 * j))) >> (6 * j + 6) == 0,
{
}

/// The `t`-th cell of the six-bit window at `offset` of a row is the row's
/// cell at `offset + 2 * t`.
pub proof fn lemma_window_cell(x: u32, offset: u32, t: u32)
    by (bit_vector)
    requires
        offset <= 12,
        t < 3,
    ensures
        (x & (63u32 << offset)) >> offset <= 63,
        (((x & (63u32 << offset)) >> offset) >> (2 * t)) & 3 == (x >> (offset + 2 * t)) & 3,
{
}

/// Three two-bit fields at distinct even offsets below 18, masked out of
/// `cells`, equal the same three fields filled with `p` exactly when each
/// of them holds `p`.
pub proof fn lemma_line_mask(cells: u32, o1: u32, o2: u32, o3: u32, p: u32)
    by (bit_vector)
    requires
        o1 < 18 && o2 < 18 && o3 < 18,
        o1 % 2 == 0 && o2 % 2 == 0 && o3 % 2 == 0,
        o1 != o2 && o1 != o3 && o2 != o3,
        p <= 3,
    ensures
        ((cells & ((3u32 << o1) | (3u32 << o2) | (3u32 << o3))) == ((p << o1) | (p << o2) | (p
            << o3))) == ((cells >> o1) & 3 == p && (cells >> o2) & 3 == p && (cells >> o3) & 3
            == p),
{
}

/// Three two-bit values placed at distinct even offsets below 18 equal `p`
/// placed at the same offsets exactly when each of them is `p`.
pub proof fn lemma_line_equal(s1: u32, s2: u32, s3: u32, o1: u32, o2: u32, o3: u32, p: u32)
    by (bit_vector)
    requires
        o1 < 18 && o2 < 18 && o3 < 18,
        o1 % 2 == 0 && o2 % 2 == 0 && o3 % 2 == 0,
        o1 != o2 && o1 != o3 && o2 != o3,
        s1 <= 3 && s2 <= 3 && s3 <= 3 && p <= 3,
    ensures
        (((s1 << o1) | (s2 << o2) | (s3 << o3)) == ((p << o1) | (p << o2) | (p << o3))) == (s1
            == p && s2 == p && s3 == p),
{
}

/// Packing a two-bit value at bit `2 * m` of an accumulator that is zero from
/// there up keeps the fields below and places the value above them.
pub proof fn lemma_pack_field(acc: u32, v: u32, m: u32, o: u32)
    by (bit_vector)
    requires
        m < 9,
        acc >> (2 * m) == 0,
        v <= 3,
    ensures
        o + 2 <= 2 * m ==> ((acc | (v << (2 * m))) >> o) & 3 == (acc >> o) & 3,
        ((acc | (v << (2 * m))) >> (2 * m)) & 3 == v,
        (acc | (v << (2 * m))) >> (2 * m + 2) == 0,
{
}

/// Shifting zero gives zero.
pub proof fn lemma_zero_shr(k: u32)
    by (bit_vector)
    ensures
        0u32 >> k == 0,
{
}

/// Setting (or not) one bit of a 128-bit field changes that bit only.
pub proof fn lemma_or_bit128(x: u128, b: u128, off: u128, j: u128)
    by (bit_vector)
    requires
        off < 81,
        j < 128,
        b <= 1,
        x >> 81 == 0,
    ensures
        ((x | (b << off)) >> j) & 1 == if j == off {
            ((x >> j) & 1) | b
        } else {
            (x >> j) & 1
        },
        (x | (b << off)) >> 81 == 0,
        (x >> off) & 1 == 0 ==> ((x | (b << off)) >> off) & 1 == b,
        (x >> j) & 1 <= 1,
{
}

} // verus!
