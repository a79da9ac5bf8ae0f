//! Walking the packed bitfields that a board hands out: the valid moves, and
//! the miniboard statuses.
use vstd::prelude::*;

use super::bits::{field, lemma_get_field};
use super::rules::{bit128, lemma_zero_bits128};

verus! {

/// The moves `(j / 9, j % 9)` of the bits `j` set in `bits` with `i <= j < 81`,
/// in increasing order of `j`.
pub open spec fn moves_from(bits: u128, i: int) -> Seq<(u8, u8)>
    decreases 81 - i,
{
    if i < 0 || i >= 81 {
        Seq::empty()
    } else if bit128(bits, i) == 1 {
        seq![((i / 9) as u8, (i % 9) as u8)] + moves_from(bits, i + 1)
    } else {
        moves_from(bits, i + 1)
    }
}

/// `moves_from` reads only the bits from `i` up to 81.
proof fn lemma_moves_from_bits(a: u128, b: u128, i: int)
    requires
        0 <= i,
        forall|j: int| i <= j < 81 ==> #[trigger] bit128(a, j) == bit128(b, j),
    ensures
        moves_from(a, i) == moves_from(b, i),
    decreases 81 - i,
{
    if i < 81 {
        lemma_moves_from_bits(a, b, i + 1);
    }
}

/// Clear bits before `t` add no moves.
proof fn lemma_moves_from_skip(bits: u128, i: int, t: int)
    requires
        0 <= i <= t,
        forall|j: int| i <= j < t ==> #[trigger] bit128(bits, j) == 0,
    ensures
        moves_from(bits, i) == moves_from(bits, t),
    decreases t - i,
{
    if i < t && i < 81 {
        lemma_moves_from_skip(bits, i + 1, t);
    }
}

/// Every move listed lies on the board.
pub proof fn lemma_moves_from_on_board(bits: u128, i: int)
    ensures
        forall|k: int|
            0 <= k < moves_from(bits, i).len() ==> #[trigger] moves_from(bits, i)[k].0 < 9
                && moves_from(bits, i)[k].1 < 9,
    decreases 81 - i,
{
    if 0 <= i < 81 {
        lemma_moves_from_on_board(bits, i + 1);
        let rest = moves_from(bits, i + 1);
        if bit128(bits, i) == 1 {
            let head = seq![((i / 9) as u8, (i % 9) as u8)];
            assert forall|k: int| 0 <= k < moves_from(bits, i).len() implies #[trigger] moves_from(bits, i)[k].0 < 9
                && moves_from(bits, i)[k].1 < 9 by {
                if k > 0 {
                    assert(moves_from(bits, i)[k] == rest[k - 1]);
                }
            }
        }
    }
}

/// `std`'s `u128::trailing_zeros`: the number of zero bits below the lowest
/// set bit, 128 for zero. The contract states that definition: the bit at the
/// result is set and every bit below it is clear.
#[verifier::external_body]
fn u128_trailing_zeros(x: u128) -> (zeros: u32)
    ensures
        zeros <= 128,
        (zeros == 128) == (x == 0),
        zeros < 128 ==> bit128(x, zeros as int) == 1,
        forall|j: int| 0 <= j < zeros ==> #[trigger] bit128(x, j) == 0,
{
    x.trailing_zeros()
}

proof fn lemma_clear_set_bit128(x: u128, t: u128)
    by (bit_vector)
    requires
        t < 128,
        (x >> t) & 1 == 1,
    ensures
        x ^ (1u128 << t) == x & !(1u128 << t),
{
}

proof fn lemma_clear_bit128(x: u128, t: u128, j: u128)
    by (bit_vector)
    requires
        t < 128,
        j < 128,
        (x >> t) & 1 == 1,
    ensures
        ((x ^ (1u128 << t)) >> j) & 1 == if j == t {
            0
        } else {
            (x >> j) & 1
        },
{
}

pub struct ValidMoveIterator {
    pub bitfield: u128,
}

impl ValidMoveIterator {
    /// The moves still to come, in order.
    pub open spec fn remaining(&self) -> Seq<(u8, u8)> {
        moves_from(self.bitfield, 0)
    }

    pub fn new(bitfield: u128) -> (iter: Self)
        ensures
            iter.bitfield == bitfield,
    {
        Self { bitfield }
    }

    /// Yields the move of the lowest set bit below 81 and clears that bit.
    pub fn next(&mut self) -> (next: Option<(u8, u8)>)
        ensures
            old(self).remaining().len() == 0 ==> next is None && final(self).bitfield == old(
                self,
            ).bitfield,
            old(self).remaining().len() > 0 ==> next == Some(old(self).remaining()[0])
                && final(self).remaining() == old(self).remaining().drop_first(),
            next matches Some((row, column)) ==> row < 9 && column < 9 && final(self).bitfield
                == old(self).bitfield & !(1u128 << (row * 9 + column) as u128),
    {
        if self.bitfield == 0 {
            proof {
                lemma_zero_bits128();
                lemma_moves_from_skip(self.bitfield, 0, 81);
            }
            return None;
        }

        let offset = u128_trailing_zeros(self.bitfield);
        proof {
            lemma_moves_from_skip(self.bitfield, 0, offset as int);
        }
        if offset >= 81 {
            proof {
                lemma_moves_from_skip(self.bitfield, 0, 81);
            }
            return None;
        }
        let offset = offset as u8;

        // clear the bit and return the move (row, col)
        let ghost old_bits = self.bitfield;
        self.bitfield = self.bitfield ^ (1u128 << offset as u128);
        proof {
            lemma_clear_set_bit128(old_bits, offset as u128);
            assert((offset / 9) * 9 + offset % 9 == offset);
            assert forall|j: int| 0 <= j < 128 implies #[trigger] bit128(self.bitfield, j) == if j
                == offset {
                0
            } else {
                bit128(old_bits, j)
            } by {
                lemma_clear_bit128(old_bits, offset as u128, j as u128);
            }
            assert forall|j: int| 0 <= j < offset + 1 implies #[trigger] bit128(self.bitfield, j) == 0 by {
                lemma_clear_bit128(old_bits, offset as u128, j as u128);
            }
            lemma_moves_from_skip(self.bitfield, 0, offset + 1);
            lemma_moves_from_bits(self.bitfield, old_bits, offset + 1);
            assert(moves_from(old_bits, offset as int) == seq![(offset / 9, offset % 9)] + moves_from(
                old_bits,
                offset + 1,
            ));
            assert(moves_from(old_bits, 0).drop_first() =~= moves_from(old_bits, offset + 1));
        }
        Some((offset / 9, offset % 9))
    }
}

pub struct MiniboardStatusesIterator {
    pub bitfield: u32,
    offset: u8,
}

impl MiniboardStatusesIterator {
    /// The offset of the next status to yield is at most nine.
    pub closed spec fn wf(&self) -> bool {
        self.offset <= 9
    }

    /// The statuses still to come, in order: the two-bit fields of miniboards
    /// `offset..9`.
    pub closed spec fn remaining(&self) -> Seq<u8> {
        Seq::new(
            (9 - self.offset) as nat,
            |k: int| field(self.bitfield, (2 * (self.offset + k)) as u32, 3) as u8,
        )
    }

    pub fn new(bitfield: u32) -> (iter: Self)
        ensures
            iter.wf(),
            iter.remaining() == Seq::new(9, |k: int| field(bitfield, (2 * k) as u32, 3) as u8),
    {
        let iter = Self { bitfield, offset: 0 };
        assert(iter.remaining() =~= Seq::new(9, |k: int| field(bitfield, (2 * k) as u32, 3) as u8));
        iter
    }

    /// Yields the next miniboard's status, until all nine have been yielded.
    pub fn next(&mut self) -> (next: Option<u8>)
        requires
            old(self).wf(),
        ensures
            final(self).wf(),
            old(self).remaining().len() == 0 ==> next is None && final(self).remaining() == old(
                self,
            ).remaining(),
            old(self).remaining().len() > 0 ==> next == Some(old(self).remaining()[0])
                && final(self).remaining() == old(self).remaining().drop_first(),
    {
        if self.offset == 9 {
            return None;
        }

        let offset = self.offset * 2;

        let mask = 0b11u32 << offset;
        proof {
            lemma_get_field(self.bitfield, offset as u32, 3);
        }
        let status = ((self.bitfield & mask) >> offset) as u8;
        self.offset += 1;
        assert(self.remaining() =~= old(self).remaining().drop_first());
        Some(status)
    }
}

} // verus!
