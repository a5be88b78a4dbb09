//! Fixed-length bit vector packed into 64-bit words, with whole-vector
//! set operations.

use vstd::prelude::*;

verus! {

/// Bit `b` of the word `w`.
pub open spec fn nth_bit(w: u64, b: u64) -> bool {
    (w >> b) & 1u64 == 1u64
}

proof fn lemma_bit_test(x: u64, b: u64)
    by (bit_vector)
    requires
        b < 64,
    ensures
        ((x & (1u64 << b)) != 0) == nth_bit(x, b),
{
}

proof fn lemma_set_bit(x: u64, b: u64, j: u64)
    by (bit_vector)
    requires
        b < 64,
        j < 64,
    ensures
        nth_bit(x | (1u64 << b), j) == (j == b || nth_bit(x, j)),
        nth_bit(x & !(1u64 << b), j) == (j != b && nth_bit(x, j)),
{
}

proof fn lemma_word_ops(a: u64, b: u64, j: u64)
    by (bit_vector)
    requires
        j < 64,
    ensures
        nth_bit(a | b, j) == (nth_bit(a, j) || nth_bit(b, j)),
        nth_bit(a & b, j) == (nth_bit(a, j) && nth_bit(b, j)),
        nth_bit(a & !b, j) == (nth_bit(a, j) && !nth_bit(b, j)),
{
}

/// A word-by-word boolean operation on two bit vectors.
#[derive(Clone, Copy)]
enum BlockOp {
    Or,
    And,
    AndNot,
}

/// The effect of a `BlockOp` on a single pair of bits.
spec fn apply_bit(op: BlockOp, a: bool, b: bool) -> bool {
    match op {
        BlockOp::Or => a || b,
        BlockOp::And => a && b,
        BlockOp::AndNot => a && !b,
    }
}

/// Fixed-length bit vector.
///
/// Bit `i` lives at bit offset `i % 64` of word `i / 64`. Bits at or past
/// the logical length are kept zero so that whole-word operations on two
/// vectors of equal length stay sound.
pub struct BitArray {
    blocks: Vec<u64>,
    nbits: usize,
}

impl View for BitArray {
    type V = Seq<bool>;

    /// The logical sequence of bits.
    closed spec fn view(&self) -> Seq<bool> {
        Seq::new(self.nbits as nat, |i: int| nth_bit(self.blocks@[i / 64], (i % 64) as u64))
    }
}

impl BitArray {
    /// Internal consistency: exactly enough words for the bits, and every
    /// word bit at or past the logical length is zero.
    pub closed spec fn wf(self) -> bool {
        &&& self.blocks.len() == (self.nbits + 63) / 64
        &&& forall|i: int|
            self.nbits <= i < 64 * self.blocks.len() ==> !nth_bit(
                #[trigger] self.blocks@[i / 64],
                (i % 64) as u64,
            )
    }

    /// Creates a bit vector of `nbits` bits, all zero.
    pub fn new(nbits: usize) -> (r: BitArray)
        requires
            nbits + 63 <= usize::MAX,
        ensures
            r.wf(),
            r@.len() == nbits,
            forall|i: int| 0 <= i < nbits ==> r@[i] == false,
    {
        let len = (nbits + 63) / 64;
        let mut blocks: Vec<u64> = Vec::new();
        while blocks.len() < len
            invariant
                blocks.len() <= len,
                forall|j: int| 0 <= j < blocks.len() ==> blocks@[j] == 0,
            decreases len - blocks.len(),
        {
            blocks.push(0);
        }
        let r = BitArray { blocks, nbits };
        proof {
            assert forall|i: int| 0 <= i < 64 * r.blocks.len() implies !nth_bit(
                #[trigger] r.blocks@[i / 64],
                (i % 64) as u64,
            ) by {
                let j = (i % 64) as u64;
                assert(!nth_bit(0u64, j)) by (bit_vector);
            }
        }
        r
    }

    /// Returns the number of bits.
    pub fn len(&self) -> (r: usize)
        ensures
            r == self@.len(),
    {
        self.nbits
    }

    /// Returns whether the vector has no bits at all.
    pub fn is_empty(&self) -> (r: bool)
        ensures
            r == (self@.len() == 0),
    {
        self.nbits == 0
    }

    /// Returns bit `i`.
    pub fn get(&self, i: usize) -> (r: bool)
        requires
            self.wf(),
            i < self@.len(),
        ensures
            r == self@[i as int],
    {
        let w = i / 64;
        let b = i % 64;
        proof {
            lemma_bit_test(self.blocks@[w as int], b as u64);
        }
        (self.blocks[w] & (1u64 << b)) != 0
    }

    /// Sets bit `i` to `x`.
    pub fn set(&mut self, i: usize, x: bool)
        requires
            old(self).wf(),
            i < old(self)@.len(),
        ensures
            final(self).wf(),
            final(self)@ == old(self)@.update(i as int, x),
    {
        let w = i / 64;
        let b = i % 64;
        let flag = 1u64 << b;
        let val = if x {
            self.blocks[w] | flag
        } else {
            self.blocks[w] & !flag
        };
        let ghost old_blocks = self.blocks@;
        self.blocks.set(w, val);
        proof {
            assert forall|k: int| 0 <= k < 64 * self.blocks.len() implies nth_bit(
                #[trigger] self.blocks@[k / 64],
                (k % 64) as u64,
            ) == (if k == i {
                x
            } else {
                nth_bit(old_blocks[k / 64], (k % 64) as u64)
            }) by {
                if k / 64 == w {
                    lemma_set_bit(old_blocks[w as int], b as u64, (k % 64) as u64);
                }
            }
            assert(final(self)@ =~= old(self)@.update(i as int, x));
        }
    }

    /// In-place bitwise-or with `other`: afterwards bit `i` is
    /// `old(self)[i] || other[i]`.
    pub fn union(&mut self, other: &BitArray)
        requires
            old(self).wf(),
            other.wf(),
            old(self)@.len() == other@.len(),
        ensures
            final(self).wf(),
            final(self)@.len() == old(self)@.len(),
            forall|i: int|
                0 <= i < final(self)@.len() ==> #[trigger] final(self)@[i] == (old(self)@[i]
                    || other@[i]),
    {
        self.mutate(other, BlockOp::Or)
    }

    /// In-place bitwise-and with `other`: afterwards bit `i` is
    /// `old(self)[i] && other[i]`.
    pub fn intersect(&mut self, other: &BitArray)
        requires
            old(self).wf(),
            other.wf(),
            old(self)@.len() == other@.len(),
        ensures
            final(self).wf(),
            final(self)@.len() == old(self)@.len(),
            forall|i: int|
                0 <= i < final(self)@.len() ==> #[trigger] final(self)@[i] == (old(self)@[i]
                    && other@[i]),
    {
        self.mutate(other, BlockOp::And)
    }

    /// In-place set difference with `other`: afterwards bit `i` is
    /// `old(self)[i] && !other[i]`.
    pub fn difference(&mut self, other: &BitArray)
        requires
            old(self).wf(),
            other.wf(),
            old(self)@.len() == other@.len(),
        ensures
            final(self).wf(),
            final(self)@.len() == old(self)@.len(),
            forall|i: int|
                0 <= i < final(self)@.len() ==> #[trigger] final(self)@[i] == (old(self)@[i]
                    && !other@[i]),
    {
        self.mutate(other, BlockOp::AndNot)
    }

    /// Applies `op` word by word against `other`.
    fn mutate(&mut self, other: &BitArray, op: BlockOp)
        requires
            old(self).wf(),
            other.wf(),
            old(self)@.len() == other@.len(),
        ensures
            final(self).wf(),
            final(self)@.len() == old(self)@.len(),
            forall|i: int|
                0 <= i < final(self)@.len() ==> #[trigger] final(self)@[i] == apply_bit(
                    op,
                    old(self)@[i],
                    other@[i],
                ),
    {
        let ghost old_blocks = self.blocks@;
        let mut w: usize = 0;
        while w < self.blocks.len()
            invariant
                w <= self.blocks.len(),
                self.blocks.len() == old_blocks.len(),
                self.nbits == old(self).nbits,
                old(self).blocks@ == old_blocks,
                old(self).wf(),
                other.wf(),
                old(self)@.len() == other@.len(),
                other.blocks.len() == old_blocks.len(),
                forall|k: int|
                    0 <= k < w ==> #[trigger] self.blocks@[k] == (match op {
                        BlockOp::Or => old_blocks[k] | other.blocks@[k],
                        BlockOp::And => old_blocks[k] & other.blocks@[k],
                        BlockOp::AndNot => old_blocks[k] & !other.blocks@[k],
                    }),
                forall|k: int| w <= k < old_blocks.len() ==> #[trigger] self.blocks@[k]
                    == old_blocks[k],
            decreases self.blocks.len() - w,
        {
            let a = self.blocks[w];
            let b = other.blocks[w];
            let v = match op {
                BlockOp::Or => a | b,
                BlockOp::And => a & b,
                BlockOp::AndNot => a & !b,
            };
            self.blocks.set(w, v);
            w += 1;
        }
        proof {
            assert forall|i: int| 0 <= i < 64 * self.blocks.len() implies nth_bit(
                #[trigger] self.blocks@[i / 64],
                (i % 64) as u64,
            ) == apply_bit(
                op,
                nth_bit(old_blocks[i / 64], (i % 64) as u64),
                nth_bit(other.blocks@[i / 64], (i % 64) as u64),
            ) by {
                lemma_word_ops(old_blocks[i / 64], other.blocks@[i / 64], (i % 64) as u64);
            }
            assert forall|i: int|
                self.nbits <= i < 64 * self.blocks.len() implies !nth_bit(
                #[trigger] self.blocks@[i / 64],
                (i % 64) as u64,
            ) by {}
        }
    }
}

} // verus!
