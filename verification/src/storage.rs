//! Bit stores: fixed-length bit sequences exposed as bits and as blocks.

use vstd::prelude::*;

verus! {

/// An unsigned integer used as one fixed-width block of a bit store.
///
/// Bits within a block are numbered from the most significant end: bit 0 of
/// a block is its highest-order bit.
pub trait BlockType: Copy + Sized {
    /// The number of bits in a block.
    spec fn width() -> nat;

    /// Bit `i` of the block, for `i < width()`.
    spec fn bit(self, i: nat) -> bool;

    /// A block has at least one bit.
    proof fn lemma_width_positive()
        ensures
            Self::width() > 0,
    ;

    /// The number of bits in a block.
    fn nbits() -> (n: u64)
        ensures
            n == Self::width(),
    ;

    /// Reads bit `i` of the block.
    fn get_bit(self, i: u64) -> (b: bool)
        requires
            i < Self::width(),
        ensures
            b == self.bit(i as nat),
    ;
}

impl BlockType for u8 {
    open spec fn width() -> nat {
        8
    }

    open spec fn bit(self, i: nat) -> bool {
        (self >> ((7 - i) as u8)) & 1 == 1
    }

    proof fn lemma_width_positive() {
    }

    fn nbits() -> (n: u64) {
        8
    }

    fn get_bit(self, i: u64) -> (b: bool) {
        let shift: u8 = 7 - (i as u8);
        (self >> shift) & 1 == 1
    }
}

impl BlockType for u16 {
    open spec fn width() -> nat {
        16
    }

    open spec fn bit(self, i: nat) -> bool {
        (self >> ((15 - i) as u16)) & 1 == 1
    }

    proof fn lemma_width_positive() {
    }

    fn nbits() -> (n: u64) {
        16
    }

    fn get_bit(self, i: u64) -> (b: bool) {
        let shift: u16 = 15 - (i as u16);
        (self >> shift) & 1 == 1
    }
}

impl BlockType for u32 {
    open spec fn width() -> nat {
        32
    }

    open spec fn bit(self, i: nat) -> bool {
        (self >> ((31 - i) as u32)) & 1 == 1
    }

    proof fn lemma_width_positive() {
    }

    fn nbits() -> (n: u64) {
        32
    }

    fn get_bit(self, i: u64) -> (b: bool) {
        let shift: u32 = 31 - (i as u32);
        (self >> shift) & 1 == 1
    }
}

impl BlockType for u64 {
    open spec fn width() -> nat {
        64
    }

    open spec fn bit(self, i: nat) -> bool {
        (self >> ((63 - i) as u64)) & 1 == 1
    }

    proof fn lemma_width_positive() {
    }

    fn nbits() -> (n: u64) {
        64
    }

    fn get_bit(self, i: u64) -> (b: bool) {
        let shift: u64 = 63 - i;
        (self >> shift) & 1 == 1
    }
}

/// A read-only, fixed-length sequence of bits that can be read bit by bit or
/// a whole block at a time.
///
/// The model of a store is the sequence `bits()`. The blocks expose the same
/// bits packed `Block::width()` to a block, and the two views never
/// disagree: that is `lemma_views_agree`, which every store proves.
pub trait BitStore {
    /// The unsigned integer type of one block.
    type Block: BlockType;

    /// Whether the store's internal invariant holds. Every query asks for it.
    spec fn wf(&self) -> bool;

    /// The bits of the store, in order.
    spec fn bits(&self) -> Seq<bool>;

    /// The blocks of the store, in order.
    spec fn blocks(&self) -> Seq<Self::Block>;

    /// Bit `i` of the store is bit `i % width` of block `i / width`.
    proof fn lemma_views_agree(&self, i: nat)
        requires
            self.wf(),
            i < self.bits().len(),
        ensures
            i / Self::Block::width() < self.blocks().len(),
            self.bits()[i as int] == self.blocks()[(i / Self::Block::width()) as int].bit(
                i % Self::Block::width(),
            ),
    ;

    /// Both lengths fit the integer types that report them.
    proof fn lemma_lengths_fit(&self)
        requires
            self.wf(),
        ensures
            self.bits().len() <= u64::MAX,
            self.blocks().len() <= usize::MAX,
    ;

    /// The number of blocks.
    fn block_len(&self) -> (n: usize)
        requires
            self.wf(),
        ensures
            n == self.blocks().len(),
    ;

    /// The number of bits.
    fn bit_len(&self) -> (n: u64)
        requires
            self.wf(),
        ensures
            n == self.bits().len(),
    ;

    /// The block at `index`.
    fn get_block(&self, index: usize) -> (block: Self::Block)
        requires
            self.wf(),
            index < self.blocks().len(),
        ensures
            block == self.blocks()[index as int],
    ;

    /// The bit at `index`.
    fn get_bit(&self, index: u64) -> (bit: bool)
        requires
            self.wf(),
            index < self.bits().len(),
        ensures
            bit == self.bits()[index as int],
    ;
}

/// A slice of blocks is a bit store of `len * width` bits: block after
/// block, and within each block from the most significant bit down.
impl<B: BlockType> BitStore for [B] {
    type Block = B;

    /// The bit length must fit the position type.
    open spec fn wf(&self) -> bool {
        self@.len() * B::width() <= u64::MAX
    }

    open spec fn bits(&self) -> Seq<bool> {
        Seq::new(
            self@.len() * B::width(),
            |i: int| self@[i / B::width() as int].bit((i % B::width() as int) as nat),
        )
    }

    open spec fn blocks(&self) -> Seq<B> {
        self@
    }

    proof fn lemma_views_agree(&self, i: nat) {
        B::lemma_width_positive();
        lemma_split_position(i as int, B::width() as int, self@.len() as int);
    }

    proof fn lemma_lengths_fit(&self) {
        assert(self@.len() == self.len());
    }

    fn block_len(&self) -> (n: usize) {
        self.len()
    }

    fn bit_len(&self) -> (n: u64) {
        self.len() as u64 * B::nbits()
    }

    fn get_block(&self, index: usize) -> (block: B) {
        self[index]
    }

    fn get_bit(&self, index: u64) -> (bit: bool) {
        proof {
            B::lemma_width_positive();
            lemma_split_position(index as int, B::width() as int, self@.len() as int);
        }
        let width: u64 = B::nbits();
        let block: B = self[(index / width) as usize];
        block.get_bit(index % width)
    }
}

/// A position below `count * width` lies in one of the first `count`
/// blocks, at an offset below `width`.
pub(crate) proof fn lemma_split_position(i: int, width: int, count: int)
    by (nonlinear_arith)
    requires
        0 < width,
        0 <= i < count * width,
    ensures
        0 <= i / width < count,
        0 <= i % width < width,
{
}

} // verus!
