//! Rank queries: how many bits are set up to a position.

use crate::storage::{lemma_split_position, BitStore, BlockType};
use vstd::prelude::*;

verus! {

/// The number of set bits in `bits`.
pub open spec fn count_ones(bits: Seq<bool>) -> nat
    decreases bits.len(),
{
    if bits.len() == 0 {
        0
    } else {
        count_ones(bits.drop_last()) + if bits.last() {
            1nat
        } else {
            0nat
        }
    }
}

/// The number of set bits in positions `0..=i` of `bits`.
pub open spec fn rank_of(bits: Seq<bool>, i: int) -> nat {
    count_ones(bits.take(i + 1))
}

/// No sequence has more set bits than bits.
pub proof fn lemma_count_ones_bound(bits: Seq<bool>)
    ensures
        count_ones(bits) <= bits.len(),
    decreases bits.len(),
{
    if bits.len() > 0 {
        lemma_count_ones_bound(bits.drop_last());
    }
}

/// Extending a prefix by one position adds one to its count exactly when
/// the bit at that position is set.
pub proof fn lemma_prefix_step(bits: Seq<bool>, i: int)
    requires
        0 <= i < bits.len(),
    ensures
        count_ones(bits.take(i + 1)) == count_ones(bits.take(i)) + if bits[i] {
            1nat
        } else {
            0nat
        },
{
    assert(bits.take(i + 1).drop_last() == bits.take(i));
}

/// A longer prefix has at least as many set bits as a shorter one.
pub proof fn lemma_prefix_monotonic(bits: Seq<bool>, i: int, j: int)
    requires
        0 <= i <= j <= bits.len(),
    ensures
        count_ones(bits.take(i)) <= count_ones(bits.take(j)),
    decreases j - i,
{
    if i < j {
        lemma_prefix_monotonic(bits, i, j - 1);
        lemma_prefix_step(bits, j - 1);
    }
}

/// Rank grows by at most one per position, and grows exactly where the bit
/// is set; at position 0 it is the bit itself.
pub proof fn lemma_rank_step(bits: Seq<bool>, i: int)
    requires
        0 <= i < bits.len(),
    ensures
        i == 0 ==> rank_of(bits, i) == if bits[0] {
            1nat
        } else {
            0nat
        },
        i > 0 ==> rank_of(bits, i) == rank_of(bits, i - 1) + if bits[i] {
            1nat
        } else {
            0nat
        },
{
    lemma_prefix_step(bits, i);
    if i == 0 {
        assert(bits.take(0).len() == 0);
    }
}

/// Rank never decreases as the position grows.
pub proof fn lemma_rank_monotonic(bits: Seq<bool>, i: int, j: int)
    requires
        0 <= i <= j < bits.len(),
    ensures
        rank_of(bits, i) <= rank_of(bits, j),
{
    lemma_prefix_monotonic(bits, i + 1, j + 1);
}

/// The rank at the last position is the population count of the whole
/// sequence.
pub proof fn lemma_rank_last(bits: Seq<bool>)
    requires
        bits.len() > 0,
    ensures
        rank_of(bits, bits.len() - 1) == count_ones(bits),
{
    assert(bits.take(bits.len() as int) == bits);
}

/// A bit store that answers rank queries.
pub trait Rank: BitStore {
    /// The number of set bits in positions `0..=index`.
    fn rank(&self, index: u64) -> (r: u64)
        requires
            self.wf(),
            index < self.bits().len(),
        ensures
            r == rank_of(self.bits(), index as int),
    ;
}

/// A rank structure over a borrowed bit store that keeps one running count
/// per block.
///
/// A rank query looks up the count of the bits before the block that holds
/// the position, then scans that one block up to the position.
pub struct PrefixRank<'a, S: BitStore + ?Sized> {
    store: &'a S,
    counts: Vec<u64>,
}

/// How the blocks of `width` bits that cover `0..pos` change when `pos`
/// moves one step.
proof fn lemma_block_step(pos: int, width: int)
    by (nonlinear_arith)
    requires
        0 <= pos,
        0 < width,
    ensures
        pos % width == 0 ==> (pos / width) * width == pos,
        pos % width != 0 ==> (pos / width + 1) * width > pos,
        (pos + 1) % width == 0 ==> (pos + 1) / width == pos / width + 1,
        (pos + 1) % width != 0 ==> (pos + 1) / width == pos / width,
{
}

/// A position less its offset within its block is where that block starts.
proof fn lemma_block_start(pos: int, width: int)
    by (nonlinear_arith)
    requires
        0 <= pos,
        0 < width,
    ensures
        0 <= pos - pos % width == (pos / width) * width <= pos,
{
}

impl<'a, S: BitStore + ?Sized> PrefixRank<'a, S> {
    /// The number of blocks of `width` bits that cover positions `0..pos`.
    spec fn covering(pos: int, width: int) -> int {
        if pos % width == 0 {
            pos / width
        } else {
            pos / width + 1
        }
    }

    /// Creates a rank structure over `store`, reading each of its bits once.
    pub fn new(store: &'a S) -> (r: Self)
        requires
            store.wf(),
        ensures
            r.wf(),
            r.bits() == store.bits(),
            r.blocks() == store.blocks(),
    {
        let ghost bits = store.bits();
        let len: u64 = store.bit_len();
        let width: u64 = S::Block::nbits();
        proof {
            S::Block::lemma_width_positive();
        }
        let mut counts: Vec<u64> = Vec::new();
        let mut total: u64 = 0;
        let mut pos: u64 = 0;
        while pos < len
            invariant
                store.wf(),
                bits == store.bits(),
                len == bits.len(),
                width == S::Block::width(),
                width > 0,
                pos <= len,
                total == count_ones(bits.take(pos as int)),
                counts@.len() == Self::covering(pos as int, width as int),
                forall|j: int|
                    0 <= j < counts@.len() ==> #[trigger] counts@[j] == count_ones(
                        bits.take(j * width),
                    ),
            decreases len - pos,
        {
            proof {
                lemma_block_step(pos as int, width as int);
                lemma_prefix_step(bits, pos as int);
                lemma_count_ones_bound(bits.take(pos as int));
            }
            if pos % width == 0 {
                counts.push(total);
            }
            if store.get_bit(pos) {
                total = total + 1;
            }
            pos = pos + 1;
        }
        proof {
            lemma_block_step(pos as int, width as int);
        }
        PrefixRank { store, counts }
    }
}

impl<'a, S: BitStore + ?Sized> BitStore for PrefixRank<'a, S> {
    type Block = S::Block;

    closed spec fn wf(&self) -> bool {
        &&& self.store.wf()
        &&& self.counts@.len() * S::Block::width() >= self.store.bits().len()
        &&& forall|j: int|
            0 <= j < self.counts@.len() ==> #[trigger] self.counts@[j] == count_ones(
                self.store.bits().take(j * S::Block::width()),
            )
    }

    closed spec fn bits(&self) -> Seq<bool> {
        self.store.bits()
    }

    closed spec fn blocks(&self) -> Seq<Self::Block> {
        self.store.blocks()
    }

    proof fn lemma_views_agree(&self, i: nat) {
        self.store.lemma_views_agree(i);
    }

    proof fn lemma_lengths_fit(&self) {
        self.store.lemma_lengths_fit();
    }

    fn block_len(&self) -> (n: usize) {
        self.store.block_len()
    }

    fn bit_len(&self) -> (n: u64) {
        self.store.bit_len()
    }

    fn get_block(&self, index: usize) -> (block: Self::Block) {
        self.store.get_block(index)
    }

    fn get_bit(&self, index: u64) -> (bit: bool) {
        self.store.get_bit(index)
    }
}

impl<'a, S: BitStore + ?Sized> Rank for PrefixRank<'a, S> {
    fn rank(&self, index: u64) -> (r: u64) {
        let ghost bits = self.store.bits();
        let width: u64 = S::Block::nbits();
        proof {
            S::Block::lemma_width_positive();
            self.store.lemma_lengths_fit();
            lemma_split_position(index as int, width as int, self.counts@.len() as int);
            lemma_block_start(index as int, width as int);
            assert(self.counts@.len() == self.counts.len());
        }
        let block: usize = (index / width) as usize;
        let mut total: u64 = self.counts[block];
        let mut pos: u64 = index - index % width;
        while pos <= index
            invariant
                self.store.wf(),
                bits == self.store.bits(),
                index < bits.len() <= u64::MAX,
                pos <= index + 1,
                total == count_ones(bits.take(pos as int)),
            decreases index + 1 - pos,
        {
            proof {
                lemma_prefix_step(bits, pos as int);
                lemma_count_ones_bound(bits.take(pos as int));
            }
            if self.store.get_bit(pos) {
                total = total + 1;
            }
            pos = pos + 1;
        }
        total
    }
}

} // verus!
