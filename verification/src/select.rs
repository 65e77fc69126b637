//! Select queries: where the k-th set bit is.

use crate::rank::{
    count_ones, lemma_prefix_monotonic, lemma_prefix_step, lemma_rank_last, rank_of, Rank,
};
use crate::storage::BitStore;
use vstd::pervasive::unreached;
use vstd::prelude::*;

verus! {

/// Whether `p` is the position of the set bit that has exactly `k` set bits
/// before it.
pub open spec fn is_select(bits: Seq<bool>, k: nat, p: int) -> bool {
    &&& 0 <= p < bits.len()
    &&& bits[p]
    &&& count_ones(bits.take(p)) == k
}

/// The position of the `k`-th set bit of `bits`, counting from zero, if
/// there is one.
pub open spec fn select_of(bits: Seq<bool>, k: nat) -> Option<int> {
    if exists|p: int| is_select(bits, k, p) {
        Some(choose|p: int| is_select(bits, k, p))
    } else {
        None
    }
}

/// At most one position is that of the `k`-th set bit.
pub proof fn lemma_select_unique(bits: Seq<bool>, k: nat, p: int, q: int)
    requires
        is_select(bits, k, p),
        is_select(bits, k, q),
    ensures
        p == q,
{
    if p < q {
        lemma_prefix_step(bits, p);
        lemma_prefix_monotonic(bits, p + 1, q);
    } else if q < p {
        lemma_prefix_step(bits, q);
        lemma_prefix_monotonic(bits, q + 1, p);
    }
}

/// A position with the defining property is the one `select_of` names.
pub proof fn lemma_select_is(bits: Seq<bool>, k: nat, p: int)
    requires
        is_select(bits, k, p),
    ensures
        select_of(bits, k) == Some(p),
{
    let q = choose|q: int| is_select(bits, k, q);
    lemma_select_unique(bits, k, p, q);
}

/// Every `k` below the population count has a position.
pub proof fn lemma_select_exists(bits: Seq<bool>, k: nat)
    requires
        k < count_ones(bits),
    ensures
        exists|p: int| is_select(bits, k, p),
    decreases bits.len(),
{
    let front = bits.drop_last();
    let last = bits.len() - 1;
    if k < count_ones(front) {
        lemma_select_exists(front, k);
        let p = choose|p: int| is_select(front, k, p);
        assert(front.take(p) == bits.take(p));
        assert(is_select(bits, k, p));
    } else {
        assert(bits.take(last) == front);
        assert(is_select(bits, k, last));
    }
}

/// Select is defined exactly below the population count: asking for the
/// set bit numbered `count_ones(bits)` or beyond gives nothing.
pub proof fn lemma_select_defined(bits: Seq<bool>, k: nat)
    ensures
        select_of(bits, k) is Some <==> k < count_ones(bits),
{
    if k < count_ones(bits) {
        lemma_select_exists(bits, k);
    }
    if select_of(bits, k) is Some {
        let p = select_of(bits, k)->0;
        lemma_prefix_step(bits, p);
        lemma_prefix_monotonic(bits, p + 1, bits.len() as int);
        assert(bits.take(bits.len() as int) == bits);
    }
}

/// Rank undoes select: at the position of the `k`-th set bit the rank is
/// `k + 1`, and just before it (if there is a position before it) the rank
/// is `k`.
pub proof fn lemma_rank_of_select(bits: Seq<bool>, k: nat, p: int)
    requires
        select_of(bits, k) == Some(p),
    ensures
        0 <= p < bits.len(),
        rank_of(bits, p) == k + 1,
        p == 0 || rank_of(bits, p - 1) == k,
{
    lemma_prefix_step(bits, p);
}

/// Select is strictly increasing: a later set bit lies at a later position.
pub proof fn lemma_select_increasing(bits: Seq<bool>, j: nat, k: nat, p: int, q: int)
    requires
        j < k,
        select_of(bits, j) == Some(p),
        select_of(bits, k) == Some(q),
    ensures
        p < q,
{
    if q <= p {
        lemma_prefix_monotonic(bits, q, p);
    }
}

/// A sequence with no set bit has no position to select.
pub proof fn lemma_select_all_zero(bits: Seq<bool>, k: nat)
    requires
        forall|i: int| 0 <= i < bits.len() ==> !bits[i],
    ensures
        select_of(bits, k) is None,
{
}

/// A bit store that answers select queries.
pub trait Select: BitStore {
    /// The position of the `index`-th set bit, counting from zero, or
    /// `None` when the store has `index` set bits or fewer.
    fn select(&self, index: u64) -> (r: Option<u64>)
        requires
            self.wf(),
        ensures
            r is Some <==> index < count_ones(self.bits()),
            match r {
                Some(p) => select_of(self.bits(), index as nat) == Some(p as int),
                None => select_of(self.bits(), index as nat) is None,
            },
    ;
}

/// Answers select queries by binary search over the rank queries of a
/// borrowed rank structure.
///
/// It stores nothing but the population count; every bit, block and rank
/// query is answered by the structure it borrows.
pub struct BinSearchSelect<'a, R: Rank> {
    rank_support: &'a R,
    max_rank: u64,
}

impl<'a, R: Rank> BinSearchSelect<'a, R> {
    /// Creates a select structure over `rank_support`.
    ///
    /// An empty store has no set bit, and every select query on it gives
    /// `None`.
    pub fn new(rank_support: &'a R) -> (s: Self)
        requires
            rank_support.wf(),
        ensures
            s.wf(),
            s.bits() == rank_support.bits(),
            s.blocks() == rank_support.blocks(),
    {
        let len: u64 = rank_support.bit_len();
        let max_rank: u64 = if len == 0 {
            0
        } else {
            proof {
                lemma_rank_last(rank_support.bits());
            }
            rank_support.rank(len - 1)
        };
        BinSearchSelect { rank_support, max_rank }
    }
}

impl<'a, R: Rank> BitStore for BinSearchSelect<'a, R> {
    type Block = R::Block;

    closed spec fn wf(&self) -> bool {
        &&& self.rank_support.wf()
        &&& self.max_rank == count_ones(self.rank_support.bits())
    }

    closed spec fn bits(&self) -> Seq<bool> {
        self.rank_support.bits()
    }

    closed spec fn blocks(&self) -> Seq<Self::Block> {
        self.rank_support.blocks()
    }

    proof fn lemma_views_agree(&self, i: nat) {
        self.rank_support.lemma_views_agree(i);
    }

    proof fn lemma_lengths_fit(&self) {
        self.rank_support.lemma_lengths_fit();
    }

    fn block_len(&self) -> (n: usize) {
        self.rank_support.block_len()
    }

    fn bit_len(&self) -> (n: u64) {
        self.rank_support.bit_len()
    }

    fn get_block(&self, index: usize) -> (block: Self::Block) {
        self.rank_support.get_block(index)
    }

    fn get_bit(&self, index: u64) -> (bit: bool) {
        self.rank_support.get_bit(index)
    }
}

impl<'a, R: Rank> Rank for BinSearchSelect<'a, R> {
    fn rank(&self, index: u64) -> (r: u64) {
        self.rank_support.rank(index)
    }
}

impl<'a, R: Rank> Select for BinSearchSelect<'a, R> {
    fn select(&self, index: u64) -> (r: Option<u64>) {
        let ghost bits = self.bits();
        let ghost k = index as nat;
        proof {
            lemma_select_defined(bits, k);
        }
        if index >= self.max_rank {
            return None;
        }
        // To find the `index`-th set bit, find the position at which the
        // rank first reaches `index + 1`.
        let rank: u64 = index + 1;
        let ghost p = select_of(bits, k)->0;

        let mut start: u64 = 0;
        let mut limit: u64 = self.bit_len();

        // Search in [start, limit):
        while start < limit
            invariant
                self.wf(),
                bits == self.bits(),
                k == index,
                k < count_ones(bits),
                rank == index + 1,
                is_select(bits, k, p),
                start <= p < limit <= bits.len(),
            decreases limit - start,
        {
            // The average, without risking overflow:
            let mid: u64 = start / 2 + limit / 2 + (start % 2 + limit % 2) / 2;

            let mid_rank: u64 = self.rank(mid);
            let pre_mid_rank: u64 = if mid == 0 {
                0
            } else {
                self.rank(mid - 1)
            };

            proof {
                lemma_prefix_step(bits, p);
                lemma_prefix_step(bits, mid as int);
                assert(bits.take(0).len() == 0);
                if mid < p {
                    lemma_prefix_monotonic(bits, mid + 1, p);
                } else if mid > p {
                    lemma_prefix_monotonic(bits, p + 1, mid as int);
                }
            }

            if mid_rank == rank && pre_mid_rank == rank - 1 {
                proof {
                    lemma_select_is(bits, k, mid as int);
                }
                return Some(mid);
            } else if pre_mid_rank > rank {
                limit = mid - 1;
            } else if pre_mid_rank == rank {
                limit = mid;
            } else if mid_rank < rank {
                start = mid + 1;
            }
        }

        unreached()
    }
}

} // verus!
