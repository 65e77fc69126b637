use succinct::rank::{PrefixRank, Rank};
use succinct::storage::BitStore;

#[test]
fn rank_counts_set_bits_up_to_and_including() {
    let vec = vec![0b10000000000000001110000000000000u32; 4];
    let rank = PrefixRank::new(&*vec);

    assert_eq!(1, rank.rank(0));
    assert_eq!(1, rank.rank(15));
    assert_eq!(2, rank.rank(16));
    assert_eq!(3, rank.rank(17));
    assert_eq!(4, rank.rank(18));
    assert_eq!(4, rank.rank(31));
    assert_eq!(5, rank.rank(32));
    assert_eq!(16, rank.rank(127));
}

#[test]
fn rank_of_all_zero_and_all_one_stores() {
    let zeros = vec![0u8; 9];
    let rank = PrefixRank::new(&*zeros);
    for i in 0..72u64 {
        assert_eq!(0, rank.rank(i));
    }

    let ones = vec![u64::MAX; 3];
    let rank = PrefixRank::new(&*ones);
    for i in 0..192u64 {
        assert_eq!(i + 1, rank.rank(i));
    }
}

#[test]
fn rank_steps_by_the_bit() {
    let vec = vec![0xDEAD_BEEFu32, 0, 0x0BAD_F00D, u32::MAX, 0x1234_5678];
    let rank = PrefixRank::new(&*vec);
    let mut expected: u64 = 0;
    for i in 0..rank.bit_len() {
        if rank.get_bit(i) {
            expected += 1;
        }
        assert_eq!(expected, rank.rank(i));
    }
    assert_eq!(24 + 0 + 15 + 32 + 13, expected);
}

#[test]
fn rank_forwards_store_queries() {
    let vec = vec![0xA5u8, 0x0F, 0x80];
    let rank = PrefixRank::new(&*vec);

    assert_eq!(3, rank.block_len());
    assert_eq!(24, rank.bit_len());
    assert_eq!(0x0F, rank.get_block(1));
    for i in 0..24u64 {
        assert_eq!(vec.get_bit(i), rank.get_bit(i));
    }
    assert_eq!(4, rank.rank(7));
    assert_eq!(8, rank.rank(15));
    assert_eq!(9, rank.rank(16));
    assert_eq!(9, rank.rank(23));
}
