use succinct::storage::{BitStore, BlockType};

#[test]
fn block_widths() {
    assert_eq!(8, <u8 as BlockType>::nbits());
    assert_eq!(16, <u16 as BlockType>::nbits());
    assert_eq!(32, <u32 as BlockType>::nbits());
    assert_eq!(64, <u64 as BlockType>::nbits());
}

#[test]
fn block_bits_count_from_the_top() {
    assert!(BlockType::get_bit(0b1000_0000u8, 0));
    assert!(!BlockType::get_bit(0b1000_0000u8, 1));
    assert!(!BlockType::get_bit(0b1000_0000u8, 7));
    assert!(BlockType::get_bit(0b0000_0001u8, 7));
    assert!(!BlockType::get_bit(0b0000_0001u8, 0));

    assert!(BlockType::get_bit(0x8000u16, 0));
    assert!(BlockType::get_bit(0x0001u16, 15));
    assert!(!BlockType::get_bit(0x0001u16, 14));

    assert!(BlockType::get_bit(0x8000_0000u32, 0));
    assert!(BlockType::get_bit(0x0000_0001u32, 31));
    assert!(BlockType::get_bit(0x0000_E000u32, 16));
    assert!(BlockType::get_bit(0x0000_E000u32, 18));
    assert!(!BlockType::get_bit(0x0000_E000u32, 19));

    assert!(BlockType::get_bit(0x8000_0000_0000_0000u64, 0));
    assert!(BlockType::get_bit(1u64, 63));
    assert!(!BlockType::get_bit(1u64, 62));
}

#[test]
fn block_bits_spell_the_value() {
    let block = 0b1011_0010u8;
    let expected = [true, false, true, true, false, false, true, false];
    for i in 0..8u64 {
        assert_eq!(expected[i as usize], BlockType::get_bit(block, i));
    }
}

#[test]
fn slice_store_lengths() {
    let bytes = [0u8; 5];
    assert_eq!(5, bytes[..].block_len());
    assert_eq!(40, bytes[..].bit_len());

    let words = vec![0u64; 3];
    assert_eq!(3, words[..].block_len());
    assert_eq!(192, words[..].bit_len());

    let none: [u16; 0] = [];
    assert_eq!(0, none[..].block_len());
    assert_eq!(0, none[..].bit_len());
}

#[test]
fn slice_store_bits_agree_with_blocks() {
    let blocks = vec![0x0123u16, 0x4567, 0x89AB, 0xCDEF];
    let store = &blocks[..];
    for i in 0..store.bit_len() {
        let block = store.get_block((i / 16) as usize);
        assert_eq!(BlockType::get_bit(block, i % 16), store.get_bit(i));
    }
    assert_eq!(0x4567, store.get_block(1));
    assert!(!store.get_bit(16));
    assert!(store.get_bit(17));
    assert!(store.get_bit(63));
}
