use concurrent_hash_map::bits::make_split_order_key;
use concurrent_hash_map::bits::reserve_only_msb;
use concurrent_hash_map::bits::reverse_bits;
use concurrent_hash_map::bits::table_size_for;

#[test]
fn test_reverse_bits() {
    assert_eq!(0xFA00000000000000u64, reverse_bits(0x5Fu64));
    assert_eq!(0x5Fu64, reverse_bits(0xFA00000000000000u64));
}

#[test]
fn test_table_size() {
    assert_eq!(1usize << 3, table_size_for(5));
    assert_eq!(1usize << 3, table_size_for(6));
    assert_eq!(1usize << 3, table_size_for(7));
}

const SAMPLES: [u64; 8] = [
    0,
    1,
    0x5F,
    0x8000_0000_0000_0000,
    0x0123_4567_89AB_CDEF,
    0xFFFF_FFFF_0000_0000,
    0xDEAD_BEEF_CAFE_F00D,
    u64::MAX,
];

#[test]
fn reversal_agrees_with_the_standard_one() {
    for x in SAMPLES {
        assert_eq!(x.reverse_bits(), reverse_bits(x));
        assert_eq!(x, reverse_bits(reverse_bits(x)));
    }
    for shift in 0..8 {
        for byte in 0..256u64 {
            let x = byte << (8 * shift);
            assert_eq!(x.reverse_bits(), reverse_bits(x));
        }
    }
}

#[test]
fn split_order_keys_are_odd() {
    assert_eq!(1, make_split_order_key(0));
    assert_eq!(0x8000_0000_0000_0001, make_split_order_key(1));
    assert_eq!(0xC000_0000_0000_0001, make_split_order_key(3));
    for x in SAMPLES {
        assert_eq!(1, make_split_order_key(x) % 2);
        assert_eq!(make_split_order_key(x), make_split_order_key(x | 1 << 63));
    }
    for pos in 0..1024u64 {
        assert_eq!(0, reverse_bits(pos) % 2);
    }
}

#[test]
fn sentinels_precede_their_buckets() {
    for size in [1u64, 2, 16, 1 << 20, 1 << 62] {
        for x in SAMPLES {
            assert!(reverse_bits(x % size) < make_split_order_key(x));
        }
    }
}

#[test]
fn buckets_do_not_overlap() {
    for size in [1u64, 2, 16, 256] {
        for x in SAMPLES {
            for other in 0..size {
                if reverse_bits(x % size) < reverse_bits(other) {
                    assert!(make_split_order_key(x) < reverse_bits(other));
                }
            }
        }
    }
    // Bucket 1 of 4 ends before the sentinel of bucket 3.
    assert_eq!(0x8000_0000_0000_0000, reverse_bits(1));
    assert_eq!(0xA000_0000_0000_0001, make_split_order_key(5));
    assert_eq!(0xC000_0000_0000_0000, reverse_bits(3));
}

#[test]
fn the_most_significant_bit_stays() {
    assert_eq!(0, reserve_only_msb(0));
    assert_eq!(1, reserve_only_msb(1));
    assert_eq!(2, reserve_only_msb(3));
    assert_eq!(0x40, reserve_only_msb(0x5F));
    assert_eq!(1 << 63, reserve_only_msb(u64::MAX));
    for bit in 0..64 {
        assert_eq!(1u64 << bit, reserve_only_msb(1u64 << bit));
    }
}

#[test]
fn table_sizes_are_the_next_powers_of_two() {
    assert_eq!(1, table_size_for(1));
    assert_eq!(2, table_size_for(2));
    assert_eq!(4, table_size_for(3));
    assert_eq!(8, table_size_for(8));
    assert_eq!(16, table_size_for(9));
    assert_eq!(1024, table_size_for(1000));
    let top = usize::MAX / 2 + 1;
    assert_eq!(top, table_size_for(top - 1));
    assert_eq!(top, table_size_for(top));
    assert_eq!(top, table_size_for(top + 1));
    assert_eq!(top, table_size_for(usize::MAX));
}
