//! Bit arithmetic behind the table: reversed hash codes, which order the nodes
//! of a bucket, and powers of two, which size the table.

use vstd::arithmetic::power2::pow2;
use vstd::prelude::*;

verus! {

/// `REVERSED_BITS[b]` is the byte `b` with its eight bits in the opposite order.
pub const REVERSED_BITS: [u8; 256] = [
    0x00, 0x80, 0x40, 0xC0, 0x20, 0xA0, 0x60, 0xE0, 0x10, 0x90, 0x50, 0xD0, 0x30, 0xB0, 0x70, 0xF0,
    0x08, 0x88, 0x48, 0xC8, 0x28, 0xA8, 0x68, 0xE8, 0x18, 0x98, 0x58, 0xD8, 0x38, 0xB8, 0x78, 0xF8,
    0x04, 0x84, 0x44, 0xC4, 0x24, 0xA4, 0x64, 0xE4, 0x14, 0x94, 0x54, 0xD4, 0x34, 0xB4, 0x74, 0xF4,
    0x0C, 0x8C, 0x4C, 0xCC, 0x2C, 0xAC, 0x6C, 0xEC, 0x1C, 0x9C, 0x5C, 0xDC, 0x3C, 0xBC, 0x7C, 0xFC,
    0x02, 0x82, 0x42, 0xC2, 0x22, 0xA2, 0x62, 0xE2, 0x12, 0x92, 0x52, 0xD2, 0x32, 0xB2, 0x72, 0xF2,
    0x0A, 0x8A, 0x4A, 0xCA, 0x2A, 0xAA, 0x6A, 0xEA, 0x1A, 0x9A, 0x5A, 0xDA, 0x3A, 0xBA, 0x7A, 0xFA,
    0x06, 0x86, 0x46, 0xC6, 0x26, 0xA6, 0x66, 0xE6, 0x16, 0x96, 0x56, 0xD6, 0x36, 0xB6, 0x76, 0xF6,
    0x0E, 0x8E, 0x4E, 0xCE, 0x2E, 0xAE, 0x6E, 0xEE, 0x1E, 0x9E, 0x5E, 0xDE, 0x3E, 0xBE, 0x7E, 0xFE,
    0x01, 0x81, 0x41, 0xC1, 0x21, 0xA1, 0x61, 0xE1, 0x11, 0x91, 0x51, 0xD1, 0x31, 0xB1, 0x71, 0xF1,
    0x09, 0x89, 0x49, 0xC9, 0x29, 0xA9, 0x69, 0xE9, 0x19, 0x99, 0x59, 0xD9, 0x39, 0xB9, 0x79, 0xF9,
    0x05, 0x85, 0x45, 0xC5, 0x25, 0xA5, 0x65, 0xE5, 0x15, 0x95, 0x55, 0xD5, 0x35, 0xB5, 0x75, 0xF5,
    0x0D, 0x8D, 0x4D, 0xCD, 0x2D, 0xAD, 0x6D, 0xED, 0x1D, 0x9D, 0x5D, 0xDD, 0x3D, 0xBD, 0x7D, 0xFD,
    0x03, 0x83, 0x43, 0xC3, 0x23, 0xA3, 0x63, 0xE3, 0x13, 0x93, 0x53, 0xD3, 0x33, 0xB3, 0x73, 0xF3,
    0x0B, 0x8B, 0x4B, 0xCB, 0x2B, 0xAB, 0x6B, 0xEB, 0x1B, 0x9B, 0x5B, 0xDB, 0x3B, 0xBB, 0x7B, 0xFB,
    0x07, 0x87, 0x47, 0xC7, 0x27, 0xA7, 0x67, 0xE7, 0x17, 0x97, 0x57, 0xD7, 0x37, 0xB7, 0x77, 0xF7,
    0x0F, 0x8F, 0x4F, 0xCF, 0x2F, 0xAF, 0x6F, 0xEF, 0x1F, 0x9F, 0x5F, 0xDF, 0x3F, 0xBF, 0x7F, 0xFF,
];

/// The top bit of a hash code. Setting it before the reversal makes the split
/// order key of every stored key odd.
pub const MASK: u64 = 0x8000_0000_0000_0000;

/// The greatest power of two that fits in a `usize`.
pub const MAX_CAPACITY: usize = usize::MAX - usize::MAX / 2;

/// Bit `i` of `x`, counted from the least significant one.
pub open spec fn bit(x: u64, i: u64) -> bool {
    (x >> i) & 1 == 1
}

/// `r` holds the bits of `x` in the opposite order.
pub open spec fn is_reversal(x: u64, r: u64) -> bool {
    forall|i: u64| i < 64 ==> #[trigger] bit(r, i) == bit(x, (63 - i) as u64)
}

/// `x` with its 64 bits in the opposite order: neighbouring bits change places,
/// then neighbouring pairs, nibbles, bytes, and so on up to the two halves.
pub open spec fn reversed(x: u64) -> u64 {
    let x1 = ((x & 0x5555_5555_5555_5555) << 1) | ((x >> 1) & 0x5555_5555_5555_5555);
    let x2 = ((x1 & 0x3333_3333_3333_3333) << 2) | ((x1 >> 2) & 0x3333_3333_3333_3333);
    let x4 = ((x2 & 0x0F0F_0F0F_0F0F_0F0F) << 4) | ((x2 >> 4) & 0x0F0F_0F0F_0F0F_0F0F);
    let x8 = ((x4 & 0x00FF_00FF_00FF_00FF) << 8) | ((x4 >> 8) & 0x00FF_00FF_00FF_00FF);
    let x16 = ((x8 & 0x0000_FFFF_0000_FFFF) << 16) | ((x8 >> 16) & 0x0000_FFFF_0000_FFFF);
    (x16 << 32) | (x16 >> 32)
}

/// The split order key of a hash code: its bits reversed, the top bit set first.
pub open spec fn split_order(hash_code: u64) -> u64 {
    reversed(hash_code | MASK)
}

/// The byte `b`, reversed, written as a sum over its bits.
spec fn reversed_byte(b: int) -> int {
    (b % 2) * 128 + (b / 2 % 2) * 64 + (b / 4 % 2) * 32 + (b / 8 % 2) * 16 + (b / 16 % 2) * 8 + (b
        / 32 % 2) * 4 + (b / 64 % 2) * 2 + b / 128
}

/// The bits of a reversal that `x` rounds of byte swapping have produced.
spec fn swapped(x: u64) -> u64 {
    if x == 0 {
        0
    } else if x == 1 {
        0xFF00_0000_0000_00FF
    } else if x == 2 {
        0xFFFF_0000_0000_FFFF
    } else if x == 3 {
        0xFFFF_FF00_00FF_FFFF
    } else {
        0xFFFF_FFFF_FFFF_FFFF
    }
}

#[verifier::rlimit(50)]
proof fn lemma_reversed_bits_table()
    ensures
        forall|b: int| 0 <= b < 256 ==> #[trigger] REVERSED_BITS[b] == reversed_byte(b),
{
}

proof fn lemma_swap_round(h: u64, x: u64, ret: u64, left: u64, right: u64)
    by (bit_vector)
    requires
        x < 4,
        ret == reversed(h) & swapped(x),
        left as int == reversed_byte(((h >> ((8 * (7 - x)) as u64)) & 0xFF) as int),
        right as int == reversed_byte(((h >> ((8 * x) as u64)) & 0xFF) as int),
    ensures
        ret | (right << ((8 * (7 - x)) as u64)) | (left << ((8 * x) as u64)) == reversed(h)
            & swapped((x + 1) as u64),
{
}

/// Bit `i` of the reversal of `x` is bit `63 - i` of `x`.
pub proof fn law_reversed_moves_every_bit(x: u64)
    ensures
        is_reversal(x, reversed(x)),
{
    assert forall|i: u64| i < 64 implies #[trigger] bit(reversed(x), i) == bit(
        x,
        (63 - i) as u64,
    ) by {
        assert(i < 64 ==> bit(reversed(x), i) == bit(x, (63 - i) as u64)) by (bit_vector);
    }
}

/// The bits of `hash_code` in the opposite order.
pub fn reverse_bits(hash_code: u64) -> (r: u64)
    ensures
        is_reversal(hash_code, r),
        r == reversed(hash_code),
{
    let mut ret: u64 = 0;
    assert(0 == reversed(hash_code) & 0) by (bit_vector);
    for x in 0u64..4
        invariant
            ret == reversed(hash_code) & swapped(x),
    {
        let left_shifts: u64 = 8 * (7 - x);
        let right_shifts: u64 = 8 * x;
        let left_byte: u64 = (hash_code >> left_shifts) & 0xFF;
        let right_byte: u64 = (hash_code >> right_shifts) & 0xFF;
        assert(left_byte < 256 && right_byte < 256) by (bit_vector)
            requires
                left_byte == (hash_code >> left_shifts) & 0xFF,
                right_byte == (hash_code >> right_shifts) & 0xFF,
        ;
        let left: u64 = REVERSED_BITS[left_byte as usize] as u64;
        let right: u64 = REVERSED_BITS[right_byte as usize] as u64;
        proof {
            lemma_reversed_bits_table();
            lemma_swap_round(hash_code, x, ret, left, right);
        }
        ret |= right << left_shifts;
        ret |= left << right_shifts;
    }
    assert(reversed(hash_code) & 0xFFFF_FFFF_FFFF_FFFF == reversed(hash_code)) by (bit_vector);
    proof {
        law_reversed_moves_every_bit(hash_code);
    }
    ret
}

/// A split order key has the bits of the hash code in the opposite order, but for the last
/// one, which is set.
pub proof fn law_split_order_keys_are_reversed_hash_codes(hash_code: u64, i: u64)
    requires
        i < 64,
    ensures
        (reversed(hash_code) >> (63 - i) as u64) & 1 == (hash_code >> i) & 1,
        i < 63 ==> (split_order(hash_code) >> (63 - i) as u64) & 1 == (hash_code >> i) & 1,
        split_order(hash_code) & 1 == 1,
{
    assert(i < 64 ==> (reversed(hash_code) >> (63 - i) as u64) & 1 == (hash_code >> i) & 1)
        by (bit_vector);
    assert(i < 63 ==> (split_order(hash_code) >> (63 - i) as u64) & 1 == (hash_code >> i) & 1)
        by (bit_vector);
    assert(split_order(hash_code) & 1 == 1) by (bit_vector);
}

/// Reversing twice gives the number back.
pub proof fn law_reversed_is_its_own_inverse(x: u64)
    ensures
        reversed(reversed(x)) == x,
{
    assert(reversed(reversed(x)) == x) by (bit_vector);
}

/// The split order key of `hash_code`.
pub fn make_split_order_key(hash_code: u64) -> (r: u64)
    ensures
        r == split_order(hash_code),
        is_reversal(hash_code | MASK, r),
{
    reverse_bits(hash_code | MASK)
}

/// Split order keys of hash codes are odd and those of sentinels are even, so
/// that no stored node ever shares its split order key with a sentinel.
pub proof fn law_split_order_tells_nodes_from_sentinels(hash_code: u64, bucket_pos: u64)
    requires
        bucket_pos < MASK,
    ensures
        split_order(hash_code) % 2 == 1,
        reversed(bucket_pos) % 2 == 0,
{
    assert(split_order(hash_code) % 2 == 1) by (bit_vector);
    assert(bucket_pos < 0x8000_0000_0000_0000 ==> reversed(bucket_pos) % 2 == 0) by (bit_vector);
}

/// Two hash codes have one split order key exactly when they agree on every bit
/// but the top one.
pub proof fn law_split_order_forgets_only_the_top_bit(a: u64, b: u64)
    ensures
        split_order(a) == split_order(b) <==> a | MASK == b | MASK,
{
    law_reversed_is_its_own_inverse(a | MASK);
    law_reversed_is_its_own_inverse(b | MASK);
}

/// `x` is a power of two.
pub open spec fn is_power_of_two(x: int) -> bool {
    exists|k: nat| #[trigger] pow2(k) == x
}

/// Masking with a power of two less one gives the remainder by that power.
pub proof fn lemma_mask_is_remainder(x: u64, size: u64)
    requires
        is_power_of_two(size as int),
    ensures
        size > 0,
        ((size - 1) as u64) & x == x as int % size as int,
{
    let k = choose|k: nat| #[trigger] pow2(k) == size;
    vstd::arithmetic::power2::lemma_pow2_pos(k);
    if k >= 64 {
        vstd::arithmetic::power2::lemma2_to64_rest();
        if k > 64 {
            vstd::arithmetic::power2::lemma_pow2_strictly_increases(64, k);
        }
    }
    vstd::bits::lemma_u64_low_bits_mask_is_mod(x, k);
    let mask = (size - 1) as u64;
    assert(mask & x == x & mask) by (bit_vector);
}

/// The sentinel of a bucket stands before everything that belongs to it.
pub proof fn law_sentinel_precedes_its_bucket(hash_code: u64, size: u64)
    requires
        is_power_of_two(size as int),
        size <= MASK,
    ensures
        reversed((hash_code as int % size as int) as u64) < split_order(hash_code),
{
    lemma_mask_is_remainder(hash_code, size);
    let mask = (size - 1) as u64;
    let pos = mask & hash_code;
    assert(pos < MASK && reversed(pos) <= split_order(hash_code)) by (bit_vector)
        requires
            mask < MASK,
            pos == mask & hash_code,
    ;
    law_split_order_tells_nodes_from_sentinels(hash_code, pos);
}

/// What belongs to a bucket stands before the sentinel of every bucket that comes
/// later in split order.
pub proof fn law_buckets_do_not_overlap(hash_code: u64, size: u64, other: u64)
    requires
        is_power_of_two(size as int),
        size <= MASK,
        other < size,
        reversed((hash_code as int % size as int) as u64) < reversed(other),
    ensures
        split_order(hash_code) < reversed(other),
{
    lemma_mask_is_remainder(hash_code, size);
    lemma_power_of_two_is_single_bit(size);
    let mask = (size - 1) as u64;
    let pos = mask & hash_code;
    assert(split_order(hash_code) < reversed(other)) by (bit_vector)
        requires
            size & mask == 0,
            mask == (size - 1) as u64,
            0 < size <= MASK,
            pos == mask & hash_code,
            other < size,
            reversed(pos) < reversed(other),
    ;
}

/// A power of two has a single bit set.
proof fn lemma_power_of_two_is_single_bit(x: u64)
    requires
        is_power_of_two(x as int),
    ensures
        x > 0,
        x & ((x - 1) as u64) == 0,
{
    lemma_mask_is_remainder(x, x);
    let below = (x - 1) as u64;
    assert(below & x == x & below) by (bit_vector);
}

/// A number with a single bit set is a power of two.
pub proof fn lemma_single_bit_is_power_of_two(x: u64)
    requires
        x > 0,
        x & ((x - 1) as u64) == 0,
    ensures
        is_power_of_two(x as int),
    decreases x,
{
    if x == 1 {
        vstd::arithmetic::power2::lemma2_to64();
        assert(pow2(0) == x);
    } else {
        let half = x / 2;
        assert(half > 0 && half & ((half - 1) as u64) == 0 && x == 2 * half) by (bit_vector)
            requires
                x > 1,
                x & ((x - 1) as u64) == 0,
                half == x / 2,
        ;
        lemma_single_bit_is_power_of_two(half);
        let k = choose|k: nat| #[trigger] pow2(k) == half;
        vstd::arithmetic::power2::lemma_pow2_unfold(k + 1);
        assert(pow2(k + 1) == x);
    }
}

/// Keeps only the most significant bit that is set.
pub fn reserve_only_msb(hash_code: u64) -> (r: u64)
    ensures
        hash_code == 0 ==> r == 0,
        hash_code > 0 ==> is_power_of_two(r as int) && r <= hash_code < 2 * r,
{
    let mut ret: u64 = hash_code;
    ret |= ret >> 1;
    ret |= ret >> 2;
    ret |= ret >> 4;
    ret |= ret >> 8;
    ret |= ret >> 16;
    ret |= ret >> 32;
    let r: u64 = ret & !(ret >> 1);
    proof {
        lemma_smear(hash_code);
        assert(smear(hash_code) == ret);
        assert(hash_code == 0 ==> r == 0) by (bit_vector)
            requires
                hash_code <= ret,
                hash_code == 0 ==> ret == 0,
                r == ret & !(ret >> 1),
        ;
        if hash_code > 0 {
            assert(r > 0 && r & ((r - 1) as u64) == 0 && r <= hash_code && hash_code < 2 * r)
                by (bit_vector)
                requires
                    hash_code > 0,
                    hash_code <= ret,
                    ret & ((ret + 1) as u64) == 0,
                    ret / 2 < hash_code,
                    r == ret & !(ret >> 1),
            ;
            lemma_single_bit_is_power_of_two(r);
        }
    }
    r
}

/// `x` with every bit below its highest one set too.
spec fn smear(x: u64) -> u64 {
    let x1 = x | (x >> 1);
    let x2 = x1 | (x1 >> 2);
    let x4 = x2 | (x2 >> 4);
    let x8 = x4 | (x4 >> 8);
    let x16 = x8 | (x8 >> 16);
    x16 | (x16 >> 32)
}

/// Smearing gives the least number of the form `2^k - 1` that is not below `x`.
proof fn lemma_smear(x: u64)
    by (bit_vector)
    ensures
        x <= smear(x),
        x == 0 ==> smear(x) == 0,
        smear(x) & ((smear(x) + 1) as u64) == 0,
        x > 0 ==> smear(x) / 2 < x,
{
}

/// The number of buckets of a table made for `capacity` keys: the least power of
/// two that is not below `capacity`, or [`MAX_CAPACITY`] if there is none.
pub fn table_size_for(capacity: usize) -> (r: usize)
    requires
        capacity > 0,
    ensures
        is_power_of_two(r as int),
        capacity <= MAX_CAPACITY ==> capacity <= r < 2 * capacity,
        capacity > MAX_CAPACITY ==> r == MAX_CAPACITY,
{
    proof {
        lemma_max_capacity();
    }
    if capacity < MAX_CAPACITY {
        let mut ret: u64 = capacity as u64 - 1;
        ret |= ret >> 1;
        ret |= ret >> 2;
        ret |= ret >> 4;
        ret |= ret >> 8;
        ret |= ret >> 16;
        ret |= ret >> 32;
        proof {
            let below: u64 = (capacity - 1) as u64;
            let top: u64 = MAX_CAPACITY as u64;
            lemma_smear(below);
            assert(smear(below) == ret);
            assert(ret < top) by (bit_vector)
                requires
                    ret & ((ret + 1) as u64) == 0,
                    below < top,
                    below > 0 ==> ret / 2 < below,
                    below == 0 ==> ret == 0,
                    top == 0x8000_0000u64 || top == 0x8000_0000_0000_0000u64,
            ;
            let size: u64 = (ret + 1) as u64;
            assert(size & ((size - 1) as u64) == 0) by (bit_vector)
                requires
                    ret & ((ret + 1) as u64) == 0,
                    size == (ret + 1) as u64,
                    ret < 0x8000_0000_0000_0000u64,
            ;
            lemma_single_bit_is_power_of_two(size);
        }
        (ret + 1) as usize
    } else {
        MAX_CAPACITY
    }
}

proof fn lemma_max_capacity()
    ensures
        MAX_CAPACITY == 0x8000_0000 || MAX_CAPACITY == 0x8000_0000_0000_0000,
        is_power_of_two(MAX_CAPACITY as int),
{
    vstd::arithmetic::power2::lemma2_to64_rest();
    vstd::arithmetic::power2::lemma2_to64();
    assert(pow2(31) == 0x8000_0000);
    assert(pow2(63) == 0x8000_0000_0000_0000);
}

} // verus!
