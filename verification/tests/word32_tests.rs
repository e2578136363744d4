use rev_bits::bounds::{BitRange, Endpoint};
use rev_bits::word32::{
    decrement, identity, increment, reverse, reverse_closed_interval, reverse_u32, to_array,
    to_start_end, to_u32,
};

fn lcg(state: &mut u64) -> u64 {
    *state = state
        .wrapping_mul(6364136223846793005)
        .wrapping_add(1442695040888963407);
    *state
}

#[test]
fn reverse_u32_ex1() {
    let x: u32 = 0xaaaaaaaa;
    let y: u32 = 0xaaaaaa5a;
    assert_eq!(reverse_u32(x, BitRange::half_open(4, 8)), y);
}

#[test]
fn reverse_u32_ex2() {
    let x: u32 = 0xaaaaaaaa;
    let y: u32 = 0xaaaaa55a;
    assert_eq!(reverse_u32(x, BitRange::half_open(4, 12)), y);
}

#[test]
fn reverse_u32_ex3() {
    let x: u32 = 0xaaaaaaaa;
    let y: u32 = 0x55555aaa;
    assert_eq!(reverse_u32(x, BitRange::half_open(12, 32)), y);
}

#[test]
fn fast_reverse_matches_examples() {
    assert_eq!(reverse(0xaaaaaaaa, BitRange::half_open(4, 8)), 0xaaaaaa5a);
    assert_eq!(reverse(0xaaaaaaaa, BitRange::half_open(4, 12)), 0xaaaaa55a);
    assert_eq!(reverse(0xaaaaaaaa, BitRange::half_open(12, 32)), 0x55555aaa);
}

#[test]
fn reverse_byte_in_the_middle() {
    // Bits 8..=15 hold 0xA0; reversed end-for-end they hold 0x05.
    let x: u32 = 0xF0FFA000;
    assert_eq!(reverse(x, BitRange::half_open(8, 16)), 0xF0FF0500);
    assert_eq!(reverse_u32(x, BitRange::half_open(8, 16)), 0xF0FF0500);
}

#[test]
fn full_range_reversal_is_whole_word_bit_reverse() {
    let mut state: u64 = 0x12345678;
    for _ in 0..10_000 {
        let x = lcg(&mut state) as u32;
        assert_eq!(reverse(x, BitRange::full()), x.reverse_bits());
        assert_eq!(reverse(x, BitRange::closed(0, 31)), x.reverse_bits());
    }
}

#[test]
fn fast_reverse_agrees_with_reference() {
    let mut state: u64 = 0xdeadbeef;
    for _ in 0..25_000 {
        let x = lcg(&mut state) as u32;
        let a = (lcg(&mut state) % 32) as u32;
        let b = (lcg(&mut state) % 32) as u32;
        if a >= b {
            continue;
        }
        let range = BitRange::closed(a, b);
        assert_eq!(reverse(x, range), reverse_u32(x, range));
        assert_eq!(reverse_closed_interval(x, a, b), reverse_u32(x, range));
    }
}

#[test]
fn reverse_is_its_own_inverse() {
    let mut state: u64 = 0xfeedface;
    for _ in 0..25_000 {
        let x = lcg(&mut state) as u32;
        let a = (lcg(&mut state) % 40) as u32;
        let b = (lcg(&mut state) % 40) as u32;
        let range = BitRange::half_open(a, b);
        assert_eq!(reverse(reverse(x, range), range), x);
        assert_eq!(reverse_u32(reverse_u32(x, range), range), x);
    }
}

#[test]
fn bits_outside_the_interval_are_preserved() {
    let mut state: u64 = 0xcafef00d;
    for _ in 0..25_000 {
        let x = lcg(&mut state) as u32;
        let a = (lcg(&mut state) % 32) as u32;
        let b = (lcg(&mut state) % 32) as u32;
        if a >= b {
            continue;
        }
        let reversed = reverse_closed_interval(x, a, b);
        let compared = x ^ reversed;
        let b1 = b + 1;
        let left_ones = if b1 == 32 { 0 } else { u32::MAX << b1 };
        let right_ones = if a == 0 { 0 } else { u32::MAX >> (32 - a) };
        assert_eq!(compared & (left_ones | right_ones), 0);
    }
}

#[test]
fn bit_array_round_trip() {
    let mut state: u64 = 0x0badf00d;
    for _ in 0..1_000 {
        let x = lcg(&mut state) as u32;
        assert_eq!(to_u32(&to_array(x)), x);
    }
    assert_eq!(to_u32(&to_array(0)), 0);
    assert_eq!(to_u32(&to_array(u32::MAX)), u32::MAX);
    assert_eq!(to_u32(&to_array(1)), 1);
    assert_eq!(to_u32(&to_array(0x80000000)), 0x80000000);
}

#[test]
fn identity_clamps_into_the_word() {
    assert_eq!(identity(0), 0);
    assert_eq!(identity(17), 17);
    assert_eq!(identity(31), 31);
    assert_eq!(identity(32), 31);
    assert_eq!(identity(100), 31);
    assert_eq!(identity(u32::MAX), 31);
}

#[test]
fn increment_steps_forward_and_saturates() {
    assert_eq!(increment(0), 1);
    assert_eq!(increment(17), 18);
    assert_eq!(increment(30), 31);
    assert_eq!(increment(31), 31);
    assert_eq!(increment(32), 31);
    assert_eq!(increment(u32::MAX), 31);
}

#[test]
fn decrement_steps_backward_and_stops_at_zero() {
    assert_eq!(decrement(0), 0);
    assert_eq!(decrement(1), 0);
    assert_eq!(decrement(17), 16);
    assert_eq!(decrement(32), 31);
    assert_eq!(decrement(33), 31);
    assert_eq!(decrement(u32::MAX), 31);
}

#[test]
fn to_start_end_covers_every_range_shape() {
    // a..b
    assert_eq!(to_start_end(BitRange::half_open(4, 8)), (4, 7));
    // a..=b
    assert_eq!(to_start_end(BitRange::closed(4, 8)), (4, 8));
    // a..
    assert_eq!(to_start_end(BitRange::starting_at(4)), (4, 31));
    // ..b
    assert_eq!(to_start_end(BitRange::up_to(8)), (0, 7));
    // ..=b
    assert_eq!(to_start_end(BitRange::up_through(8)), (0, 8));
    // ..
    assert_eq!(to_start_end(BitRange::full()), (0, 31));
    // Exclusive endpoints built directly.
    assert_eq!(
        to_start_end(BitRange {
            start: Endpoint::Excluded(3),
            end: Endpoint::Excluded(9),
        }),
        (4, 8)
    );
}

#[test]
fn to_start_end_clamps_out_of_range_endpoints() {
    assert_eq!(to_start_end(BitRange::half_open(40, 50)), (31, 31));
    assert_eq!(to_start_end(BitRange::closed(0, 99)), (0, 31));
    assert_eq!(to_start_end(BitRange::half_open(0, 0)), (0, 0));
    assert_eq!(to_start_end(BitRange::up_to(0)), (0, 0));
    assert_eq!(
        to_start_end(BitRange {
            start: Endpoint::Excluded(u32::MAX),
            end: Endpoint::Included(u32::MAX),
        }),
        (31, 31)
    );
}

#[test]
fn degenerate_ranges_leave_the_word_unchanged() {
    let x: u32 = 0xaaaaaaaa;
    assert_eq!(reverse(x, BitRange::half_open(8, 8)), x);
    assert_eq!(reverse(x, BitRange::half_open(8, 4)), x);
    assert_eq!(reverse(x, BitRange::closed(8, 8)), x);
    assert_eq!(reverse_u32(x, BitRange::half_open(8, 8)), x);
    assert_eq!(reverse_u32(x, BitRange::closed(8, 8)), x);
}
