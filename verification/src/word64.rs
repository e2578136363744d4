//! Bit-range reversal for 64-bit words.

use vstd::prelude::*;

use crate::bounds::{BitRange, Endpoint};

verus! {

/// The word width.
pub const BITS: u32 = 64;

/// The all-ones word.
pub const ALL_ONES: u64 = 0xFFFF_FFFF_FFFF_FFFF;

/// Bit `i` of `x`, counting from the least-significant bit.
pub open spec fn bit64(x: u64, i: u32) -> bool {
    (x >> i) & 1 == 1
}

/// Bit `i` of the word obtained from `x` by reversing the bits inside the
/// closed interval `[start, end]` end-for-end and keeping every other bit:
/// inside the interval, position `i` takes the bit from the mirrored
/// position `start + end - i`; outside, it keeps its own bit.
pub open spec fn reversed_bit64(x: u64, start: u32, end: u32, i: u32) -> bool {
    if start <= i && i <= end {
        bit64(x, (start + end - i) as u32)
    } else {
        bit64(x, i)
    }
}

/// The mask with exactly the lowest `n` bits set.
spec fn low_mask64(n: u32) -> u64 {
    if n >= 64 {
        0xFFFF_FFFF_FFFF_FFFFu64
    } else {
        ((1u64 << n) - 1) as u64
    }
}

proof fn lemma_bit64_ext_rec(x: u64, y: u64, n: u32)
    requires
        n <= 64,
        forall|i: u32| i < n ==> #[trigger] bit64(x, i) == bit64(y, i),
    ensures
        x & low_mask64(n) == y & low_mask64(n),
    decreases n,
{
    if n == 0 {
        assert(x & low_mask64(0) == y & low_mask64(0)) by (bit_vector);
    } else {
        let m: u32 = (n - 1) as u32;
        lemma_bit64_ext_rec(x, y, m);
        assert(bit64(x, m) == bit64(y, m));
        assert(x & low_mask64(n) == y & low_mask64(n)) by (bit_vector)
            requires
                0 < n <= 64,
                m == n - 1,
                x & low_mask64(m) == y & low_mask64(m),
                bit64(x, m) == bit64(y, m),
        ;
    }
}

/// Two words whose bits agree at every position are equal.
pub proof fn lemma_bit64_ext(x: u64, y: u64)
    requires
        forall|i: u32| i < 64 ==> #[trigger] bit64(x, i) == bit64(y, i),
    ensures
        x == y,
{
    lemma_bit64_ext_rec(x, y, 64);
    assert(x & low_mask64(64) == y & low_mask64(64) ==> x == y) by (bit_vector);
}

/// Relies on `u64::reverse_bits`: the least-significant bit becomes the
/// most-significant bit and so on, so bit `i` of the result is bit
/// `BITS - 1 - i` of the argument, for every position `i`.
pub assume_specification[ u64::reverse_bits ](x: u64) -> (r: u64)
    ensures
        forall|i: u32| i < 64 ==> #[trigger] bit64(r, i) == bit64(x, (63 - i) as u32),
;

/// A raw start or end index clamped into `[0, BITS - 1]`.
pub open spec fn clamped64(v: u32) -> u32 {
    if v < 64 {
        v
    } else {
        63
    }
}

/// The canonical inclusive start index named by one endpoint:
/// an inclusive index is clamped, an exclusive one steps forward and
/// saturates, an absent one means the lowest bit.
pub open spec fn start_bit64(e: Endpoint) -> u32 {
    match e {
        Endpoint::Included(v) => clamped64(v),
        Endpoint::Excluded(v) => if v < 63 {
            (v + 1) as u32
        } else {
            63
        },
        Endpoint::Unbounded => 0,
    }
}

/// The canonical inclusive end index named by one endpoint:
/// an inclusive index is clamped, an exclusive one steps backward and
/// stops at zero, an absent one means the highest bit.
pub open spec fn end_bit64(e: Endpoint) -> u32 {
    match e {
        Endpoint::Included(v) => clamped64(v),
        Endpoint::Excluded(v) => if v == 0 {
            0
        } else if v >= 64 {
            63
        } else {
            (v - 1) as u32
        },
        Endpoint::Unbounded => 63,
    }
}

/// Clamp an inclusive endpoint into `[0, BITS - 1]`.
pub fn identity(x: u32) -> (r: u32)
    ensures
        r == clamped64(x),
{
    if x < BITS {
        x
    } else {
        BITS - 1
    }
}

/// Step an exclusive start endpoint forward, staying in `[0, BITS - 1]`.
pub fn increment(x: u32) -> (r: u32)
    ensures
        r == start_bit64(Endpoint::Excluded(x)),
{
    if x < BITS - 1 {
        x + 1
    } else {
        BITS - 1
    }
}

/// Step an exclusive end endpoint backward, staying in `[0, BITS - 1]`.
pub fn decrement(x: u32) -> (r: u32)
    ensures
        r == end_bit64(Endpoint::Excluded(x)),
{
    if x == 0 {
        0
    } else if x >= BITS {
        BITS - 1
    } else {
        x - 1
    }
}

/// Collapse any range description into a canonical closed interval.
/// Both returned indices lie in `[0, BITS - 1]`; the function never fails.
pub fn to_start_end(range: BitRange) -> (r: (u32, u32))
    ensures
        r.0 == start_bit64(range.start),
        r.1 == end_bit64(range.end),
        r.0 < BITS,
        r.1 < BITS,
{
    let start = match range.start {
        Endpoint::Included(s) => identity(s),
        Endpoint::Excluded(s) => increment(s),
        Endpoint::Unbounded => 0,
    };
    let end = match range.end {
        Endpoint::Included(e) => identity(e),
        Endpoint::Excluded(e) => decrement(e),
        Endpoint::Unbounded => BITS - 1,
    };
    (start, end)
}

/// Expand a word into its `BITS` bits, entry `i` holding bit `i`.
pub fn to_array(input: u64) -> (r: Vec<bool>)
    ensures
        r@.len() == 64,
        forall|i: int| 0 <= i < 64 ==> r@[i] == bit64(input, i as u32),
{
    let mut array: Vec<bool> = Vec::new();
    let mut i: u32 = 0;
    while i < BITS
        invariant
            i <= 64,
            array@.len() == i,
            forall|j: int| 0 <= j < i ==> array@[j] == bit64(input, j as u32),
        decreases 64 - i,
    {
        array.push((input >> i) & 1 == 1);
        i = i + 1;
    }
    array
}

/// Copy of `input` with the entries inside `[min, max]` reversed
/// end-for-end and every other entry unchanged.
///
/// For example:
///     `........ABCD................`
/// becomes:
///     `........DCBA................`
pub fn reverse_array(input: &Vec<bool>, min: u32, max: u32) -> (r: Vec<bool>)
    requires
        min <= max,
        (max as int) < input@.len(),
    ensures
        r@.len() == input@.len(),
        forall|i: int|
            0 <= i < input@.len() ==> r@[i] == (if min <= i && i <= max {
                input@[min + max - i]
            } else {
                input@[i]
            }),
{
    let mut vec: Vec<bool> = Vec::new();
    let mut i: usize = 0;
    let len: usize = input.len();
    while i < len
        invariant
            i <= len,
            len == input@.len(),
            min <= max,
            (max as int) < input@.len(),
            vec@.len() == i,
            forall|j: int|
                0 <= j < i ==> vec@[j] == (if min <= j && j <= max {
                    input@[min + max - j]
                } else {
                    input@[j]
                }),
        decreases len - i,
    {
        if (min as usize) <= i && i <= (max as usize) {
            let mirrored: usize = (max as usize) - (i - (min as usize));
            vec.push(input[mirrored]);
        } else {
            vec.push(input[i]);
        }
        i = i + 1;
    }
    vec
}

/// Pack `BITS` booleans back into a word, bit `i` taken from entry `i`.
pub fn to_u64(input: &Vec<bool>) -> (r: u64)
    requires
        input@.len() == 64,
    ensures
        forall|i: u32| i < 64 ==> #[trigger] bit64(r, i) == input@[i as int],
{
    let mut out: u64 = 0;
    let mut i: u32 = 0;
    proof {
        assert forall|t: u32| t < 64 implies #[trigger] bit64(0u64, t) == false by {
            assert((0u64 >> t) & 1 == 0) by (bit_vector);
        }
    }
    while i < BITS
        invariant
            i <= 64,
            input@.len() == 64,
            forall|t: u32| t < 64 ==> #[trigger] bit64(out, t) == (t < i && input@[t as int]),
        decreases 64 - i,
    {
        if input[i as usize] {
            let next: u64 = out | (1u64 << i);
            proof {
                assert forall|t: u32| t < 64 implies #[trigger] bit64(next, t) == (bit64(out, t)
                    || t == i) by {
                    assert(t < 64 && i < 64 ==> (bit64(out | (1u64 << i), t) == (bit64(out, t) || t
                        == i))) by (bit_vector);
                }
            }
            out = next;
        }
        i = i + 1;
    }
    out
}

/// Reference implementation of range reversal, built on an explicit bit
/// array: expand the word, reverse the sub-range of entries, pack back.
/// It satisfies the same contract as the fast `reverse` and exists as a
/// simple, inspectable oracle for it.
pub fn reverse_u64(input: u64, range: BitRange) -> (r: u64)
    ensures
        ({
            let start = start_bit64(range.start);
            let end = end_bit64(range.end);
            &&& (start < end ==> forall|i: u32|
                i < 64 ==> #[trigger] bit64(r, i) == reversed_bit64(input, start, end, i))
            &&& (start >= end ==> r == input)
        }),
{
    let array = to_array(input);
    let (start, end) = to_start_end(range);
    if end > start {
        let reversed_vec = reverse_array(&array, start, end);
        let out = to_u64(&reversed_vec);
        proof {
            assert forall|i: u32| i < 64 implies #[trigger] bit64(out, i) == reversed_bit64(
                input,
                start,
                end,
                i,
            ) by {
                assert(bit64(out, i) == reversed_vec@[i as int]);
            }
        }
        out
    } else {
        input
    }
}

#[verifier::rlimit(100)]
proof fn lemma_reverse_steps64(
    input: u64,
    min: u32,
    max: u32,
    sh_top: u32,
    sh_pos: u32,
    ones_mask: u64,
    to_reverse: u64,
    rol: u64,
    result: u64,
)
    requires
        min < max,
        max < 64,
        sh_top == 64 - (max + 1 - min),
        sh_pos == 64 - (max + 1),
        ones_mask == (0xFFFF_FFFF_FFFF_FFFFu64 << sh_top) >> sh_pos,
        to_reverse == (input & ones_mask) >> min,
        forall|j: u32| j < 64 ==> #[trigger] bit64(rol, j) == bit64(to_reverse, (63 - j) as u32),
        result == (input & !ones_mask) | (rol >> sh_pos),
    ensures
        forall|i: u32| i < 64 ==> #[trigger] bit64(result, i) == reversed_bit64(input, min, max, i),
{
    assert forall|i: u32| i < 64 implies #[trigger] bit64(result, i) == reversed_bit64(
        input,
        min,
        max,
        i,
    ) by {
        if i <= max {
            let j: u32 = (i + sh_pos) as u32;
            assert(bit64(rol, j) == bit64(to_reverse, (63 - j) as u32));
            if min <= i {
                assert(bit64(result, i) == bit64(input, (min + max - i) as u32)) by (bit_vector)
                    requires
                        min < max && max < 64 && min <= i && i <= max,
                        sh_top == 64 - (max + 1 - min),
                        sh_pos == 64 - (max + 1),
                        ones_mask == (0xFFFF_FFFF_FFFF_FFFFu64 << sh_top) >> sh_pos,
                        to_reverse == (input & ones_mask) >> min,
                        j == i + sh_pos,
                        bit64(rol, j) == bit64(to_reverse, (63 - j) as u32),
                        result == (input & !ones_mask) | (rol >> sh_pos),
                ;
            } else {
                assert(bit64(result, i) == bit64(input, i)) by (bit_vector)
                    requires
                        min < max && max < 64 && i < min,
                        sh_top == 64 - (max + 1 - min),
                        sh_pos == 64 - (max + 1),
                        ones_mask == (0xFFFF_FFFF_FFFF_FFFFu64 << sh_top) >> sh_pos,
                        to_reverse == (input & ones_mask) >> min,
                        j == i + sh_pos,
                        bit64(rol, j) == bit64(to_reverse, (63 - j) as u32),
                        result == (input & !ones_mask) | (rol >> sh_pos),
                ;
            }
        } else {
            assert(bit64(result, i) == bit64(input, i)) by (bit_vector)
                requires
                    min < max && max < 64 && max < i && i < 64,
                    sh_top == 64 - (max + 1 - min),
                    sh_pos == 64 - (max + 1),
                    ones_mask == (0xFFFF_FFFF_FFFF_FFFFu64 << sh_top) >> sh_pos,
                    result == (input & !ones_mask) | (rol >> sh_pos),
            ;
        }
    }
}

/// Reverse the bits of `input` inside the closed interval `[min, max]`,
/// in constant time, using word-level masking, shifts and the whole-word
/// bit reverse. Bits outside the interval are preserved.
pub fn reverse_closed_interval(input: u64, min: u32, max: u32) -> (r: u64)
    requires
        min < max,
        max < BITS,
    ensures
        forall|i: u32| i < 64 ==> #[trigger] bit64(r, i) == reversed_bit64(input, min, max, i),
{
    // Number of bits to reverse.
    let length: u32 = max + 1 - min;

    // Collect `length` ones at the top of the word, then slide them down so
    // the lowest one sits at position `min`.
    let sh_top: u32 = BITS - length;
    let sh_pos: u32 = BITS - (max + 1);
    let ones_mask: u64 = (ALL_ONES << sh_top) >> sh_pos;

    // The bits to reverse, still in place.
    let input_to_reverse: u64 = input & ones_mask;

    // The bits to keep unchanged.
    let input_to_keep: u64 = input & !ones_mask;

    // Align the bits to reverse with the bottom of the word.
    let to_reverse: u64 = input_to_reverse >> min;

    // Reverse the whole word; the interesting bits land at the top.
    let reversed_on_left: u64 = to_reverse.reverse_bits();

    // Slide the reversed bits back into `[min, max]`.
    let reversed_in_position: u64 = reversed_on_left >> sh_pos;

    let result: u64 = input_to_keep | reversed_in_position;
    proof {
        lemma_reverse_steps64(
            input,
            min,
            max,
            sh_top,
            sh_pos,
            ones_mask,
            to_reverse,
            reversed_on_left,
            result,
        );
    }
    result
}

/// Reverse the bits of `input` inside the range described by `range`,
/// preserving every bit outside it. The range is first collapsed to a
/// canonical closed interval; a degenerate interval leaves the word
/// unchanged. This function never fails.
pub fn reverse(input: u64, range: BitRange) -> (r: u64)
    ensures
        ({
            let start = start_bit64(range.start);
            let end = end_bit64(range.end);
            &&& (start < end ==> forall|i: u32|
                i < 64 ==> #[trigger] bit64(r, i) == reversed_bit64(input, start, end, i))
            &&& (start >= end ==> r == input)
        }),
{
    let (start, end) = to_start_end(range);
    if end > start {
        reverse_closed_interval(input, start, end)
    } else {
        input
    }
}

/// Law: reversing the same closed interval twice restores the original
/// word. If `y` reverses `x` on `[start, end]` and `z` reverses `y` on the
/// same interval, then `z` is `x` again.
pub proof fn lemma_reverse_involution(x: u64, y: u64, z: u64, start: u32, end: u32)
    requires
        start <= end,
        end < 64,
        forall|i: u32| i < 64 ==> #[trigger] bit64(y, i) == reversed_bit64(x, start, end, i),
        forall|i: u32| i < 64 ==> #[trigger] bit64(z, i) == reversed_bit64(y, start, end, i),
    ensures
        z == x,
{
    assert forall|i: u32| i < 64 implies #[trigger] bit64(z, i) == bit64(x, i) by {
        if start <= i && i <= end {
            let m: u32 = (start + end - i) as u32;
            assert(bit64(z, i) == bit64(y, m));
            assert(bit64(y, m) == bit64(x, (start + end - m) as u32));
            assert((start + end - m) as u32 == i);
        }
    }
    lemma_bit64_ext(z, x);
}

/// Law: reversing the same range description twice restores the original
/// word, whatever shape the range has and even when it normalizes to a
/// degenerate interval. The two hypotheses are exactly the contract of
/// `reverse` (and of `reverse_u64`) for `y` from `x` and `z` from `y`.
pub proof fn lemma_reverse_range_involution(x: u64, y: u64, z: u64, range: BitRange)
    requires
        ({
            let start = start_bit64(range.start);
            let end = end_bit64(range.end);
            &&& (start < end ==> forall|i: u32|
                i < 64 ==> #[trigger] bit64(y, i) == reversed_bit64(x, start, end, i))
            &&& (start >= end ==> y == x)
        }),
        ({
            let start = start_bit64(range.start);
            let end = end_bit64(range.end);
            &&& (start < end ==> forall|i: u32|
                i < 64 ==> #[trigger] bit64(z, i) == reversed_bit64(y, start, end, i))
            &&& (start >= end ==> z == y)
        }),
    ensures
        z == x,
{
    let start = start_bit64(range.start);
    let end = end_bit64(range.end);
    if start < end {
        assert(end < 64);
        lemma_reverse_involution(x, y, z, start, end);
    }
}

/// Law: the reversal contract pins its result down completely, so any two
/// words that both satisfy it for the same input and the same normalized
/// interval are equal. In particular the fast reverser and the reference
/// reverser return the same word.
pub proof fn lemma_fast_equals_reference(x: u64, a: u32, b: u32, y_fast: u64, y_ref: u64)
    requires
        a < b,
        b < 64,
        forall|i: u32| i < 64 ==> #[trigger] bit64(y_fast, i) == reversed_bit64(x, a, b, i),
        forall|i: u32| i < 64 ==> #[trigger] bit64(y_ref, i) == reversed_bit64(x, a, b, i),
    ensures
        y_fast == y_ref,
{
    assert forall|i: u32| i < 64 implies #[trigger] bit64(y_fast, i) == bit64(y_ref, i) by {
        assert(bit64(y_fast, i) == reversed_bit64(x, a, b, i));
        assert(bit64(y_ref, i) == reversed_bit64(x, a, b, i));
    }
    lemma_bit64_ext(y_fast, y_ref);
}

/// Law: a reversal changes nothing outside the interval: when `y` reverses
/// `x` on `[a, b]`, every bit of `x ^ y` below `a` or above `b` is zero.
pub proof fn lemma_outside_interval_unchanged(x: u64, y: u64, a: u32, b: u32)
    requires
        a <= b,
        b < 64,
        forall|i: u32| i < 64 ==> #[trigger] bit64(y, i) == reversed_bit64(x, a, b, i),
    ensures
        forall|i: u32| i < 64 && (i < a || b < i) ==> #[trigger] bit64(x ^ y, i) == false,
{
    assert forall|i: u32| i < 64 && (i < a || b < i) implies #[trigger] bit64(x ^ y, i)
        == false by {
        assert(bit64(y, i) == bit64(x, i));
        assert(bit64(x, i) == bit64(y, i) && i < 64 ==> !bit64(x ^ y, i)) by (bit_vector);
    }
}

/// Law: expanding a word into its bit array and packing the array back
/// yields the word again. The two hypotheses are exactly the contracts of
/// `to_array` and `to_u64`.
pub proof fn lemma_bit_array_round_trip(x: u64, arr: Seq<bool>, y: u64)
    requires
        arr.len() == 64,
        forall|i: int| 0 <= i < 64 ==> arr[i] == bit64(x, i as u32),
        forall|i: u32| i < 64 ==> #[trigger] bit64(y, i) == arr[i as int],
    ensures
        y == x,
{
    assert forall|i: u32| i < 64 implies #[trigger] bit64(y, i) == bit64(x, i) by {
        assert(arr[i as int] == bit64(x, i as u32));
    }
    lemma_bit64_ext(y, x);
}

} // verus!
