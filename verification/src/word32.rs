//! Bit-range reversal for 32-bit words.

use vstd::prelude::*;

use crate::bounds::{BitRange, Endpoint};

verus! {

/// The word width.
pub const BITS: u32 = 32;

/// The all-ones word.
pub const ALL_ONES: u32 = 0xFFFF_FFFF;

/// Bit `i` of `x`, counting from the least-significant bit.
pub open spec fn bit32(x: u32, i: u32) -> bool {
    (x >> i) & 1 == 1
}

/// Bit `i` of the word obtained from `x` by reversing the bits inside the
/// closed interval `[start, end]` end-for-end and keeping every other bit:
/// inside the interval, position `i` takes the bit from the mirrored
/// position `start + end - i`; outside, it keeps its own bit.
pub open spec fn reversed_bit32(x: u32, start: u32, end: u32, i: u32) -> bool {
    if start <= i && i <= end {
        bit32(x, (start + end - i) as u32)
    } else {
        bit32(x, i)
    }
}

/// The mask with exactly the lowest `n` bits set.
spec fn low_mask32(n: u32) -> u32 {
    if n >= 32 {
        0xFFFF_FFFFu32
    } else {
        ((1u32 << n) - 1) as u32
    }
}

proof fn lemma_bit32_ext_rec(x: u32, y: u32, n: u32)
    requires
        n <= 32,
        forall|i: u32| i < n ==> #[trigger] bit32(x, i) == bit32(y, i),
    ensures
        x & low_mask32(n) == y & low_mask32(n),
    decreases n,
{
    if n == 0 {
        assert(x & low_mask32(0) == y & low_mask32(0)) by (bit_vector);
    } else {
        let m: u32 = (n - 1) as u32;
        lemma_bit32_ext_rec(x, y, m);
        assert(bit32(x, m) == bit32(y, m));
        assert(x & low_mask32(n) == y & low_mask32(n)) by (bit_vector)
            requires
                0 < n <= 32,
                m == n - 1,
                x & low_mask32(m) == y & low_mask32(m),
                bit32(x, m) == bit32(y, m),
        ;
    }
}

/// Two words whose bits agree at every position are equal.
pub proof fn lemma_bit32_ext(x: u32, y: u32)
    requires
        forall|i: u32| i < 32 ==> #[trigger] bit32(x, i) == bit32(y, i),
    ensures
        x == y,
{
    lemma_bit32_ext_rec(x, y, 32);
    assert(x & low_mask32(32) == y & low_mask32(32) ==> x == y) by (bit_vector);
}

/// Relies on `u32::reverse_bits`: the least-significant bit becomes the
/// most-significant bit and so on, so bit `i` of the result is bit
/// `BITS - 1 - i` of the argument, for every position `i`.
pub assume_specification[ u32::reverse_bits ](x: u32) -> (r: u32)
    ensures
        forall|i: u32| i < 32 ==> #[trigger] bit32(r, i) == bit32(x, (31 - i) as u32),
;

/// A raw start or end index clamped into `[0, BITS - 1]`.
pub open spec fn clamped32(v: u32) -> u32 {
    if v < 32 {
        v
    } else {
        31
    }
}

/// The canonical inclusive start index named by one endpoint:
/// an inclusive index is clamped, an exclusive one steps forward and
/// saturates, an absent one means the lowest bit.
pub open spec fn start_bit32(e: Endpoint) -> u32 {
    match e {
        Endpoint::Included(v) => clamped32(v),
        Endpoint::Excluded(v) => if v < 31 {
            (v + 1) as u32
        } else {
            31
        },
        Endpoint::Unbounded => 0,
    }
}

/// The canonical inclusive end index named by one endpoint:
/// an inclusive index is clamped, an exclusive one steps backward and
/// stops at zero, an absent one means the highest bit.
pub open spec fn end_bit32(e: Endpoint) -> u32 {
    match e {
        Endpoint::Included(v) => clamped32(v),
        Endpoint::Excluded(v) => if v == 0 {
            0
        } else if v >= 32 {
            31
        } else {
            (v - 1) as u32
        },
        Endpoint::Unbounded => 31,
    }
}

/// Clamp an inclusive endpoint into `[0, BITS - 1]`.
pub fn identity(x: u32) -> (r: u32)
    ensures
        r == clamped32(x),
{
    if x < BITS {
        x
    } else {
        BITS - 1
    }
}

/// Step an exclusive start endpoint forward, staying in `[0, BITS - 1]`.
pub fn increment(x: u32) -> (r: u32)
    ensures
        r == start_bit32(Endpoint::Excluded(x)),
{
    if x < BITS - 1 {
        x + 1
    } else {
        BITS - 1
    }
}

/// Step an exclusive end endpoint backward, staying in `[0, BITS - 1]`.
pub fn decrement(x: u32) -> (r: u32)
    ensures
        r == end_bit32(Endpoint::Excluded(x)),
{
    if x == 0 {
        0
    } else if x >= BITS {
        BITS - 1
    } else {
        x - 1
    }
}

/// Collapse any range description into a canonical closed interval.
/// Both returned indices lie in `[0, BITS - 1]`; the function never fails.
pub fn to_start_end(range: BitRange) -> (r: (u32, u32))
    ensures
        r.0 == start_bit32(range.start),
        r.1 == end_bit32(range.end),
        r.0 < BITS,
        r.1 < BITS,
{
    let start = match range.start {
        Endpoint::Included(s) => identity(s),
        Endpoint::Excluded(s) => increment(s),
        Endpoint::Unbounded => 0,
    };
    let end = match range.end {
        Endpoint::Included(e) => identity(e),
        Endpoint::Excluded(e) => decrement(e),
        Endpoint::Unbounded => BITS - 1,
    };
    (start, end)
}

/// Expand a word into its `BITS` bits, entry `i` holding bit `i`.
pub fn to_array(input: u32) -> (r: Vec<bool>)
    ensures
        r@.len() == 32,
        forall|i: int| 0 <= i < 32 ==> r@[i] == bit32(input, i as u32),
{
    let mut array: Vec<bool> = Vec::new();
    let mut i: u32 = 0;
    while i < BITS
        invariant
            i <= 32,
            array@.len() == i,
            forall|j: int| 0 <= j < i ==> array@[j] == bit32(input, j as u32),
        decreases 32 - i,
    {
        array.push((input >> i) & 1 == 1);
        i = i + 1;
    }
    array
}

/// Copy of `input` with the entries inside `[min, max]` reversed
/// end-for-end and every other entry unchanged.
///
/// For example:
///     `........ABCD................`
/// becomes:
///     `........DCBA................`
pub fn reverse_array(input: &Vec<bool>, min: u32, max: u32) -> (r: Vec<bool>)
    requires
        min <= max,
        (max as int) < input@.len(),
    ensures
        r@.len() == input@.len(),
        forall|i: int|
            0 <= i < input@.len() ==> r@[i] == (if min <= i && i <= max {
                input@[min + max - i]
            } else {
                input@[i]
            }),
{
    let mut vec: Vec<bool> = Vec::new();
    let mut i: usize = 0;
    let len: usize = input.len();
    while i < len
        invariant
            i <= len,
            len == input@.len(),
            min <= max,
            (max as int) < input@.len(),
            vec@.len() == i,
            forall|j: int|
                0 <= j < i ==> vec@[j] == (if min <= j && j <= max {
                    input@[min + max - j]
                } else {
                    input@[j]
                }),
        decreases len - i,
    {
        if (min as usize) <= i && i <= (max as usize) {
            let mirrored: usize = (max as usize) - (i - (min as usize));
            vec.push(input[mirrored]);
        } else {
            vec.push(input[i]);
        }
        i = i + 1;
    }
    vec
}

/// Pack `BITS` booleans back into a word, bit `i` taken from entry `i`.
pub fn to_u32(input: &Vec<bool>) -> (r: u32)
    requires
        input@.len() == 32,
    ensures
        forall|i: u32| i < 32 ==> #[trigger] bit32(r, i) == input@[i as int],
{
    let mut out: u32 = 0;
    let mut i: u32 = 0;
    proof {
        assert forall|t: u32| t < 32 implies #[trigger] bit32(0u32, t) == false by {
            assert((0u32 >> t) & 1 == 0) by (bit_vector);
        }
    }
    while i < BITS
        invariant
            i <= 32,
            input@.len() == 32,
            forall|t: u32| t < 32 ==> #[trigger] bit32(out, t) == (t < i && input@[t as int]),
        decreases 32 - i,
    {
        if input[i as usize] {
            let next: u32 = out | (1u32 << i);
            proof {
                assert forall|t: u32| t < 32 implies #[trigger] bit32(next, t) == (bit32(out, t)
                    || t == i) by {
                    assert(t < 32 && i < 32 ==> (bit32(out | (1u32 << i), t) == (bit32(out, t) || t
                        == i))) by (bit_vector);
                }
            }
            out = next;
        }
        i = i + 1;
    }
    out
}

/// Reference implementation of range reversal, built on an explicit bit
/// array: expand the word, reverse the sub-range of entries, pack back.
/// It satisfies the same contract as the fast `reverse` and exists as a
/// simple, inspectable oracle for it.
pub fn reverse_u32(input: u32, range: BitRange) -> (r: u32)
    ensures
        ({
            let start = start_bit32(range.start);
            let end = end_bit32(range.end);
            &&& (start < end ==> forall|i: u32|
                i < 32 ==> #[trigger] bit32(r, i) == reversed_bit32(input, start, end, i))
            &&& (start >= end ==> r == input)
        }),
{
    let array = to_array(input);
    let (start, end) = to_start_end(range);
    if end > start {
        let reversed_vec = reverse_array(&array, start, end);
        let out = to_u32(&reversed_vec);
        proof {
            assert forall|i: u32| i < 32 implies #[trigger] bit32(out, i) == reversed_bit32(
                input,
                start,
                end,
                i,
            ) by {
                assert(bit32(out, i) == reversed_vec@[i as int]);
            }
        }
        out
    } else {
        input
    }
}

proof fn lemma_reverse_steps32(
    input: u32,
    min: u32,
    max: u32,
    sh_top: u32,
    sh_pos: u32,
    ones_mask: u32,
    to_reverse: u32,
    rol: u32,
    result: u32,
)
    requires
        min < max,
        max < 32,
        sh_top == 32 - (max + 1 - min),
        sh_pos == 32 - (max + 1),
        ones_mask == (0xFFFF_FFFFu32 << sh_top) >> sh_pos,
        to_reverse == (input & ones_mask) >> min,
        forall|j: u32| j < 32 ==> #[trigger] bit32(rol, j) == bit32(to_reverse, (31 - j) as u32),
        result == (input & !ones_mask) | (rol >> sh_pos),
    ensures
        forall|i: u32| i < 32 ==> #[trigger] bit32(result, i) == reversed_bit32(input, min, max, i),
{
    assert forall|i: u32| i < 32 implies #[trigger] bit32(result, i) == reversed_bit32(
        input,
        min,
        max,
        i,
    ) by {
        if i <= max {
            let j: u32 = (i + sh_pos) as u32;
            assert(bit32(rol, j) == bit32(to_reverse, (31 - j) as u32));
            if min <= i {
                assert(bit32(result, i) == bit32(input, (min + max - i) as u32)) by (bit_vector)
                    requires
                        min < max && max < 32 && min <= i && i <= max,
                        sh_top == 32 - (max + 1 - min),
                        sh_pos == 32 - (max + 1),
                        ones_mask == (0xFFFF_FFFFu32 << sh_top) >> sh_pos,
                        to_reverse == (input & ones_mask) >> min,
                        j == i + sh_pos,
                        bit32(rol, j) == bit32(to_reverse, (31 - j) as u32),
                        result == (input & !ones_mask) | (rol >> sh_pos),
                ;
            } else {
                assert(bit32(result, i) == bit32(input, i)) by (bit_vector)
                    requires
                        min < max && max < 32 && i < min,
                        sh_top == 32 - (max + 1 - min),
                        sh_pos == 32 - (max + 1),
                        ones_mask == (0xFFFF_FFFFu32 << sh_top) >> sh_pos,
                        to_reverse == (input & ones_mask) >> min,
                        j == i + sh_pos,
                        bit32(rol, j) == bit32(to_reverse, (31 - j) as u32),
                        result == (input & !ones_mask) | (rol >> sh_pos),
                ;
            }
        } else {
            assert(bit32(result, i) == bit32(input, i)) by (bit_vector)
                requires
                    min < max && max < 32 && max < i && i < 32,
                    sh_top == 32 - (max + 1 - min),
                    sh_pos == 32 - (max + 1),
                    ones_mask == (0xFFFF_FFFFu32 << sh_top) >> sh_pos,
                    result == (input & !ones_mask) | (rol >> sh_pos),
            ;
        }
    }
}

/// Reverse the bits of `input` inside the closed interval `[min, max]`,
/// in constant time, using word-level masking, shifts and the whole-word
/// bit reverse. Bits outside the interval are preserved.
pub fn reverse_closed_interval(input: u32, min: u32, max: u32) -> (r: u32)
    requires
        min < max,
        max < BITS,
    ensures
        forall|i: u32| i < 32 ==> #[trigger] bit32(r, i) == reversed_bit32(input, min, max, i),
{
    // Number of bits to reverse.
    let length: u32 = max + 1 - min;

    // Collect `length` ones at the top of the word, then slide them down so
    // the lowest one sits at position `min`.
    let sh_top: u32 = BITS - length;
    let sh_pos: u32 = BITS - (max + 1);
    let ones_mask: u32 = (ALL_ONES << sh_top) >> sh_pos;

    // The bits to reverse, still in place.
    let input_to_reverse: u32 = input & ones_mask;

    // The bits to keep unchanged.
    let input_to_keep: u32 = input & !ones_mask;

    // Align the bits to reverse with the bottom of the word.
    let to_reverse: u32 = input_to_reverse >> min;

    // Reverse the whole word; the interesting bits land at the top.
    let reversed_on_left: u32 = to_reverse.reverse_bits();

    // Slide the reversed bits back into `[min, max]`.
    let reversed_in_position: u32 = reversed_on_left >> sh_pos;

    let result: u32 = input_to_keep | reversed_in_position;
    proof {
        lemma_reverse_steps32(
            input,
            min,
            max,
            sh_top,
            sh_pos,
            ones_mask,
            to_reverse,
            reversed_on_left,
            result,
        );
    }
    result
}

/// Reverse the bits of `input` inside the range described by `range`,
/// preserving every bit outside it. The range is first collapsed to a
/// canonical closed interval; a degenerate interval leaves the word
/// unchanged. This function never fails.
pub fn reverse(input: u32, range: BitRange) -> (r: u32)
    ensures
        ({
            let start = start_bit32(range.start);
            let end = end_bit32(range.end);
            &&& (start < end ==> forall|i: u32|
                i < 32 ==> #[trigger] bit32(r, i) == reversed_bit32(input, start, end, i))
            &&& (start >= end ==> r == input)
        }),
{
    let (start, end) = to_start_end(range);
    if end > start {
        reverse_closed_interval(input, start, end)
    } else {
        input
    }
}

/// Law: reversing the same closed interval twice restores the original
/// word. If `y` reverses `x` on `[start, end]` and `z` reverses `y` on the
/// same interval, then `z` is `x` again.
pub proof fn lemma_reverse_involution(x: u32, y: u32, z: u32, start: u32, end: u32)
    requires
        start <= end,
        end < 32,
        forall|i: u32| i < 32 ==> #[trigger] bit32(y, i) == reversed_bit32(x, start, end, i),
        forall|i: u32| i < 32 ==> #[trigger] bit32(z, i) == reversed_bit32(y, start, end, i),
    ensures
        z == x,
{
    assert forall|i: u32| i < 32 implies #[trigger] bit32(z, i) == bit32(x, i) by {
        if start <= i && i <= end {
            let m: u32 = (start + end - i) as u32;
            assert(bit32(z, i) == bit32(y, m));
            assert(bit32(y, m) == bit32(x, (start + end - m) as u32));
            assert((start + end - m) as u32 == i);
        }
    }
    lemma_bit32_ext(z, x);
}

/// Law: reversing the same range description twice restores the original
/// word, whatever shape the range has and even when it normalizes to a
/// degenerate interval. The two hypotheses are exactly the contract of
/// `reverse` (and of `reverse_u32`) for `y` from `x` and `z` from `y`.
pub proof fn lemma_reverse_range_involution(x: u32, y: u32, z: u32, range: BitRange)
    requires
        ({
            let start = start_bit32(range.start);
            let end = end_bit32(range.end);
            &&& (start < end ==> forall|i: u32|
                i < 32 ==> #[trigger] bit32(y, i) == reversed_bit32(x, start, end, i))
            &&& (start >= end ==> y == x)
        }),
        ({
            let start = start_bit32(range.start);
            let end = end_bit32(range.end);
            &&& (start < end ==> forall|i: u32|
                i < 32 ==> #[trigger] bit32(z, i) == reversed_bit32(y, start, end, i))
            &&& (start >= end ==> z == y)
        }),
    ensures
        z == x,
{
    let start = start_bit32(range.start);
    let end = end_bit32(range.end);
    if start < end {
        assert(end < 32);
        lemma_reverse_involution(x, y, z, start, end);
    }
}

/// Law: the reversal contract pins its result down completely, so any two
/// words that both satisfy it for the same input and the same normalized
/// interval are equal. In particular the fast reverser and the reference
/// reverser return the same word.
pub proof fn lemma_fast_equals_reference(x: u32, a: u32, b: u32, y_fast: u32, y_ref: u32)
    requires
        a < b,
        b < 32,
        forall|i: u32| i < 32 ==> #[trigger] bit32(y_fast, i) == reversed_bit32(x, a, b, i),
        forall|i: u32| i < 32 ==> #[trigger] bit32(y_ref, i) == reversed_bit32(x, a, b, i),
    ensures
        y_fast == y_ref,
{
    assert forall|i: u32| i < 32 implies #[trigger] bit32(y_fast, i) == bit32(y_ref, i) by {
        assert(bit32(y_fast, i) == reversed_bit32(x, a, b, i));
        assert(bit32(y_ref, i) == reversed_bit32(x, a, b, i));
    }
    lemma_bit32_ext(y_fast, y_ref);
}

/// Law: a reversal changes nothing outside the interval: when `y` reverses
/// `x` on `[a, b]`, every bit of `x ^ y` below `a` or above `b` is zero.
pub proof fn lemma_outside_interval_unchanged(x: u32, y: u32, a: u32, b: u32)
    requires
        a <= b,
        b < 32,
        forall|i: u32| i < 32 ==> #[trigger] bit32(y, i) == reversed_bit32(x, a, b, i),
    ensures
        forall|i: u32| i < 32 && (i < a || b < i) ==> #[trigger] bit32(x ^ y, i) == false,
{
    assert forall|i: u32| i < 32 && (i < a || b < i) implies #[trigger] bit32(x ^ y, i)
        == false by {
        assert(bit32(y, i) == bit32(x, i));
        assert(bit32(x, i) == bit32(y, i) && i < 32 ==> !bit32(x ^ y, i)) by (bit_vector);
    }
}

/// Law: expanding a word into its bit array and packing the array back
/// yields the word again. The two hypotheses are exactly the contracts of
/// `to_array` and `to_u32`.
pub proof fn lemma_bit_array_round_trip(x: u32, arr: Seq<bool>, y: u32)
    requires
        arr.len() == 32,
        forall|i: int| 0 <= i < 32 ==> arr[i] == bit32(x, i as u32),
        forall|i: u32| i < 32 ==> #[trigger] bit32(y, i) == arr[i as int],
    ensures
        y == x,
{
    assert forall|i: u32| i < 32 implies #[trigger] bit32(y, i) == bit32(x, i) by {
        assert(arr[i as int] == bit32(x, i as u32));
    }
    lemma_bit32_ext(y, x);
}

} // verus!
