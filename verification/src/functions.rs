//! Class tags of pixels and pyramid cells, and a few small helpers.

use core::cmp::Ordering;
use vstd::arithmetic::power2::pow2;
use vstd::prelude::*;
use vstd::std_specs::cmp::OrdSpec;
use vstd::std_specs::cmp::PartialOrdSpec;

verus! {

/// Bit of a class tag that is set where a region holds a white pixel.
pub const HAS_WHITE_BIT: u8 = 128;

/// Bit of a class tag that is set where a region holds a black pixel.
pub const HAS_BLACK_BIT: u8 = 64;

/// The tag says that the region holds a white pixel.
pub open spec fn tag_has_white(v: u8) -> bool {
    v & HAS_WHITE_BIT != 0
}

/// The tag says that the region holds a black pixel.
pub open spec fn tag_has_black(v: u8) -> bool {
    v & HAS_BLACK_BIT != 0
}

/// The tag names exactly one of the two classes, as the tag of a single pixel does.
pub open spec fn tag_is_single(v: u8) -> bool {
    tag_has_white(v) != tag_has_black(v)
}

/// The class bit that a pixel with tag `v` looks for: black for a white pixel,
/// white for any other.
pub open spec fn needed_of(v: u8) -> u8 {
    if tag_has_white(v) {
        HAS_BLACK_BIT
    } else {
        HAS_WHITE_BIT
    }
}

/// The smaller of two values under a partial order; the second where they are equal
/// or the first is greater. The two values must be comparable.
pub fn optimistic_min<T: PartialOrd>(v1: T, v2: T) -> (r: T)
    requires
        T::obeys_partial_cmp_spec(),
        v1.partial_cmp_spec(&v2).is_some(),
    ensures
        r == if v1.partial_cmp_spec(&v2) == Some(Ordering::Less) {
            v1
        } else {
            v2
        },
{
    match v1.partial_cmp(&v2) {
        Some(Ordering::Less) => v1,
        _ => v2,
    }
}

/// What `clamp` returns, over the order's specification: `v` cut down to `biggest`
/// first, then lifted to `smallest`.
pub open spec fn clamp_spec<T: Ord>(v: T, smallest: T, biggest: T) -> T {
    let low = if biggest.cmp_spec(&v) == Ordering::Less {
        biggest
    } else {
        v
    };
    if smallest.cmp_spec(&low) == Ordering::Less {
        low
    } else {
        smallest
    }
}

/// Restricts `v` to the range from `smallest` to `biggest`. Where the range is
/// empty, `smallest` wins.
pub fn clamp<T: Ord>(v: T, smallest: T, biggest: T) -> (r: T)
    ensures
        T::obeys_cmp_spec() ==> r == clamp_spec(v, smallest, biggest),
{
    v.min(biggest).max(smallest)
}

/// Classifies a grey sample: white from 128 upwards, black below.
pub fn bw_to_bits(v: u8) -> (r: u8)
    ensures
        r == if v >= 128 {
            HAS_WHITE_BIT
        } else {
            HAS_BLACK_BIT
        },
        tag_is_single(r),
{
    proof {
        assert(128u8 & 128u8 != 0 && 128u8 & 64u8 == 0 && 64u8 & 128u8 == 0 && 64u8 & 64u8 != 0)
            by (bit_vector);
    }
    if v >= 128 {
        HAS_WHITE_BIT
    } else {
        HAS_BLACK_BIT
    }
}

/// Merges the tags of four cells into the tag of the cell that covers them.
pub fn bit_compressor(a: u8, b: u8, c: u8, d: u8) -> (r: u8)
    ensures
        r == a | b | c | d,
{
    a | b | c | d
}

/// The region holds pixels of both classes.
pub fn has_black_and_white(v: u8) -> (r: bool)
    ensures
        r == (tag_has_white(v) && tag_has_black(v)),
{
    proof {
        assert((v & (128u8 | 64u8) == (128u8 | 64u8)) == (v & 128u8 != 0 && v & 64u8 != 0))
            by (bit_vector);
    }
    v & (HAS_WHITE_BIT | HAS_BLACK_BIT) == (HAS_WHITE_BIT | HAS_BLACK_BIT)
}

/// The region holds a white pixel.
pub fn has_white(v: u8) -> (r: bool)
    ensures
        r == tag_has_white(v),
{
    v & HAS_WHITE_BIT != 0
}

/// The region holds a black pixel.
pub fn has_black(v: u8) -> (r: bool)
    ensures
        r == tag_has_black(v),
{
    v & HAS_BLACK_BIT != 0
}

/// The class that a pixel of class `v` measures its distance to.
pub fn get_needed(v: u8) -> (r: u8)
    requires
        tag_is_single(v),
    ensures
        r == needed_of(v),
{
    if v & HAS_WHITE_BIT != 0 {
        HAS_BLACK_BIT
    } else {
        HAS_WHITE_BIT
    }
}

/// A pixel's tag is the white one. Not meant for merged tags that hold both classes.
pub fn is_white(v: u8) -> (r: bool)
    requires
        !(tag_has_white(v) && tag_has_black(v)),
    ensures
        r == tag_has_white(v),
{
    v & HAS_WHITE_BIT != 0
}

/// A pixel's tag is the black one. Not meant for merged tags that hold both classes.
pub fn is_black(v: u8) -> (r: bool)
    requires
        !(tag_has_white(v) && tag_has_black(v)),
    ensures
        r == tag_has_black(v),
{
    v & HAS_BLACK_BIT != 0
}

/// `x` is one of the powers of two that a `u64` can hold.
pub open spec fn is_power_of_two(x: int) -> bool {
    exists|k: nat| k < 64 && x == #[trigger] pow2(k)
}

/// The exponent of a power of two: `Some(i)` where `x` is two to the `i`, and
/// `None` for every other number but zero, for which the answer is `Some(0)`.
pub fn log2(x: u64) -> (r: Option<u8>)
    ensures
        match r {
            Some(i) => i < 64 && if x == 0 {
                i == 0
            } else {
                x == pow2(i as nat)
            },
            None => x != 0 && !is_power_of_two(x as int),
        },
{
    let mut i: u8 = 0;
    while i < 64
        invariant
            i <= 64,
            i > 0 ==> x != 0,
            forall|k: nat| k < i ==> x != #[trigger] pow2(k),
        decreases 64 - i,
    {
        let shift: u64 = i as u64;
        let shiftedi: u64 = 1u64 << shift;
        let andedx: u64 = x & shiftedi;
        proof {
            vstd::bits::lemma_u64_pow2_no_overflow(i as nat);
            vstd::bits::lemma_u64_shl_is_mul(1u64, shift);
            assert(shiftedi == pow2(i as nat));
            assert(x & (1u64 << shift) == x ==> x == 0 || x == (1u64 << shift)) by (bit_vector)
                requires
                    shift < 64,
            ;
            assert((1u64 << shift) & (1u64 << shift) == (1u64 << shift)) by (bit_vector)
                requires
                    shift < 64,
            ;
            assert(0u64 & (1u64 << shift) == 0u64) by (bit_vector)
                requires
                    shift < 64,
            ;
        }
        if andedx == x {
            return Some(i);
        }
        i = i + 1;
    }
    None
}

} // verus!
