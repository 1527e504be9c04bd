//! Floating-point numbers as bit patterns, and the order that IEEE 754 gives them.

use vstd::prelude::*;

verus! {

/// An IEEE 754 binary32 number, given by its bits.
pub type Single = u32;

/// An IEEE 754 binary64 number, given by its bits.
pub type Double = u64;

/// `0.0`
pub const ZERO: Single = 0x0000_0000;

/// `1.0`
pub const ONE: Single = 0x3f80_0000;

/// `-1.0`
pub const MINUS_ONE: Single = 0xbf80_0000;

/// `0.5`
pub const HALF: Single = 0x3f00_0000;

/// `1e-12`
pub const TINY: Single = 0x2b8c_bccc;

/// `10000.0`
pub const TEN_THOUSAND: Single = 0x461c_4000;

/// `10000.0`
pub const TEN_THOUSAND_WIDE: Double = 0x40c3_8800_0000_0000;

/// The bits without the sign.
pub open spec fn magnitude(x: Single) -> int {
    if x >= 0x8000_0000 {
        x - 0x8000_0000
    } else {
        x as int
    }
}

/// Whether `x` is no number.
pub open spec fn is_nan(x: Single) -> bool {
    magnitude(x) > 0x7f80_0000
}

/// The place of a number on the line: numbers compare as these integers do. Both zeros are at 0.
pub open spec fn place(x: Single) -> int {
    if x >= 0x8000_0000 {
        -magnitude(x)
    } else {
        magnitude(x)
    }
}

/// `a > b`: false as soon as one of them is no number.
pub open spec fn exceeds(a: Single, b: Single) -> bool {
    !is_nan(a) && !is_nan(b) && place(a) > place(b)
}

/// The integer by which values are ranked: that of the number, and one below all numbers for
/// what is no number.
pub open spec fn rank(x: Single) -> int {
    if is_nan(x) {
        -0x8000_0000
    } else {
        place(x)
    }
}

/// The bits without the sign.
pub open spec fn magnitude_wide(x: Double) -> int {
    if x >= 0x8000_0000_0000_0000 {
        x - 0x8000_0000_0000_0000
    } else {
        x as int
    }
}

/// Whether `x` is no number.
pub open spec fn is_nan_wide(x: Double) -> bool {
    magnitude_wide(x) > 0x7ff0_0000_0000_0000
}

/// As [`rank`], for the wider format.
pub open spec fn rank_wide(x: Double) -> int {
    if is_nan_wide(x) {
        -0x8000_0000_0000_0000
    } else if x >= 0x8000_0000_0000_0000 {
        -magnitude_wide(x)
    } else {
        magnitude_wide(x)
    }
}

/// The integer by which `x` is ranked.
pub fn rank_of(x: Single) -> (r: i64)
    ensures
        r == rank(x),
{
    let size: u32 = if x >= 0x8000_0000 {
        x - 0x8000_0000
    } else {
        x
    };
    if size > 0x7f80_0000 {
        -0x8000_0000
    } else if x >= 0x8000_0000 {
        -(size as i64)
    } else {
        size as i64
    }
}

/// The integer by which `x` is ranked.
pub fn rank_of_wide(x: Double) -> (r: i64)
    ensures
        r == rank_wide(x),
{
    let size: u64 = if x >= 0x8000_0000_0000_0000 {
        x - 0x8000_0000_0000_0000
    } else {
        x
    };
    if size > 0x7ff0_0000_0000_0000 {
        i64::MIN
    } else if x >= 0x8000_0000_0000_0000 {
        -(size as i64)
    } else {
        size as i64
    }
}

/// Whether `x` is a number.
pub fn number(x: Single) -> (r: bool)
    ensures
        r == !is_nan(x),
{
    rank_of(x) > -0x8000_0000
}

/// `a > b`.
pub fn greater(a: Single, b: Single) -> (r: bool)
    ensures
        r == exceeds(a, b),
{
    rank_of(a) > rank_of(b) && number(b)
}

/// Among numbers, being ranked higher and being greater are the same.
pub proof fn law_rank_is_the_order(a: Single, b: Single)
    requires
        !is_nan(a),
        !is_nan(b),
    ensures
        exceeds(a, b) <==> rank(a) > rank(b),
{
}

/// What is no number is ranked below every number, the negative infinity included.
pub proof fn law_nan_ranks_last(a: Single, b: Single)
    requires
        is_nan(a),
        !is_nan(b),
    ensures
        rank(a) < rank(b),
{
}

/// Comparing is that of IEEE 754, bit by bit: what is no number compares with nothing, numbers of
/// the same sign go by their bits, those below 0 the other way round, and the two zeros are equal.
pub proof fn law_greater_goes_by_the_bits(a: Single, b: Single, r: bool)
    requires
        call_ensures(greater, (a, b), r),
    ensures
        r == exceeds(a, b),
        is_nan(a) <==> (0x7f80_0000 < a < 0x8000_0000 || 0xff80_0000 < a),
        is_nan(a) || is_nan(b) ==> !exceeds(a, b),
        a <= 0x7f80_0000 && b <= 0x7f80_0000 ==> (exceeds(a, b) <==> a > b),
        0x8000_0000 <= a <= 0xff80_0000 && 0x8000_0000 <= b <= 0xff80_0000 ==> (exceeds(a, b)
            <==> a < b),
        a <= 0x7f80_0000 && 0x8000_0000 <= b <= 0xff80_0000 ==> (exceeds(a, b) <==> a != 0 || b
            != 0x8000_0000),
        0x8000_0000 <= a <= 0xff80_0000 && b <= 0x7f80_0000 ==> !exceeds(a, b),
{
}

/// Ranking is comparing, with what is no number below all numbers and level with its like.
pub proof fn law_rank_goes_by_the_order(a: Single, b: Single, r: i64, s: i64)
    requires
        call_ensures(rank_of, (a,), r),
        call_ensures(rank_of, (b,), s),
    ensures
        r == rank(a),
        s == rank(b),
        r > s <==> exceeds(a, b) || (is_nan(b) && !is_nan(a)),
        r == s <==> (is_nan(a) && is_nan(b)) || (!is_nan(a) && !is_nan(b) && !exceeds(a, b)
            && !exceeds(b, a)),
{
}

/// In the wider format too, ranking goes by the bits: numbers of the same sign by their own bits,
/// those below 0 the other way round, the two zeros are level, and what is no number is below all
/// numbers.
pub proof fn law_wide_rank_goes_by_the_bits(a: Double, b: Double, r: i64, s: i64)
    requires
        call_ensures(rank_of_wide, (a,), r),
        call_ensures(rank_of_wide, (b,), s),
    ensures
        r == rank_wide(a),
        s == rank_wide(b),
        a <= 0x7ff0_0000_0000_0000 && b <= 0x7ff0_0000_0000_0000 ==> (r > s <==> a > b),
        0x8000_0000_0000_0000 <= a <= 0xfff0_0000_0000_0000 && 0x8000_0000_0000_0000 <= b
            <= 0xfff0_0000_0000_0000 ==> (r > s <==> a < b),
        a <= 0x7ff0_0000_0000_0000 && 0x8000_0000_0000_0000 <= b <= 0xfff0_0000_0000_0000 ==> {
            &&& r > s <==> a != 0 || b != 0x8000_0000_0000_0000
            &&& r >= s
        },
        (0x7ff0_0000_0000_0000 < b < 0x8000_0000_0000_0000 || 0xfff0_0000_0000_0000 < b) && (a
            <= 0x7ff0_0000_0000_0000 || 0x8000_0000_0000_0000 <= a <= 0xfff0_0000_0000_0000) ==> r
            > s,
{
}

} // verus!
