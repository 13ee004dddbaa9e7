//! Comparisons of floating-point numbers by their bit patterns.
use vstd::prelude::*;

verus! {

/// The pattern is that of no number.
pub open spec fn is_nan(p: u32) -> bool {
    0x7F80_0000 < p < 0x8000_0000 || 0xFF80_0000 < p
}

/// Where a number stands among the others: patterns of positive numbers grow with the number,
/// those of negative ones with its magnitude, and both zeros stand in one place.
pub open spec fn rank(p: u32) -> int {
    if p < 0x8000_0000 {
        p as int
    } else {
        0x8000_0000 - p
    }
}

/// The first number is less than the second. Nothing is less or greater than no number.
pub open spec fn less(a: u32, b: u32) -> bool {
    !is_nan(a) && !is_nan(b) && rank(a) < rank(b)
}

/// The first number is at least the second.
pub open spec fn at_least(a: u32, b: u32) -> bool {
    !is_nan(a) && !is_nan(b) && rank(a) >= rank(b)
}

/// The number is finite and from 0 to 1.
pub open spec fn in_unit_interval(p: u32) -> bool {
    at_least(p, 0) && at_least(0x3F80_0000, p)
}

fn is_nan_bits(p: u32) -> (r: bool)
    ensures
        r == is_nan(p),
{
    (0x7F80_0000 < p && p < 0x8000_0000) || 0xFF80_0000 < p
}

fn rank_of(p: u32) -> (r: i64)
    ensures
        r == rank(p),
{
    if p < 0x8000_0000 {
        p as i64
    } else {
        0x8000_0000i64 - p as i64
    }
}

pub fn is_less(a: u32, b: u32) -> (r: bool)
    ensures
        r == less(a, b),
{
    !is_nan_bits(a) && !is_nan_bits(b) && rank_of(a) < rank_of(b)
}

pub fn is_at_least(a: u32, b: u32) -> (r: bool)
    ensures
        r == at_least(a, b),
{
    !is_nan_bits(a) && !is_nan_bits(b) && rank_of(a) >= rank_of(b)
}

pub fn is_in_unit_interval(p: u32) -> (r: bool)
    ensures
        r == in_unit_interval(p),
{
    is_at_least(p, 0) && is_at_least(0x3F80_0000, p)
}

/// The pattern of positive infinity.
pub const INFINITY: u32 = 0x7F80_0000;

/// The pattern of a number without its sign.
pub open spec fn magnitude(p: u32) -> u32 {
    if p >= 0x8000_0000 {
        (p - 0x8000_0000) as u32
    } else {
        p
    }
}

pub fn magnitude_of(p: u32) -> (m: u32)
    ensures
        m == magnitude(p),
{
    if p >= 0x8000_0000 {
        p - 0x8000_0000
    } else {
        p
    }
}

/// The pattern of positive infinity in double precision.
pub const INFINITY_DOUBLE: u64 = 0x7FF0_0000_0000_0000;

/// The pattern is that of no double-precision number.
pub open spec fn is_nan_double(p: u64) -> bool {
    0x7FF0_0000_0000_0000 < p < 0x8000_0000_0000_0000 || 0xFFF0_0000_0000_0000 < p
}

/// Where a double-precision number stands among the others.
pub open spec fn rank_double(p: u64) -> int {
    if p < 0x8000_0000_0000_0000 {
        p as int
    } else {
        0x8000_0000_0000_0000 - p
    }
}

/// The first double-precision number is less than the second.
pub open spec fn less_double(a: u64, b: u64) -> bool {
    !is_nan_double(a) && !is_nan_double(b) && rank_double(a) < rank_double(b)
}

/// The first double-precision number is at least the second.
pub open spec fn at_least_double(a: u64, b: u64) -> bool {
    !is_nan_double(a) && !is_nan_double(b) && rank_double(a) >= rank_double(b)
}

fn rank_double_of(p: u64) -> (r: i128)
    ensures
        r == rank_double(p),
{
    if p < 0x8000_0000_0000_0000 {
        p as i128
    } else {
        0x8000_0000_0000_0000i128 - p as i128
    }
}

fn is_nan_double_bits(p: u64) -> (r: bool)
    ensures
        r == is_nan_double(p),
{
    (0x7FF0_0000_0000_0000 < p && p < 0x8000_0000_0000_0000) || 0xFFF0_0000_0000_0000 < p
}

pub fn is_less_double(a: u64, b: u64) -> (r: bool)
    ensures
        r == less_double(a, b),
{
    !is_nan_double_bits(a) && !is_nan_double_bits(b) && rank_double_of(a) < rank_double_of(b)
}

pub fn is_at_least_double(a: u64, b: u64) -> (r: bool)
    ensures
        r == at_least_double(a, b),
{
    !is_nan_double_bits(a) && !is_nan_double_bits(b) && rank_double_of(a) >= rank_double_of(b)
}

/// The pattern of a number with the other sign.
pub open spec fn negated(p: u32) -> u32 {
    if p >= 0x8000_0000 {
        (p - 0x8000_0000) as u32
    } else {
        (p + 0x8000_0000) as u32
    }
}

/// Numbers are ordered: of two of them one is less or they are equal, negative ones come before
/// positive ones, both zeros are one number, and a change of sign turns the order round. Among
/// positive numbers the greater pattern is the greater number.
pub proof fn law_numbers_are_ordered(a: u32, b: u32)
    requires
        !is_nan(a),
        !is_nan(b),
    ensures
        at_least(a, b) <==> !less(a, b),
        !(less(a, b) && less(b, a)),
        less(a, b) <==> less(negated(b), negated(a)),
        a < 0x8000_0000 && b < 0x8000_0000 ==> (less(a, b) <==> a < b),
        a > 0x8000_0000 && b < 0x8000_0000 ==> less(a, b),
        !less(0x8000_0000, 0) && !less(0, 0x8000_0000),
        magnitude(a) == magnitude(negated(a)),
        magnitude(a) == a || magnitude(a) == negated(a),
        at_least(magnitude(a), 0),
{
}

/// What is less than a number is less than anything that is not less than that number.
pub proof fn law_less_is_transitive(a: u32, b: u32, c: u32)
    requires
        less(a, b),
        at_least(c, b),
    ensures
        less(a, c),
{
}

/// Nothing is less or greater than what is no number.
pub proof fn law_no_number_is_unordered(a: u32, b: u32)
    requires
        is_nan(a) || is_nan(b),
    ensures
        !less(a, b),
        !at_least(a, b),
{
}

/// The same of double-precision numbers.
pub proof fn law_doubles_are_ordered(a: u64, b: u64)
    requires
        !is_nan_double(a),
        !is_nan_double(b),
    ensures
        at_least_double(a, b) <==> !less_double(a, b),
        !(less_double(a, b) && less_double(b, a)),
        a < 0x8000_0000_0000_0000 && b < 0x8000_0000_0000_0000 ==> (less_double(a, b) <==> a < b),
        a > 0x8000_0000_0000_0000 && b > 0x8000_0000_0000_0000 ==> (less_double(a, b) <==> b < a),
        a > 0x8000_0000_0000_0000 && b < 0x8000_0000_0000_0000 ==> less_double(a, b),
        !less_double(0x8000_0000_0000_0000, 0) && !less_double(0, 0x8000_0000_0000_0000),
{
}

/// The patterns from 0 to 1 are those of the positive numbers up to one, and that of the other zero.
pub proof fn law_unit_interval(p: u32)
    ensures
        in_unit_interval(p) <==> p <= 0x3F80_0000 || p == 0x8000_0000,
{
}

} // verus!
