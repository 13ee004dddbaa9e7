//! Gray codes of symbols.
use vstd::prelude::*;

verus! {

/// The Gray code of a number.
pub open spec fn gray(b: u8) -> u8 {
    b ^ (b >> 1)
}

/// The number that has a Gray code: each bit is the sum of the code's bits from there up.
pub open spec fn ungray(g: u8) -> u8 {
    g ^ (g >> 1) ^ (g >> 2) ^ (g >> 3) ^ (g >> 4) ^ (g >> 5) ^ (g >> 6) ^ (g >> 7)
}

pub fn gray_to_binary_u8(g: u8) -> (b: u8)
    ensures
        b == ungray(g),
{
    let mut rest: u8 = g;
    let mut b: u8 = 0;
    proof {
        let u = ungray(g);
        assert(0u8 ^ u == u) by (bit_vector);
    }
    while rest != 0
        invariant
            b ^ ungray(rest) == ungray(g),
        decreases rest,
    {
        proof {
            assert((b ^ rest) ^ ungray(rest >> 1) == b ^ ungray(rest) && (rest != 0 ==> rest >> 1
                < rest)) by (bit_vector);
        }
        b = b ^ rest;
        rest = rest >> 1;
    }
    assert(b ^ ungray(0) == b) by (bit_vector);
    b
}

pub fn binary_to_gray_u8(b: u8) -> (g: u8)
    ensures
        g == gray(b),
{
    b ^ (b >> 1)
}

/// Each of the two functions undoes the other.
pub proof fn law_gray_codes_are_inverse(x: u8)
    ensures
        ungray(gray(x)) == x,
        gray(ungray(x)) == x,
{
    assert(ungray(gray(x)) == x && gray(ungray(x)) == x) by (bit_vector);
}

/// A number below a power of two has its Gray code below it too, and the other way round.
pub proof fn law_gray_codes_keep_bits(x: u8, n: u8)
    requires
        n < 8,
        x < (1u8 << n),
    ensures
        gray(x) < (1u8 << n),
        ungray(x) < (1u8 << n),
{
    assert(n < 8 && x < (1u8 << n) ==> gray(x) < (1u8 << n) && ungray(x) < (1u8 << n))
        by (bit_vector);
}

/// The codes of neighbouring numbers differ in exactly one bit.
pub proof fn law_neighbours_differ_in_one_bit(b: u8)
    requires
        b < 255,
    ensures
        ({
            let d = gray(b) ^ gray((b + 1) as u8);
            d != 0 && d & ((d - 1) as u8) == 0
        }),
{
    let n = (b + 1) as u8;
    let d = gray(b) ^ gray(n);
    let e = (d - 1) as u8;
    assert((b ^ (b >> 1)) ^ (n ^ (n >> 1)) == d ==> d != 0 && (e == d - 1 ==> d & e == 0)) by (bit_vector)
        requires
            b < 255,
            n == b + 1,
    ;
}

} // verus!
