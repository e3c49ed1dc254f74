//! Non-negative whole numbers out of the bits of an IEEE 754 double.
use vstd::arithmetic::power2::*;
use vstd::prelude::*;

verus! {

/// Two to the power of 52: the number of fractions.
pub const FRACTIONS: u64 = 0x10_0000_0000_0000;

/// Two to the power of 63: what the sign adds.
pub const SIGN: u64 = 0x8000_0000_0000_0000;

pub open spec fn biased_exponent(bits: u64) -> int {
    (bits as int / FRACTIONS as int) % 2048
}

/// The double is an infinity or no number.
pub open spec fn is_special(bits: u64) -> bool {
    biased_exponent(bits) == 2047
}

/// The whole number that is scaled by a power of two.
pub open spec fn significand(bits: u64) -> int {
    let fraction = bits as int % FRACTIONS as int;
    if biased_exponent(bits) == 0 {
        fraction
    } else {
        FRACTIONS + fraction
    }
}

/// The power of two that the significand is scaled by.
pub open spec fn scale(bits: u64) -> int {
    (if biased_exponent(bits) == 0 {
        1
    } else {
        biased_exponent(bits)
    }) - 1075
}

/// The size of the double, its sign aside, is at most `limit`.
pub open spec fn at_most(bits: u64, limit: nat) -> bool {
    if scale(bits) >= 0 {
        significand(bits) * pow2(scale(bits) as nat) <= limit
    } else {
        significand(bits) <= limit * pow2((-scale(bits)) as nat)
    }
}

/// The size of the double, its sign and its fraction aside.
pub open spec fn whole_part(bits: u64) -> int {
    if scale(bits) >= 0 {
        significand(bits) * pow2(scale(bits) as nat) as int
    } else {
        significand(bits) / pow2((-scale(bits)) as nat) as int
    }
}

/// The double without its fraction, where it lies between zero and `limit`, and no more than `max`.
pub open spec fn double_to_uint(bits: u64, limit: nat, max: nat) -> Option<nat> {
    if is_special(bits) || (bits >= SIGN && significand(bits) != 0) || !at_most(bits, limit) {
        None
    } else if whole_part(bits) <= max {
        Some(whole_part(bits) as nat)
    } else {
        Some(max)
    }
}

/// Two to a small power.
fn power_of_two(j: u64) -> (p: u128)
    requires
        j <= 64,
    ensures
        p == pow2(j as nat),
        0 < p <= 0x1_0000_0000_0000_0000,
{
    let mut p: u128 = 1;
    let mut i: u64 = 0;
    proof {
        lemma2_to64();
    }
    while i < j
        invariant
            i <= j <= 64,
            p == pow2(i as nat),
            0 < p <= 0x1_0000_0000_0000_0000,
        decreases j - i,
    {
        proof {
            lemma_pow2_unfold((i + 1) as nat);
            if i + 1 < 64 {
                lemma_pow2_strictly_increases((i + 1) as nat, 64);
            }
            lemma2_to64();
        }
        p = p * 2;
        i += 1;
    }
    p
}

/// Reads a double without its fraction, where it lies between zero and `limit`.
pub fn read_uint(bits: u64, limit: u128, max: u64) -> (value: Option<u64>)
    requires
        0 < limit <= 0x1_0000_0000_0000_0000,
    ensures
        match value {
            Some(v) => v <= max && double_to_uint(bits, limit as nat, max as nat) == Some(v as nat),
            None => double_to_uint(bits, limit as nat, max as nat) is None,
        },
{
    let exponent: u64 = (bits / FRACTIONS) % 2048;
    let fraction: u64 = bits % FRACTIONS;
    if exponent == 2047 {
        return None;
    }
    let digits: u64 = if exponent == 0 {
        fraction
    } else {
        FRACTIONS + fraction
    };
    assert(digits == significand(bits));
    if bits >= SIGN && digits != 0 {
        return None;
    }
    let whole: u128 = if exponent >= 1075 {
        let k: u64 = exponent - 1075;
        assert(k == scale(bits));
        if k > 12 {
            proof {
                lemma2_to64();
                if k > 13 {
                    lemma_pow2_strictly_increases(13, k as nat);
                }
                assert(digits * pow2(k as nat) >= 0x10_0000_0000_0000 * 0x2000) by (nonlinear_arith)
                    requires
                        digits >= 0x10_0000_0000_0000,
                        pow2(k as nat) >= 0x2000,
                ;
            }
            return None;
        }
        let p: u128 = power_of_two(k);
        proof {
            lemma2_to64();
            if k < 12 {
                lemma_pow2_strictly_increases(k as nat, 12);
            }
            assert(digits * p <= 0x20_0000_0000_0000 * 0x1000) by (nonlinear_arith)
                requires
                    digits <= 0x20_0000_0000_0000,
                    p <= 0x1000,
            ;
        }
        let v: u128 = digits as u128 * p;
        if v > limit {
            return None;
        }
        v
    } else {
        let j: u64 = 1075 - (if exponent == 0 { 1 } else { exponent });
        assert(j == -scale(bits));
        if j >= 54 {
            proof {
                lemma2_to64_rest();
                if j > 54 {
                    lemma_pow2_strictly_increases(54, j as nat);
                }
                assert(digits < pow2(j as nat));
                assert(digits <= limit * pow2(j as nat)) by (nonlinear_arith)
                    requires
                        digits < pow2(j as nat),
                        limit >= 1,
                ;
                assert(digits as int / pow2(j as nat) as int == 0) by (nonlinear_arith)
                    requires
                        0 <= digits < pow2(j as nat),
                ;
            }
            0
        } else {
            let p: u128 = power_of_two(j);
            proof {
                lemma2_to64_rest();
                if j < 54 {
                    lemma_pow2_strictly_increases(j as nat, 54);
                }
                assert(0 <= limit * p <= 0x1_0000_0000_0000_0000 * 0x40_0000_0000_0000) by (nonlinear_arith)
                    requires
                        0 < limit <= 0x1_0000_0000_0000_0000,
                        0 < p <= 0x40_0000_0000_0000,
                ;
            }
            if digits as u128 > limit * p {
                return None;
            }
            digits as u128 / p
        }
    };
    assert(whole == whole_part(bits));
    if whole <= max as u128 {
        Some(whole as u64)
    } else {
        Some(max)
    }
}

} // verus!
