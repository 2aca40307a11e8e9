use vstd::arithmetic::power2::{lemma2_to64, lemma_pow2_strictly_increases, pow2};
use vstd::prelude::*;

verus! {

/// `bits` is the least number of binary digits that can write `n`: at least
/// one, and the smallest count whose power of two exceeds `n`.
pub open spec fn is_bit_width(n: nat, bits: nat) -> bool {
    &&& bits >= 1
    &&& n < pow2(bits)
    &&& (bits == 1 || pow2((bits - 1) as nat) <= n)
}

/// A number has exactly one bit width.
pub proof fn lemma_bit_width_unique(n: nat, a: nat, b: nat)
    requires
        is_bit_width(n, a),
        is_bit_width(n, b),
    ensures
        a == b,
{
    if a < b {
        if a <= (b - 1) as nat && a != (b - 1) as nat {
            lemma_pow2_strictly_increases(a, (b - 1) as nat);
        }
    } else if b < a {
        if b != (a - 1) as nat {
            lemma_pow2_strictly_increases(b, (a - 1) as nat);
        }
    }
}

/// A power of two no larger than a `usize` has an exponent below 64.
proof fn lemma_small_exponent(e: nat)
    requires
        pow2(e) <= usize::MAX,
    ensures
        e < 64,
{
    lemma2_to64();
    if e > 64 {
        lemma_pow2_strictly_increases(64, e);
    }
}

/// Bit width of `number`, found by doubling a power of two until it exceeds
/// the number.
pub fn int_min_representation_size_ascending(number: usize) -> (r: u8)
    requires
        number <= usize::MAX / 2,
    ensures
        is_bit_width(number as nat, r as nat),
{
    let mut min_bit_required: u8 = 1;
    let mut min_decimal_representation: usize = 2;
    proof {
        lemma2_to64();
    }
    loop
        invariant
            number <= usize::MAX / 2,
            1 <= min_bit_required,
            min_decimal_representation >= 2,
            min_decimal_representation == pow2(min_bit_required as nat),
            min_bit_required == 1 || pow2((min_bit_required - 1) as nat) <= number,
        decreases usize::MAX - min_decimal_representation,
    {
        if number < min_decimal_representation {
            return min_bit_required;
        }
        proof {
            lemma_small_exponent(min_bit_required as nat);
            assert(pow2((min_bit_required + 1) as nat) == 2 * pow2(min_bit_required as nat)) by {
                vstd::arithmetic::power2::lemma_pow2_unfold((min_bit_required + 1) as nat);
            }
        }
        min_bit_required += 1;
        min_decimal_representation *= 2;
    }
}

/// Relies on `usize::ilog2`: the base 2 logarithm rounded down, for a
/// nonzero number.
#[verifier::external_body]
fn floor_log2(n: usize) -> (r: u32)
    requires
        n > 0,
    ensures
        pow2(r as nat) <= n < pow2(r as nat + 1),
{
    n.ilog2()
}

/// Bit width of `raw_number`, from its base 2 logarithm.
pub fn int_min_representation_size_log(raw_number: usize) -> (r: u8)
    ensures
        is_bit_width(raw_number as nat, r as nat),
{
    if raw_number == 0 {
        proof {
            lemma2_to64();
        }
        return 1;
    }
    let log_number = floor_log2(raw_number);
    proof {
        lemma_small_exponent(log_number as nat);
    }
    let log_number = log_number as u8;
    log_number + 1
}

} // verus!
