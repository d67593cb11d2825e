//! Decimal spelling of numbers without allocation.

use vstd::prelude::*;

use vstd::arithmetic::power::pow;

verus! {

/// Room for the decimal digits of any `u32`.
pub const U32_DIGITS: usize = 10;

/// The number that the decimal digits `s` spell, most significant first.
pub open spec fn decimal_value(s: Seq<u8>) -> int
    decreases s.len(),
{
    if s.len() == 0 {
        0
    } else {
        (s[0] - 48) * pow(10, (s.len() - 1) as nat) + decimal_value(s.drop_first())
    }
}

/// `s` is the canonical decimal spelling of a number: ASCII digits, and no
/// leading zero unless it is the single digit `0`.
pub open spec fn canonical_decimal(s: Seq<u8>) -> bool {
    &&& s.len() >= 1
    &&& forall|i: int| 0 <= i < s.len() ==> 48 <= #[trigger] s[i] <= 57
    &&& (s[0] != 48 || s.len() == 1)
}

/// Writes the decimal digits of `val` into the end of `storage` and returns
/// the index of the first digit: `storage[first..]` spells `val`.
pub fn u32(val: u32, storage: &mut [u8]) -> (first: usize)
    requires
        old(storage)@.len() == U32_DIGITS,
    ensures
        final(storage)@.len() == U32_DIGITS,
        first < U32_DIGITS,
        canonical_decimal(final(storage)@.subrange(first as int, U32_DIGITS as int)),
        decimal_value(final(storage)@.subrange(first as int, U32_DIGITS as int)) == val,
{
    let ghost val0 = val as int;
    let mut val = val;
    let mut first: usize = U32_DIGITS - 1;
    let mut j: usize = 0;
    proof {
        vstd::arithmetic::power::lemma_pow0(10);
    }
    while j < U32_DIGITS
        invariant
            storage@.len() == U32_DIGITS,
            j <= U32_DIGITS,
            pow(10, j as nat) > 0,
            val == val0 / pow(10, j as nat),
            0 <= val0 <= u32::MAX,
            forall|t: int| U32_DIGITS - j <= t < U32_DIGITS ==> 48 <= #[trigger] storage@[t] <= 57,
            decimal_value(storage@.subrange(U32_DIGITS - j, U32_DIGITS as int)) == val0 % pow(
                10,
                j as nat,
            ),
            first < U32_DIGITS,
            first == U32_DIGITS - 1 || (U32_DIGITS - j <= first && storage@[first as int] != 48),
            forall|t: int| U32_DIGITS - j <= t < first ==> #[trigger] storage@[t] == 48,
        decreases U32_DIGITS - j,
    {
        let i: usize = U32_DIGITS - 1 - j;
        let digit = val % 10;
        let ghost old_val = val;
        let ghost old_storage = storage@;
        let ghost p = pow(10, j as nat);
        proof {
            vstd::arithmetic::div_mod::lemma_mod_breakdown(val0, p, 10);
            vstd::arithmetic::div_mod::lemma_div_denominator(val0, p, 10);
            vstd::arithmetic::power::lemma_pow_adds(10, j as nat, 1);
            vstd::arithmetic::power::lemma_pow1(10);
        }
        val = val / 10;
        storage[i] = 48 + digit as u8;
        if digit != 0 {
            first = i;
        }
        proof {
            let s_old = old_storage.subrange(i + 1, U32_DIGITS as int);
            let s_new = storage@.subrange(i as int, U32_DIGITS as int);
            assert(s_new.drop_first() =~= s_old);
            assert(s_new.len() == j + 1);
            assert(decimal_value(s_new) == digit * p + decimal_value(s_old));
            assert(digit == (val0 / p) % 10);
            assert(digit * p == p * ((val0 / p) % 10)) by (nonlinear_arith)
                requires
                    digit == (val0 / p) % 10,
            ;
            assert(decimal_value(s_new) == val0 % (p * 10));
            assert(p * 10 == pow(10, (j + 1) as nat));
            assert(val0 % (p * 10) == p * ((val0 / p) % 10) + val0 % p);
            vstd::arithmetic::power::lemma_pow_positive(10, (j + 1) as nat);
        }
        j = j + 1;
    }
    proof {
        assert(pow(10, 10) == 10_000_000_000) by {
            reveal_with_fuel(pow, 11);
        }
        vstd::arithmetic::div_mod::lemma_small_mod(val0 as nat, 10_000_000_000);
        lemma_strip_zeros(storage@.subrange(0, U32_DIGITS as int), first as int);
        assert(storage@.subrange(0, U32_DIGITS as int).subrange(first as int, U32_DIGITS as int)
            =~= storage@.subrange(first as int, U32_DIGITS as int));
        assert(storage@.subrange(0, U32_DIGITS as int) =~= storage@);
    }
    first
}

/// Leading zeros do not change the value a string of digits spells.
proof fn lemma_strip_zeros(s: Seq<u8>, first: int)
    requires
        0 <= first < s.len(),
        forall|t: int| 0 <= t < first ==> #[trigger] s[t] == 48,
    ensures
        decimal_value(s) == decimal_value(s.subrange(first, s.len() as int)),
    decreases first,
{
    if first > 0 {
        assert(s.drop_first().subrange(first - 1, s.len() - 1) =~= s.subrange(first, s.len() as int));
        assert forall|t: int| 0 <= t < first - 1 implies #[trigger] s.drop_first()[t] == 48 by {
            assert(s.drop_first()[t] == s[t + 1]);
        }
        lemma_strip_zeros(s.drop_first(), first - 1);
        assert(s[0] == 48);
        assert((s[0] - 48) * pow(10, (s.len() - 1) as nat) == 0);
    } else {
        assert(s.subrange(0, s.len() as int) =~= s);
    }
}

} // verus!
