//! What a graphics device can do, and how its buffers grow.

use vstd::arithmetic::power2::{lemma_pow2_strictly_increases, lemma_pow2_unfold, pow2};
use vstd::prelude::*;

verus! {

/// The limits and features of a device that the document depends on.
#[derive(Clone, Copy, Debug, PartialEq, Eq, Structural)]
pub struct DeviceLimits {
    pub max_texture_dimension_2d: u32,
    pub max_buffer_size: u64,
    pub float32_blendable: bool,
}

/// Whether `power` is the smallest power of two that is not below `value`.
pub open spec fn is_power_above(value: int, power: int) -> bool {
    exists|k: nat|
        power == #[trigger] pow2(k) && value <= power && (k == 0 || pow2((k - 1) as nat) < value)
}

/// The smallest power of two that is not below `value`, where 64 bits hold it.
pub fn power_of_two_above(value: u64) -> (power: Option<u64>)
    ensures
        match power {
            Some(power) => is_power_above(value as int, power as int),
            None => value > 0x8000_0000_0000_0000,
        },
{
    let mut power: u64 = 1;
    let ghost mut k: nat = 0;
    proof {
        vstd::arithmetic::power2::lemma2_to64();
    }
    while power < value
        invariant
            power >= 1,
            power == pow2(k),
            k <= 63,
            k == 0 || pow2((k - 1) as nat) < value,
        decreases 64 - k,
    {
        if power > u64::MAX / 2 {
            proof {
                vstd::arithmetic::power2::lemma2_to64();
                vstd::arithmetic::power2::lemma2_to64_rest();
                if k < 63 {
                    lemma_pow2_strictly_increases(k, 63);
                }
            }
            return None;
        }
        proof {
            lemma_pow2_unfold(k + 1);
            vstd::arithmetic::power2::lemma2_to64_rest();
            if k == 63 {
                assert(pow2(63) == 0x8000_0000_0000_0000);
            }
            k = k + 1;
        }
        power = power * 2;
    }
    Some(power)
}

#[derive(Clone, Copy, Debug, PartialEq, Eq, Structural)]
pub enum BufferGrowthError {
    Overflow,
    TooLarge { requested: u64, maximum: u64 },
}

/// Whether a buffer that has to hold `required` bytes ends up with `grown` bytes.
pub open spec fn grows_to(capacity: u64, required: u64, maximum: u64, grown: u64) -> bool {
    if required <= capacity {
        grown == capacity
    } else {
        is_power_above(required as int, grown as int) && grown <= maximum
    }
}

/// Whether a buffer cannot hold `required` bytes.
pub open spec fn growth_fails(
    capacity: u64,
    required: u64,
    maximum: u64,
    error: BufferGrowthError,
) -> bool {
    &&& required > capacity
    &&& match error {
        BufferGrowthError::Overflow => required > 0x8000_0000_0000_0000,
        BufferGrowthError::TooLarge { requested, maximum: limit } => {
            &&& is_power_above(required as int, requested as int)
            &&& limit == maximum
            &&& requested > maximum
        },
    }
}

/// How large a buffer has to be. It grows to powers of two and never shrinks.
pub fn grown_capacity(capacity: u64, required: u64, maximum: u64) -> (grown: Result<
    u64,
    BufferGrowthError,
>)
    ensures
        match grown {
            Ok(grown) => grows_to(capacity, required, maximum, grown),
            Err(error) => growth_fails(capacity, required, maximum, error),
        },
{
    if required <= capacity {
        return Ok(capacity);
    }
    match power_of_two_above(required) {
        Some(grown) => {
            if grown > maximum {
                Err(BufferGrowthError::TooLarge { requested: grown, maximum })
            } else {
                Ok(grown)
            }
        },
        None => Err(BufferGrowthError::Overflow),
    }
}

} // verus!
