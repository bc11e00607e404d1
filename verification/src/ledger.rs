use vstd::prelude::*;
use crate::error::BridgeError;

verus! {

/// The storage footprint of the whole instance as measured around one mutation,
/// with the price of one byte of footprint.
#[derive(Clone, Copy, Debug, PartialEq, Eq, Structural)]
pub struct Measurement {
    /// Footprint in bytes before the mutation.
    pub old_used: u64,
    /// Footprint in bytes after the mutation.
    pub new_used: u64,
    /// Price of one byte.
    pub byte_cost: u128,
}

/// Bytes by which the footprint grew; zero when it did not grow.
pub open spec fn grown(m: Measurement) -> nat {
    if m.new_used > m.old_used { (m.new_used - m.old_used) as nat } else { 0 }
}

/// Bytes by which the footprint shrank; zero when it did not shrink.
pub open spec fn freed(m: Measurement) -> nat {
    if m.old_used > m.new_used { (m.old_used - m.new_used) as nat } else { 0 }
}

/// Price of `bytes` bytes of footprint.
pub open spec fn cost(bytes: nat, byte_cost: u128) -> nat {
    bytes * (byte_cost as nat)
}

/// What a mutation that may only grow the footprint owes the caller: the payment
/// less the price of the growth, or the reason for rejecting it.
pub open spec fn growth_outcome(payment: u128, m: Measurement) -> Result<u128, BridgeError> {
    if m.new_used < m.old_used {
        Err(BridgeError::InvariantViolation)
    } else if cost(grown(m), m.byte_cost) > payment {
        Err(BridgeError::InsufficientPayment)
    } else {
        Ok((payment - cost(grown(m), m.byte_cost)) as u128)
    }
}

/// What a mutation that may only shrink the footprint owes the caller: the
/// payment plus the price of the freed bytes, or the reason for rejecting it.
pub open spec fn release_outcome(payment: u128, m: Measurement) -> Result<u128, BridgeError> {
    if m.new_used > m.old_used {
        Err(BridgeError::InvariantViolation)
    } else if payment + cost(freed(m), m.byte_cost) > u128::MAX {
        Err(BridgeError::AmountOverflow)
    } else {
        Ok((payment + cost(freed(m), m.byte_cost)) as u128)
    }
}

/// Settles a mutation that may only grow the footprint.
pub fn settle_growth(payment: u128, m: Measurement) -> (outcome: Result<u128, BridgeError>)
    ensures
        outcome == growth_outcome(payment, m),
{
    if m.new_used < m.old_used {
        return Err(BridgeError::InvariantViolation);
    }
    let delta: u64 = m.new_used - m.old_used;
    match (delta as u128).checked_mul(m.byte_cost) {
        Some(price) => {
            if price > payment {
                Err(BridgeError::InsufficientPayment)
            } else {
                Ok(payment - price)
            }
        },
        None => Err(BridgeError::InsufficientPayment),
    }
}

/// Settles a mutation that may only shrink the footprint.
pub fn settle_release(payment: u128, m: Measurement) -> (outcome: Result<u128, BridgeError>)
    ensures
        outcome == release_outcome(payment, m),
{
    if m.new_used > m.old_used {
        return Err(BridgeError::InvariantViolation);
    }
    let delta: u64 = m.old_used - m.new_used;
    match (delta as u128).checked_mul(m.byte_cost) {
        Some(price) => {
            match payment.checked_add(price) {
                Some(refund) => Ok(refund),
                None => Err(BridgeError::AmountOverflow),
            }
        },
        None => Err(BridgeError::AmountOverflow),
    }
}

/// Nothing is created or lost when growth is settled: where the footprint
/// grew by `bytes` and the payment covers their price, the refund is the
/// payment less that price; where it does not, the settlement is rejected.
pub proof fn lemma_growth_conserves(payment: u128, m: Measurement, bytes: nat)
    requires
        m.new_used - m.old_used == bytes,
    ensures
        payment >= bytes * m.byte_cost ==> growth_outcome(payment, m) == Ok::<u128, BridgeError>(
            (payment - bytes * m.byte_cost) as u128,
        ),
        payment < bytes * m.byte_cost ==> growth_outcome(payment, m) == Err::<u128, BridgeError>(
            BridgeError::InsufficientPayment,
        ),
{
}

/// Freed storage is refunded exactly: when the footprint shrinks by `bytes`,
/// the refund is the payment plus the price of `bytes`.
pub proof fn lemma_release_refunds_freed(payment: u128, m: Measurement, bytes: nat)
    requires
        m.old_used - m.new_used == bytes,
        payment + cost(bytes, m.byte_cost) <= u128::MAX,
    ensures
        release_outcome(payment, m) == Ok::<u128, BridgeError>(
            (payment + bytes * m.byte_cost) as u128,
        ),
{
}

} // verus!
