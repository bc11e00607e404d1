use vstd::prelude::*;

verus! {

/// Why an operation was rejected. A rejected operation leaves the instance as it was.
#[derive(Clone, Copy, Debug, PartialEq, Eq, Structural)]
pub enum BridgeError {
    /// The caller is not the identity the instance was built for.
    InvalidSigner,
    /// The instance has been booted before.
    AlreadyBooted,
    /// No file is stored under the given name.
    UnknownFile,
    /// The payment does not cover the cost of the added storage.
    InsufficientPayment,
    /// A write starts beyond the end of the file.
    OffsetOutOfRange,
    /// A chunk index is beyond the capacity of the presence bitmap.
    IndexOutOfRange,
    /// The measured footprint moved against the direction the mutation allows.
    InvariantViolation,
    /// The refund does not fit in 128 bits.
    AmountOverflow,
}

impl BridgeError {
    /// The message shown to a caller for this error.
    pub fn message(&self) -> (text: &'static str)
        ensures
            text@ == Self::message_of(*self),
    {
        match self {
            BridgeError::InvalidSigner => "invalidSigner",
            BridgeError::AlreadyBooted => "NoDonut",
            BridgeError::UnknownFile => "unknown file",
            BridgeError::InsufficientPayment => "DepositUnderflowForRegistration",
            BridgeError::OffsetOutOfRange => "offset out of range",
            BridgeError::IndexOutOfRange => "index out of range",
            BridgeError::InvariantViolation => "WhatTheHell",
            BridgeError::AmountOverflow => "refund overflow",
        }
    }

    /// The text of each error.
    pub open spec fn message_of(e: BridgeError) -> Seq<char> {
        match e {
            BridgeError::InvalidSigner => "invalidSigner"@,
            BridgeError::AlreadyBooted => "NoDonut"@,
            BridgeError::UnknownFile => "unknown file"@,
            BridgeError::InsufficientPayment => "DepositUnderflowForRegistration"@,
            BridgeError::OffsetOutOfRange => "offset out of range"@,
            BridgeError::IndexOutOfRange => "index out of range"@,
            BridgeError::InvariantViolation => "WhatTheHell"@,
            BridgeError::AmountOverflow => "refund overflow"@,
        }
    }
}

} // verus!
