//! Errors of the sequencer domain.

use vstd::prelude::*;

verus! {

/// What can go wrong in the sequencer.
#[derive(Debug, Clone, PartialEq, Eq, Structural)]
#[non_exhaustive]
pub enum SeqError {
    ZeroPrice,
    ZeroQuantity,
    EmptyBatch(u64),
    BatchSealed(u64),
    UnknownValidator(u64),
    Equivocation { validator: u64, batch: u64 },
    DuplicateAttestation { validator: u64, batch: u64 },
    DigestMismatch(u64),
    QuorumNotReached { batch: u64, have: u128, need: u128 },
    RateLimited,
    ChannelClosed,
}

impl SeqError {
    /// Only a rate-limit refusal is worth retrying.
    pub fn is_retryable(&self) -> (r: bool)
        ensures
            r <==> *self is RateLimited,
    {
        match self {
            SeqError::RateLimited => true,
            _ => false,
        }
    }
}

/// The character of a decimal digit.
pub open spec fn digit_char(d: nat) -> char {
    if d == 0 {
        '0'
    } else if d == 1 {
        '1'
    } else if d == 2 {
        '2'
    } else if d == 3 {
        '3'
    } else if d == 4 {
        '4'
    } else if d == 5 {
        '5'
    } else if d == 6 {
        '6'
    } else if d == 7 {
        '7'
    } else if d == 8 {
        '8'
    } else {
        '9'
    }
}

/// `n` written in decimal, without leading zeros.
pub open spec fn decimal(n: nat) -> Seq<char>
    decreases n,
{
    if n < 10 {
        seq![digit_char(n)]
    } else {
        decimal(n / 10).push(digit_char(n % 10))
    }
}

fn digit_str(d: u128) -> (r: &'static str)
    requires
        d < 10,
    ensures
        r@ == seq![digit_char(d as nat)],
{
    proof {
        reveal_strlit("0");
        reveal_strlit("1");
        reveal_strlit("2");
        reveal_strlit("3");
        reveal_strlit("4");
        reveal_strlit("5");
        reveal_strlit("6");
        reveal_strlit("7");
        reveal_strlit("8");
        reveal_strlit("9");
    }
    if d == 0 {
        "0"
    } else if d == 1 {
        "1"
    } else if d == 2 {
        "2"
    } else if d == 3 {
        "3"
    } else if d == 4 {
        "4"
    } else if d == 5 {
        "5"
    } else if d == 6 {
        "6"
    } else if d == 7 {
        "7"
    } else if d == 8 {
        "8"
    } else {
        "9"
    }
}

/// `n` in decimal.
pub fn decimal_string(n: u128) -> (r: String)
    ensures
        r@ == decimal(n as nat),
    decreases n,
{
    if n < 10 {
        String::from_str(digit_str(n))
    } else {
        let mut s = decimal_string(n / 10);
        s.append(digit_str(n % 10));
        s
    }
}

/// The text of an error.
pub open spec fn message_of(e: SeqError) -> Seq<char> {
    match e {
        SeqError::ZeroPrice => "order price must be greater than zero"@,
        SeqError::ZeroQuantity => "order quantity must be greater than zero"@,
        SeqError::EmptyBatch(b) => "batch "@ + decimal(b as nat) + " is empty; nothing to clear"@,
        SeqError::BatchSealed(b) => "batch "@ + decimal(b as nat) + " already sealed"@,
        SeqError::UnknownValidator(v) => "unknown validator: "@ + decimal(v as nat),
        SeqError::Equivocation { validator, batch } => "validator "@ + decimal(validator as nat)
            + " equivocated on batch "@ + decimal(batch as nat) + ": two distinct digests"@,
        SeqError::DuplicateAttestation { validator, batch } => "duplicate attestation from validator "@
            + decimal(validator as nat) + " for batch "@ + decimal(batch as nat),
        SeqError::DigestMismatch(b) => "digest mismatch for batch "@ + decimal(b as nat)
            + ": attestation does not match proposed batch"@,
        SeqError::QuorumNotReached { batch, have, need } => "quorum not reached for batch "@
            + decimal(batch as nat) + ": have "@ + decimal(have as nat) + ", need "@ + decimal(
            need as nat,
        ),
        SeqError::RateLimited => "rate limit exceeded"@,
        SeqError::ChannelClosed => "sequencer channel closed"@,
    }
}

impl SeqError {
    /// The human-readable text of the error.
    pub fn message(&self) -> (r: String)
        ensures
            r@ == message_of(*self),
    {
        match self {
            SeqError::ZeroPrice => String::from_str("order price must be greater than zero"),
            SeqError::ZeroQuantity => String::from_str("order quantity must be greater than zero"),
            SeqError::EmptyBatch(b) => {
                let mut s = String::from_str("batch ");
                s.append(decimal_string(*b as u128).as_str());
                s.append(" is empty; nothing to clear");
                s
            },
            SeqError::BatchSealed(b) => {
                let mut s = String::from_str("batch ");
                s.append(decimal_string(*b as u128).as_str());
                s.append(" already sealed");
                s
            },
            SeqError::UnknownValidator(v) => {
                let mut s = String::from_str("unknown validator: ");
                s.append(decimal_string(*v as u128).as_str());
                s
            },
            SeqError::Equivocation { validator, batch } => {
                let mut s = String::from_str("validator ");
                s.append(decimal_string(*validator as u128).as_str());
                s.append(" equivocated on batch ");
                s.append(decimal_string(*batch as u128).as_str());
                s.append(": two distinct digests");
                s
            },
            SeqError::DuplicateAttestation { validator, batch } => {
                let mut s = String::from_str("duplicate attestation from validator ");
                s.append(decimal_string(*validator as u128).as_str());
                s.append(" for batch ");
                s.append(decimal_string(*batch as u128).as_str());
                s
            },
            SeqError::DigestMismatch(b) => {
                let mut s = String::from_str("digest mismatch for batch ");
                s.append(decimal_string(*b as u128).as_str());
                s.append(": attestation does not match proposed batch");
                s
            },
            SeqError::QuorumNotReached { batch, have, need } => {
                let mut s = String::from_str("quorum not reached for batch ");
                s.append(decimal_string(*batch as u128).as_str());
                s.append(": have ");
                s.append(decimal_string(*have).as_str());
                s.append(", need ");
                s.append(decimal_string(*need).as_str());
                s
            },
            SeqError::RateLimited => String::from_str("rate limit exceeded"),
            SeqError::ChannelClosed => String::from_str("sequencer channel closed"),
        }
    }
}

} // verus!
