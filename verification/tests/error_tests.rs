use weakseq::SeqError;

#[test]
fn retryable_flag() {
    assert!(SeqError::RateLimited.is_retryable());
    assert!(!SeqError::ZeroPrice.is_retryable());
}

#[test]
fn renders_message() {
    assert!(SeqError::EmptyBatch(3).message().contains("empty"));
}

#[test]
fn messages_carry_numbers() {
    assert_eq!(SeqError::EmptyBatch(3).message(), "batch 3 is empty; nothing to clear");
    assert_eq!(SeqError::UnknownValidator(99).message(), "unknown validator: 99");
    assert_eq!(
        SeqError::Equivocation { validator: 0, batch: 17 }.message(),
        "validator 0 equivocated on batch 17: two distinct digests"
    );
    assert_eq!(
        SeqError::QuorumNotReached { batch: 2, have: 0, need: 340282366920938463463374607431768211455 }
            .message(),
        "quorum not reached for batch 2: have 0, need 340282366920938463463374607431768211455"
    );
    assert_eq!(SeqError::RateLimited.message(), "rate limit exceeded");
    assert!(!SeqError::ChannelClosed.is_retryable());
}
