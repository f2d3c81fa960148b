use weakseq::{
    AttestOutcome, Attestation, BatchId, ConsensusEngine, Digest, SeqError, ValidatorId,
    ValidatorSet, ValidatorStake,
};

fn digest(n: u8) -> Digest {
    Digest::repeat_byte(n)
}

fn engine(n: u64) -> ConsensusEngine {
    ConsensusEngine::new(ValidatorSet::uniform(n))
}

fn att(v: u64, batch: u64, d: Digest) -> Attestation {
    Attestation::new(ValidatorId(v), BatchId(batch), d)
}

#[test]
fn finalizes_at_quorum() {
    let mut e = engine(4); // threshold 3
    assert!(matches!(
        e.accept(att(0, 1, digest(1))).unwrap(),
        AttestOutcome::Accumulated { .. }
    ));
    assert!(matches!(
        e.accept(att(1, 1, digest(1))).unwrap(),
        AttestOutcome::Accumulated { .. }
    ));
    let out = e.accept(att(2, 1, digest(1))).unwrap();
    match out {
        AttestOutcome::Finalized(qc) => {
            assert_eq!(qc.weight, 3);
            assert!(qc.verify(e.validators()));
        }
        other => panic!("expected finalized, got {other:?}"),
    }
}

#[test]
fn rejects_unknown_validator() {
    let mut e = engine(3);
    assert_eq!(e.accept(att(99, 1, digest(1))), Err(SeqError::UnknownValidator(99)));
}

#[test]
fn rejects_equivocation() {
    let mut e = engine(4);
    e.accept(att(0, 1, digest(1))).unwrap();
    assert_eq!(
        e.accept(att(0, 1, digest(2))),
        Err(SeqError::Equivocation { validator: 0, batch: 1 })
    );
}

#[test]
fn rejects_duplicate() {
    let mut e = engine(4);
    e.accept(att(0, 1, digest(1))).unwrap();
    assert_eq!(
        e.accept(att(0, 1, digest(1))),
        Err(SeqError::DuplicateAttestation { validator: 0, batch: 1 })
    );
}

#[test]
fn after_finalize_returns_existing_cert() {
    let mut e = engine(3); // threshold 3 -> need all
    e.accept(att(0, 1, digest(1))).unwrap();
    e.accept(att(1, 1, digest(1))).unwrap();
    let _ = e.accept(att(2, 1, digest(1))).unwrap();
    let out = e.accept(att(2, 1, digest(1))).unwrap();
    assert!(matches!(out, AttestOutcome::AlreadyFinalized(_)));
    assert!(e.certificate(BatchId(1)).is_some());
}

#[test]
fn split_vote_never_finalizes() {
    let mut e = engine(4); // threshold 3
    e.accept(att(0, 5, digest(1))).unwrap();
    e.accept(att(1, 5, digest(1))).unwrap();
    e.accept(att(2, 5, digest(2))).unwrap();
    let out = e.accept(att(3, 5, digest(2))).unwrap();
    assert!(matches!(out, AttestOutcome::Accumulated { .. }));
    assert!(e.certificate(BatchId(5)).is_none());
}

#[test]
fn accumulated_reports_weight_and_need() {
    let mut e = engine(4);
    assert_eq!(
        e.accept(att(3, 8, digest(4))),
        Ok(AttestOutcome::Accumulated { batch: BatchId(8), weight: 1, needed: 3 })
    );
    // A vote for another digest does not add to this digest's weight.
    assert_eq!(
        e.accept(att(1, 8, digest(5))),
        Ok(AttestOutcome::Accumulated { batch: BatchId(8), weight: 1, needed: 3 })
    );
}

#[test]
fn certificate_attestors_sorted_and_batches_independent() {
    let mut e = engine(4);
    e.accept(att(3, 2, digest(7))).unwrap();
    e.accept(att(1, 2, digest(7))).unwrap();
    // Another batch is tallied on its own.
    e.accept(att(0, 9, digest(7))).unwrap();
    let out = e.accept(att(2, 2, digest(7))).unwrap();
    match out {
        AttestOutcome::Finalized(qc) => {
            assert_eq!(qc.attestors, vec![ValidatorId(1), ValidatorId(2), ValidatorId(3)]);
            assert_eq!(qc.batch_id, BatchId(2));
            assert_eq!(qc.digest, digest(7));
        }
        other => panic!("expected finalized, got {other:?}"),
    }
    assert!(e.certificate(BatchId(9)).is_none());
    // The existing certificate answers a late attestation, even a conflicting one.
    match e.accept(att(0, 2, digest(8))).unwrap() {
        AttestOutcome::AlreadyFinalized(qc) => assert_eq!(qc.digest, digest(7)),
        other => panic!("expected already finalized, got {other:?}"),
    }
}

#[test]
fn stranger_refused_before_threshold() {
    // The total stake is too large to double; a stranger is refused before the
    // threshold is ever computed.
    let mut e = ConsensusEngine::new(ValidatorSet::new(vec![(ValidatorId(0), ValidatorStake(u128::MAX))]));
    assert_eq!(e.accept(att(5, 1, digest(1))), Err(SeqError::UnknownValidator(5)));
    assert!(e.certificate(BatchId(1)).is_none());
}
