use weakseq::{BatchId, Digest, QuorumCertificate, ValidatorId, ValidatorSet, ValidatorStake};

#[test]
fn quorum_threshold_two_thirds() {
    let set = ValidatorSet::uniform(4); // total 4 -> threshold 4*2/3+1 = 3
    assert_eq!(set.quorum_threshold(), 3);
    assert_eq!(set.total_stake(), 4);
    assert_eq!(set.len(), 4);
}

#[test]
fn qc_verifies_with_quorum() {
    let set = ValidatorSet::uniform(4);
    let qc = QuorumCertificate {
        batch_id: BatchId(1),
        digest: Digest::repeat_byte(9),
        attestors: vec![ValidatorId(0), ValidatorId(1), ValidatorId(2)],
        weight: 3,
    };
    assert!(qc.verify(&set));
}

#[test]
fn qc_rejects_below_quorum() {
    let set = ValidatorSet::uniform(4);
    let qc = QuorumCertificate {
        batch_id: BatchId(1),
        digest: Digest::repeat_byte(9),
        attestors: vec![ValidatorId(0), ValidatorId(1)],
        weight: 2,
    };
    assert!(!qc.verify(&set));
}

#[test]
fn qc_rejects_unknown_validator() {
    let set = ValidatorSet::uniform(3);
    let qc = QuorumCertificate {
        batch_id: BatchId(1),
        digest: Digest::zero(),
        attestors: vec![ValidatorId(0), ValidatorId(1), ValidatorId(99)],
        weight: 3,
    };
    assert!(!qc.verify(&set));
}

#[test]
fn qc_rejects_duplicate_attestor() {
    let set = ValidatorSet::uniform(4);
    let qc = QuorumCertificate {
        batch_id: BatchId(1),
        digest: Digest::zero(),
        attestors: vec![ValidatorId(0), ValidatorId(0), ValidatorId(1)],
        weight: 3,
    };
    assert!(!qc.verify(&set));
}

#[test]
fn weighted_stake() {
    let set = ValidatorSet::new(vec![
        (ValidatorId(0), ValidatorStake(10)),
        (ValidatorId(1), ValidatorStake(5)),
        (ValidatorId(2), ValidatorStake(1)),
    ]);
    assert_eq!(set.total_stake(), 16);
    assert_eq!(set.quorum_threshold(), 16 * 2 / 3 + 1); // 11
    assert!(set.contains(ValidatorId(0)));
    assert_eq!(set.stake_of(ValidatorId(1)), Some(ValidatorStake(5)));
}

#[test]
fn zero_stake_validators_are_left_out() {
    let set = ValidatorSet::new(vec![
        (ValidatorId(0), ValidatorStake(0)),
        (ValidatorId(1), ValidatorStake(7)),
    ]);
    assert_eq!(set.len(), 1);
    assert!(!set.contains(ValidatorId(0)));
    assert_eq!(set.stake_of(ValidatorId(0)), None);
    assert_eq!(set.ids(), vec![ValidatorId(1)]);
    assert!(!set.is_empty());
    assert!(ValidatorSet::new(vec![]).is_empty());
}

#[test]
fn first_entry_of_a_repeated_id_counts() {
    let set = ValidatorSet::new(vec![
        (ValidatorId(3), ValidatorStake(2)),
        (ValidatorId(3), ValidatorStake(9)),
    ]);
    assert_eq!(set.stake_of(ValidatorId(3)), Some(ValidatorStake(2)));
    assert_eq!(set.total_stake(), 11);
}

#[test]
fn qc_rejects_wrong_weight() {
    let set = ValidatorSet::uniform(4);
    let qc = QuorumCertificate {
        batch_id: BatchId(1),
        digest: Digest::zero(),
        attestors: vec![ValidatorId(0), ValidatorId(1), ValidatorId(2)],
        weight: 4,
    };
    assert!(!qc.verify(&set));
}

#[test]
fn quorums_of_one_set_overlap() {
    // Two certificates that both verify share an attestor.
    let set = ValidatorSet::uniform(4);
    let a = vec![ValidatorId(0), ValidatorId(1), ValidatorId(2)];
    let b = vec![ValidatorId(1), ValidatorId(2), ValidatorId(3)];
    let qa = QuorumCertificate { batch_id: BatchId(1), digest: Digest::zero(), attestors: a.clone(), weight: 3 };
    let qb = QuorumCertificate { batch_id: BatchId(1), digest: Digest::repeat_byte(1), attestors: b.clone(), weight: 3 };
    assert!(qa.verify(&set) && qb.verify(&set));
    assert!(a.iter().any(|v| b.contains(v)));
}

#[test]
fn refused_certificate_needs_no_threshold() {
    // The total stake is too large to double, but a certificate with a stranger
    // or a wrong weight is refused before the threshold is computed.
    let set = ValidatorSet::new(vec![(ValidatorId(0), ValidatorStake(u128::MAX))]);
    let stranger = QuorumCertificate {
        batch_id: BatchId(1),
        digest: Digest::zero(),
        attestors: vec![ValidatorId(7)],
        weight: 1,
    };
    assert!(!stranger.verify(&set));
    let wrong_weight = QuorumCertificate {
        batch_id: BatchId(1),
        digest: Digest::zero(),
        attestors: vec![ValidatorId(0)],
        weight: 1,
    };
    assert!(!wrong_weight.verify(&set));
}

#[test]
fn lookups_use_the_first_kept_pair() {
    let set = ValidatorSet::new(vec![
        (ValidatorId(1), ValidatorStake(0)),
        (ValidatorId(0), ValidatorStake(5)),
        (ValidatorId(0), ValidatorStake(7)),
    ]);
    assert_eq!(set.len(), 2);
    assert_eq!(set.stake_of(ValidatorId(0)), Some(ValidatorStake(5)));
    assert!(set.contains(ValidatorId(0)));
    assert_eq!(set.stake_of(ValidatorId(1)), None);
    assert!(!set.contains(ValidatorId(1)));
    assert_eq!(set.total_stake(), 12);
}
