use weakseq::{build_sequencer, BatchId, NodeConfig, SeqError, Sequencer, SequencerConfig, Side, ValidatorSet};

fn seq() -> Sequencer {
    Sequencer::new(ValidatorSet::uniform(4), SequencerConfig::default())
}

#[test]
fn submit_and_seal_crossing_batch() {
    let mut s = seq();
    s.submit_order(Side::Buy, 100, 5).unwrap();
    s.submit_order(Side::Sell, 90, 5).unwrap();
    assert_eq!(s.mempool_depth(), 2);

    let confirmed = s.seal_and_clear().unwrap().expect("batch");
    assert_eq!(confirmed.result.matched_quantity.lots(), 5);
    assert!(confirmed.certificate.verify(s.validators()));
    assert_eq!(s.mempool_depth(), 0);
    assert_eq!(s.confirmed_count(), 1);
}

#[test]
fn seal_empty_is_none() {
    let mut s = seq();
    assert!(s.seal_and_clear().unwrap().is_none());
}

#[test]
fn no_cross_still_finalizes_no_trade() {
    let mut s = seq();
    s.submit_order(Side::Buy, 90, 5).unwrap();
    s.submit_order(Side::Sell, 100, 5).unwrap();
    let c = s.seal_and_clear().unwrap().unwrap();
    assert!(c.result.is_no_trade());
    assert!(c.certificate.verify(s.validators()));
}

#[test]
fn rate_limit_enforced() {
    let mut s = Sequencer::new(
        ValidatorSet::uniform(4),
        SequencerConfig { max_orders_per_sec: 1, honest_validators: u64::MAX },
    );
    s.submit_order(Side::Buy, 100, 1).unwrap();
    assert_eq!(s.submit_order(Side::Buy, 100, 1), Err(SeqError::RateLimited));
}

#[test]
fn rejects_zero_price() {
    let mut s = seq();
    assert_eq!(s.submit_order(Side::Buy, 0, 5), Err(SeqError::ZeroPrice));
}

#[test]
fn query_batch_by_id() {
    let mut s = seq();
    s.submit_order(Side::Buy, 100, 5).unwrap();
    s.submit_order(Side::Sell, 95, 5).unwrap();
    s.seal_and_clear().unwrap();
    assert!(s.batch(0).is_some());
    assert!(s.batch(999).is_none());
    assert_eq!(s.validator_count(), 4);
    assert_eq!(s.quorum_threshold(), 3);
}

#[test]
fn multiple_batches_accumulate() {
    let mut s = seq();
    for round in 0..3 {
        s.submit_order(Side::Buy, 100 + round, 2).unwrap();
        s.submit_order(Side::Sell, 90, 2).unwrap();
        s.seal_and_clear().unwrap();
    }
    assert_eq!(s.confirmed_count(), 3);
    assert_eq!(s.latest_batch().unwrap().result.batch_id, BatchId(2));
}

#[test]
fn sequencer_builds() {
    let s = build_sequencer(&NodeConfig::default());
    assert_eq!(s.validator_count(), 4);
}

#[test]
fn too_few_attesting_validators_never_confirm() {
    let mut s = Sequencer::new(
        ValidatorSet::uniform(4),
        SequencerConfig { max_orders_per_sec: 1000, honest_validators: 2 },
    );
    s.submit_order(Side::Buy, 100, 5).unwrap();
    assert_eq!(
        s.seal_and_clear().err(),
        Some(SeqError::QuorumNotReached { batch: 0, have: 2, need: 3 })
    );
    // The mempool was drained and the batch id used up all the same.
    assert_eq!(s.mempool_depth(), 0);
    assert_eq!(s.confirmed_count(), 0);
    s.submit_order(Side::Buy, 100, 5).unwrap();
    assert_eq!(
        s.seal_and_clear().err(),
        Some(SeqError::QuorumNotReached { batch: 1, have: 2, need: 3 })
    );
}

#[test]
fn refused_orders_use_up_ids() {
    let mut s = seq();
    assert_eq!(s.submit_if_admitted(true, Side::Buy, 100, 0), Err(SeqError::ZeroQuantity));
    assert_eq!(s.submit_if_admitted(true, Side::Buy, 100, 1).unwrap().0, 1);
    assert_eq!(s.mempool_depth(), 1);
}

#[test]
fn latest_batch_is_what_seal_returned() {
    let mut s = seq();
    assert!(s.latest_batch().is_none());
    s.submit_order(Side::Buy, 100, 5).unwrap();
    s.submit_order(Side::Sell, 90, 3).unwrap();
    let c = s.seal_and_clear().unwrap().unwrap();
    let latest = s.latest_batch().unwrap();
    assert_eq!(latest.result, c.result);
    assert_eq!(latest.certificate, c.certificate);
    assert_eq!(s.batch(0).unwrap().result, c.result);
    assert!(s.mempool_fits());
}

#[test]
fn node_defaults() {
    let c = NodeConfig::default();
    assert_eq!(c.listen_addr, "0.0.0.0:8081");
    assert_eq!(c.validators, 4);
    assert_eq!(c.batch_interval_ms, 250);
    assert_eq!(c.max_orders_per_sec, 50_000);
    let zero = NodeConfig { validators: 0, ..NodeConfig::default() };
    assert_eq!(build_sequencer(&zero).validator_count(), 1);
}

#[test]
fn rate_limited_submission_changes_nothing() {
    let mut s = seq();
    s.submit_order(Side::Buy, 100, 5).unwrap();
    assert_eq!(s.submit_if_admitted(false, Side::Sell, 90, 5), Err(SeqError::RateLimited));
    assert_eq!(s.mempool_depth(), 1);
    // The refused submission used up no id.
    assert_eq!(s.submit_if_admitted(true, Side::Sell, 90, 5).unwrap().0, 1);
}

#[test]
fn node_sequencer_confirms_each_batch() {
    let config = NodeConfig { validators: 7, ..NodeConfig::default() };
    let mut s = build_sequencer(&config);
    for round in 0..3u64 {
        s.submit_order(Side::Sell, 50 + round, 1).unwrap();
        let c = s.seal_and_clear().unwrap().expect("confirmed");
        assert_eq!(c.result.batch_id, BatchId(round));
        // 7 validators: threshold 7*2/3+1 = 5, reached by the first five.
        assert_eq!(c.certificate.weight, 5);
        assert!(c.certificate.verify(s.validators()));
    }
    assert_eq!(s.confirmed_count(), 3);
}

#[test]
fn configured_rate_is_kept() {
    let s = Sequencer::new(
        ValidatorSet::uniform(4),
        SequencerConfig { max_orders_per_sec: 0, honest_validators: u64::MAX },
    );
    assert_eq!(s.max_orders_per_sec(), 1);
    let mut t = seq();
    assert_eq!(t.max_orders_per_sec(), 50_000);
    t.submit_order(Side::Buy, 100, 5).unwrap();
    assert_eq!(t.max_orders_per_sec(), 50_000);
    let n = build_sequencer(&NodeConfig { max_orders_per_sec: 7, ..NodeConfig::default() });
    assert_eq!(n.max_orders_per_sec(), 7);
}

#[test]
fn ids_increase_and_batches_are_found_by_id() {
    let mut s = seq();
    let mut last = None;
    for round in 0..3u64 {
        let a = s.submit_order(Side::Buy, 100, 2).unwrap().0;
        let b = s.submit_order(Side::Sell, 90 + round, 2).unwrap().0;
        assert!(a < b);
        if let Some(l) = last {
            assert!(l < a);
        }
        last = Some(b);
        let c = s.seal_and_clear().unwrap().unwrap();
        assert_eq!(c.result.batch_id, BatchId(round));
    }
    for k in 0..3u64 {
        assert_eq!(s.batch(k).unwrap().result.batch_id, BatchId(k));
    }
    assert!(s.batch(3).is_none());
}
