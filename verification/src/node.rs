//! Node configuration and the wiring of a sequencer from it.

use vstd::prelude::*;

use crate::consensus::{uniform_entries, ValidatorSet};
use crate::order::Order;
use crate::sequencer::{ConfirmedView, Sequencer, SequencerConfig};
use crate::engine::TallyView;

verus! {

/// Node configuration.
#[derive(Clone, Debug)]
pub struct NodeConfig {
    pub listen_addr: String,
    pub validators: u64,
    pub batch_interval_ms: u64,
    pub max_orders_per_sec: u32,
}

impl Default for NodeConfig {
    fn default() -> (r: NodeConfig)
        ensures
            r.listen_addr@ == "0.0.0.0:8081"@,
            r.validators == 4,
            r.batch_interval_ms == 250,
            r.max_orders_per_sec == 50_000,
    {
        NodeConfig {
            listen_addr: String::from_str("0.0.0.0:8081"),
            validators: 4,
            batch_interval_ms: 250,
            max_orders_per_sec: 50_000,
        }
    }
}

/// Builds the sequencer of a node: `config.validators` validators (at least
/// one) of unit stake, all of them attesting.
pub fn build_sequencer(config: &NodeConfig) -> (r: Sequencer)
    ensures
        r@.engine.entries == uniform_entries(
            if config.validators >= 1 {
                config.validators as nat
            } else {
                1
            },
        ),
        r@.honest == if config.validators >= 1 {
            config.validators
        } else {
            1
        },
        r@.mempool == Seq::<Order>::empty(),
        r@.confirmed == Seq::<ConfirmedView>::empty(),
        r@.engine.tallies == Map::<u64, TallyView>::empty(),
        r@.next_order_id == 0,
        r@.next_batch_id == 0,
        r@.rate == if config.max_orders_per_sec >= 1 {
            config.max_orders_per_sec
        } else {
            1
        },
{
    let n = if config.validators >= 1 {
        config.validators
    } else {
        1
    };
    let validators = ValidatorSet::uniform(n);
    Sequencer::new(
        validators,
        SequencerConfig { max_orders_per_sec: config.max_orders_per_sec, honest_validators: u64::MAX },
    )
}

} // verus!
