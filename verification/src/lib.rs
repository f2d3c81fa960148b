//! A block-less batch-auction sequencer confirmed by weak consensus.
//!
//! Orders stream into a mempool and are cleared in batches (auction rounds).
//! Every order in a batch clears at one uniform price, so being early in the
//! batch confers no advantage and reordering a batch changes nothing. Each batch
//! is confirmed on its own by a validator quorum in a single round of
//! attestations; there is no total order across batches.

pub mod auction;
pub mod batch;
pub mod consensus;
pub mod digest;
pub mod engine;
pub mod error;
pub mod limiter;
pub mod node;
pub mod order;
pub mod ranking;
pub mod sequencer;
pub mod sums;

pub use auction::{AuctionEngine, UniformPriceAuction};
pub use batch::{Batch, BatchId, ClearingResult, Fill};
pub use consensus::{Attestation, QuorumCertificate, ValidatorId, ValidatorSet, ValidatorStake};
pub use digest::Digest;
pub use engine::{AttestOutcome, ConsensusEngine};
pub use error::SeqError;
pub use node::{build_sequencer, NodeConfig};
pub use order::{Order, OrderId, Price, Quantity, Side};
pub use sequencer::{ConfirmedBatch, Sequencer, SequencerConfig};
