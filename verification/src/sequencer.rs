//! The sequencer: a block-less batch engine with a read model of confirmed
//! batches.
//!
//! * Command side: `submit_order` appends to the mempool.
//! * Sealing: `seal_and_clear` drains the mempool into a batch, clears it at a
//!   uniform price, gathers validator attestations and finalizes the batch with
//!   a quorum certificate.
//! * Query side: the confirmed batches.

use vstd::prelude::*;

use crate::auction::{clears_to, volumes_fit, AuctionEngine, UniformPriceAuction};
use crate::batch::{digest_of, Batch, BatchId, ClearingResult, ResultView};
use crate::consensus::{
    all_members, attested_weight, certifies, distinct_ids, entry_stake, member_stake, stake_lookup,
    threshold_of, total_of, uniform_entries, Attestation, QuorumCertificate, ValidatorId,
    ValidatorSet, ValidatorStake,
};
use crate::digest::Digest;
use crate::engine::{
    accept_step, cert_view, digest_stake, digest_weight, tally_at, vote_of,
    AttestOutcome, Ballot, CertView, ConsensusEngine, EngineView, OutcomeView, TallyView,
};
use crate::error::SeqError;
use crate::limiter::RateLimit;
use crate::order::{Order, OrderId, Side};
use crate::sums::{lemma_sum_drop_first, lemma_sum_push, lemma_sum_units};

verus! {

broadcast use vstd::seq_lib::group_seq_properties, vstd::array::group_array_axioms,
    crate::order::group_order_values;

/// A batch that has been cleared and finalized by a quorum certificate.
#[derive(Debug)]
pub struct ConfirmedBatch {
    pub result: ClearingResult,
    pub certificate: QuorumCertificate,
}

/// A confirmed batch as a mathematical value.
pub struct ConfirmedView {
    pub result: ResultView,
    pub certificate: CertView,
}

pub open spec fn confirmed_view(c: ConfirmedBatch) -> ConfirmedView {
    ConfirmedView { result: c.result@, certificate: cert_view(c.certificate) }
}

impl ConfirmedBatch {
    /// A copy of the confirmed batch.
    pub fn copy(&self) -> (r: ConfirmedBatch)
        ensures
            confirmed_view(r) == confirmed_view(*self),
    {
        let mut attestors: Vec<ValidatorId> = Vec::new();
        let mut i: usize = 0;
        while i < self.certificate.attestors.len()
            invariant
                i <= self.certificate.attestors@.len(),
                attestors@ == self.certificate.attestors@.take(i as int),
            decreases self.certificate.attestors@.len() - i,
        {
            attestors.push(self.certificate.attestors[i]);
            i = i + 1;
            assert(attestors@ =~= self.certificate.attestors@.take(i as int));
        }
        assert(attestors@ =~= self.certificate.attestors@);
        ConfirmedBatch {
            result: self.result.copy(),
            certificate: QuorumCertificate {
                batch_id: self.certificate.batch_id,
                digest: self.certificate.digest,
                attestors,
                weight: self.certificate.weight,
            },
        }
    }
}

/// Sequencer configuration.
#[derive(Clone, Copy, Debug)]
pub struct SequencerConfig {
    /// Max order submissions per second (rate limit / backpressure).
    pub max_orders_per_sec: u32,
    /// Number of validators that attest each batch in this self-contained node.
    pub honest_validators: u64,
}

impl Default for SequencerConfig {
    fn default() -> (r: SequencerConfig)
        ensures
            r.max_orders_per_sec == 50_000,
            r.honest_validators == u64::MAX,
    {
        SequencerConfig { max_orders_per_sec: 50_000, honest_validators: u64::MAX }
    }
}

/// The sequencer as a mathematical value.
pub struct SequencerView {
    pub mempool: Seq<Order>,
    pub confirmed: Seq<ConfirmedView>,
    pub engine: EngineView,
    pub next_order_id: u64,
    pub next_batch_id: u64,
    pub honest: u64,
    /// Orders admitted per second.
    pub rate: u32,
}

/// The core sequencer.
pub struct Sequencer {
    mempool: Vec<Order>,
    confirmed: Vec<ConfirmedBatch>,
    consensus: ConsensusEngine,
    auction: UniformPriceAuction,
    limiter: RateLimit,
    next_order_id: u64,
    next_batch_id: u64,
    honest: u64,
}

impl View for Sequencer {
    type V = SequencerView;

    closed spec fn view(&self) -> SequencerView {
        SequencerView {
            mempool: self.mempool@,
            confirmed: self.confirmed@.map_values(|c: ConfirmedBatch| confirmed_view(c)),
            engine: self.consensus@,
            next_order_id: self.next_order_id,
            next_batch_id: self.next_batch_id,
            honest: self.honest,
            rate: self.limiter.rate(),
        }
    }
}

/// The validators that attest each batch: the first `honest` of the set.
pub open spec fn attesting(entries: Seq<(ValidatorId, ValidatorStake)>, honest: u64) -> Seq<ValidatorId> {
    Seq::new(
        if honest < entries.len() {
            honest as nat
        } else {
            entries.len()
        },
        |i: int| entries[i].0,
    )
}

/// What attesting `digest` for `batch` in turn by `voters` gives: the tallies
/// after, and the certificate of the first attestation that finalized the
/// batch (or the first refusal).
pub open spec fn gather(
    entries: Seq<(ValidatorId, ValidatorStake)>,
    tallies: Map<u64, TallyView>,
    voters: Seq<ValidatorId>,
    batch: BatchId,
    digest: Digest,
) -> (Map<u64, TallyView>, Result<Option<CertView>, SeqError>)
    decreases voters.len(),
{
    if voters.len() == 0 {
        (tallies, Ok(None))
    } else {
        let step = accept_step(
            entries,
            tallies,
            Attestation { validator: voters[0], batch_id: batch, digest },
        );
        match step.1 {
            Err(e) => (step.0, Err(e)),
            Ok(OutcomeView::Finalized(c)) => (step.0, Ok(Some(c))),
            Ok(_) => gather(entries, step.0, voters.drop_first(), batch, digest),
        }
    }
}

/// A certificate that attesting in turn produces is for the attested batch and
/// digest.
proof fn lemma_gather_certifies_what_was_attested(
    entries: Seq<(ValidatorId, ValidatorStake)>,
    tallies: Map<u64, TallyView>,
    voters: Seq<ValidatorId>,
    batch: BatchId,
    d: Digest,
)
    ensures
        gather(entries, tallies, voters, batch, d).1 matches Ok(Some(c)) ==> c.batch_id == batch && c.digest == d,
    decreases voters.len(),
{
    if voters.len() > 0 {
        let step = accept_step(entries, tallies, Attestation { validator: voters[0], batch_id: batch, digest: d });
        lemma_gather_certifies_what_was_attested(entries, step.0, voters.drop_first(), batch, d);
    }
}

/// A batch that sealing confirms carries a certificate for its own digest and
/// its own batch id: the validators attested exactly the batch that was
/// cleared.
pub proof fn lemma_sealed_certificate_matches_batch(
    before: SequencerView,
    after: SequencerView,
    r: Result<Option<ConfirmedBatch>, SeqError>,
)
    requires
        before.mempool.len() > 0,
        sealed(before, after, r),
    ensures
        r matches Ok(Some(cb)) ==> {
            &&& cb.certificate.digest == cb.result.batch_digest
            &&& cb.certificate.batch_id == cb.result.batch_id
            &&& cb.result.batch_id == BatchId(before.next_batch_id)
            &&& cb.result.batch_digest.0@ == digest_of(before.next_batch_id, before.mempool)
        },
{
    let id = before.next_batch_id;
    let d = digest_with(digest_of(id, before.mempool));
    let entries = before.engine.entries;
    lemma_gather_certifies_what_was_attested(entries, before.engine.tallies, attesting(entries, before.honest), BatchId(id), d);
    if let Ok(Some(cb)) = r {
        assert(cb.result.batch_digest.0@ == digest_of(id, before.mempool));
        assert(d.0@ == digest_of(id, before.mempool));
        assert(cb.certificate.digest.0 =~= cb.result.batch_digest.0);
    }
}

/// Confirmation once a quorum attests: distinct members of the set, none of
/// whom has voted in the batch yet, that attest one digest in turn to a batch
/// without a certificate, and whose stake together with the stake already cast
/// for that digest reaches the threshold (the votes so far falling short of it),
/// finalize the batch for that digest.
pub proof fn lemma_quorum_finalizes(
    entries: Seq<(ValidatorId, ValidatorStake)>,
    tallies: Map<u64, TallyView>,
    voters: Seq<ValidatorId>,
    batch: BatchId,
    d: Digest,
)
    requires
        tally_at(tallies, batch.0).certificate is None,
        forall|i: int, j: int|
            0 <= i < tally_at(tallies, batch.0).votes.len() && 0 <= j < voters.len() ==> (#[trigger] tally_at(
                tallies,
                batch.0,
            ).votes[i]).validator != #[trigger] voters[j],
        distinct_ids(voters),
        all_members(voters, entries),
        digest_weight(tally_at(tallies, batch.0).votes, d) < threshold_of(total_of(entries)),
        digest_weight(tally_at(tallies, batch.0).votes, d) + attested_weight(voters, entries) >= threshold_of(
            total_of(entries),
        ),
    ensures
        gather(entries, tallies, voters, batch, d).1 matches Ok(Some(c)) && c.batch_id == batch && c.digest == d,
    decreases voters.len(),
{
    let b = batch.0;
    let t = tally_at(tallies, b);
    if voters.len() == 0 {
        assert(attested_weight(voters, entries) == 0);
    } else {
        let v = voters[0];
        let rest = voters.drop_first();
        assert(stake_lookup(entries, voters[0]) is Some);
        let s = stake_lookup(entries, v).unwrap();
        assert(vote_of(t.votes, v) is None) by {
            if exists|i: int| 0 <= i < t.votes.len() && (#[trigger] t.votes[i]).validator == v {
                let i = choose|i: int| 0 <= i < t.votes.len() && (#[trigger] t.votes[i]).validator == v;
                assert(t.votes[i].validator != voters[0]);
            }
        }
        let att = Attestation { validator: v, batch_id: batch, digest: d };
        let votes = t.votes.push(Ballot { validator: v, digest: d, stake: s.0 });
        lemma_sum_push(t.votes, Ballot { validator: v, digest: d, stake: s.0 }, digest_stake(d));
        lemma_sum_drop_first(voters, member_stake(entries));
        let step = accept_step(entries, tallies, att);
        if digest_weight(votes, d) < threshold_of(total_of(entries)) {
            let next = tallies.insert(b, TallyView { votes, certificate: None });
            assert(step.0 == next);
            assert(tally_at(next, b) == TallyView { votes, certificate: None });
            assert forall|i: int, j: int| 0 <= i < votes.len() && 0 <= j < rest.len() implies (#[trigger] votes[i]).validator
                != #[trigger] rest[j] by {
                assert(rest[j] == voters[j + 1]);
                if i < t.votes.len() {
                    assert(votes[i] == t.votes[i]);
                } else {
                    assert(voters[0] != voters[j + 1]);
                }
            }
            assert forall|i: int, j: int| 0 <= i < j < rest.len() implies rest[i] != rest[j] by {
                assert(rest[i] == voters[i + 1] && rest[j] == voters[j + 1]);
            }
            assert forall|i: int| 0 <= i < rest.len() implies (#[trigger] stake_lookup(entries, rest[i])) is Some by {
                assert(rest[i] == voters[i + 1]);
            }
            lemma_quorum_finalizes(entries, next, rest, batch, d);
        }
    }
}

/// A validator listed in a set has a stake there.
proof fn lemma_listed_is_member(entries: Seq<(ValidatorId, ValidatorStake)>, i: int)
    requires
        0 <= i < entries.len(),
    ensures
        stake_lookup(entries, entries[i].0) is Some,
    decreases i,
{
    if entries[0].0 != entries[i].0 {
        assert(entries.drop_first()[i - 1] == entries[i]);
        lemma_listed_is_member(entries.drop_first(), i - 1);
    }
}

/// In a set where every stake is one, a member's stake is one.
proof fn lemma_unit_stake(entries: Seq<(ValidatorId, ValidatorStake)>, id: ValidatorId)
    requires
        forall|i: int| 0 <= i < entries.len() ==> (#[trigger] entries[i]).1 == ValidatorStake(1),
    ensures
        stake_lookup(entries, id) is Some ==> stake_lookup(entries, id) == Some(ValidatorStake(1)),
    decreases entries.len(),
{
    if entries.len() > 0 && entries[0].0 != id {
        assert forall|i: int| 0 <= i < entries.drop_first().len() implies (#[trigger] entries.drop_first()[i]).1
            == ValidatorStake(1) by {
            assert(entries.drop_first()[i] == entries[i + 1]);
        }
        lemma_unit_stake(entries.drop_first(), id);
    }
}

/// Liveness of sealing: when the attesting validators are distinct and hold a
/// quorum of stake, sealing a batch that nobody has attested yet confirms it,
/// cleared as `clears_to` says and certified by a certificate that checks.
pub proof fn lemma_quorum_confirms(
    before: SequencerView,
    after: SequencerView,
    r: Result<Option<ConfirmedBatch>, SeqError>,
)
    requires
        before.mempool.len() > 0,
        sealed(before, after, r),
        !before.engine.tallies.contains_key(before.next_batch_id),
        distinct_ids(attesting(before.engine.entries, before.honest)),
        attested_weight(attesting(before.engine.entries, before.honest), before.engine.entries) >= threshold_of(
            total_of(before.engine.entries),
        ),
    ensures
        r matches Ok(Some(cb)) && {
            &&& clears_to(before.next_batch_id, before.mempool, cb.result@)
            &&& certifies(cb.certificate.attestors@, cb.certificate.weight, before.engine.entries)
            &&& cb.certificate.digest == cb.result.batch_digest
            &&& cb.certificate.batch_id == cb.result.batch_id
            &&& after.confirmed == before.confirmed.push(confirmed_view(cb))
        },
{
    let entries = before.engine.entries;
    let voters = attesting(entries, before.honest);
    let id = before.next_batch_id;
    let d = digest_with(digest_of(id, before.mempool));
    assert(tally_at(before.engine.tallies, id).votes =~= Seq::<Ballot>::empty());
    assert(all_members(voters, entries)) by {
        assert forall|i: int| 0 <= i < voters.len() implies (#[trigger] stake_lookup(entries, voters[i])) is Some by {
            lemma_listed_is_member(entries, i);
        }
    }
    lemma_quorum_finalizes(entries, before.engine.tallies, voters, BatchId(id), d);
    lemma_sealed_certificate_matches_batch(before, after, r);
}

/// The node's own configuration confirms: with `n >= 1` validators of unit
/// stake, all of them attesting, sealing a batch that nobody has attested yet
/// confirms it.
pub proof fn lemma_node_confirms(
    before: SequencerView,
    after: SequencerView,
    r: Result<Option<ConfirmedBatch>, SeqError>,
    n: u64,
)
    requires
        n >= 1,
        before.engine.entries == uniform_entries(n as nat),
        before.honest == n,
        before.mempool.len() > 0,
        sealed(before, after, r),
        !before.engine.tallies.contains_key(before.next_batch_id),
    ensures
        r matches Ok(Some(cb)) && {
            &&& clears_to(before.next_batch_id, before.mempool, cb.result@)
            &&& certifies(cb.certificate.attestors@, cb.certificate.weight, before.engine.entries)
            &&& cb.certificate.digest == cb.result.batch_digest
            &&& cb.certificate.batch_id == cb.result.batch_id
            &&& after.confirmed == before.confirmed.push(confirmed_view(cb))
        },
{
    let entries = uniform_entries(n as nat);
    let voters = attesting(entries, n);
    assert forall|i: int| 0 <= i < entries.len() implies entry_stake()(#[trigger] entries[i]) == 1 by {}
    lemma_sum_units(entries, entry_stake());
    assert forall|i: int| 0 <= i < voters.len() implies member_stake(entries)(#[trigger] voters[i]) == 1 by {
        lemma_listed_is_member(entries, i);
        lemma_unit_stake(entries, voters[i]);
    }
    lemma_sum_units(voters, member_stake(entries));
    assert(n * 2 / 3 + 1 <= n);
    assert forall|i: int, j: int| 0 <= i < j < voters.len() implies voters[i] != voters[j] by {
        assert(voters[i] == ValidatorId(i as u64) && voters[j] == ValidatorId(j as u64));
    }
    lemma_quorum_confirms(before, after, r);
}

/// Every batch that the engine has a tally for was sealed before: its id is
/// below the next batch id.
pub open spec fn ids_fresh(v: SequencerView) -> bool {
    forall|k: u64| #[trigger] v.engine.tallies.contains_key(k) ==> k < v.next_batch_id
}

/// Attesting one batch leaves the tallies of the other batches where they were.
proof fn lemma_gather_touches_one_batch(
    entries: Seq<(ValidatorId, ValidatorStake)>,
    tallies: Map<u64, TallyView>,
    voters: Seq<ValidatorId>,
    batch: BatchId,
    d: Digest,
    k: u64,
)
    requires
        k != batch.0,
    ensures
        gather(entries, tallies, voters, batch, d).0.contains_key(k) == tallies.contains_key(k),
    decreases voters.len(),
{
    if voters.len() > 0 {
        let step = accept_step(entries, tallies, Attestation { validator: voters[0], batch_id: batch, digest: d });
        assert(step.0.contains_key(k) == tallies.contains_key(k));
        lemma_gather_touches_one_batch(entries, step.0, voters.drop_first(), batch, d, k);
    }
}

/// Sealing keeps batch ids fresh, as long as the batch counter does not wrap
/// around: the engine then never holds a tally for the next batch to seal.
pub proof fn lemma_sealing_keeps_ids_fresh(
    before: SequencerView,
    after: SequencerView,
    r: Result<Option<ConfirmedBatch>, SeqError>,
)
    requires
        before.mempool.len() > 0,
        sealed(before, after, r),
        ids_fresh(before),
        before.next_batch_id < u64::MAX,
    ensures
        ids_fresh(after),
{
    let entries = before.engine.entries;
    let id = before.next_batch_id;
    let d = digest_with(digest_of(id, before.mempool));
    assert forall|k: u64| #[trigger] after.engine.tallies.contains_key(k) implies k < after.next_batch_id by {
        if k != id {
            lemma_gather_touches_one_batch(
                entries,
                before.engine.tallies,
                attesting(entries, before.honest),
                BatchId(id),
                d,
                k,
            );
        }
    }
}

/// An admitted order joins the mempool under the id returned to its
/// submitter, which is the counter's value before the call, with the side,
/// price and quantity it was submitted with; the orders already waiting stay.
/// A refused order leaves the mempool as it was.
pub proof fn lemma_admitted_order_keeps_its_id(
    before: SequencerView,
    after: SequencerView,
    side: Side,
    price: u64,
    quantity: u64,
    r: Result<OrderId, SeqError>,
)
    requires
        admitted(before, after, side, price, quantity, r),
    ensures
        r matches Ok(id) ==> {
            &&& id.0 == before.next_order_id
            &&& after.mempool.len() == before.mempool.len() + 1
            &&& after.mempool.take(before.mempool.len() as int) == before.mempool
            &&& after.mempool.last().id == id
            &&& after.mempool.last().side == side
            &&& after.mempool.last().price.spec_ticks() == price
            &&& after.mempool.last().quantity.spec_lots() == quantity
        },
        r is Err ==> after.mempool == before.mempool,
{
    if let Ok(id) = r {
        assert(after.mempool.take(before.mempool.len() as int) =~= before.mempool);
    }
}

/// Confirmed batches are listed by strictly increasing batch id, all below the
/// next batch id; so each id names at most one confirmed batch.
pub open spec fn confirmed_ids_ordered(v: SequencerView) -> bool {
    &&& forall|i: int| 0 <= i < v.confirmed.len() ==> (#[trigger] v.confirmed[i]).result.batch_id.0 < v.next_batch_id
    &&& forall|i: int, j: int|
        0 <= i < j < v.confirmed.len() ==> (#[trigger] v.confirmed[i]).result.batch_id.0 < (
        #[trigger] v.confirmed[j]).result.batch_id.0
}

/// Submitting an order, whether the rate limit admits it or not, keeps batch
/// ids fresh and confirmed batch ids ordered.
pub proof fn lemma_submission_keeps_ids_fresh(
    before: SequencerView,
    after: SequencerView,
    side: Side,
    price: u64,
    quantity: u64,
    r: Result<OrderId, SeqError>,
)
    requires
        admitted(before, after, side, price, quantity, r) || after == before,
    ensures
        ids_fresh(before) ==> ids_fresh(after),
        confirmed_ids_ordered(before) ==> confirmed_ids_ordered(after),
{
}

/// Sealing keeps confirmed batch ids ordered while the batch counter does not
/// wrap around. A batch it confirms carries the id it was sealed under and is
/// the only confirmed batch with that id, so `batch(id)` finds it.
pub proof fn lemma_sealing_keeps_confirmed_ids_ordered(
    before: SequencerView,
    after: SequencerView,
    r: Result<Option<ConfirmedBatch>, SeqError>,
)
    requires
        before.mempool.len() > 0,
        sealed(before, after, r),
        confirmed_ids_ordered(before),
        before.next_batch_id < u64::MAX,
    ensures
        confirmed_ids_ordered(after),
        r matches Ok(Some(cb)) ==> {
            &&& cb.result.batch_id == BatchId(before.next_batch_id)
            &&& forall|i: int|
                0 <= i < after.confirmed.len() && (#[trigger] after.confirmed[i]).result.batch_id == cb.result.batch_id
                    ==> i == after.confirmed.len() - 1
        },
{
    let n = before.confirmed.len();
    if let Ok(Some(cb)) = r {
        assert(after.confirmed == before.confirmed.push(confirmed_view(cb)));
        assert(after.confirmed[n as int] == confirmed_view(cb));
        assert forall|i: int| 0 <= i < after.confirmed.len() implies (#[trigger] after.confirmed[i]).result.batch_id.0
            < after.next_batch_id by {
            if i < n {
                assert(after.confirmed[i] == before.confirmed[i]);
            }
        }
        assert forall|i: int, j: int|
            0 <= i < j < after.confirmed.len() implies (#[trigger] after.confirmed[i]).result.batch_id.0 < (
            #[trigger] after.confirmed[j]).result.batch_id.0 by {
            assert(after.confirmed[i] == before.confirmed[i]);
            if j < n {
                assert(after.confirmed[j] == before.confirmed[j]);
            }
        }
        assert forall|i: int|
            0 <= i < after.confirmed.len() && (#[trigger] after.confirmed[i]).result.batch_id == cb.result.batch_id
                implies i == after.confirmed.len() - 1 by {
            if i < n {
                assert(after.confirmed[i] == before.confirmed[i]);
            }
        }
    }
}

/// Order ids increase: of two admitted submissions, the later one gets the
/// larger id, as long as the order counter had not reached its top when the
/// first one ran and did not fall in between (sealing and refused
/// submissions leave it as it is).
pub proof fn lemma_order_ids_increase(
    first_before: SequencerView,
    first_after: SequencerView,
    side1: Side,
    price1: u64,
    quantity1: u64,
    id1: OrderId,
    second_before: SequencerView,
    second_after: SequencerView,
    side2: Side,
    price2: u64,
    quantity2: u64,
    id2: OrderId,
)
    requires
        admitted(first_before, first_after, side1, price1, quantity1, Ok(id1)),
        admitted(second_before, second_after, side2, price2, quantity2, Ok(id2)),
        first_before.next_order_id < u64::MAX,
        first_after.next_order_id <= second_before.next_order_id,
    ensures
        id1.0 == first_before.next_order_id,
        id2.0 == second_before.next_order_id,
        id1.0 < id2.0,
{
    assert(first_after.next_order_id == first_before.next_order_id + 1);
    if Order::spec_new(first_before.next_order_id, side1, price1, quantity1) is Err {
        assert(false);
    }
    if Order::spec_new(second_before.next_order_id, side2, price2, quantity2) is Err {
        assert(false);
    }
}

/// A sequencer as `Sequencer::new` leaves it.
pub open spec fn initial(v: SequencerView) -> bool {
    &&& v.mempool == Seq::<Order>::empty()
    &&& v.confirmed == Seq::<ConfirmedView>::empty()
    &&& v.engine.tallies == Map::<u64, TallyView>::empty()
    &&& v.next_order_id == 0
    &&& v.next_batch_id == 0
}

/// One call on a sequencer: a submission (admitted, or refused and without
/// effect), or sealing (of an empty mempool, without effect).
pub open spec fn step(before: SequencerView, after: SequencerView) -> bool {
    ||| exists|side: Side, price: u64, quantity: u64, r: Result<OrderId, SeqError>|
        #[trigger] admitted(before, after, side, price, quantity, r)
    ||| after == before
    ||| before.mempool.len() > 0 && exists|r: Result<Option<ConfirmedBatch>, SeqError>| #[trigger] sealed(before, after, r)
}

/// The states of a sequencer from its creation through a series of calls.
pub open spec fn run(vs: Seq<SequencerView>) -> bool {
    &&& vs.len() > 0
    &&& initial(vs[0])
    &&& forall|i: int| 0 <= i < vs.len() - 1 ==> step(#[trigger] vs[i], vs[i + 1])
}

/// Over any run in which the batch counter has not reached its top, every
/// state has fresh batch ids and confirmed batch ids in strictly increasing
/// order, each below the next batch id.
pub proof fn lemma_run_invariants(vs: Seq<SequencerView>, n: int)
    requires
        run(vs),
        0 <= n < vs.len(),
        forall|i: int| 0 <= i < vs.len() ==> (#[trigger] vs[i]).next_batch_id < u64::MAX,
    ensures
        ids_fresh(vs[n]),
        confirmed_ids_ordered(vs[n]),
    decreases n,
{
    if n > 0 {
        lemma_run_invariants(vs, n - 1);
        let before = vs[n - 1];
        let after = vs[n];
        assert(step(vs[n - 1], vs[n - 1 + 1]));
        if exists|side: Side, price: u64, quantity: u64, r: Result<OrderId, SeqError>|
            #[trigger] admitted(before, after, side, price, quantity, r) {
            let (side, price, quantity, r) = choose|side: Side, price: u64, quantity: u64, r: Result<OrderId, SeqError>|
                #[trigger] admitted(before, after, side, price, quantity, r);
            lemma_submission_keeps_ids_fresh(before, after, side, price, quantity, r);
        } else if after == before {
        } else {
            let r = choose|r: Result<Option<ConfirmedBatch>, SeqError>| #[trigger] sealed(before, after, r);
            lemma_sealing_keeps_ids_fresh(before, after, r);
            lemma_sealing_keeps_confirmed_ids_ordered(before, after, r);
        }
    }
}

/// One call never lowers the order counter while it is below its top.
proof fn lemma_step_order_counter(before: SequencerView, after: SequencerView)
    requires
        step(before, after),
        before.next_order_id < u64::MAX,
    ensures
        before.next_order_id <= after.next_order_id,
{
    if exists|side: Side, price: u64, quantity: u64, r: Result<OrderId, SeqError>|
        #[trigger] admitted(before, after, side, price, quantity, r) {
        let (side, price, quantity, r) = choose|side: Side, price: u64, quantity: u64, r: Result<OrderId, SeqError>|
            #[trigger] admitted(before, after, side, price, quantity, r);
        assert(after.next_order_id == before.next_order_id.wrapping_add(1));
    } else if after != before {
        let r = choose|r: Result<Option<ConfirmedBatch>, SeqError>| #[trigger] sealed(before, after, r);
        assert(after.next_order_id == before.next_order_id);
    }
}

/// Over a run, the order counter never falls while it stays below its top.
proof fn lemma_run_order_counter(vs: Seq<SequencerView>, a: int, b: int)
    requires
        run(vs),
        0 <= a <= b < vs.len(),
        forall|i: int| 0 <= i < vs.len() ==> (#[trigger] vs[i]).next_order_id < u64::MAX,
    ensures
        vs[a].next_order_id <= vs[b].next_order_id,
    decreases b - a,
{
    if a < b {
        lemma_run_order_counter(vs, a, b - 1);
        assert(step(vs[b - 1], vs[b - 1 + 1]));
        lemma_step_order_counter(vs[b - 1], vs[b]);
    }
}

/// Over any run in which the order counter has not reached its top, an order
/// admitted at a later call gets a larger id than one admitted earlier.
pub proof fn lemma_run_order_ids_increase(
    vs: Seq<SequencerView>,
    i: int,
    side1: Side,
    price1: u64,
    quantity1: u64,
    id1: OrderId,
    j: int,
    side2: Side,
    price2: u64,
    quantity2: u64,
    id2: OrderId,
)
    requires
        run(vs),
        forall|k: int| 0 <= k < vs.len() ==> (#[trigger] vs[k]).next_order_id < u64::MAX,
        0 <= i < j < vs.len() - 1,
        admitted(vs[i], vs[i + 1], side1, price1, quantity1, Ok(id1)),
        admitted(vs[j], vs[j + 1], side2, price2, quantity2, Ok(id2)),
    ensures
        id1.0 < id2.0,
{
    lemma_run_order_counter(vs, i + 1, j);
    lemma_order_ids_increase(vs[i], vs[i + 1], side1, price1, quantity1, id1, vs[j], vs[j + 1], side2, price2, quantity2, id2);
}

/// Sealing at the end of any run confirms the batch when the attesting
/// validators are distinct and hold a quorum (and the batch counter has not
/// reached its top): the result is the batch sealed under the next batch id,
/// cleared as `clears_to` says, certified by a certificate that checks, and
/// the only confirmed batch with that id.
pub proof fn lemma_run_seal_confirms(
    vs: Seq<SequencerView>,
    after: SequencerView,
    r: Result<Option<ConfirmedBatch>, SeqError>,
)
    requires
        run(vs),
        forall|i: int| 0 <= i < vs.len() ==> (#[trigger] vs[i]).next_batch_id < u64::MAX,
        vs.last().mempool.len() > 0,
        sealed(vs.last(), after, r),
        distinct_ids(attesting(vs.last().engine.entries, vs.last().honest)),
        attested_weight(attesting(vs.last().engine.entries, vs.last().honest), vs.last().engine.entries)
            >= threshold_of(total_of(vs.last().engine.entries)),
    ensures
        r matches Ok(Some(cb)) && {
            &&& clears_to(vs.last().next_batch_id, vs.last().mempool, cb.result@)
            &&& cb.result.batch_id == BatchId(vs.last().next_batch_id)
            &&& cb.certificate.digest == cb.result.batch_digest
            &&& cb.certificate.batch_id == cb.result.batch_id
            &&& certifies(cb.certificate.attestors@, cb.certificate.weight, vs.last().engine.entries)
            &&& after.confirmed == vs.last().confirmed.push(confirmed_view(cb))
            &&& after.mempool.len() == 0
            &&& forall|i: int|
                0 <= i < after.confirmed.len() && (#[trigger] after.confirmed[i]).result.batch_id == cb.result.batch_id
                    ==> i == after.confirmed.len() - 1
        },
{
    let last = vs.len() - 1;
    lemma_run_invariants(vs, last);
    assert(!vs.last().engine.tallies.contains_key(vs.last().next_batch_id));
    lemma_quorum_confirms(vs.last(), after, r);
    lemma_sealing_keeps_confirmed_ids_ordered(vs.last(), after, r);
}

/// The digest whose bytes are `bytes`.
pub open spec fn digest_with(bytes: Seq<u8>) -> Digest {
    choose|d: Digest| d.0@ == bytes
}

impl Sequencer {
    /// A sequencer over `validators`, admitting `config.max_orders_per_sec`
    /// orders per second (a configured rate of zero counts as one).
    pub fn new(validators: ValidatorSet, config: SequencerConfig) -> (r: Sequencer)
        ensures
            r@.mempool == Seq::<Order>::empty(),
            r@.confirmed == Seq::<ConfirmedView>::empty(),
            r@.engine.entries == validators.entries(),
            r@.engine.tallies == Map::<u64, TallyView>::empty(),
            r@.next_order_id == 0,
            r@.next_batch_id == 0,
            r@.honest == if config.honest_validators < validators.entries().len() {
                config.honest_validators as int
            } else {
                validators.entries().len() as int
            },
            r@.rate == if config.max_orders_per_sec >= 1 {
                config.max_orders_per_sec
            } else {
                1
            },
            initial(r@),
    {
        let per_sec = if config.max_orders_per_sec >= 1 {
            config.max_orders_per_sec
        } else {
            1
        };
        let n = validators.len() as u64;
        let honest = if config.honest_validators <= n {
            config.honest_validators
        } else {
            n
        };
        let r = Sequencer {
            mempool: Vec::new(),
            confirmed: Vec::new(),
            consensus: ConsensusEngine::new(validators),
            auction: UniformPriceAuction,
            limiter: RateLimit::new(per_sec),
            next_order_id: 0,
            next_batch_id: 0,
            honest,
        };
        assert(r@.confirmed =~= Seq::<ConfirmedView>::empty());
        r
    }

    /// Submits an order to the mempool and returns its id, unless the
    /// sequencer's rate limit (at `max_orders_per_sec`) refuses it. Whether it
    /// admits the order depends on the clock; what follows its answer is
    /// `submit_if_admitted`.
    pub fn submit_order(&mut self, side: Side, price: u64, quantity: u64) -> (r: Result<OrderId, SeqError>)
        ensures
            final(self)@.rate == old(self)@.rate,
            r == Err::<OrderId, SeqError>(SeqError::RateLimited) && final(self)@ == old(self)@
                || admitted(old(self)@, final(self)@, side, price, quantity, r),
    {
        let within_limit = self.limiter.admits();
        self.submit_if_admitted(within_limit, side, price, quantity)
    }

    /// Submits an order given the rate limit's answer: refused with
    /// `RateLimited` when not admitted; otherwise the next order id is used up
    /// and a valid order joins the mempool.
    pub fn submit_if_admitted(&mut self, within_limit: bool, side: Side, price: u64, quantity: u64) -> (r: Result<
        OrderId,
        SeqError,
    >)
        ensures
            final(self)@.rate == old(self)@.rate,
            !within_limit ==> r == Err::<OrderId, SeqError>(SeqError::RateLimited) && final(self)@ == old(self)@,
            within_limit ==> admitted(old(self)@, final(self)@, side, price, quantity, r),
            r matches Ok(id) ==> id.0 == old(self)@.next_order_id && final(self)@.mempool == old(
                self,
            )@.mempool.push(final(self)@.mempool.last()) && final(self)@.mempool.last().id == id
                && final(self)@.mempool.last().side == side && final(self)@.mempool.last().price.spec_ticks()
                == price && final(self)@.mempool.last().quantity.spec_lots() == quantity,
    {
        if !within_limit {
            return Err(SeqError::RateLimited);
        }
        let id = self.next_order_id;
        self.next_order_id = id.wrapping_add(1);
        let order = match Order::new(id, side, price, quantity) {
            Ok(o) => o,
            Err(e) => {
                return Err(e);
            },
        };
        self.mempool.push(order);
        Ok(OrderId(id))
    }

    /// Seals the mempool into the next batch, clears it, and finalizes it with
    /// the attestations of the attesting validators. `Ok(None)` if the mempool
    /// was empty. Clearing sums the orders' quantities, and finalizing computes
    /// the quorum threshold: both must fit their integer types.
    pub fn seal_and_clear(&mut self) -> (r: Result<Option<ConfirmedBatch>, SeqError>)
        requires
            volumes_fit(old(self)@.mempool),
            old(self)@.mempool.len() > 0 ==> total_of(old(self)@.engine.entries) * 2 <= u128::MAX,
        ensures
            old(self)@.mempool.len() == 0 ==> (r matches Ok(None) && final(self)@ == old(self)@),
            old(self)@.mempool.len() > 0 ==> sealed(old(self)@, final(self)@, r),
            r matches Ok(Some(cb)) ==> cb.certificate.digest == cb.result.batch_digest && cb.certificate.batch_id
                == cb.result.batch_id && cb.result.batch_id == BatchId(old(self)@.next_batch_id),
    {
        if self.mempool.len() == 0 {
            return Ok(None);
        }
        let ghost before = self@;
        let mut orders: Vec<Order> = Vec::new();
        std::mem::swap(&mut orders, &mut self.mempool);
        let batch_id = self.next_batch_id;
        self.next_batch_id = batch_id.wrapping_add(1);
        let batch = Batch::new(batch_id, orders);
        let digest = batch.digest();
        let result = self.auction.clear(&batch);
        let ids = self.consensus.validators().ids();
        let ghost entries = before.engine.entries;
        let ghost voters = attesting(entries, before.honest);
        let ghost d = digest_with(digest_of(batch_id, before.mempool));
        proof {
            assert(digest.0 =~= d.0);
            assert(voters.skip(0) =~= voters);
        }
        let mut certificate: Option<QuorumCertificate> = None;
        let mut i: usize = 0;
        while certificate.is_none() && i < ids.len() && (i as u64) < self.honest
            invariant
                old(self)@ == before,
                before.mempool.len() > 0,
                ids@ == Seq::new(entries.len(), |k: int| entries[k].0),
                voters == attesting(entries, before.honest),
                entries == before.engine.entries,
                self@.engine.entries == entries,
                self.honest == before.honest,
                total_of(entries) * 2 <= u128::MAX,
                digest == d,
                d == digest_with(digest_of(batch_id, before.mempool)),
                batch_id == before.next_batch_id,
                i <= voters.len(),
                certificate is None ==> gather(entries, before.engine.tallies, voters, BatchId(batch_id), d)
                    == gather(entries, self@.engine.tallies, voters.skip(i as int), BatchId(batch_id), d),
                certificate matches Some(qc) ==> {
                    &&& gather(entries, before.engine.tallies, voters, BatchId(batch_id), d) == (
                        self@.engine.tallies,
                        Ok::<Option<CertView>, SeqError>(Some(cert_view(qc))),
                    )
                    &&& certifies(qc.attestors@, qc.weight, entries)
                },
                self@.mempool == Seq::<Order>::empty(),
                self@.confirmed == before.confirmed,
                self@.next_order_id == before.next_order_id,
                self@.next_batch_id == before.next_batch_id.wrapping_add(1),
                self@.honest == before.honest,
                self@.rate == before.rate,
            decreases ids@.len() - i, if certificate is None { 1int } else { 0int },
        {
            let att = Attestation::new(ids[i], BatchId(batch_id), digest);
            let ghost rest = voters.skip(i as int);
            let ghost tallies_now = self@.engine.tallies;
            proof {
                assert(i < voters.len());
                assert(rest[0] == ids@[i as int]);
                assert(rest.drop_first() =~= voters.skip(i + 1));
                assert(att == Attestation { validator: rest[0], batch_id: BatchId(batch_id), digest: d });
            }
            let outcome = match self.consensus.accept(att) {
                Ok(o) => o,
                Err(e) => {
                    proof {
                        let step = accept_step(entries, tallies_now, att);
                        assert(step.1 == Err::<OutcomeView, SeqError>(e));
                        assert(gather(entries, tallies_now, rest, BatchId(batch_id), d) == (
                            step.0,
                            Err::<Option<CertView>, SeqError>(e),
                        ));
                    }
                    return Err(e);
                },
            };
            match outcome {
                AttestOutcome::Finalized(qc) => {
                    certificate = Some(qc);
                },
                _ => {
                    i = i + 1;
                },
            }
        }
        match certificate {
            None => {
                proof {
                    assert(voters.skip(i as int) =~= Seq::<ValidatorId>::empty());
                }
                let have = self.consensus.stake_for(BatchId(batch_id), &digest);
                Err(
                    SeqError::QuorumNotReached {
                        batch: batch_id,
                        have,
                        need: self.consensus.validators().quorum_threshold(),
                    },
                )
            },
            Some(qc) => {
                proof {
                    lemma_gather_certifies_what_was_attested(
                        entries,
                        before.engine.tallies,
                        voters,
                        BatchId(batch_id),
                        d,
                    );
                    assert(result.batch_digest.0 =~= digest.0);
                }
                let confirmed = ConfirmedBatch { result, certificate: qc };
                let stored = confirmed.copy();
                self.confirmed.push(stored);
                proof {
                    assert(self@.confirmed =~= before.confirmed.push(confirmed_view(confirmed)));
                }
                Ok(Some(confirmed))
            },
        }
    }

    /// The number of orders admitted per second.
    pub fn max_orders_per_sec(&self) -> (r: u32)
        ensures
            r == self@.rate,
    {
        self.limiter.per_second()
    }

    /// Number of orders waiting in the mempool.
    pub fn mempool_depth(&self) -> (r: usize)
        ensures
            r == self@.mempool.len(),
    {
        self.mempool.len()
    }

    /// Number of confirmed batches.
    pub fn confirmed_count(&self) -> (r: usize)
        ensures
            r == self@.confirmed.len(),
    {
        self.confirmed.len()
    }

    /// The most recently confirmed batch.
    pub fn latest_batch(&self) -> (r: Option<ConfirmedBatch>)
        ensures
            match r {
                Some(c) => self@.confirmed.len() > 0 && confirmed_view(c) == self@.confirmed.last(),
                None => self@.confirmed.len() == 0,
            },
    {
        let n = self.confirmed.len();
        if n == 0 {
            None
        } else {
            Some(self.confirmed[n - 1].copy())
        }
    }

    /// The first confirmed batch with this id.
    pub fn batch(&self, id: u64) -> (r: Option<ConfirmedBatch>)
        ensures
            match r {
                Some(c) => exists|i: int|
                    0 <= i < self@.confirmed.len() && confirmed_view(c) == self@.confirmed[i]
                        && self@.confirmed[i].result.batch_id == BatchId(id) && forall|j: int|
                        0 <= j < i ==> (#[trigger] self@.confirmed[j]).result.batch_id != BatchId(id),
                None => forall|i: int|
                    0 <= i < self@.confirmed.len() ==> (#[trigger] self@.confirmed[i]).result.batch_id
                        != BatchId(id),
            },
    {
        let mut i: usize = 0;
        while i < self.confirmed.len()
            invariant
                i <= self.confirmed@.len(),
                forall|j: int| 0 <= j < i ==> (#[trigger] self@.confirmed[j]).result.batch_id != BatchId(id),
            decreases self.confirmed@.len() - i,
        {
            if self.confirmed[i].result.batch_id.0 == id {
                let c = self.confirmed[i].copy();
                assert(confirmed_view(c) == self@.confirmed[i as int]);
                return Some(c);
            }
            i = i + 1;
        }
        None
    }

    /// The validator set.
    pub fn validators(&self) -> (r: &ValidatorSet)
        ensures
            r.entries() == self@.engine.entries,
    {
        self.consensus.validators()
    }

    /// Number of validators.
    pub fn validator_count(&self) -> (r: usize)
        ensures
            r == self@.engine.entries.len(),
    {
        self.consensus.validators().len()
    }

    /// The quorum threshold of the validator set.
    pub fn quorum_threshold(&self) -> (r: u128)
        requires
            total_of(self@.engine.entries) * 2 <= u128::MAX,
        ensures
            r == threshold_of(total_of(self@.engine.entries)),
    {
        self.consensus.validators().quorum_threshold()
    }

    /// Whether the mempool's total buy and total sell quantity each fit in a
    /// `u64`, which clearing it asks.
    pub fn mempool_fits(&self) -> (r: bool)
        ensures
            r == volumes_fit(self@.mempool),
    {
        crate::auction::volumes_fit_in(self.mempool.as_slice())
    }
}

/// What admitting an order does: the id is used up; a valid order joins the
/// mempool and its id is returned, an invalid one is refused.
pub open spec fn admitted(
    before: SequencerView,
    after: SequencerView,
    side: Side,
    price: u64,
    quantity: u64,
    r: Result<OrderId, SeqError>,
) -> bool {
    let id = before.next_order_id;
    &&& after.next_order_id == id.wrapping_add(1)
    &&& after.confirmed == before.confirmed
    &&& after.engine == before.engine
    &&& after.next_batch_id == before.next_batch_id
    &&& after.honest == before.honest
    &&& after.rate == before.rate
    &&& match Order::spec_new(id, side, price, quantity) {
        Ok(o) => r == Ok::<OrderId, SeqError>(OrderId(id)) && after.mempool == before.mempool.push(o),
        Err(e) => r == Err::<OrderId, SeqError>(e) && after.mempool == before.mempool,
    }
}

/// What sealing a non-empty mempool does: the mempool becomes batch
/// `next_batch_id` and empties, the batch id advances, the attesting
/// validators attest the batch digest in turn until a certificate forms, and a
/// certified batch joins the confirmed batches. Without a quorum the error
/// reports the stake attested to the batch digest and the stake needed.
pub open spec fn sealed(
    before: SequencerView,
    after: SequencerView,
    r: Result<Option<ConfirmedBatch>, SeqError>,
) -> bool {
    let id = before.next_batch_id;
    let entries = before.engine.entries;
    let d = digest_with(digest_of(id, before.mempool));
    let g = gather(entries, before.engine.tallies, attesting(entries, before.honest), BatchId(id), d);
    &&& after.mempool == Seq::<Order>::empty()
    &&& after.next_batch_id == id.wrapping_add(1)
    &&& after.next_order_id == before.next_order_id
    &&& after.honest == before.honest
    &&& after.rate == before.rate
    &&& after.engine.entries == entries
    &&& after.engine.tallies == g.0
    &&& match g.1 {
        Err(e) => r == Err::<Option<ConfirmedBatch>, SeqError>(e) && after.confirmed == before.confirmed,
        Ok(None) => r == Err::<Option<ConfirmedBatch>, SeqError>(
            SeqError::QuorumNotReached {
                batch: id,
                have: digest_weight(tally_at(g.0, id).votes, d) as u128,
                need: threshold_of(total_of(entries)) as u128,
            },
        ) && after.confirmed == before.confirmed,
        Ok(Some(c)) => r matches Ok(Some(cb)) && {
            &&& clears_to(id, before.mempool, cb.result@)
            &&& cert_view(cb.certificate) == c
            &&& certifies(c.attestors, c.weight, entries)
            &&& after.confirmed == before.confirmed.push(confirmed_view(cb))
        },
    }
}

/// Read after write: a batch that sealing confirmed is the latest confirmed
/// batch afterwards, one more than before.
pub proof fn lemma_sealed_batch_is_latest(
    before: SequencerView,
    after: SequencerView,
    r: Result<Option<ConfirmedBatch>, SeqError>,
    cb: ConfirmedBatch,
)
    requires
        before.mempool.len() > 0,
        sealed(before, after, r),
        r == Ok::<Option<ConfirmedBatch>, SeqError>(Some(cb)),
    ensures
        after.confirmed.len() == before.confirmed.len() + 1,
        after.confirmed.last() == confirmed_view(cb),
        after.mempool.len() == 0,
{
}

/// A refused attestation round or a missing quorum leaves the confirmed batches
/// as they were; sealing never removes or rewrites a confirmed batch.
pub proof fn lemma_sealing_keeps_confirmed(
    before: SequencerView,
    after: SequencerView,
    r: Result<Option<ConfirmedBatch>, SeqError>,
)
    requires
        before.mempool.len() > 0,
        sealed(before, after, r),
    ensures
        after.confirmed.len() >= before.confirmed.len(),
        forall|i: int| 0 <= i < before.confirmed.len() ==> after.confirmed[i] == before.confirmed[i],
{
}

} // verus!
