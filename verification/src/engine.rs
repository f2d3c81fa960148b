//! Weak-consensus engine: collects per-batch attestations and, once a quorum of
//! stake agrees on one digest, emits a [`QuorumCertificate`] that finalizes the
//! batch. Each batch is confirmed on its own.
//!
//! What the engine enforces:
//! * membership: only known validators may attest;
//! * no equivocation: a validator cannot attest two digests for one batch;
//! * idempotence: a repeated attestation is refused, not counted twice.

use std::collections::BTreeMap;

use vstd::prelude::*;
use vstd::relations::{sorted_by, total_ordering};

use crate::batch::BatchId;
use crate::consensus::{
    all_members, attested_weight, certifies, distinct_ids, lemma_members_weight_bounded,
    member_stake, stake_lookup, threshold_of, total_of, Attestation, QuorumCertificate, ValidatorId,
    ValidatorSet, ValidatorStake,
};
use crate::digest::Digest;
use crate::error::SeqError;
use crate::sums::{lemma_sum_permutation, lemma_sum_push, lemma_sum_take, lemma_sum_take_bounded, sum_of};

verus! {

broadcast use vstd::std_specs::btree::group_btree_axioms, vstd::laws_cmp::group_laws_cmp,
    vstd::array::group_array_axioms, vstd::seq_lib::group_seq_properties,
    vstd::seq_lib::group_to_multiset_ensures, vstd::multiset::group_multiset_axioms,
    vstd::map::group_map_axioms;

/// Outcome of accepting a single attestation.
#[derive(Clone, Debug, PartialEq, Eq)]
pub enum AttestOutcome {
    /// Accepted; quorum not yet reached.
    Accumulated { batch: BatchId, weight: u128, needed: u128 },
    /// Accepted; this attestation completed the quorum.
    Finalized(QuorumCertificate),
    /// Already finalized; the existing certificate is returned.
    AlreadyFinalized(QuorumCertificate),
}

/// One accepted attestation: who voted for which digest, with what stake.
#[derive(Clone, Copy, Debug)]
pub struct Ballot {
    pub validator: ValidatorId,
    pub digest: Digest,
    pub stake: u128,
}

/// A certificate as a mathematical value.
pub struct CertView {
    pub batch_id: BatchId,
    pub digest: Digest,
    pub attestors: Seq<ValidatorId>,
    pub weight: u128,
}

/// The votes cast for one batch, and its certificate once it has one.
pub struct TallyView {
    pub votes: Seq<Ballot>,
    pub certificate: Option<CertView>,
}

/// An attestation outcome as a mathematical value.
pub enum OutcomeView {
    Accumulated { batch: BatchId, weight: u128, needed: u128 },
    Finalized(CertView),
    AlreadyFinalized(CertView),
}

/// The engine as a mathematical value: the validator set and a tally per batch.
pub struct EngineView {
    pub entries: Seq<(ValidatorId, ValidatorStake)>,
    pub tallies: Map<u64, TallyView>,
}

pub open spec fn cert_view(qc: QuorumCertificate) -> CertView {
    CertView { batch_id: qc.batch_id, digest: qc.digest, attestors: qc.attestors@, weight: qc.weight }
}

pub open spec fn outcome_view(o: AttestOutcome) -> OutcomeView {
    match o {
        AttestOutcome::Accumulated { batch, weight, needed } => OutcomeView::Accumulated {
            batch,
            weight,
            needed,
        },
        AttestOutcome::Finalized(qc) => OutcomeView::Finalized(cert_view(qc)),
        AttestOutcome::AlreadyFinalized(qc) => OutcomeView::AlreadyFinalized(cert_view(qc)),
    }
}

pub open spec fn result_view(r: Result<AttestOutcome, SeqError>) -> Result<OutcomeView, SeqError> {
    match r {
        Ok(o) => Ok(outcome_view(o)),
        Err(e) => Err(e),
    }
}

/// The tally of batch `b`; a batch nobody attested has no votes.
pub open spec fn tally_at(tallies: Map<u64, TallyView>, b: u64) -> TallyView {
    if tallies.contains_key(b) {
        tallies[b]
    } else {
        TallyView { votes: Seq::empty(), certificate: None }
    }
}

/// The digest `v` voted for, if `v` voted.
pub open spec fn vote_of(votes: Seq<Ballot>, v: ValidatorId) -> Option<Digest> {
    if exists|i: int| 0 <= i < votes.len() && (#[trigger] votes[i]).validator == v {
        Some(votes[choose|i: int| 0 <= i < votes.len() && (#[trigger] votes[i]).validator == v].digest)
    } else {
        None
    }
}

/// A vote's stake if it is for `d`.
pub open spec fn digest_stake(d: Digest) -> spec_fn(Ballot) -> nat {
    |b: Ballot|
        if b.digest == d {
            b.stake as nat
        } else {
            0
        }
}

/// The stake that voted for `d`.
pub open spec fn digest_weight(votes: Seq<Ballot>, d: Digest) -> nat {
    sum_of(votes, digest_stake(d))
}

/// Who voted for `d`, in the order of their votes.
pub open spec fn voters(votes: Seq<Ballot>, d: Digest) -> Seq<ValidatorId>
    decreases votes.len(),
{
    if votes.len() == 0 {
        Seq::empty()
    } else if votes.last().digest == d {
        voters(votes.drop_last(), d).push(votes.last().validator)
    } else {
        voters(votes.drop_last(), d)
    }
}

/// Validator ids in ascending order.
pub open spec fn id_le() -> spec_fn(ValidatorId, ValidatorId) -> bool {
    |a: ValidatorId, b: ValidatorId| a.0 <= b.0
}

/// The attestors of a certificate for `d`: the voters for `d`, ascending.
pub open spec fn attestors_for(votes: Seq<Ballot>, d: Digest) -> Seq<ValidatorId> {
    voters(votes, d).sort_by(id_le())
}

/// What accepting `att` does: the new tallies and the answer.
pub open spec fn accept_step(
    entries: Seq<(ValidatorId, ValidatorStake)>,
    tallies: Map<u64, TallyView>,
    att: Attestation,
) -> (Map<u64, TallyView>, Result<OutcomeView, SeqError>) {
    let v = att.validator;
    let b = att.batch_id.0;
    let d = att.digest;
    match stake_lookup(entries, v) {
        None => (tallies, Err(SeqError::UnknownValidator(v.0))),
        Some(s) => {
            let t = tally_at(tallies, b);
            match t.certificate {
                Some(c) => (tallies, Ok(OutcomeView::AlreadyFinalized(c))),
                None => match vote_of(t.votes, v) {
                    Some(prev) => (
                        tallies,
                        Err(
                            if prev == d {
                                SeqError::DuplicateAttestation { validator: v.0, batch: b }
                            } else {
                                SeqError::Equivocation { validator: v.0, batch: b }
                            },
                        ),
                    ),
                    None => {
                        let votes = t.votes.push(Ballot { validator: v, digest: d, stake: s.0 });
                        let w = digest_weight(votes, d);
                        let need = threshold_of(total_of(entries));
                        if w >= need {
                            let c = CertView {
                                batch_id: att.batch_id,
                                digest: d,
                                attestors: attestors_for(votes, d),
                                weight: w as u128,
                            };
                            (
                                tallies.insert(b, TallyView { votes, certificate: Some(c) }),
                                Ok(OutcomeView::Finalized(c)),
                            )
                        } else {
                            (
                                tallies.insert(b, TallyView { votes, certificate: None }),
                                Ok(
                                    OutcomeView::Accumulated {
                                        batch: att.batch_id,
                                        weight: w as u128,
                                        needed: need as u128,
                                    },
                                ),
                            )
                        }
                    },
                },
            }
        },
    }
}

/// The attestation gets counted: it is a member's first vote in a batch
/// without a certificate. Only then is the quorum threshold computed.
pub open spec fn counted(
    entries: Seq<(ValidatorId, ValidatorStake)>,
    tallies: Map<u64, TallyView>,
    att: Attestation,
) -> bool {
    &&& stake_lookup(entries, att.validator) is Some
    &&& tally_at(tallies, att.batch_id.0).certificate is None
    &&& vote_of(tally_at(tallies, att.batch_id.0).votes, att.validator) is None
}

/// What every tally of an engine over `entries` satisfies.
pub open spec fn tally_valid(entries: Seq<(ValidatorId, ValidatorStake)>, b: u64, t: TallyView) -> bool {
    &&& forall|i: int, j: int|
        0 <= i < j < t.votes.len() ==> (#[trigger] t.votes[i]).validator != (#[trigger] t.votes[j]).validator
    &&& forall|i: int|
        0 <= i < t.votes.len() ==> stake_lookup(entries, (#[trigger] t.votes[i]).validator) == Some(
            ValidatorStake(t.votes[i].stake),
        )
    &&& t.certificate matches Some(c) ==> {
        &&& certifies(c.attestors, c.weight, entries)
        &&& c.batch_id == BatchId(b)
    }
}

/// Every tally is valid.
pub open spec fn tallies_valid(entries: Seq<(ValidatorId, ValidatorStake)>, tallies: Map<u64, TallyView>) -> bool {
    forall|b: u64| #[trigger] tallies.contains_key(b) ==> tally_valid(entries, b, tallies[b])
}

impl EngineView {
    /// Every tally is valid.
    pub open spec fn well_formed(self) -> bool {
        tallies_valid(self.entries, self.tallies)
    }
}

struct BatchTally {
    ballots: Vec<Ballot>,
    certificate: Option<QuorumCertificate>,
}

spec fn tally_view(t: BatchTally) -> TallyView {
    TallyView {
        votes: t.ballots@,
        certificate: match t.certificate {
            Some(c) => Some(cert_view(c)),
            None => None,
        },
    }
}

/// Weak-consensus engine over a fixed validator set.
pub struct ConsensusEngine {
    validators: ValidatorSet,
    tallies: BTreeMap<u64, BatchTally>,
}

impl View for ConsensusEngine {
    type V = EngineView;

    closed spec fn view(&self) -> EngineView {
        EngineView {
            entries: self.validators.entries(),
            tallies: tallies_view(self.tallies@),
        }
    }
}

/// Votes with distinct validators whose stakes are their stakes in `entries`.
pub open spec fn votes_valid(entries: Seq<(ValidatorId, ValidatorStake)>, votes: Seq<Ballot>) -> bool {
    &&& forall|i: int, j: int|
        0 <= i < j < votes.len() ==> (#[trigger] votes[i]).validator != (#[trigger] votes[j]).validator
    &&& forall|i: int|
        0 <= i < votes.len() ==> stake_lookup(entries, (#[trigger] votes[i]).validator) == Some(
            ValidatorStake(votes[i].stake),
        )
}

proof fn lemma_votes_valid_prefix(entries: Seq<(ValidatorId, ValidatorStake)>, votes: Seq<Ballot>)
    requires
        votes_valid(entries, votes),
        votes.len() > 0,
    ensures
        votes_valid(entries, votes.drop_last()),
{
    let p = votes.drop_last();
    assert forall|i: int, j: int| 0 <= i < j < p.len() implies (#[trigger] p[i]).validator != (
    #[trigger] p[j]).validator by {
        assert(p[i] == votes[i] && p[j] == votes[j]);
    }
    assert forall|i: int| 0 <= i < p.len() implies stake_lookup(entries, (#[trigger] p[i]).validator)
        == Some(ValidatorStake(p[i].stake)) by {
        assert(p[i] == votes[i]);
    }
}

/// Each voter for `d` cast one of the votes for `d`.
proof fn lemma_voter_origin(votes: Seq<Ballot>, d: Digest, k: int)
    requires
        0 <= k < voters(votes, d).len(),
    ensures
        exists|i: int|
            0 <= i < votes.len() && (#[trigger] votes[i]).validator == voters(votes, d)[k]
                && votes[i].digest == d,
    decreases votes.len(),
{
    let p = votes.drop_last();
    if votes.last().digest == d && k == voters(p, d).len() {
        assert(votes[votes.len() - 1].validator == voters(votes, d)[k]);
    } else {
        lemma_voter_origin(p, d, k);
        let i = choose|i: int| 0 <= i < p.len() && (#[trigger] p[i]).validator == voters(p, d)[k] && p[i].digest == d;
        assert(votes[i] == p[i]);
    }
}

/// Voters of valid votes are distinct members, and the stake they carry is the
/// stake voted for `d`.
proof fn lemma_voters(entries: Seq<(ValidatorId, ValidatorStake)>, votes: Seq<Ballot>, d: Digest)
    requires
        votes_valid(entries, votes),
    ensures
        distinct_ids(voters(votes, d)),
        all_members(voters(votes, d), entries),
        attested_weight(voters(votes, d), entries) == digest_weight(votes, d),
    decreases votes.len(),
{
    if votes.len() > 0 {
        let p = votes.drop_last();
        let x = votes.last();
        lemma_votes_valid_prefix(entries, votes);
        lemma_voters(entries, p, d);
        assert(votes =~= p.push(x));
        if x.digest == d {
            let vs = voters(p, d);
            assert forall|i: int, j: int| 0 <= i < j < vs.push(x.validator).len() implies vs.push(
                x.validator,
            )[i] != vs.push(x.validator)[j] by {
                if j == vs.len() {
                    lemma_voter_origin(p, d, i);
                    let k = choose|k: int| 0 <= k < p.len() && (#[trigger] p[k]).validator == vs[i] && p[k].digest == d;
                    assert(votes[k] == p[k]);
                    assert(votes[k].validator != votes[votes.len() - 1].validator);
                }
            }
            assert forall|i: int| 0 <= i < vs.push(x.validator).len() implies (#[trigger] stake_lookup(
                entries,
                vs.push(x.validator)[i],
            )) is Some by {
                if i == vs.len() {
                    assert(votes[votes.len() - 1] == x);
                } else {
                    assert(vs.push(x.validator)[i] == vs[i]);
                }
            }
            assert(stake_lookup(entries, votes[votes.len() - 1].validator) == Some(ValidatorStake(x.stake)));
            lemma_sum_push(vs, x.validator, member_stake(entries));
            lemma_sum_push(p, x, digest_stake(d));
        } else {
            lemma_sum_push(p, x, digest_stake(d));
        }
    }
}

/// Ascending id order is a total order.
proof fn lemma_id_order_total()
    ensures
        total_ordering(id_le()),
{
}

/// The attestors of a certificate formed from valid votes certify it: distinct
/// members whose stake is the stake voted for the digest.
pub proof fn lemma_attestors_certify(entries: Seq<(ValidatorId, ValidatorStake)>, votes: Seq<Ballot>, d: Digest)
    requires
        votes_valid(entries, votes),
    ensures
        distinct_ids(attestors_for(votes, d)),
        all_members(attestors_for(votes, d), entries),
        attested_weight(attestors_for(votes, d), entries) == digest_weight(votes, d),
        digest_weight(votes, d) <= total_of(entries),
{
    let vs = voters(votes, d);
    let a = attestors_for(votes, d);
    lemma_voters(entries, votes, d);
    lemma_id_order_total();
    vs.lemma_sort_by_ensures(id_le());
    lemma_sum_permutation(vs, a, member_stake(entries));
    lemma_members_weight_bounded(vs, entries);
    assert(vs.no_duplicates());
    vs.lemma_multiset_has_no_duplicates();
    a.lemma_multiset_has_no_duplicates_conv();
    assert forall|i: int| 0 <= i < a.len() implies (#[trigger] stake_lookup(entries, a[i])) is Some by {
        assert(a.to_multiset().count(a[i]) > 0);
        assert(vs.contains(a[i]));
        let k = choose|k: int| 0 <= k < vs.len() && vs[k] == a[i];
        assert(stake_lookup(entries, vs[k]) is Some);
    }
}

/// With distinct voters, the vote found at index `i` is the vote of its validator.
proof fn lemma_vote_found(votes: Seq<Ballot>, i: int)
    requires
        0 <= i < votes.len(),
        forall|a: int, b: int|
            0 <= a < b < votes.len() ==> (#[trigger] votes[a]).validator != (#[trigger] votes[b]).validator,
    ensures
        vote_of(votes, votes[i].validator) == Some(votes[i].digest),
{
    let v = votes[i].validator;
    let c = choose|c: int| 0 <= c < votes.len() && (#[trigger] votes[c]).validator == v;
    if c < i {
        assert(votes[c].validator != votes[i].validator);
    } else if c > i {
        assert(votes[i].validator != votes[c].validator);
    }
}

/// `slice::sort_unstable_by_key` on validator ids with the key `id.0`: a
/// permutation of the ids in ascending order of their numbers.
#[verifier::external_body]
fn sort_validator_ids(v: &mut Vec<ValidatorId>)
    ensures
        final(v)@.to_multiset() == old(v)@.to_multiset(),
        sorted_by(final(v)@, id_le()),
{
    v.sort_unstable_by_key(|id| id.0);
}

/// A copy of a certificate.
fn copy_certificate(qc: &QuorumCertificate) -> (r: QuorumCertificate)
    ensures
        cert_view(r) == cert_view(*qc),
{
    let mut attestors: Vec<ValidatorId> = Vec::new();
    let mut i: usize = 0;
    while i < qc.attestors.len()
        invariant
            i <= qc.attestors@.len(),
            attestors@ == qc.attestors@.take(i as int),
        decreases qc.attestors@.len() - i,
    {
        attestors.push(qc.attestors[i]);
        i = i + 1;
        assert(attestors@ =~= qc.attestors@.take(i as int));
    }
    assert(attestors@ =~= qc.attestors@);
    QuorumCertificate { batch_id: qc.batch_id, digest: qc.digest, attestors, weight: qc.weight }
}

/// The stake voted for `d`.
fn weight_for(ballots: &Vec<Ballot>, d: &Digest, Ghost(bound): Ghost<nat>) -> (r: u128)
    requires
        digest_weight(ballots@, *d) <= bound <= u128::MAX,
    ensures
        r == digest_weight(ballots@, *d),
{
    let mut w: u128 = 0;
    let mut i: usize = 0;
    while i < ballots.len()
        invariant
            i <= ballots@.len(),
            digest_weight(ballots@, *d) <= u128::MAX,
            w == sum_of(ballots@.take(i as int), digest_stake(*d)),
        decreases ballots@.len() - i,
    {
        proof {
            lemma_sum_take(ballots@, i as int, digest_stake(*d));
            lemma_sum_take_bounded(ballots@, i + 1, digest_stake(*d));
        }
        if ballots[i].digest == *d {
            w = w + ballots[i].stake;
        }
        i = i + 1;
    }
    assert(ballots@.take(ballots@.len() as int) =~= ballots@);
    w
}

/// The voters for `d`, ascending.
fn attestors_of(ballots: &Vec<Ballot>, d: &Digest) -> (r: Vec<ValidatorId>)
    ensures
        r@ == attestors_for(ballots@, *d),
{
    let mut ids: Vec<ValidatorId> = Vec::new();
    let mut i: usize = 0;
    while i < ballots.len()
        invariant
            i <= ballots@.len(),
            ids@ == voters(ballots@.take(i as int), *d),
        decreases ballots@.len() - i,
    {
        proof {
            assert(ballots@.take(i + 1).drop_last() =~= ballots@.take(i as int));
            assert(ballots@.take(i + 1).last() == ballots@[i as int]);
        }
        if ballots[i].digest == *d {
            ids.push(ballots[i].validator);
        }
        i = i + 1;
    }
    assert(ballots@.take(ballots@.len() as int) =~= ballots@);
    let ghost unsorted = ids@;
    sort_validator_ids(&mut ids);
    proof {
        lemma_id_order_total();
        unsorted.lemma_sort_by_ensures(id_le());
        vstd::seq_lib::lemma_sorted_unique(ids@, unsorted.sort_by(id_le()), id_le());
    }
    ids
}

impl ConsensusEngine {
    #[verifier::type_invariant]
    spec fn engine_invariant(self) -> bool {
        self@.well_formed()
    }

    pub fn new(validators: ValidatorSet) -> (r: ConsensusEngine)
        ensures
            r@.entries == validators.entries(),
            r@.tallies == Map::<u64, TallyView>::empty(),
    {
        let r = ConsensusEngine { validators, tallies: BTreeMap::new() };
        assert(r@.tallies =~= Map::<u64, TallyView>::empty());
        r
    }

    /// The validator set the engine counts stake by.
    pub fn validators(&self) -> (r: &ValidatorSet)
        ensures
            r.entries() == self@.entries,
    {
        &self.validators
    }

    /// The certificate that finalized a batch, if one exists.
    pub fn certificate(&self, batch: BatchId) -> (r: Option<QuorumCertificate>)
        ensures
            match r {
                Some(c) => tally_at(self@.tallies, batch.0).certificate == Some(cert_view(c)),
                None => tally_at(self@.tallies, batch.0).certificate is None,
            },
    {
        match self.tallies.get(&batch.0) {
            Some(t) => match &t.certificate {
                Some(c) => Some(copy_certificate(c)),
                None => None,
            },
            None => None,
        }
    }

    /// The stake that members have attested to `digest` for `batch` so far.
    pub(crate) fn stake_for(&self, batch: BatchId, digest: &Digest) -> (r: u128)
        ensures
            r == digest_weight(tally_at(self@.tallies, batch.0).votes, *digest),
    {
        proof {
            use_type_invariant(self);
        }
        let total = self.validators.total_stake();
        match self.tallies.get(&batch.0) {
            Some(t) => {
                proof {
                    let tv = tally_at(self@.tallies, batch.0);
                    assert(self@.tallies.contains_key(batch.0));
                    assert(tally_valid(self@.entries, batch.0, tv));
                    assert(votes_valid(self@.entries, t.ballots@));
                    lemma_attestors_certify(self@.entries, t.ballots@, *digest);
                }
                weight_for(&t.ballots, digest, Ghost(total_of(self@.entries)))
            },
            None => {
                proof {
                    assert(tally_at(self@.tallies, batch.0).votes =~= Seq::<Ballot>::empty());
                }
                0
            },
        }
    }

    /// Accepts an attestation, forming a quorum certificate when the threshold
    /// is reached. Refuses strangers, equivocation and repeats. The doubled
    /// total stake must fit a `u128` when the attestation gets counted.
    pub fn accept(&mut self, att: Attestation) -> (r: Result<AttestOutcome, SeqError>)
        requires
            counted(old(self)@.entries, old(self)@.tallies, att) ==> total_of(old(self)@.entries) * 2
                <= u128::MAX,
        ensures
            final(self)@.entries == old(self)@.entries,
            final(self)@.tallies == accept_step(old(self)@.entries, old(self)@.tallies, att).0,
            result_view(r) == accept_step(old(self)@.entries, old(self)@.tallies, att).1,
            final(self)@.well_formed(),
            r matches Ok(AttestOutcome::Finalized(qc)) ==> certifies(qc.attestors@, qc.weight, old(self)@.entries),
            r matches Ok(AttestOutcome::AlreadyFinalized(qc)) ==> certifies(qc.attestors@, qc.weight, old(self)@.entries),
            r matches Ok(AttestOutcome::Finalized(qc)) ==> 3 * qc.weight > 2 * total_of(old(self)@.entries),
            r matches Ok(AttestOutcome::Accumulated { weight, needed, .. }) ==> 3 * weight <= 2 * total_of(
                old(self)@.entries,
            ) && 3 * needed > 2 * total_of(old(self)@.entries),
    {
        proof {
            use_type_invariant(&*self);
            crate::consensus::lemma_threshold_beyond_two_thirds(total_of(self@.entries));
        }
        let mut tallies: BTreeMap<u64, BatchTally> = BTreeMap::new();
        std::mem::swap(&mut tallies, &mut self.tallies);
        let r = accept_into(&self.validators, &mut tallies, att);
        self.tallies = tallies;
        r
    }
}

/// The tallies as mathematical values.
spec fn tallies_view(m: Map<u64, BatchTally>) -> Map<u64, TallyView> {
    m.map_values(|t: BatchTally| tally_view(t))
}

proof fn lemma_view_insert(m: Map<u64, BatchTally>, b: u64, t: BatchTally)
    ensures
        tallies_view(m.insert(b, t)) == tallies_view(m).insert(b, tally_view(t)),
        tallies_view(m.remove(b)) == tallies_view(m).remove(b),
{
    assert(tallies_view(m.insert(b, t)) =~= tallies_view(m).insert(b, tally_view(t)));
    assert(tallies_view(m.remove(b)) =~= tallies_view(m).remove(b));
}

#[verifier::loop_isolation(false)]
fn accept_into(validators: &ValidatorSet, tallies: &mut BTreeMap<u64, BatchTally>, att: Attestation) -> (r: Result<AttestOutcome, SeqError>)
    requires
        counted(validators.entries(), tallies_view(old(tallies)@), att) ==> total_of(validators.entries()) * 2
            <= u128::MAX,
        tallies_valid(validators.entries(), tallies_view(old(tallies)@)),
    ensures
        tallies_view(final(tallies)@) == accept_step(validators.entries(), tallies_view(old(tallies)@), att).0,
        result_view(r) == accept_step(validators.entries(), tallies_view(old(tallies)@), att).1,
        tallies_valid(validators.entries(), tallies_view(final(tallies)@)),
        r matches Ok(AttestOutcome::Finalized(qc)) ==> certifies(qc.attestors@, qc.weight, validators.entries()),
        r matches Ok(AttestOutcome::AlreadyFinalized(qc)) ==> certifies(qc.attestors@, qc.weight, validators.entries()),
{
    let ghost entries = validators.entries();
    let ghost old_view = tallies_view(tallies@);
    let stake = match validators.stake_of(att.validator) {
        Some(s) => s.0,
        None => {
            return Err(SeqError::UnknownValidator(att.validator.0));
        },
    };
    let b = att.batch_id.0;
    let ghost before = tallies@;
    let mut tally = match tallies.remove(&b) {
        Some(t) => t,
        None => BatchTally { ballots: Vec::new(), certificate: None },
    };
    proof {
        if before.contains_key(b) {
            assert(old_view.contains_key(b));
            assert(old_view[b] == tally_view(tally));
            assert(tally_valid(entries, b, old_view[b]));
            assert(tallies@.insert(b, tally) =~= before);
        } else {
            assert(!old_view.contains_key(b));
            assert(tally_view(tally).votes =~= Seq::<Ballot>::empty());
        }
        assert(tally_view(tally) == tally_at(old_view, b));
        assert(tally_valid(entries, b, tally_view(tally)));
        lemma_view_insert(tallies@, b, tally);
        lemma_view_insert(before, b, tally);
        assert(tallies@ == before.remove(b));
    }
    if tally.certificate.is_some() {
        let c = match &tally.certificate {
            Some(cert) => copy_certificate(cert),
            None => QuorumCertificate { batch_id: att.batch_id, digest: att.digest, attestors: Vec::new(), weight: 0 },
        };
        proof {
            assert(before.contains_key(b));
        }
        tallies.insert(b, tally);
        return Ok(AttestOutcome::AlreadyFinalized(c));
    }
    let mut i: usize = 0;
    while i < tally.ballots.len()
        invariant
            i <= tally.ballots@.len(),
            forall|j: int| 0 <= j < i ==> (#[trigger] tally.ballots@[j]).validator != att.validator,
            tallies@ == before.remove(b),
        decreases tally.ballots@.len() - i,
    {
        if tally.ballots[i].validator == att.validator {
            let prev = tally.ballots[i].digest;
            proof {
                lemma_vote_found(tally.ballots@, i as int);
            }
            proof {
                assert(before.contains_key(b));
            }
            tallies.insert(b, tally);
            if prev == att.digest {
                return Err(SeqError::DuplicateAttestation { validator: att.validator.0, batch: b });
            } else {
                return Err(SeqError::Equivocation { validator: att.validator.0, batch: b });
            }
        }
        i = i + 1;
    }
    proof {
        assert(vote_of(tally_at(old_view, b).votes, att.validator) is None);
        assert(counted(entries, old_view, att));
    }
    tally.ballots.push(Ballot { validator: att.validator, digest: att.digest, stake });
    let ghost votes = tally.ballots@;
    proof {
        assert(votes_valid(entries, votes));
        lemma_attestors_certify(entries, votes, att.digest);
    }
    let threshold = validators.quorum_threshold();
    let ghost removed = tallies@;
    let weight = weight_for(&tally.ballots, &att.digest, Ghost(total_of(entries)));
    if weight >= threshold {
        let attestors = attestors_of(&tally.ballots, &att.digest);
        let cert = QuorumCertificate { batch_id: att.batch_id, digest: att.digest, attestors, weight };
        let out = copy_certificate(&cert);
        tally.certificate = Some(cert);
        proof {
            lemma_view_insert(removed, b, tally);
            assert(removed == before.remove(b));
            assert(tallies_view(removed) == old_view.remove(b));
            assert(tallies_view(removed).insert(b, tally_view(tally)) =~= old_view.insert(b, tally_view(tally)));
        }
        tallies.insert(b, tally);
        Ok(AttestOutcome::Finalized(out))
    } else {
        proof {
            lemma_view_insert(removed, b, tally);
            assert(removed == before.remove(b));
            assert(tallies_view(removed) == old_view.remove(b));
            assert(tallies_view(removed).insert(b, tally_view(tally)) =~= old_view.insert(b, tally_view(tally)));
        }
        tallies.insert(b, tally);
        Ok(AttestOutcome::Accumulated { batch: att.batch_id, weight, needed: threshold })
    }
}

// ---------------------------------------------------------------------------
// What accepting keeps
// ---------------------------------------------------------------------------

/// Membership: an attestation from a validator outside the set is refused and
/// changes nothing.
pub proof fn lemma_stranger_refused(
    entries: Seq<(ValidatorId, ValidatorStake)>,
    tallies: Map<u64, TallyView>,
    att: Attestation,
)
    requires
        stake_lookup(entries, att.validator) is None,
    ensures
        accept_step(entries, tallies, att) == (tallies, Err::<OutcomeView, SeqError>(SeqError::UnknownValidator(att.validator.0))),
{
}

/// No equivocation: once a validator has voted for a digest in an open batch,
/// an attestation for another digest is refused and changes nothing.
pub proof fn lemma_equivocation_refused(
    entries: Seq<(ValidatorId, ValidatorStake)>,
    tallies: Map<u64, TallyView>,
    att: Attestation,
    prev: Digest,
)
    requires
        stake_lookup(entries, att.validator) is Some,
        tally_at(tallies, att.batch_id.0).certificate is None,
        vote_of(tally_at(tallies, att.batch_id.0).votes, att.validator) == Some(prev),
        prev != att.digest,
    ensures
        accept_step(entries, tallies, att) == (tallies, Err::<OutcomeView, SeqError>(SeqError::Equivocation { validator: att.validator.0, batch: att.batch_id.0 })),
{
}

/// Idempotence: repeating an attestation in an open batch is refused and is not
/// counted again.
pub proof fn lemma_repeat_refused(
    entries: Seq<(ValidatorId, ValidatorStake)>,
    tallies: Map<u64, TallyView>,
    att: Attestation,
)
    requires
        stake_lookup(entries, att.validator) is Some,
        tally_at(tallies, att.batch_id.0).certificate is None,
        vote_of(tally_at(tallies, att.batch_id.0).votes, att.validator) == Some(att.digest),
    ensures
        accept_step(entries, tallies, att) == (tallies, Err::<OutcomeView, SeqError>(SeqError::DuplicateAttestation { validator: att.validator.0, batch: att.batch_id.0 })),
{
}

/// Finality: a finalized batch keeps its certificate, and every later
/// attestation for it is answered with that same certificate.
pub proof fn lemma_finality(
    entries: Seq<(ValidatorId, ValidatorStake)>,
    tallies: Map<u64, TallyView>,
    att: Attestation,
    c: CertView,
)
    requires
        stake_lookup(entries, att.validator) is Some,
        tally_at(tallies, att.batch_id.0).certificate == Some(c),
    ensures
        accept_step(entries, tallies, att) == (tallies, Ok::<OutcomeView, SeqError>(OutcomeView::AlreadyFinalized(c))),
{
}

/// A batch is finalized once: an attestation finalizes only a batch without a
/// certificate, leaves that certificate in its tally, and no later attestation
/// for the batch finalizes it again.
pub proof fn lemma_finalized_once(
    entries: Seq<(ValidatorId, ValidatorStake)>,
    tallies: Map<u64, TallyView>,
    att: Attestation,
    c: CertView,
)
    requires
        accept_step(entries, tallies, att).1 == Ok::<OutcomeView, SeqError>(OutcomeView::Finalized(c)),
    ensures
        tally_at(tallies, att.batch_id.0).certificate is None,
        tally_at(accept_step(entries, tallies, att).0, att.batch_id.0).certificate == Some(c),
        forall|later: Attestation|
            later.batch_id == att.batch_id ==> !(#[trigger] accept_step(
                entries,
                accept_step(entries, tallies, att).0,
                later,
            ).1 matches Ok(OutcomeView::Finalized(_))),
{
}

/// Votes and certificates are never taken back: whatever any attestation does,
/// a vote already cast and a certificate already issued stay as they were.
pub proof fn lemma_votes_and_certificates_stay(
    entries: Seq<(ValidatorId, ValidatorStake)>,
    tallies: Map<u64, TallyView>,
    att: Attestation,
    b: u64,
    v: ValidatorId,
)
    requires
        tallies_valid(entries, tallies),
    ensures
        vote_of(tally_at(tallies, b).votes, v) is Some ==> vote_of(
            tally_at(accept_step(entries, tallies, att).0, b).votes,
            v,
        ) == vote_of(tally_at(tallies, b).votes, v),
        tally_at(tallies, b).certificate is Some ==> tally_at(accept_step(entries, tallies, att).0, b).certificate
            == tally_at(tallies, b).certificate,
{
    let after = accept_step(entries, tallies, att).0;
    if b == att.batch_id.0 && after != tallies {
        let t = tally_at(tallies, b);
        let votes = tally_at(after, b).votes;
        if vote_of(t.votes, v) is Some {
            if tallies.contains_key(b) {
                assert(tally_valid(entries, b, tallies[b]));
            }
            let i = choose|i: int| 0 <= i < t.votes.len() && (#[trigger] t.votes[i]).validator == v;
            lemma_vote_found(t.votes, i);
            assert(votes[i] == t.votes[i]);
            assert(vote_of(t.votes, att.validator) is None);
            assert forall|a: int, c: int| 0 <= a < c < votes.len() implies (#[trigger] votes[a]).validator
                != (#[trigger] votes[c]).validator by {
                if c == votes.len() - 1 {
                    assert(votes[a] == t.votes[a]);
                    if t.votes[a].validator == att.validator {
                        assert(exists|k: int| 0 <= k < t.votes.len() && (#[trigger] t.votes[k]).validator == att.validator);
                    }
                } else {
                    assert(votes[a] == t.votes[a] && votes[c] == t.votes[c]);
                }
            }
            lemma_vote_found(votes, i);
        }
    }
}

/// Batches are confirmed on their own: an attestation for one batch leaves the
/// tally of every other batch as it was.
pub proof fn lemma_batches_independent(
    entries: Seq<(ValidatorId, ValidatorStake)>,
    tallies: Map<u64, TallyView>,
    att: Attestation,
    b: u64,
)
    requires
        b != att.batch_id.0,
    ensures
        tally_at(accept_step(entries, tallies, att).0, b) == tally_at(tallies, b),
{
}

} // verus!
