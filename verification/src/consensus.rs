//! Weak-consensus primitives: a stake-weighted validator set, per-batch
//! attestations, and the quorum certificate that finalizes a batch.
//!
//! Each batch is confirmed on its own once a quorum of stake attests to its
//! digest; there is no total order across batches.

use vstd::prelude::*;

use crate::batch::BatchId;
use crate::digest::Digest;
use crate::sums::{
    lemma_sum_congruent, lemma_sum_drop_first, lemma_sum_push, lemma_sum_remove, lemma_sum_take,
    lemma_sum_take_bounded, sum_of,
};

verus! {

broadcast use vstd::std_specs::btree::group_btree_axioms, vstd::laws_cmp::group_laws_cmp;

/// A validator's identifier.
#[derive(Clone, Copy, Debug, PartialEq, Eq, PartialOrd, Ord, Hash, Structural)]
pub struct ValidatorId(pub u64);

/// A validator's stake weight.
#[derive(Clone, Copy, Debug, PartialEq, Eq, PartialOrd, Ord, Structural)]
pub struct ValidatorStake(pub u128);

/// The weight of one `(id, stake)` entry: its stake.
pub open spec fn entry_stake() -> spec_fn((ValidatorId, ValidatorStake)) -> nat {
    |e: (ValidatorId, ValidatorStake)| e.1.0 as nat
}

/// The summed stake of a list of entries.
pub open spec fn total_of(entries: Seq<(ValidatorId, ValidatorStake)>) -> nat {
    sum_of(entries, entry_stake())
}

/// The stake of the first entry for `id`, if there is one.
pub open spec fn stake_lookup(entries: Seq<(ValidatorId, ValidatorStake)>, id: ValidatorId) -> Option<
    ValidatorStake,
>
    decreases entries.len(),
{
    if entries.len() == 0 {
        None
    } else if entries[0].0 == id {
        Some(entries[0].1)
    } else {
        stake_lookup(entries.drop_first(), id)
    }
}

/// The entries whose stake is not zero, in their order.
pub open spec fn positive_stakes(entries: Seq<(ValidatorId, ValidatorStake)>) -> Seq<
    (ValidatorId, ValidatorStake),
>
    decreases entries.len(),
{
    if entries.len() == 0 {
        Seq::empty()
    } else if entries.last().1.0 > 0 {
        positive_stakes(entries.drop_last()).push(entries.last())
    } else {
        positive_stakes(entries.drop_last())
    }
}

/// `n` validators `0..n`, each of stake one.
pub open spec fn uniform_entries(n: nat) -> Seq<(ValidatorId, ValidatorStake)> {
    Seq::new(n, |i: int| (ValidatorId(i as u64), ValidatorStake(1)))
}

/// Strictly more than two thirds of `total`.
pub open spec fn threshold_of(total: nat) -> nat {
    total * 2 / 3 + 1
}

/// The quorum threshold is the least stake strictly above two thirds of the
/// total: three times it exceeds twice the total, and one less would not.
pub proof fn lemma_threshold_beyond_two_thirds(total: nat)
    ensures
        3 * threshold_of(total) > 2 * total,
        3 * (threshold_of(total) - 1) <= 2 * total,
{
}

/// The stake that `v` carries in `entries` (zero for a stranger).
pub open spec fn member_stake(entries: Seq<(ValidatorId, ValidatorStake)>) -> spec_fn(ValidatorId) -> nat {
    |v: ValidatorId|
        match stake_lookup(entries, v) {
            Some(s) => s.0 as nat,
            None => 0,
        }
}

/// The summed stake of `attestors` in `entries`.
pub open spec fn attested_weight(attestors: Seq<ValidatorId>, entries: Seq<(ValidatorId, ValidatorStake)>) -> nat {
    sum_of(attestors, member_stake(entries))
}

/// No identifier occurs twice.
pub open spec fn distinct_ids(ids: Seq<ValidatorId>) -> bool {
    forall|i: int, j: int| 0 <= i < j < ids.len() ==> ids[i] != ids[j]
}

/// Every identifier belongs to the set.
pub open spec fn all_members(ids: Seq<ValidatorId>, entries: Seq<(ValidatorId, ValidatorStake)>) -> bool {
    forall|i: int| 0 <= i < ids.len() ==> (#[trigger] stake_lookup(entries, ids[i])) is Some
}

/// What a quorum certificate's check asks: distinct members whose stake adds up
/// to the claimed weight, and that weight reaches the quorum threshold.
pub open spec fn certifies(
    attestors: Seq<ValidatorId>,
    weight: u128,
    entries: Seq<(ValidatorId, ValidatorStake)>,
) -> bool {
    &&& distinct_ids(attestors)
    &&& all_members(attestors, entries)
    &&& attested_weight(attestors, entries) == weight
    &&& weight >= threshold_of(total_of(entries))
}

/// The active validator set with total stake.
#[derive(Debug, PartialEq, Eq)]
pub struct ValidatorSet {
    validators: Vec<(ValidatorId, ValidatorStake)>,
    total_stake: u128,
}

impl ValidatorSet {
    /// The `(id, stake)` entries of the set, in order.
    pub closed spec fn entries(self) -> Seq<(ValidatorId, ValidatorStake)> {
        self.validators@
    }

    /// What every set satisfies: its stakes are positive and sum to a `u128`.
    pub open spec fn valid(self) -> bool {
        &&& total_of(self.entries()) <= u128::MAX
        &&& forall|i: int| 0 <= i < self.entries().len() ==> (#[trigger] self.entries()[i]).1.0 > 0
    }

    #[verifier::type_invariant]
    spec fn well_formed(self) -> bool {
        &&& self.total_stake == total_of(self.validators@)
        &&& self.valid()
    }

    /// Builds a set from `(id, stake)` pairs, leaving out zero-stake entries.
    pub fn new(validators: Vec<(ValidatorId, ValidatorStake)>) -> (r: ValidatorSet)
        requires
            total_of(validators@) <= u128::MAX,
        ensures
            r.entries() == positive_stakes(validators@),
            r.valid(),
    {
        let mut kept: Vec<(ValidatorId, ValidatorStake)> = Vec::new();
        let mut total: u128 = 0;
        let mut i: usize = 0;
        while i < validators.len()
            invariant
                i <= validators@.len(),
                total_of(validators@) <= u128::MAX,
                kept@ == positive_stakes(validators@.take(i as int)),
                total == total_of(kept@),
                total_of(kept@) == total_of(validators@.take(i as int)),
                forall|j: int| 0 <= j < kept@.len() ==> (#[trigger] kept@[j]).1.0 > 0,
            decreases validators@.len() - i,
        {
            let e = validators[i];
            proof {
                lemma_sum_take(validators@, i as int, entry_stake());
                lemma_sum_take_bounded(validators@, i + 1, entry_stake());
                assert(validators@.take(i + 1).drop_last() =~= validators@.take(i as int));
                assert(validators@.take(i + 1).last() == e);
            }
            if e.1.0 > 0 {
                proof {
                    lemma_sum_push(kept@, e, entry_stake());
                }
                kept.push(e);
                total = total + e.1.0;
            }
            i = i + 1;
        }
        assert(validators@.take(validators@.len() as int) =~= validators@);
        ValidatorSet { validators: kept, total_stake: total }
    }

    /// `n` validators with ids `0..n`, each of stake one.
    pub fn uniform(n: u64) -> (r: ValidatorSet)
        ensures
            r.entries() == uniform_entries(n as nat),
            r.valid(),
    {
        let mut v: Vec<(ValidatorId, ValidatorStake)> = Vec::new();
        let mut i: u64 = 0;
        while i < n
            invariant
                i <= n,
                v@ == uniform_entries(i as nat),
                total_of(v@) == i,
                positive_stakes(v@) == v@,
            decreases n - i,
        {
            proof {
                lemma_sum_push(v@, (ValidatorId(i), ValidatorStake(1)), entry_stake());
                assert(v@.push((ValidatorId(i), ValidatorStake(1))).drop_last() =~= v@);
            }
            v.push((ValidatorId(i), ValidatorStake(1)));
            i = i + 1;
            assert(v@ =~= uniform_entries(i as nat));
        }
        ValidatorSet::new(v)
    }

    pub fn total_stake(&self) -> (r: u128)
        ensures
            r == total_of(self.entries()),
            self.valid(),
    {
        proof {
            use_type_invariant(self);
        }
        self.total_stake
    }

    pub fn len(&self) -> (r: usize)
        ensures
            r == self.entries().len(),
    {
        self.validators.len()
    }

    pub fn is_empty(&self) -> (r: bool)
        ensures
            r <==> self.entries().len() == 0,
    {
        self.validators.len() == 0
    }

    /// Whether some entry has this id.
    pub fn contains(&self, id: ValidatorId) -> (r: bool)
        ensures
            r <==> exists|i: int| 0 <= i < self.entries().len() && (#[trigger] self.entries()[i]).0 == id,
    {
        let mut i: usize = 0;
        while i < self.validators.len()
            invariant
                i <= self.validators@.len(),
                forall|j: int| 0 <= j < i ==> (#[trigger] self.validators@[j]).0 != id,
            decreases self.validators@.len() - i,
        {
            if self.validators[i].0 == id {
                assert(self.entries()[i as int].0 == id);
                return true;
            }
            i = i + 1;
        }
        false
    }

    /// The stake of the first entry for `id`.
    pub fn stake_of(&self, id: ValidatorId) -> (r: Option<ValidatorStake>)
        ensures
            r == stake_lookup(self.entries(), id),
    {
        let mut i: usize = 0;
        assert(self.validators@.skip(0) =~= self.validators@);
        while i < self.validators.len()
            invariant
                i <= self.validators@.len(),
                stake_lookup(self.validators@, id) == stake_lookup(self.validators@.skip(i as int), id),
            decreases self.validators@.len() - i,
        {
            assert(self.validators@.skip(i as int).drop_first() =~= self.validators@.skip(i + 1));
            if self.validators[i].0 == id {
                return Some(self.validators[i].1);
            }
            i = i + 1;
        }
        None
    }

    /// Byzantine quorum threshold: strictly more than 2/3 of the total stake.
    pub fn quorum_threshold(&self) -> (r: u128)
        requires
            total_of(self.entries()) * 2 <= u128::MAX,
        ensures
            r == threshold_of(total_of(self.entries())),
            3 * r > 2 * total_of(self.entries()),
            3 * (r - 1) <= 2 * total_of(self.entries()),
    {
        proof {
            use_type_invariant(self);
            lemma_threshold_beyond_two_thirds(total_of(self.entries()));
        }
        self.total_stake * 2 / 3 + 1
    }

    /// The validator ids, in order.
    pub fn ids(&self) -> (r: Vec<ValidatorId>)
        ensures
            r@ == Seq::new(self.entries().len(), |i: int| self.entries()[i].0),
    {
        let mut r: Vec<ValidatorId> = Vec::new();
        let mut i: usize = 0;
        while i < self.validators.len()
            invariant
                i <= self.validators@.len(),
                r@ == Seq::new(i as nat, |k: int| self.validators@[k].0),
            decreases self.validators@.len() - i,
        {
            r.push(self.validators[i].0);
            i = i + 1;
            assert(r@ =~= Seq::new(i as nat, |k: int| self.validators@[k].0));
        }
        r
    }
}

impl Clone for ValidatorSet {
    fn clone(&self) -> (r: ValidatorSet)
        ensures
            r.entries() == self.entries(),
    {
        proof {
            use_type_invariant(self);
        }
        let mut v: Vec<(ValidatorId, ValidatorStake)> = Vec::new();
        let mut i: usize = 0;
        while i < self.validators.len()
            invariant
                i <= self.validators@.len(),
                v@ == self.validators@.take(i as int),
            decreases self.validators@.len() - i,
        {
            v.push(self.validators[i]);
            i = i + 1;
            assert(v@ =~= self.validators@.take(i as int));
        }
        assert(v@ =~= self.validators@);
        ValidatorSet { validators: v, total_stake: self.total_stake }
    }
}

/// A validator's attestation that batch `batch_id` has digest `digest`.
#[derive(Clone, Copy, Debug, PartialEq, Eq)]
pub struct Attestation {
    pub validator: ValidatorId,
    pub batch_id: BatchId,
    pub digest: Digest,
}

impl Attestation {
    pub fn new(validator: ValidatorId, batch_id: BatchId, digest: Digest) -> (r: Attestation)
        ensures
            r.validator == validator,
            r.batch_id == batch_id,
            r.digest == digest,
    {
        Attestation { validator, batch_id, digest }
    }
}

/// Proof that a quorum of stake attested to a batch digest: the certificate that
/// finalizes the batch.
#[derive(Clone, Debug, PartialEq, Eq)]
pub struct QuorumCertificate {
    pub batch_id: BatchId,
    pub digest: Digest,
    pub attestors: Vec<ValidatorId>,
    pub weight: u128,
}

impl QuorumCertificate {
    /// Checks the certificate against a validator set: every attestor is a
    /// member, none occurs twice, their stake adds up to `weight`, and `weight`
    /// reaches the quorum threshold.
    ///
    /// The threshold is computed only for distinct members whose stake adds up
    /// to `weight`; only then must the doubled total stake fit a `u128`.
    pub fn verify(&self, set: &ValidatorSet) -> (r: bool)
        requires
            distinct_ids(self.attestors@) && all_members(self.attestors@, set.entries())
                && attested_weight(self.attestors@, set.entries()) == self.weight ==> total_of(
                set.entries(),
            ) * 2 <= u128::MAX,
        ensures
            r == certifies(self.attestors@, self.weight, set.entries()),
    {
        let ghost entries = set.entries();
        let ghost a = self.attestors@;
        let total = set.total_stake();
        let mut seen: std::collections::BTreeSet<u64> = std::collections::BTreeSet::new();
        let mut weight: u128 = 0;
        let mut i: usize = 0;
        while i < self.attestors.len()
            invariant
                i <= a.len(),
                a == self.attestors@,
                entries == set.entries(),
                total == total_of(entries) <= u128::MAX,
                forall|x: u64| seen@.contains(x) <==> exists|j: int| 0 <= j < i && (#[trigger] a[j]).0 == x,
                distinct_ids(a.take(i as int)),
                all_members(a.take(i as int), entries),
                weight == attested_weight(a.take(i as int), entries),
            decreases a.len() - i,
        {
            let v = self.attestors[i];
            proof {
                assert(a.take(i + 1).drop_last() =~= a.take(i as int));
                assert(a.take(i + 1).last() == v);
            }
            if !seen.insert(v.0) {
                proof {
                    let j = choose|j: int| 0 <= j < i && (#[trigger] a[j]).0 == v.0;
                    assert(a.take(i + 1)[j] == a.take(i + 1)[i as int]);
                    lemma_distinct_prefix(a, i + 1);
                }
                return false;
            }
            match set.stake_of(v) {
                Some(s) => {
                    proof {
                        lemma_sum_take(a, i as int, member_stake(entries));
                        assert(distinct_ids(a.take(i + 1)));
                        assert(all_members(a.take(i + 1), entries));
                        lemma_members_weight_bounded(a.take(i + 1), entries);
                    }
                    weight = weight + s.0;
                },
                None => {
                    proof {
                        assert(a.take(i + 1)[i as int] == v);
                        lemma_members_prefix(a, i + 1, entries);
                    }
                    return false;
                },
            }
            i = i + 1;
        }
        assert(a.take(a.len() as int) =~= a);
        weight == self.weight && weight >= set.quorum_threshold()
    }
}

proof fn lemma_distinct_prefix(a: Seq<ValidatorId>, n: int)
    requires
        0 <= n <= a.len(),
        !distinct_ids(a.take(n)),
    ensures
        !distinct_ids(a),
{
    let (i, j) = choose|i: int, j: int| 0 <= i < j < n && a.take(n)[i] == a.take(n)[j];
    assert(a[i] == a[j]);
}

proof fn lemma_members_prefix(a: Seq<ValidatorId>, n: int, entries: Seq<(ValidatorId, ValidatorStake)>)
    requires
        0 <= n <= a.len(),
        !all_members(a.take(n), entries),
    ensures
        !all_members(a, entries),
{
    let i = choose|i: int| 0 <= i < n && !(stake_lookup(entries, #[trigger] a.take(n)[i]) is Some);
    assert(a.take(n)[i] == a[i]);
}

/// Lookups in a set: a validator has a stake exactly when some entry lists it,
/// and that stake is the one of the first entry that lists it. For a set built
/// by `ValidatorSet::new`, the entries are the pairs of positive stake in their
/// order, so `stake_of` gives the first kept pair's stake and `contains` holds
/// exactly when `stake_of` is `Some`.
pub proof fn lemma_stake_lookup(entries: Seq<(ValidatorId, ValidatorStake)>, id: ValidatorId)
    ensures
        stake_lookup(entries, id) is Some <==> exists|i: int| 0 <= i < entries.len() && (#[trigger] entries[i]).0 == id,
        stake_lookup(entries, id) matches Some(s) ==> exists|i: int|
            0 <= i < entries.len() && #[trigger] entries[i] == (id, s) && forall|j: int|
                0 <= j < i ==> (#[trigger] entries[j]).0 != id,
    decreases entries.len(),
{
    if entries.len() > 0 {
        let rest = entries.drop_first();
        lemma_stake_lookup(rest, id);
        if entries[0].0 == id {
            assert(entries[0] == (id, entries[0].1));
        } else {
            if exists|i: int| 0 <= i < entries.len() && (#[trigger] entries[i]).0 == id {
                let i = choose|i: int| 0 <= i < entries.len() && (#[trigger] entries[i]).0 == id;
                assert(rest[i - 1] == entries[i]);
            }
            if exists|i: int| 0 <= i < rest.len() && (#[trigger] rest[i]).0 == id {
                let i = choose|i: int| 0 <= i < rest.len() && (#[trigger] rest[i]).0 == id;
                assert(entries[i + 1] == rest[i]);
            }
            if let Some(s) = stake_lookup(rest, id) {
                let i = choose|i: int|
                    0 <= i < rest.len() && #[trigger] rest[i] == (id, s) && forall|j: int|
                        0 <= j < i ==> (#[trigger] rest[j]).0 != id;
                assert(entries[i + 1] == rest[i]);
                assert forall|j: int| 0 <= j < i + 1 implies (#[trigger] entries[j]).0 != id by {
                    if j > 0 {
                        assert(entries[j] == rest[j - 1]);
                    }
                }
            }
        }
    }
}

/// A stranger to `entries` looks the same once a different first entry is dropped.
proof fn lemma_lookup_drop_first(entries: Seq<(ValidatorId, ValidatorStake)>, v: ValidatorId)
    requires
        entries.len() > 0,
        entries[0].0 != v,
    ensures
        stake_lookup(entries, v) == stake_lookup(entries.drop_first(), v),
{
}

/// Distinct members of a set carry at most the set's total stake.
pub proof fn lemma_members_weight_bounded(a: Seq<ValidatorId>, entries: Seq<(ValidatorId, ValidatorStake)>)
    requires
        distinct_ids(a),
        all_members(a, entries),
    ensures
        attested_weight(a, entries) <= total_of(entries),
    decreases entries.len(),
{
    if entries.len() == 0 {
        if a.len() > 0 {
            assert(stake_lookup(entries, a[0]) is Some);
        }
    } else {
        let h = entries[0];
        let rest = entries.drop_first();
        lemma_sum_drop_first(entries, entry_stake());
        if exists|k: int| 0 <= k < a.len() && a[k] == h.0 {
            let k = choose|k: int| 0 <= k < a.len() && a[k] == h.0;
            let a2 = a.remove(k);
            lemma_sum_remove(a, k, member_stake(entries));
            assert forall|i: int| 0 <= i < a2.len() implies (#[trigger] a2[i]) != h.0 by {
                if i < k {
                    assert(a2[i] == a[i]);
                } else {
                    assert(a2[i] == a[i + 1]);
                }
            }
            assert forall|i: int| 0 <= i < a2.len() implies member_stake(entries)(#[trigger] a2[i])
                == member_stake(rest)(a2[i]) by {
                lemma_lookup_drop_first(entries, a2[i]);
            }
            lemma_sum_congruent(a2, member_stake(entries), member_stake(rest));
            assert forall|i: int, j: int| 0 <= i < j < a2.len() implies a2[i] != a2[j] by {
                let ii = if i < k { i } else { i + 1 };
                let jj = if j < k { j } else { j + 1 };
                assert(a2[i] == a[ii] && a2[j] == a[jj]);
            }
            assert forall|i: int| 0 <= i < a2.len() implies (#[trigger] stake_lookup(rest, a2[i])) is Some by {
                let ii = if i < k { i } else { i + 1 };
                assert(a2[i] == a[ii]);
                assert(stake_lookup(entries, a[ii]) is Some);
                lemma_lookup_drop_first(entries, a2[i]);
            }
            lemma_members_weight_bounded(a2, rest);
        } else {
            assert forall|i: int| 0 <= i < a.len() implies member_stake(entries)(#[trigger] a[i])
                == member_stake(rest)(a[i]) by {
                lemma_lookup_drop_first(entries, a[i]);
            }
            lemma_sum_congruent(a, member_stake(entries), member_stake(rest));
            assert forall|i: int| 0 <= i < a.len() implies (#[trigger] stake_lookup(rest, a[i])) is Some by {
                assert(stake_lookup(entries, a[i]) is Some);
                lemma_lookup_drop_first(entries, a[i]);
            }
            lemma_members_weight_bounded(a, rest);
        }
    }
}

/// A certificate that checks carries strictly more than two thirds of the
/// set's total stake; one with at most two thirds never checks.
pub proof fn lemma_certificate_beyond_two_thirds(
    attestors: Seq<ValidatorId>,
    weight: u128,
    entries: Seq<(ValidatorId, ValidatorStake)>,
)
    ensures
        certifies(attestors, weight, entries) ==> 3 * weight > 2 * total_of(entries),
        3 * weight <= 2 * total_of(entries) ==> !certifies(attestors, weight, entries),
{
    lemma_threshold_beyond_two_thirds(total_of(entries));
}

/// Quorum intersection: two certificates that both check against a set share
/// an attestor. So no batch can be certified for two digests unless some
/// validator attested both.
pub proof fn lemma_quorums_intersect(
    a: Seq<ValidatorId>,
    wa: u128,
    b: Seq<ValidatorId>,
    wb: u128,
    entries: Seq<(ValidatorId, ValidatorStake)>,
)
    requires
        certifies(a, wa, entries),
        certifies(b, wb, entries),
    ensures
        exists|i: int, j: int| 0 <= i < a.len() && 0 <= j < b.len() && a[i] == b[j],
{
    if !exists|i: int, j: int| 0 <= i < a.len() && 0 <= j < b.len() && a[i] == b[j] {
        let both = a + b;
        assert forall|i: int, j: int| 0 <= i < j < both.len() implies both[i] != both[j] by {
            if j < a.len() {
            } else if i >= a.len() {
                assert(both[i] == b[i - a.len()] && both[j] == b[j - a.len()]);
            } else {
                assert(both[i] == a[i] && both[j] == b[j - a.len()]);
            }
        }
        assert forall|i: int| 0 <= i < both.len() implies (#[trigger] stake_lookup(entries, both[i])) is Some by {
            if i < a.len() {
                assert(both[i] == a[i]);
            } else {
                assert(both[i] == b[i - a.len()]);
            }
        }
        crate::sums::lemma_sum_concat(a, b, member_stake(entries));
        lemma_members_weight_bounded(both, entries);
        let t = total_of(entries);
        assert(t * 2 / 3 + 1 + t * 2 / 3 + 1 > t);
    }
}

} // verus!
