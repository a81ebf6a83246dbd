//! The consensus state snapshot: voter-chain tips, the proposer tip, the set
//! of proposer blocks not yet placed into the ledger, and the per-level
//! leader and ledger-order records.

use vstd::prelude::*;
use crate::hash::H256;

verus! {

/// A snapshot of the consensus state.
///
/// `leader_sequence[level]` is `Some(id)` once that level's leader is
/// irrevocably confirmed; no operation overwrites or clears a `Some` entry.
/// `ledger_order[level]` is the ordered list of transaction-block identifiers
/// derived from that level's confirmed leader, once computed.
pub struct LedgerIndex {
    voter_tips: Vec<H256>,
    proposer_tip: H256,
    unconfirmed_proposer: Vec<H256>,
    leader_sequence: Vec<Option<H256>>,
    ledger_order: Vec<Option<Vec<H256>>>,
}

/// `v` holds no identifier twice: it represents a set.
pub open spec fn distinct_ids(v: Seq<H256>) -> bool {
    forall|i: int, j: int| 0 <= i < j < v.len() ==> v[i] != v[j]
}

/// Whether `v` holds `h`.
pub fn contains_id(v: &Vec<H256>, h: &H256) -> (r: bool)
    ensures
        r == v@.contains(*h),
{
    let mut i: usize = 0;
    while i < v.len()
        invariant
            i <= v@.len(),
            forall|k: int| 0 <= k < i ==> v@[k] != *h,
        decreases v@.len() - i,
    {
        if v[i] == *h {
            return true;
        }
        i = i + 1;
    }
    false
}

impl LedgerIndex {
    /// The unconfirmed proposer blocks hold no identifier twice.
    pub closed spec fn wf(&self) -> bool {
        distinct_ids(self.unconfirmed_proposer@)
    }

    pub closed spec fn spec_voter_tips(&self) -> Seq<H256> {
        self.voter_tips@
    }

    pub closed spec fn spec_proposer_tip(&self) -> H256 {
        self.proposer_tip
    }

    pub closed spec fn spec_unconfirmed(&self) -> Set<H256> {
        self.unconfirmed_proposer@.to_set()
    }

    pub closed spec fn spec_leader_sequence(&self) -> Seq<Option<H256>> {
        self.leader_sequence@
    }

    pub closed spec fn spec_ledger_order(&self) -> Seq<Option<Vec<H256>>> {
        self.ledger_order@
    }

    /// Build a snapshot from explicit, already-validated inputs. The
    /// unconfirmed identifiers are taken as a set: a duplicate in the input
    /// is kept once.
    pub fn new(
        proposer_tip: H256,
        voter_tips: Vec<H256>,
        unconfirmed: Vec<H256>,
        leader_sequence: Vec<Option<H256>>,
        ledger_order: Vec<Option<Vec<H256>>>,
    ) -> (r: LedgerIndex)
        ensures
            r.wf(),
            r.spec_proposer_tip() == proposer_tip,
            r.spec_voter_tips() == voter_tips@,
            r.spec_unconfirmed() == unconfirmed@.to_set(),
            r.spec_leader_sequence() == leader_sequence@,
            r.spec_ledger_order() == ledger_order@,
    {
        let mut dedup: Vec<H256> = Vec::new();
        let mut i: usize = 0;
        while i < unconfirmed.len()
            invariant
                i <= unconfirmed@.len(),
                distinct_ids(dedup@),
                dedup@.to_set() == unconfirmed@.subrange(0, i as int).to_set(),
            decreases unconfirmed@.len() - i,
        {
            let h = unconfirmed[i];
            let ghost pre = dedup@;
            if !contains_id(&dedup, &h) {
                dedup.push(h);
            }
            proof {
                assert(unconfirmed@.subrange(0, i + 1).drop_last() =~= unconfirmed@.subrange(
                    0,
                    i as int,
                ));
                lemma_to_set_push(unconfirmed@.subrange(0, i + 1));
                if pre.contains(h) {
                    assert(dedup@.to_set() =~= pre.to_set().insert(h));
                } else {
                    assert(dedup@.drop_last() =~= pre);
                    lemma_to_set_push(dedup@);
                }
            }
            i = i + 1;
        }
        proof {
            assert(unconfirmed@.subrange(0, unconfirmed@.len() as int) =~= unconfirmed@);
        }
        LedgerIndex {
            voter_tips,
            proposer_tip,
            unconfirmed_proposer: dedup,
            leader_sequence,
            ledger_order,
        }
    }

    /// Record a proposer block identifier as seen but not yet placed into
    /// the ledger. Inserting an identifier that is already recorded is a
    /// no-op; no other field is touched, so in particular every confirmed
    /// leader entry stays exactly as it was.
    pub fn insert_unconfirmed(&mut self, hash: H256)
        requires
            old(self).wf(),
        ensures
            final(self).wf(),
            final(self).spec_unconfirmed() == old(self).spec_unconfirmed().insert(hash),
            final(self).spec_voter_tips() == old(self).spec_voter_tips(),
            final(self).spec_proposer_tip() == old(self).spec_proposer_tip(),
            final(self).spec_leader_sequence() == old(self).spec_leader_sequence(),
            final(self).spec_ledger_order() == old(self).spec_ledger_order(),
    {
        let ghost pre = self.unconfirmed_proposer@;
        if !contains_id(&self.unconfirmed_proposer, &hash) {
            self.unconfirmed_proposer.push(hash);
        }
        proof {
            if pre.contains(hash) {
                assert(self.unconfirmed_proposer@.to_set() =~= pre.to_set().insert(hash));
            } else {
                assert(pre.push(hash).drop_last() =~= pre);
                lemma_to_set_push(pre.push(hash));
            }
        }
    }

    /// The confirmed leader at `level`, or `None` when the level is not yet
    /// confirmed or lies beyond the recorded sequence.
    pub fn leader_at(&self, level: usize) -> (r: Option<H256>)
        ensures
            level < self.spec_leader_sequence().len() ==> r == self.spec_leader_sequence()[level as int],
            level >= self.spec_leader_sequence().len() ==> r is None,
    {
        if level < self.leader_sequence.len() {
            self.leader_sequence[level]
        } else {
            None
        }
    }

    /// Whether `hash` is recorded as unconfirmed.
    pub fn is_unconfirmed(&self, hash: &H256) -> (r: bool)
        ensures
            r == self.spec_unconfirmed().contains(*hash),
    {
        contains_id(&self.unconfirmed_proposer, hash)
    }
}

/// Pushing an element onto a sequence adds exactly it to the set of elements.
proof fn lemma_to_set_push(v: Seq<H256>)
    requires
        v.len() > 0,
    ensures
        v.to_set() == v.drop_last().to_set().insert(v.last()),
{
    assert(v.to_set() =~= v.drop_last().to_set().insert(v.last())) by {
        assert forall|x: H256| v.to_set().contains(x) implies v.drop_last().to_set().contains(x)
            || x == v.last() by {
            let i = choose|i: int| 0 <= i < v.len() && v[i] == x;
            if i < v.len() - 1 {
                assert(v.drop_last()[i] == x);
            }
        }
        assert forall|x: H256| v.drop_last().to_set().contains(x) implies v.to_set().contains(
            x,
        ) by {
            let i = choose|i: int| 0 <= i < v.drop_last().len() && v.drop_last()[i] == x;
            assert(v[i] == x);
        }
        assert(v.to_set().contains(v.last()));
    }
}

/// Finality is irrevocable: a confirmed leader entry survives any operation
/// that leaves the leader sequence unchanged, which every operation of
/// [`LedgerIndex`] does.
pub proof fn lemma_finality_irrevocable(
    before: Seq<Option<H256>>,
    after: Seq<Option<H256>>,
    level: int,
    id: H256,
)
    requires
        after == before,
        0 <= level < before.len(),
        before[level] == Some(id),
    ensures
        after[level] == Some(id),
{
}

} // verus!
