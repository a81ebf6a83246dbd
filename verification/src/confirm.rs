//! The leader confirmation engine.
//!
//! For every voter chain the caller reports the chain's vote at the level
//! under evaluation, as the voted proposer block and the vote's depth. The
//! engine groups the votes by candidate block, gates on a 3/5 supermajority
//! of chains having voted, turns each vote's depth into the probability that
//! an adversary of the assumed power could still erase it, and from those
//! probabilities a lower confidence bound (LCB) on the irrevocable support
//! of each candidate. A leader is declared only when neither a hidden block
//! nor any visible competitor could still reach the best candidate's bound.
//!
//! The two Poisson queries of the catch-up model, the cumulative
//! distribution and the mass function of the adversary's expected secret
//! depth, are transcendental and are supplied by the caller as fixed-point
//! tables indexed by the integer argument (`cdf_ppb[x]` and `pmf_ppb[k]`,
//! both in parts per billion). Everything the decision does with those
//! values is computed and proved here, for every possible table.

use vstd::prelude::*;
use crate::fixed::{
    PPB, add_sat, add_sat64, clamp_ppb, clamp_to_ppb, isqrt, mul_ppb, mul_ppb_sat, pow_ppb,
    pow_ppb_sat, sqrt_floor,
};
use crate::hash::H256;
use crate::ledger::contains_id;

verus! {

/// The number of voter chains must fit the protocol's 16-bit chain count.
pub const MAX_CHAINS: u64 = 65535;

/// Depth of a single vote accepted by the engine; deeper votes would
/// overflow the fixed-point accounting and are a caller error.
pub const MAX_DEPTH: u64 = 1_073_741_824;

/// One voter chain's vote at the level under evaluation: the voted proposer
/// block, and how many voter blocks were mined on that chain after the vote.
#[derive(Clone, Copy, Debug, PartialEq, Eq, Structural)]
pub struct Vote {
    pub block: H256,
    pub depth: u64,
}

/// A vote the engine accepts: its depth is within bounds.
pub open spec fn vote_admissible(ov: Option<Vote>) -> bool {
    match ov {
        Some(v) => v.depth <= MAX_DEPTH,
        None => true,
    }
}

/// Admissible input: at most [`MAX_CHAINS`] chains, all depths in bounds.
pub open spec fn votes_ok(votes: Seq<Option<Vote>>) -> bool {
    &&& votes.len() <= MAX_CHAINS
    &&& forall|i: int| 0 <= i < votes.len() ==> vote_admissible(#[trigger] votes[i])
}

/// The Poisson tables reach past this vote's depth: `cdf_ppb` is consulted
/// at `depth + 1` and `pmf_ppb` below `depth`.
pub open spec fn vote_covered(ov: Option<Vote>, cdf: Seq<u64>, pmf: Seq<u64>) -> bool {
    match ov {
        Some(v) => v.depth + 2 <= cdf.len() && v.depth + 2 <= pmf.len(),
        None => true,
    }
}

/// The Poisson tables cover every vote of the input.
pub open spec fn tables_cover(votes: Seq<Option<Vote>>, cdf: Seq<u64>, pmf: Seq<u64>) -> bool {
    forall|i: int| 0 <= i < votes.len() ==> vote_covered(#[trigger] votes[i], cdf, pmf)
}

/// How many chains voted at all.
pub open spec fn total_count(votes: Seq<Option<Vote>>) -> int
    decreases votes.len(),
{
    if votes.len() == 0 {
        0
    } else {
        total_count(votes.drop_last()) + match votes.last() {
            Some(_) => 1int,
            None => 0int,
        }
    }
}

/// The sum of all reported vote depths.
pub open spec fn total_blocks(votes: Seq<Option<Vote>>) -> int
    decreases votes.len(),
{
    if votes.len() == 0 {
        0
    } else {
        total_blocks(votes.drop_last()) + match votes.last() {
            Some(v) => v.depth as int,
            None => 0int,
        }
    }
}

/// The candidate blocks, in order of first vote, each once.
pub open spec fn candidates(votes: Seq<Option<Vote>>) -> Seq<H256>
    decreases votes.len(),
{
    if votes.len() == 0 {
        Seq::empty()
    } else {
        let rest = candidates(votes.drop_last());
        match votes.last() {
            Some(v) => if rest.contains(v.block) {
                rest
            } else {
                rest.push(v.block)
            },
            None => rest,
        }
    }
}

/// The depths of the votes cast on block `b`, in chain order.
pub open spec fn depths_for(votes: Seq<Option<Vote>>, b: H256) -> Seq<u64>
    decreases votes.len(),
{
    if votes.len() == 0 {
        Seq::empty()
    } else {
        let rest = depths_for(votes.drop_last(), b);
        match votes.last() {
            Some(v) => if v.block == b {
                rest.push(v.depth)
            } else {
                rest
            },
            None => rest,
        }
    }
}

/// The catch-up ratio `adv / (1 - adv)` in parts per billion: the odds that
/// the adversary mines the next block.
pub open spec fn catchup_base(adv: int) -> int {
    adv * (PPB as int) / (PPB as int - adv)
}

/// One term of the race sum: the probability that the adversary has mined
/// exactly `k` blocks (from the supplied mass table) times the catch-up
/// probability over the remaining `d - k` block deficit.
pub open spec fn race_term(pmf: Seq<u64>, base: int, d: int, k: int) -> int {
    mul_ppb_sat(clamp_ppb(pmf[k] as int), pow_ppb_sat(base, (d - k + 1) as nat))
}

/// The reversal probability of a vote at depth `d` after the first `j` race
/// terms: it starts from the tail mass past `d + 1` (one minus the supplied
/// cumulative table) and accumulates the race terms, saturating.
pub open spec fn p_partial(cdf: Seq<u64>, pmf: Seq<u64>, base: int, d: int, j: int) -> int
    decreases j,
{
    if j <= 0 {
        PPB as int - clamp_ppb(cdf[d + 1] as int)
    } else {
        add_sat64(p_partial(cdf, pmf, base, d, j - 1), race_term(pmf, base, d, j - 1))
    }
}

/// The probability, in parts per billion, that the adversary can still
/// erase a single vote at depth `d`. With no assumed adversary power, or
/// with no voter block mined after any vote, the adversary's expected
/// secret depth is zero and no vote can be erased.
pub open spec fn vote_p(cdf: Seq<u64>, pmf: Seq<u64>, adv: int, tvb: int, d: int) -> int {
    if adv == 0 || tvb == 0 {
        0
    } else {
        let p = p_partial(cdf, pmf, catchup_base(adv), d, d);
        if p > PPB as int {
            PPB as int
        } else {
            p
        }
    }
}

/// The expected number of unrevertable votes among depths `ds`, in parts
/// per billion: the sum of `1 - p` over the votes.
pub open spec fn mean_ppb(ds: Seq<u64>, cdf: Seq<u64>, pmf: Seq<u64>, adv: int, tvb: int) -> int
    decreases ds.len(),
{
    if ds.len() == 0 {
        0
    } else {
        mean_ppb(ds.drop_last(), cdf, pmf, adv, tvb) + (PPB as int - vote_p(
            cdf,
            pmf,
            adv,
            tvb,
            ds.last() as int,
        ))
    }
}

/// The variance of that count: the sum of the independent Bernoulli
/// variances `p * (1 - p)`, in squared parts per billion.
pub open spec fn var_ppb2(ds: Seq<u64>, cdf: Seq<u64>, pmf: Seq<u64>, adv: int, tvb: int) -> int
    decreases ds.len(),
{
    if ds.len() == 0 {
        0
    } else {
        let p = vote_p(cdf, pmf, adv, tvb, ds.last() as int);
        var_ppb2(ds.drop_last(), cdf, pmf, adv, tvb) + p * (PPB as int - p)
    }
}

/// The Gaussian lower confidence bound on the unrevertable votes among
/// depths `ds`: the mean minus `quantile` standard deviations, floored at
/// zero.
pub open spec fn lcb_ppb(
    ds: Seq<u64>,
    cdf: Seq<u64>,
    pmf: Seq<u64>,
    adv: int,
    tvb: int,
    q: int,
) -> int {
    let m = mean_ppb(ds, cdf, pmf, adv, tvb);
    let margin = q * (sqrt_floor(var_ppb2(ds, cdf, pmf, adv, tvb) as nat) as int) / (PPB as int);
    if m > margin {
        m - margin
    } else {
        0
    }
}

/// The lower confidence bound of candidate `b` under the whole input.
pub open spec fn block_lcb_of(
    votes: Seq<Option<Vote>>,
    b: H256,
    cdf: Seq<u64>,
    pmf: Seq<u64>,
    adv: int,
    q: int,
) -> int {
    lcb_ppb(depths_for(votes, b), cdf, pmf, adv, total_blocks(votes), q)
}

/// The running state of the scan over the candidates: the best bound seen,
/// the tentative leader, and the sum of all bounds.
pub ghost struct ScanState {
    pub maxv: int,
    pub leader: Option<H256>,
    pub total: int,
}

/// Scan the candidates in order: a strictly larger bound takes the lead,
/// and an exact tie goes to the smaller identifier.
pub open spec fn scan_candidates(
    cands: Seq<H256>,
    votes: Seq<Option<Vote>>,
    cdf: Seq<u64>,
    pmf: Seq<u64>,
    adv: int,
    q: int,
) -> ScanState
    decreases cands.len(),
{
    if cands.len() == 0 {
        ScanState { maxv: 0, leader: None, total: 0 }
    } else {
        let st = scan_candidates(cands.drop_last(), votes, cdf, pmf, adv, q);
        let c = cands.last();
        let l = block_lcb_of(votes, c, cdf, pmf, adv, q);
        let m1 = if st.maxv < l {
            l
        } else {
            st.maxv
        };
        let ld1 = if st.maxv < l {
            Some(c)
        } else {
            st.leader
        };
        let ld2 = match ld1 {
            Some(cur) => if m1 == l && H256::spec_lt(c, cur) {
                Some(c)
            } else {
                ld1
            },
            None => ld1,
        };
        ScanState { maxv: m1, leader: ld2, total: st.total + l }
    }
}

/// The vote mass, in parts per billion, not pinned to any visible
/// candidate: what a block the engine has not observed could still gather.
pub open spec fn remaining_ppb(n: int, total: int) -> int {
    if total <= n * (PPB as int) {
        n * (PPB as int) - total
    } else {
        0
    }
}

/// Candidate `i` could still deny the tentative leader: its bound plus the
/// unpinned mass reaches past the best bound, or reaches it exactly while
/// the candidate has the smaller identifier.
pub open spec fn challenger_at(
    votes: Seq<Option<Vote>>,
    cands: Seq<H256>,
    cdf: Seq<u64>,
    pmf: Seq<u64>,
    adv: int,
    q: int,
    ld: H256,
    maxv: int,
    rem: int,
    i: int,
) -> bool {
    let l = block_lcb_of(votes, cands[i], cdf, pmf, adv, q);
    (maxv < l + rem && cands[i] != ld) || (maxv == l + rem && H256::spec_lt(cands[i], ld))
}

/// Some visible candidate could still deny the tentative leader.
pub open spec fn some_challenger(
    votes: Seq<Option<Vote>>,
    cands: Seq<H256>,
    cdf: Seq<u64>,
    pmf: Seq<u64>,
    adv: int,
    q: int,
    ld: H256,
    maxv: int,
    rem: int,
) -> bool {
    exists|i: int|
        0 <= i < cands.len() && challenger_at(votes, cands, cdf, pmf, adv, q, ld, maxv, rem, i)
}

/// What [`confirm_leader`] returns: `None` unless more than `3/5` of the
/// chains voted; otherwise the candidate with the best lower confidence
/// bound (ties to the smaller identifier), provided neither the unpinned
/// vote mass nor any visible competitor could still reach that bound.
pub open spec fn spec_confirm_leader(
    votes: Seq<Option<Vote>>,
    cdf: Seq<u64>,
    pmf: Seq<u64>,
    q: int,
    adv: int,
) -> Option<H256> {
    let n = votes.len() as int;
    let tc = total_count(votes);
    if tc <= n * 3 / 5 {
        None
    } else {
        let cands = candidates(votes);
        let st = scan_candidates(cands, votes, cdf, pmf, adv, q);
        let rem = remaining_ppb(n, st.total);
        match st.leader {
            None => None,
            Some(ld) => if st.maxv <= rem {
                None
            } else if some_challenger(votes, cands, cdf, pmf, adv, q, ld, st.maxv, rem) {
                None
            } else {
                Some(ld)
            },
        }
    }
}

/// Group the votes: the distinct candidate blocks in order of first vote,
/// the number of chains that voted, and the sum of all vote depths.
#[verifier::loop_isolation(false)]
pub fn tally_votes(votes: &Vec<Option<Vote>>) -> (r: (Vec<H256>, u64, u64))
    requires
        votes_ok(votes@),
    ensures
        r.0@ == candidates(votes@),
        r.1 as int == total_count(votes@),
        r.2 as int == total_blocks(votes@),
{
    let mut cands: Vec<H256> = Vec::new();
    let mut tc: u64 = 0;
    let mut tvb: u64 = 0;
    let mut i: usize = 0;
    while i < votes.len()
        invariant
            votes_ok(votes@),
            i <= votes@.len(),
            cands@ == candidates(votes@.subrange(0, i as int)),
            tc as int == total_count(votes@.subrange(0, i as int)),
            tvb as int == total_blocks(votes@.subrange(0, i as int)),
            tc as int <= i as int,
            tvb as int <= i as int * MAX_DEPTH as int,
        decreases votes@.len() - i,
    {
        proof {
            assert(votes@.subrange(0, i as int + 1).drop_last() =~= votes@.subrange(0, i as int));
            assert(votes@.subrange(0, i as int + 1).last() == votes@[i as int]);
            assert(vote_admissible(votes@[i as int]));
        }
        if let Some(v) = votes[i] {
            if !contains_id(&cands, &v.block) {
                cands.push(v.block);
            }
            tc = tc + 1;
            tvb = tvb + v.depth;
        }
        i = i + 1;
    }
    proof {
        assert(votes@.subrange(0, votes@.len() as int) =~= votes@);
    }
    (cands, tc, tvb)
}

/// The depths of the votes cast on `b`, in chain order.
#[verifier::loop_isolation(false)]
pub fn collect_depths(votes: &Vec<Option<Vote>>, b: &H256) -> (r: Vec<u64>)
    ensures
        r@ == depths_for(votes@, *b),
{
    let mut ds: Vec<u64> = Vec::new();
    let mut i: usize = 0;
    while i < votes.len()
        invariant
            i <= votes@.len(),
            ds@ == depths_for(votes@.subrange(0, i as int), *b),
        decreases votes@.len() - i,
    {
        proof {
            assert(votes@.subrange(0, i as int + 1).drop_last() =~= votes@.subrange(0, i as int));
            assert(votes@.subrange(0, i as int + 1).last() == votes@[i as int]);
        }
        if let Some(v) = votes[i] {
            if v.block == *b {
                ds.push(v.depth);
            }
        }
        i = i + 1;
    }
    proof {
        assert(votes@.subrange(0, votes@.len() as int) =~= votes@);
    }
    ds
}

/// The probability that the adversary can still erase one vote at depth
/// `d`, in parts per billion, from the supplied Poisson tables.
#[verifier::loop_isolation(false)]
fn vote_revert_p(cdf: &Vec<u64>, pmf: &Vec<u64>, adv: u64, tvb: u64, d: u64) -> (r: u64)
    requires
        adv < PPB,
        d <= MAX_DEPTH,
        adv > 0 && tvb > 0 ==> d + 2 <= cdf@.len() && d + 2 <= pmf@.len(),
    ensures
        r as int == vote_p(cdf@, pmf@, adv as int, tvb as int, d as int),
        r <= PPB,
{
    if adv == 0 || tvb == 0 {
        return 0;
    }
    let base: u64 = adv * PPB / (PPB - adv);
    let c = clamp_to_ppb(cdf[(d + 1) as usize]);
    let mut p: u64 = PPB - c;
    let mut k: u64 = 0;
    while k < d
        invariant
            adv > 0,
            adv < PPB,
            d <= MAX_DEPTH,
            d + 2 <= cdf@.len(),
            d + 2 <= pmf@.len(),
            base as int == catchup_base(adv as int),
            k <= d,
            p as int == p_partial(cdf@, pmf@, base as int, d as int, k as int),
        decreases d - k,
    {
        let pw = pow_ppb(base, d - k + 1);
        let t = mul_ppb(clamp_to_ppb(pmf[k as usize]), pw);
        p = add_sat(p, t);
        k = k + 1;
    }
    if p > PPB {
        PPB
    } else {
        p
    }
}

/// The lower confidence bound on the unrevertable votes among `ds`.
#[verifier::loop_isolation(false)]
fn block_lcb(cdf: &Vec<u64>, pmf: &Vec<u64>, adv: u64, tvb: u64, q: u64, ds: &Vec<u64>) -> (r: u64)
    requires
        adv < PPB,
        ds@.len() <= MAX_CHAINS,
        forall|i: int| 0 <= i < ds@.len() ==> #[trigger] ds@[i] <= MAX_DEPTH,
        adv > 0 && tvb > 0 ==> forall|i: int|
            0 <= i < ds@.len() ==> #[trigger] ds@[i] + 2 <= cdf@.len() && ds@[i] + 2 <= pmf@.len(),
    ensures
        r as int == lcb_ppb(ds@, cdf@, pmf@, adv as int, tvb as int, q as int),
        r as int <= ds@.len() * PPB as int,
{
    let mut mean: u64 = 0;
    let mut var: u128 = 0;
    let mut i: usize = 0;
    while i < ds.len()
        invariant
            adv < PPB,
            ds@.len() <= MAX_CHAINS,
            forall|j: int| 0 <= j < ds@.len() ==> #[trigger] ds@[j] <= MAX_DEPTH,
            adv > 0 && tvb > 0 ==> forall|j: int|
                0 <= j < ds@.len() ==> #[trigger] ds@[j] + 2 <= cdf@.len() && ds@[j] + 2
                    <= pmf@.len(),
            i <= ds@.len(),
            mean as int == mean_ppb(ds@.subrange(0, i as int), cdf@, pmf@, adv as int, tvb as int),
            var as int == var_ppb2(ds@.subrange(0, i as int), cdf@, pmf@, adv as int, tvb as int),
            mean as int <= i as int * PPB as int,
            var as int <= i as int * (PPB as int * PPB as int),
        decreases ds@.len() - i,
    {
        proof {
            assert(ds@.subrange(0, i as int + 1).drop_last() =~= ds@.subrange(0, i as int));
            assert(ds@.subrange(0, i as int + 1).last() == ds@[i as int]);
        }
        let p = vote_revert_p(cdf, pmf, adv, tvb, ds[i]);
        proof {
            assert((p as int) * (PPB as int - p as int) <= PPB as int * PPB as int)
                by (nonlinear_arith)
                requires
                    0 <= p as int <= PPB as int,
            ;
            assert((p as int) * (PPB as int - p as int) >= 0) by (nonlinear_arith)
                requires
                    0 <= p as int <= PPB as int,
            ;
        }
        mean = mean + (PPB - p);
        var = var + (p as u128) * ((PPB - p) as u128);
        i = i + 1;
    }
    proof {
        assert(ds@.subrange(0, ds@.len() as int) =~= ds@);
    }
    let s = isqrt(var);
    proof {
        assert((q as int) * (s as int) < u128::MAX as int) by (nonlinear_arith)
            requires
                q as int <= u64::MAX as int,
                s as int <= u64::MAX as int,
        ;
    }
    let margin: u128 = (q as u128) * (s as u128) / (PPB as u128);
    if (mean as u128) > margin {
        mean - (margin as u64)
    } else {
        0
    }
}

/// Every depth that [`depths_for`] extracts comes from a vote of the input,
/// so the input's bounds and table coverage carry over to it.
proof fn lemma_depths_for_props(votes: Seq<Option<Vote>>, b: H256, cdf: Seq<u64>, pmf: Seq<u64>)
    requires
        votes_ok(votes),
    ensures
        depths_for(votes, b).len() <= votes.len(),
        forall|i: int|
            0 <= i < depths_for(votes, b).len() ==> #[trigger] depths_for(votes, b)[i]
                <= MAX_DEPTH,
        tables_cover(votes, cdf, pmf) ==> forall|i: int|
            0 <= i < depths_for(votes, b).len() ==> #[trigger] depths_for(votes, b)[i] + 2
                <= cdf.len() && depths_for(votes, b)[i] + 2 <= pmf.len(),
    decreases votes.len(),
{
    if votes.len() > 0 {
        let prefix = votes.drop_last();
        assert(votes_ok(prefix)) by {
            assert(forall|i: int|
                0 <= i < prefix.len() ==> #[trigger] prefix[i] == votes[i]);
        }
        assert(tables_cover(votes, cdf, pmf) ==> tables_cover(prefix, cdf, pmf)) by {
            assert(forall|i: int|
                0 <= i < prefix.len() ==> #[trigger] prefix[i] == votes[i]);
        }
        lemma_depths_for_props(prefix, b, cdf, pmf);
        assert(vote_admissible(votes[votes.len() - 1]));
        assert(tables_cover(votes, cdf, pmf) ==> vote_covered(
            votes[votes.len() - 1],
            cdf,
            pmf,
        ));
    }
}

/// The number of candidates never exceeds the number of chains that voted.
pub proof fn lemma_candidates_len(votes: Seq<Option<Vote>>)
    ensures
        candidates(votes).len() <= total_count(votes),
        total_count(votes) <= votes.len(),
        0 <= total_count(votes),
    decreases votes.len(),
{
    if votes.len() > 0 {
        lemma_candidates_len(votes.drop_last());
    }
}

/// Confirm the leader at a level, or return `None` while the votes leave
/// the outcome open.
///
/// `votes` reports, chain by chain, the chain's vote at the level, if any.
/// `quantile_ppb` is the Gaussian safety margin in standard deviations and
/// `adversary_ppb` the assumed adversary power ratio, both in parts per
/// billion. `cdf_ppb[x]` and `pmf_ppb[k]` are the cumulative distribution
/// and mass of a Poisson variable at the adversary's expected secret depth
/// `total_blocks * adversary / (total_count * (1 - adversary))`, in parts
/// per billion; they must cover every reported depth `d` up to `d + 1`.
/// The result is a pure function of these inputs.
#[verifier::loop_isolation(false)]
pub fn confirm_leader(
    votes: &Vec<Option<Vote>>,
    quantile_ppb: u64,
    adversary_ppb: u64,
    cdf_ppb: &Vec<u64>,
    pmf_ppb: &Vec<u64>,
) -> (r: Option<H256>)
    requires
        votes_ok(votes@),
        adversary_ppb < PPB,
        adversary_ppb > 0 ==> tables_cover(votes@, cdf_ppb@, pmf_ppb@),
    ensures
        r == spec_confirm_leader(
            votes@,
            cdf_ppb@,
            pmf_ppb@,
            quantile_ppb as int,
            adversary_ppb as int,
        ),
{
    let tallied = tally_votes(votes);
    let cands = tallied.0;
    let tc = tallied.1;
    let tvb = tallied.2;
    let n = votes.len() as u64;
    if tc <= n * 3 / 5 {
        return None;
    }
    proof {
        lemma_candidates_len(votes@);
    }
    let ghost gq = quantile_ppb as int;
    let ghost gadv = adversary_ppb as int;
    let mut lcbs: Vec<u64> = Vec::new();
    let mut maxv: u64 = 0;
    let mut leader: Option<H256> = None;
    let mut total: u128 = 0;
    let mut j: usize = 0;
    while j < cands.len()
        invariant
            votes_ok(votes@),
            adversary_ppb < PPB,
            adversary_ppb > 0 ==> tables_cover(votes@, cdf_ppb@, pmf_ppb@),
            cands@ == candidates(votes@),
            tvb as int == total_blocks(votes@),
            cands@.len() <= votes@.len(),
            j <= cands@.len(),
            lcbs@.len() == j,
            forall|k: int|
                0 <= k < j ==> lcbs@[k] as int == block_lcb_of(
                    votes@,
                    cands@[k],
                    cdf_ppb@,
                    pmf_ppb@,
                    gadv,
                    gq,
                ),
            maxv as int == scan_candidates(
                cands@.subrange(0, j as int),
                votes@,
                cdf_ppb@,
                pmf_ppb@,
                gadv,
                gq,
            ).maxv,
            leader == scan_candidates(
                cands@.subrange(0, j as int),
                votes@,
                cdf_ppb@,
                pmf_ppb@,
                gadv,
                gq,
            ).leader,
            total as int == scan_candidates(
                cands@.subrange(0, j as int),
                votes@,
                cdf_ppb@,
                pmf_ppb@,
                gadv,
                gq,
            ).total,
            total as int <= j as int * (u64::MAX as int),
        decreases cands@.len() - j,
    {
        proof {
            assert(cands@.subrange(0, j as int + 1).drop_last() =~= cands@.subrange(0, j as int));
            assert(cands@.subrange(0, j as int + 1).last() == cands@[j as int]);
            lemma_depths_for_props(votes@, cands@[j as int], cdf_ppb@, pmf_ppb@);
            lemma_candidates_len(votes@);
        }
        let c = cands[j];
        let ds = collect_depths(votes, &c);
        let l = block_lcb(cdf_ppb, pmf_ppb, adversary_ppb, tvb, quantile_ppb, &ds);
        lcbs.push(l);
        if maxv < l {
            maxv = l;
            leader = Some(c);
        }
        if maxv == l {
            if let Some(cur) = leader {
                if H256::lt(&c, &cur) {
                    leader = Some(c);
                }
            }
        }
        total = total + l as u128;
        j = j + 1;
    }
    proof {
        assert(cands@.subrange(0, cands@.len() as int) =~= cands@);
    }
    let ghost st = scan_candidates(cands@, votes@, cdf_ppb@, pmf_ppb@, gadv, gq);
    let capn: u128 = (n as u128) * (PPB as u128);
    let rem: u128 = if total <= capn {
        capn - total
    } else {
        0
    };
    proof {
        assert(rem as int == remaining_ppb(votes@.len() as int, st.total));
    }
    let ld = match leader {
        Some(ld) => ld,
        None => {
            return None;
        },
    };
    if (maxv as u128) <= rem {
        return None;
    }
    let mut j: usize = 0;
    while j < cands.len()
        invariant
            cands@ == candidates(votes@),
            lcbs@.len() == cands@.len(),
            forall|k: int|
                0 <= k < cands@.len() ==> lcbs@[k] as int == block_lcb_of(
                    votes@,
                    cands@[k],
                    cdf_ppb@,
                    pmf_ppb@,
                    gadv,
                    gq,
                ),
            j <= cands@.len(),
            maxv as int == st.maxv,
            st.leader == Some(ld),
            rem as int == remaining_ppb(votes@.len() as int, st.total),
            forall|k: int|
                0 <= k < j ==> !challenger_at(
                    votes@,
                    cands@,
                    cdf_ppb@,
                    pmf_ppb@,
                    gadv,
                    gq,
                    ld,
                    st.maxv,
                    rem as int,
                    k,
                ),
        decreases cands@.len() - j,
    {
        let l = lcbs[j];
        let c = cands[j];
        if (maxv as u128) < (l as u128) + rem && c != ld {
            proof {
                assert(challenger_at(
                    votes@,
                    cands@,
                    cdf_ppb@,
                    pmf_ppb@,
                    gadv,
                    gq,
                    ld,
                    st.maxv,
                    rem as int,
                    j as int,
                ));
            }
            return None;
        }
        if (maxv as u128) == (l as u128) + rem && H256::lt(&c, &ld) {
            proof {
                assert(challenger_at(
                    votes@,
                    cands@,
                    cdf_ppb@,
                    pmf_ppb@,
                    gadv,
                    gq,
                    ld,
                    st.maxv,
                    rem as int,
                    j as int,
                ));
            }
            return None;
        }
        j = j + 1;
    }
    proof {
        assert(!some_challenger(
            votes@,
            cands@,
            cdf_ppb@,
            pmf_ppb@,
            gadv,
            gq,
            ld,
            st.maxv,
            rem as int,
        ));
    }
    Some(ld)
}

} // verus!

