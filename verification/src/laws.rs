//! The guarantees of the confirmation engine, stated and proved over the
//! specification model that [`crate::confirm::confirm_leader`] is proved to
//! compute.

use vstd::prelude::*;
use vstd::arithmetic::div_mod::lemma_div_is_ordered;
use vstd::arithmetic::mul::{lemma_mul_inequality, lemma_mul_nonnegative};
use crate::fixed::{PPB, clamp_ppb, sqrt_floor};
use crate::hash::H256;
use crate::confirm::{
    block_lcb_of, candidates, catchup_base, challenger_at, depths_for, lcb_ppb, mean_ppb,
    p_partial, remaining_ppb, scan_candidates, some_challenger, spec_confirm_leader, total_count,
    var_ppb2, vote_p, lemma_candidates_len,
};

verus! {

/// Threshold gate: whenever at most `3/5` of the voter chains cast a vote,
/// the engine returns `None`, regardless of the vote distribution, the
/// statistical parameters and the Poisson tables.
pub proof fn lemma_threshold_gate(
    votes: Seq<Option<crate::confirm::Vote>>,
    cdf: Seq<u64>,
    pmf: Seq<u64>,
    q: int,
    adv: int,
)
    requires
        total_count(votes) <= votes.len() as int * 3 / 5,
    ensures
        spec_confirm_leader(votes, cdf, pmf, q, adv) is None,
{
}

/// Empty input: with no voter chains at all, or with no vote cast at the
/// level, the engine returns `None`.
pub proof fn lemma_empty_input(
    votes: Seq<Option<crate::confirm::Vote>>,
    cdf: Seq<u64>,
    pmf: Seq<u64>,
    q: int,
    adv: int,
)
    requires
        votes.len() == 0 || total_count(votes) == 0,
    ensures
        spec_confirm_leader(votes, cdf, pmf, q, adv) is None,
{
    lemma_candidates_len(votes);
    assert(votes.len() as int * 3 >= 0);
    lemma_div_is_ordered(0, votes.len() as int * 3, 5);
}

/// The reversal probability of any single vote is a probability: it lies
/// in `[0, PPB]`, whatever the supplied tables hold.
pub proof fn lemma_vote_p_range(cdf: Seq<u64>, pmf: Seq<u64>, adv: int, tvb: int, d: int)
    requires
        0 <= adv < PPB as int,
    ensures
        0 <= vote_p(cdf, pmf, adv, tvb, d) <= PPB as int,
{
    if adv != 0 && tvb != 0 {
        lemma_mul_nonnegative(adv, PPB as int);
        lemma_div_is_ordered(0, adv * (PPB as int), PPB as int - adv);
        lemma_p_partial_nonneg(cdf, pmf, catchup_base(adv), d, d);
    }
}

/// Every partial reversal sum is non-negative.
proof fn lemma_p_partial_nonneg(cdf: Seq<u64>, pmf: Seq<u64>, base: int, d: int, j: int)
    requires
        0 <= base,
    ensures
        0 <= p_partial(cdf, pmf, base, d, j),
    decreases j,
{
    if j <= 0 {
    } else {
        lemma_p_partial_nonneg(cdf, pmf, base, d, j - 1);
        crate::fixed::lemma_pow_ppb_sat_bounds(base, (d - (j - 1) + 1) as nat);
        crate::fixed::lemma_mul_ppb_sat_bounds(
            clamp_ppb(pmf[j - 1] as int),
            crate::fixed::pow_ppb_sat(base, (d - (j - 1) + 1) as nat),
        );
    }
}

/// The mean support of a block never exceeds one whole vote per recorded
/// depth, and mean and variance are non-negative.
pub proof fn lemma_mean_var_bounds(ds: Seq<u64>, cdf: Seq<u64>, pmf: Seq<u64>, adv: int, tvb: int)
    requires
        0 <= adv < PPB as int,
    ensures
        0 <= mean_ppb(ds, cdf, pmf, adv, tvb) <= ds.len() as int * PPB as int,
        0 <= var_ppb2(ds, cdf, pmf, adv, tvb),
    decreases ds.len(),
{
    if ds.len() > 0 {
        lemma_mean_var_bounds(ds.drop_last(), cdf, pmf, adv, tvb);
        lemma_vote_p_range(cdf, pmf, adv, tvb, ds.last() as int);
        let p = vote_p(cdf, pmf, adv, tvb, ds.last() as int);
        lemma_mul_nonnegative(p, PPB as int - p);
    }
}

/// A lower confidence bound is never negative.
pub proof fn lemma_lcb_nonneg(ds: Seq<u64>, cdf: Seq<u64>, pmf: Seq<u64>, adv: int, tvb: int, q: int)
    ensures
        0 <= lcb_ppb(ds, cdf, pmf, adv, tvb, q),
{
}

/// Zero-adversary determinism: with no assumed adversary power every vote
/// is immediately unrevertable, so a block's lower confidence bound equals
/// its raw vote count exactly, with zero variance, for any quantile and any
/// tables.
pub proof fn lemma_zero_adversary(
    votes: Seq<Option<crate::confirm::Vote>>,
    b: H256,
    cdf: Seq<u64>,
    pmf: Seq<u64>,
    q: int,
)
    requires
        0 <= q,
    ensures
        block_lcb_of(votes, b, cdf, pmf, 0, q) == depths_for(votes, b).len() as int * PPB as int,
{
    let ds = depths_for(votes, b);
    let tvb = crate::confirm::total_blocks(votes);
    lemma_zero_adversary_sums(ds, cdf, pmf, tvb);
    assert(sqrt_floor(0nat) == 0) by {
        assert(0nat * 0nat <= 0nat) by (nonlinear_arith);
    }
    assert(q * ((sqrt_floor(0nat) as int)) == 0) by (nonlinear_arith);
    lemma_div_is_ordered(0, 0, PPB as int);
}

proof fn lemma_zero_adversary_sums(ds: Seq<u64>, cdf: Seq<u64>, pmf: Seq<u64>, tvb: int)
    ensures
        mean_ppb(ds, cdf, pmf, 0, tvb) == ds.len() as int * PPB as int,
        var_ppb2(ds, cdf, pmf, 0, tvb) == 0,
    decreases ds.len(),
{
    if ds.len() > 0 {
        lemma_zero_adversary_sums(ds.drop_last(), cdf, pmf, tvb);
    }
}

/// Monotonicity in adversary power, against the zero-power baseline: no
/// assumed adversary power can raise a block's lower confidence bound above
/// its zero-adversary value, the raw vote count.
pub proof fn lemma_adversary_weakens(
    votes: Seq<Option<crate::confirm::Vote>>,
    b: H256,
    cdf: Seq<u64>,
    pmf: Seq<u64>,
    adv: int,
    q: int,
)
    requires
        0 <= adv < PPB as int,
        0 <= q,
    ensures
        block_lcb_of(votes, b, cdf, pmf, adv, q) <= block_lcb_of(votes, b, cdf, pmf, 0, q),
{
    let ds = depths_for(votes, b);
    let tvb = crate::confirm::total_blocks(votes);
    lemma_zero_adversary(votes, b, cdf, pmf, q);
    lemma_mean_var_bounds(ds, cdf, pmf, adv, tvb);
    let m = mean_ppb(ds, cdf, pmf, adv, tvb);
    let s = sqrt_floor(var_ppb2(ds, cdf, pmf, adv, tvb) as nat) as int;
    lemma_mul_nonnegative(q, s);
    lemma_div_is_ordered(0, q * s, PPB as int);
}

/// Monotonicity in the quantile: a larger safety margin never increases
/// any block's lower confidence bound.
pub proof fn lemma_quantile_monotone(
    votes: Seq<Option<crate::confirm::Vote>>,
    b: H256,
    cdf: Seq<u64>,
    pmf: Seq<u64>,
    adv: int,
    q1: int,
    q2: int,
)
    requires
        0 <= q1 <= q2,
    ensures
        block_lcb_of(votes, b, cdf, pmf, adv, q2) <= block_lcb_of(votes, b, cdf, pmf, adv, q1),
{
    let ds = depths_for(votes, b);
    let tvb = crate::confirm::total_blocks(votes);
    let s = sqrt_floor(var_ppb2(ds, cdf, pmf, adv, tvb) as nat) as int;
    lemma_mul_inequality(q1, q2, s);
    lemma_div_is_ordered(q1 * s, q2 * s, PPB as int);
    lemma_mul_nonnegative(q1, s);
    lemma_div_is_ordered(0, q1 * s, PPB as int);
}

/// Tie-break determinism: the scan selects a candidate whose bound is the
/// maximum, and among the candidates that reach the maximum exactly, no one
/// has an identifier below the leader's; with equal bounds the smaller
/// identifier wins deterministically.
pub proof fn lemma_scan_leader(
    cands: Seq<H256>,
    votes: Seq<Option<crate::confirm::Vote>>,
    cdf: Seq<u64>,
    pmf: Seq<u64>,
    adv: int,
    q: int,
)
    ensures
        scan_candidates(cands, votes, cdf, pmf, adv, q).maxv >= 0,
        scan_candidates(cands, votes, cdf, pmf, adv, q).leader is None ==> scan_candidates(
            cands,
            votes,
            cdf,
            pmf,
            adv,
            q,
        ).maxv == 0,
        forall|i: int|
            0 <= i < cands.len() ==> block_lcb_of(votes, #[trigger] cands[i], cdf, pmf, adv, q)
                <= scan_candidates(cands, votes, cdf, pmf, adv, q).maxv,
        scan_candidates(cands, votes, cdf, pmf, adv, q).leader matches Some(ld) ==> {
            &&& cands.contains(ld)
            &&& block_lcb_of(votes, ld, cdf, pmf, adv, q) == scan_candidates(
                cands,
                votes,
                cdf,
                pmf,
                adv,
                q,
            ).maxv
            &&& forall|i: int|
                0 <= i < cands.len() && block_lcb_of(votes, #[trigger] cands[i], cdf, pmf, adv, q)
                    == scan_candidates(cands, votes, cdf, pmf, adv, q).maxv ==> !H256::spec_lt(
                    cands[i],
                    ld,
                )
        },
    decreases cands.len(),
{
    if cands.len() > 0 {
        let prefix = cands.drop_last();
        lemma_scan_leader(prefix, votes, cdf, pmf, adv, q);
        let st = scan_candidates(prefix, votes, cdf, pmf, adv, q);
        let c = cands.last();
        let l = block_lcb_of(votes, c, cdf, pmf, adv, q);
        lemma_lcb_nonneg(depths_for(votes, c), cdf, pmf, adv, crate::confirm::total_blocks(votes), q);
        assert(forall|i: int| 0 <= i < prefix.len() ==> #[trigger] cands[i] == prefix[i]);
        let stf = scan_candidates(cands, votes, cdf, pmf, adv, q);
        match stf.leader {
            Some(ld) => {
                assert(cands.contains(ld)) by {
                    if ld == c {
                        assert(cands[cands.len() - 1] == c);
                    } else {
                        assert(st.leader == Some(ld));
                        let i = choose|i: int| 0 <= i < prefix.len() && prefix[i] == ld;
                        assert(cands[i] == ld);
                    }
                }
                assert forall|i: int|
                    0 <= i < cands.len() && block_lcb_of(
                        votes,
                        #[trigger] cands[i],
                        cdf,
                        pmf,
                        adv,
                        q,
                    ) == stf.maxv implies !H256::spec_lt(cands[i], ld) by {
                    crate::hash::lemma_lt_total(cands[i], ld);
                    if H256::spec_lt(cands[i], ld) && i < prefix.len() {
                        match st.leader {
                            Some(cur) => {
                                if H256::spec_lt(c, cur) {
                                    crate::hash::lemma_lt_trans(cands[i], ld, cur);
                                }
                            },
                            None => {},
                        }
                    }
                }
            },
            None => {},
        }
    }
}

/// When every candidate's bound under the first parameters dominates its
/// bound under the second, the scan's total dominates too, also with any
/// one candidate set aside.
proof fn lemma_scan_total_dominates(
    cands: Seq<H256>,
    votes: Seq<Option<crate::confirm::Vote>>,
    cdf: Seq<u64>,
    pmf: Seq<u64>,
    adv1: int,
    q1: int,
    adv2: int,
    q2: int,
)
    requires
        forall|b: H256| #[trigger] block_lcb_of(votes, b, cdf, pmf, adv1, q1) >= block_lcb_of(
            votes,
            b,
            cdf,
            pmf,
            adv2,
            q2,
        ),
    ensures
        scan_candidates(cands, votes, cdf, pmf, adv1, q1).total >= scan_candidates(
            cands,
            votes,
            cdf,
            pmf,
            adv2,
            q2,
        ).total,
        forall|i: int|
            0 <= i < cands.len() ==> scan_candidates(cands, votes, cdf, pmf, adv1, q1).total
                - block_lcb_of(votes, #[trigger] cands[i], cdf, pmf, adv1, q1) >= scan_candidates(
                cands,
                votes,
                cdf,
                pmf,
                adv2,
                q2,
            ).total - block_lcb_of(votes, cands[i], cdf, pmf, adv2, q2),
    decreases cands.len(),
{
    if cands.len() > 0 {
        let prefix = cands.drop_last();
        lemma_scan_total_dominates(prefix, votes, cdf, pmf, adv1, q1, adv2, q2);
        assert(forall|i: int| 0 <= i < prefix.len() ==> #[trigger] cands[i] == prefix[i]);
    }
}

/// The decisions are monotone in the per-candidate bounds: if the engine
/// confirms a leader under parameters whose bounds are pointwise lower,
/// then it confirms one under the parameters with the higher bounds, on
/// the same votes and tables.
proof fn lemma_confirm_dominates(
    votes: Seq<Option<crate::confirm::Vote>>,
    cdf: Seq<u64>,
    pmf: Seq<u64>,
    adv1: int,
    q1: int,
    adv2: int,
    q2: int,
)
    requires
        forall|b: H256| #[trigger] block_lcb_of(votes, b, cdf, pmf, adv1, q1) >= block_lcb_of(
            votes,
            b,
            cdf,
            pmf,
            adv2,
            q2,
        ),
        spec_confirm_leader(votes, cdf, pmf, q2, adv2) is Some,
    ensures
        spec_confirm_leader(votes, cdf, pmf, q1, adv1) is Some,
{
    let n = votes.len() as int;
    let cands = candidates(votes);
    let st1 = scan_candidates(cands, votes, cdf, pmf, adv1, q1);
    let st2 = scan_candidates(cands, votes, cdf, pmf, adv2, q2);
    let r1 = remaining_ppb(n, st1.total);
    let r2 = remaining_ppb(n, st2.total);
    lemma_scan_leader(cands, votes, cdf, pmf, adv1, q1);
    lemma_scan_leader(cands, votes, cdf, pmf, adv2, q2);
    lemma_scan_total_dominates(cands, votes, cdf, pmf, adv1, q1, adv2, q2);
    match st2.leader {
        None => {
            assert(false);
        },
        Some(ld2) => {
            let i2 = choose|i: int| 0 <= i < cands.len() && cands[i] == ld2;
            assert(block_lcb_of(votes, ld2, cdf, pmf, adv1, q1) >= block_lcb_of(
                votes,
                ld2,
                cdf,
                pmf,
                adv2,
                q2,
            ));
            assert(st1.maxv >= st2.maxv);
            assert(r1 <= r2);
            assert(st1.maxv > r1);
            match st1.leader {
                None => {
                    assert(false);
                },
                Some(ld1) => {
                    let i1 = choose|i: int| 0 <= i < cands.len() && cands[i] == ld1;
                    assert forall|i: int|
                        0 <= i < cands.len() implies !challenger_at(
                        votes,
                        cands,
                        cdf,
                        pmf,
                        adv1,
                        q1,
                        ld1,
                        st1.maxv,
                        r1,
                        i,
                    ) by {
                        if challenger_at(votes, cands, cdf, pmf, adv1, q1, ld1, st1.maxv, r1, i) {
                            let c = cands[i];
                            let c1 = block_lcb_of(votes, c, cdf, pmf, adv1, q1);
                            let c2 = block_lcb_of(votes, c, cdf, pmf, adv2, q2);
                            assert(c1 >= c2);
                            assert(!challenger_at(
                                votes,
                                cands,
                                cdf,
                                pmf,
                                adv2,
                                q2,
                                ld2,
                                st2.maxv,
                                r2,
                                i,
                            ));
                            if r1 == 0 {
                                // The unpinned mass is gone: a strict
                                // challenger would have to beat the
                                // maximum itself, and a tied one is ruled
                                // out by the tie-break scan.
                                assert(c1 <= st1.maxv);
                                assert(false);
                            } else {
                                // Unclamped remainders on both sides.
                                assert(st1.total <= n * (PPB as int));
                                assert(r1 == n * (PPB as int) - st1.total);
                                assert(r2 == n * (PPB as int) - st2.total);
                                // Setting any candidate aside, the other
                                // bounds total at least as much under the
                                // dominating parameters, so a candidate's
                                // bound plus the remainder can only shrink
                                // under them.
                                assert(c1 + r1 <= c2 + r2);
                                if ld1 != ld2 {
                                    // The new leader is not a challenger
                                    // under the old parameters, which
                                    // forces the remainder to zero:
                                    // impossible here.
                                    let a1 = block_lcb_of(votes, ld1, cdf, pmf, adv1, q1);
                                    let a2 = block_lcb_of(votes, ld1, cdf, pmf, adv2, q2);
                                    assert(a1 >= a2);
                                    assert(!challenger_at(
                                        votes,
                                        cands,
                                        cdf,
                                        pmf,
                                        adv2,
                                        q2,
                                        ld2,
                                        st2.maxv,
                                        r2,
                                        i1,
                                    ));
                                    assert(a1 + r1 <= a2 + r2);
                                    assert(a2 + r2 <= st2.maxv);
                                    assert(st2.maxv <= block_lcb_of(
                                        votes,
                                        ld2,
                                        cdf,
                                        pmf,
                                        adv1,
                                        q1,
                                    ));
                                    assert(block_lcb_of(votes, ld2, cdf, pmf, adv1, q1)
                                        <= st1.maxv);
                                    assert(false);
                                }
                                // Same leader under both parameter sets.
                                assert(c1 <= st1.maxv);
                                if st1.maxv < c1 + r1 && c != ld1 {
                                    assert(c2 + r2 <= st2.maxv);
                                    assert(false);
                                } else {
                                    assert(st1.maxv == c1 + r1 && H256::spec_lt(c, ld1));
                                    assert(c != ld2);
                                    assert(c2 + r2 == st2.maxv);
                                    assert(false);
                                }
                            }
                        }
                    }
                    assert(!some_challenger(
                        votes,
                        cands,
                        cdf,
                        pmf,
                        adv1,
                        q1,
                        ld1,
                        st1.maxv,
                        r1,
                    ));
                },
            }
        },
    }
}

/// Monotonicity in the quantile, at the level of the decision itself: a
/// larger safety margin can only delay confirmation. Whenever the engine
/// confirms a leader under the stricter quantile `q2`, it also confirms
/// one (possibly another candidate of equal bound) under any smaller
/// quantile `q1`, on the same votes, tables and adversary power.
pub proof fn lemma_quantile_delays_confirmation(
    votes: Seq<Option<crate::confirm::Vote>>,
    cdf: Seq<u64>,
    pmf: Seq<u64>,
    adv: int,
    q1: int,
    q2: int,
)
    requires
        0 <= q1 <= q2,
        spec_confirm_leader(votes, cdf, pmf, q2, adv) is Some,
    ensures
        spec_confirm_leader(votes, cdf, pmf, q1, adv) is Some,
{
    assert forall|b: H256| #[trigger] block_lcb_of(votes, b, cdf, pmf, adv, q1) >= block_lcb_of(
        votes,
        b,
        cdf,
        pmf,
        adv,
        q2,
    ) by {
        lemma_quantile_monotone(votes, b, cdf, pmf, adv, q1, q2);
    }
    lemma_confirm_dominates(votes, cdf, pmf, adv, q1, adv, q2);
}

/// Monotonicity in the adversary power, at the level of the decision,
/// against the zero-power baseline: whenever the engine confirms a leader
/// under some assumed adversary power, it also confirms one with no
/// assumed power, on the same votes and tables.
pub proof fn lemma_adversary_delays_confirmation(
    votes: Seq<Option<crate::confirm::Vote>>,
    cdf: Seq<u64>,
    pmf: Seq<u64>,
    adv: int,
    q: int,
)
    requires
        0 <= adv < PPB as int,
        0 <= q,
        spec_confirm_leader(votes, cdf, pmf, q, adv) is Some,
    ensures
        spec_confirm_leader(votes, cdf, pmf, q, 0) is Some,
{
    assert forall|b: H256| #[trigger] block_lcb_of(votes, b, cdf, pmf, 0, q) >= block_lcb_of(
        votes,
        b,
        cdf,
        pmf,
        adv,
        q,
    ) by {
        lemma_adversary_weakens(votes, b, cdf, pmf, adv, q);
    }
    lemma_confirm_dominates(votes, cdf, pmf, 0, q, adv, q);
}

/// Idempotence: the result of the engine is a pure function of its inputs,
/// so two evaluations on identical inputs agree.
pub proof fn lemma_idempotent(
    votes: Seq<Option<crate::confirm::Vote>>,
    cdf: Seq<u64>,
    pmf: Seq<u64>,
    q: int,
    adv: int,
)
    ensures
        spec_confirm_leader(votes, cdf, pmf, q, adv) == spec_confirm_leader(
            votes,
            cdf,
            pmf,
            q,
            adv,
        ),
{
}

/// The confirmed leader, when there is one, is a candidate that actually
/// received a vote.
pub proof fn lemma_leader_is_candidate(
    votes: Seq<Option<crate::confirm::Vote>>,
    cdf: Seq<u64>,
    pmf: Seq<u64>,
    q: int,
    adv: int,
)
    ensures
        spec_confirm_leader(votes, cdf, pmf, q, adv) matches Some(ld) ==> candidates(
            votes,
        ).contains(ld),
{
    if spec_confirm_leader(votes, cdf, pmf, q, adv) is Some {
        lemma_scan_leader(candidates(votes), votes, cdf, pmf, adv, q);
    }
}

} // verus!
