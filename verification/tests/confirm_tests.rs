use prism_confirm::confirm::{confirm_leader, tally_votes, Vote};
use prism_confirm::H256;
use statrs::distribution::{Discrete, DiscreteCDF, Poisson};

const PPB: u64 = 1_000_000_000;

fn h(x: u64) -> H256 {
    H256 { w0: 0, w1: 0, w2: 0, w3: x }
}

fn vote(block: H256, depth: u64) -> Option<Vote> {
    Some(Vote { block, depth })
}

/// Build the Poisson tables, in parts per billion, for the adversary's
/// expected secret depth implied by the vote totals, covering depths up to
/// `max_depth`.
fn poisson_tables(tvb: u64, tc: u64, adversary_ppb: u64, max_depth: u64) -> (Vec<u64>, Vec<u64>) {
    let lambda =
        (tvb as f64 * adversary_ppb as f64) / (tc as f64 * (PPB - adversary_ppb) as f64);
    let poisson = Poisson::new(lambda).unwrap();
    let mut cdf: Vec<u64> = Vec::new();
    let mut pmf: Vec<u64> = Vec::new();
    for x in 0..=(max_depth + 1) {
        cdf.push((poisson.cdf(x) * PPB as f64) as u64);
        pmf.push((poisson.pmf(x) * PPB as f64) as u64);
    }
    (cdf, pmf)
}

#[test]
fn zero_adversary_scenario() {
    // Five voter chains, adversary ratio zero, quantile one: A gathers
    // three votes, B one, one chain abstains. A's bound (3) beats both the
    // unpinned mass (1) and B (1 + 1 = 2), so A is confirmed.
    let a = h(1);
    let b = h(2);
    let votes = vec![vote(a, 2), vote(a, 3), vote(b, 1), None, vote(a, 0)];
    let empty: Vec<u64> = Vec::new();
    let r = confirm_leader(&votes, PPB, 0, &empty, &empty);
    assert_eq!(r, Some(a));
}

#[test]
fn threshold_gate_returns_none() {
    // Five chains but only three votes: 3 <= floor(3 * 5 / 5), so the
    // supermajority gate fails whatever the votes say.
    let a = h(1);
    let votes = vec![vote(a, 5), vote(a, 5), vote(a, 5), None, None];
    let empty: Vec<u64> = Vec::new();
    assert_eq!(confirm_leader(&votes, PPB, 0, &empty, &empty), None);
}

#[test]
fn empty_inputs_return_none() {
    let empty: Vec<u64> = Vec::new();
    let no_chains: Vec<Option<Vote>> = Vec::new();
    assert_eq!(confirm_leader(&no_chains, PPB, 0, &empty, &empty), None);
    let no_votes: Vec<Option<Vote>> = vec![None, None, None, None, None];
    assert_eq!(confirm_leader(&no_votes, PPB, 0, &empty, &empty), None);
}

#[test]
fn tie_breaks_to_smaller_identifier() {
    // Every chain votes, two candidates with identical support: the
    // unpinned mass is zero and the tie goes to the smaller identifier.
    let big = h(2);
    let small = h(1);
    let empty: Vec<u64> = Vec::new();
    let votes = vec![vote(big, 1), vote(big, 2), vote(small, 1), vote(small, 2)];
    assert_eq!(confirm_leader(&votes, PPB, 0, &empty, &empty), Some(small));
    // The same votes with the candidates seen in the other order.
    let votes2 = vec![vote(small, 1), vote(small, 2), vote(big, 1), vote(big, 2)];
    assert_eq!(confirm_leader(&votes2, PPB, 0, &empty, &empty), Some(small));
}

#[test]
fn deep_votes_confirm_against_weak_adversary() {
    // A tenth of the mining power against votes buried twenty blocks deep:
    // the reversal probabilities are negligible, so the leader is declared.
    let a = h(9);
    let adv = PPB / 10;
    let votes = vec![vote(a, 20), vote(a, 20), vote(a, 20), vote(a, 20), None];
    let (_, tc, tvb) = tally_votes(&votes);
    assert_eq!((tc, tvb), (4, 80));
    let (cdf, pmf) = poisson_tables(tvb, tc, adv, 20);
    assert_eq!(confirm_leader(&votes, PPB, adv, &cdf, &pmf), Some(a));
}

#[test]
fn shallow_votes_stay_open_against_strong_adversary() {
    // Forty percent of the mining power against votes only one block deep:
    // the bound stays below the unpinned mass and nothing is confirmed.
    let a = h(9);
    let adv = 2 * PPB / 5;
    let votes = vec![vote(a, 1), vote(a, 1), vote(a, 1), vote(a, 1), None];
    let (_, tc, tvb) = tally_votes(&votes);
    let (cdf, pmf) = poisson_tables(tvb, tc, adv, 1);
    assert_eq!(confirm_leader(&votes, PPB, adv, &cdf, &pmf), None);
}

#[test]
fn repeated_calls_agree() {
    let a = h(3);
    let b = h(4);
    let adv = PPB / 20;
    let votes = vec![vote(a, 12), vote(a, 9), vote(b, 4), vote(a, 7), None];
    let (_, tc, tvb) = tally_votes(&votes);
    let (cdf, pmf) = poisson_tables(tvb, tc, adv, 12);
    let first = confirm_leader(&votes, PPB, adv, &cdf, &pmf);
    let second = confirm_leader(&votes, PPB, adv, &cdf, &pmf);
    assert_eq!(first, second);
}

#[test]
fn tally_groups_by_candidate() {
    let a = h(5);
    let b = h(6);
    let votes = vec![vote(a, 1), None, vote(b, 2), vote(a, 3)];
    let (cands, tc, tvb) = tally_votes(&votes);
    assert_eq!(cands, vec![a, b]);
    assert_eq!(tc, 3);
    assert_eq!(tvb, 6);
}

#[test]
fn higher_quantile_never_confirms_more() {
    // The same input under a loose and under a strict quantile: the loose
    // margin confirms the clear winner, ten standard deviations push every
    // bound to zero and leave the level open.
    let a = h(9);
    let b = h(10);
    let adv = PPB / 5;
    let votes = vec![vote(a, 3), vote(a, 4), vote(b, 1), vote(a, 2), None];
    let (_, tc, tvb) = tally_votes(&votes);
    let (cdf, pmf) = poisson_tables(tvb, tc, adv, 4);
    let loose = confirm_leader(&votes, 0, adv, &cdf, &pmf);
    let strict = confirm_leader(&votes, 10 * PPB, adv, &cdf, &pmf);
    assert_eq!(loose, Some(a));
    assert_eq!(strict, None);
}

#[test]
fn stronger_adversary_never_confirms_more() {
    // The same shallow votes against a weak and against a strong
    // adversary: a twentieth of the power leaves reversal probabilities
    // negligible and confirms, forty-five percent leaves the level open.
    let a = h(9);
    let votes = vec![vote(a, 2), vote(a, 2), vote(a, 2), vote(a, 2), None];
    let (_, tc, tvb) = tally_votes(&votes);
    let weak = PPB / 20;
    let (cdf_w, pmf_w) = poisson_tables(tvb, tc, weak, 2);
    assert_eq!(confirm_leader(&votes, PPB, weak, &cdf_w, &pmf_w), Some(a));
    let strong = 45 * PPB / 100;
    let (cdf_s, pmf_s) = poisson_tables(tvb, tc, strong, 2);
    assert_eq!(confirm_leader(&votes, PPB, strong, &cdf_s, &pmf_s), None);
}
