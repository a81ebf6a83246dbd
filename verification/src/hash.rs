//! Block identifiers: fixed-width 256-bit values with a total order.

use vstd::prelude::*;

verus! {

/// A 256-bit block identifier, held as four 64-bit words, `w0` most
/// significant. Two identifiers are equal iff all four words are equal; the
/// order used for tie-breaking is the lexicographic order of the words.
#[derive(Clone, Copy, Debug, PartialEq, Eq, Structural)]
pub struct H256 {
    pub w0: u64,
    pub w1: u64,
    pub w2: u64,
    pub w3: u64,
}

impl H256 {
    /// `a` is strictly below `b` in the tie-breaking order.
    pub open spec fn spec_lt(a: H256, b: H256) -> bool {
        a.w0 < b.w0
            || (a.w0 == b.w0 && (a.w1 < b.w1
                || (a.w1 == b.w1 && (a.w2 < b.w2
                    || (a.w2 == b.w2 && a.w3 < b.w3)))))
    }

    /// Compare two identifiers in the tie-breaking order.
    pub fn lt(a: &H256, b: &H256) -> (r: bool)
        ensures
            r == H256::spec_lt(*a, *b),
    {
        if a.w0 != b.w0 {
            a.w0 < b.w0
        } else if a.w1 != b.w1 {
            a.w1 < b.w1
        } else if a.w2 != b.w2 {
            a.w2 < b.w2
        } else {
            a.w3 < b.w3
        }
    }
}

/// The order is total: of two distinct identifiers, exactly one is below the
/// other, and no identifier is below itself.
pub proof fn lemma_lt_total(a: H256, b: H256)
    ensures
        a == b || H256::spec_lt(a, b) || H256::spec_lt(b, a),
        !(H256::spec_lt(a, b) && H256::spec_lt(b, a)),
        !H256::spec_lt(a, a),
{
}

/// The order is transitive.
pub proof fn lemma_lt_trans(a: H256, b: H256, c: H256)
    requires
        H256::spec_lt(a, b),
        H256::spec_lt(b, c),
    ensures
        H256::spec_lt(a, c),
{
}

} // verus!
