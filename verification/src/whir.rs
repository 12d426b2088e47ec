//! The claims the protocol proves: a statement is a list of points and the
//! values the committed polynomial is claimed to take there.

use vstd::prelude::*;

use crate::field::Fp;
use crate::poly_utils::MultilinearPoint;

verus! {

/// A claim that the committed polynomial evaluates to `evaluations[i]` at
/// `points[i]`; the two lists have equal length.
#[derive(Debug, Clone)]
pub struct Statement {
    pub points: Vec<MultilinearPoint>,
    pub evaluations: Vec<Fp>,
}

impl Statement {
    /// Whether the two lists pair up.
    pub open spec fn paired(self) -> bool {
        self.points@.len() == self.evaluations@.len()
    }

    /// The number of claims.
    pub fn num_claims(&self) -> (r: usize)
        requires
            self.paired(),
        ensures
            r == self.points@.len(),
            r == self.evaluations@.len(),
    {
        self.points.len()
    }
}

} // verus!
