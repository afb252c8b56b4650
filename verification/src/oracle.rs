//! Verdicts of differential oracles, aggregated into one report.
//!
//! Each oracle compares a reference computation with a fast one and reports
//! whether they agreed, with a reason. A report holds every verdict and
//! their conjunction.
use vstd::prelude::*;

verus! {

broadcast use vstd::std_specs::vec::group_vec_axioms;

/// Verdict of one oracle.
#[derive(Debug, Clone)]
pub struct OracleVerdict {
    /// Stable identifier of the oracle.
    pub name: &'static str,
    /// Whether the reference and fast paths agreed.
    pub passed: bool,
    /// What was compared, and the outcome.
    pub reason: String,
}

/// Every verdict, and whether all of them passed.
#[derive(Debug, Clone)]
pub struct OracleReport {
    pub verdicts: Vec<OracleVerdict>,
    pub all_passed: bool,
}

/// `i` is the position of the first failing verdict of `s`.
pub open spec fn is_first_failure(s: Seq<OracleVerdict>, i: int) -> bool {
    &&& 0 <= i < s.len()
    &&& !s[i].passed
    &&& forall|j: int| 0 <= j < i ==> (#[trigger] s[j]).passed
}

impl OracleReport {
    /// The first failing verdict, if any; `None` exactly when every verdict
    /// passed.
    pub fn first_failure(&self) -> (r: Option<&OracleVerdict>)
        ensures
            match r {
                Some(v) => exists|i: int| is_first_failure(self.verdicts@, i) && *v == self.verdicts@[i],
                None => forall|j: int|
                    0 <= j < self.verdicts@.len() ==> (#[trigger] self.verdicts@[j]).passed,
            },
    {
        let n = self.verdicts.len();
        let mut i: usize = 0;
        while i < n
            invariant
                n == self.verdicts@.len(),
                i <= n,
                forall|j: int| 0 <= j < i ==> (#[trigger] self.verdicts@[j]).passed,
            decreases n - i,
        {
            if !self.verdicts[i].passed {
                assert(is_first_failure(self.verdicts@, i as int));
                return Some(&self.verdicts[i]);
            }
            i += 1;
        }
        None
    }
}

} // verus!
