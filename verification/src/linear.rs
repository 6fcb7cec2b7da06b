//! The linear-scan strategy: walk the rules in order and return the first
//! one whose constraints the input satisfies.

use vstd::prelude::*;
use crate::bag::Bag;
use crate::bag::Rule;
use crate::matching::Matcher;
use crate::matching::lemma_first_match_is;
use crate::matching::lemma_first_match_none;
use crate::matching::rule_matches;
use crate::matching::rule_views;

verus! {

/// A matcher that checks every rule in order until one is satisfied.
///
/// Simple and fast for short rule lists; its worst case is an input that
/// satisfies no rule, which must be checked against every rule.
pub struct LinearScan(Vec<Rule>);

impl Matcher for LinearScan {
    closed spec fn rules_view(&self) -> Seq<Map<Seq<char>, Seq<char>>> {
        rule_views(self.0@)
    }

    fn new(rules: Vec<Rule>) -> (m: Self) {
        LinearScan(rules)
    }

    #[verifier::loop_isolation(false)]
    fn find(&self, input: &Bag) -> (r: Option<usize>) {
        let n = self.0.len();
        let mut i: usize = 0;
        while i < n
            invariant
                i <= n,
                forall|j: int| 0 <= j < i ==> !rule_matches(
                    #[trigger] self.rules_view()[j],
                    input@,
                ),
            decreases n - i,
        {
            if self.0[i].0.satisfied_by(input) {
                proof {
                    lemma_first_match_is(self.rules_view(), input@, i as int);
                }
                return Some(i);
            }
            i += 1;
        }
        proof {
            lemma_first_match_none(self.rules_view(), input@);
        }
        None
    }
}

} // verus!
