//! The matching model: when a rule is satisfied by an input, which rule a
//! query must return, and the [`Matcher`] contract both strategies implement.

use vstd::prelude::*;
use crate::bag::Bag;
use crate::bag::Rule;

verus! {

/// A rule is satisfied by an input when every attribute the rule constrains
/// is present in the input with exactly the required value.
pub open spec fn rule_matches(
    rule: Map<Seq<char>, Seq<char>>,
    input: Map<Seq<char>, Seq<char>>,
) -> bool {
    forall|k: Seq<char>| #[trigger]
        rule.contains_key(k) ==> input.contains_key(k) && input[k] == rule[k]
}

/// The lowest index at or after `i` of a rule satisfied by `input`.
pub open spec fn first_match_from(
    rules: Seq<Map<Seq<char>, Seq<char>>>,
    input: Map<Seq<char>, Seq<char>>,
    i: int,
) -> Option<int>
    decreases rules.len() - i,
{
    if i < 0 || i >= rules.len() {
        None
    } else if rule_matches(rules[i], input) {
        Some(i)
    } else {
        first_match_from(rules, input, i + 1)
    }
}

/// The lowest index of a rule satisfied by `input`, or `None` when no rule is.
pub open spec fn first_match(
    rules: Seq<Map<Seq<char>, Seq<char>>>,
    input: Map<Seq<char>, Seq<char>>,
) -> Option<int> {
    first_match_from(rules, input, 0)
}

/// The result of a query, as a mathematical index.
pub open spec fn found_index(r: Option<usize>) -> Option<int> {
    match r {
        Some(i) => Some(i as int),
        None => None,
    }
}

/// The constraint maps of a rule list, in order.
pub open spec fn rule_views(rules: Seq<Rule>) -> Seq<Map<Seq<char>, Seq<char>>> {
    rules.map_values(|r: Rule| r@)
}

/// What `first_match_from` returns: a satisfied rule before which no rule at
/// or after `i` is satisfied, or `None` exactly when none is satisfied.
pub proof fn lemma_first_match_from_props(
    rules: Seq<Map<Seq<char>, Seq<char>>>,
    input: Map<Seq<char>, Seq<char>>,
    i: int,
)
    requires
        0 <= i,
    ensures
        match first_match_from(rules, input, i) {
            Some(j) => i <= j < rules.len() && rule_matches(rules[j], input) && (forall|l: int|
                i <= l < j ==> !rule_matches(#[trigger] rules[l], input)),
            None => forall|l: int| i <= l < rules.len() ==> !rule_matches(#[trigger] rules[l], input),
        },
    decreases rules.len() - i,
{
    if i < rules.len() && !rule_matches(rules[i], input) {
        lemma_first_match_from_props(rules, input, i + 1);
    }
}

/// A satisfied rule with no satisfied rule before it is the first match.
pub proof fn lemma_first_match_is(
    rules: Seq<Map<Seq<char>, Seq<char>>>,
    input: Map<Seq<char>, Seq<char>>,
    i: int,
)
    requires
        0 <= i < rules.len(),
        rule_matches(rules[i], input),
        forall|j: int| 0 <= j < i ==> !rule_matches(#[trigger] rules[j], input),
    ensures
        first_match(rules, input) == Some(i),
{
    lemma_first_match_from_props(rules, input, 0);
    match first_match(rules, input) {
        Some(j) => {
            assert(!(j < i));
            assert(!(i < j));
        },
        None => {
            assert(!rule_matches(rules[i], input));
        },
    }
}

/// When no rule is satisfied, there is no first match.
pub proof fn lemma_first_match_none(
    rules: Seq<Map<Seq<char>, Seq<char>>>,
    input: Map<Seq<char>, Seq<char>>,
)
    requires
        forall|j: int| 0 <= j < rules.len() ==> !rule_matches(#[trigger] rules[j], input),
    ensures
        first_match(rules, input) is None,
{
    lemma_first_match_from_props(rules, input, 0);
}

/// A matching strategy: built once from an ordered rule list, then queried
/// repeatedly. Every implementation must return exactly the lowest index of
/// a rule satisfied by the input, or `None` when no rule is satisfied.
pub trait Matcher: Sized {
    /// The constraint maps of the rules the matcher was built from, in order.
    spec fn rules_view(&self) -> Seq<Map<Seq<char>, Seq<char>>>;

    /// Build the matcher from the rules, in priority order.
    fn new(rules: Vec<Rule>) -> (m: Self)
        ensures
            m.rules_view() == rule_views(rules@),
    ;

    /// The lowest index of a rule satisfied by `input`, or `None` if no rule
    /// is satisfied. A pure read: the result is a function of the rule list
    /// and the input alone.
    fn find(&self, input: &Bag) -> (r: Option<usize>)
        ensures
            found_index(r) == first_match(self.rules_view(), input@),
    ;
}

} // verus!
