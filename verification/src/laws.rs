//! The laws the matchers obey, each stated over the matching model and
//! proved once and for all.

use vstd::prelude::*;
use crate::matching::Matcher;
use crate::matching::first_match;
use crate::matching::found_index;
use crate::matching::lemma_first_match_from_props;
use crate::matching::lemma_first_match_is;
use crate::matching::rule_matches;

verus! {

/// Equivalence with the oracle: two matchers built from the same rule list
/// answer every query identically, whatever their strategies, because the
/// contract pins the result down. In particular the indexed tree always
/// agrees with the linear scan.
pub proof fn lemma_matchers_agree<M1: Matcher, M2: Matcher>(
    m1: &M1,
    m2: &M2,
    input: Map<Seq<char>, Seq<char>>,
    a: Option<usize>,
    b: Option<usize>,
)
    requires
        m1.rules_view() == m2.rules_view(),
        found_index(a) == first_match(m1.rules_view(), input),
        found_index(b) == first_match(m2.rules_view(), input),
    ensures
        a == b,
{
    match (a, b) {
        (Some(x), Some(y)) => {
            assert(x as int == y as int);
        },
        _ => {},
    }
}

/// Lowest index wins: a returned index names a rule the input satisfies,
/// and no rule of a lower index is satisfied.
pub proof fn lemma_lowest_index_wins(
    rules: Seq<Map<Seq<char>, Seq<char>>>,
    input: Map<Seq<char>, Seq<char>>,
    i: int,
)
    requires
        first_match(rules, input) == Some(i),
    ensures
        0 <= i < rules.len(),
        rule_matches(rules[i], input),
        forall|j: int| 0 <= j < i ==> !rule_matches(#[trigger] rules[j], input),
{
    lemma_first_match_from_props(rules, input, 0);
}

/// No-match correctness: the query comes back empty exactly when no rule is
/// satisfied by the input.
pub proof fn lemma_no_match_iff(
    rules: Seq<Map<Seq<char>, Seq<char>>>,
    input: Map<Seq<char>, Seq<char>>,
)
    ensures
        (first_match(rules, input) is None) <==> (forall|i: int|
            0 <= i < rules.len() ==> !rule_matches(#[trigger] rules[i], input)),
{
    lemma_first_match_from_props(rules, input, 0);
}

/// An empty rule list yields no match for any input.
pub proof fn lemma_empty_rules(
    rules: Seq<Map<Seq<char>, Seq<char>>>,
    input: Map<Seq<char>, Seq<char>>,
)
    requires
        rules.len() == 0,
    ensures
        first_match(rules, input) is None,
{
}

/// A rule with no constraints is satisfied by every input.
pub proof fn lemma_unconstrained_matches(
    rule: Map<Seq<char>, Seq<char>>,
    input: Map<Seq<char>, Seq<char>>,
)
    requires
        rule.dom() == Set::<Seq<char>>::empty(),
    ensures
        rule_matches(rule, input),
{
    assert forall|k: Seq<char>| #[trigger] rule.contains_key(k) implies input.contains_key(k)
        && input[k] == rule[k] by {
        assert(rule.dom().contains(k));
    }
}

/// An unconstrained rule before which no rule is satisfied is the one
/// returned.
pub proof fn lemma_unconstrained_rule(
    rules: Seq<Map<Seq<char>, Seq<char>>>,
    input: Map<Seq<char>, Seq<char>>,
    i: int,
)
    requires
        0 <= i < rules.len(),
        rules[i].dom() == Set::<Seq<char>>::empty(),
        forall|j: int| 0 <= j < i ==> !rule_matches(#[trigger] rules[j], input),
    ensures
        first_match(rules, input) == Some(i),
{
    lemma_unconstrained_matches(rules[i], input);
    lemma_first_match_is(rules, input, i);
}

/// Determinism: the contract makes the answer a function of the rule list
/// and the input alone, so rebuilding from the same rules and repeating a
/// query can never change the result.
pub proof fn lemma_find_deterministic(
    rules: Seq<Map<Seq<char>, Seq<char>>>,
    input: Map<Seq<char>, Seq<char>>,
    a: Option<usize>,
    b: Option<usize>,
)
    requires
        found_index(a) == first_match(rules, input),
        found_index(b) == first_match(rules, input),
    ensures
        a == b,
{
    match (a, b) {
        (Some(x), Some(y)) => {
            assert(x as int == y as int);
        },
        _ => {},
    }
}

} // verus!
