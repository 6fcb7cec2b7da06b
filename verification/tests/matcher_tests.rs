use rulematch::Bag;
use rulematch::LinearScan;
use rulematch::LowCardinalityTree;
use rulematch::Matcher;
use rulematch::Node;
use rulematch::Rule;
use rulematch::min_some;

fn bag(pairs: &[(&str, &str)]) -> Bag {
    let mut b = Bag::new();
    for (k, v) in pairs {
        b.insert(String::from(*k), String::from(*v));
    }
    b
}

fn reference_rules() -> Vec<Rule> {
    vec![
        Rule(bag(&[("a", "1"), ("b", "2")])),
        Rule(bag(&[("a", "1")])),
        Rule(bag(&[("b", "2")])),
    ]
}

#[test]
fn linear_scan_smoke() {
    let m = LinearScan::new(reference_rules());

    assert_eq!(m.find(&bag(&[("a", "1"), ("b", "2"), ("c", "3")])), Some(0));
    assert_eq!(
        m.find(&bag(&[("a", "1"), ("b", "garbage"), ("c", "3")])),
        Some(1)
    );
    assert_eq!(
        m.find(&bag(&[("a", "garbage"), ("b", "2"), ("c", "3")])),
        Some(2)
    );
    assert_eq!(
        m.find(&bag(&[("a", "garbage"), ("b", "garbage"), ("c", "3")])),
        None
    );
}

#[test]
fn low_cardinality_tree_smoke() {
    let m = LowCardinalityTree::new(reference_rules());

    assert_eq!(m.find(&bag(&[("a", "1"), ("b", "2"), ("c", "3")])), Some(0));
    assert_eq!(
        m.find(&bag(&[("a", "1"), ("b", "garbage"), ("c", "3")])),
        Some(1)
    );
    assert_eq!(
        m.find(&bag(&[("a", "garbage"), ("b", "2"), ("c", "3")])),
        Some(2)
    );
    assert_eq!(
        m.find(&bag(&[("a", "garbage"), ("b", "garbage"), ("c", "3")])),
        None
    );
}

#[test]
fn empty_rule_list_never_matches() {
    let lin = LinearScan::new(vec![]);
    let tree = LowCardinalityTree::new(vec![]);
    assert_eq!(lin.find(&bag(&[])), None);
    assert_eq!(tree.find(&bag(&[])), None);
    assert_eq!(lin.find(&bag(&[("a", "1")])), None);
    assert_eq!(tree.find(&bag(&[("a", "1")])), None);
}

#[test]
fn unconstrained_rule_matches_everything() {
    let rules = || vec![Rule(bag(&[("a", "1")])), Rule(bag(&[]))];
    let lin = LinearScan::new(rules());
    let tree = LowCardinalityTree::new(rules());
    // The unconstrained rule catches what the first rule rejects.
    assert_eq!(lin.find(&bag(&[("b", "9")])), Some(1));
    assert_eq!(tree.find(&bag(&[("b", "9")])), Some(1));
    assert_eq!(lin.find(&bag(&[])), Some(1));
    assert_eq!(tree.find(&bag(&[])), Some(1));
    // A lower-index satisfied rule still wins.
    assert_eq!(lin.find(&bag(&[("a", "1")])), Some(0));
    assert_eq!(tree.find(&bag(&[("a", "1")])), Some(0));
}

#[test]
fn several_unconstrained_rules_keep_lowest_index() {
    // With no constrained attribute at all, the tree collapses to one leaf;
    // the lowest index must be the one recorded.
    let rules = || vec![Rule(bag(&[])), Rule(bag(&[])), Rule(bag(&[]))];
    let lin = LinearScan::new(rules());
    let tree = LowCardinalityTree::new(rules());
    assert_eq!(lin.find(&bag(&[])), Some(0));
    assert_eq!(tree.find(&bag(&[])), Some(0));
    assert_eq!(lin.find(&bag(&[("x", "y")])), Some(0));
    assert_eq!(tree.find(&bag(&[("x", "y")])), Some(0));
}

#[test]
fn colliding_rules_keep_lowest_index() {
    // Two rules with the same constraint pattern project to the same tree
    // path; the leaf must keep the earlier index.
    let rules = || {
        vec![
            Rule(bag(&[("a", "2")])),
            Rule(bag(&[("a", "1")])),
            Rule(bag(&[("a", "1")])),
        ]
    };
    let lin = LinearScan::new(rules());
    let tree = LowCardinalityTree::new(rules());
    assert_eq!(lin.find(&bag(&[("a", "1")])), Some(1));
    assert_eq!(tree.find(&bag(&[("a", "1")])), Some(1));
}

#[test]
fn matchers_agree_on_every_query() {
    let rules = || {
        vec![
            Rule(bag(&[("color", "red"), ("size", "s")])),
            Rule(bag(&[("color", "red")])),
            Rule(bag(&[("size", "m")])),
            Rule(bag(&[("shape", "round"), ("color", "blue")])),
            Rule(bag(&[])),
        ]
    };
    let lin = LinearScan::new(rules());
    let tree = LowCardinalityTree::new(rules());
    let colors = ["red", "blue", "green"];
    let sizes = ["s", "m", "l"];
    let shapes = ["round", "flat"];
    for c in colors {
        for s in sizes {
            for sh in shapes {
                let q = [("color", c), ("size", s), ("shape", sh)];
                assert_eq!(lin.find(&bag(&q)), tree.find(&bag(&q)));
            }
        }
    }
    assert_eq!(lin.find(&bag(&[])), tree.find(&bag(&[])));
}

#[test]
fn repeated_builds_and_queries_are_deterministic() {
    let rules = || {
        vec![
            Rule(bag(&[("a", "1"), ("b", "2")])),
            Rule(bag(&[("b", "2")])),
        ]
    };
    let first = LowCardinalityTree::new(rules());
    let second = LowCardinalityTree::new(rules());
    let q = bag(&[("a", "x"), ("b", "2")]);
    let r1 = first.find(&q);
    let r2 = first.find(&q);
    let r3 = second.find(&q);
    assert_eq!(r1, Some(1));
    assert_eq!(r1, r2);
    assert_eq!(r1, r3);
}

#[test]
fn bag_insert_replaces_earlier_binding() {
    let mut b = Bag::new();
    b.insert(String::from("a"), String::from("old"));
    b.insert(String::from("a"), String::from("1"));
    let m = LinearScan::new(vec![Rule(bag(&[("a", "1")]))]);
    assert_eq!(m.find(&b), Some(0));
    let miss = LinearScan::new(vec![Rule(bag(&[("a", "old")]))]);
    assert_eq!(miss.find(&b), None);
}

#[test]
fn missing_attribute_fails_constrained_rule() {
    let tree = LowCardinalityTree::new(vec![Rule(bag(&[("a", "1")]))]);
    assert_eq!(tree.find(&bag(&[("b", "1")])), None);
    assert_eq!(tree.find(&bag(&[])), None);
    let lin = LinearScan::new(vec![Rule(bag(&[("a", "1")]))]);
    assert_eq!(lin.find(&bag(&[("b", "1")])), None);
    assert_eq!(lin.find(&bag(&[])), None);
}

#[test]
fn empty_node_reaches_no_leaf() {
    let node = Node::empty();
    let keys = vec![String::from("a")];
    assert_eq!(node.find_min_leaf(&keys, 0, &bag(&[("a", "1")])), None);
}

#[test]
fn min_some_prefers_the_lower_index() {
    assert_eq!(min_some(None, None), None);
    assert_eq!(min_some(Some(4), None), Some(4));
    assert_eq!(min_some(None, Some(7)), Some(7));
    assert_eq!(min_some(Some(4), Some(7)), Some(4));
    assert_eq!(min_some(Some(7), Some(4)), Some(4));
}
