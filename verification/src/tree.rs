//! The indexed-tree strategy: a tree keyed by the distinct attribute names
//! of the rule list, queried by walking both the wildcard and the
//! exact-value branch at every level and keeping the least rule index found.

use vstd::prelude::*;
use crate::bag::Bag;
use crate::bag::Rule;
use crate::bag::distinct_keys;
use crate::bag::key_views;
use crate::matching::Matcher;
use crate::matching::first_match;
use crate::matching::found_index;
use crate::matching::lemma_first_match_is;
use crate::matching::lemma_first_match_none;
use crate::matching::rule_matches;
use crate::matching::rule_views;

verus! {

/// A node of the index. A path from the root passes one level per attribute
/// of the key universe, in order: the wildcard edge stands for a rule that
/// leaves the level's attribute unconstrained, an explicit edge for a rule
/// that requires its exact value. A leaf carries a rule index.
pub enum Node {
    Leaf(usize),
    Parent { wildcard: Option<Box<Node>>, explicit: Vec<(String, Node)> },
}

/// Pairwise distinctness of the explicit edge labels of one node.
pub open spec fn children_distinct(cs: Seq<(String, Node)>) -> bool {
    forall|i: int, j: int|
        0 <= i < j < cs.len() ==> (#[trigger] cs[i]).0@ != (#[trigger] cs[j]).0@
}

/// Whether some explicit edge is labelled `v`.
pub open spec fn has_child(cs: Seq<(String, Node)>, v: Seq<char>) -> bool {
    exists|j: int| 0 <= j < cs.len() && (#[trigger] cs[j]).0@ == v
}

/// The node under the explicit edge labelled `v`.
pub open spec fn child_at(cs: Seq<(String, Node)>, v: Seq<char>) -> Node {
    let j = choose|j: int| 0 <= j < cs.len() && (#[trigger] cs[j]).0@ == v;
    cs[j].1
}

/// With distinct labels, the edge at index `i` is the one its label selects.
proof fn lemma_child_at_unique(cs: Seq<(String, Node)>, i: int)
    requires
        children_distinct(cs),
        0 <= i < cs.len(),
    ensures
        has_child(cs, cs[i].0@),
        child_at(cs, cs[i].0@) == cs[i].1,
{
    let v = cs[i].0@;
    let j = choose|j: int| 0 <= j < cs.len() && (#[trigger] cs[j]).0@ == v;
    assert(j == i);
}

/// Well-formedness of a node `h` levels above the leaves: leaves sit exactly
/// at the bottom, explicit edge labels are distinct, and every child is
/// well-formed one level lower.
pub open spec fn wf(n: Node, h: nat) -> bool
    decreases h,
{
    match n {
        Node::Leaf(_) => h == 0,
        Node::Parent { wildcard, explicit } => {
            &&& h > 0
            &&& (wildcard matches Some(c) ==> wf(*c, (h - 1) as nat))
            &&& children_distinct(explicit@)
            &&& forall|j: int|
                0 <= j < explicit@.len() ==> wf((#[trigger] explicit@[j]).1, (h - 1) as nat)
        },
    }
}

/// The rule index stored at the end of descent path `p`, if any. A path step
/// of `None` takes the wildcard edge, `Some(v)` the explicit edge labelled
/// `v`.
pub open spec fn node_at(n: Node, p: Seq<Option<Seq<char>>>) -> Option<int>
    decreases p.len(),
{
    match n {
        Node::Leaf(i) => if p.len() == 0 {
            Some(i as int)
        } else {
            None
        },
        Node::Parent { wildcard, explicit } => {
            if p.len() == 0 {
                None
            } else {
                match p[0] {
                    None => match wildcard {
                        Some(c) => node_at(*c, p.drop_first()),
                        None => None,
                    },
                    Some(v) => if has_child(explicit@, v) {
                        node_at(child_at(explicit@, v), p.drop_first())
                    } else {
                        None
                    },
                }
            }
        },
    }
}

/// The rule index stored under an optional root, if any.
pub open spec fn node_at_opt(root: Option<Node>, p: Seq<Option<Seq<char>>>) -> Option<int> {
    match root {
        Some(n) => node_at(n, p),
        None => None,
    }
}

/// Whether the input lets a query descend along path `p`, whose first step
/// decides attribute `keys[d]`: a wildcard step is always open, an explicit
/// step only when the input holds exactly its value.
pub open spec fn path_matches(
    p: Seq<Option<Seq<char>>>,
    keys: Seq<Seq<char>>,
    d: int,
    input: Map<Seq<char>, Seq<char>>,
) -> bool {
    forall|l: int|
        0 <= l < p.len() ==> ((#[trigger] p[l]) matches Some(v) ==> input.contains_key(keys[d + l])
            && input[keys[d + l]] == v)
}

/// What a query of the subtree `n` must return: the least index stored at
/// the end of a path the input lets it descend, or `None` if there is no
/// such path.
pub open spec fn min_reachable_ok(
    n: Node,
    keys: Seq<Seq<char>>,
    d: int,
    input: Map<Seq<char>, Seq<char>>,
    r: Option<usize>,
) -> bool {
    match r {
        Some(i) => (exists|p: Seq<Option<Seq<char>>>|
            #[trigger] node_at(n, p) == Some(i as int) && path_matches(p, keys, d, input)) && (
        forall|p: Seq<Option<Seq<char>>>|
            ((#[trigger] node_at(n, p)) is Some && path_matches(p, keys, d, input)) ==> i as int
                <= node_at(n, p)->0),
        None => forall|p: Seq<Option<Seq<char>>>|
            (#[trigger] node_at(n, p)) is Some ==> !path_matches(p, keys, d, input),
    }
}

/// A path decomposes into its first step and its remainder, one level down.
proof fn lemma_path_split(
    p: Seq<Option<Seq<char>>>,
    keys: Seq<Seq<char>>,
    d: int,
    input: Map<Seq<char>, Seq<char>>,
)
    requires
        p.len() > 0,
    ensures
        path_matches(p, keys, d, input) <==> ((p[0] matches Some(v) ==> input.contains_key(
            keys[d],
        ) && input[keys[d]] == v) && path_matches(p.drop_first(), keys, d + 1, input)),
{
    let t = p.drop_first();
    if path_matches(p, keys, d, input) {
        assert forall|l: int| 0 <= l < t.len() implies ((#[trigger] t[l]) matches Some(v)
            ==> input.contains_key(keys[d + 1 + l]) && input[keys[d + 1 + l]] == v) by {
            assert(t[l] == p[l + 1]);
            assert((#[trigger] p[l + 1]) matches Some(v) ==> input.contains_key(keys[d + 1 + l])
                && input[keys[d + 1 + l]] == v);
        }
    }
    if ((p[0] matches Some(v) ==> input.contains_key(keys[d]) && input[keys[d]] == v)
        && path_matches(t, keys, d + 1, input)) {
        assert forall|l: int| 0 <= l < p.len() implies ((#[trigger] p[l]) matches Some(v)
            ==> input.contains_key(keys[d + l]) && input[keys[d + l]] == v) by {
            if l > 0 {
                assert(p[l] == t[l - 1]);
                assert((#[trigger] t[l - 1]) matches Some(v) ==> input.contains_key(
                    keys[d + 1 + (l - 1)],
                ) && input[keys[d + 1 + (l - 1)]] == v);
            }
        }
    }
}

/// The least of two optional indices, absence counting as worse than any
/// index.
pub fn min_some(a: Option<usize>, b: Option<usize>) -> (r: Option<usize>)
    ensures
        r is None <==> (a is None && b is None),
        r matches Some(m) ==> ((a matches Some(x) ==> m <= x) && (b matches Some(y) ==> m <= y) && (
        a == Some(m) || b == Some(m))),
{
    match (a, b) {
        (None, None) => None,
        (None, Some(y)) => Some(y),
        (Some(x), None) => Some(x),
        (Some(x), Some(y)) => if x <= y {
            Some(x)
        } else {
            Some(y)
        },
    }
}

/// The explicit edge labelled `v`, if the node has one.
#[verifier::loop_isolation(false)]
fn find_child<'a>(cs: &'a Vec<(String, Node)>, v: &String) -> (r: Option<&'a Node>)
    requires
        children_distinct(cs@),
    ensures
        match r {
            Some(n) => has_child(cs@, v@) && *n == child_at(cs@, v@),
            None => !has_child(cs@, v@),
        },
{
    let mut i: usize = 0;
    let n = cs.len();
    while i < n
        invariant
            i <= n,
            forall|j: int| 0 <= j < i ==> (#[trigger] cs@[j]).0@ != v@,
        decreases n - i,
    {
        if cs[i].0 == *v {
            proof {
                lemma_child_at_unique(cs@, i as int);
            }
            return Some(&cs[i].1);
        }
        i += 1;
    }
    None
}

impl Node {
    /// A parent with no edges at all: no path below it reaches a leaf.
    pub fn empty() -> (r: Box<Node>)
        ensures
            forall|h: nat| h > 0 ==> wf(*r, h),
            forall|p: Seq<Option<Seq<char>>>| #[trigger] node_at(*r, p) is None,
    {
        let r = Box::new(Node::Parent { wildcard: None, explicit: Vec::new() });
        proof {
            assert forall|p: Seq<Option<Seq<char>>>| #[trigger] node_at(*r, p) is None by {
                if p.len() > 0 {
                    assert(!has_child(Seq::<(String, Node)>::empty(), p[0]->0));
                }
            }
        }
        r
    }

    /// The least rule index reachable from this node along paths the input
    /// lets a query descend, exploring the wildcard edge unconditionally and
    /// the explicit edge for the input's value of the level's attribute.
    pub fn find_min_leaf(&self, keys: &Vec<String>, depth: usize, input: &Bag) -> (r: Option<
        usize,
    >)
        requires
            depth <= keys@.len(),
            wf(*self, (keys@.len() - depth) as nat),
        ensures
            min_reachable_ok(*self, key_views(keys@), depth as int, input@, r),
        decreases keys@.len() - depth,
    {
        let ghost kv = key_views(keys@);
        let ghost d = depth as int;
        match self {
            Node::Leaf(idx) => {
                proof {
                    let p0 = Seq::<Option<Seq<char>>>::empty();
                    assert(node_at(*self, p0) == Some(*idx as int));
                    assert(path_matches(p0, kv, d, input@));
                    assert forall|p: Seq<Option<Seq<char>>>|
                        ((#[trigger] node_at(*self, p)) is Some && path_matches(
                            p,
                            kv,
                            d,
                            input@,
                        )) implies *idx as int <= node_at(*self, p)->0 by {
                        assert(p.len() == 0);
                    }
                }
                Some(*idx)
            },
            Node::Parent { wildcard, explicit } => {
                proof {
                    assert(keys.len() == keys@.len());
                    assert(wf(*self, (keys@.len() - depth) as nat));
                    assert((keys@.len() - depth) as nat > 0);
                    assert(depth < keys@.len());
                }
                let wres: Option<usize> = match wildcard {
                    Some(child) => child.find_min_leaf(keys, depth + 1, input),
                    None => None,
                };
                let got = input.get(&keys[depth]);
                let eres: Option<usize> = match got {
                    Some(value) => match find_child(explicit, value) {
                        Some(child) => child.find_min_leaf(keys, depth + 1, input),
                        None => None,
                    },
                    None => None,
                };
                let r = min_some(wres, eres);
                proof {
                    lemma_combine_branches(*self, kv, d, input@, got, wres, eres, r);
                }
                r
            },
        }
    }
}

/// At a parent, the least reachable index is the least of what the wildcard
/// subtree and the input's explicit subtree yield.
proof fn lemma_combine_branches(
    n: Node,
    kv: Seq<Seq<char>>,
    d: int,
    input: Map<Seq<char>, Seq<char>>,
    got: Option<&String>,
    wres: Option<usize>,
    eres: Option<usize>,
    r: Option<usize>,
)
    requires
        n is Parent,
        0 <= d < kv.len(),
        children_distinct(n->Parent_explicit@),
        match n->Parent_wildcard {
            Some(c) => min_reachable_ok(*c, kv, d + 1, input, wres),
            None => wres is None,
        },
        match got {
            Some(value) => input.contains_key(kv[d]) && value@ == input[kv[d]],
            None => !input.contains_key(kv[d]),
        },
        match got {
            Some(value) => {
                if has_child(n->Parent_explicit@, value@) {
                    min_reachable_ok(child_at(n->Parent_explicit@, value@), kv, d + 1, input, eres)
                } else {
                    eres is None
                }
            },
            None => eres is None,
        },
        r is None <==> (wres is None && eres is None),
        r matches Some(m) ==> ((wres matches Some(x) ==> m <= x) && (eres matches Some(y) ==> m
            <= y) && (wres == Some(m) || eres == Some(m))),
    ensures
        min_reachable_ok(n, kv, d, input, r),
{
    let w = n->Parent_wildcard;
    let cs = n->Parent_explicit;
    match r {
        Some(i) => {
            if wres == Some(i) {
                let c = w->0;
                let p1 = choose|p1: Seq<Option<Seq<char>>>|
                    #[trigger] node_at(*c, p1) == Some(i as int) && path_matches(
                        p1,
                        kv,
                        d + 1,
                        input,
                    );
                let p = seq![Option::<Seq<char>>::None] + p1;
                assert(p.drop_first() =~= p1);
                assert(p[0] is None);
                assert(node_at(n, p) == Some(i as int));
                lemma_path_split(p, kv, d, input);
                assert(path_matches(p, kv, d, input));
            } else {
                assert(eres == Some(i));
                let value = got->0;
                let c = child_at(cs@, value@);
                let p1 = choose|p1: Seq<Option<Seq<char>>>|
                    #[trigger] node_at(c, p1) == Some(i as int) && path_matches(
                        p1,
                        kv,
                        d + 1,
                        input,
                    );
                let p = seq![Some(value@)] + p1;
                assert(p.drop_first() =~= p1);
                assert(p[0] == Some(value@));
                assert(node_at(n, p) == Some(i as int));
                lemma_path_split(p, kv, d, input);
                assert(path_matches(p, kv, d, input));
            }
            assert forall|p: Seq<Option<Seq<char>>>|
                ((#[trigger] node_at(n, p)) is Some && path_matches(p, kv, d, input))
                    implies i as int <= node_at(n, p)->0 by {
                lemma_bound_one_path(n, kv, d, input, got, wres, eres, p);
            }
        },
        None => {
            assert forall|p: Seq<Option<Seq<char>>>|
                (#[trigger] node_at(n, p)) is Some implies !path_matches(p, kv, d, input) by {
                if path_matches(p, kv, d, input) {
                    lemma_bound_one_path(n, kv, d, input, got, wres, eres, p);
                }
            }
        },
    }
}

/// The descent path a rule projects to below level `d`: one step per
/// remaining attribute of the key universe, explicit exactly where the rule
/// constrains the attribute.
pub open spec fn proj(
    rule: Map<Seq<char>, Seq<char>>,
    keys: Seq<Seq<char>>,
    d: int,
) -> Seq<Option<Seq<char>>> {
    Seq::new(
        (keys.len() - d) as nat,
        |l: int|
            if rule.contains_key(keys[d + l]) {
                Some(rule[keys[d + l]])
            } else {
                None
            },
    )
}

/// The smaller of two rule indices.
pub open spec fn spec_min(a: int, b: int) -> int {
    if a <= b {
        a
    } else {
        b
    }
}

/// What one insertion leaves at the end of path `p`: on the inserted rule's
/// own projected path the lower of the old index and the new one, elsewhere
/// whatever was there before.
pub open spec fn inserted_at(
    prev: Option<int>,
    rule: Map<Seq<char>, Seq<char>>,
    kv: Seq<Seq<char>>,
    d: int,
    idx: int,
    p: Seq<Option<Seq<char>>>,
) -> Option<int> {
    if p == proj(rule, kv, d) {
        match prev {
            Some(j) => Some(spec_min(j, idx)),
            None => Some(idx),
        }
    } else {
        prev
    }
}

/// A projected path decomposes into its head step and the projection one
/// level down.
proof fn lemma_proj_tail(rule: Map<Seq<char>, Seq<char>>, kv: Seq<Seq<char>>, d: int)
    requires
        0 <= d < kv.len(),
    ensures
        proj(rule, kv, d).len() == kv.len() - d,
        proj(rule, kv, d)[0] == (if rule.contains_key(kv[d]) {
            Some(rule[kv[d]])
        } else {
            None::<Seq<char>>
        }),
        proj(rule, kv, d).drop_first() == proj(rule, kv, d + 1),
{
    assert(proj(rule, kv, d).drop_first() =~= proj(rule, kv, d + 1));
}

/// A path of positive length is the projection at level `d` exactly when its
/// head is the projected head and its tail is the projection at `d + 1`.
proof fn lemma_path_eq_proj(
    p: Seq<Option<Seq<char>>>,
    rule: Map<Seq<char>, Seq<char>>,
    kv: Seq<Seq<char>>,
    d: int,
)
    requires
        0 <= d < kv.len(),
        p.len() > 0,
    ensures
        (p == proj(rule, kv, d)) <==> (p[0] == proj(rule, kv, d)[0] && p.drop_first() == proj(
            rule,
            kv,
            d + 1,
        )),
{
    lemma_proj_tail(rule, kv, d);
    let pr = proj(rule, kv, d);
    if p[0] == pr[0] && p.drop_first() == proj(rule, kv, d + 1) {
        assert(p.drop_first().len() == p.len() - 1);
        assert(proj(rule, kv, d + 1).len() == kv.len() - d - 1);
        assert(p.len() == pr.len());
        assert forall|l: int| 0 <= l < pr.len() implies p[l] == pr[l] by {
            if l > 0 {
                assert(p[l] == p.drop_first()[l - 1]);
                assert(pr[l] == pr.drop_first()[l - 1]);
            }
        }
        assert(p =~= pr);
    }
}

/// A parent with no edges stores nothing under any path.
proof fn lemma_empty_parent_none(cn: Node)
    requires
        cn is Parent,
        cn->Parent_wildcard is None,
        cn->Parent_explicit@.len() == 0,
    ensures
        forall|p: Seq<Option<Seq<char>>>| #[trigger] node_at(cn, p) is None,
{
    assert forall|p: Seq<Option<Seq<char>>>| #[trigger] node_at(cn, p) is None by {
        if p.len() > 0 {
            match p[0] {
                None => {},
                Some(v) => {
                    assert(!has_child(cn->Parent_explicit@, v));
                },
            }
        }
    }
}

/// The position of the explicit edge labelled `v`, if the node has one.
#[verifier::loop_isolation(false)]
fn find_child_index(cs: &Vec<(String, Node)>, v: &String) -> (r: Option<usize>)
    ensures
        match r {
            Some(i) => i < cs@.len() && cs@[i as int].0@ == v@,
            None => forall|j: int| 0 <= j < cs@.len() ==> (#[trigger] cs@[j]).0@ != v@,
        },
{
    let mut i: usize = 0;
    let n = cs.len();
    while i < n
        invariant
            i <= n,
            forall|j: int| 0 <= j < i ==> (#[trigger] cs@[j]).0@ != v@,
        decreases n - i,
    {
        if cs[i].0 == *v {
            return Some(i);
        }
        i += 1;
    }
    None
}

/// Extend the subtree under `child`, `depth` levels below the root, with the
/// projection of one rule, keeping the lower index where the rule's path
/// ends at an already-stored leaf.
fn insert_rule(
    child: Option<Node>,
    keys: &Vec<String>,
    depth: usize,
    rule: &Rule,
    idx: usize,
) -> (res: Node)
    requires
        depth <= keys@.len(),
        child matches Some(n) ==> wf(n, (keys@.len() - depth) as nat),
    ensures
        wf(res, (keys@.len() - depth) as nat),
        forall|p: Seq<Option<Seq<char>>>| #[trigger]
            node_at(res, p) == inserted_at(
                node_at_opt(child, p),
                rule@,
                key_views(keys@),
                depth as int,
                idx as int,
                p,
            ),
    decreases keys@.len() - depth,
{
    let ghost kv = key_views(keys@);
    let ghost d = depth as int;
    let ghost pr = proj(rule@, kv, d);
    let ghost h = (keys@.len() - depth) as nat;
    let ghost child0 = child;
    if depth == keys.len() {
        proof {
            assert(pr.len() == 0);
        }
        let res = match child {
            None => Node::Leaf(idx),
            Some(Node::Leaf(j)) => Node::Leaf(if j <= idx {
                j
            } else {
                idx
            }),
            Some(n) => {
                proof {
                    assert(false);
                }
                n
            },
        };
        proof {
            assert forall|p: Seq<Option<Seq<char>>>| #[trigger]
                node_at(res, p) == inserted_at(
                    node_at_opt(child0, p),
                    rule@,
                    kv,
                    d,
                    idx as int,
                    p,
                ) by {
                if p.len() == 0 {
                    assert(p =~= pr);
                } else {
                    assert(p != pr);
                }
            }
        }
        res
    } else {
        proof {
            assert(depth < keys@.len());
            lemma_proj_tail(rule@, kv, d);
        }
        let parts: (Option<Box<Node>>, Vec<(String, Node)>) = match child {
            None => (None, Vec::new()),
            Some(Node::Parent { wildcard, explicit }) => (wildcard, explicit),
            Some(n) => {
                proof {
                    assert(false);
                }
                (None, Vec::new())
            },
        };
        let (wildcard, mut explicit) = parts;
        let ghost w0 = wildcard;
        let ghost e0 = explicit@;
        let ghost cn = Node::Parent { wildcard, explicit };
        proof {
            if child0 is None {
                lemma_empty_parent_none(cn);
            }
            assert forall|p: Seq<Option<Seq<char>>>| #[trigger]
                node_at_opt(child0, p) == node_at(cn, p) by {}
            assert(children_distinct(e0));
            assert(forall|j: int|
                0 <= j < e0.len() ==> wf((#[trigger] e0[j]).1, (h - 1) as nat));
            assert(w0 matches Some(b) ==> wf(*b, (h - 1) as nat));
        }
        match rule.0.get(&keys[depth]) {
            None => {
                proof {
                    assert(kv[d] == keys@[d as int]@);
                    assert(!rule@.contains_key(kv[d]));
                    assert(pr[0] is None);
                }
                let sub: Option<Node> = match wildcard {
                    None => None,
                    Some(b) => Some(*b),
                };
                let ghost sub0 = sub;
                let sub2 = insert_rule(sub, keys, depth + 1, rule, idx);
                let res = Node::Parent { wildcard: Some(Box::new(sub2)), explicit };
                proof {
                    assert(wf(res, h));
                    assert forall|p: Seq<Option<Seq<char>>>| #[trigger]
                        node_at(res, p) == inserted_at(
                            node_at_opt(child0, p),
                            rule@,
                            kv,
                            d,
                            idx as int,
                            p,
                        ) by {
                        assert(node_at_opt(child0, p) == node_at(cn, p));
                        if p.len() == 0 {
                            assert(p != pr);
                        } else {
                            let t = p.drop_first();
                            lemma_path_eq_proj(p, rule@, kv, d);
                            match p[0] {
                                None => {
                                    assert(node_at(res, p) == node_at(sub2, t));
                                    assert(node_at(sub2, t) == inserted_at(
                                        node_at_opt(sub0, t),
                                        rule@,
                                        kv,
                                        d + 1,
                                        idx as int,
                                        t,
                                    ));
                                    assert(node_at(cn, p) == node_at_opt(sub0, t));
                                },
                                Some(v) => {
                                    assert(p != pr);
                                    assert(node_at(res, p) == node_at(cn, p));
                                },
                            }
                        }
                    }
                }
                res
            },
            Some(value) => {
                proof {
                    assert(kv[d] == keys@[d as int]@);
                    assert(rule@.contains_key(kv[d]) && value@ == rule@[kv[d]]);
                    assert(pr[0] == Some(value@));
                }
                match find_child_index(&explicit, value) {
                    Some(ci) => {
                        let (name, sub) = explicit.remove(ci);
                        let ghost sub0 = sub;
                        let sub2 = insert_rule(Some(sub), keys, depth + 1, rule, idx);
                        let pairnew = (name, sub2);
                        let ghost pn = pairnew;
                        explicit.insert(ci, pairnew);
                        let ghost e2 = explicit@;
                        proof {
                            assert(e2 =~= e0.update(ci as int, pn));
                            assert(pn.0@ == e0[ci as int].0@);
                            assert forall|l: int| 0 <= l < e2.len() implies (#[trigger] e2[l]).0@
                                == e0[l].0@ by {}
                            assert(children_distinct(e2));
                        }
                        let res = Node::Parent { wildcard, explicit };
                        proof {
                            assert forall|j: int| 0 <= j < e2.len() implies wf(
                                (#[trigger] e2[j]).1,
                                (h - 1) as nat,
                            ) by {
                                if j != ci as int {
                                    assert(e2[j] == e0[j]);
                                }
                            }
                            assert(wf(res, h));
                            assert forall|p: Seq<Option<Seq<char>>>| #[trigger]
                                node_at(res, p) == inserted_at(
                                    node_at_opt(child0, p),
                                    rule@,
                                    kv,
                                    d,
                                    idx as int,
                                    p,
                                ) by {
                                assert(node_at_opt(child0, p) == node_at(cn, p));
                                if p.len() == 0 {
                                    assert(p != pr);
                                } else {
                                    let t = p.drop_first();
                                    lemma_path_eq_proj(p, rule@, kv, d);
                                    match p[0] {
                                        None => {
                                            assert(p != pr);
                                            assert(node_at(res, p) == node_at(cn, p));
                                        },
                                        Some(v) => {
                                            if v == value@ {
                                                lemma_child_at_unique(e0, ci as int);
                                                lemma_child_at_unique(e2, ci as int);
                                                assert(child_at(e0, v) == sub0);
                                                assert(child_at(e2, v) == sub2);
                                                assert(node_at(cn, p) == node_at(sub0, t));
                                                assert(node_at(res, p) == node_at(sub2, t));
                                                assert(node_at(sub2, t) == inserted_at(
                                                    node_at_opt(Some(sub0), t),
                                                    rule@,
                                                    kv,
                                                    d + 1,
                                                    idx as int,
                                                    t,
                                                ));
                                            } else {
                                                assert(p != pr);
                                                if has_child(e0, v) {
                                                    let j = choose|j: int|
                                                        0 <= j < e0.len() && (#[trigger] e0[j]).0@
                                                            == v;
                                                    assert(j != ci as int);
                                                    assert(e2[j] == e0[j]);
                                                    lemma_child_at_unique(e0, j);
                                                    lemma_child_at_unique(e2, j);
                                                    assert(child_at(e2, v) == child_at(e0, v));
                                                    assert(has_child(e2, v));
                                                } else {
                                                    assert forall|j: int|
                                                        0 <= j < e2.len() implies (
                                                        #[trigger] e2[j]).0@ != v by {
                                                        if j != ci as int {
                                                            assert(e2[j] == e0[j]);
                                                        }
                                                    }
                                                    assert(!has_child(e2, v));
                                                }
                                                assert(node_at(res, p) == node_at(cn, p));
                                            }
                                        },
                                    }
                                }
                            }
                        }
                        res
                    },
                    None => {
                        let sub2 = insert_rule(None, keys, depth + 1, rule, idx);
                        let vname = value.clone();
                        let pairnew = (vname, sub2);
                        let ghost pn = pairnew;
                        explicit.push(pairnew);
                        let ghost e2 = explicit@;
                        proof {
                            assert(e2 == e0.push(pn));
                            assert(pn.0@ == value@);
                            assert(children_distinct(e2));
                        }
                        let res = Node::Parent { wildcard, explicit };
                        proof {
                            let ghost last = e2.len() - 1;
                            assert forall|j: int| 0 <= j < e2.len() implies wf(
                                (#[trigger] e2[j]).1,
                                (h - 1) as nat,
                            ) by {
                                if j != last {
                                    assert(e2[j] == e0[j]);
                                }
                            }
                            assert(wf(res, h));
                            assert forall|p: Seq<Option<Seq<char>>>| #[trigger]
                                node_at(res, p) == inserted_at(
                                    node_at_opt(child0, p),
                                    rule@,
                                    kv,
                                    d,
                                    idx as int,
                                    p,
                                ) by {
                                assert(node_at_opt(child0, p) == node_at(cn, p));
                                if p.len() == 0 {
                                    assert(p != pr);
                                } else {
                                    let t = p.drop_first();
                                    lemma_path_eq_proj(p, rule@, kv, d);
                                    match p[0] {
                                        None => {
                                            assert(p != pr);
                                            assert(node_at(res, p) == node_at(cn, p));
                                        },
                                        Some(v) => {
                                            if v == value@ {
                                                assert(e2[last].0@ == v);
                                                lemma_child_at_unique(e2, last);
                                                assert(child_at(e2, v) == sub2);
                                                assert(!has_child(e0, v));
                                                assert(node_at(cn, p) is None);
                                                assert(node_at(res, p) == node_at(sub2, t));
                                                assert(node_at(sub2, t) == inserted_at(
                                                    None,
                                                    rule@,
                                                    kv,
                                                    d + 1,
                                                    idx as int,
                                                    t,
                                                ));
                                            } else {
                                                assert(p != pr);
                                                if has_child(e0, v) {
                                                    let j = choose|j: int|
                                                        0 <= j < e0.len() && (#[trigger] e0[j]).0@
                                                            == v;
                                                    assert(e2[j] == e0[j]);
                                                    lemma_child_at_unique(e0, j);
                                                    lemma_child_at_unique(e2, j);
                                                    assert(child_at(e2, v) == child_at(e0, v));
                                                    assert(has_child(e2, v));
                                                } else {
                                                    assert forall|j: int|
                                                        0 <= j < e2.len() implies (
                                                        #[trigger] e2[j]).0@ != v by {
                                                        if j != last {
                                                            assert(e2[j] == e0[j]);
                                                        }
                                                    }
                                                    assert(!has_child(e2, v));
                                                }
                                                assert(node_at(res, p) == node_at(cn, p));
                                            }
                                        },
                                    }
                                }
                            }
                        }
                        res
                    },
                }
            },
        }
    }
}

/// Any index stored at the end of a descendable path of a parent is bounded
/// below by one of the two branch results.
proof fn lemma_bound_one_path(
    n: Node,
    kv: Seq<Seq<char>>,
    d: int,
    input: Map<Seq<char>, Seq<char>>,
    got: Option<&String>,
    wres: Option<usize>,
    eres: Option<usize>,
    p: Seq<Option<Seq<char>>>,
)
    requires
        n is Parent,
        0 <= d < kv.len(),
        children_distinct(n->Parent_explicit@),
        match n->Parent_wildcard {
            Some(c) => min_reachable_ok(*c, kv, d + 1, input, wres),
            None => wres is None,
        },
        match got {
            Some(value) => input.contains_key(kv[d]) && value@ == input[kv[d]],
            None => !input.contains_key(kv[d]),
        },
        match got {
            Some(value) => {
                if has_child(n->Parent_explicit@, value@) {
                    min_reachable_ok(child_at(n->Parent_explicit@, value@), kv, d + 1, input, eres)
                } else {
                    eres is None
                }
            },
            None => eres is None,
        },
        node_at(n, p) is Some,
        path_matches(p, kv, d, input),
    ensures
        (wres matches Some(x) && x <= node_at(n, p)->0) || (eres matches Some(y) && y <= node_at(
            n,
            p,
        )->0),
{
    let w = n->Parent_wildcard;
    let cs = n->Parent_explicit;
    let j = node_at(n, p)->0;
    assert(p.len() > 0);
    let t = p.drop_first();
    lemma_path_split(p, kv, d, input);
    assert(path_matches(t, kv, d + 1, input));
    match p[0] {
        None => {
            let c = w->0;
            assert(node_at(*c, t) == Some(j));
            match wres {
                Some(x) => {
                    assert(x as int <= j);
                },
                None => {
                    assert(false);
                },
            }
        },
        Some(v) => {
            assert(has_child(cs@, v));
            let c = child_at(cs@, v);
            assert(node_at(c, t) == Some(j));
            assert(input.contains_key(kv[d]) && input[kv[d]] == v);
            let value = got->0;
            assert(value@ == v);
            match eres {
                Some(y) => {
                    assert(y as int <= j);
                },
                None => {
                    assert(false);
                },
            }
        },
    }
}

/// Whether the key universe contains every attribute the rule constrains.
pub open spec fn covers(kv: Seq<Seq<char>>, rule: Map<Seq<char>, Seq<char>>) -> bool {
    forall|k: Seq<char>| #[trigger] rule.contains_key(k) ==> kv.contains(k)
}

/// The lowest rule index at or after `i` and below `m` whose projection
/// over the whole key universe is `p`.
pub open spec fn first_with_path(
    rules: Seq<Map<Seq<char>, Seq<char>>>,
    kv: Seq<Seq<char>>,
    p: Seq<Option<Seq<char>>>,
    i: int,
    m: int,
) -> Option<int>
    decreases m - i,
{
    if i < 0 || i >= m {
        None
    } else if proj(rules[i], kv, 0) == p {
        Some(i)
    } else {
        first_with_path(rules, kv, p, i + 1, m)
    }
}

/// What `first_with_path` returns: the first index projecting to `p`, or
/// `None` exactly when no index below `m` does.
proof fn lemma_fwp_props(
    rules: Seq<Map<Seq<char>, Seq<char>>>,
    kv: Seq<Seq<char>>,
    p: Seq<Option<Seq<char>>>,
    i: int,
    m: int,
)
    requires
        0 <= i,
    ensures
        match first_with_path(rules, kv, p, i, m) {
            Some(j) => i <= j < m && proj(rules[j], kv, 0) == p && (forall|l: int|
                i <= l < j ==> proj(#[trigger] rules[l], kv, 0) != p),
            None => forall|l: int| i <= l < m ==> proj(#[trigger] rules[l], kv, 0) != p,
        },
    decreases m - i,
{
    if i < m && proj(rules[i], kv, 0) != p {
        lemma_fwp_props(rules, kv, p, i + 1, m);
    }
}

/// Raising the bound by one rule changes `first_with_path` only where the
/// new rule projects to a path no earlier rule projected to.
proof fn lemma_fwp_extend(
    rules: Seq<Map<Seq<char>, Seq<char>>>,
    kv: Seq<Seq<char>>,
    p: Seq<Option<Seq<char>>>,
    i: int,
    m: int,
)
    requires
        0 <= i <= m,
    ensures
        first_with_path(rules, kv, p, i, m + 1) == (match first_with_path(rules, kv, p, i, m) {
            Some(j) => Some(j),
            None => if proj(rules[m], kv, 0) == p {
                Some(m)
            } else {
                None
            },
        }),
    decreases m - i,
{
    if i < m {
        if proj(rules[i], kv, 0) != p {
            lemma_fwp_extend(rules, kv, p, i + 1, m);
        }
    } else {
        assert(first_with_path(rules, kv, p, i + 1, m + 1) is None);
    }
}

/// Over a key universe that covers the rule, the rule is satisfied by an
/// input exactly when the rule's projected path is descendable for it.
proof fn lemma_proj_matches(
    rule: Map<Seq<char>, Seq<char>>,
    kv: Seq<Seq<char>>,
    input: Map<Seq<char>, Seq<char>>,
)
    requires
        covers(kv, rule),
    ensures
        rule_matches(rule, input) <==> path_matches(proj(rule, kv, 0), kv, 0, input),
{
    let p = proj(rule, kv, 0);
    if path_matches(p, kv, 0, input) {
        assert forall|k: Seq<char>| #[trigger] rule.contains_key(k) implies input.contains_key(k)
            && input[k] == rule[k] by {
            assert(kv.contains(k));
            let l = choose|l: int| 0 <= l < kv.len() && kv[l] == k;
            assert(p[l] == Some(rule[k]));
            assert((#[trigger] p[l]) matches Some(v) ==> input.contains_key(kv[0 + l])
                && input[kv[0 + l]] == v);
        }
    }
}

/// A tree whose stored indices are exactly the first rules of each projected
/// path answers every query with the first matching rule overall.
proof fn lemma_tree_find_correct(
    rules: Seq<Map<Seq<char>, Seq<char>>>,
    kv: Seq<Seq<char>>,
    root: Option<Node>,
    input: Map<Seq<char>, Seq<char>>,
    r: Option<usize>,
)
    requires
        forall|p: Seq<Option<Seq<char>>>| #[trigger]
            node_at_opt(root, p) == first_with_path(rules, kv, p, 0, rules.len() as int),
        forall|i: int| 0 <= i < rules.len() ==> covers(kv, #[trigger] rules[i]),
        match root {
            Some(n) => min_reachable_ok(n, kv, 0, input, r),
            None => r is None,
        },
    ensures
        found_index(r) == first_match(rules, input),
{
    match r {
        Some(i) => {
            let n = root->0;
            let p = choose|p: Seq<Option<Seq<char>>>|
                #[trigger] node_at(n, p) == Some(i as int) && path_matches(p, kv, 0, input);
            assert(node_at_opt(root, p) == Some(i as int));
            lemma_fwp_props(rules, kv, p, 0, rules.len() as int);
            assert(proj(rules[i as int], kv, 0) == p);
            lemma_proj_matches(rules[i as int], kv, input);
            assert(rule_matches(rules[i as int], input));
            assert forall|j: int| 0 <= j < i implies !rule_matches(#[trigger] rules[j], input) by {
                if rule_matches(rules[j], input) {
                    lemma_proj_matches(rules[j], kv, input);
                    let q = proj(rules[j], kv, 0);
                    assert(path_matches(q, kv, 0, input));
                    lemma_fwp_props(rules, kv, q, 0, rules.len() as int);
                    match first_with_path(rules, kv, q, 0, rules.len() as int) {
                        Some(j2) => {
                            assert(j2 <= j);
                            assert(node_at_opt(root, q) == first_with_path(
                                rules,
                                kv,
                                q,
                                0,
                                rules.len() as int,
                            ));
                            assert(node_at(n, q) == Some(j2));
                            assert(i as int <= j2);
                        },
                        None => {
                            assert(proj(rules[j], kv, 0) != q);
                        },
                    }
                }
            }
            lemma_first_match_is(rules, input, i as int);
        },
        None => {
            assert forall|j: int| 0 <= j < rules.len() implies !rule_matches(
                #[trigger] rules[j],
                input,
            ) by {
                if rule_matches(rules[j], input) {
                    lemma_proj_matches(rules[j], kv, input);
                    let q = proj(rules[j], kv, 0);
                    assert(path_matches(q, kv, 0, input));
                    lemma_fwp_props(rules, kv, q, 0, rules.len() as int);
                    match first_with_path(rules, kv, q, 0, rules.len() as int) {
                        Some(j2) => {
                            assert(node_at_opt(root, q) == Some(j2));
                            match root {
                                Some(n2) => {
                                    assert(node_at(n2, q) is Some);
                                    assert(!path_matches(q, kv, 0, input));
                                },
                                None => {},
                            }
                        },
                        None => {
                            assert(proj(rules[j], kv, 0) != q);
                        },
                    }
                }
            }
            lemma_first_match_none(rules, input);
        },
    }
}

/// Whether the view of some element of `v` equals `k`'s.
#[verifier::loop_isolation(false)]
fn contains_string(v: &Vec<String>, k: &String) -> (r: bool)
    ensures
        r == key_views(v@).contains(k@),
{
    let mut i: usize = 0;
    let n = v.len();
    while i < n
        invariant
            i <= n,
            forall|j: int| 0 <= j < i ==> key_views(v@)[j] != k@,
        decreases n - i,
    {
        if v[i] == *k {
            proof {
                assert(key_views(v@)[i as int] == k@);
            }
            return true;
        }
        i += 1;
    }
    false
}

/// An index over a rule list whose rules mention few distinct attribute
/// names: a tree one level deep per distinct name. Queries walk both the
/// wildcard and the input's exact-value branch at each level and return the
/// least rule index reachable, preserving lowest-index-wins.
///
/// Built once, never mutated afterwards; queries are read-only.
pub struct LowCardinalityTree {
    keys: Vec<String>,
    root: Option<Node>,
    rules: Ghost<Seq<Map<Seq<char>, Seq<char>>>>,
}

impl LowCardinalityTree {
    #[verifier::type_invariant]
    spec fn inv(self) -> bool {
        &&& distinct_keys(key_views(self.keys@))
        &&& (forall|i: int|
            0 <= i < self.rules@.len() ==> covers(key_views(self.keys@), #[trigger] self.rules@[i]))
        &&& (self.root matches Some(n) ==> wf(n, self.keys@.len() as nat))
        &&& (self.root is None ==> self.rules@.len() == 0)
        &&& (forall|p: Seq<Option<Seq<char>>>| #[trigger]
            node_at_opt(self.root, p) == first_with_path(
                self.rules@,
                key_views(self.keys@),
                p,
                0,
                self.rules@.len() as int,
            ))
    }
}

impl Matcher for LowCardinalityTree {
    closed spec fn rules_view(&self) -> Seq<Map<Seq<char>, Seq<char>>> {
        self.rules@
    }

    #[verifier::loop_isolation(false)]
    fn new(rules: Vec<Rule>) -> (m: Self) {
        let ghost rvs = rule_views(rules@);
        let nr = rules.len();
        let mut keys: Vec<String> = Vec::new();
        let mut ri: usize = 0;
        while ri < nr
            invariant
                ri <= nr,
                distinct_keys(key_views(keys@)),
                forall|i: int| 0 <= i < ri ==> covers(key_views(keys@), #[trigger] rvs[i]),
            decreases nr - ri,
        {
            proof {
                assert(rvs[ri as int] == rules@[ri as int]@);
            }
            let rkeys = rules[ri].0.keys();
            let nk = rkeys.len();
            let mut ki: usize = 0;
            while ki < nk
                invariant
                    ki <= nk,
                    distinct_keys(key_views(keys@)),
                    forall|i: int| 0 <= i < ri ==> covers(key_views(keys@), #[trigger] rvs[i]),
                    forall|j: int|
                        0 <= j < ki ==> key_views(keys@).contains(#[trigger] key_views(rkeys@)[j]),
                decreases nk - ki,
            {
                if !contains_string(&keys, &rkeys[ki]) {
                    let ghost oldkv = key_views(keys@);
                    let newk = rkeys[ki].clone();
                    keys.push(newk);
                    proof {
                        assert(key_views(keys@) =~= oldkv.push(rkeys@[ki as int]@));
                        assert forall|x: Seq<char>| oldkv.contains(x) implies key_views(
                            keys@,
                        ).contains(x) by {
                            let j = choose|j: int| 0 <= j < oldkv.len() && oldkv[j] == x;
                            assert(key_views(keys@)[j] == x);
                        }
                        assert forall|a: int, b: int|
                            0 <= a < b < key_views(keys@).len() implies key_views(keys@)[a]
                            != key_views(keys@)[b] by {
                            if b == oldkv.len() {
                                assert(key_views(keys@)[a] == oldkv[a]);
                                if key_views(keys@)[a] == key_views(keys@)[b] {
                                    assert(oldkv.contains(key_views(keys@)[b]));
                                }
                            }
                        }
                        assert forall|i: int| 0 <= i < ri implies covers(
                            key_views(keys@),
                            #[trigger] rvs[i],
                        ) by {
                            assert forall|k2: Seq<char>| #[trigger]
                                rvs[i].contains_key(k2) implies key_views(keys@).contains(k2) by {
                                assert(oldkv.contains(k2));
                            }
                        }
                        assert(key_views(keys@)[oldkv.len() as int] == rkeys@[ki as int]@);
                        assert forall|j: int|
                            0 <= j < ki implies key_views(keys@).contains(
                            #[trigger] key_views(rkeys@)[j],
                        ) by {
                            assert(oldkv.contains(key_views(rkeys@)[j]));
                        }
                        assert(key_views(keys@).contains(key_views(rkeys@)[ki as int]));
                    }
                }
                ki += 1;
            }
            proof {
                assert forall|k2: Seq<char>| #[trigger]
                    rvs[ri as int].contains_key(k2) implies key_views(keys@).contains(k2) by {
                    assert(key_views(rkeys@).contains(k2));
                    let j = choose|j: int|
                        0 <= j < key_views(rkeys@).len() && key_views(rkeys@)[j] == k2;
                    assert(key_views(keys@).contains(key_views(rkeys@)[j]));
                }
                assert(covers(key_views(keys@), rvs[ri as int]));
            }
            ri += 1;
        }
        let ghost kvs = key_views(keys@);
        let mut root: Option<Node> = None;
        let mut m: usize = 0;
        while m < nr
            invariant
                m <= nr,
                (root matches Some(n) ==> wf(n, keys@.len() as nat)),
                (root is None ==> m == 0),
                forall|p: Seq<Option<Seq<char>>>| #[trigger]
                    node_at_opt(root, p) == first_with_path(rvs, kvs, p, 0, m as int),
            decreases nr - m,
        {
            let cur = root;
            let n2 = insert_rule(cur, &keys, 0, &rules[m], m);
            root = Some(n2);
            proof {
                assert(rvs[m as int] == rules@[m as int]@);
                assert forall|p: Seq<Option<Seq<char>>>| #[trigger]
                    node_at_opt(root, p) == first_with_path(rvs, kvs, p, 0, m as int + 1) by {
                    lemma_fwp_extend(rvs, kvs, p, 0, m as int);
                    assert(node_at(n2, p) == inserted_at(
                        node_at_opt(cur, p),
                        rules@[m as int]@,
                        kvs,
                        0,
                        m as int,
                        p,
                    ));
                    if p == proj(rvs[m as int], kvs, 0) {
                        match first_with_path(rvs, kvs, p, 0, m as int) {
                            Some(j) => {
                                lemma_fwp_props(rvs, kvs, p, 0, m as int);
                                assert(j < m);
                            },
                            None => {},
                        }
                    }
                }
            }
            m += 1;
        }
        LowCardinalityTree { keys, root, rules: Ghost(rvs) }
    }

    fn find(&self, input: &Bag) -> (r: Option<usize>) {
        proof {
            use_type_invariant(&*self);
        }
        let r = match &self.root {
            None => None,
            Some(n) => n.find_min_leaf(&self.keys, 0, input),
        };
        proof {
            lemma_tree_find_correct(self.rules@, key_views(self.keys@), self.root, input@, r);
        }
        r
    }
}

} // verus!
