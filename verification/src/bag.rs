//! Attribute assignments: a map from attribute name to value, stored as a
//! vector of pairs with pairwise-distinct keys, and the [`Rule`] wrapper.

use vstd::prelude::*;
use crate::matching::rule_matches;

verus! {

/// The views of the strings of a key list, in order.
pub open spec fn key_views(keys: Seq<String>) -> Seq<Seq<char>> {
    keys.map_values(|k: String| k@)
}

/// Pairwise distinctness of a sequence of key views.
pub open spec fn distinct_keys(ks: Seq<Seq<char>>) -> bool {
    forall|i: int, j: int| 0 <= i < j < ks.len() ==> ks[i] != ks[j]
}

/// Pairwise distinctness of the keys of a pair list.
spec fn pairs_distinct(s: Seq<(String, String)>) -> bool {
    forall|i: int, j: int|
        0 <= i < j < s.len() ==> (#[trigger] s[i]).0@ != (#[trigger] s[j]).0@
}

/// The map a pair list denotes.
spec fn pairs_view(s: Seq<(String, String)>) -> Map<Seq<char>, Seq<char>> {
    Map::new(
        |k: Seq<char>| exists|i: int| 0 <= i < s.len() && (#[trigger] s[i]).0@ == k,
        |k: Seq<char>|
            {
                let i = choose|i: int| 0 <= i < s.len() && (#[trigger] s[i]).0@ == k;
                s[i].1@
            },
    )
}

/// With distinct keys, the pair at index `i` is what the map holds for its key.
proof fn lemma_pairs_view_at(s: Seq<(String, String)>, i: int)
    requires
        pairs_distinct(s),
        0 <= i < s.len(),
    ensures
        pairs_view(s).contains_key(s[i].0@),
        pairs_view(s)[s[i].0@] == s[i].1@,
{
    let k = s[i].0@;
    let j = choose|j: int| 0 <= j < s.len() && (#[trigger] s[j]).0@ == k;
    assert(j == i);
}

/// A full or partial attribute assignment: attribute name -> value.
///
/// Abstractly a `Map<Seq<char>, Seq<char>>`; `insert` replaces the value of a
/// key that is already bound.
pub struct Bag {
    pairs: Vec<(String, String)>,
}

impl Bag {
    #[verifier::type_invariant]
    spec fn inv(self) -> bool {
        pairs_distinct(self.pairs@)
    }
}

impl View for Bag {
    type V = Map<Seq<char>, Seq<char>>;

    closed spec fn view(&self) -> Map<Seq<char>, Seq<char>> {
        pairs_view(self.pairs@)
    }
}

impl Bag {
    /// The empty assignment.
    pub fn new() -> (b: Bag)
        ensures
            b@ == Map::<Seq<char>, Seq<char>>::empty(),
    {
        let b = Bag { pairs: Vec::new() };
        proof {
            assert(b@ =~= Map::<Seq<char>, Seq<char>>::empty());
        }
        b
    }

    /// Bind attribute `k` to value `v`, replacing any earlier binding of `k`.
    #[verifier::loop_isolation(false)]
    pub fn insert(&mut self, k: String, v: String)
        ensures
            final(self)@ == old(self)@.insert(k@, v@),
    {
        proof {
            use_type_invariant(&*self);
        }
        let mut pairs: Vec<(String, String)> = Vec::new();
        std::mem::swap(&mut pairs, &mut self.pairs);
        let ghost orig = pairs@;
        let pair = (k, v);
        let ghost p = pair;
        let mut i: usize = 0;
        let n = pairs.len();
        while i < n
            invariant
                n == pairs@.len(),
                i <= n,
                pairs@ == orig,
                forall|j: int| 0 <= j < i ==> (#[trigger] orig[j]).0@ != p.0@,
            decreases n - i,
        {
            if pairs[i].0 == pair.0 {
                let _ = pairs.remove(i);
                pairs.push(pair);
                proof {
                    lemma_update_view(orig, i as int, p);
                    assert(pairs@ == orig.remove(i as int).push(p));
                }
                self.pairs = pairs;
                return ;
            }
            i += 1;
        }
        pairs.push(pair);
        proof {
            lemma_push_view(orig, p);
        }
        self.pairs = pairs;
    }

    /// The value bound to attribute `k`, if any.
    #[verifier::loop_isolation(false)]
    pub fn get<'a>(&'a self, k: &String) -> (r: Option<&'a String>)
        ensures
            match r {
                Some(v) => self@.contains_key(k@) && v@ == self@[k@],
                None => !self@.contains_key(k@),
            },
    {
        proof {
            use_type_invariant(&*self);
        }
        let mut i: usize = 0;
        let n = self.pairs.len();
        while i < n
            invariant
                n == self.pairs@.len(),
                i <= n,
                forall|j: int| 0 <= j < i ==> (#[trigger] self.pairs@[j]).0@ != k@,
                self.inv(),
            decreases n - i,
        {
            if self.pairs[i].0 == *k {
                proof {
                    lemma_pairs_view_at(self.pairs@, i as int);
                }
                return Some(&self.pairs[i].1);
            }
            i += 1;
        }
        None
    }

    /// The attribute names bound in this assignment, each exactly once.
    #[verifier::loop_isolation(false)]
    pub fn keys(&self) -> (ks: Vec<String>)
        ensures
            distinct_keys(key_views(ks@)),
            forall|k: Seq<char>| #[trigger]
                key_views(ks@).contains(k) <==> self@.contains_key(k),
    {
        proof {
            use_type_invariant(&*self);
        }
        let mut ks: Vec<String> = Vec::new();
        let mut i: usize = 0;
        let n = self.pairs.len();
        while i < n
            invariant
                n == self.pairs@.len(),
                i <= n,
                ks@.len() == i,
                forall|j: int| 0 <= j < i ==> key_views(ks@)[j] == (#[trigger] self.pairs@[j]).0@,
                self.inv(),
            decreases n - i,
        {
            let s = self.pairs[i].0.clone();
            proof {
                assert(s@ == self.pairs@[i as int].0@);
            }
            ks.push(s);
            i += 1;
        }
        proof {
            assert forall|a: int, b: int| 0 <= a < b < ks@.len() implies key_views(ks@)[a]
                != key_views(ks@)[b] by {
                assert(key_views(ks@)[a] == (#[trigger] self.pairs@[a]).0@);
                assert(key_views(ks@)[b] == (#[trigger] self.pairs@[b]).0@);
            }
            assert forall|k: Seq<char>| #[trigger]
                key_views(ks@).contains(k) <==> self@.contains_key(k) by {
                if key_views(ks@).contains(k) {
                    let j = choose|j: int| 0 <= j < key_views(ks@).len() && key_views(ks@)[j] == k;
                    lemma_pairs_view_at(self.pairs@, j);
                }
                if self@.contains_key(k) {
                    let j = choose|j: int|
                        0 <= j < self.pairs@.len() && (#[trigger] self.pairs@[j]).0@ == k;
                    assert(key_views(ks@)[j] == k);
                    assert(key_views(ks@).contains(k));
                }
            }
        }
        ks
    }

    /// Whether every constraint of this assignment, read as a rule, is
    /// satisfied by `input`.
    #[verifier::loop_isolation(false)]
    pub fn satisfied_by(&self, input: &Bag) -> (r: bool)
        ensures
            r == rule_matches(self@, input@),
    {
        proof {
            use_type_invariant(&*self);
        }
        let mut i: usize = 0;
        let n = self.pairs.len();
        while i < n
            invariant
                n == self.pairs@.len(),
                i <= n,
                forall|j: int| 0 <= j < i ==> input@.contains_key((#[trigger] self.pairs@[j]).0@)
                    && input@[self.pairs@[j].0@] == self.pairs@[j].1@,
                self.inv(),
            decreases n - i,
        {
            let ok = match input.get(&self.pairs[i].0) {
                Some(v) => *v == self.pairs[i].1,
                None => false,
            };
            if !ok {
                proof {
                    lemma_pairs_view_at(self.pairs@, i as int);
                    assert(self@.contains_key(self.pairs@[i as int].0@));
                }
                return false;
            }
            i += 1;
        }
        proof {
            assert forall|k: Seq<char>| #[trigger]
                self@.contains_key(k) implies input@.contains_key(k) && input@[k] == self@[k] by {
                let j = choose|j: int|
                    0 <= j < self.pairs@.len() && (#[trigger] self.pairs@[j]).0@ == k;
                lemma_pairs_view_at(self.pairs@, j);
            }
        }
        true
    }
}

/// Replacing the one pair that held a key and appending the new pair denotes
/// binding that key anew.
proof fn lemma_update_view(orig: Seq<(String, String)>, i: int, p: (String, String))
    requires
        pairs_distinct(orig),
        0 <= i < orig.len(),
        orig[i].0@ == p.0@,
        forall|j: int| 0 <= j < i ==> (#[trigger] orig[j]).0@ != p.0@,
    ensures
        pairs_distinct(orig.remove(i).push(p)),
        pairs_view(orig.remove(i).push(p)) == pairs_view(orig).insert(p.0@, p.1@),
{
    let s = orig.remove(i).push(p);
    let last = s.len() - 1;
    assert(forall|j: int| 0 <= j < i ==> s[j] == orig[j]);
    assert(forall|j: int| i <= j < last ==> s[j] == orig[j + 1]);
    assert(s[last] == p);
    assert(pairs_distinct(s));
    assert forall|k: Seq<char>| true implies #[trigger] pairs_view(s).contains_key(k)
        == pairs_view(orig).insert(p.0@, p.1@).contains_key(k) by {
        if k == p.0@ {
            assert(s[last].0@ == k);
        } else {
            if pairs_view(s).contains_key(k) {
                let j = choose|j: int| 0 <= j < s.len() && (#[trigger] s[j]).0@ == k;
                if j < i {
                    assert(orig[j].0@ == k);
                } else {
                    assert(orig[j + 1].0@ == k);
                }
            }
            if pairs_view(orig).contains_key(k) {
                let j = choose|j: int| 0 <= j < orig.len() && (#[trigger] orig[j]).0@ == k;
                if j < i {
                    assert(s[j].0@ == k);
                } else {
                    assert(j != i);
                    assert(s[j - 1].0@ == k);
                }
            }
        }
    }
    assert forall|k: Seq<char>| pairs_view(s).contains_key(k) implies #[trigger] pairs_view(s)[k]
        == pairs_view(orig).insert(p.0@, p.1@)[k] by {
        if k == p.0@ {
            lemma_pairs_view_at(s, last);
        } else {
            let j = choose|j: int| 0 <= j < s.len() && (#[trigger] s[j]).0@ == k;
            lemma_pairs_view_at(s, j);
            if j < i {
                lemma_pairs_view_at(orig, j);
            } else {
                lemma_pairs_view_at(orig, j + 1);
            }
        }
    }
    assert(pairs_view(s) =~= pairs_view(orig).insert(p.0@, p.1@));
}

/// Appending a pair with a fresh key denotes binding that key.
proof fn lemma_push_view(orig: Seq<(String, String)>, p: (String, String))
    requires
        pairs_distinct(orig),
        forall|j: int| 0 <= j < orig.len() ==> (#[trigger] orig[j]).0@ != p.0@,
    ensures
        pairs_distinct(orig.push(p)),
        pairs_view(orig.push(p)) == pairs_view(orig).insert(p.0@, p.1@),
{
    let s = orig.push(p);
    let last = s.len() - 1;
    assert(forall|j: int| 0 <= j < last ==> s[j] == orig[j]);
    assert(s[last] == p);
    assert(pairs_distinct(s));
    assert forall|k: Seq<char>| true implies #[trigger] pairs_view(s).contains_key(k)
        == pairs_view(orig).insert(p.0@, p.1@).contains_key(k) by {
        if k == p.0@ {
            assert(s[last].0@ == k);
        } else {
            if pairs_view(s).contains_key(k) {
                let j = choose|j: int| 0 <= j < s.len() && (#[trigger] s[j]).0@ == k;
                assert(orig[j].0@ == k);
            }
            if pairs_view(orig).contains_key(k) {
                let j = choose|j: int| 0 <= j < orig.len() && (#[trigger] orig[j]).0@ == k;
                assert(s[j].0@ == k);
            }
        }
    }
    assert forall|k: Seq<char>| pairs_view(s).contains_key(k) implies #[trigger] pairs_view(s)[k]
        == pairs_view(orig).insert(p.0@, p.1@)[k] by {
        if k == p.0@ {
            lemma_pairs_view_at(s, last);
        } else {
            let j = choose|j: int| 0 <= j < s.len() && (#[trigger] s[j]).0@ == k;
            lemma_pairs_view_at(s, j);
            lemma_pairs_view_at(orig, j);
        }
    }
    assert(pairs_view(s) =~= pairs_view(orig).insert(p.0@, p.1@));
}

/// A rule: a partial constraint set over attributes, to be satisfied exactly.
pub struct Rule(pub Bag);

impl View for Rule {
    type V = Map<Seq<char>, Seq<char>>;

    open spec fn view(&self) -> Map<Seq<char>, Seq<char>> {
        self.0@
    }
}

} // verus!
