use vstd::prelude::*;
use vstd::laws_cmp::obeys_cmp;
use vstd::laws_eq::obeys_concrete_eq;
use vstd::std_specs::cmp::{OrdSpec, PartialOrdSpec};
use core::cmp::Ordering;

verus! {

/// A binary search tree (not balanced). A tree is either `Null` or a `Node`
/// with a key, a value, and left and right sub-trees.
pub enum Tree<K, V> {
    Null,
    Node { key: K, value: V, left: Box<Tree<K, V>>, right: Box<Tree<K, V>> },
}

/// The key type compares as a strict total order whose `Equal` is equality.
pub open spec fn total_order<K: Ord>() -> bool {
    obeys_cmp::<K>() && obeys_concrete_eq::<K>()
}

/// `a` comes strictly before `b` in the key order.
pub open spec fn before<K: Ord>(a: K, b: K) -> bool {
    a.cmp_spec(&b) == Ordering::Less
}

/// The laws of the key order that the tree relies on.
pub proof fn lemma_order_laws<K: Ord>()
    requires
        total_order::<K>(),
    ensures
        K::obeys_cmp_spec(),
        forall|a: K, b: K| #[trigger] a.cmp_spec(&b) == Ordering::Equal <==> a == b,
        forall|a: K, b: K| #[trigger] before(a, b) <==> b.cmp_spec(&a) == Ordering::Greater,
        forall|a: K, b: K| before(a, b) ==> !before(b, a) && a != b,
        forall|a: K, b: K, c: K| #[trigger] before(a, b) && #[trigger] before(b, c) ==> before(a, c),
{
    reveal(vstd::laws_cmp::obeys_partial_cmp_spec_properties);
    reveal(vstd::laws_cmp::obeys_cmp_partial_ord);
    reveal(vstd::laws_cmp::obeys_cmp_ord);
    reveal(obeys_concrete_eq);
    assert forall|a: K, b: K| #[trigger] a.cmp_spec(&b) == Ordering::Equal <==> a == b by {
        assert(a.partial_cmp_spec(&b) == Some(a.cmp_spec(&b)));
    }
    assert forall|a: K, b: K| #[trigger] before(a, b) <==> b.cmp_spec(&a) == Ordering::Greater by {
        assert(a.partial_cmp_spec(&b) == Some(a.cmp_spec(&b)));
        assert(b.partial_cmp_spec(&a) == Some(b.cmp_spec(&a)));
    }
    assert forall|a: K, b: K, c: K| #[trigger] before(a, b) && #[trigger] before(b, c) implies before(a, c) by {
        assert(a.partial_cmp_spec(&b) == Some(a.cmp_spec(&b)));
        assert(b.partial_cmp_spec(&c) == Some(b.cmp_spec(&c)));
        assert(a.partial_cmp_spec(&c) == Some(a.cmp_spec(&c)));
    }
}

impl<K, V> Tree<K, V> {
    /// The entries of the tree as a map from key to value.
    pub open spec fn as_map(self) -> Map<K, V>
        decreases self,
    {
        match self {
            Tree::Null => Map::empty(),
            Tree::Node { key, value, left, right } =>
                left.as_map().union_prefer_right(right.as_map()).insert(key, value),
        }
    }

    /// The entries of the tree in in-order position: left sub-tree, node, right sub-tree.
    pub open spec fn inorder(self) -> Seq<(K, V)>
        decreases self,
    {
        match self {
            Tree::Null => Seq::empty(),
            Tree::Node { key, value, left, right } =>
                left.inorder().push((key, value)) + right.inorder(),
        }
    }
}

impl<K: Ord, V> Tree<K, V> {
    /// Every key of the left sub-tree comes before the node's key and every key
    /// of the right sub-tree after it, at every node.
    pub open spec fn well_formed(self) -> bool
        decreases self,
    {
        match self {
            Tree::Null => true,
            Tree::Node { key, value, left, right } => {
                &&& forall|j: K| #[trigger] left.as_map().contains_key(j) ==> before(j, key)
                &&& forall|j: K| #[trigger] right.as_map().contains_key(j) ==> before(key, j)
                &&& left.well_formed()
                &&& right.well_formed()
            },
        }
    }
}

/// The keys of the entries strictly ascend.
pub open spec fn sorted_keys<K: Ord, V>(s: Seq<(K, V)>) -> bool {
    forall|i: int, j: int| 0 <= i < j < s.len() ==> before(#[trigger] s[i].0, #[trigger] s[j].0)
}

/// The entries `s` are exactly those of `m`: each entry of `s` is in `m`, and
/// each key of `m` has an entry in `s`.
pub open spec fn lists_map<K, V>(s: Seq<(K, V)>, m: Map<K, V>) -> bool {
    &&& forall|i: int| 0 <= i < s.len() ==> #[trigger] m.contains_key(s[i].0) && m[s[i].0] == s[i].1
    &&& forall|j: K| #[trigger] m.contains_key(j) ==> exists|i: int| 0 <= i < s.len() && s[i].0 == j
}

/// The in-order entries of a well-formed tree (every tree that `new` and
/// `insert_or_modify` build is one) list its map in strictly ascending key
/// order, one entry per key.
pub proof fn lemma_inorder_sorted<K: Ord, V>(t: Tree<K, V>)
    requires
        total_order::<K>(),
        t.well_formed(),
    ensures
        sorted_keys(t.inorder()),
        lists_map(t.inorder(), t@),
    decreases t,
{
    lemma_order_laws::<K>();
    match t {
        Tree::Null => {},
        Tree::Node { key, value, left, right } => {
            lemma_inorder_sorted(*left);
            lemma_inorder_sorted(*right);
            let ls = left.inorder();
            let rs = right.inorder();
            let s = t.inorder();
            let lm = left.as_map();
            let rm = right.as_map();
            assert(s == ls.push((key, value)) + rs);
            assert forall|i: int| 0 <= i < s.len() implies #[trigger] t@.contains_key(s[i].0) && t@[s[i].0] == s[i].1 by {
                if i < ls.len() {
                    assert(s[i] == ls[i]);
                    assert(lm.contains_key(ls[i].0));
                    assert(before(ls[i].0, key));
                    assert(!rm.contains_key(ls[i].0));
                } else if i > ls.len() {
                    assert(s[i] == rs[i - ls.len() - 1]);
                    assert(rm.contains_key(s[i].0));
                } else {
                    assert(s[i] == (key, value));
                }
            }
            assert forall|j: K| #[trigger] t@.contains_key(j) implies exists|i: int| 0 <= i < s.len() && s[i].0 == j by {
                if j == key {
                    assert(s[ls.len() as int].0 == j);
                } else if rm.contains_key(j) {
                    let i = choose|i: int| 0 <= i < rs.len() && rs[i].0 == j;
                    assert(s[ls.len() + 1 + i] == rs[i]);
                } else {
                    let i = choose|i: int| 0 <= i < ls.len() && ls[i].0 == j;
                    assert(s[i] == ls[i]);
                }
            }
            assert forall|i: int, j: int| 0 <= i < j < s.len() implies before(#[trigger] s[i].0, #[trigger] s[j].0) by {
                let n = ls.len() as int;
                if j < n {
                    assert(s[i] == ls[i] && s[j] == ls[j]);
                } else if i > n {
                    assert(s[i] == rs[i - n - 1] && s[j] == rs[j - n - 1]);
                } else {
                    if i < n {
                        assert(s[i] == ls[i]);
                        assert(lm.contains_key(ls[i].0));
                    }
                    if j > n {
                        assert(s[j] == rs[j - n - 1]);
                        assert(rm.contains_key(rs[j - n - 1].0));
                    }
                }
            }
        },
    }
}

impl<K, V> View for Tree<K, V> {
    type V = Map<K, V>;

    open spec fn view(&self) -> Map<K, V> {
        self.as_map()
    }
}

impl<K: Ord, V> Tree<K, V> {
    /// Create a new, empty tree.
    pub fn new() -> (r: Tree<K, V>)
        ensures
            r.well_formed(),
            r@ == Map::<K, V>::empty(),
    {
        Tree::Null
    }

    /// Associate the value `v` with the key `k`. If the key is already present,
    /// its value is replaced by `modify` applied to it instead, and `v` is unused.
    pub fn insert_or_modify<F: Fn(V) -> V>(self, k: K, v: V, modify: &F) -> (r: Tree<K, V>)
        requires
            total_order::<K>(),
            self.well_formed(),
            self@.contains_key(k) ==> modify.requires((self@[k],)),
        ensures
            r.well_formed(),
            r@.dom() == self@.dom().insert(k),
            forall|j: K| j != k && #[trigger] self@.contains_key(j) ==> r@[j] == self@[j],
            self@.contains_key(k) ==> r@.dom() == self@.dom(),
            !self@.contains_key(k) ==> r@[k] == v,
            self@.contains_key(k) ==> modify.ensures((self@[k],), r@[k]),
        decreases self,
    {
        proof {
            lemma_order_laws::<K>();
        }
        match self {
            Tree::Null => {
                let r = Tree::Node {
                    key: k,
                    value: v,
                    left: Box::new(Tree::Null),
                    right: Box::new(Tree::Null),
                };
                assert(r@ =~= Map::<K, V>::empty().insert(k, v));
                assert(Tree::<K, V>::Null.well_formed());
                r
            },
            Tree::Node { key, value, left, right } => {
                let ghost lm = left.as_map();
                let ghost rm = right.as_map();
                match k.cmp(&key) {
                    Ordering::Equal => {
                        let nv = modify(value);
                        let r = Tree::Node { key, value: nv, left, right };
                        assert(r@ =~= self@.insert(k, nv));
                        r
                    },
                    Ordering::Less => {
                        assert(!rm.contains_key(k));
                        let nl = (*left).insert_or_modify(k, v, modify);
                        let r = Tree::Node { key, value, left: Box::new(nl), right };
                        assert(r@.dom() =~= self@.dom().insert(k));
                        r
                    },
                    Ordering::Greater => {
                        assert(!lm.contains_key(k));
                        let nr = (*right).insert_or_modify(k, v, modify);
                        let r = Tree::Node { key, value, left, right: Box::new(nr) };
                        assert(r@.dom() =~= self@.dom().insert(k));
                        r
                    },
                }
            },
        }
    }

    /// Append references to the entries of the tree to `out`, in order.
    fn collect<'a>(&'a self, out: &mut Vec<(&'a K, &'a V)>)
        ensures
            final(out)@.len() == old(out)@.len() + self.inorder().len(),
            forall|i: int| 0 <= i < old(out)@.len() ==> #[trigger] final(out)@[i] == old(out)@[i],
            forall|i: int| 0 <= i < self.inorder().len() ==>
                *(#[trigger] final(out)@[old(out)@.len() + i]).0 == self.inorder()[i].0
                && *final(out)@[old(out)@.len() + i].1 == self.inorder()[i].1,
        decreases self,
    {
        match self {
            Tree::Null => {},
            Tree::Node { key, value, left, right } => {
                let ghost n0 = out@.len();
                let ghost ls = left.inorder();
                let ghost rs = right.inorder();
                left.collect(out);
                let ghost o1 = out@;
                out.push((key, value));
                let ghost o2 = out@;
                right.collect(out);
                assert forall|i: int| 0 <= i < self.inorder().len() implies
                    *(#[trigger] out@[n0 + i]).0 == self.inorder()[i].0
                    && *out@[n0 + i].1 == self.inorder()[i].1 by {
                    if i < ls.len() {
                        assert(self.inorder()[i] == ls[i]);
                        assert(o1[n0 + i] == o2[n0 + i]);
                        assert(out@[n0 + i] == o2[n0 + i]);
                    } else if i > ls.len() {
                        assert(self.inorder()[i] == rs[i - ls.len() - 1]);
                        assert(out@[o2.len() + (i - ls.len() - 1)] == out@[n0 + i]);
                    } else {
                        assert(out@[n0 + i] == o2[n0 + i]);
                    }
                }
            },
        }
    }

    /// The entries of the tree, visited in order: left sub-tree, node, right
    /// sub-tree. For a well-formed tree this is ascending key order, one entry
    /// for each key.
    pub fn each(&self) -> (r: Vec<(&K, &V)>)
        requires
            total_order::<K>(),
            self.well_formed(),
        ensures
            r@.len() == self.inorder().len(),
            forall|i: int| 0 <= i < r@.len() ==>
                *(#[trigger] r@[i]).0 == self.inorder()[i].0 && *r@[i].1 == self.inorder()[i].1,
            sorted_keys(self.inorder()),
            lists_map(self.inorder(), self@),
    {
        proof {
            lemma_inorder_sorted(*self);
        }
        let mut out: Vec<(&K, &V)> = Vec::new();
        self.collect(&mut out);
        assert forall|i: int| 0 <= i < out@.len() implies
            *(#[trigger] out@[i]).0 == self.inorder()[i].0 && *out@[i].1 == self.inorder()[i].1 by {
            assert(out@[0 + i] == out@[i]);
        }
        out
    }
}

} // verus!
