use vstd::prelude::*;
use crate::my_tree::{Tree, total_order};

verus! {

broadcast use vstd::seq_lib::group_to_multiset_ensures;

/// Fold `words` into a tree that maps each distinct word to the number of its
/// occurrences: one upsert per word, starting a word at 1 and adding 1 to it
/// each time it comes again.
pub fn count_words<K: Ord>(words: Vec<K>) -> (r: Tree<K, usize>)
    requires
        total_order::<K>(),
    ensures
        r.well_formed(),
        forall|k: K| #[trigger] r@.contains_key(k) <==> words@.contains(k),
        forall|k: K| #[trigger] r@.contains_key(k) ==> r@[k] == words@.to_multiset().count(k),
{
    let len = words.len();
    let ghost ws = words@;
    let bump = |c: usize| -> (n: usize)
        requires
            c < usize::MAX,
        ensures
            n == c + 1,
        { c + 1 };
    let mut tree: Tree<K, usize> = Tree::new();
    for w in it: words.into_iter()
        invariant
            total_order::<K>(),
            forall|c: usize| c < usize::MAX ==> #[trigger] bump.requires((c,)),
            forall|c: usize, n: usize| #[trigger] bump.ensures((c,), n) ==> n == c + 1,
            it.seq() == ws,
            len == ws.len(),
            tree.well_formed(),
            forall|k: K| #[trigger] tree@.contains_key(k) <==> ws.take(it.index() as int).contains(k),
            forall|k: K| #[trigger] tree@.contains_key(k) ==>
                tree@[k] == ws.take(it.index() as int).to_multiset().count(k) && tree@[k] <= it.index(),
    {
        let ghost i = it.index() as int;
        let ghost pre = ws.take(i);
        assert(ws.take(i + 1) == pre.push(w));
        assert(i < len);
        tree = tree.insert_or_modify(w, 1, &bump);
        assert(pre.push(w).to_multiset() == pre.to_multiset().insert(w));
        assert forall|k: K| #[trigger] tree@.contains_key(k) implies
            tree@[k] == pre.push(w).to_multiset().count(k) && tree@[k] <= i + 1 by {
            if k != w {
                assert(pre.to_multiset().insert(w).count(k) == pre.to_multiset().count(k));
            } else {
                assert(pre.to_multiset().insert(w).count(k) == pre.to_multiset().count(k) + 1);
                if !pre.contains(w) {
                    assert(pre.to_multiset().count(w) == 0);
                }
            }
        }
        assert forall|k: K| #[trigger] tree@.contains_key(k) <==> pre.push(w).contains(k) by {
            if pre.push(w).contains(k) && k != w {
                let j = choose|j: int| 0 <= j < pre.push(w).len() && pre.push(w)[j] == k;
                assert(pre[j] == k);
            }
            if pre.contains(k) {
                let j = choose|j: int| 0 <= j < pre.len() && pre[j] == k;
                assert(pre.push(w)[j] == k);
            }
            assert(pre.push(w)[pre.len() as int] == w);
        }
    }
    assert(ws.take(ws.len() as int) == ws);
    tree
}

} // verus!
