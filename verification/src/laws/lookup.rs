//! Lookups in a well-formed tree find what the tree holds.

use crate::trie::{first, lemma_first, Relation, Trie};
use vstd::prelude::*;

verus! {

/// In a well-formed tree a lookup finds exactly what the tree holds.
pub proof fn lemma_lookup_holds(tree: Trie, key: Seq<char>, value: Seq<char>)
    requires
        tree.wf(),
    ensures
        tree.lookup(key) == Some(value) <==> tree.holds(key, value),
    decreases tree,
{
    match tree {
        Trie::Leaf { .. } => {},
        Trie::Branch { edges } => {
            lemma_first(edges, Relation::Ends, key);
            lemma_first(edges, Relation::Covers, key);
            if tree.lookup(key) == Some(value) {
                if let Some(i) = first(edges, Relation::Ends, key) {
                    assert(edges[i].holds(key, value));
                } else if let Some(i) = first(edges, Relation::Covers, key) {
                    lemma_lookup_holds(edges[i].child, key.skip(edges[i].text.len() as int), value);
                    assert(edges[i].holds(key, value));
                }
            }
            if tree.holds(key, value) {
                let i = choose|i: int| 0 <= i < edges.len() && (#[trigger] edges[i]).holds(key, value);
                if edges[i].child is Leaf {
                    assert(edges[i].text =~= key);
                    assert(edges[i].relates(Relation::Ends, key));
                    let m = first(edges, Relation::Ends, key)->0;
                    assert(edges[m].holds(key, edges[m].child->value));
                    assert(m == i);
                } else {
                    assert(edges[i].relates(Relation::Covers, key));
                    if let Some(m) = first(edges, Relation::Ends, key) {
                        assert(edges[m].holds(key, edges[m].child->value));
                        assert(false);
                    }
                    let m = first(edges, Relation::Covers, key)->0;
                    if m != i {
                        assert(edges[m].text[0] == key[0]);
                        assert(edges[i].text[0] == key[0]);
                        assert(false);
                    }
                    lemma_lookup_holds(edges[i].child, key.skip(edges[i].text.len() as int), value);
                }
            }
        },
    }
}

/// The empty tree is well formed and holds nothing.
pub proof fn lemma_empty()
    ensures
        Trie::empty().wf(),
        Trie::empty().compressed(),
        Trie::empty().entries() == Map::<Seq<char>, Seq<char>>::empty(),
        Trie::empty().keys(Seq::empty()) == Seq::<Seq<char>>::empty(),
{
    assert(Trie::empty().entries() =~= Map::<Seq<char>, Seq<char>>::empty());
}

/// A well-formed tree is compressed.
pub proof fn lemma_wf_compressed(tree: Trie)
    requires
        tree.wf(),
    ensures
        tree.compressed(),
    decreases tree,
{
    match tree {
        Trie::Leaf { .. } => {},
        Trie::Branch { edges } => {
            assert forall|i: int| 0 <= i < edges.len() implies (
            #[trigger] edges[i]).child.compressed() by {
                lemma_wf_compressed(edges[i].child);
            }
        },
    }
}

} // verus!
