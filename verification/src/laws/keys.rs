//! The enumeration of a well-formed tree lists every key that the tree
//! holds, once.

use crate::laws::insert::{lemma_insert, lemma_insert_entries};
use crate::laws::lookup::{lemma_empty, lemma_lookup_holds};
use crate::text::lemma_prefix_rest;
use crate::trie::{keys_of, Edge, Trie};
use vstd::prelude::*;

verus! {

/// The enumeration of some edges lists what the enumeration of one of them
/// lists.
proof fn lemma_keys_of_member(edges: Seq<Edge>, prefix: Seq<char>, x: Seq<char>)
    ensures
        keys_of(edges, prefix).contains(x) <==> exists|m: int|
            0 <= m < edges.len() && (#[trigger] edges[m]).keys(prefix).contains(x),
    decreases edges.len(),
{
    if edges.len() > 0 {
        let front = edges.drop_last();
        let n = edges.len() - 1;
        let a = keys_of(front, prefix);
        let b = edges[n].keys(prefix);
        lemma_keys_of_member(front, prefix, x);
        if (a + b).contains(x) {
            let i = choose|i: int| 0 <= i < (a + b).len() && (a + b)[i] == x;
            if i < a.len() {
                assert(a[i] == x);
                let m = choose|m: int|
                    0 <= m < front.len() && (#[trigger] front[m]).keys(prefix).contains(x);
                assert(edges[m].keys(prefix).contains(x));
            } else {
                assert(b[i - a.len()] == x);
                assert(edges[n].keys(prefix).contains(x));
            }
        }
        if exists|m: int| 0 <= m < edges.len() && (#[trigger] edges[m]).keys(prefix).contains(x) {
            let m = choose|m: int|
                0 <= m < edges.len() && (#[trigger] edges[m]).keys(prefix).contains(x);
            if m == n {
                let j = choose|j: int| 0 <= j < b.len() && b[j] == x;
                assert((a + b)[a.len() + j] == x);
            } else {
                assert(front[m].keys(prefix).contains(x));
                let i = choose|i: int| 0 <= i < a.len() && a[i] == x;
                assert((a + b)[i] == x);
            }
        }
    }
}

/// A key that the enumeration of an edge lists begins with the prefix, and
/// the edge holds what follows the prefix, with the value that is returned.
proof fn lemma_edge_key_is_held(edge: Edge, prefix: Seq<char>, x: Seq<char>) -> (v: Seq<char>)
    requires
        edge.keys(prefix).contains(x),
    ensures
        prefix.is_prefix_of(x),
        edge.holds(x.skip(prefix.len() as int), v),
    decreases edge, 0nat,
{
    let n = prefix.len() as int;
    match edge.child {
        Trie::Leaf { value } => {
            assert(edge.keys(prefix)[0] == prefix + edge.text);
            assert(prefix =~= x.subrange(0, n));
            assert(x.skip(n) =~= edge.text);
            assert(edge.text =~= x.skip(n).subrange(0, edge.text.len() as int));
            value
        },
        Trie::Branch { .. } => {
            let path = prefix + edge.text;
            let v = lemma_key_is_held(edge.child, path, x);
            assert(prefix =~= path.subrange(0, n));
            lemma_prefix_rest(prefix, path, x);
            assert(path.skip(n) =~= edge.text);
            v
        },
    }
}

/// A key that the enumeration of a tree lists begins with the prefix, and
/// the tree holds what follows the prefix, with the value that is returned.
proof fn lemma_key_is_held(tree: Trie, prefix: Seq<char>, x: Seq<char>) -> (v: Seq<char>)
    requires
        tree.keys(prefix).contains(x),
    ensures
        prefix.is_prefix_of(x),
        tree.holds(x.skip(prefix.len() as int), v),
    decreases tree, 1nat,
{
    match tree {
        Trie::Leaf { .. } => {
            assert(false);
            Seq::empty()
        },
        Trie::Branch { edges } => {
            lemma_keys_of_member(edges, prefix, x);
            let m = choose|m: int|
                0 <= m < edges.len() && (#[trigger] edges[m]).keys(prefix).contains(x);
            lemma_edge_key_is_held(edges[m], prefix, x)
        },
    }
}

/// The enumeration lists every key that the tree holds, behind the prefix.
proof fn lemma_held_is_key(tree: Trie, prefix: Seq<char>, q: Seq<char>, v: Seq<char>)
    requires
        tree.holds(q, v),
    ensures
        tree.keys(prefix).contains(prefix + q),
    decreases tree,
{
    match tree {
        Trie::Leaf { .. } => {},
        Trie::Branch { edges } => {
            let m = choose|m: int| 0 <= m < edges.len() && (#[trigger] edges[m]).holds(q, v);
            let edge = edges[m];
            match edge.child {
                Trie::Leaf { .. } => {
                    assert(edge.text =~= q);
                    assert(edge.keys(prefix)[0] == prefix + q);
                },
                Trie::Branch { .. } => {
                    let n = edge.text.len() as int;
                    lemma_held_is_key(edge.child, prefix + edge.text, q.skip(n), v);
                    assert(prefix + edge.text + q.skip(n) =~= prefix + q);
                },
            }
            assert(edges[m].keys(prefix).contains(prefix + q));
            lemma_keys_of_member(edges, prefix, prefix + q);
        },
    }
}

/// The enumeration of the first `n` edges of a well-formed branch lists no
/// key twice.
proof fn lemma_keys_of_distinct(edges: Seq<Edge>, n: int, prefix: Seq<char>)
    requires
        Trie::branch(edges).wf(),
        0 <= n <= edges.len(),
    ensures
        keys_of(edges.take(n), prefix).no_duplicates(),
    decreases edges, n,
{
    if n > 0 {
        let front = edges.take(n - 1);
        let edge = edges[n - 1];
        let a = keys_of(front, prefix);
        let b = edge.keys(prefix);
        assert(edges.take(n).drop_last() =~= front);
        assert(edges.take(n).last() == edge);
        lemma_keys_of_distinct(edges, n - 1, prefix);
        if edge.child is Branch {
            lemma_keys_distinct(edge.child, prefix + edge.text);
        }
        assert forall|i: int, j: int| 0 <= i < a.len() && 0 <= j < b.len() implies a[i] != b[j] by {
            if a[i] == b[j] {
                let x = a[i];
                assert(a.contains(x));
                assert(b.contains(x));
                lemma_keys_of_member(front, prefix, x);
                let m = choose|m: int|
                    0 <= m < front.len() && (#[trigger] front[m]).keys(prefix).contains(x);
                assert(front[m] == edges[m]);
                let v = lemma_edge_key_is_held(edges[m], prefix, x);
                let w = lemma_edge_key_is_held(edge, prefix, x);
                assert(edges[m].holds(x.skip(prefix.len() as int), v));
                assert(edges[n - 1].holds(x.skip(prefix.len() as int), w));
                assert(false);
            }
        }
        vstd::seq_lib::lemma_no_dup_in_concat(a, b);
    }
}

/// The enumeration of a well-formed tree lists no key twice.
proof fn lemma_keys_distinct(tree: Trie, prefix: Seq<char>)
    requires
        tree.wf(),
    ensures
        tree.keys(prefix).no_duplicates(),
    decreases tree, 0int,
{
    match tree {
        Trie::Leaf { .. } => {},
        Trie::Branch { edges } => {
            lemma_keys_of_distinct(edges, edges.len() as int, prefix);
            assert(edges.take(edges.len() as int) =~= edges);
        },
    }
}

/// The enumeration of a well-formed tree lists every key that the tree
/// holds, each once and no other: the keys are as many as the tree holds.
pub proof fn lemma_keys(tree: Trie)
    requires
        tree.wf(),
    ensures
        tree.keys(Seq::empty()).no_duplicates(),
        tree.keys(Seq::empty()).to_set() == tree.entries().dom(),
        tree.entries().dom().finite(),
        tree.keys(Seq::empty()).len() == tree.entries().dom().len(),
{
    let keys = tree.keys(Seq::empty());
    let nothing = Seq::<char>::empty();
    lemma_keys_distinct(tree, nothing);
    assert forall|x: Seq<char>| keys.contains(x) <==> tree.entries().dom().contains(x) by {
        if keys.contains(x) {
            let v = lemma_key_is_held(tree, nothing, x);
            assert(x.skip(0) =~= x);
            lemma_lookup_holds(tree, x, v);
        }
        if let Some(v) = tree.lookup(x) {
            lemma_lookup_holds(tree, x, v);
            lemma_held_is_key(tree, nothing, x, v);
            assert(nothing + x =~= x);
        }
    }
    assert(keys.to_set() =~= tree.entries().dom());
    vstd::seq_lib::seq_to_set_is_finite(keys);
    keys.unique_seq_to_set();
}

/// A branch of a well-formed tree that has an edge holds a key.
proof fn lemma_branch_holds(tree: Trie) -> (held: (Seq<char>, Seq<char>))
    requires
        tree.wf(),
        tree is Branch,
        tree->edges.len() > 0,
    ensures
        tree.holds(held.0, held.1),
    decreases tree,
{
    let edge = tree->edges[0];
    match edge.child {
        Trie::Leaf { value } => {
            assert(edge.text =~= edge.text.subrange(0, edge.text.len() as int));
            assert(edge.holds(edge.text, value));
            (edge.text, value)
        },
        Trie::Branch { .. } => {
            let below = lemma_branch_holds(edge.child);
            let key = edge.text + below.0;
            assert(edge.text =~= key.subrange(0, edge.text.len() as int));
            assert(key.skip(edge.text.len() as int) =~= below.0);
            assert(edge.holds(key, below.1));
            (key, below.1)
        },
    }
}

/// A well-formed tree holds nothing exactly when its root has no edge.
pub proof fn lemma_empty_holds_nothing(tree: Trie)
    requires
        tree.wf(),
        tree is Branch,
    ensures
        tree == Trie::empty() <==> tree.entries().dom() == Set::<Seq<char>>::empty(),
        tree == Trie::empty() <==> tree.keys(Seq::empty()).len() == 0,
{
    lemma_empty();
    lemma_keys(tree);
    if tree->edges.len() > 0 {
        let held = lemma_branch_holds(tree);
        lemma_lookup_holds(tree, held.0, held.1);
        assert(tree.entries().dom().contains(held.0));
        assert(tree.keys(Seq::empty()).contains(held.0));
    } else {
        assert(tree->edges =~= Seq::<Edge>::empty());
    }
}

/// An insertion into a well-formed tree leaves the number of keys as it was
/// where the tree held the key, and adds one to it where it did not.
pub proof fn lemma_insert_len(tree: Trie, key: Seq<char>, value: Seq<char>)
    requires
        tree.wf(),
        tree is Branch,
    ensures
        tree.inserted(key, value).keys(Seq::empty()).len() == if tree.entries().contains_key(key) {
            tree.keys(Seq::empty()).len()
        } else {
            tree.keys(Seq::empty()).len() + 1
        },
{
    let after = tree.inserted(key, value);
    lemma_insert(tree, key, value);
    lemma_insert_entries(tree, key, value);
    lemma_keys(tree);
    lemma_keys(after);
    assert(after.entries().dom() =~= tree.entries().dom().insert(key));
}

} // verus!
