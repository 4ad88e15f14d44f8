//! An insertion keeps a well-formed tree well formed and changes what it
//! holds at one key.

use crate::laws::lookup::lemma_lookup_holds;
use crate::text::{
    common_prefix, lemma_common_prefix, lemma_common_prefix_symmetric,
    lemma_prefix_by_common_prefix, lemma_prefix_rest, lemma_take_is_prefix,
};
use crate::trie::{
    apart, first, lemma_best_overlap, lemma_first, no_branch_begins, single, step, Edge, Relation,
    Step, Trie,
};
use vstd::prelude::*;

verus! {

/// What is known of the edge that a step names.
pub(crate) proof fn lemma_step(edges: Seq<Edge>, key: Seq<char>)
    ensures
        match step(edges, key) {
            Step::Fork(i) => {
                &&& 0 <= i < edges.len()
                &&& 0 < common_prefix(edges[i].text, key) < edges[i].text.len()
                &&& first(edges, Relation::Ends, key) is None
                &&& edges[i].child is Leaf ==> no_branch_begins(edges, key[0])
            },
            Step::Descend(i) => {
                &&& 0 <= i < edges.len()
                &&& edges[i].child is Branch
                &&& edges[i].text.is_prefix_of(key)
                &&& common_prefix(edges[i].text, key) > 0
                &&& first(edges, Relation::Ends, key) is None
            },
            Step::Replace(i) => 0 <= i < edges.len() && edges[i].relates(Relation::Ends, key),
            Step::Append => forall|j: int|
                0 <= j < edges.len() ==> !(#[trigger] edges[j]).relates(Relation::Ends, key)
                    && !edges[j].relates(Relation::Meets, key),
        },
{
    lemma_first(edges, Relation::Ends, key);
    lemma_first(edges, Relation::Meets, key);
    lemma_first(edges, Relation::Extends, key);
    lemma_best_overlap(edges, key);
    if first(edges, Relation::Ends, key) is None {
        if let Some(i) = first(edges, Relation::Meets, key) {
            lemma_prefix_by_common_prefix(edges[i].text, key);
            lemma_common_prefix(edges[i].text, key);
        } else if let Step::Fork(i) = step(edges, key) {
            if let Some(i) = first(edges, Relation::Extends, key) {
                lemma_prefix_by_common_prefix(key, edges[i].text);
                lemma_common_prefix_symmetric(key, edges[i].text);
            }
            assert(key.len() > 0) by {
                lemma_common_prefix(edges[i].text, key);
            }
            assert forall|j: int|
                0 <= j < edges.len() && (#[trigger] edges[j]).child is Branch
                    && edges[j].text.len() > 0 implies edges[j].text[0] != key[0] by {
                if edges[j].text[0] == key[0] {
                    assert(edges[j].relates(Relation::Meets, key));
                }
            }
        }
    }
}

/// Putting `made` in the place of the edge at `i` keeps the edges apart,
/// where `made` enters a branch only with a text that begins as the edge in
/// its place did, or as no edge into a branch does.
proof fn lemma_apart_exchange(edges: Seq<Edge>, i: int, made: Edge)
    requires
        apart(edges),
        0 <= i < edges.len(),
        made.child is Branch ==> made.text.len() > 0,
        made.child is Branch && edges[i].child is Branch ==> made.text[0] == edges[i].text[0],
        made.child is Branch && edges[i].child is Leaf ==> no_branch_begins(edges, made.text[0]),
    ensures
        apart(edges.update(i, made)),
{
    let after = edges.update(i, made);
    assert forall|a: int, b: int|
        0 <= a < after.len() && 0 <= b < after.len() && a != b && (#[trigger] after[a]).child
            is Branch && (#[trigger] after[b]).child is Branch implies after[a].text[0]
        != after[b].text[0] by {
        if a != i && b != i {
            assert(edges[a].child is Branch && edges[b].child is Branch);
        } else {
            let o = if a == i {
                b
            } else {
                a
            };
            assert(edges[o].child is Branch);
            assert(edges[o].text.len() > 0);
        }
    }
    assert forall|a: int| 0 <= a < after.len() && (#[trigger] after[a]).child is Branch implies
        after[a].text.len() > 0 by {
        if a != i {
            assert(edges[a].child is Branch);
        }
    }
}

/// What a forked edge holds: what the edge held, and the key with its value.
proof fn lemma_fork_holds(
    edge: Edge,
    key: Seq<char>,
    value: Seq<char>,
    q: Seq<char>,
    v: Seq<char>,
)
    requires
        0 < common_prefix(edge.text, key) < edge.text.len(),
    ensures
        edge.fork(key, value).holds(q, v) <==> edge.holds(q, v) || (q == key && v == value),
{
    let c = edge.text;
    let p = common_prefix(c, key) as int;
    let head = key.take(p);
    let forked = edge.fork(key, value);
    let inner = forked.child->edges;
    let r = q.skip(p);
    lemma_common_prefix(c, key);
    lemma_take_is_prefix(key, p);
    lemma_take_is_prefix(c, p);
    assert(head.is_prefix_of(c));
    lemma_prefix_rest(head, c, q);
    lemma_prefix_rest(head, key, q);
    assert(inner[0] == Edge::leaf(key.skip(p), value));
    assert(inner[1] == edge.cut(p));
    if edge.holds(q, v) {
        assert(inner[1].holds(r, v));
        assert(forked.child.holds(r, v));
    }
    if q == key && v == value {
        assert(key.skip(p).is_prefix_of(key.skip(p))) by {
            assert(key.skip(p) =~= key.skip(p).subrange(0, key.skip(p).len() as int));
        }
        assert(inner[0].holds(r, v));
        assert(forked.child.holds(r, v));
    }
    if forked.holds(q, v) {
        let m = choose|m: int| 0 <= m < inner.len() && (#[trigger] inner[m]).holds(r, v);
        if m == 0 {
            assert(key.skip(p) =~= r);
        } else {
            assert(m == 1);
        }
    }
}

/// The branch that a fork makes is well formed, and the forked edge begins
/// as the key does.
proof fn lemma_fork_wf(edge: Edge, key: Seq<char>, value: Seq<char>)
    requires
        0 < common_prefix(edge.text, key) < edge.text.len(),
        edge.child.wf(),
        edge.child matches Trie::Branch { edges: below } ==> below.len() > 0,
    ensures
        edge.fork(key, value).child is Branch,
        edge.fork(key, value).child.wf(),
        edge.fork(key, value).child->edges.len() == 2,
        edge.fork(key, value).text.len() > 0,
        edge.fork(key, value).text[0] == key[0],
        edge.text[0] == key[0],
{
    let c = edge.text;
    let p = common_prefix(c, key) as int;
    let forked = edge.fork(key, value);
    let inner = forked.child->edges;
    lemma_common_prefix(c, key);
    assert(c.take(p)[0] == key.take(p)[0]);
    assert(inner[0] == Edge::leaf(key.skip(p), value));
    assert(inner[1] == edge.cut(p));
    assert forall|i: int, j: int, k: Seq<char>, v: Seq<char>, w: Seq<char>|
        0 <= i < inner.len() && 0 <= j < inner.len() && i != j && #[trigger] inner[i].holds(
            k,
            v,
        ) implies !#[trigger] inner[j].holds(k, w) by {
        if inner[j].holds(k, w) {
            assert(inner[0].holds(k, if i == 0 { v } else { w }));
            assert(inner[1].holds(k, if i == 0 { w } else { v }));
            assert(k =~= key.skip(p));
            assert(c.skip(p).is_prefix_of(k));
            if p < key.len() {
                assert(c.skip(p)[0] == k.subrange(0, c.skip(p).len() as int)[0]);
                assert(false);
            }
        }
    }
    assert(single(inner));
    assert(apart(inner));
    assert forall|m: int| 0 <= m < inner.len() implies (#[trigger] inner[m]).child.wf() && (
    inner[m].child matches Trie::Branch { edges: below } ==> below.len() > 0) by {
        if m == 0 {
            assert(inner[m].child is Leaf);
        } else {
            assert(inner[m].child == edge.child);
        }
    }
}

/// No edge of a branch holds a key for which an edge of the branch is
/// forked.
proof fn lemma_fork_key_is_new(edges: Seq<Edge>, i: int, key: Seq<char>)
    requires
        apart(edges),
        0 <= i < edges.len(),
        0 < common_prefix(edges[i].text, key) < edges[i].text.len(),
        first(edges, Relation::Ends, key) is None,
        edges[i].child is Leaf ==> no_branch_begins(edges, key[0]),
    ensures
        forall|j: int, w: Seq<char>| 0 <= j < edges.len() ==> !(#[trigger] edges[j].holds(key, w)),
{
    lemma_first(edges, Relation::Ends, key);
    lemma_common_prefix(edges[i].text, key);
    let p = common_prefix(edges[i].text, key) as int;
    assert(edges[i].text.take(p)[0] == key.take(p)[0]);
    assert forall|j: int, w: Seq<char>| 0 <= j < edges.len() implies !(#[trigger] edges[j].holds(
        key,
        w,
    )) by {
        if edges[j].holds(key, w) {
            if edges[j].child is Leaf {
                assert(edges[j].text =~= key);
                assert(edges[j].relates(Relation::Ends, key));
            } else {
                assert(edges[j].text[0] == key.subrange(0, edges[j].text.len() as int)[0]);
                if j == i {
                    lemma_prefix_by_common_prefix(edges[i].text, key);
                }
            }
        }
    }
}

/// Putting `made` in the place of the edge at `i` keeps a branch well formed
/// and sets what it holds at `key`, where `made` holds what that edge held
/// but `value` at `key`, no other edge holds `key`, and the edges stay apart.
proof fn lemma_exchange(edges: Seq<Edge>, i: int, made: Edge, key: Seq<char>, value: Seq<char>)
    requires
        Trie::branch(edges).wf(),
        0 <= i < edges.len(),
        forall|q: Seq<char>, v: Seq<char>| #[trigger]
            made.holds(q, v) <==> (if q == key {
                v == value
            } else {
                edges[i].holds(q, v)
            }),
        forall|j: int, w: Seq<char>|
            0 <= j < edges.len() && j != i ==> !(#[trigger] edges[j].holds(key, w)),
        apart(edges.update(i, made)),
        made.child.wf(),
        made.child matches Trie::Branch { edges: below } ==> below.len() > 0,
    ensures
        Trie::branch(edges.update(i, made)).wf(),
        Trie::branch(edges.update(i, made)).sets(Trie::branch(edges), key, value),
{
    let after = edges.update(i, made);
    assert forall|q: Seq<char>, v: Seq<char>| #[trigger]
        Trie::branch(after).holds(q, v) <==> (if q == key {
            v == value
        } else {
            Trie::branch(edges).holds(q, v)
        }) by {
        if Trie::branch(after).holds(q, v) {
            let m = choose|m: int| 0 <= m < after.len() && (#[trigger] after[m]).holds(q, v);
            if m != i {
                assert(edges[m].holds(q, v));
            } else if q != key {
                assert(edges[i].holds(q, v));
            }
        }
        if q == key && v == value {
            assert(after[i].holds(q, v));
        }
        if q != key && Trie::branch(edges).holds(q, v) {
            let m = choose|m: int| 0 <= m < edges.len() && (#[trigger] edges[m]).holds(q, v);
            assert(after[m].holds(q, v));
        }
    }
    assert forall|a: int, b: int, k: Seq<char>, v: Seq<char>, w: Seq<char>|
        0 <= a < after.len() && 0 <= b < after.len() && a != b && #[trigger] after[a].holds(
            k,
            v,
        ) implies !#[trigger] after[b].holds(k, w) by {
        if after[b].holds(k, w) {
            if a == i {
                assert(edges[b].holds(k, w));
                if k != key {
                    assert(edges[a].holds(k, v));
                }
            } else if b == i {
                assert(edges[a].holds(k, v));
                if k != key {
                    assert(edges[b].holds(k, w));
                }
            } else {
                assert(edges[a].holds(k, v));
                assert(edges[b].holds(k, w));
            }
            assert(false);
        }
    }
    assert(single(after));
    assert forall|m: int| 0 <= m < after.len() implies (#[trigger] after[m]).child.wf() && (
    after[m].child matches Trie::Branch { edges: below } ==> below.len() > 0) by {
        if m != i {
            assert(after[m] == edges[m]);
        }
    }
}

/// A fork keeps a branch well formed and sets what it holds at the key.
proof fn lemma_fork_step(edges: Seq<Edge>, i: int, key: Seq<char>, value: Seq<char>)
    requires
        Trie::branch(edges).wf(),
        0 <= i < edges.len(),
        0 < common_prefix(edges[i].text, key) < edges[i].text.len(),
        first(edges, Relation::Ends, key) is None,
        edges[i].child is Leaf ==> no_branch_begins(edges, key[0]),
    ensures
        Trie::branch(edges.update(i, edges[i].fork(key, value))).wf(),
        Trie::branch(edges.update(i, edges[i].fork(key, value))).sets(
            Trie::branch(edges),
            key,
            value,
        ),
{
    let made = edges[i].fork(key, value);
    lemma_fork_key_is_new(edges, i, key);
    lemma_fork_wf(edges[i], key, value);
    assert forall|q: Seq<char>, v: Seq<char>| #[trigger]
        made.holds(q, v) <==> (if q == key {
            v == value
        } else {
            edges[i].holds(q, v)
        }) by {
        lemma_fork_holds(edges[i], key, value, q, v);
    }
    lemma_apart_exchange(edges, i, made);
    lemma_exchange(edges, i, made, key, value);
}

/// A descent keeps a branch well formed and sets what it holds at the key,
/// where the branch below does so for the rest of the key.
proof fn lemma_descend_step(
    edges: Seq<Edge>,
    i: int,
    key: Seq<char>,
    value: Seq<char>,
    below: Trie,
)
    requires
        Trie::branch(edges).wf(),
        0 <= i < edges.len(),
        edges[i].child is Branch,
        edges[i].text.is_prefix_of(key),
        first(edges, Relation::Ends, key) is None,
        below.wf(),
        below is Branch,
        below->edges.len() > 0,
        below.sets(edges[i].child, key.skip(edges[i].text.len() as int), value),
    ensures
        Trie::branch(edges.update(i, Edge { text: edges[i].text, child: below })).wf(),
        Trie::branch(edges.update(i, Edge { text: edges[i].text, child: below })).sets(
            Trie::branch(edges),
            key,
            value,
        ),
{
    let text = edges[i].text;
    let made = Edge { text, child: below };
    lemma_first(edges, Relation::Ends, key);
    assert(text[0] == key.subrange(0, text.len() as int)[0]);
    assert forall|q: Seq<char>, v: Seq<char>| #[trigger]
        made.holds(q, v) <==> (if q == key {
            v == value
        } else {
            edges[i].holds(q, v)
        }) by {
        lemma_prefix_rest(text, key, q);
        let r = q.skip(text.len() as int);
        let rest = key.skip(text.len() as int);
        assert(made.holds(q, v) == (text.is_prefix_of(q) && below.holds(r, v)));
        assert(edges[i].holds(q, v) == (text.is_prefix_of(q) && edges[i].child.holds(r, v)));
        assert(below.holds(r, v) <==> (if r == rest {
            v == value
        } else {
            edges[i].child.holds(r, v)
        }));
    }
    assert forall|j: int, w: Seq<char>| 0 <= j < edges.len() && j != i implies !(
    #[trigger] edges[j].holds(key, w)) by {
        if edges[j].holds(key, w) {
            if edges[j].child is Leaf {
                assert(edges[j].text =~= key);
                assert(edges[j].relates(Relation::Ends, key));
            } else {
                assert(edges[j].text[0] == key.subrange(0, edges[j].text.len() as int)[0]);
            }
        }
    }
    lemma_apart_exchange(edges, i, made);
    lemma_exchange(edges, i, made, key, value);
}

/// Giving the leaf edge that spells the key a new value keeps a branch well
/// formed and sets what it holds at the key.
proof fn lemma_replace_step(edges: Seq<Edge>, i: int, key: Seq<char>, value: Seq<char>)
    requires
        Trie::branch(edges).wf(),
        0 <= i < edges.len(),
        edges[i].relates(Relation::Ends, key),
    ensures
        Trie::branch(edges.update(i, Edge::leaf(key, value))).wf(),
        Trie::branch(edges.update(i, Edge::leaf(key, value))).sets(Trie::branch(edges), key, value),
{
    let made = Edge::leaf(key, value);
    assert(edges[i].holds(key, edges[i].child->value)) by {
        assert(key =~= key.subrange(0, key.len() as int));
    }
    assert forall|q: Seq<char>, v: Seq<char>| #[trigger]
        made.holds(q, v) <==> (if q == key {
            v == value
        } else {
            edges[i].holds(q, v)
        }) by {
        if q == key {
            assert(key =~= key.subrange(0, key.len() as int));
        } else if made.holds(q, v) || edges[i].holds(q, v) {
            assert(q.subrange(0, key.len() as int) =~= q);
        }
    }
    lemma_apart_exchange(edges, i, made);
    lemma_exchange(edges, i, made, key, value);
}

/// Adding a leaf edge for a key that no edge holds keeps a branch well
/// formed and sets what it holds at the key.
proof fn lemma_append_step(edges: Seq<Edge>, key: Seq<char>, value: Seq<char>)
    requires
        Trie::branch(edges).wf(),
        forall|j: int, w: Seq<char>| 0 <= j < edges.len() ==> !(#[trigger] edges[j].holds(key, w)),
    ensures
        Trie::branch(edges.push(Edge::leaf(key, value))).wf(),
        Trie::branch(edges.push(Edge::leaf(key, value))).sets(Trie::branch(edges), key, value),
{
    let made = Edge::leaf(key, value);
    let after = edges.push(made);
    let n = edges.len() as int;
    assert(made.holds(key, value)) by {
        assert(key =~= key.subrange(0, key.len() as int));
    }
    assert forall|q: Seq<char>, v: Seq<char>| #[trigger]
        Trie::branch(after).holds(q, v) <==> (if q == key {
            v == value
        } else {
            Trie::branch(edges).holds(q, v)
        }) by {
        if Trie::branch(after).holds(q, v) {
            let m = choose|m: int| 0 <= m < after.len() && (#[trigger] after[m]).holds(q, v);
            if m != n {
                assert(edges[m].holds(q, v));
            } else {
                assert(q =~= key);
            }
        }
        if q == key && v == value {
            assert(after[n].holds(q, v));
        }
        if q != key && Trie::branch(edges).holds(q, v) {
            let m = choose|m: int| 0 <= m < edges.len() && (#[trigger] edges[m]).holds(q, v);
            assert(after[m].holds(q, v));
        }
    }
    assert forall|a: int, b: int, k: Seq<char>, v: Seq<char>, w: Seq<char>|
        0 <= a < after.len() && 0 <= b < after.len() && a != b && #[trigger] after[a].holds(
            k,
            v,
        ) implies !#[trigger] after[b].holds(k, w) by {
        if after[b].holds(k, w) {
            if a == n {
                assert(k =~= key);
                assert(edges[b].holds(k, w));
            } else if b == n {
                assert(k =~= key);
                assert(edges[a].holds(k, v));
            } else {
                assert(edges[a].holds(k, v));
                assert(edges[b].holds(k, w));
            }
            assert(false);
        }
    }
    assert(single(after));
    assert(apart(after)) by {
        assert forall|a: int, b: int|
            0 <= a < after.len() && 0 <= b < after.len() && a != b && (#[trigger] after[a]).child
                is Branch && (#[trigger] after[b]).child is Branch implies after[a].text[0]
            != after[b].text[0] by {
            assert(edges[a].child is Branch && edges[b].child is Branch);
        }
        assert forall|a: int| 0 <= a < after.len() && (#[trigger] after[a]).child is Branch implies
            after[a].text.len() > 0 by {
            assert(edges[a].child is Branch);
        }
    }
    assert forall|m: int| 0 <= m < after.len() implies (#[trigger] after[m]).child.wf() && (
    after[m].child matches Trie::Branch { edges: below } ==> below.len() > 0) by {
        if m != n {
            assert(after[m] == edges[m]);
        }
    }
}

/// An insertion keeps a well-formed tree well formed, and sets what it holds
/// at the key: the key has the new value, and every other key what it had.
pub proof fn lemma_insert(tree: Trie, key: Seq<char>, value: Seq<char>)
    requires
        tree.wf(),
        tree is Branch,
    ensures
        tree.inserted(key, value).wf(),
        tree.inserted(key, value).sets(tree, key, value),
        tree.inserted(key, value) is Branch,
        tree.inserted(key, value)->edges.len() > 0,
    decreases tree,
{
    let edges = tree->edges;
    lemma_step(edges, key);
    assert(tree == Trie::branch(edges));
    match step(edges, key) {
        Step::Fork(i) => {
            lemma_fork_step(edges, i, key, value);
        },
        Step::Descend(i) => {
            let rest = key.skip(edges[i].text.len() as int);
            lemma_insert(edges[i].child, rest, value);
            lemma_descend_step(edges, i, key, value, edges[i].child.inserted(rest, value));
        },
        Step::Replace(i) => {
            lemma_replace_step(edges, i, key, value);
        },
        Step::Append => {
            assert forall|j: int, w: Seq<char>| 0 <= j < edges.len() implies !(
            #[trigger] edges[j].holds(key, w)) by {
                if edges[j].holds(key, w) {
                    if edges[j].child is Leaf {
                        assert(edges[j].text =~= key);
                        assert(edges[j].relates(Relation::Ends, key));
                    } else {
                        assert(edges[j].text[0] == key.subrange(0, edges[j].text.len() as int)[0]);
                        assert(edges[j].relates(Relation::Meets, key));
                    }
                }
            }
            lemma_append_step(edges, key, value);
        },
    }
}

/// After an insertion into a well-formed tree, a lookup of the key finds the
/// new value, and a lookup of any other key finds what it found before.
pub proof fn lemma_insert_lookup(tree: Trie, key: Seq<char>, value: Seq<char>, other: Seq<char>)
    requires
        tree.wf(),
        tree is Branch,
    ensures
        tree.inserted(key, value).lookup(key) == Some(value),
        other != key ==> tree.inserted(key, value).lookup(other) == tree.lookup(other),
{
    let after = tree.inserted(key, value);
    lemma_insert(tree, key, value);
    lemma_lookup_holds(after, key, value);
    if other != key {
        match after.lookup(other) {
            Some(v) => {
                lemma_lookup_holds(after, other, v);
                lemma_lookup_holds(tree, other, v);
            },
            None => {
                if let Some(w) = tree.lookup(other) {
                    lemma_lookup_holds(tree, other, w);
                    lemma_lookup_holds(after, other, w);
                }
            },
        }
    }
}

/// An insertion into a well-formed tree is an insertion into the map of what
/// the tree holds.
pub proof fn lemma_insert_entries(tree: Trie, key: Seq<char>, value: Seq<char>)
    requires
        tree.wf(),
        tree is Branch,
    ensures
        tree.inserted(key, value).entries() == tree.entries().insert(key, value),
{
    let after = tree.inserted(key, value);
    assert forall|q: Seq<char>|
        after.lookup(q) == (if q == key {
            Some(value)
        } else {
            tree.lookup(q)
        }) by {
        lemma_insert_lookup(tree, key, value, q);
    }
    assert(after.entries() =~= tree.entries().insert(key, value));
}

} // verus!
