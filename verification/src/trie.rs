//! The mathematical model of the tree: what a compressed trie is, what a
//! lookup finds in it, what an insertion makes of it, and which keys it
//! enumerates.

use crate::text::common_prefix;
use vstd::prelude::*;

verus! {

/// A link from a branch to one of its children. `text` is the part of a key
/// that the link consumes. A key ends at the link when the child is a leaf.
pub struct Edge {
    pub text: Seq<char>,
    pub child: Trie,
}

/// A compressed trie over character sequences.
pub enum Trie {
    /// The value stored for the key that ends at the edge above.
    Leaf { value: Seq<char> },
    /// The edges that leave a position at which keys continue, in the order in
    /// which they were made.
    Branch { edges: Seq<Edge> },
}

/// The ways in which an edge can stand to the rest of a key.
#[derive(Clone, Copy, Debug, PartialEq, Eq)]
pub enum Relation {
    /// The edge's text begins with the key, which is not empty, and goes on
    /// after it.
    Extends,
    /// The edge enters a branch and its text begins as the key does: the two
    /// share their first character.
    Meets,
    /// The edge ends a key and its text is the key.
    Ends,
    /// The edge enters a branch and its text is a prefix of the key.
    Covers,
}

impl Edge {
    /// The edge at which `text` ends with `value`.
    pub open spec fn leaf(text: Seq<char>, value: Seq<char>) -> Edge {
        Edge { text, child: Trie::Leaf { value } }
    }

    /// The edge without the first `n` characters of its text.
    pub open spec fn cut(self, n: int) -> Edge {
        Edge { text: self.text.skip(n), child: self.child }
    }

    /// Whether the edge stands to `key` as `how` says.
    pub open spec fn relates(self, how: Relation, key: Seq<char>) -> bool {
        match how {
            Relation::Extends => 0 < key.len() < self.text.len() && key.is_prefix_of(self.text),
            Relation::Meets => self.child is Branch && common_prefix(self.text, key) > 0,
            Relation::Ends => self.child is Leaf && self.text == key,
            Relation::Covers => self.child is Branch && self.text.is_prefix_of(key),
        }
    }

    /// The edge and the key share a first part that is shorter than both.
    pub open spec fn overlaps(self, key: Seq<char>) -> bool {
        0 < common_prefix(self.text, key) < self.text.len() && common_prefix(self.text, key)
            < key.len()
    }

    /// The edge that takes this one's place when `key` parts from it: it
    /// carries what the two share into a new branch, which holds the rest of
    /// the key with `value` and then the rest of this edge.
    pub open spec fn fork(self, key: Seq<char>, value: Seq<char>) -> Edge {
        let p = common_prefix(self.text, key) as int;
        Edge {
            text: key.take(p),
            child: Trie::Branch { edges: seq![Edge::leaf(key.skip(p), value), self.cut(p)] },
        }
    }

    /// Whether `key` ends at or below the edge, with `value`.
    pub open spec fn holds(self, key: Seq<char>, value: Seq<char>) -> bool
        decreases self, 0nat,
    {
        self.text.is_prefix_of(key) && match self.child {
            Trie::Leaf { value: stored } => key.len() == self.text.len() && value == stored,
            Trie::Branch { .. } => self.child.holds(key.skip(self.text.len() as int), value),
        }
    }

    /// The keys that end at or below the edge, each behind `prefix`.
    pub open spec fn keys(self, prefix: Seq<char>) -> Seq<Seq<char>>
        decreases self, 0nat,
    {
        match self.child {
            Trie::Leaf { .. } => seq![prefix + self.text],
            Trie::Branch { .. } => self.child.keys(prefix + self.text),
        }
    }
}

/// The first of `edges`, from index `from` on, that stands to `key` as `how`
/// says.
pub open spec fn first_from(edges: Seq<Edge>, how: Relation, key: Seq<char>, from: int) -> Option<
    int,
>
    decreases edges.len() - from,
{
    if from < 0 || from >= edges.len() {
        None
    } else if edges[from].relates(how, key) {
        Some(from)
    } else {
        first_from(edges, how, key, from + 1)
    }
}

/// The first of `edges` that stands to `key` as `how` says.
pub open spec fn first(edges: Seq<Edge>, how: Relation, key: Seq<char>) -> Option<int> {
    first_from(edges, how, key, 0)
}

/// Among the first `n` of `edges`, the one that overlaps `key` furthest, and
/// of several that do so equally far, the first.
pub open spec fn best_overlap_among(edges: Seq<Edge>, key: Seq<char>, n: int) -> Option<int>
    decreases n,
{
    if n <= 0 || n > edges.len() {
        None
    } else {
        let earlier = best_overlap_among(edges, key, n - 1);
        let here = edges[n - 1];
        if here.overlaps(key) && (earlier matches Some(b) ==> common_prefix(edges[b].text, key)
            < common_prefix(here.text, key)) {
            Some(n - 1)
        } else {
            earlier
        }
    }
}

/// The edge that overlaps `key` furthest, and of several that do so equally
/// far, the first.
pub open spec fn best_overlap(edges: Seq<Edge>, key: Seq<char>) -> Option<int> {
    best_overlap_among(edges, key, edges.len() as int)
}

/// What an insertion does at a branch.
pub enum Step {
    /// The edge at the index is forked where the key parts from it.
    Fork(int),
    /// The edge at the index is followed, and the rest of the key is inserted
    /// below it.
    Descend(int),
    /// The leaf edge at the index, which spells the key, takes the new value.
    Replace(int),
    /// A new leaf edge for the key is added behind the others.
    Append,
}

/// The step that an insertion of `key` takes at a branch with `edges`.
///
/// The leaf edge that spells the key takes the new value. Failing that, the
/// edge into a branch that begins as the key does is worked on: it is
/// followed where its text is a prefix of the key, the whole key included,
/// and forked where the key parts from it. Failing that, a leaf edge is
/// forked: the first whose text extends the key, or else the one that
/// overlaps the key furthest. Where there is none of these, a new leaf edge
/// is added.
pub open spec fn step(edges: Seq<Edge>, key: Seq<char>) -> Step {
    if let Some(i) = first(edges, Relation::Ends, key) {
        Step::Replace(i)
    } else if let Some(i) = first(edges, Relation::Meets, key) {
        if edges[i].text.is_prefix_of(key) {
            Step::Descend(i)
        } else {
            Step::Fork(i)
        }
    } else if let Some(i) = first(edges, Relation::Extends, key) {
        Step::Fork(i)
    } else if let Some(i) = best_overlap(edges, key) {
        Step::Fork(i)
    } else {
        Step::Append
    }
}

/// Whether the edges into branches are not empty and begin with different
/// characters.
pub open spec fn apart(edges: Seq<Edge>) -> bool {
    &&& forall|i: int|
        0 <= i < edges.len() && (#[trigger] edges[i]).child is Branch ==> edges[i].text.len() > 0
    &&& forall|i: int, j: int|
        0 <= i < edges.len() && 0 <= j < edges.len() && i != j && (#[trigger] edges[i]).child
            is Branch && (#[trigger] edges[j]).child is Branch ==> edges[i].text[0]
            != edges[j].text[0]
}

/// Whether no key ends at or below two of the edges.
pub open spec fn single(edges: Seq<Edge>) -> bool {
    forall|i: int, j: int, key: Seq<char>, v: Seq<char>, w: Seq<char>|
        0 <= i < edges.len() && 0 <= j < edges.len() && i != j && #[trigger] edges[i].holds(
            key,
            v,
        ) ==> !#[trigger] edges[j].holds(key, w)
}

/// Whether no edge into a branch begins with `c`.
pub open spec fn no_branch_begins(edges: Seq<Edge>, c: char) -> bool {
    forall|j: int|
        0 <= j < edges.len() && (#[trigger] edges[j]).child is Branch && edges[j].text.len() > 0
            ==> edges[j].text[0] != c
}

/// The keys that end at or below `edges`, each behind `prefix`, edge by edge.
pub open spec fn keys_of(edges: Seq<Edge>, prefix: Seq<char>) -> Seq<Seq<char>>
    decreases edges, 1nat,
{
    if edges.len() == 0 {
        Seq::empty()
    } else {
        keys_of(edges.drop_last(), prefix) + edges.last().keys(prefix)
    }
}

/// `first_from` finds an edge at or behind `from` that relates, with none
/// that does between the two, or there is none from `from` on.
pub proof fn lemma_first_from(edges: Seq<Edge>, how: Relation, key: Seq<char>, from: int)
    requires
        0 <= from,
    ensures
        match first_from(edges, how, key, from) {
            Some(i) => from <= i < edges.len() && edges[i].relates(how, key) && forall|j: int|
                from <= j < i ==> !edges[j].relates(how, key),
            None => forall|j: int| from <= j < edges.len() ==> !edges[j].relates(how, key),
        },
    decreases edges.len() - from,
{
    if from < edges.len() && !edges[from].relates(how, key) {
        lemma_first_from(edges, how, key, from + 1);
    }
}

/// `first` finds an edge that relates, before which none does, or there is
/// none at all.
pub proof fn lemma_first(edges: Seq<Edge>, how: Relation, key: Seq<char>)
    ensures
        match first(edges, how, key) {
            Some(i) => 0 <= i < edges.len() && edges[i].relates(how, key) && forall|j: int|
                0 <= j < i ==> !edges[j].relates(how, key),
            None => forall|j: int| 0 <= j < edges.len() ==> !edges[j].relates(how, key),
        },
{
    lemma_first_from(edges, how, key, 0);
}

/// `best_overlap_among` finds one of the first `n` edges that overlaps the
/// key, none of them overlaps it further and no earlier one as far; or none
/// of them overlaps the key.
pub proof fn lemma_best_overlap_among(edges: Seq<Edge>, key: Seq<char>, n: int)
    requires
        0 <= n <= edges.len(),
    ensures
        match best_overlap_among(edges, key, n) {
            Some(i) => {
                &&& 0 <= i < n
                &&& edges[i].overlaps(key)
                &&& forall|j: int|
                    0 <= j < n && edges[j].overlaps(key) ==> common_prefix(edges[j].text, key)
                        <= common_prefix(edges[i].text, key)
                &&& forall|j: int|
                    0 <= j < i && edges[j].overlaps(key) ==> common_prefix(edges[j].text, key)
                        < common_prefix(edges[i].text, key)
            },
            None => forall|j: int| 0 <= j < n ==> !edges[j].overlaps(key),
        },
    decreases n,
{
    if n > 0 {
        lemma_best_overlap_among(edges, key, n - 1);
    }
}

/// `best_overlap` finds an edge that overlaps the key, no edge overlaps it
/// further and no earlier edge as far; or no edge overlaps the key.
pub proof fn lemma_best_overlap(edges: Seq<Edge>, key: Seq<char>)
    ensures
        match best_overlap(edges, key) {
            Some(i) => {
                &&& 0 <= i < edges.len()
                &&& edges[i].overlaps(key)
                &&& forall|j: int|
                    0 <= j < edges.len() && edges[j].overlaps(key) ==> common_prefix(
                        edges[j].text,
                        key,
                    ) <= common_prefix(edges[i].text, key)
                &&& forall|j: int|
                    0 <= j < i && edges[j].overlaps(key) ==> common_prefix(edges[j].text, key)
                        < common_prefix(edges[i].text, key)
            },
            None => forall|j: int| 0 <= j < edges.len() ==> !edges[j].overlaps(key),
        },
{
    lemma_best_overlap_among(edges, key, edges.len() as int);
}

impl Trie {
    /// The tree that holds nothing.
    pub open spec fn empty() -> Trie {
        Trie::Branch { edges: Seq::empty() }
    }

    /// The branch with the given edges.
    pub open spec fn branch(edges: Seq<Edge>) -> Trie {
        Trie::Branch { edges }
    }

    /// Whether the tree holds what `before` holds, but at `key` holds `value`
    /// and nothing else.
    pub open spec fn sets(self, before: Trie, key: Seq<char>, value: Seq<char>) -> bool {
        forall|q: Seq<char>, v: Seq<char>| #[trigger]
            self.holds(q, v) <==> (if q == key {
                v == value
            } else {
                before.holds(q, v)
            })
    }

    /// The value that a lookup of `key` finds. An edge at which the key ends
    /// is taken before one that leads further.
    pub open spec fn lookup(self, key: Seq<char>) -> Option<Seq<char>>
        decreases self,
    {
        match self {
            Trie::Leaf { .. } => None,
            Trie::Branch { edges } => {
                if let Some(i) = first(edges, Relation::Ends, key) {
                    Some(edges[i].child->value)
                } else if let Some(i) = first(edges, Relation::Covers, key) {
                    proof {
                        lemma_first(edges, Relation::Covers, key);
                    }
                    edges[i].child.lookup(key.skip(edges[i].text.len() as int))
                } else {
                    None
                }
            },
        }
    }

    /// The tree after `key` has been inserted with `value`: at each branch
    /// on the way the step that `step` names is taken.
    pub open spec fn inserted(self, key: Seq<char>, value: Seq<char>) -> Trie
        decreases self,
    {
        match self {
            Trie::Leaf { .. } => self,
            Trie::Branch { edges } => Trie::Branch {
                edges: match step(edges, key) {
                    Step::Fork(i) => edges.update(i, edges[i].fork(key, value)),
                    Step::Descend(i) => {
                        proof {
                            lemma_first(edges, Relation::Meets, key);
                        }
                        edges.update(
                            i,
                            Edge {
                                text: edges[i].text,
                                child: edges[i].child.inserted(
                                    key.skip(edges[i].text.len() as int),
                                    value,
                                ),
                            },
                        )
                    },
                    Step::Replace(i) => edges.update(i, Edge::leaf(key, value)),
                    Step::Append => edges.push(Edge::leaf(key, value)),
                },
            },
        }
    }

    /// The keys that end in the tree, each behind `prefix`, in the order of
    /// the edges and depth first.
    pub open spec fn keys(self, prefix: Seq<char>) -> Seq<Seq<char>>
        decreases self, 2nat,
    {
        match self {
            Trie::Leaf { .. } => Seq::empty(),
            Trie::Branch { edges } => keys_of(edges, prefix),
        }
    }

    /// Whether `key` ends somewhere in the tree, with `value`.
    pub open spec fn holds(self, key: Seq<char>, value: Seq<char>) -> bool
        decreases self, 1nat,
    {
        match self {
            Trie::Leaf { .. } => false,
            Trie::Branch { edges } => exists|i: int|
                0 <= i < edges.len() && (#[trigger] edges[i]).holds(key, value),
        }
    }

    /// The compressed-prefix invariant: in no branch do two edges into
    /// branches begin with the same character, and none of them is empty.
    pub open spec fn compressed(self) -> bool
        decreases self,
    {
        match self {
            Trie::Leaf { .. } => true,
            Trie::Branch { edges } => apart(edges) && forall|i: int|
                0 <= i < edges.len() ==> (#[trigger] edges[i]).child.compressed(),
        }
    }

    /// Well-formedness: the tree is compressed, no key ends at two places, and
    /// every branch below the root has an edge.
    pub open spec fn wf(self) -> bool
        decreases self,
    {
        match self {
            Trie::Leaf { .. } => true,
            Trie::Branch { edges } => {
                &&& apart(edges)
                &&& single(edges)
                &&& forall|i: int|
                    0 <= i < edges.len() ==> (#[trigger] edges[i]).child.wf() && (
                    edges[i].child matches Trie::Branch { edges: below } ==> below.len() > 0)
            },
        }
    }

    /// What the tree holds, as lookups see it.
    pub open spec fn entries(self) -> Map<Seq<char>, Seq<char>> {
        Map::new(|key: Seq<char>| self.lookup(key) is Some, |key: Seq<char>| self.lookup(key)->0)
    }
}

/// The tree that a run of insertions builds from the empty tree: each of
/// `ops` is a key with its value, and they are inserted in order.
pub open spec fn built(ops: Seq<(Seq<char>, Seq<char>)>) -> Trie
    decreases ops.len(),
{
    if ops.len() == 0 {
        Trie::empty()
    } else {
        built(ops.drop_last()).inserted(ops.last().0, ops.last().1)
    }
}

/// The map that a run of insertions builds from the empty map.
pub open spec fn recorded(ops: Seq<(Seq<char>, Seq<char>)>) -> Map<Seq<char>, Seq<char>>
    decreases ops.len(),
{
    if ops.len() == 0 {
        Map::empty()
    } else {
        recorded(ops.drop_last()).insert(ops.last().0, ops.last().1)
    }
}

/// Whether no two insertions of the run have the same key.
pub open spec fn distinct_keys(ops: Seq<(Seq<char>, Seq<char>)>) -> bool {
    forall|i: int, j: int| 0 <= i < j < ops.len() ==> ops[i].0 != ops[j].0
}

} // verus!
