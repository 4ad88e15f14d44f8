//! The executable tree: nodes whose edge labels are strings, and the
//! operations on them, each tied to the model in `trie`.

use crate::laws::insert::{lemma_insert, lemma_insert_entries};
use crate::laws::keys::{lemma_empty_holds_nothing, lemma_keys};
use crate::laws::lookup::lemma_empty;
use crate::text::{
    ascending, comes_first, common_prefix, common_prefix_length, is_valid_key,
    lemma_common_prefix, lemma_common_prefix_symmetric, lemma_common_prefix_take,
    lemma_precedes_total, lemma_prefix_by_common_prefix, valid_key, TERMINATOR,
};
use crate::text::precedes;
use crate::trie::{
    best_overlap, best_overlap_among, first, keys_of, lemma_best_overlap, lemma_first, Edge,
    Relation, Trie,
};
use vstd::prelude::*;
use vstd::string::*;

verus! {

/// A node of the tree. An edge is a label with the node it enters. The label
/// of an edge into a leaf is the rest of a key followed by the terminator; the
/// label of an edge into a branch is a piece of the keys below it.
#[derive(Debug, PartialEq)]
pub enum Node {
    /// The value of the key that ends at the edge above.
    Leaf { value: String },
    /// A branch and its edges, in the order in which they were made.
    Node { children: Vec<(String, Node)> },
}

/// The error of an insertion: the key holds the terminator, which no key
/// may.
#[derive(Debug, Clone, Copy, PartialEq, Eq)]
pub struct InvalidKey;

/// The tree: a map from string keys to string values that stores a prefix
/// shared by several keys once.
#[derive(Debug)]
pub struct PrefixTree {
    root: Node,
}

/// What an entry of a branch stands for: the label without its terminator,
/// and the model of the node behind it.
pub open spec fn edge_view(entry: (String, Node)) -> Edge
    decreases entry, 0nat,
{
    Edge {
        text: if entry.1 is Leaf {
            entry.0@.drop_last()
        } else {
            entry.0@
        },
        child: entry.1.view(),
    }
}

/// The edges that the entries of a branch stand for.
pub open spec fn edges_view(children: Seq<(String, Node)>) -> Seq<Edge>
    decreases children, 1nat,
{
    Seq::new(
        children.len(),
        |i: int|
            if 0 <= i < children.len() {
                edge_view(children[i])
            } else {
                Edge::leaf(Seq::empty(), Seq::empty())
            },
    )
}

/// Whether the label of an entry is written as its node asks, and the same
/// holds below it.
pub open spec fn entry_encoded(entry: (String, Node)) -> bool
    decreases entry, 0nat,
{
    match entry.1 {
        Node::Leaf { .. } => entry.0@.len() > 0 && entry.0@.last() == TERMINATOR && valid_key(
            entry.0@.drop_last(),
        ),
        Node::Node { .. } => entry.0@.len() > 0 && valid_key(entry.0@) && entry.1.encoded(),
    }
}

/// Whether every one of `children` is written as its node asks.
pub open spec fn all_encoded(children: Seq<(String, Node)>) -> bool
    decreases children, 1nat,
{
    forall|i: int| 0 <= i < children.len() ==> entry_encoded(#[trigger] children[i])
}

/// The views of the strings of `keys`.
pub open spec fn key_views(keys: Seq<String>) -> Seq<Seq<char>> {
    keys.map_values(|key: String| key@)
}

impl Node {
    /// The model of the node.
    pub open spec fn view(&self) -> Trie
        decreases self, 2nat,
    {
        match self {
            Node::Leaf { value } => Trie::Leaf { value: value@ },
            Node::Node { children } => Trie::Branch { edges: edges_view(children@) },
        }
    }

    /// Whether every label in the node is written as the node behind it asks:
    /// into a leaf, text free of the terminator and then the terminator; into
    /// a branch, text that is not empty and free of the terminator.
    pub open spec fn encoded(&self) -> bool
        decreases self, 2nat,
    {
        match self {
            Node::Leaf { .. } => true,
            Node::Node { children } => all_encoded(children@),
        }
    }
}

/// Replacing one entry of a branch replaces the edge that it stands for.
proof fn lemma_edges_view_update(children: Seq<(String, Node)>, i: int, entry: (String, Node))
    requires
        0 <= i < children.len(),
    ensures
        edges_view(children.update(i, entry)) == edges_view(children).update(i, edge_view(entry)),
{
    assert(edges_view(children.update(i, entry)) =~= edges_view(children).update(
        i,
        edge_view(entry),
    ));
}

/// Adding an entry to a branch adds the edge that it stands for.
proof fn lemma_edges_view_push(children: Seq<(String, Node)>, entry: (String, Node))
    ensures
        edges_view(children.push(entry)) == edges_view(children).push(edge_view(entry)),
{
    assert(edges_view(children.push(entry)) =~= edges_view(children).push(edge_view(entry)));
}

/// A part of a valid key is a valid key.
proof fn lemma_valid_subrange(key: Seq<char>, from: int, to: int)
    requires
        valid_key(key),
        0 <= from <= to <= key.len(),
    ensures
        valid_key(key.subrange(from, to)),
{
    let part = key.subrange(from, to);
    if part.contains(TERMINATOR) {
        let i = choose|i: int| 0 <= i < part.len() && part[i] == TERMINATOR;
        assert(key[from + i] == TERMINATOR);
    }
}

/// The length of the entry's text, and the number of leading characters that
/// the text shares with `key`.
fn measure(entry: &(String, Node), key: &str) -> (m: (usize, usize))
    requires
        entry_encoded(*entry),
    ensures
        m.0 == edge_view(*entry).text.len(),
        m.1 == common_prefix(edge_view(*entry).text, key@),
{
    let label = entry.0.as_str();
    let label_len = label.unicode_len();
    let shared = common_prefix_length(label, key);
    match &entry.1 {
        Node::Leaf { .. } => {
            let text_len = label_len - 1;
            proof {
                lemma_common_prefix_take(label@, key@, text_len as int);
                assert(label@.take(text_len as int) =~= label@.drop_last());
            }
            if shared < text_len {
                (text_len, shared)
            } else {
                (text_len, text_len)
            }
        },
        Node::Node { .. } => (label_len, shared),
    }
}

/// Whether the entry stands to `key` as `how` says.
fn entry_relates(entry: &(String, Node), how: Relation, key: &str) -> (r: bool)
    requires
        entry_encoded(*entry),
    ensures
        r == edge_view(*entry).relates(how, key@),
{
    let (text_len, shared) = measure(entry, key);
    let key_len = key.unicode_len();
    proof {
        let text = edge_view(*entry).text;
        lemma_prefix_by_common_prefix(text, key@);
        lemma_prefix_by_common_prefix(key@, text);
        lemma_common_prefix_symmetric(key@, text);
        if text.is_prefix_of(key@) && text.len() == key@.len() {
            assert(text =~= key@);
        }
    }
    match &entry.1 {
        Node::Leaf { .. } => {
            match how {
                Relation::Extends => 0 < key_len && key_len < text_len && shared == key_len,
                Relation::Ends => shared == key_len && text_len == key_len,
                Relation::Meets => false,
                Relation::Covers => false,
            }
        },
        Node::Node { .. } => {
            match how {
                Relation::Extends => 0 < key_len && key_len < text_len && shared == key_len,
                Relation::Meets => shared > 0,
                Relation::Covers => shared == text_len,
                Relation::Ends => false,
            }
        },
    }
}

/// The index of the first of `children` that stands to `key` as `how` says.
fn find_first(children: &Vec<(String, Node)>, how: Relation, key: &str) -> (found: Option<usize>)
    requires
        all_encoded(children@),
    ensures
        match found {
            Some(i) => first(edges_view(children@), how, key@) == Some(i as int),
            None => first(edges_view(children@), how, key@) is None,
        },
{
    let ghost edges = edges_view(children@);
    proof {
        lemma_first(edges, how, key@);
    }
    let mut i: usize = 0;
    while i < children.len()
        invariant
            i <= children.len(),
            edges == edges_view(children@),
            all_encoded(children@),
            forall|j: int| 0 <= j < i ==> !edges[j].relates(how, key@),
        decreases children.len() - i,
    {
        if entry_relates(&children[i], how, key) {
            proof {
                lemma_first(edges, how, key@);
                assert(edges[i as int] == edge_view(children@[i as int]));
                assert(edges[i as int].relates(how, key@));
            }
            return Some(i);
        }
        i = i + 1;
    }
    None
}

/// The index of the one of `children` that overlaps `key` furthest, the first
/// of them where several do so equally far.
fn find_best_overlap(children: &Vec<(String, Node)>, key: &str) -> (found: Option<usize>)
    requires
        all_encoded(children@),
    ensures
        match found {
            Some(i) => best_overlap(edges_view(children@), key@) == Some(i as int),
            None => best_overlap(edges_view(children@), key@) is None,
        },
{
    let ghost edges = edges_view(children@);
    let key_len = key.unicode_len();
    let mut best: Option<usize> = None;
    let mut best_shared: usize = 0;
    let mut i: usize = 0;
    while i < children.len()
        invariant
            i <= children.len(),
            edges == edges_view(children@),
            all_encoded(children@),
            key_len == key@.len(),
            match best {
                Some(b) => best_overlap_among(edges, key@, i as int) == Some(b as int) && b < i
                    && best_shared == common_prefix(edges[b as int].text, key@),
                None => best_overlap_among(edges, key@, i as int) is None,
            },
        decreases children.len() - i,
    {
        let (text_len, shared) = measure(&children[i], key);
        if 0 < shared && shared < text_len && shared < key_len && (best.is_none() || best_shared
            < shared) {
            best = Some(i);
            best_shared = shared;
        }
        i = i + 1;
    }
    best
}

/// The label of a leaf edge: `text` and then the terminator.
fn leaf_label(text: &str) -> (label: String)
    ensures
        label@ == text@.push(TERMINATOR),
{
    proof {
        reveal_strlit(":");
    }
    let label = String::from_str(text).concat(":");
    assert(label@ =~= text@.push(TERMINATOR));
    label
}

/// Forks the entry at `i` where `key` parts from it.
fn fork_at(children: &mut Vec<(String, Node)>, i: usize, key: &str, value: String)
    requires
        all_encoded(old(children)@),
        valid_key(key@),
        i < old(children)@.len(),
        0 < common_prefix(edges_view(old(children)@)[i as int].text, key@) < edges_view(
            old(children)@,
        )[i as int].text.len(),
    ensures
        all_encoded(final(children)@),
        edges_view(final(children)@) == edges_view(old(children)@).update(
            i as int,
            edges_view(old(children)@)[i as int].fork(key@, value@),
        ),
{
    let ghost before = children@;
    let ghost edge = edge_view(before[i as int]);
    let ghost p = common_prefix(edge.text, key@) as int;
    let (text_len, shared) = measure(&children[i], key);
    let key_len = key.unicode_len();
    proof {
        lemma_common_prefix(edge.text, key@);
        lemma_valid_subrange(key@, 0, p);
        lemma_valid_subrange(key@, p, key@.len() as int);
    }
    let head = String::from_str(key.substring_char(0, shared));
    let tail = leaf_label(key.substring_char(shared, key_len));
    let mut entry = (head, Node::Node { children: Vec::new() });
    core::mem::swap(&mut children[i], &mut entry);
    let (label, child) = entry;
    let label_len = label.as_str().unicode_len();
    let rest = String::from_str(label.as_str().substring_char(shared, label_len));
    let ghost below = (rest, child);
    proof {
        assert(entry_encoded((label, child)));
        if child is Leaf {
            assert(label@ =~= edge.text.push(TERMINATOR));
            assert(rest@ =~= edge.text.skip(p).push(TERMINATOR));
            assert(rest@.drop_last() =~= edge.text.skip(p));
            lemma_valid_subrange(edge.text, p, edge.text.len() as int);
        } else {
            lemma_valid_subrange(label@, p, label@.len() as int);
        }
        assert(entry_encoded(below));
        assert(edge_view(below) == edge.cut(p));
    }
    let mut inner: Vec<(String, Node)> = Vec::new();
    inner.push((tail, Node::Leaf { value }));
    inner.push((rest, child));
    children[i].1 = Node::Node { children: inner };
    proof {
        let made = children@[i as int];
        assert(tail@.drop_last() =~= key@.skip(p));
        assert(edge_view(inner@[0]) == Edge::leaf(key@.skip(p), value@));
        assert(edges_view(inner@) =~= seq![Edge::leaf(key@.skip(p), value@), edge.cut(p)]);
        assert(all_encoded(inner@));
        assert(edge_view(made) == edge.fork(key@, value@));
        assert(children@ =~= before.update(i as int, made));
        lemma_edges_view_update(before, i as int, made);
        assert(entry_encoded(made));
    }
}

/// In a branch of a well-formed tree no label occurs twice.
pub proof fn lemma_labels_distinct(children: Seq<(String, Node)>, i: int, j: int)
    requires
        all_encoded(children),
        Trie::branch(edges_view(children)).wf(),
        0 <= i < children.len(),
        0 <= j < children.len(),
        i != j,
    ensures
        children[i].0@ != children[j].0@,
{
    let edges = edges_view(children);
    let a = children[i];
    let b = children[j];
    assert(entry_encoded(a) && entry_encoded(b));
    assert(edges[i] == edge_view(a) && edges[j] == edge_view(b));
    if a.0@ == b.0@ {
        if a.1 is Leaf && b.1 is Leaf {
            let text = edges[i].text;
            assert(text =~= text.subrange(0, text.len() as int));
            assert(edges[i].holds(text, edges[i].child->value));
            assert(edges[j].holds(text, edges[j].child->value));
            assert(false);
        } else if a.1 is Node && b.1 is Node {
            assert(edges[i].text[0] != edges[j].text[0]);
            assert(false);
        } else {
            assert(a.0@[a.0@.len() - 1] == TERMINATOR);
            assert(false);
        }
    }
}

/// Puts `key` at its place among `keys`, which stand in ascending order.
fn insert_sorted(keys: &mut Vec<String>, key: String)
    requires
        ascending(key_views(old(keys)@)),
    ensures
        ascending(key_views(final(keys)@)),
        final(keys)@.len() == old(keys)@.len() + 1,
        forall|x: Seq<char>|
            key_views(final(keys)@).contains(x) <==> x == key@ || key_views(old(keys)@).contains(x),
{
    let ghost before = key_views(keys@);
    let mut at: usize = 0;
    while at < keys.len() && comes_first(keys[at].as_str(), key.as_str())
        invariant
            at <= keys.len(),
            key_views(keys@) == before,
            forall|j: int| 0 <= j < at ==> precedes(#[trigger] before[j], key@),
        decreases keys.len() - at,
    {
        at = at + 1;
    }
    keys.insert(at, key);
    proof {
        let after = key_views(keys@);
        assert(after =~= before.insert(at as int, key@));
        if at < before.len() {
            lemma_precedes_total(before[at as int], key@);
        }
        assert forall|i: int| 0 <= i < after.len() - 1 implies precedes(
            #[trigger] after[i],
            after[i + 1],
        ) by {
            if i + 1 < at {
                assert(precedes(before[i], before[i + 1]));
            } else if i > at {
                assert(precedes(before[i - 1], before[i]));
            }
        }
        assert forall|x: Seq<char>| after.contains(x) <==> x == key@ || before.contains(x) by {
            if after.contains(x) {
                let i = choose|i: int| 0 <= i < after.len() && after[i] == x;
                if i < at {
                    assert(before[i] == x);
                } else if i > at {
                    assert(before[i - 1] == x);
                }
            }
            if x == key@ {
                assert(after[at as int] == x);
            }
            if before.contains(x) {
                let i = choose|i: int| 0 <= i < before.len() && before[i] == x;
                if i < at {
                    assert(after[i] == x);
                } else {
                    assert(after[i + 1] == x);
                }
            }
        }
    }
}

impl PrefixTree {
    #[verifier::type_invariant]
    spec fn sound(&self) -> bool {
        self.root is Node && self.root.encoded() && self.root@.wf()
    }

    /// The model of the tree.
    pub closed spec fn trie(&self) -> Trie {
        self.root@
    }

    /// What the tree holds, as lookups see it.
    pub open spec fn view(&self) -> Map<Seq<char>, Seq<char>> {
        self.trie().entries()
    }

    /// An empty tree: it holds nothing.
    pub fn new() -> (tree: Self)
        ensures
            tree.trie() == Trie::empty(),
            tree@ == Map::<Seq<char>, Seq<char>>::empty(),
    {
        proof {
            assert(edges_view(Seq::<(String, Node)>::empty()) =~= Seq::<Edge>::empty());
            lemma_empty();
        }
        PrefixTree { root: Node::Node { children: Vec::new() } }
    }

    /// Inserts `key` with `value`. A key that holds the terminator is
    /// refused, and the tree stays as it is. After any other key the tree
    /// holds what it held, but `value` at `key`; its shape is what
    /// `Trie::inserted` says.
    pub fn insert(&mut self, key: &str, value: String) -> (outcome: Result<(), InvalidKey>)
        ensures
            outcome is Ok <==> valid_key(key@),
            outcome is Ok ==> final(self)@ == old(self)@.insert(key@, value@),
            outcome is Err ==> final(self)@ == old(self)@,
            final(self)@.dom().finite(),
            outcome is Ok ==> final(self).trie() == old(self).trie().inserted(key@, value@),
            outcome is Err ==> final(self).trie() == old(self).trie(),
    {
        proof {
            use_type_invariant(&*self);
            lemma_keys(self.trie());
        }
        if !is_valid_key(key) {
            return Err(InvalidKey);
        }
        proof {
            lemma_insert(self.trie(), key@, value@);
            lemma_insert_entries(self.trie(), key@, value@);
            lemma_keys(self.trie().inserted(key@, value@));
            assert(edges_view(Seq::<(String, Node)>::empty()) =~= Seq::<Edge>::empty());
            lemma_empty();
        }
        // The root is moved out while it is worked on, so that the tree is
        // whole wherever a call might unwind.
        let mut root = Node::Node { children: Vec::new() };
        core::mem::swap(&mut self.root, &mut root);
        Self::insert_recursive(&mut root, key, value);
        core::mem::swap(&mut self.root, &mut root);
        Ok(())
    }

    /// Inserts `key` with `value` below the node.
    fn insert_recursive(node: &mut Node, key: &str, value: String)
        requires
            old(node).encoded(),
            valid_key(key@),
        ensures
            final(node).encoded(),
            final(node)@ == old(node)@.inserted(key@, value@),
        decreases *old(node),
    {
        match node {
            Node::Leaf { .. } => {},
            Node::Node { children } => {
                let ghost before = children@;
                let ghost edges = edges_view(before);
                proof {
                    lemma_first(edges, Relation::Ends, key@);
                    lemma_first(edges, Relation::Meets, key@);
                    lemma_first(edges, Relation::Extends, key@);
                    lemma_best_overlap(edges, key@);
                }
                if let Some(i) = find_first(children, Relation::Ends, key) {
                    children[i].1 = Node::Leaf { value };
                    proof {
                        let made = children@[i as int];
                        assert(children@ =~= before.update(i as int, made));
                        lemma_edges_view_update(before, i as int, made);
                        assert(entry_encoded(made));
                    }
                } else if let Some(i) = find_first(children, Relation::Meets, key) {
                    let (text_len, shared) = measure(&children[i], key);
                    proof {
                        lemma_prefix_by_common_prefix(edges[i as int].text, key@);
                        lemma_common_prefix(edges[i as int].text, key@);
                    }
                    if shared == text_len {
                        let key_len = key.unicode_len();
                        let rest = key.substring_char(text_len, key_len);
                        proof {
                            lemma_valid_subrange(key@, text_len as int, key_len as int);
                        }
                        Self::insert_recursive(&mut children[i].1, rest, value);
                        proof {
                            let made = children@[i as int];
                            assert(children@ =~= before.update(i as int, made));
                            lemma_edges_view_update(before, i as int, made);
                            assert(entry_encoded(made));
                        }
                    } else {
                        fork_at(children, i, key, value);
                    }
                } else if let Some(i) = find_first(children, Relation::Extends, key) {
                    proof {
                        lemma_prefix_by_common_prefix(key@, edges[i as int].text);
                        lemma_common_prefix_symmetric(key@, edges[i as int].text);
                    }
                    fork_at(children, i, key, value);
                } else if let Some(i) = find_best_overlap(children, key) {
                    fork_at(children, i, key, value);
                } else {
                    let label = leaf_label(key);
                    let ghost made = (label, Node::Leaf { value });
                    children.push((label, Node::Leaf { value }));
                    proof {
                        assert(made.0@.drop_last() =~= key@);
                        lemma_edges_view_push(before, made);
                    }
                }
            },
        }
    }

    /// The root of the tree, for those who walk it themselves.
    pub fn root(&self) -> (root: &Node)
        ensures
            root@ == self.trie(),
            root is Node,
            root.encoded(),
            root@.wf(),
    {
        proof {
            use_type_invariant(self);
        }
        &self.root
    }

    /// The value that the tree holds at `key`, if it holds one.
    pub fn get(&self, key: &str) -> (found: Option<String>)
        ensures
            match found {
                Some(value) => self@.contains_key(key@) && self@[key@] == value@,
                None => !self@.contains_key(key@),
            },
    {
        proof {
            use_type_invariant(self);
        }
        Self::get_recursive(&self.root, key)
    }

    /// The value stored for `key` below the node, if there is one.
    fn get_recursive(node: &Node, key: &str) -> (found: Option<String>)
        requires
            node.encoded(),
        ensures
            match found {
                Some(value) => node@.lookup(key@) == Some(value@),
                None => node@.lookup(key@) is None,
            },
        decreases node,
    {
        match node {
            Node::Leaf { .. } => None,
            Node::Node { children } => {
                let ghost edges = edges_view(children@);
                proof {
                    lemma_first(edges, Relation::Ends, key@);
                    lemma_first(edges, Relation::Covers, key@);
                }
                if let Some(i) = find_first(children, Relation::Ends, key) {
                    match &children[i].1 {
                        Node::Leaf { value } => Some(value.clone()),
                        Node::Node { .. } => None,
                    }
                } else if let Some(i) = find_first(children, Relation::Covers, key) {
                    let (text_len, _) = measure(&children[i], key);
                    let key_len = key.unicode_len();
                    let rest = key.substring_char(text_len, key_len);
                    Self::get_recursive(&children[i].1, rest)
                } else {
                    None
                }
            },
        }
    }

    /// The keys that the tree holds, each once, in the order of a
    /// dictionary.
    pub fn keys(&self) -> (keys: Vec<String>)
        ensures
            ascending(key_views(keys@)),
            key_views(keys@).no_duplicates(),
            key_views(keys@).to_set() == self@.dom(),
    {
        proof {
            use_type_invariant(self);
            reveal_strlit("");
            lemma_keys(self.trie());
        }
        let mut found: Vec<String> = Vec::new();
        Self::collect_keys_recursive(&self.root, "", &mut found);
        assert(key_views(Seq::<String>::empty()) =~= Seq::<Seq<char>>::empty());
        assert(""@ =~= Seq::<char>::empty());
        let ghost listed = key_views(found@);
        let mut keys: Vec<String> = Vec::new();
        while found.len() > 0
            invariant
                ascending(key_views(keys@)),
                keys@.len() + found@.len() == listed.len(),
                forall|x: Seq<char>|
                    listed.contains(x) <==> key_views(keys@).contains(x) || key_views(
                        found@,
                    ).contains(x),
            decreases found.len(),
        {
            let ghost rest = key_views(found@);
            let ghost sorted = key_views(keys@);
            let key = found.pop().unwrap();
            insert_sorted(&mut keys, key);
            proof {
                assert(key_views(found@) =~= rest.drop_last());
                assert(rest.last() == key@);
                assert forall|x: Seq<char>|
                    listed.contains(x) <==> key_views(keys@).contains(x) || key_views(
                        found@,
                    ).contains(x) by {
                    if rest.contains(x) {
                        let i = choose|i: int| 0 <= i < rest.len() && rest[i] == x;
                        if i < rest.len() - 1 {
                            assert(rest.drop_last()[i] == x);
                        }
                    }
                    if rest.drop_last().contains(x) {
                        let i = choose|i: int|
                            0 <= i < rest.drop_last().len() && rest.drop_last()[i] == x;
                        assert(rest[i] == x);
                    }
                    if x == key@ {
                        assert(rest[rest.len() - 1] == x);
                    }
                }
            }
        }
        proof {
            let sorted = key_views(keys@);
            assert(sorted.to_set() =~= listed.to_set());
            listed.unique_seq_to_set();
            sorted.lemma_no_dup_set_cardinality();
        }
        keys
    }

    /// Adds to `keys` the keys that end below the node, each behind `prefix`.
    fn collect_keys_recursive(node: &Node, prefix: &str, keys: &mut Vec<String>)
        requires
            node.encoded(),
        ensures
            key_views(final(keys)@) == key_views(old(keys)@) + node@.keys(prefix@),
        decreases node,
    {
        let ghost before = key_views(keys@);
        match node {
            Node::Leaf { .. } => {
                assert(before + node@.keys(prefix@) =~= before);
            },
            Node::Node { children } => {
                let ghost edges = edges_view(children@);
                let mut i: usize = 0;
                assert(before + keys_of(edges.take(0), prefix@) =~= before);
                while i < children.len()
                    invariant
                        i <= children.len(),
                        edges == edges_view(children@),
                        all_encoded(children@),
                        node is Node,
                        node->children == children,
                        key_views(keys@) == before + keys_of(edges.take(i as int), prefix@),
                    decreases children.len() - i,
                {
                    let ghost so_far = keys@;
                    let ghost edge = edges[i as int];
                    let label = children[i].0.as_str();
                    let path = String::from_str(prefix).concat(label);
                    proof {
                        assert(edge == edge_view(children@[i as int]));
                        assert(entry_encoded(children@[i as int]));
                        assert(edges.take(i + 1).drop_last() =~= edges.take(i as int));
                        assert(edges.take(i + 1).last() == edge);
                    }
                    match &children[i].1 {
                        Node::Leaf { .. } => {
                            let path_len = path.as_str().unicode_len();
                            let key = String::from_str(
                                path.as_str().substring_char(0, path_len - 1),
                            );
                            keys.push(key);
                            proof {
                                assert(key@ =~= prefix@ + edge.text);
                                assert(key_views(keys@) =~= key_views(so_far).push(key@));
                                assert(edge.keys(prefix@) =~= seq![key@]);
                                assert(key_views(keys@) =~= before + keys_of(
                                    edges.take(i + 1),
                                    prefix@,
                                ));
                            }
                        },
                        Node::Node { .. } => {
                            Self::collect_keys_recursive(&children[i].1, path.as_str(), keys);
                            proof {
                                assert(path@ =~= prefix@ + edge.text);
                                assert(edge.keys(prefix@) == edge.child.keys(path@));
                                assert(keys_of(edges.take(i + 1), prefix@) == keys_of(
                                    edges.take(i as int),
                                    prefix@,
                                ) + edge.keys(prefix@));
                                assert(key_views(keys@) =~= before + keys_of(
                                    edges.take(i + 1),
                                    prefix@,
                                ));
                            }
                        },
                    }
                    i = i + 1;
                }
                assert(edges.take(children.len() as int) =~= edges);
            },
        }
    }

    /// The number of keys that the tree holds.
    pub fn len(&self) -> (n: usize)
        ensures
            n == self@.dom().len(),
            self@.dom().finite(),
    {
        proof {
            use_type_invariant(self);
            lemma_keys(self.trie());
        }
        let keys = self.keys();
        proof {
            assert(key_views(keys@).len() == keys@.len());
            key_views(keys@).unique_seq_to_set();
        }
        keys.len()
    }

    /// Whether the tree holds no key, which is when its root has no edge.
    pub fn is_empty(&self) -> (empty: bool)
        ensures
            empty == (self@.dom().len() == 0),
            empty == (self.trie() == Trie::empty()),
    {
        proof {
            use_type_invariant(self);
            lemma_empty_holds_nothing(self.trie());
            lemma_keys(self.trie());
        }
        match &self.root {
            Node::Node { children } => {
                proof {
                    assert(edges_view(children@).len() == children@.len());
                    if children@.len() == 0 {
                        assert(edges_view(children@) =~= Seq::<Edge>::empty());
                    }
                }
                children.is_empty()
            },
            Node::Leaf { .. } => false,
        }
    }
}

impl Clone for Node {
    /// A copy of the node and of all that is below it.
    fn clone(&self) -> (copy: Self)
        ensures
            copy@ == self@,
            copy.encoded() == self.encoded(),
        decreases self,
    {
        match self {
            Node::Leaf { value } => Node::Leaf { value: value.clone() },
            Node::Node { children } => {
                let mut copies: Vec<(String, Node)> = Vec::new();
                let mut i: usize = 0;
                while i < children.len()
                    invariant
                        i <= children.len(),
                        self is Node,
                        self->children == children,
                        copies@.len() == i,
                        forall|j: int|
                            0 <= j < i ==> (#[trigger] copies@[j]).0 == children@[j].0
                                && copies@[j].1@ == children@[j].1@ && copies@[j].1.encoded()
                                == children@[j].1.encoded() && (copies@[j].1 is Leaf
                                <==> children@[j].1 is Leaf),
                    decreases children.len() - i,
                {
                    let label = children[i].0.clone();
                    let child = children[i].1.clone();
                    copies.push((label, child));
                    i = i + 1;
                }
                proof {
                    assert(edges_view(copies@) =~= edges_view(children@));
                    assert forall|j: int| 0 <= j < children@.len() implies entry_encoded(
                        copies@[j],
                    ) == entry_encoded(children@[j]) by {}
                    if all_encoded(children@) {
                        assert(all_encoded(copies@));
                    }
                    if all_encoded(copies@) {
                        assert forall|j: int| 0 <= j < children@.len() implies entry_encoded(
                            #[trigger] children@[j],
                        ) by {
                            assert(entry_encoded(copies@[j]));
                        }
                    }
                }
                Node::Node { children: copies }
            },
        }
    }
}

impl Clone for PrefixTree {
    /// A copy of the tree.
    fn clone(&self) -> (copy: Self)
        ensures
            copy.trie() == self.trie(),
    {
        proof {
            use_type_invariant(self);
        }
        PrefixTree { root: self.root.clone() }
    }
}

impl Default for PrefixTree {
    /// An empty tree.
    fn default() -> (tree: Self)
        ensures
            tree.trie() == Trie::empty(),
            tree@ == Map::<Seq<char>, Seq<char>>::empty(),
    {
        PrefixTree::new()
    }
}

} // verus!
