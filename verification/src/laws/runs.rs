//! Runs of insertions from the empty tree: what lookups and the
//! enumeration give after them, and that their order does not show.

use crate::laws::insert::{lemma_insert, lemma_insert_entries};
use crate::laws::keys::lemma_keys;
use crate::laws::lookup::{lemma_empty, lemma_wf_compressed};
use crate::trie::{built, distinct_keys, recorded};
use vstd::prelude::*;

verus! {

/// A run of insertions builds a well-formed tree, which is therefore
/// compressed, and the tree holds what the same insertions make of the empty
/// map.
pub proof fn lemma_built(ops: Seq<(Seq<char>, Seq<char>)>)
    ensures
        built(ops).wf(),
        built(ops).compressed(),
        built(ops) is Branch,
        built(ops).entries() == recorded(ops),
    decreases ops.len(),
{
    if ops.len() == 0 {
        lemma_empty();
    } else {
        let before = built(ops.drop_last());
        lemma_built(ops.drop_last());
        lemma_insert(before, ops.last().0, ops.last().1);
        lemma_insert_entries(before, ops.last().0, ops.last().1);
        lemma_wf_compressed(built(ops));
    }
}

/// What the recorded map holds at a key is the value of the last insertion
/// of that key, and it holds nothing at a key that was never inserted.
pub proof fn lemma_recorded(ops: Seq<(Seq<char>, Seq<char>)>, key: Seq<char>)
    ensures
        recorded(ops).contains_key(key) <==> exists|i: int|
            0 <= i < ops.len() && (#[trigger] ops[i]).0 == key,
        forall|i: int|
            0 <= i < ops.len() && (#[trigger] ops[i]).0 == key && (forall|j: int|
                i < j < ops.len() ==> (#[trigger] ops[j]).0 != key) ==> recorded(ops)[key]
                == ops[i].1,
    decreases ops.len(),
{
    if ops.len() > 0 {
        let front = ops.drop_last();
        let n = ops.len() - 1;
        lemma_recorded(front, key);
        if recorded(ops).contains_key(key) {
            if ops[n].0 != key {
                let i = choose|i: int| 0 <= i < front.len() && (#[trigger] front[i]).0 == key;
                assert(ops[i].0 == key);
            }
        }
        if exists|i: int| 0 <= i < ops.len() && (#[trigger] ops[i]).0 == key {
            let i = choose|i: int| 0 <= i < ops.len() && (#[trigger] ops[i]).0 == key;
            if i != n {
                assert(front[i].0 == key);
            }
        }
        assert forall|i: int|
            0 <= i < ops.len() && (#[trigger] ops[i]).0 == key && (forall|j: int|
                i < j < ops.len() ==> (#[trigger] ops[j]).0 != key) implies recorded(ops)[key]
            == ops[i].1 by {
            if i != n {
                assert(ops[n].0 != key);
                assert(front[i].0 == key);
                assert forall|j: int| i < j < front.len() implies (#[trigger] front[j]).0
                    != key by {
                    assert(ops[j].0 != key);
                }
            }
        }
    }
}

/// The value that a run records for a key is the value of one of its
/// insertions of that key.
proof fn lemma_recorded_value(ops: Seq<(Seq<char>, Seq<char>)>, key: Seq<char>) -> (i: int)
    requires
        recorded(ops).contains_key(key),
    ensures
        0 <= i < ops.len(),
        ops[i] == (key, recorded(ops)[key]),
    decreases ops.len(),
{
    if ops.len() == 0 {
        0
    } else if ops.last().0 == key {
        ops.len() - 1
    } else {
        let i = lemma_recorded_value(ops.drop_last(), key);
        assert(ops[i] == ops.drop_last()[i]);
        i
    }
}

/// Two runs with the same entries, the first with no key twice, record the
/// same value for a key that both record.
proof fn lemma_same_value(
    a: Seq<(Seq<char>, Seq<char>)>,
    b: Seq<(Seq<char>, Seq<char>)>,
    key: Seq<char>,
)
    requires
        distinct_keys(a),
        a.to_set() == b.to_set(),
        recorded(a).contains_key(key),
        recorded(b).contains_key(key),
    ensures
        recorded(a)[key] == recorded(b)[key],
{
    let i = lemma_recorded_value(a, key);
    let j = lemma_recorded_value(b, key);
    assert(b.to_set().contains(b[j]));
    assert(a.contains(b[j]));
    let k = choose|k: int| 0 <= k < a.len() && a[k] == b[j];
    if k != i {
        assert(a[k].0 == a[i].0);
        assert(false);
    }
}

/// After a run of insertions a lookup finds, for every key that
/// was inserted, the value of its last insertion.
pub proof fn lemma_lookup_inserted(ops: Seq<(Seq<char>, Seq<char>)>, i: int)
    requires
        0 <= i < ops.len(),
        forall|j: int| i < j < ops.len() ==> (#[trigger] ops[j]).0 != ops[i].0,
    ensures
        built(ops).lookup(ops[i].0) == Some(ops[i].1),
{
    lemma_built(ops);
    lemma_recorded(ops, ops[i].0);
    assert(recorded(ops).contains_key(ops[i].0));
    assert(built(ops).entries().contains_key(ops[i].0));
}

/// After a run of insertions a lookup finds nothing for a key that
/// was never inserted.
pub proof fn lemma_lookup_absent(ops: Seq<(Seq<char>, Seq<char>)>, key: Seq<char>)
    requires
        forall|j: int| 0 <= j < ops.len() ==> (#[trigger] ops[j]).0 != key,
    ensures
        built(ops).lookup(key) is None,
{
    lemma_built(ops);
    lemma_recorded(ops, key);
    assert(!built(ops).entries().contains_key(key));
}

/// After a run of insertions the tree lists as many keys as there
/// are different keys among the insertions.
pub proof fn lemma_keys_inserted(ops: Seq<(Seq<char>, Seq<char>)>)
    ensures
        built(ops).keys(Seq::empty()).no_duplicates(),
        built(ops).keys(Seq::empty()).to_set() == ops.map_values(
            |op: (Seq<char>, Seq<char>)| op.0,
        ).to_set(),
        built(ops).keys(Seq::empty()).len() == ops.map_values(
            |op: (Seq<char>, Seq<char>)| op.0,
        ).to_set().len(),
{
    let inserted = ops.map_values(|op: (Seq<char>, Seq<char>)| op.0);
    lemma_built(ops);
    lemma_keys(built(ops));
    assert forall|key: Seq<char>| recorded(ops).dom().contains(key) <==> inserted.to_set().contains(
        key,
    ) by {
        lemma_recorded(ops, key);
        if inserted.contains(key) {
            let i = choose|i: int| 0 <= i < inserted.len() && inserted[i] == key;
            assert(ops[i].0 == key);
        }
        if recorded(ops).contains_key(key) {
            let i = choose|i: int| 0 <= i < ops.len() && (#[trigger] ops[i]).0 == key;
            assert(inserted[i] == key);
        }
    }
    assert(recorded(ops).dom() =~= inserted.to_set());
}

/// Two runs of insertions that hold the same entries, the first
/// with no key twice, build trees in which every lookup finds the same: the
/// order of the insertions does not show.
pub proof fn lemma_order_independent(
    first_run: Seq<(Seq<char>, Seq<char>)>,
    second_run: Seq<(Seq<char>, Seq<char>)>,
)
    requires
        distinct_keys(first_run),
        first_run.to_set() == second_run.to_set(),
    ensures
        built(first_run).entries() == built(second_run).entries(),
        forall|key: Seq<char>| built(first_run).lookup(key) == built(second_run).lookup(key),
{
    let a = first_run;
    let b = second_run;
    lemma_built(a);
    lemma_built(b);
    assert forall|key: Seq<char>| built(a).lookup(key) == built(b).lookup(key) by {
        lemma_recorded(a, key);
        lemma_recorded(b, key);
        if recorded(a).contains_key(key) {
            let i = choose|i: int| 0 <= i < a.len() && (#[trigger] a[i]).0 == key;
            assert(a.to_set().contains(a[i]));
            assert(b.contains(a[i]));
            let j = choose|j: int| 0 <= j < b.len() && b[j] == a[i];
            assert(b[j].0 == key);
            lemma_same_value(a, b, key);
        }
        if recorded(b).contains_key(key) {
            let j = choose|j: int| 0 <= j < b.len() && (#[trigger] b[j]).0 == key;
            assert(b.to_set().contains(b[j]));
            assert(a.contains(b[j]));
            let i = choose|i: int| 0 <= i < a.len() && a[i] == b[j];
            assert(a[i].0 == key);
            lemma_same_value(a, b, key);
        }
        assert(built(a).entries().contains_key(key) == built(b).entries().contains_key(key));
        if built(a).entries().contains_key(key) {
            assert(built(a).entries()[key] == built(b).entries()[key]);
        }
    }
    assert(built(a).entries() =~= built(b).entries());
}

} // verus!
