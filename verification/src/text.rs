//! Prefix arithmetic on character sequences, and the executable string
//! operations that compute it.

use vstd::prelude::*;
use vstd::std_specs::iter::IteratorSpec;
use vstd::string::*;

verus! {

/// The character that closes the label of an edge at which a key ends.
pub const TERMINATOR: char = ':';

/// The number of leading characters that `a` and `b` have in common.
pub open spec fn common_prefix(a: Seq<char>, b: Seq<char>) -> nat
    decreases a.len(),
{
    if a.len() > 0 && b.len() > 0 && a[0] == b[0] {
        1 + common_prefix(a.drop_first(), b.drop_first())
    } else {
        0
    }
}

/// A key is valid when the terminator does not occur in it.
pub open spec fn valid_key(key: Seq<char>) -> bool {
    !key.contains(TERMINATOR)
}

/// `common_prefix` is the length of the longest prefix shared by both
/// sequences: they agree below it and differ at it.
pub proof fn lemma_common_prefix(a: Seq<char>, b: Seq<char>)
    ensures
        common_prefix(a, b) <= a.len(),
        common_prefix(a, b) <= b.len(),
        a.take(common_prefix(a, b) as int) == b.take(common_prefix(a, b) as int),
        common_prefix(a, b) < a.len() && common_prefix(a, b) < b.len() ==> a[common_prefix(a, b) as int]
            != b[common_prefix(a, b) as int],
    decreases a.len(),
{
    if a.len() > 0 && b.len() > 0 && a[0] == b[0] {
        let a1 = a.drop_first();
        let b1 = b.drop_first();
        lemma_common_prefix(a1, b1);
        let p = common_prefix(a1, b1) as int;
        assert(a.take(p + 1) =~= seq![a[0]] + a1.take(p));
        assert(b.take(p + 1) =~= seq![b[0]] + b1.take(p));
        if p < a1.len() && p < b1.len() {
            assert(a[p + 1] == a1[p]);
            assert(b[p + 1] == b1[p]);
        }
    } else {
        assert(a.take(0) =~= b.take(0));
    }
}

/// Any length up to which two sequences agree is at most their common prefix.
pub proof fn lemma_common_prefix_is_longest(a: Seq<char>, b: Seq<char>, n: int)
    requires
        0 <= n <= a.len(),
        n <= b.len(),
        a.take(n) == b.take(n),
    ensures
        n <= common_prefix(a, b),
    decreases n,
{
    if n > 0 {
        assert(a[0] == a.take(n)[0]);
        assert(b[0] == b.take(n)[0]);
        assert(a.drop_first().take(n - 1) =~= a.take(n).drop_first());
        assert(b.drop_first().take(n - 1) =~= b.take(n).drop_first());
        lemma_common_prefix_is_longest(a.drop_first(), b.drop_first(), n - 1);
    }
}

/// `a` is a prefix of `b` exactly when their common prefix is all of `a`.
pub proof fn lemma_prefix_by_common_prefix(a: Seq<char>, b: Seq<char>)
    ensures
        a.is_prefix_of(b) <==> common_prefix(a, b) == a.len(),
{
    lemma_common_prefix(a, b);
    let p = common_prefix(a, b) as int;
    if p == a.len() {
        assert(a.take(p) =~= a);
        assert(b.take(p) =~= b.subrange(0, a.len() as int));
    }
    if a.is_prefix_of(b) {
        assert(a.take(a.len() as int) =~= a);
        assert(b.take(a.len() as int) =~= b.subrange(0, a.len() as int));
        lemma_common_prefix_is_longest(a, b, a.len() as int);
    }
}

/// The common prefix does not depend on the order of its arguments.
pub proof fn lemma_common_prefix_symmetric(a: Seq<char>, b: Seq<char>)
    ensures
        common_prefix(a, b) == common_prefix(b, a),
    decreases a.len(),
{
    if a.len() > 0 && b.len() > 0 && a[0] == b[0] {
        lemma_common_prefix_symmetric(a.drop_first(), b.drop_first());
    }
}

/// What the first `n` characters of `a` share with `b` is what `a` shares
/// with `b`, as far as it lies within them.
pub proof fn lemma_common_prefix_take(a: Seq<char>, b: Seq<char>, n: int)
    requires
        0 <= n <= a.len(),
    ensures
        common_prefix(a.take(n), b) == if common_prefix(a, b) < n {
            common_prefix(a, b)
        } else {
            n as nat
        },
    decreases a.len(),
{
    if n > 0 && b.len() > 0 && a[0] == b[0] {
        assert(a.take(n)[0] == a[0]);
        assert(a.take(n).drop_first() =~= a.drop_first().take(n - 1));
        lemma_common_prefix_take(a.drop_first(), b.drop_first(), n - 1);
    } else if n > 0 {
        assert(a.take(n)[0] == a[0]);
    }
}

/// The first `n` characters of a sequence are a prefix of it.
pub proof fn lemma_take_is_prefix(a: Seq<char>, n: int)
    requires
        0 <= n <= a.len(),
    ensures
        a.take(n).is_prefix_of(a),
        a.take(n).len() == n,
        a.take(n) + a.skip(n) == a,
{
    assert(a.take(n) =~= a.subrange(0, a.take(n).len() as int));
    assert(a.take(n) + a.skip(n) =~= a);
}

/// How a sequence `a` that begins with `p` stands to another sequence is
/// decided by `p` and by what follows `p` in each.
pub proof fn lemma_prefix_rest(p: Seq<char>, a: Seq<char>, b: Seq<char>)
    requires
        p.is_prefix_of(a),
    ensures
        a.is_prefix_of(b) <==> p.is_prefix_of(b) && a.skip(p.len() as int).is_prefix_of(
            b.skip(p.len() as int),
        ),
        a.is_prefix_of(b) ==> b.skip(p.len() as int).skip(a.len() - p.len()) == b.skip(
            a.len() as int,
        ),
        a == b <==> p.is_prefix_of(b) && a.skip(p.len() as int) == b.skip(p.len() as int),
{
    let n = p.len() as int;
    let a1 = a.skip(n);
    let b1 = b.skip(n);
    assert(p =~= a.subrange(0, n));
    if a.is_prefix_of(b) {
        assert(a =~= b.subrange(0, a.len() as int));
        assert(p =~= b.subrange(0, n));
        assert(a1 =~= b1.subrange(0, a1.len() as int));
        assert(b1.skip(a.len() - n) =~= b.skip(a.len() as int));
    }
    if p.is_prefix_of(b) && a1.is_prefix_of(b1) {
        assert(p =~= b.subrange(0, n));
        assert(a1 =~= b1.subrange(0, a1.len() as int));
        assert forall|k: int| 0 <= k < a.len() implies a[k] == b[k] by {
            if k < n {
                assert(a[k] == p[k]);
                assert(b[k] == p[k]);
            } else {
                assert(a[k] == a1[k - n]);
                assert(b[k] == b1[k - n]);
            }
        }
        assert(a =~= b.subrange(0, a.len() as int));
    }
    if p.is_prefix_of(b) && a1 == b1 {
        assert(a1.is_prefix_of(b1)) by {
            assert(a1 =~= b1.subrange(0, a1.len() as int));
        }
        assert(a.len() == b.len());
        assert(a =~= b);
    }
}

/// The number of leading characters that the two strings share.
pub fn common_prefix_length(a: &str, b: &str) -> (n: usize)
    ensures
        n == common_prefix(a@, b@),
{
    broadcast use group_string_axioms;

    let limit = a.unicode_len();
    let mut left = a.chars();
    let mut right = b.chars();
    let mut n: usize = 0;
    loop
        invariant
            limit == a@.len(),
            n + left.remaining().len() == a@.len(),
            n + common_prefix(left.remaining(), right.remaining()) == common_prefix(a@, b@),
        decreases limit - n,
    {
        match left.next() {
            None => {
                return n;
            },
            Some(x) => {
                match right.next() {
                    None => {
                        return n;
                    },
                    Some(y) => {
                        if x != y {
                            return n;
                        }
                        n = n + 1;
                    },
                }
            },
        }
    }
}

/// Whether the terminator is absent from `key`.
pub fn is_valid_key(key: &str) -> (ok: bool)
    ensures
        ok == valid_key(key@),
{
    broadcast use group_string_axioms;

    for c in it: key.chars()
        invariant
            it.seq() == key@,
            !key@.take(it.index() as int).contains(TERMINATOR),
    {
        if c == TERMINATOR {
            assert(key@[it.index() as int] == TERMINATOR);
            return false;
        }
        assert(key@.take(it.index() + 1) == key@.take(it.index() as int).push(c));
    }
    assert(key@.take(key@.len() as int) == key@);
    true
}

/// Whether `a` stands at or before `b` in the order of a dictionary: the
/// sequences are compared character by character, and a sequence stands
/// before those that it begins.
pub open spec fn precedes(a: Seq<char>, b: Seq<char>) -> bool
    decreases a.len(),
{
    a.len() == 0 || (b.len() > 0 && ((a[0] as u32) < (b[0] as u32) || (a[0] == b[0] && precedes(
        a.drop_first(),
        b.drop_first(),
    ))))
}

/// Whether the sequences of `keys` stand in the order of a dictionary, each
/// at or before the next.
pub open spec fn ascending(keys: Seq<Seq<char>>) -> bool {
    forall|i: int| 0 <= i < keys.len() - 1 ==> precedes(#[trigger] keys[i], keys[i + 1])
}

/// The order is decided where the two sequences part.
pub proof fn lemma_precedes_by_common_prefix(a: Seq<char>, b: Seq<char>)
    ensures
        precedes(a, b) <==> common_prefix(a, b) == a.len() || (common_prefix(a, b) < b.len() && (
        a[common_prefix(a, b) as int] as u32) < (b[common_prefix(a, b) as int] as u32)),
    decreases a.len(),
{
    lemma_common_prefix(a, b);
    if a.len() > 0 && b.len() > 0 && a[0] == b[0] {
        let p = common_prefix(a.drop_first(), b.drop_first()) as int;
        lemma_precedes_by_common_prefix(a.drop_first(), b.drop_first());
        lemma_common_prefix(a.drop_first(), b.drop_first());
        if p < a.drop_first().len() {
            assert(a[p + 1] == a.drop_first()[p]);
        }
        if p < b.drop_first().len() {
            assert(b[p + 1] == b.drop_first()[p]);
        }
    }
}

/// Of two sequences one stands at or before the other.
pub proof fn lemma_precedes_total(a: Seq<char>, b: Seq<char>)
    ensures
        precedes(a, b) || precedes(b, a),
    decreases a.len(),
{
    if a.len() > 0 && b.len() > 0 {
        if a[0] == b[0] {
            lemma_precedes_total(a.drop_first(), b.drop_first());
        } else {
            vstd::utf8::char_u32_cast(a[0], a[0] as u32);
            vstd::utf8::char_u32_cast(b[0], b[0] as u32);
        }
    }
}

/// Two sequences that stand at or before each other are the same.
pub proof fn lemma_precedes_antisymmetric(a: Seq<char>, b: Seq<char>)
    requires
        precedes(a, b),
        precedes(b, a),
    ensures
        a == b,
    decreases a.len(),
{
    if a.len() > 0 && b.len() > 0 {
        lemma_precedes_antisymmetric(a.drop_first(), b.drop_first());
        assert(a =~= seq![a[0]] + a.drop_first());
        assert(b =~= seq![b[0]] + b.drop_first());
    } else {
        assert(a =~= b);
    }
}

/// What stands at or before a sequence stands at or before all that the
/// sequence stands at or before.
pub proof fn lemma_precedes_transitive(a: Seq<char>, b: Seq<char>, c: Seq<char>)
    requires
        precedes(a, b),
        precedes(b, c),
    ensures
        precedes(a, c),
    decreases a.len(),
{
    if a.len() > 0 && b.len() > 0 && c.len() > 0 && a[0] == b[0] && b[0] == c[0] {
        lemma_precedes_transitive(a.drop_first(), b.drop_first(), c.drop_first());
    }
}

/// The first of an ascending sequence stands at or before each of the
/// others.
pub proof fn lemma_ascending_first(keys: Seq<Seq<char>>, i: int)
    requires
        ascending(keys),
        0 <= i < keys.len(),
    ensures
        precedes(keys[0], keys[i]),
    decreases i,
{
    if i == 0 {
        lemma_precedes_total(keys[0], keys[0]);
    } else {
        lemma_ascending_first(keys, i - 1);
        lemma_precedes_transitive(keys[0], keys[i - 1], keys[i]);
    }
}

/// Two ascending sequences without duplicates that list the same keys are
/// the same sequence.
pub proof fn lemma_ascending_unique(s: Seq<Seq<char>>, t: Seq<Seq<char>>)
    requires
        ascending(s),
        ascending(t),
        s.no_duplicates(),
        t.no_duplicates(),
        s.to_set() == t.to_set(),
    ensures
        s == t,
    decreases s.len(),
{
    if s.len() == 0 {
        if t.len() > 0 {
            assert(t.to_set().contains(t[0]));
            assert(s.contains(t[0]));
        }
        assert(s =~= t);
    } else {
        assert(s.to_set().contains(s[0]));
        assert(t.contains(s[0]));
        let j = choose|j: int| 0 <= j < t.len() && t[j] == s[0];
        assert(t.to_set().contains(t[0]));
        assert(s.contains(t[0]));
        let i = choose|i: int| 0 <= i < s.len() && s[i] == t[0];
        lemma_ascending_first(s, i);
        lemma_ascending_first(t, j);
        lemma_precedes_antisymmetric(s[0], t[0]);
        let s1 = s.drop_first();
        let t1 = t.drop_first();
        assert forall|x: Seq<char>| s1.contains(x) <==> t1.contains(x) by {
            if s1.contains(x) {
                let k = choose|k: int| 0 <= k < s1.len() && s1[k] == x;
                assert(s[k + 1] == x);
                assert(s.to_set().contains(x));
                assert(t.contains(x));
                let m = choose|m: int| 0 <= m < t.len() && t[m] == x;
                assert(m != 0);
                assert(t1[m - 1] == x);
            }
            if t1.contains(x) {
                let k = choose|k: int| 0 <= k < t1.len() && t1[k] == x;
                assert(t[k + 1] == x);
                assert(t.to_set().contains(x));
                assert(s.contains(x));
                let m = choose|m: int| 0 <= m < s.len() && s[m] == x;
                assert(m != 0);
                assert(s1[m - 1] == x);
            }
        }
        assert(s1.to_set() =~= t1.to_set());
        assert(ascending(s1)) by {
            assert forall|k: int| 0 <= k < s1.len() - 1 implies precedes(
                #[trigger] s1[k],
                s1[k + 1],
            ) by {
                assert(precedes(s[k + 1], s[k + 2]));
            }
        }
        assert(ascending(t1)) by {
            assert forall|k: int| 0 <= k < t1.len() - 1 implies precedes(
                #[trigger] t1[k],
                t1[k + 1],
            ) by {
                assert(precedes(t[k + 1], t[k + 2]));
            }
        }
        lemma_ascending_unique(s1, t1);
        assert(s =~= seq![s[0]] + s1);
        assert(t =~= seq![t[0]] + t1);
    }
}

/// Whether `a` stands at or before `b` in the order of a dictionary.
pub fn comes_first(a: &str, b: &str) -> (r: bool)
    ensures
        r == precedes(a@, b@),
{
    let shared = common_prefix_length(a, b);
    let a_len = a.unicode_len();
    let b_len = b.unicode_len();
    proof {
        lemma_common_prefix(a@, b@);
        lemma_precedes_by_common_prefix(a@, b@);
    }
    if shared == a_len {
        true
    } else if shared == b_len {
        false
    } else {
        (a.get_char(shared) as u32) < (b.get_char(shared) as u32)
    }
}

} // verus!
