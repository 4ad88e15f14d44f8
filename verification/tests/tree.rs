use prefix_tree::{InvalidKey, PrefixTree};

#[test]
fn test_empty_tree() {
    let tree = PrefixTree::new();
    assert!(tree.is_empty());
    assert_eq!(tree.len(), 0);
}

#[test]
fn test_single_insertion() {
    let mut tree = PrefixTree::new();
    tree.insert("bar", "val_bar".to_string()).unwrap();
    assert!(!tree.is_empty());
    assert_eq!(tree.len(), 1);
    assert_eq!(tree.get("bar"), Some("val_bar".to_string()));
}

#[test]
fn test_exact_user_scenario() {
    let mut tree = PrefixTree::new();

    println!("\n=== Testing User Scenario ===");

    println!("1. Start with empty tree");

    println!("\n2. Add 'bar' value");
    tree.insert("bar", "val_bar".to_string()).unwrap();

    println!("\n3. Add 'foobar' value");
    tree.insert("foobar", "val_foobar".to_string()).unwrap();

    println!("\n4. Add 'foofoo' value");
    tree.insert("foofoo", "val_foofoo".to_string()).unwrap();

    println!("\n5. Add 'foo' value");
    tree.insert("foo", "val_foo".to_string()).unwrap();

    assert_eq!(tree.get("bar"), Some("val_bar".to_string()));
    assert_eq!(tree.get("foobar"), Some("val_foobar".to_string()));
    assert_eq!(tree.get("foofoo"), Some("val_foofoo".to_string()));
    assert_eq!(tree.get("foo"), Some("val_foo".to_string()));
    assert_eq!(tree.len(), 4);

    println!("\n=== All tests passed! ===");
}

#[test]
fn test_keys_collection() {
    let mut tree = PrefixTree::new();

    tree.insert("bar", "val_bar".to_string()).unwrap();
    tree.insert("foobar", "val_foobar".to_string()).unwrap();
    tree.insert("foofoo", "val_foofoo".to_string()).unwrap();
    tree.insert("foo", "val_foo".to_string()).unwrap();

    let mut keys = tree.keys();
    keys.sort();
    assert_eq!(keys.len(), 4);
    assert_eq!(keys, vec!["bar", "foo", "foobar", "foofoo"]);
}

fn four_key_tree() -> PrefixTree {
    let mut tree = PrefixTree::new();
    tree.insert("foo", "V1".to_string()).unwrap();
    tree.insert("foobar", "V2".to_string()).unwrap();
    tree.insert("foofoo", "V3".to_string()).unwrap();
    tree.insert("bar", "V4".to_string()).unwrap();
    tree
}

#[test]
fn four_keys_are_found_again() {
    let tree = four_key_tree();
    assert_eq!(tree.get("foo"), Some("V1".to_string()));
    assert_eq!(tree.get("foobar"), Some("V2".to_string()));
    assert_eq!(tree.get("foofoo"), Some("V3".to_string()));
    assert_eq!(tree.get("bar"), Some("V4".to_string()));
    assert_eq!(tree.len(), 4);
    assert_eq!(tree.get("baz"), None);
}

#[test]
fn overwrite_keeps_the_count() {
    let mut tree = four_key_tree();
    tree.insert("foo", "V5".to_string()).unwrap();
    assert_eq!(tree.get("foo"), Some("V5".to_string()));
    assert_eq!(tree.len(), 4);
    assert_eq!(tree.get("foobar"), Some("V2".to_string()));
    assert_eq!(tree.get("foofoo"), Some("V3".to_string()));
    assert_eq!(tree.get("bar"), Some("V4".to_string()));
}

#[test]
fn fresh_tree_holds_nothing() {
    let tree = PrefixTree::new();
    assert_eq!(tree.len(), 0);
    assert!(tree.is_empty());
    assert_eq!(tree.get("anything"), None);
    assert_eq!(tree.get(""), None);
    assert_eq!(tree.keys(), Vec::<String>::new());
}

#[test]
fn default_tree_is_empty() {
    let tree = PrefixTree::default();
    assert!(tree.is_empty());
    assert_eq!(tree.len(), 0);
}

fn permutations(items: &[usize]) -> Vec<Vec<usize>> {
    if items.len() <= 1 {
        return vec![items.to_vec()];
    }
    let mut all = Vec::new();
    for i in 0..items.len() {
        let mut rest = items.to_vec();
        let first = rest.remove(i);
        for mut tail in permutations(&rest) {
            tail.insert(0, first);
            all.push(tail);
        }
    }
    all
}

#[test]
fn every_order_of_four_keys_gives_the_same_lookups() {
    let pairs = [
        ("bar", "val_bar"),
        ("foobar", "val_foobar"),
        ("foofoo", "val_foofoo"),
        ("foo", "val_foo"),
    ];
    let orders = permutations(&[0, 1, 2, 3]);
    assert_eq!(orders.len(), 24);
    for order in orders {
        let mut tree = PrefixTree::new();
        for &i in &order {
            tree.insert(pairs[i].0, pairs[i].1.to_string()).unwrap();
        }
        for (key, value) in pairs {
            assert_eq!(tree.get(key), Some(value.to_string()), "order {:?}", order);
        }
        assert_eq!(tree.len(), 4, "order {:?}", order);
        let mut keys = tree.keys();
        keys.sort();
        assert_eq!(keys, vec!["bar", "foo", "foobar", "foofoo"], "order {:?}", order);
        assert_eq!(tree.get("fo"), None);
        assert_eq!(tree.get("foob"), None);
        assert_eq!(tree.get("foobarx"), None);
    }
}

#[test]
fn key_with_terminator_is_rejected() {
    let mut tree = PrefixTree::new();
    tree.insert("foo", "V1".to_string()).unwrap();
    assert_eq!(tree.insert("fo:o", "V2".to_string()), Err(InvalidKey));
    assert_eq!(tree.insert(":", "V2".to_string()), Err(InvalidKey));
    assert_eq!(tree.insert("foo:", "V2".to_string()), Err(InvalidKey));
    assert_eq!(tree.len(), 1);
    assert_eq!(tree.keys(), vec!["foo"]);
    assert_eq!(tree.get("foo"), Some("V1".to_string()));
    assert_eq!(tree.get("fo:o"), None);
    assert_eq!(tree.get("foo:"), None);
    assert_eq!(tree.get(":"), None);
}

#[test]
fn valid_key_is_accepted() {
    let mut tree = PrefixTree::new();
    assert_eq!(tree.insert("foo", "V1".to_string()), Ok(()));
}

#[test]
fn key_that_is_a_prefix_of_an_edge_forks_it() {
    let mut tree = PrefixTree::new();
    tree.insert("foobar", "long".to_string()).unwrap();
    tree.insert("foo", "short".to_string()).unwrap();
    assert_eq!(tree.get("foo"), Some("short".to_string()));
    assert_eq!(tree.get("foobar"), Some("long".to_string()));
    assert_eq!(tree.get("foob"), None);
    assert_eq!(tree.get("fo"), None);
    assert_eq!(tree.keys(), vec!["foo", "foobar"]);
}

#[test]
fn key_behind_a_branch_edge_goes_below_it() {
    let mut tree = PrefixTree::new();
    tree.insert("foobar", "a".to_string()).unwrap();
    tree.insert("foo", "b".to_string()).unwrap();
    tree.insert("foofoo", "c".to_string()).unwrap();
    tree.insert("foofoobar", "d".to_string()).unwrap();
    assert_eq!(tree.get("foobar"), Some("a".to_string()));
    assert_eq!(tree.get("foo"), Some("b".to_string()));
    assert_eq!(tree.get("foofoo"), Some("c".to_string()));
    assert_eq!(tree.get("foofoobar"), Some("d".to_string()));
    assert_eq!(tree.keys(), vec!["foo", "foobar", "foofoo", "foofoobar"]);
    assert_eq!(tree.len(), 4);
}

#[test]
fn keys_that_part_midway_share_a_branch() {
    let mut tree = PrefixTree::new();
    tree.insert("foobar", "a".to_string()).unwrap();
    tree.insert("foofoo", "b".to_string()).unwrap();
    assert_eq!(tree.get("foobar"), Some("a".to_string()));
    assert_eq!(tree.get("foofoo"), Some("b".to_string()));
    assert_eq!(tree.get("foo"), None);
    assert_eq!(tree.keys(), vec!["foobar", "foofoo"]);
}

#[test]
fn the_furthest_overlap_is_forked() {
    let mut tree = PrefixTree::new();
    tree.insert("ab", "1".to_string()).unwrap();
    tree.insert("abcd", "2".to_string()).unwrap();
    tree.insert("abcx", "3".to_string()).unwrap();
    tree.insert("abcxyz", "4".to_string()).unwrap();
    assert_eq!(tree.get("ab"), Some("1".to_string()));
    assert_eq!(tree.get("abcd"), Some("2".to_string()));
    assert_eq!(tree.get("abcx"), Some("3".to_string()));
    assert_eq!(tree.get("abcxyz"), Some("4".to_string()));
    assert_eq!(tree.get("abc"), None);
    assert_eq!(tree.len(), 4);
}

#[test]
fn unrelated_keys_stand_side_by_side() {
    let mut tree = PrefixTree::new();
    tree.insert("alpha", "1".to_string()).unwrap();
    tree.insert("beta", "2".to_string()).unwrap();
    tree.insert("gamma", "3".to_string()).unwrap();
    assert_eq!(tree.keys(), vec!["alpha", "beta", "gamma"]);
    assert_eq!(tree.get("beta"), Some("2".to_string()));
    assert_eq!(tree.get("delta"), None);
}

#[test]
fn overwriting_a_single_key_replaces_its_value() {
    let mut tree = PrefixTree::new();
    tree.insert("bar", "old".to_string()).unwrap();
    tree.insert("bar", "new".to_string()).unwrap();
    assert_eq!(tree.get("bar"), Some("new".to_string()));
    assert_eq!(tree.len(), 1);
    assert_eq!(tree.keys(), vec!["bar"]);
}

#[test]
fn keys_are_counted_in_characters() {
    let mut tree = PrefixTree::new();
    tree.insert("h\u{e9}llo", "1".to_string()).unwrap();
    tree.insert("h\u{e9}las", "2".to_string()).unwrap();
    tree.insert("h\u{e9}", "3".to_string()).unwrap();
    tree.insert("h\u{e8}", "4".to_string()).unwrap();
    assert_eq!(tree.get("h\u{e9}llo"), Some("1".to_string()));
    assert_eq!(tree.get("h\u{e9}las"), Some("2".to_string()));
    assert_eq!(tree.get("h\u{e9}"), Some("3".to_string()));
    assert_eq!(tree.get("h\u{e8}"), Some("4".to_string()));
    assert_eq!(tree.get("h"), None);
    assert_eq!(tree.len(), 4);
    let mut keys = tree.keys();
    keys.sort();
    assert_eq!(keys, vec!["h\u{e8}", "h\u{e9}", "h\u{e9}las", "h\u{e9}llo"]);
}

#[test]
fn the_empty_key_is_stored_at_the_root() {
    let mut tree = PrefixTree::new();
    tree.insert("", "nothing".to_string()).unwrap();
    tree.insert("a", "something".to_string()).unwrap();
    assert_eq!(tree.get(""), Some("nothing".to_string()));
    assert_eq!(tree.get("a"), Some("something".to_string()));
    assert_eq!(tree.len(), 2);
    assert!(!tree.is_empty());
    assert_eq!(tree.keys(), vec!["", "a"]);
}

#[test]
fn many_keys_are_all_found() {
    let words = [
        "romane", "romanus", "romulus", "rubens", "ruber", "rubicon", "rubicundus", "r", "rom",
        "x", "xy", "xyz", "rubicons",
    ];
    let mut tree = PrefixTree::new();
    for (i, word) in words.iter().enumerate() {
        tree.insert(word, format!("v{}", i)).unwrap();
    }
    for (i, word) in words.iter().enumerate() {
        assert_eq!(tree.get(word), Some(format!("v{}", i)), "{}", word);
    }
    assert_eq!(tree.len(), words.len());
    let mut keys = tree.keys();
    keys.sort();
    let mut expected: Vec<String> = words.iter().map(|w| w.to_string()).collect();
    expected.sort();
    assert_eq!(keys, expected);
    assert_eq!(tree.get("ro"), None);
    assert_eq!(tree.get("rube"), None);
    assert_eq!(tree.get("romanes"), None);
}

fn tree_of(keys: &[&str]) -> PrefixTree {
    let mut tree = PrefixTree::new();
    for key in keys {
        tree.insert(key, format!("value of {}", key)).unwrap();
    }
    tree
}

fn assert_holds_exactly(tree: &PrefixTree, keys: &[&str]) {
    for key in keys {
        assert_eq!(tree.get(key), Some(format!("value of {}", key)), "{}", key);
    }
    let mut expected: Vec<String> = keys.iter().map(|key| key.to_string()).collect();
    expected.sort();
    expected.dedup();
    assert_eq!(tree.keys(), expected);
    assert_eq!(tree.len(), expected.len());
}

#[test]
fn key_at_a_branch_is_overwritten_in_place() {
    let mut tree = tree_of(&["foobar", "foo"]);
    assert_eq!(tree.len(), 2);
    tree.insert("foo", "again".to_string()).unwrap();
    assert_eq!(tree.get("foo"), Some("again".to_string()));
    assert_eq!(tree.get("foobar"), Some("value of foobar".to_string()));
    assert_eq!(tree.len(), 2);
    assert_eq!(tree.keys(), vec!["foo", "foobar"]);
}

#[test]
fn key_between_a_leaf_and_its_extension_is_found() {
    let tree = tree_of(&["foo", "foobar", "fx", "fooba"]);
    assert_holds_exactly(&tree, &["foo", "foobar", "fx", "fooba"]);
}

#[test]
fn shorter_key_leaves_the_longer_ones_in_place() {
    let mut tree = tree_of(&["foo", "foobar", "foofoo"]);
    assert_eq!(tree.get("foobar"), Some("value of foobar".to_string()));
    tree.insert("fo", "value of fo".to_string()).unwrap();
    assert_holds_exactly(&tree, &["foo", "foobar", "foofoo", "fo"]);
}

#[test]
fn shorter_key_beside_a_chain_of_leaves_is_found() {
    let tree = tree_of(&["foo", "foobar", "foob", "fo"]);
    assert_holds_exactly(&tree, &["foo", "foobar", "foob", "fo"]);
}

#[test]
fn key_that_is_the_label_of_a_branch_goes_into_it() {
    let tree = tree_of(&["foa", "foab", "fox", "fo"]);
    assert_holds_exactly(&tree, &["foa", "foab", "fox", "fo"]);
}

#[test]
fn two_insertions_commute() {
    let mut one = tree_of(&["foo", "foobar"]);
    one.insert("foofoo", "a".to_string()).unwrap();
    one.insert("fo", "b".to_string()).unwrap();
    let mut other = tree_of(&["foo", "foobar"]);
    other.insert("fo", "b".to_string()).unwrap();
    other.insert("foofoo", "a".to_string()).unwrap();
    for key in ["foo", "foobar", "foofoo", "fo", "f", "foob", ""] {
        assert_eq!(one.get(key), other.get(key), "{}", key);
    }
    assert_eq!(one.len(), other.len());
    assert_eq!(one.keys(), other.keys());
}

#[test]
fn keys_come_in_dictionary_order_whatever_the_history() {
    let one = tree_of(&["a", "b"]);
    let other = tree_of(&["b", "a"]);
    assert_eq!(one.keys(), vec!["a", "b"]);
    assert_eq!(other.keys(), vec!["a", "b"]);
    let tree = tree_of(&["foofoo", "bar", "foo", "", "foobar", "b", "fop"]);
    assert_eq!(tree.keys(), vec!["", "b", "bar", "foo", "foobar", "foofoo", "fop"]);
}

#[test]
fn repeated_keys_never_change_the_count() {
    let keys = ["foo", "foobar", "fo", "foobar", "foo", "f", "fo", "foofoo", "f", "foofoo"];
    let mut tree = PrefixTree::new();
    let mut distinct: Vec<&str> = Vec::new();
    for (i, key) in keys.iter().enumerate() {
        tree.insert(key, format!("v{}", i)).unwrap();
        if !distinct.contains(key) {
            distinct.push(key);
        }
        assert_eq!(tree.len(), distinct.len(), "after {}", key);
        assert_eq!(tree.get(key), Some(format!("v{}", i)));
    }
    assert_eq!(tree.keys(), vec!["f", "fo", "foo", "foobar", "foofoo"]);
    assert_eq!(tree.get("f"), Some("v8".to_string()));
    assert_eq!(tree.get("fo"), Some("v6".to_string()));
    assert_eq!(tree.get("foo"), Some("v4".to_string()));
    assert_eq!(tree.get("foobar"), Some("v3".to_string()));
    assert_eq!(tree.get("foofoo"), Some("v9".to_string()));
}

fn next(seed: &mut u64) -> u64 {
    *seed = seed.wrapping_mul(6364136223846793005).wrapping_add(1442695040888963407);
    *seed >> 33
}

#[test]
fn random_runs_behave_as_a_map() {
    let mut seed: u64 = 7;
    for _ in 0..300 {
        let mut tree = PrefixTree::new();
        let mut map = std::collections::BTreeMap::new();
        let steps = 1 + next(&mut seed) % 10;
        for step in 0..steps {
            let len = next(&mut seed) % 5;
            let key: String = (0..len)
                .map(|_| if next(&mut seed) % 2 == 0 { 'a' } else { 'b' })
                .collect();
            let value = format!("v{}", step);
            tree.insert(&key, value.clone()).unwrap();
            map.insert(key, value);
            let expected: Vec<String> = map.keys().cloned().collect();
            assert_eq!(tree.keys(), expected);
            assert_eq!(tree.len(), map.len());
            for (key, value) in &map {
                assert_eq!(tree.get(key), Some(value.clone()));
            }
            assert_eq!(tree.get("abx"), None);
        }
    }
}
