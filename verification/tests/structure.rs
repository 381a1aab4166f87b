use ternary_tree::Tst;

const SOME_KEYS: [&str; 16] = [
    "aba", "ab", "bc", "ac", "abc", "a", "b", "aca", "caa", "cbc", "bac", "c", "cca", "aab", "abb",
    "aa",
];

#[test]
fn removing_every_key_leaves_no_nodes() {
    let mut t: Tst<String> = Tst::new();
    for key in &SOME_KEYS {
        t.insert(key, key.to_string());
    }
    assert_eq!(t.stat().count.nodes > 0, true);
    for key in &SOME_KEYS {
        assert!(t.remove(key).is_some());
    }
    assert_eq!(t.len(), 0);
    let s = t.stat();
    assert_eq!(s.count.nodes, 0);
    assert_eq!(s.count.values, 0);
    assert!(t.visit_values().is_empty());
    assert!(t.iter().next().is_none());
}

#[test]
fn removal_prunes_only_the_dead_branch() {
    let mut t: Tst<u32> = Tst::new();
    t.insert("abcd", 1);
    t.insert("ab", 2);
    assert_eq!(t.remove("abcd"), Some(1));
    assert_eq!(t.get("ab"), Some(&2));
    let s = t.stat();
    assert_eq!(s.count.nodes, 2);
    assert_eq!(s.count.values, 1);
}

#[test]
fn clear_empties_everything() {
    let mut t: Tst<u32> = Tst::new();
    t.insert("one", 1);
    t.insert("two", 2);
    t.clear();
    assert_eq!(t.len(), 0);
    assert_eq!(t.get("one"), None);
    assert_eq!(t.stat().count.nodes, 0);
}

#[test]
fn stat_reports_counts_and_key_lengths() {
    let mut t: Tst<u32> = Tst::new();
    t.insert("a", 1);
    t.insert("abc", 2);
    t.insert("bc", 3);
    let s = t.stat();
    assert_eq!(s.count.values, 3);
    assert_eq!(s.key_len.min, 1);
    assert_eq!(s.key_len.max, 3);
    // "a", "abc" share a spine of three nodes; "bc" adds two more
    assert_eq!(s.count.nodes, 5);
    assert!(s.bytes.node > 0);
    assert!(s.bytes.total >= s.count.nodes * s.bytes.node);
}

#[test]
fn stat_distribution_counts_values_by_key_length() {
    let mut t: Tst<u32> = Tst::new();
    t.insert("a", 1);
    t.insert("bc", 2);
    t.insert("de", 3);
    let s = t.stat();
    let matches: Vec<usize> = s.dist.iter().map(|d| d.matches).collect();
    // one key of length one, two keys of length two
    assert_eq!(matches[1], 1);
    assert_eq!(matches[2], 2);
}

#[test]
fn get_mut_updates_in_place() {
    let mut t: Tst<u32> = Tst::new();
    t.insert("key", 1);
    assert!(t.get_mut("missing").is_none());
    assert!(t.get_mut("").is_none());
    if let Some(v) = t.get_mut("key") {
        *v = 42;
    }
    assert_eq!(t.get("key"), Some(&42));
    assert_eq!(t.len(), 1);
}

#[test]
fn pretty_print_describes_the_graph() {
    let mut t: Tst<u32> = Tst::new();
    t.insert("ab", 1);
    let dot = t.pretty_print();
    assert!(dot.starts_with("digraph {"));
    assert!(dot.ends_with("}\n"));
    assert!(dot.contains("a"));
    assert!(dot.contains("style=bold"));
}

#[test]
fn insert_order_shapes_but_does_not_change_the_map() {
    let mut t1: Tst<u32> = Tst::new();
    let mut t2: Tst<u32> = Tst::new();
    for (i, k) in ["m", "a", "z"].iter().enumerate() {
        t1.insert(k, i as u32);
    }
    for (i, k) in ["z", "a", "m"].iter().enumerate() {
        t2.insert(k, 2 - i as u32);
    }
    for k in ["m", "a", "z"] {
        assert_eq!(t1.get(k), t2.get(k));
    }
}
