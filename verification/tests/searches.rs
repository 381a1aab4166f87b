use ternary_tree::Tst;

const SOME_KEYS: [&str; 16] = [
    "aba", "ab", "bc", "ac", "abc", "a", "b", "aca", "caa", "cbc", "bac", "c", "cca", "aab", "abb",
    "aa",
];

fn sample_tree() -> Tst<String> {
    let mut t: Tst<String> = Tst::new();
    for key in &SOME_KEYS {
        t.insert(key, key.to_string());
    }
    t
}

#[test]
fn sample_tree_counts_distinct_keys() {
    let t = sample_tree();
    assert_eq!(t.len(), 16);
}

#[test]
fn exhaustive_visit_is_sorted_ascending() {
    let t = sample_tree();
    let vals = t.visit_values();
    assert_eq!(vals.len(), 16);
    for w in vals.windows(2) {
        assert!(w[0] < w[1]);
    }
}

#[test]
fn prefix_visit_over_a() {
    let t = sample_tree();
    // the value stored under the exact prefix "a" is deliberately excluded
    let vals = t.visit_complete_values("a");
    let got: Vec<&str> = vals.iter().map(|s| s.as_str()).collect();
    let mut expected = vec!["ab", "aba", "abb", "abc", "aab", "aa", "ac", "aca"];
    expected.sort();
    let mut sorted_got = got.clone();
    sorted_got.sort();
    assert_eq!(sorted_got, expected);
    // and the visit itself comes back in ascending key order
    for w in got.windows(2) {
        assert!(w[0] < w[1]);
    }
}

#[test]
fn prefix_visit_excludes_exact_prefix_value() {
    let mut t: Tst<u32> = Tst::new();
    t.insert("ab", 1);
    t.insert("abc", 2);
    let vals = t.visit_complete_values("ab");
    assert_eq!(vals, vec![&2]);
}

#[test]
fn neighbor_visit_abc_within_one() {
    let t = sample_tree();
    let vals = t.visit_neighbor_values("abc", 1);
    let got: Vec<&str> = vals.iter().map(|s| s.as_str()).collect();
    assert_eq!(got, vec!["ab", "aba", "abb", "abc", "cbc"]);
}

#[test]
fn neighbor_visit_empty_key_selects_short_keys() {
    let t = sample_tree();
    let vals = t.visit_neighbor_values("", 1);
    let got: Vec<&str> = vals.iter().map(|s| s.as_str()).collect();
    assert_eq!(got, vec!["a", "b", "c"]);
}

#[test]
fn crossword_visit_pattern() {
    let t = sample_tree();
    let vals = t.visit_crossword_values("a?a", '?');
    let got: Vec<&str> = vals.iter().map(|s| s.as_str()).collect();
    assert_eq!(got, vec!["aba", "aca"]);
}

#[test]
fn crossword_visit_empty_pattern_matches_nothing() {
    let t = sample_tree();
    assert!(t.visit_crossword_values("", '?').is_empty());
}

#[test]
fn mutating_visit_over_prefix_c() {
    let mut t = sample_tree();
    t.visit_complete_values_mut("c", |_v| "xxx".to_string());
    assert_eq!(t.get("caa"), Some(&"xxx".to_string()));
    assert_eq!(t.get("cbc"), Some(&"xxx".to_string()));
    assert_eq!(t.get("cca"), Some(&"xxx".to_string()));
    // the value at the exact prefix stays
    assert_eq!(t.get("c"), Some(&"c".to_string()));
    // values elsewhere stay
    assert_eq!(t.get("aba"), Some(&"aba".to_string()));
}

#[test]
fn mutating_visit_all_values() {
    let mut t: Tst<u32> = Tst::new();
    t.insert("x", 1);
    t.insert("yz", 2);
    t.visit_values_mut(|v| v + 10);
    assert_eq!(t.get("x"), Some(&11));
    assert_eq!(t.get("yz"), Some(&12));
}

#[test]
fn mutating_neighbor_visit() {
    let mut t = sample_tree();
    t.visit_neighbor_values_mut("abc", 1, |_v| "hit".to_string());
    assert_eq!(t.get("abc"), Some(&"hit".to_string()));
    assert_eq!(t.get("cbc"), Some(&"hit".to_string()));
    assert_eq!(t.get("aca"), Some(&"aca".to_string()));
}

#[test]
fn mutating_crossword_visit() {
    let mut t = sample_tree();
    t.visit_crossword_values_mut("a?a", '?', |v| format!("{}!", v));
    assert_eq!(t.get("aba"), Some(&"aba!".to_string()));
    assert_eq!(t.get("aca"), Some(&"aca!".to_string()));
    assert_eq!(t.get("abc"), Some(&"abc".to_string()));
}
