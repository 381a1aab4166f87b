use ternary_tree::Tst;

const SOME_KEYS: [&str; 16] = [
    "aba", "ab", "bc", "ac", "abc", "a", "b", "aca", "caa", "cbc", "bac", "c", "cca", "aab", "abb",
    "aa",
];

fn sample_tree() -> Tst<String> {
    let mut t: Tst<String> = Tst::new();
    for key in &SOME_KEYS {
        t.insert(key, key.to_string());
    }
    t
}

#[test]
fn forward_iteration_is_ascending_and_complete() {
    let t = sample_tree();
    let mut it = t.iter();
    let mut got: Vec<String> = Vec::new();
    while let Some(v) = it.next() {
        got.push(v.clone());
    }
    let visited: Vec<String> = t.visit_values().into_iter().cloned().collect();
    assert_eq!(got, visited);
    for w in got.windows(2) {
        assert!(w[0] < w[1]);
    }
    // once exhausted, it stays exhausted
    assert!(it.next().is_none());
    assert!(it.next_back().is_none());
}

#[test]
fn backward_iteration_is_descending() {
    let t = sample_tree();
    let mut it = t.iter();
    let mut got: Vec<String> = Vec::new();
    while let Some(v) = it.next_back() {
        got.push(v.clone());
    }
    let mut visited: Vec<String> = t.visit_values().into_iter().cloned().collect();
    visited.reverse();
    assert_eq!(got, visited);
}

#[test]
fn alternating_drain_yields_each_value_once() {
    let t = sample_tree();
    let mut it = t.iter();
    let mut front: Vec<String> = Vec::new();
    let mut back: Vec<String> = Vec::new();
    loop {
        match it.next() {
            Some(v) => front.push(v.clone()),
            None => break,
        }
        match it.next_back() {
            Some(v) => back.push(v.clone()),
            None => break,
        }
    }
    back.reverse();
    front.extend(back);
    let visited: Vec<String> = t.visit_values().into_iter().cloned().collect();
    assert_eq!(front, visited);
}

#[test]
fn current_key_tracks_last_emitted() {
    let t = sample_tree();
    let mut it = t.iter();
    assert_eq!(it.current_key(), "");
    assert_eq!(it.current_key_back(), "");
    let first = it.next().cloned();
    assert_eq!(first, Some("a".to_string()));
    assert_eq!(it.current_key(), "a");
    let last = it.next_back().cloned();
    assert_eq!(last, Some("cca".to_string()));
    assert_eq!(it.current_key_back(), "cca");
    // draining the rest clears both keys
    while it.next().is_some() {}
    assert_eq!(it.current_key(), "");
    assert_eq!(it.current_key_back(), "");
}

#[test]
fn prefix_iterator_reports_full_keys() {
    let t = sample_tree();
    let mut it = t.iter_complete("a");
    let mut keys: Vec<String> = Vec::new();
    while it.next().is_some() {
        keys.push(it.current_key());
    }
    let mut expected = vec!["aa", "aab", "ab", "aba", "abb", "abc", "ac", "aca"];
    expected.sort();
    assert_eq!(keys, expected);
}

#[test]
fn prefix_iterator_key_accessors_fall_back_to_prefix() {
    let t = sample_tree();
    let mut it = t.iter_complete("ab");
    // before the first value, both accessors report the bare prefix
    assert_eq!(it.current_key(), "ab");
    assert_eq!(it.current_key_back(), "ab");
    assert!(it.next().is_some());
    assert_eq!(it.current_key(), "aba");
    // after exhaustion, back to the bare prefix
    while it.next().is_some() {}
    assert_eq!(it.current_key(), "ab");
    assert_eq!(it.current_key_back(), "ab");
}

#[test]
fn neighbor_iterator_abc_within_one() {
    let t = sample_tree();
    let mut it = t.iter_neighbor("abc", 1);
    let mut got: Vec<String> = Vec::new();
    while let Some(v) = it.next() {
        got.push(v.clone());
    }
    assert_eq!(got, vec!["ab", "aba", "abb", "abc", "cbc"]);
}

#[test]
fn neighbor_iterator_from_the_back() {
    let t = sample_tree();
    let mut it = t.iter_neighbor("abc", 1);
    let mut got: Vec<String> = Vec::new();
    while let Some(v) = it.next_back() {
        got.push(v.clone());
    }
    assert_eq!(got, vec!["cbc", "abc", "abb", "aba", "ab"]);
}

#[test]
fn crossword_iterator_pattern() {
    let t = sample_tree();
    let mut it = t.iter_crossword("a?a", '?');
    assert_eq!(it.next().map(|s| s.as_str()), Some("aba"));
    assert_eq!(it.current_key(), "aba");
    assert_eq!(it.next().map(|s| s.as_str()), Some("aca"));
    assert_eq!(it.current_key(), "aca");
    assert!(it.next().is_none());
}

#[test]
fn two_cursors_meet_in_the_middle() {
    let mut t: Tst<u32> = Tst::new();
    t.insert("a", 1);
    t.insert("b", 2);
    t.insert("c", 3);
    let mut it = t.iter();
    assert_eq!(it.next(), Some(&1));
    assert_eq!(it.next_back(), Some(&3));
    assert_eq!(it.next(), Some(&2));
    assert_eq!(it.next(), None);
    assert_eq!(it.next_back(), None);
}
