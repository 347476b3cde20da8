use autocompleter::autocompleter::ELEMENTS_TO_RETURN;
use autocompleter::order::lex_less;
use autocompleter::{Autocompleter, Mwt};

fn words(v: &[&str]) -> Vec<String> {
    v.iter().map(|s| s.to_string()).collect()
}

fn add(ac: &mut Autocompleter, w: &str, times: usize) {
    for _ in 0..times {
        ac.add_word(w.to_string());
    }
}

#[test]
fn scenario_frequency_then_alphabetical() {
    let mut ac = Autocompleter::new();
    add(&mut ac, "cat", 3);
    add(&mut ac, "cap", 2);
    add(&mut ac, "car", 1);
    assert_eq!(ac.predict_completions(&"ca".to_string()), words(&["cat", "cap", "car"]));
}

#[test]
fn scenario_equal_counts_alphabetical() {
    let mut ac = Autocompleter::new();
    add(&mut ac, "a", 1);
    add(&mut ac, "ab", 1);
    add(&mut ac, "abc", 1);
    assert_eq!(ac.predict_completions(&"a".to_string()), words(&["a", "ab", "abc"]));
}

#[test]
fn scenario_empty_trie() {
    let ac = Autocompleter::new();
    assert_eq!(ac.predict_completions(&"anything".to_string()), Vec::<String>::new());
}

#[test]
fn scenario_requery_after_inserts() {
    let mut ac = Autocompleter::new();
    add(&mut ac, "dog", 1);
    assert_eq!(ac.predict_completions(&"do".to_string()), words(&["dog"]));
    add(&mut ac, "dog", 1);
    assert_eq!(ac.predict_completions(&"do".to_string()), words(&["dog"]));
    add(&mut ac, "dot", 1);
    assert_eq!(ac.predict_completions(&"do".to_string()), words(&["dog", "dot"]));
}

#[test]
fn repeated_insert_counts_each_time() {
    let mut ac = Autocompleter::new();
    add(&mut ac, "hello", 5);
    assert_eq!(ac.frequency(&"hello".to_string()), 5);
    assert_eq!(ac.frequency(&"hell".to_string()), 0);
    assert_eq!(ac.predict_completions(&"he".to_string()), words(&["hello"]));
}

#[test]
fn prefix_miss_is_empty() {
    let mut ac = Autocompleter::new();
    add(&mut ac, "cat", 1);
    add(&mut ac, "dog", 1);
    assert!(ac.predict_completions(&"cz".to_string()).is_empty());
    assert!(ac.predict_completions(&"cats".to_string()).is_empty());
    assert!(ac.predict_completions(&"x".to_string()).is_empty());
}

#[test]
fn empty_prefix_is_empty() {
    let mut ac = Autocompleter::new();
    add(&mut ac, "cat", 2);
    add(&mut ac, "", 1);
    assert!(ac.predict_completions(&String::new()).is_empty());
}

#[test]
fn empty_word_is_recorded_but_not_queryable() {
    let mut ac = Autocompleter::new();
    add(&mut ac, "", 2);
    assert_eq!(ac.frequency(&String::new()), 2);
    assert!(ac.predict_completions(&String::new()).is_empty());
    let mut t = Mwt::new();
    t.add_record(String::new());
    assert!(t.get_root().get_end());
    assert_eq!(t.get_root().get_rank(), 1);
    assert_eq!(t.get_root().get_data(), "");
}

#[test]
fn answers_are_ranked() {
    let mut ac = Autocompleter::new();
    add(&mut ac, "bb", 2);
    add(&mut ac, "ba", 2);
    add(&mut ac, "bc", 4);
    add(&mut ac, "b", 1);
    add(&mut ac, "bca", 1);
    let r = ac.predict_completions(&"b".to_string());
    assert_eq!(r, words(&["bc", "ba", "bb", "b", "bca"]));
    for i in 0..r.len() - 1 {
        let (fa, fb) = (ac.frequency(&r[i]), ac.frequency(&r[i + 1]));
        assert!(fa >= fb);
        if fa == fb {
            assert!(r[i] <= r[i + 1]);
        }
    }
}

#[test]
fn at_most_ten_answers() {
    let mut ac = Autocompleter::new();
    let letters = "abcdefghijklmnopqrstuvwxyz";
    for (k, c) in letters.chars().enumerate() {
        add(&mut ac, &format!("w{c}"), k % 3 + 1);
    }
    let r = ac.predict_completions(&"w".to_string());
    assert_eq!(r.len(), ELEMENTS_TO_RETURN);
    assert_eq!(r, words(&["wc", "wf", "wi", "wl", "wo", "wr", "wu", "wx", "wb", "we"]));
}

#[test]
fn exactly_ten_answers_when_ten_words() {
    let mut ac = Autocompleter::new();
    for c in "abcdefghij".chars() {
        add(&mut ac, &format!("z{c}"), 1);
    }
    let r = ac.predict_completions(&"z".to_string());
    assert_eq!(r, words(&["za", "zb", "zc", "zd", "ze", "zf", "zg", "zh", "zi", "zj"]));
}

#[test]
fn case_sensitive_words() {
    let mut ac = Autocompleter::new();
    add(&mut ac, "Cat", 1);
    add(&mut ac, "cat", 2);
    assert_eq!(ac.frequency(&"Cat".to_string()), 1);
    assert_eq!(ac.frequency(&"cat".to_string()), 2);
    assert_eq!(ac.predict_completions(&"C".to_string()), words(&["Cat"]));
    assert_eq!(ac.predict_completions(&"c".to_string()), words(&["cat"]));
}

#[test]
fn whole_word_prefix_includes_itself() {
    let mut ac = Autocompleter::new();
    add(&mut ac, "car", 1);
    add(&mut ac, "cart", 3);
    assert_eq!(ac.predict_completions(&"car".to_string()), words(&["cart", "car"]));
}

#[test]
fn non_ascii_words() {
    let mut ac = Autocompleter::new();
    add(&mut ac, "über", 1);
    add(&mut ac, "ücher", 1);
    add(&mut ac, "uber", 1);
    assert_eq!(ac.predict_completions(&"ü".to_string()), words(&["über", "ücher"]));
}

#[test]
fn code_point_order() {
    assert!(lex_less("ab", "abc"));
    assert!(!lex_less("abc", "ab"));
    assert!(lex_less("Zebra", "apple"));
    assert!(!lex_less("same", "same"));
    assert!(lex_less("", "a"));
    assert!(lex_less("z", "é"));
}

#[test]
fn trie_shape_after_records() {
    let mut t = Mwt::new();
    t.add_record("to".to_string());
    t.add_record("tea".to_string());
    t.add_record("to".to_string());
    let root = t.get_root();
    assert!(!root.get_end());
    assert_eq!(root.get_rank(), 0);
    assert_eq!(root.get_children().len(), 1);
    let (c, ti) = root.get_children()[0];
    assert_eq!(c, 't');
    let tnode = t.get_node(ti);
    assert_eq!(tnode.get_children().len(), 2);
    let oi = tnode.find_child('o').unwrap();
    let o = t.get_node(oi);
    assert!(o.get_end());
    assert_eq!(o.get_rank(), 2);
    assert_eq!(o.get_data(), "to");
    assert!(tnode.find_child('x').is_none());
    let ei = tnode.find_child('e').unwrap();
    let e = t.get_node(ei);
    assert!(!e.get_end());
    assert_eq!(e.get_data(), "");
}

#[test]
fn agrees_with_two_pass_sort() {
    let alphabet: Vec<char> = "abcAé".chars().collect();
    let mut seed: u64 = 12345;
    let mut next = move || {
        seed = seed.wrapping_mul(6364136223846793005).wrapping_add(1442695040888963407);
        (seed >> 33) as usize
    };
    let mut ac = Autocompleter::new();
    let mut counts: std::collections::BTreeMap<String, i32> = std::collections::BTreeMap::new();
    for _ in 0..600 {
        let len = next() % 4 + 1;
        let w: String = (0..len).map(|_| alphabet[next() % alphabet.len()]).collect();
        *counts.entry(w.clone()).or_insert(0) += 1;
        ac.add_word(w);
    }
    for prefix in ["a", "b", "ab", "A", "é", "ca", "cab", "aaaa", "zz"] {
        let mut expected: Vec<(i32, String)> = counts
            .iter()
            .filter(|(w, _)| w.starts_with(prefix))
            .map(|(w, c)| (*c, w.clone()))
            .collect();
        expected.sort_unstable_by(|a, b| a.1.cmp(&b.1));
        expected.sort_by(|a, b| b.0.cmp(&a.0));
        let expected: Vec<String> = expected.into_iter().take(ELEMENTS_TO_RETURN).map(|p| p.1).collect();
        assert_eq!(ac.predict_completions(&prefix.to_string()), expected, "prefix {prefix}");
    }
}

fn count_nodes(t: &Mwt, i: usize) -> usize {
    let node = t.get_node(i);
    let below: usize = node.get_children().iter().map(|&(_, j)| count_nodes(t, j)).sum();
    1 + below
}

fn leaves_end_words(t: &Mwt, i: usize) -> bool {
    let node = t.get_node(i);
    if node.get_children().is_empty() {
        return i == 0 || node.get_end();
    }
    node.get_children().iter().all(|&(_, j)| leaves_end_words(t, j))
}

#[test]
fn trie_grows_only_by_missing_prefixes() {
    let mut t = Mwt::new();
    assert_eq!(count_nodes(&t, 0), 1);
    assert!(t.get_root().get_children().is_empty());
    t.add_record("car".to_string());
    assert_eq!(count_nodes(&t, 0), 4);
    t.add_record("car".to_string());
    assert_eq!(count_nodes(&t, 0), 4);
    t.add_record("cart".to_string());
    assert_eq!(count_nodes(&t, 0), 5);
    t.add_record("ca".to_string());
    assert_eq!(count_nodes(&t, 0), 5);
    t.add_record(String::new());
    assert_eq!(count_nodes(&t, 0), 5);
    assert!(t.get_root().get_end());
    t.add_record("dog".to_string());
    assert_eq!(count_nodes(&t, 0), 8);
    let firsts: Vec<char> = t.get_root().get_children().iter().map(|&(c, _)| c).collect();
    assert_eq!(firsts, vec!['c', 'd']);
    assert!(leaves_end_words(&t, 0));
}
