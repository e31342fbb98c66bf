use dsalgo::tries::TrieNode;

fn example() -> TrieNode {
    let mut trie = TrieNode::new();
    for w in ["car", "careful", "card", "care", "egg"] {
        trie.insert(w);
    }
    trie
}

fn strings(words: &[&str]) -> Vec<String> {
    words.iter().map(|w| w.to_string()).collect()
}

#[test]
fn trie_new_holds_nothing() {
    let trie = TrieNode::new();
    assert!(!trie.contains(""));
    assert!(!trie.contains("a"));
    assert_eq!(trie.child_count(), 0);
    assert!(!trie.is_end_of_word());
    assert_eq!(trie.count_words(), 0);
    assert_eq!(trie.find_words(String::new()), Vec::<String>::new());
}

#[test]
fn trie_contains_inserted_words_only() {
    let trie = example();
    for w in ["car", "careful", "card", "care", "egg"] {
        assert!(trie.contains(w));
    }
    assert!(!trie.contains("ca"));
    assert!(!trie.contains("caref"));
    assert!(!trie.contains("eggs"));
    assert!(!trie.contains(""));
    assert!(!trie.contains("dog"));
}

#[test]
fn trie_empty_word_ends_at_the_top() {
    let mut trie = TrieNode::new();
    trie.insert("");
    assert!(trie.contains(""));
    assert!(trie.is_end_of_word());
    assert_eq!(trie.count_words(), 0);
    assert_eq!(trie.find_words(String::new()), strings(&[""]));
}

#[test]
fn trie_children_stand_in_order_of_insertion() {
    let trie = example();
    assert_eq!(trie.child_count(), 2);
    assert_eq!(trie.child(0).0, 'c');
    assert_eq!(trie.child(1).0, 'e');
    assert!(trie.has_children(&'c'));
    assert!(!trie.has_children(&'x'));
    assert!(trie.get_children(&'e').is_some());
    assert!(trie.get_children(&'x').is_none());
    let r = trie.find_last_node_of(&"car".to_string()).unwrap();
    assert!(r.is_end_of_word());
    assert_eq!(r.child_count(), 2);
    assert_eq!(r.child(0).0, 'e');
    assert_eq!(r.child(1).0, 'd');
    assert!(trie.find_last_node_of(&"cat".to_string()).is_none());
}

#[test]
fn trie_find_words_lists_words_with_the_prefix() {
    let trie = example();
    assert_eq!(trie.find_words("egg".to_string()), strings(&["egg"]));
    assert_eq!(trie.find_words("e".to_string()), strings(&["egg"]));
    assert_eq!(
        trie.find_words("car".to_string()),
        strings(&["car", "care", "careful", "card"])
    );
    assert_eq!(trie.find_words("care".to_string()), strings(&["care", "careful"]));
    assert_eq!(
        trie.find_words(String::new()),
        strings(&["car", "care", "careful", "card", "egg"])
    );
    assert_eq!(trie.find_words("x".to_string()), Vec::<String>::new());
    assert_eq!(trie.find_words("cars".to_string()), Vec::<String>::new());
}

#[test]
fn trie_counts_words() {
    assert_eq!(example().count_words(), 5);
    let mut trie = TrieNode::new();
    trie.insert("a");
    trie.insert("a");
    trie.insert("ab");
    assert_eq!(trie.count_words(), 2);
}

#[test]
fn trie_remove_takes_the_word_and_dead_nodes() {
    let mut trie = TrieNode::new();
    trie.insert("car");
    trie.insert("care");
    trie.remove("care".to_string());
    assert!(trie.contains("car"));
    assert!(!trie.contains("care"));
    let r = trie.find_last_node_of(&"car".to_string()).unwrap();
    assert_eq!(r.child_count(), 0);
    trie.remove("car".to_string());
    assert!(!trie.contains("car"));
    assert_eq!(trie.child_count(), 0);
}

#[test]
fn trie_remove_keeps_longer_words() {
    let mut trie = example();
    trie.remove("car".to_string());
    assert!(!trie.contains("car"));
    assert!(trie.contains("care"));
    assert!(trie.contains("card"));
    assert!(trie.contains("careful"));
    assert_eq!(trie.count_words(), 4);
}

#[test]
fn trie_remove_of_a_missing_word_changes_nothing() {
    let mut trie = example();
    trie.remove("cat".to_string());
    trie.remove("ca".to_string());
    trie.remove("zebra".to_string());
    trie.remove("é".to_string());
    assert_eq!(
        trie.find_words(String::new()),
        strings(&["car", "care", "careful", "card", "egg"])
    );
}

#[test]
fn trie_longest_common_prefix_of_the_example() {
    let trie = example();
    assert_eq!(trie.longest_common_prefix(strings(&["god", "go"])), "go");
}

#[test]
fn trie_longest_common_prefix_does_not_depend_on_the_receiver() {
    let empty = TrieNode::new();
    let full = example();
    for words in [
        strings(&["card", "care", "carbon"]),
        strings(&["card", "care", "cow"]),
        strings(&["go"]),
        strings(&["a", "b"]),
        strings(&["same", "same"]),
        strings(&["", "x"]),
    ] {
        assert_eq!(
            empty.longest_common_prefix(words.clone()),
            full.longest_common_prefix(words)
        );
    }
}

#[test]
fn trie_longest_common_prefix_values() {
    let trie = TrieNode::new();
    assert_eq!(trie.longest_common_prefix(strings(&["card", "care", "carbon"])), "car");
    assert_eq!(trie.longest_common_prefix(strings(&["card", "care", "cow"])), "c");
    assert_eq!(trie.longest_common_prefix(strings(&["go"])), "go");
    assert_eq!(trie.longest_common_prefix(strings(&["a", "b"])), "");
    assert_eq!(trie.longest_common_prefix(strings(&["same", "same"])), "same");
    assert_eq!(trie.longest_common_prefix(strings(&["", "x"])), "");
    assert_eq!(trie.longest_common_prefix(Vec::new()), "");
}

#[test]
fn trie_walk_reports_ends_and_characters() {
    let mut trie = TrieNode::new();
    trie.insert("ab");
    trie.insert("a");
    trie.insert("c");
    assert_eq!(
        trie.traverse(),
        strings(&["a", "End of word", "b", "End of word", "c", "End of word"])
    );
}

#[test]
fn trie_takes_words_beyond_ascii() {
    let mut trie = TrieNode::new();
    trie.insert("été");
    trie.insert("é");
    assert!(trie.contains("été"));
    assert!(trie.contains("é"));
    assert!(!trie.contains("ét"));
    assert_eq!(trie.find_words("é".to_string()), strings(&["é", "été"]));
}

#[test]
fn trie_built_from_parts() {
    let leaf = TrieNode::new().with_end(true);
    let trie = TrieNode::new().with_child('a', leaf).with_child('b', TrieNode::new().with_end(true));
    assert!(trie.contains("a"));
    assert!(trie.contains("b"));
    assert!(!trie.contains(""));
    assert_eq!(trie.find_words(String::new()), strings(&["a", "b"]));
    assert_eq!(trie.child_count(), 2);
}
