use token_trie::trie::Trie;
use token_trie::tokenizer::KeyCodec;

#[test]
fn add_makes_key_present() {
    let mut t: Trie<u32> = Trie::with_slice(1);
    t.add("cat", Some(7));
    assert!(t.key_exists("cat"));
    assert_eq!(t.get("cat").unwrap().data, Some(7));
}

#[test]
fn add_then_remove_makes_key_absent() {
    let mut t: Trie<u32> = Trie::with_slice(1);
    t.add("cat", Some(7));
    t.remove("cat");
    assert!(!t.key_exists("cat"));
    assert!(t.get("cat").is_none());
}

#[test]
fn removing_longer_key_keeps_prefix_key() {
    let mut t: Trie<u32> = Trie::with_slice(1);
    t.add("ab", Some(1));
    t.add("abcd", Some(2));
    t.remove("abcd");
    assert!(t.key_exists("ab"));
    assert!(!t.key_exists("abcd"));
}

#[test]
fn remove_of_shared_prefix_keeps_node_for_longer_key() {
    let mut t: Trie<u32> = Trie::with_slice(1);
    t.add("x", Some(1));
    t.add("xy", Some(2));
    t.remove("x");
    assert!(!t.key_exists("x"));
    assert!(t.key_exists("xy"));
    // the node for "x" is retained (not pruned): "xy" still passes through it
    assert!(t.get("x").is_some());
    assert_eq!(t.child_count(), 1);
}

#[test]
fn add_remove_cycle_restores_child_count() {
    let mut t: Trie<u32> = Trie::with_slice(1);
    t.add("keep", Some(0));
    let before = t.child_count();
    t.add("cycle", Some(1));
    t.remove("cycle");
    assert_eq!(t.child_count(), before);
    // repeated cycles do not grow the tree either
    for _ in 0..5 {
        t.add("cycle", Some(1));
        t.remove("cycle");
    }
    assert_eq!(t.child_count(), before);
}

#[test]
fn double_add_needs_one_remove_but_keeps_counts() {
    // inserting an existing key again still raises the counts along the path
    let mut t: Trie<u32> = Trie::with_slice(1);
    t.add("ab", Some(1));
    t.add("ab", Some(2));
    assert_eq!(t.get("ab").unwrap().data, Some(2));
    t.remove("ab");
    // one removal clears the key-end flag...
    assert!(!t.key_exists("ab"));
    // ...but the doubled counts keep the nodes alive
    assert!(t.get("ab").is_some());
    assert_eq!(t.child_count(), 1);
}

#[test]
fn remove_of_empty_key_keeps_entry_flag() {
    // a key with no tokens flags the entry node itself; removal only prunes
    let mut t: Trie<u32> = Trie::with_slice(1);
    t.add("", Some(9));
    assert!(t.key_exists(""));
    t.remove("");
    assert!(t.key_exists(""));
}

#[test]
fn remove_of_absent_key_is_no_op() {
    let mut t: Trie<u32> = Trie::with_delimiter(String::from("."));
    t.add("a.b", Some(1));
    t.remove("a.c");
    t.remove("nothing");
    assert!(t.key_exists("a.b"));
}

#[test]
fn prefix_enumeration_returns_all_keys_under_prefix() {
    let mut t: Trie<u32> = Trie::with_delimiter(String::from("."));
    t.add("a.b.c", Some(1));
    t.add("a.b.d", Some(2));
    let mut keys = t.get_keys_under_prefix("a.b");
    keys.sort();
    assert_eq!(keys, vec![String::from("a.b.c"), String::from("a.b.d")]);
}

#[test]
fn fuzzy_get_matches_substring_of_last_token() {
    let mut t: Trie<u32> = Trie::with_delimiter(String::from("."));
    t.add("user.alice", Some(1));
    t.add("user.albert", Some(2));
    t.add("user.bob", Some(3));
    let nodes = t.fuzzy_get("user.al");
    assert_eq!(nodes.len(), 2);
    let mut data: Vec<u32> = nodes.iter().map(|n| n.data.unwrap()).collect();
    data.sort();
    assert_eq!(data, vec![1, 2]);
}

#[test]
fn fuzzy_get_per_character() {
    let mut t: Trie<u32> = Trie::with_slice(1);
    t.add("cat", Some(1));
    t.add("car", Some(2));
    // fragment is the single character "a" under the "c" node
    let nodes = t.fuzzy_get("ca");
    assert_eq!(nodes.len(), 1);
    let deeper = t.fuzzy_get("cat");
    assert_eq!(deeper.len(), 1);
    assert_eq!(deeper[0].data, Some(1));
}

#[test]
fn partial_path_reconstructs_candidates() {
    let mut t: Trie<u32> = Trie::with_slice(3);
    t.add("abc", Some(1));
    // no exact token "ab": candidates come from children starting with "ab"
    let keys = t.get_keys_by_partial_path("ab");
    assert_eq!(keys, vec![String::from("abc")]);
}

#[test]
fn partial_path_returns_key_itself_on_exact_token() {
    let mut t: Trie<u32> = Trie::with_delimiter(String::from("."));
    t.add("a.b", Some(1));
    let keys = t.get_keys_by_partial_path("a.b");
    assert_eq!(keys, vec![String::from("a.b")]);
}

#[test]
fn partial_path_trims_fragment() {
    let mut t: Trie<u32> = Trie::with_delimiter(String::from("."));
    t.add("a.bc", Some(1));
    let keys = t.get_keys_by_partial_path("a.b ");
    assert_eq!(keys, vec![String::from("a.bc")]);
}

#[test]
fn get_resolves_intermediate_nodes() {
    // distinguishes real grapheme segmentation from handing the key back whole
    let mut t: Trie<u32> = Trie::with_slice(1);
    t.add("ab", Some(1));
    assert!(t.get("a").is_some());
    assert!(!t.key_exists("a"));
    assert!(t.get("b").is_none());
}

#[test]
fn get_mut_allows_payload_update() {
    let mut t: Trie<u32> = Trie::with_slice(1);
    t.add("ab", Some(1));
    {
        let node = t.get_mut("ab").unwrap();
        node.data = Some(42);
    }
    assert_eq!(t.get("ab").unwrap().data, Some(42));
    assert!(t.get_mut("zz").is_none());
}

#[test]
fn default_trie_is_per_character() {
    let mut t: Trie<u32> = Trie::default();
    t.add("hi", Some(5));
    assert!(t.key_exists("hi"));
    assert!(t.get("h").is_some());
}

#[test]
fn new_from_current_carries_tokenizer() {
    let mut root: Trie<u32> = Trie::with_delimiter(String::from("-"));
    root.add("a-b", Some(1));
    let mut fresh = root.new_from_current();
    assert_eq!(fresh.child_count(), 0);
    fresh.add("x-y", Some(2));
    assert!(fresh.key_exists("x-y"));
    assert!(fresh.get("x").is_some());
}

#[test]
fn custom_tokenizer_drives_all_operations() {
    let codec = KeyCodec::new(
        |key: String| key.split('-').map(|s| s.to_string()).collect(),
        |tokens: Vec<String>| tokens.join("-"),
    );
    let mut t: Trie<u32> = Trie::with_custom_tokenization(codec);
    t.add("a-b-c", Some(1));
    t.add("a-b-d", Some(2));
    assert!(t.key_exists("a-b-c"));
    let mut keys = t.get_keys_under_prefix("a-b");
    keys.sort();
    assert_eq!(keys, vec![String::from("a-b-c"), String::from("a-b-d")]);
    t.remove("a-b-c");
    assert!(!t.key_exists("a-b-c"));
    assert!(t.key_exists("a-b-d"));
}

#[test]
fn multibyte_keys_split_on_grapheme_boundaries() {
    let mut t: Trie<u32> = Trie::with_slice(1);
    t.add("héllo", Some(1));
    assert!(t.key_exists("héllo"));
    assert!(t.get("h").is_some());
    let mut keys = t.get_keys_under_prefix("h");
    keys.sort();
    assert_eq!(keys, vec![String::from("héllo")]);
}
