use token_trie::tokenizer::{Tokenizer, KeyCodec};

#[test]
fn slice_packs_whole_clusters_up_to_byte_width() {
    let tk = Tokenizer::Slice(2);
    assert_eq!(tk.tokenize(String::from("abc")), vec!["ab", "c"]);
    assert_eq!(tk.tokenize(String::from("abcd")), vec!["ab", "cd"]);
    assert_eq!(tk.tokenize(String::from("")), Vec::<String>::new());
}

#[test]
fn slice_flushes_empty_token_before_oversized_cluster() {
    // "é" is two bytes: it does not fit a one-byte token, so the pending
    // (empty) token is flushed first and the cluster stands alone
    let tk = Tokenizer::Slice(1);
    assert_eq!(tk.tokenize(String::from("é")), vec!["", "é"]);
    assert_eq!(tk.tokenize(String::from("aé")), vec!["a", "é"]);
}

#[test]
fn slice_round_trip() {
    for key in ["", "a", "héllo wörld", "ab cd ef", "日本語"] {
        for width in [1usize, 2, 3, 10] {
            let tk = Tokenizer::Slice(width);
            let tokens = tk.tokenize(String::from(key));
            assert_eq!(tk.detokenize(tokens), key);
        }
    }
}

#[test]
fn delimiter_splits_keeping_empty_tokens() {
    let tk = Tokenizer::Delimiter(String::from("."));
    assert_eq!(tk.tokenize(String::from("a..b")), vec!["a", "", "b"]);
    assert_eq!(tk.tokenize(String::from(".a.")), vec!["", "a", ""]);
    assert_eq!(tk.tokenize(String::from("")), vec![""]);
    let tk2 = Tokenizer::Delimiter(String::from("::"));
    assert_eq!(tk2.tokenize(String::from("a::b::c")), vec!["a", "b", "c"]);
}

#[test]
fn delimiter_round_trip() {
    for key in ["", "a.b.c", "..", "a", "x.y..z.", "a::b:c"] {
        for sep in [".", "::", "", "x"] {
            let tk = Tokenizer::Delimiter(String::from(sep));
            let tokens = tk.tokenize(String::from(key));
            assert_eq!(tk.detokenize(tokens), key, "key {:?} sep {:?}", key, sep);
        }
    }
}

#[test]
fn empty_delimiter_matches_character_split() {
    let tk = Tokenizer::Delimiter(String::new());
    assert_eq!(tk.tokenize(String::from("abc")), vec!["", "a", "b", "c", ""]);
    assert_eq!(tk.detokenize(vec![
        String::new(),
        String::from("a"),
        String::from("b"),
        String::new(),
    ]), "ab");
}

#[test]
fn detokenize_joins_with_delimiter() {
    let tk = Tokenizer::Delimiter(String::from("."));
    let joined = tk.detokenize(vec![String::from("a"), String::from("b"), String::from("c")]);
    assert_eq!(joined, "a.b.c");
    let slice_tk = Tokenizer::Slice(2);
    let packed = slice_tk.detokenize(vec![String::from("ab"), String::from("c")]);
    assert_eq!(packed, "abc");
}

#[test]
fn duplicate_keeps_strategy() {
    let tk = Tokenizer::Delimiter(String::from("-"));
    let copy = tk.duplicate();
    assert_eq!(copy.tokenize(String::from("a-b")), vec!["a", "b"]);
}

#[test]
fn custom_codec_functions_are_invoked_as_given() {
    let codec = KeyCodec::new(
        |key: String| key.chars().rev().map(|c| c.to_string()).collect(),
        |tokens: Vec<String>| tokens.concat(),
    );
    let tk = Tokenizer::Custom(codec);
    assert_eq!(tk.tokenize(String::from("abc")), vec!["c", "b", "a"]);
    assert_eq!(
        tk.detokenize(vec![String::from("x"), String::from("y")]),
        "xy"
    );
}
