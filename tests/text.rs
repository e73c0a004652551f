use markov_chain::{is_break, split_sentences, tokenize, Chain};

fn strings(v: &[&str]) -> Vec<String> {
    v.iter().map(|s| s.to_string()).collect()
}

#[test]
fn tokenizer_splits_words_and_punctuation() {
    let toks = tokenize("Hello, world! How are you?");
    assert_eq!(toks, strings(&["Hello", ",", "world", "!", "How", "are", "you", "?"]));
    let units = split_sentences(toks);
    assert_eq!(units, vec![strings(&["Hello", ",", "world", "!"]), strings(&["How", "are", "you", "?"])]);
}

#[test]
fn tokenizer_edge_cases() {
    assert!(tokenize("").is_empty());
    assert!(tokenize("  \t\n\r ").is_empty());
    assert_eq!(tokenize("well-known"), strings(&["well", "-", "known"]));
    assert_eq!(tokenize("He said \"hi.\""), strings(&["He", "said", "\"hi", ".\""]));
    assert_eq!(tokenize("Wait...what?!"), strings(&["Wait", "...", "what", "?!"]));
    assert_eq!(tokenize("a\tb\nc"), strings(&["a", "b", "c"]));
    assert_eq!(tokenize("caf\u{e9} na\u{ef}ve"), strings(&["caf\u{e9}", "na\u{ef}ve"]));
}

#[test]
fn break_tokens() {
    for t in [".", "?", "!", ".\"", "!\"", "?\"", ",\""] {
        assert!(is_break(t), "{}", t);
    }
    for t in [",", "-", "..", "\"", "a", "", "?!"] {
        assert!(!is_break(t), "{}", t);
    }
}

#[test]
fn trailing_tokens_form_a_final_unit() {
    let units = split_sentences(tokenize("One. Two three"));
    assert_eq!(units, vec![strings(&["One", "."]), strings(&["Two", "three"])]);
    assert!(split_sentences(vec![]).is_empty());
    let units = split_sentences(tokenize("Stop. Go."));
    assert_eq!(units, vec![strings(&["Stop", "."]), strings(&["Go", "."])]);
}

#[test]
fn train_string_trains_each_unit() {
    let mut chain = Chain::<String>::new(1);
    chain.train_string("Hello, world! How are you?");
    let start = vec![None];
    assert_eq!(chain.weight_of(&start, &Some("Hello".to_string())), 1);
    assert_eq!(chain.weight_of(&start, &Some("How".to_string())), 1);
    assert_eq!(chain.weight_of(&vec![Some("!".to_string())], &None), 1);
    assert_eq!(chain.weight_of(&vec![Some("world".to_string())], &Some("!".to_string())), 1);
    assert_eq!(chain.weight_of(&vec![Some("world".to_string())], &Some("How".to_string())), 0);
}

#[test]
fn generate_sentence_on_empty_chain_is_empty() {
    let chain = Chain::<String>::new(1);
    assert_eq!(chain.generate_sentence(), "");
    assert_eq!(chain.generate_paragraph(3), "  ");
}

#[test]
fn generate_paragraph_of_zero_sentences_is_empty() {
    let mut chain = Chain::<String>::new(2);
    chain.train_string("The cat sat. The dog ran!");
    assert_eq!(chain.generate_paragraph(0), "");
}

#[test]
fn generate_sentence_attaches_punctuation() {
    let mut chain = Chain::<String>::new(1);
    chain.train_string("Hello, world.");
    assert_eq!(chain.generate_sentence(), "Hello, world.");
    assert_eq!(chain.generate_paragraph(2), "Hello, world. Hello, world.");
}

#[test]
fn generate_sentence_stops_at_a_break() {
    let mut chain = Chain::<String>::new(2);
    chain.train_string("It rained \"all day.\" Then sun");
    for _ in 0..20 {
        let s = chain.generate_sentence();
        assert!(s == "It rained \"all day.\"" || s == "Then sun", "unexpected {}", s);
    }
}
