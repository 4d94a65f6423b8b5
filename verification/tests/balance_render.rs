use subkatsu::{balance_symbols, write_tokens};

fn toks(words: &[&str]) -> Vec<String> {
    words.iter().map(|w| w.to_string()).collect()
}

#[test]
fn unmatched_closer_needs_an_opener_before() {
    let (pre, post) = balance_symbols(&toks(&[")", "x"]));
    assert_eq!(pre, vec!["("]);
    assert_eq!(post, Vec::<String>::new());
}

#[test]
fn unmatched_opener_needs_a_closer_after() {
    let (pre, post) = balance_symbols(&toks(&["x", "("]));
    assert_eq!(pre, Vec::<String>::new());
    assert_eq!(post, vec![")"]);
}

#[test]
fn stray_closer_and_opener_each_get_a_partner() {
    // an opener is needed before the stray ")" and a closer after the
    // stray "(": the two do not pair with each other
    let (pre, post) = balance_symbols(&toks(&[")", "x", "("]));
    assert_eq!(pre, vec!["("]);
    assert_eq!(post, vec![")"]);
}

#[test]
fn repaired_excerpt_is_well_formed() {
    // ")(" needs an opener before and a closer after: "()" around it
    let (pre, post) = balance_symbols(&toks(&[")("]));
    assert_eq!(pre, vec!["("]);
    assert_eq!(post, vec![")"]);
}

#[test]
fn balanced_input_needs_nothing() {
    let (pre, post) = balance_symbols(&toks(&["(", "x", ")"]));
    assert_eq!(pre, Vec::<String>::new());
    assert_eq!(post, Vec::<String>::new());
}

#[test]
fn nested_suffix_closes_in_order() {
    // two unmatched openers owe two closers, innermost first
    let (pre, post) = balance_symbols(&toks(&["(", "[", "x"]));
    assert_eq!(pre, Vec::<String>::new());
    assert_eq!(post, vec!["]", ")"]);
}

#[test]
fn nested_prefix_opens_in_order() {
    let (pre, post) = balance_symbols(&toks(&["x", "]", ")"]));
    assert_eq!(pre, vec!["(", "["]);
    assert_eq!(post, Vec::<String>::new());
}

#[test]
fn quotes_pair_with_themselves() {
    let (pre, post) = balance_symbols(&toks(&["\"", "hi"]));
    assert_eq!(pre, Vec::<String>::new());
    assert_eq!(post, vec!["\""]);

    // the second quote settles the expectation the first one opened
    let (pre2, post2) = balance_symbols(&toks(&["\"", "hi", "\""]));
    assert_eq!(pre2, Vec::<String>::new());
    assert_eq!(post2, Vec::<String>::new());
}

#[test]
fn fullwidth_brackets_balance_too() {
    let (pre, post) = balance_symbols(&toks(&["「こんにちは"]));
    assert_eq!(pre, Vec::<String>::new());
    assert_eq!(post, vec!["」"]);
}

#[test]
fn symbols_inside_words_count() {
    let (pre, post) = balance_symbols(&toks(&["a(b", "c"]));
    assert_eq!(pre, Vec::<String>::new());
    assert_eq!(post, vec![")"]);
}

#[test]
fn render_joins_words_with_spaces() {
    assert_eq!(write_tokens(&toks(&["the", "quick", "fox"])), "the quick fox");
}

#[test]
fn render_round_trips_simple_sentences() {
    // tokenize then render reproduces the original spacing for plain text
    let original = "the quick brown fox";
    let rendered = write_tokens(&subkatsu::tokenize(original));
    assert_eq!(rendered, original);
}

#[test]
fn render_attaches_punctuation() {
    assert_eq!(write_tokens(&toks(&["Hello", ",", "world", "!"])), "Hello, world!");
}

#[test]
fn render_glues_quotes_to_content() {
    assert_eq!(write_tokens(&toks(&["\"", "hi", "\""])), "\"hi\"");
    assert_eq!(write_tokens(&toks(&["say", "\"", "hi", "\"", "now"])), "say \"hi\" now");
}

#[test]
fn render_empty_is_empty() {
    assert_eq!(write_tokens(&Vec::new()), "");
}
